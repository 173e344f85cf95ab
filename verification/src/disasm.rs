//! The disassembly indexer: parses an annotated listing into a
//! line-indexed model plus a per-source-file lookup table correlating
//! source lines to machine-instruction runs.
//!
//! The listing is scanned linearly.  A source-location marker
//! `<path>:<line>` opens a run: the following instruction lines are
//! counted (literal data excluded) and their text accumulated; an
//! instruction that calls a registered outlined function also contributes
//! that block's count and text.  Each marker yields one [`LookupInfo`],
//! appended to the entry of its source file.  A malformed marker is a
//! fatal format error.

use vstd::prelude::*;
use vstd::string::*;

use crate::grammar::{classify, spec_class, LineClass, LineShape};
use crate::outlined::{
    build_outlined_table, spec_build_table, spec_table_lookup, OutlinedEntryA, OutlinedTable,
};
use crate::util::{clone_lines, seq_views};

verus! {

/// One correlation record: at listing line `disassembly_line_index`, a
/// marker tagged source line `source_line` of some file, and the following
/// run held `instruction_count` machine instructions whose text is
/// `instruction_text`.
#[derive(Debug, PartialEq, Eq)]
pub struct LookupInfo {
    pub source_line: u64,
    pub disassembly_line_index: usize,
    pub instruction_count: u64,
    pub instruction_text: Vec<String>,
}

/// Ghost image of a [`LookupInfo`].
pub struct LookupInfoA {
    pub source_line: int,
    pub disassembly_line_index: int,
    pub instruction_count: int,
    pub instruction_text: Seq<Seq<char>>,
}

impl View for LookupInfo {
    type V = LookupInfoA;

    open spec fn view(&self) -> LookupInfoA {
        LookupInfoA {
            source_line: self.source_line as int,
            disassembly_line_index: self.disassembly_line_index as int,
            instruction_count: self.instruction_count as int,
            instruction_text: seq_views(self.instruction_text),
        }
    }
}

/// The records of one source file, in the order the listing produced them
/// (not necessarily sorted by source line: lookups scan).
#[derive(Debug, PartialEq, Eq)]
pub struct SourceFileEntry {
    pub file: String,
    pub infos: Vec<LookupInfo>,
}

/// Ghost image of a [`SourceFileEntry`].
pub struct SourceFileEntryA {
    pub file: Seq<char>,
    pub infos: Seq<LookupInfoA>,
}

impl View for SourceFileEntry {
    type V = SourceFileEntryA;

    open spec fn view(&self) -> SourceFileEntryA {
        SourceFileEntryA { file: self.file@, infos: seq_views(self.infos) }
    }
}

/// The line-indexed model of a disassembled binary.
#[derive(Debug, PartialEq, Eq)]
pub struct DisassemblyModel {
    pub lines: Vec<String>,
    pub source_index: Vec<SourceFileEntry>,
}

/// A location marker that does not split into a path and a line number.
#[derive(Debug, PartialEq, Eq)]
pub enum DisassemblyError {
    MalformedLocationMarker { line_index: usize },
}

/// Count, text and end index of the instruction run starting at line `j`:
/// consecutive instruction lines, each counted once (literal data
/// excluded), a call to a registered outlined function adding that block's
/// count and text.
pub open spec fn run_scan(lines: Seq<String>, table: Seq<OutlinedEntryA>, j: int) -> (
    int,
    Seq<Seq<char>>,
    int,
)
    decreases lines.len() - j,
{
    if j < 0 || j >= lines.len() {
        (0, Seq::empty(), j)
    } else {
        match spec_class(lines[j]@) {
            LineShape::Instruction { literal_data, callee } => {
                let rest = run_scan(lines, table, j + 1);
                if literal_data {
                    rest
                } else {
                    let ex = match callee {
                        Some(name) => match spec_table_lookup(table, name) {
                            Some(e) => (e.instruction_count, e.text),
                            None => (0int, Seq::<Seq<char>>::empty()),
                        },
                        None => (0int, Seq::<Seq<char>>::empty()),
                    };
                    (1 + ex.0 + rest.0, seq![lines[j]@] + ex.1 + rest.1, rest.2)
                }
            },
            _ => (0, Seq::empty(), j),
        }
    }
}

/// Outlined-function expansion: a counted call-site instruction that
/// references a registered outlined function contributes its own count
/// plus the block's count to its run.
pub proof fn lemma_outlined_expansion(
    lines: Seq<String>,
    table: Seq<OutlinedEntryA>,
    j: int,
    name: Seq<char>,
    e: OutlinedEntryA,
)
    requires
        0 <= j < lines.len(),
        spec_class(lines[j]@) == (LineShape::Instruction {
            literal_data: false,
            callee: Some(name),
        }),
        spec_table_lookup(table, name) == Some(e),
    ensures
        run_scan(lines, table, j).0 == 1 + e.instruction_count + run_scan(lines, table, j + 1).0,
{
}

/// Index of the first entry for `file` at or after `i`.
pub open spec fn first_file_idx(entries: Seq<SourceFileEntryA>, file: Seq<char>, i: int) -> Option<
    int,
>
    decreases entries.len() - i,
{
    if i < 0 || i >= entries.len() {
        None
    } else if entries[i].file == file {
        Some(i)
    } else {
        first_file_idx(entries, file, i + 1)
    }
}

/// Append `info` to the entry of `file`, creating the entry if the file is
/// new.
pub open spec fn spec_index_register(
    entries: Seq<SourceFileEntryA>,
    file: Seq<char>,
    info: LookupInfoA,
) -> Seq<SourceFileEntryA> {
    match first_file_idx(entries, file, 0) {
        Some(k) => entries.update(
            k,
            SourceFileEntryA { file: entries[k].file, infos: entries[k].infos.push(info) },
        ),
        None => entries.push(SourceFileEntryA { file: file, infos: seq![info] }),
    }
}

/// The source index described by a listing: markers open runs; the scan
/// resumes where a run ends; a malformed marker is fatal, reported by its
/// line index.
pub open spec fn spec_build_index(
    lines: Seq<String>,
    table: Seq<OutlinedEntryA>,
    i: int,
    acc: Seq<SourceFileEntryA>,
) -> Result<Seq<SourceFileEntryA>, int>
    decreases lines.len() - i,
{
    if i < 0 || i >= lines.len() {
        Ok(acc)
    } else {
        match spec_class(lines[i]@) {
            LineShape::MalformedMarker => Err(i),
            LineShape::Marker { file, line } => {
                let run = run_scan(lines, table, i + 1);
                let info = LookupInfoA {
                    source_line: line,
                    disassembly_line_index: i,
                    instruction_count: run.0,
                    instruction_text: run.1,
                };
                let next = if run.2 > i && run.2 <= lines.len() {
                    run.2
                } else {
                    i + 1
                };
                spec_build_index(lines, table, next, spec_index_register(acc, file, info))
            },
            _ => spec_build_index(lines, table, i + 1, acc),
        }
    }
}

/// Sum of the instruction counts of a file entry's records.
pub open spec fn sum_counts_infos(infos: Seq<LookupInfoA>) -> int
    decreases infos.len(),
{
    if infos.len() == 0 {
        0
    } else {
        sum_counts_infos(infos.drop_last()) + infos.last().instruction_count
    }
}

/// Sum of the instruction counts of every record of the index.
pub open spec fn sum_counts(entries: Seq<SourceFileEntryA>) -> int
    decreases entries.len(),
{
    if entries.len() == 0 {
        0
    } else {
        sum_counts(entries.drop_last()) + sum_counts_infos(entries.last().infos)
    }
}

/// Number of records of a file entry anchored at listing line `d`.
pub open spec fn occ_infos(infos: Seq<LookupInfoA>, d: int) -> int
    decreases infos.len(),
{
    if infos.len() == 0 {
        0
    } else {
        occ_infos(infos.drop_last(), d) + if infos.last().disassembly_line_index == d {
            1int
        } else {
            0int
        }
    }
}

/// Number of records of the index anchored at listing line `d`.
pub open spec fn occ_entries(entries: Seq<SourceFileEntryA>, d: int) -> int
    decreases entries.len(),
{
    if entries.len() == 0 {
        0
    } else {
        occ_entries(entries.drop_last(), d) + occ_infos(entries.last().infos, d)
    }
}

/// Every record's count is non-negative.
pub open spec fn counts_nonneg(entries: Seq<SourceFileEntryA>) -> bool {
    forall|k: int, j: int|
        0 <= k < entries.len() && 0 <= j < entries[k].infos.len() ==> (
        #[trigger] entries[k].infos[j]).instruction_count >= 0
}

/// A well-formed index: counts are non-negative, no listing line anchors
/// more than one record, and the total count fits the count type.
pub open spec fn index_wf(entries: Seq<SourceFileEntryA>) -> bool {
    &&& counts_nonneg(entries)
    &&& forall|d: int| #[trigger] occ_entries(entries, d) <= 1
    &&& sum_counts(entries) <= u64::MAX
}

/// Registering a record with a non-negative count keeps every count
/// non-negative.
pub proof fn lemma_register_nonneg(
    entries: Seq<SourceFileEntryA>,
    file: Seq<char>,
    info: LookupInfoA,
)
    requires
        counts_nonneg(entries),
        info.instruction_count >= 0,
    ensures
        counts_nonneg(spec_index_register(entries, file, info)),
{
    let r = spec_index_register(entries, file, info);
    match first_file_idx(entries, file, 0) {
        Some(k) => {
            lemma_first_file_idx_bounds(entries, file, 0);
            assert forall|a: int, b: int|
                0 <= a < r.len() && 0 <= b < r[a].infos.len() implies (
            #[trigger] r[a].infos[b]).instruction_count >= 0 by {
                if a == k {
                    if b < entries[k].infos.len() {
                        assert(r[a].infos[b] == entries[k].infos[b]);
                    } else {
                        assert(r[a].infos[b] == info);
                    }
                } else {
                    assert(r[a] == entries[a]);
                }
            }
        },
        None => {
            assert forall|a: int, b: int|
                0 <= a < r.len() && 0 <= b < r[a].infos.len() implies (
            #[trigger] r[a].infos[b]).instruction_count >= 0 by {
                if a < entries.len() {
                    assert(r[a] == entries[a]);
                } else {
                    assert(r[a].infos[b] == info);
                }
            }
        },
    }
}

/// Occurrence counts within one file entry are bounded by its size.
pub proof fn lemma_occ_infos_nonneg(infos: Seq<LookupInfoA>, d: int)
    ensures
        0 <= occ_infos(infos, d) <= infos.len(),
    decreases infos.len(),
{
    if infos.len() > 0 {
        lemma_occ_infos_nonneg(infos.drop_last(), d);
    }
}

/// Occurrence counts over the index are non-negative.
pub proof fn lemma_occ_entries_nonneg(entries: Seq<SourceFileEntryA>, d: int)
    ensures
        0 <= occ_entries(entries, d),
    decreases entries.len(),
{
    if entries.len() > 0 {
        lemma_occ_entries_nonneg(entries.drop_last(), d);
        lemma_occ_infos_nonneg(entries.last().infos, d);
    }
}

/// Registering a record adds its count to the total.
pub proof fn lemma_register_sum(
    entries: Seq<SourceFileEntryA>,
    file: Seq<char>,
    info: LookupInfoA,
)
    ensures
        sum_counts(spec_index_register(entries, file, info)) == sum_counts(entries)
            + info.instruction_count,
{
    match first_file_idx(entries, file, 0) {
        Some(k) => {
            lemma_first_file_idx_bounds(entries, file, 0);
            let e2 = SourceFileEntryA {
                file: entries[k].file,
                infos: entries[k].infos.push(info),
            };
            assert(e2.infos.drop_last() =~= entries[k].infos);
            assert(e2.infos.last() == info);
            assert(sum_counts_infos(e2.infos) == sum_counts_infos(entries[k].infos)
                + info.instruction_count);
            lemma_sum_update(entries, k, e2);
        },
        None => {
            let e2 = SourceFileEntryA { file: file, infos: seq![info] };
            assert(entries.push(e2).drop_last() =~= entries);
            assert(entries.push(e2).last() == e2);
            assert(e2.infos.len() == 1);
            assert(e2.infos.drop_last() =~= Seq::<LookupInfoA>::empty());
            assert(e2.infos.last() == info);
            assert(sum_counts_infos(Seq::<LookupInfoA>::empty()) == 0);
            assert(sum_counts_infos(e2.infos) == info.instruction_count);
        },
    }
}

/// A found file entry lies in range and carries the looked-up name.
pub proof fn lemma_first_file_idx_bounds(entries: Seq<SourceFileEntryA>, file: Seq<char>, i: int)
    requires
        0 <= i <= entries.len(),
    ensures
        match first_file_idx(entries, file, i) {
            Some(k) => i <= k < entries.len() && entries[k].file == file,
            None => true,
        },
    decreases entries.len() - i,
{
    if i < entries.len() && !(entries[i].file == file) {
        lemma_first_file_idx_bounds(entries, file, i + 1);
    }
}

/// Updating one entry changes the total by the difference of that entry's
/// sums.
pub proof fn lemma_sum_update(entries: Seq<SourceFileEntryA>, k: int, e2: SourceFileEntryA)
    requires
        0 <= k < entries.len(),
    ensures
        sum_counts(entries.update(k, e2)) == sum_counts(entries) - sum_counts_infos(
            entries[k].infos,
        ) + sum_counts_infos(e2.infos),
    decreases entries.len(),
{
    let u = entries.update(k, e2);
    if k == entries.len() - 1 {
        assert(u.drop_last() =~= entries.drop_last());
        assert(u.last() == e2);
    } else {
        assert(u.drop_last() =~= entries.drop_last().update(k, e2));
        assert(u.last() == entries.last());
        lemma_sum_update(entries.drop_last(), k, e2);
    }
}

/// Updating one entry changes an anchor's record count by the difference
/// at that entry.
pub proof fn lemma_occ_update(entries: Seq<SourceFileEntryA>, k: int, e2: SourceFileEntryA, d: int)
    requires
        0 <= k < entries.len(),
    ensures
        occ_entries(entries.update(k, e2), d) == occ_entries(entries, d) - occ_infos(
            entries[k].infos,
            d,
        ) + occ_infos(e2.infos, d),
    decreases entries.len(),
{
    let u = entries.update(k, e2);
    if k == entries.len() - 1 {
        assert(u.drop_last() =~= entries.drop_last());
        assert(u.last() == e2);
    } else {
        assert(u.drop_last() =~= entries.drop_last().update(k, e2));
        assert(u.last() == entries.last());
        lemma_occ_update(entries.drop_last(), k, e2, d);
    }
}

/// Registering a record raises its own anchor's count by one and no
/// other's.
pub proof fn lemma_register_occ(
    entries: Seq<SourceFileEntryA>,
    file: Seq<char>,
    info: LookupInfoA,
    d: int,
)
    ensures
        occ_entries(spec_index_register(entries, file, info), d) == occ_entries(entries, d) + (
        if info.disassembly_line_index == d {
            1int
        } else {
            0int
        }),
{
    match first_file_idx(entries, file, 0) {
        Some(k) => {
            lemma_first_file_idx_bounds(entries, file, 0);
            let e2 = SourceFileEntryA {
                file: entries[k].file,
                infos: entries[k].infos.push(info),
            };
            assert(e2.infos.drop_last() =~= entries[k].infos);
            assert(e2.infos.last() == info);
            assert(occ_infos(e2.infos, d) == occ_infos(entries[k].infos, d) + (
            if info.disassembly_line_index == d {
                1int
            } else {
                0int
            }));
            lemma_occ_update(entries, k, e2, d);
        },
        None => {
            let e2 = SourceFileEntryA { file: file, infos: seq![info] };
            assert(entries.push(e2).drop_last() =~= entries);
            assert(entries.push(e2).last() == e2);
            assert(e2.infos.len() == 1);
            assert(e2.infos.drop_last() =~= Seq::<LookupInfoA>::empty());
            assert(e2.infos.last() == info);
            assert(occ_infos(Seq::<LookupInfoA>::empty(), d) == 0);
            assert(occ_infos(e2.infos, d) == (if info.disassembly_line_index == d {
                1int
            } else {
                0int
            }));
        },
    }
}

/// Scan the instruction run starting at line `from`.
fn scan_run(lines: &Vec<String>, table: &OutlinedTable, from: usize) -> (r: (u64, Vec<String>, usize))
    requires
        from <= lines@.len(),
        lines@.len() < 0x8000_0000,
        forall|k: int| 0 <= k < table@.len() ==> 0 <= (#[trigger] table@[k]).instruction_count
            <= lines@.len(),
    ensures
        r.0 as int == run_scan(lines@, table@, from as int).0,
        seq_views(r.1) == run_scan(lines@, table@, from as int).1,
        r.2 as int == run_scan(lines@, table@, from as int).2,
        from <= r.2 <= lines@.len(),
        r.0 as int <= (r.2 - from) * (1 + lines@.len()),
{
    let ghost whole = run_scan(lines@, table@, from as int);
    let ghost el: int = lines@.len() as int;
    let mut count: u64 = 0;
    let mut text: Vec<String> = Vec::new();
    let mut j: usize = from;
    loop
        invariant
            from <= j <= lines@.len(),
            lines@.len() < 0x8000_0000,
            el == lines@.len(),
            forall|k: int| 0 <= k < table@.len() ==> 0 <= (#[trigger] table@[k]).instruction_count
                <= lines@.len(),
            count as int <= (j - from) * (1 + el),
            whole == run_scan(lines@, table@, from as int),
            whole.0 == count + run_scan(lines@, table@, j as int).0,
            whole.1 == seq_views(text) + run_scan(lines@, table@, j as int).1,
            whole.2 == run_scan(lines@, table@, j as int).2,
        ensures
            j == whole.2,
            count == whole.0,
            seq_views(text) == whole.1,
            from <= j <= lines@.len(),
            count as int <= (j - from) * (1 + el),
        decreases lines@.len() - j,
    {
        if j == lines.len() {
            assert(whole.1 =~= seq_views(text));
            break;
        }
        let class = classify(lines[j].as_str());
        match class {
            LineClass::Instruction { literal_data, callee } => {
                if !literal_data {
                    let mut extra: u64 = 0;
                    let mut extra_text: Vec<String> = Vec::new();
                    let ghost ex_spec: (int, Seq<Seq<char>>) = (
                        match spec_class(lines@[j as int]@) {
                            LineShape::Instruction { callee: Some(name), .. } => match
                                spec_table_lookup(table@, name) {
                                Some(e) => (e.instruction_count, e.text),
                                None => (0int, Seq::<Seq<char>>::empty()),
                            },
                            _ => (0int, Seq::<Seq<char>>::empty()),
                        }
                    );
                    match callee {
                        Some(name) => {
                            match table.lookup_idx(&name) {
                                Some(k) => {
                                    extra = table.entries[k].instruction_count;
                                    extra_text = clone_lines(&table.entries[k].text);
                                    assert(table@[k as int].instruction_count == extra as int);
                                    assert(extra as int <= el);
                                },
                                None => {},
                            }
                        },
                        None => {},
                    }
                    assert(extra as int == ex_spec.0);
                    assert(seq_views(extra_text) == ex_spec.1);
                    assert(extra as int <= el);
                    proof {
                        assert((j - from) * (1 + el) + (1 + el) == (j + 1 - from) * (1 + el))
                            by (nonlinear_arith);
                        assert((j + 1 - from) * (1 + el) <= el * (1 + el)) by (nonlinear_arith)
                            requires
                                j + 1 - from <= el,
                                0 <= 1 + el,
                                0 <= j - from,
                        ;
                        assert(el * (1 + el) < 0x8000_0000_0000_0000) by (nonlinear_arith)
                            requires
                                0 <= el < 0x8000_0000,
                        ;
                        assert(count + 1 + extra <= (j + 1 - from) * (1 + el));
                        assert(count + 1 + extra <= u64::MAX);
                    }
                    count = count + 1 + extra;
                    let ghost t_before = seq_views(text);
                    text.push(lines[j].clone());
                    let mut et = extra_text;
                    text.append(&mut et);
                    assert(seq_views(text) =~= t_before + (seq![lines@[j as int]@] + ex_spec.1));
                    assert(t_before + (seq![lines@[j as int]@] + ex_spec.1) + run_scan(
                        lines@,
                        table@,
                        j + 1,
                    ).1 =~= t_before + (seq![lines@[j as int]@] + ex_spec.1 + run_scan(
                        lines@,
                        table@,
                        j + 1,
                    ).1));
                }
                proof {
                    if literal_data {
                        assert((j - from) * (1 + el) + (1 + el) == (j + 1 - from) * (1 + el))
                            by (nonlinear_arith);
                        assert((j - from) * (1 + el) <= (j + 1 - from) * (1 + el))
                            by (nonlinear_arith)
                            requires
                                0 <= j - from,
                                0 <= 1 + el,
                        ;
                    }
                }
            },
            _ => {
                assert(whole.1 =~= seq_views(text));
                break;
            },
        }
        j = j + 1;
    }
    (count, text, j)
}

/// Find the entry of `file` in the index being built.
pub fn find_file_idx(entries: &Vec<SourceFileEntry>, file: &String) -> (r: Option<usize>)
    ensures
        match r {
            Some(k) => 0 <= k < entries@.len() && first_file_idx(seq_views(*entries), file@, 0)
                == Some(k as int),
            None => first_file_idx(seq_views(*entries), file@, 0) is None,
        },
{
    let mut i: usize = 0;
    while i < entries.len()
        invariant
            0 <= i <= entries@.len(),
            first_file_idx(seq_views(*entries), file@, 0) == first_file_idx(
                seq_views(*entries),
                file@,
                i as int,
            ),
        decreases entries@.len() - i,
    {
        if entries[i].file == *file {
            return Some(i);
        }
        i = i + 1;
    }
    None
}

/// Append `info` to the entry of `file`, creating the entry if needed.
fn index_register(entries: &mut Vec<SourceFileEntry>, file: String, info: LookupInfo)
    ensures
        seq_views(*final(entries)) == spec_index_register(seq_views(*old(entries)), file@, info@),
{
    let ghost before = seq_views(*entries);
    match find_file_idx(entries, &file) {
        Some(k) => {
            let mut e = entries.remove(k);
            e.infos.push(info);
            entries.insert(k, e);
            assert(seq_views(*entries) =~= spec_index_register(before, file@, info@)) by {
                assert(seq_views(e.infos) =~= before[k as int].infos.push(info@));
            }
        },
        None => {
            let mut infos: Vec<LookupInfo> = Vec::new();
            infos.push(info);
            let e = SourceFileEntry { file, infos };
            assert(seq_views(e.infos) =~= seq![info@]);
            entries.push(e);
            assert(seq_views(*entries) =~= spec_index_register(before, e.file@, info@));
        },
    }
}

/// Build the model of a disassembly listing: resolve outlined functions,
/// then index every source-location marker.  Returns the model, or the
/// index of a malformed marker.  The listing must be shorter than
/// `0x8000_0000` lines so that instruction counts cannot exceed the count
/// type.
pub fn build_model(lines: Vec<String>) -> (r: Result<DisassemblyModel, DisassemblyError>)
    requires
        lines@.len() < 0x8000_0000,
    ensures
        match r {
            Ok(model) => {
                &&& model.lines@ == lines@
                &&& Ok::<_, int>(seq_views(model.source_index)) == spec_build_index(
                    lines@,
                    spec_build_table(lines@, 0, Seq::empty()),
                    0,
                    Seq::empty(),
                )
                &&& index_wf(seq_views(model.source_index))
            },
            Err(DisassemblyError::MalformedLocationMarker { line_index }) => Err::<
                Seq<SourceFileEntryA>,
                _,
            >(line_index as int) == spec_build_index(
                lines@,
                spec_build_table(lines@, 0, Seq::empty()),
                0,
                Seq::empty(),
            ),
        },
{
    let table = build_outlined_table(&lines);
    let ghost tbl = table@;
    let ghost el: int = lines@.len() as int;
    let mut entries: Vec<SourceFileEntry> = Vec::new();
    let mut i: usize = 0;
    assert(seq_views(entries) =~= Seq::<SourceFileEntryA>::empty());
    while i < lines.len()
        invariant
            0 <= i <= lines@.len(),
            lines@.len() < 0x8000_0000,
            el == lines@.len(),
            tbl == spec_build_table(lines@, 0, Seq::empty()),
            tbl == table@,
            forall|k: int| 0 <= k < table@.len() ==> 0 <= (#[trigger] table@[k]).instruction_count
                <= lines@.len(),
            spec_build_index(lines@, tbl, 0, Seq::empty()) == spec_build_index(
                lines@,
                tbl,
                i as int,
                seq_views(entries),
            ),
            sum_counts(seq_views(entries)) <= i * (1 + el),
            forall|d: int| #[trigger] occ_entries(seq_views(entries), d) <= 1,
            forall|d: int| d >= i ==> #[trigger] occ_entries(seq_views(entries), d) == 0,
            counts_nonneg(seq_views(entries)),
        decreases lines@.len() - i,
    {
        let class = classify(lines[i].as_str());
        match class {
            LineClass::MalformedMarker => {
                return Err(DisassemblyError::MalformedLocationMarker { line_index: i });
            },
            LineClass::Marker { file, line } => {
                let run = scan_run(&lines, &table, i + 1);
                let info = LookupInfo {
                    source_line: line,
                    disassembly_line_index: i,
                    instruction_count: run.0,
                    instruction_text: run.1,
                };
                let ghost before = seq_views(entries);
                proof {
                    lemma_register_sum(before, file@, info@);
                    assert forall|d: int| #[trigger] occ_entries(
                        spec_index_register(before, file@, info@),
                        d,
                    ) <= 1 by {
                        lemma_register_occ(before, file@, info@, d);
                        lemma_occ_entries_nonneg(before, d);
                    }
                    assert forall|d: int| d >= run.2 implies #[trigger] occ_entries(
                        spec_index_register(before, file@, info@),
                        d,
                    ) == 0 by {
                        lemma_register_occ(before, file@, info@, d);
                    }
                    assert(sum_counts(spec_index_register(before, file@, info@)) <= (
                    run.2 as int) * (1 + el)) by (nonlinear_arith)
                        requires
                            sum_counts(spec_index_register(before, file@, info@)) == sum_counts(
                                before,
                            ) + info@.instruction_count,
                            sum_counts(before) <= i * (1 + el),
                            info@.instruction_count <= (run.2 - (i + 1)) * (1 + el),
                            i + 1 <= run.2,
                            0 <= 1 + el,
                    ;
                }
                proof {
                    lemma_register_nonneg(before, file@, info@);
                }
                let next = run.2;
                index_register(&mut entries, file, info);
                i = next;
            },
            _ => {
                proof {
                    assert(sum_counts(seq_views(entries)) <= (i + 1) * (1 + el))
                        by (nonlinear_arith)
                        requires
                            sum_counts(seq_views(entries)) <= i * (1 + el),
                            0 <= 1 + el,
                            0 <= i,
                    ;
                }
                i = i + 1;
            },
        }
    }
    proof {
        assert(sum_counts(seq_views(entries)) <= u64::MAX) by (nonlinear_arith)
            requires
                sum_counts(seq_views(entries)) <= el * (1 + el),
                0 <= el < 0x8000_0000,
        ;
    }
    Ok(DisassemblyModel { lines, source_index: entries })
}

} // verus!
