//! The machine-code correlation engine: map an abstract path through a
//! function's intermediate representation onto a deduplicated
//! machine-instruction trace and count, against a disassembly model.
//!
//! For every path entry resuming inside its block, each instruction from
//! the resume index onward is resolved through its debug location: the
//! source file's records are scanned for the candidate closest to the
//! instruction's source line under an asymmetric window (at most 2 lines
//! ahead, at most 5 behind), ties broken by smaller listing line, then
//! smaller count.  A matched anchor contributes its instruction count at
//! most once per correlation, however many instructions resolve to it.  A
//! call instruction after which the path does not fall through to the
//! block's terminator ends that block's walk early.

use vstd::prelude::*;
use vstd::string::*;

use crate::disasm::{
    counts_nonneg, find_file_idx, first_file_idx, index_wf, occ_entries, occ_infos, sum_counts,
    sum_counts_infos, DisassemblyModel, LookupInfo, LookupInfoA, SourceFileEntry,
    SourceFileEntryA,
};
use crate::path::{IrInstr, PathEntry, Position};
use crate::util::{clone_lines, seq_views};

verus! {

/// One item of the annotated walk of a path.
#[derive(Debug, PartialEq, Eq)]
pub enum TraceItem {
    /// Start of a path entry's walk.
    BlockHeader { module_name: String, function_name: String, block_name: String },
    /// An instruction without a usable debug location; excluded from the
    /// count.
    NoDebugLocation { text: String },
    /// An instruction whose source file has no record; excluded.
    LookupFailed { text: String },
    /// No candidate within the matching window; excluded.
    ThresholdExceeded { text: String },
    /// An instruction matched to the anchor at the given listing line;
    /// `counted` says whether this match added the anchor's count.
    Matched { text: String, disassembly_line_index: usize, counted: bool },
    /// A block terminator appended to the walk.
    TerminatorText { text: String },
}

/// Ghost image of a [`TraceItem`].
pub enum TraceItemA {
    BlockHeader { module_name: Seq<char>, function_name: Seq<char>, block_name: Seq<char> },
    NoDebugLocation { text: Seq<char> },
    LookupFailed { text: Seq<char> },
    ThresholdExceeded { text: Seq<char> },
    Matched { text: Seq<char>, disassembly_line_index: int, counted: bool },
    TerminatorText { text: Seq<char> },
}

impl View for TraceItem {
    type V = TraceItemA;

    open spec fn view(&self) -> TraceItemA {
        match self {
            TraceItem::BlockHeader { module_name, function_name, block_name } =>
                TraceItemA::BlockHeader {
                module_name: module_name@,
                function_name: function_name@,
                block_name: block_name@,
            },
            TraceItem::NoDebugLocation { text } => TraceItemA::NoDebugLocation { text: text@ },
            TraceItem::LookupFailed { text } => TraceItemA::LookupFailed { text: text@ },
            TraceItem::ThresholdExceeded { text } => TraceItemA::ThresholdExceeded {
                text: text@,
            },
            TraceItem::Matched { text, disassembly_line_index, counted } => TraceItemA::Matched {
                text: text@,
                disassembly_line_index: *disassembly_line_index as int,
                counted: *counted,
            },
            TraceItem::TerminatorText { text } => TraceItemA::TerminatorText { text: text@ },
        }
    }
}

/// One distinct counted anchor of the machine trace.
#[derive(Debug, PartialEq, Eq)]
pub struct MachineEntry {
    pub disassembly_line_index: usize,
    pub instruction_count: u64,
    pub text: Vec<String>,
}

/// Ghost image of a [`MachineEntry`].
pub struct MachineEntryA {
    pub disassembly_line_index: int,
    pub instruction_count: int,
    pub text: Seq<Seq<char>>,
}

impl View for MachineEntry {
    type V = MachineEntryA;

    open spec fn view(&self) -> MachineEntryA {
        MachineEntryA {
            disassembly_line_index: self.disassembly_line_index as int,
            instruction_count: self.instruction_count as int,
            text: seq_views(self.text),
        }
    }
}

/// What one correlation produces: the annotated walk, the distinct
/// counted anchors ordered by listing line, and the deduplicated total.
#[derive(Debug, PartialEq, Eq)]
pub struct CorrelationResult {
    pub annotated: Vec<TraceItem>,
    pub machine_trace: Vec<MachineEntry>,
    pub total: u64,
}

/// Ghost state of a correlation walk.
pub struct CorrState {
    pub annotated: Seq<TraceItemA>,
    pub seen: Set<int>,
    pub trace: Seq<MachineEntryA>,
    pub total: int,
}

// ---------------------------------------------------------------------
// Re-entry pairs
// ---------------------------------------------------------------------

/// The re-entry pairs one path entry contributes: `(block, idx)` marks a
/// call instruction after which control does not fall through to the
/// block's terminator within this path.
pub open spec fn entry_reentry_pairs(e: PathEntry) -> Seq<(Seq<char>, int)> {
    match e.position {
        Position::Instr(idx) => if idx != 0 {
            seq![(e.block_name@, idx - 1)]
        } else {
            Seq::empty()
        },
        Position::Terminator => if e.instrs@.len() > 0 {
            seq![(e.block_name@, e.instrs@.len() - 1)]
        } else {
            Seq::empty()
        },
    }
}

/// All re-entry pairs of a path.
pub open spec fn spec_reentry(p: Seq<PathEntry>) -> Seq<(Seq<char>, int)>
    decreases p.len(),
{
    if p.len() == 0 {
        Seq::empty()
    } else {
        spec_reentry(p.drop_last()) + entry_reentry_pairs(p.last())
    }
}

pub open spec fn pairs_contains(ps: Seq<(Seq<char>, int)>, q: (Seq<char>, int)) -> bool {
    exists|k: int| 0 <= k < ps.len() && ps[k] == q
}

pub open spec fn pair_views(v: Vec<(String, usize)>) -> Seq<(Seq<char>, int)> {
    Seq::new(v@.len(), |i: int| (v@[i].0@, v@[i].1 as int))
}

/// Build the re-entry pairs of a path.
pub fn build_reentry(p: &Vec<PathEntry>) -> (r: Vec<(String, usize)>)
    ensures
        pair_views(r) == spec_reentry(p@),
{
    let mut r: Vec<(String, usize)> = Vec::new();
    let mut i: usize = 0;
    assert(pair_views(r) =~= spec_reentry(p@.subrange(0, 0)));
    while i < p.len()
        invariant
            0 <= i <= p@.len(),
            pair_views(r) == spec_reentry(p@.subrange(0, i as int)),
        decreases p@.len() - i,
    {
        let ghost pre = p@.subrange(0, i as int);
        let ghost post = p@.subrange(0, i + 1);
        proof {
            assert(post.drop_last() =~= pre);
            assert(post.last() == p@[i as int]);
        }
        let ghost before = pair_views(r);
        match p[i].position {
            Position::Instr(idx) => {
                if idx != 0 {
                    r.push((p[i].block_name.clone(), idx - 1));
                    assert(pair_views(r) =~= before + entry_reentry_pairs(p@[i as int]));
                } else {
                    assert(pair_views(r) =~= before + entry_reentry_pairs(p@[i as int]));
                }
            },
            Position::Terminator => {
                let n = p[i].instrs.len();
                if n > 0 {
                    r.push((p[i].block_name.clone(), n - 1));
                    assert(pair_views(r) =~= before + entry_reentry_pairs(p@[i as int]));
                } else {
                    assert(pair_views(r) =~= before + entry_reentry_pairs(p@[i as int]));
                }
            },
        }
        i = i + 1;
    }
    assert(p@.subrange(0, p@.len() as int) =~= p@);
    r
}

/// Is `(name, idx)` a re-entry pair?
pub fn reentry_contains(r: &Vec<(String, usize)>, name: &String, idx: usize) -> (b: bool)
    ensures
        b == pairs_contains(pair_views(*r), (name@, idx as int)),
{
    let mut i: usize = 0;
    while i < r.len()
        invariant
            0 <= i <= r@.len(),
            forall|k: int| 0 <= k < i ==> pair_views(*r)[k] != (name@, idx as int),
        decreases r@.len() - i,
    {
        if r[i].0 == *name && r[i].1 == idx {
            assert(pair_views(*r)[i as int] == (name@, idx as int));
            return true;
        }
        assert(pair_views(*r)[i as int] != (name@, idx as int));
        i = i + 1;
    }
    false
}

// ---------------------------------------------------------------------
// Candidate selection
// ---------------------------------------------------------------------

/// The asymmetric matching window: an anchor may lie up to 2 source
/// lines ahead of the instruction's line, or up to 5 behind.
pub open spec fn in_window(cand: int, ir: int) -> bool {
    if cand > ir {
        cand - ir <= 2
    } else {
        ir - cand <= 5
    }
}

/// Distance within the window.
pub open spec fn win_dist(cand: int, ir: int) -> int {
    if cand > ir {
        cand - ir
    } else {
        ir - cand
    }
}

/// Strictly better candidate: smaller distance, then smaller listing
/// line, then smaller instruction count.
pub open spec fn better(a: LookupInfoA, b: LookupInfoA, ir: int) -> bool {
    let da = win_dist(a.source_line, ir);
    let db = win_dist(b.source_line, ir);
    ||| da < db
    ||| (da == db && a.disassembly_line_index < b.disassembly_line_index)
    ||| (da == db && a.disassembly_line_index == b.disassembly_line_index
        && a.instruction_count < b.instruction_count)
}

/// Index of the best candidate among the first `upto` records: scanning
/// forward, a later candidate replaces the best only when strictly
/// better, so full ties keep the earliest record.
pub open spec fn best_idx(infos: Seq<LookupInfoA>, ir: int, upto: int) -> Option<int>
    decreases upto,
{
    if upto <= 0 {
        None
    } else {
        let prev = best_idx(infos, ir, upto - 1);
        let j = upto - 1;
        if !in_window(infos[j].source_line, ir) {
            prev
        } else {
            match prev {
                None => Some(j),
                Some(k) => if better(infos[j], infos[k], ir) {
                    Some(j)
                } else {
                    prev
                },
            }
        }
    }
}

/// A selected candidate lies within the window: never more than 2 lines
/// ahead of the instruction's line, never more than 5 behind.
pub proof fn lemma_best_in_window(infos: Seq<LookupInfoA>, ir: int, upto: int)
    requires
        0 <= upto <= infos.len(),
    ensures
        match best_idx(infos, ir, upto) {
            Some(k) => 0 <= k < upto && in_window(infos[k].source_line, ir)
                && infos[k].source_line <= ir + 2 && infos[k].source_line >= ir - 5,
            None => true,
        },
    decreases upto,
{
    if upto > 0 {
        lemma_best_in_window(infos, ir, upto - 1);
    }
}

/// If any record lies within the window, a candidate is selected.
pub proof fn lemma_best_exists(infos: Seq<LookupInfoA>, ir: int, upto: int, j: int)
    requires
        0 <= j < upto <= infos.len(),
        in_window(infos[j].source_line, ir),
    ensures
        best_idx(infos, ir, upto) is Some,
    decreases upto,
{
    if j < upto - 1 {
        lemma_best_exists(infos, ir, upto - 1, j);
    }
}

/// No record within the window beats the selected candidate.
pub proof fn lemma_best_minimal(infos: Seq<LookupInfoA>, ir: int, upto: int, j: int)
    requires
        0 <= upto <= infos.len(),
        best_idx(infos, ir, upto) is Some,
        0 <= j < upto,
        in_window(infos[j].source_line, ir),
    ensures
        !better(infos[j], infos[best_idx(infos, ir, upto)->Some_0], ir),
    decreases upto,
{
    lemma_best_in_window(infos, ir, upto);
    if upto > 0 {
        lemma_best_in_window(infos, ir, upto - 1);
        if j < upto - 1 {
            lemma_best_exists(infos, ir, upto - 1, j);
            lemma_best_minimal(infos, ir, upto - 1, j);
            let kp = best_idx(infos, ir, upto - 1)->Some_0;
            let kn = best_idx(infos, ir, upto)->Some_0;
            if kn != kp {
                assert(kn == upto - 1 && better(infos[kn], infos[kp], ir));
                assert(!better(infos[j], infos[kn], ir));
            }
        }
    }
}

/// Select the best candidate among a file's records for source line
/// `ir`.
pub fn select_candidate(infos: &Vec<LookupInfo>, ir: u64) -> (r: Option<usize>)
    ensures
        match r {
            Some(k) => 0 <= k < infos@.len() && best_idx(
                seq_views(*infos),
                ir as int,
                infos@.len() as int,
            ) == Some(k as int),
            None => best_idx(seq_views(*infos), ir as int, infos@.len() as int) is None,
        },
{
    let ghost iv = seq_views(*infos);
    let mut best: Option<usize> = None;
    let mut j: usize = 0;
    while j < infos.len()
        invariant
            0 <= j <= infos@.len(),
            iv == seq_views(*infos),
            match best {
                Some(k) => 0 <= k < j && best_idx(iv, ir as int, j as int) == Some(k as int),
                None => best_idx(iv, ir as int, j as int) is None,
            },
        decreases infos@.len() - j,
    {
        let cand = infos[j].source_line;
        let inw = if cand > ir {
            cand - ir <= 2
        } else {
            ir - cand <= 5
        };
        assert(inw == in_window(iv[j as int].source_line, ir as int));
        if inw {
            match best {
                None => {
                    best = Some(j);
                },
                Some(k) => {
                    let dj = if cand > ir {
                        cand - ir
                    } else {
                        ir - cand
                    };
                    let ck = infos[k].source_line;
                    let dk = if ck > ir {
                        ck - ir
                    } else {
                        ir - ck
                    };
                    assert(dj == win_dist(iv[j as int].source_line, ir as int));
                    assert(dk == win_dist(iv[k as int].source_line, ir as int));
                    let b = dj < dk || (dj == dk && (infos[j].disassembly_line_index
                        < infos[k].disassembly_line_index || (infos[j].disassembly_line_index
                        == infos[k].disassembly_line_index && infos[j].instruction_count
                        < infos[k].instruction_count)));
                    assert(b == better(iv[j as int], iv[k as int], ir as int));
                    if b {
                        best = Some(j);
                    }
                },
            }
        }
        j = j + 1;
    }
    best
}

// ---------------------------------------------------------------------
// Deduplicated sums over the model
// ---------------------------------------------------------------------

/// Sum of the counts of a file entry's records whose anchors are in
/// `seen`.
pub open spec fn sum_seen_infos(infos: Seq<LookupInfoA>, seen: Set<int>) -> int
    decreases infos.len(),
{
    if infos.len() == 0 {
        0
    } else {
        sum_seen_infos(infos.drop_last(), seen) + if seen.contains(
            infos.last().disassembly_line_index,
        ) {
            infos.last().instruction_count
        } else {
            0
        }
    }
}

/// Sum of the counts of the index's records whose anchors are in `seen`:
/// each distinct anchor contributes at most once per record, so under a
/// well-formed index each anchor contributes at most once in all.
pub open spec fn sum_seen(entries: Seq<SourceFileEntryA>, seen: Set<int>) -> int
    decreases entries.len(),
{
    if entries.len() == 0 {
        0
    } else {
        sum_seen(entries.drop_last(), seen) + sum_seen_infos(entries.last().infos, seen)
    }
}

/// Sum of the counts of a file entry's records anchored at `d`.
pub open spec fn cnt_dli_infos(infos: Seq<LookupInfoA>, d: int) -> int
    decreases infos.len(),
{
    if infos.len() == 0 {
        0
    } else {
        cnt_dli_infos(infos.drop_last(), d) + if infos.last().disassembly_line_index == d {
            infos.last().instruction_count
        } else {
            0
        }
    }
}

/// Sum of the counts of the index's records anchored at `d`.
pub open spec fn cnt_dli(entries: Seq<SourceFileEntryA>, d: int) -> int
    decreases entries.len(),
{
    if entries.len() == 0 {
        0
    } else {
        cnt_dli(entries.drop_last(), d) + cnt_dli_infos(entries.last().infos, d)
    }
}

pub proof fn lemma_sum_seen_empty_infos(infos: Seq<LookupInfoA>)
    ensures
        sum_seen_infos(infos, Set::empty()) == 0,
    decreases infos.len(),
{
    if infos.len() > 0 {
        lemma_sum_seen_empty_infos(infos.drop_last());
    }
}

/// With nothing seen, the deduplicated sum is zero.
pub proof fn lemma_sum_seen_empty(entries: Seq<SourceFileEntryA>)
    ensures
        sum_seen(entries, Set::empty()) == 0,
    decreases entries.len(),
{
    if entries.len() > 0 {
        lemma_sum_seen_empty(entries.drop_last());
        lemma_sum_seen_empty_infos(entries.last().infos);
    }
}

/// One file entry's share of the insertion law.
pub proof fn lemma_sum_seen_insert_infos(infos: Seq<LookupInfoA>, seen: Set<int>, d: int)
    requires
        !seen.contains(d),
    ensures
        sum_seen_infos(infos, seen.insert(d)) == sum_seen_infos(infos, seen) + cnt_dli_infos(
            infos,
            d,
        ),
    decreases infos.len(),
{
    if infos.len() > 0 {
        lemma_sum_seen_insert_infos(infos.drop_last(), seen, d);
    }
}

/// Marking a fresh anchor as seen raises the deduplicated sum by exactly
/// that anchor's count.
pub proof fn lemma_sum_seen_insert(entries: Seq<SourceFileEntryA>, seen: Set<int>, d: int)
    requires
        !seen.contains(d),
    ensures
        sum_seen(entries, seen.insert(d)) == sum_seen(entries, seen) + cnt_dli(entries, d),
    decreases entries.len(),
{
    if entries.len() > 0 {
        lemma_sum_seen_insert(entries.drop_last(), seen, d);
        lemma_sum_seen_insert_infos(entries.last().infos, seen, d);
    }
}

/// A file entry with no record at `d` contributes nothing there.
pub proof fn lemma_cnt_zero_infos(infos: Seq<LookupInfoA>, d: int)
    requires
        occ_infos(infos, d) == 0,
    ensures
        cnt_dli_infos(infos, d) == 0,
    decreases infos.len(),
{
    if infos.len() > 0 {
        crate::disasm::lemma_occ_infos_nonneg(infos.drop_last(), d);
        lemma_cnt_zero_infos(infos.drop_last(), d);
    }
}

/// An index with no record at `d` sums to nothing there.
pub proof fn lemma_cnt_zero(entries: Seq<SourceFileEntryA>, d: int)
    requires
        occ_entries(entries, d) == 0,
    ensures
        cnt_dli(entries, d) == 0,
    decreases entries.len(),
{
    if entries.len() > 0 {
        crate::disasm::lemma_occ_entries_nonneg(entries.drop_last(), d);
        crate::disasm::lemma_occ_infos_nonneg(entries.last().infos, d);
        lemma_cnt_zero(entries.drop_last(), d);
        lemma_cnt_zero_infos(entries.last().infos, d);
    }
}

/// A record at `d` makes its file entry's occurrence count positive.
pub proof fn lemma_occ_at_least_infos(infos: Seq<LookupInfoA>, ci: int, d: int)
    requires
        0 <= ci < infos.len(),
        infos[ci].disassembly_line_index == d,
    ensures
        occ_infos(infos, d) >= 1,
    decreases infos.len(),
{
    crate::disasm::lemma_occ_infos_nonneg(infos.drop_last(), d);
    if ci < infos.len() - 1 {
        assert(infos.drop_last()[ci] == infos[ci]);
        lemma_occ_at_least_infos(infos.drop_last(), ci, d);
    }
}

/// One file entry's share of the unique-anchor law.
pub proof fn lemma_cnt_single_infos(infos: Seq<LookupInfoA>, ci: int, d: int)
    requires
        0 <= ci < infos.len(),
        infos[ci].disassembly_line_index == d,
        occ_infos(infos, d) <= 1,
    ensures
        cnt_dli_infos(infos, d) == infos[ci].instruction_count,
    decreases infos.len(),
{
    crate::disasm::lemma_occ_infos_nonneg(infos.drop_last(), d);
    if ci == infos.len() - 1 {
        lemma_cnt_zero_infos(infos.drop_last(), d);
    } else {
        assert(infos.drop_last()[ci] == infos[ci]);
        lemma_occ_at_least_infos(infos.drop_last(), ci, d);
        assert(infos.last().disassembly_line_index != d);
        lemma_cnt_single_infos(infos.drop_last(), ci, d);
    }
}

/// Under a well-formed index, the records anchored at one listing line
/// sum to exactly the count of the unique record there.
pub proof fn lemma_cnt_single(entries: Seq<SourceFileEntryA>, fk: int, ci: int, d: int)
    requires
        0 <= fk < entries.len(),
        0 <= ci < entries[fk].infos.len(),
        entries[fk].infos[ci].disassembly_line_index == d,
        occ_entries(entries, d) <= 1,
    ensures
        cnt_dli(entries, d) == entries[fk].infos[ci].instruction_count,
    decreases entries.len(),
{
    crate::disasm::lemma_occ_entries_nonneg(entries.drop_last(), d);
    crate::disasm::lemma_occ_infos_nonneg(entries.last().infos, d);
    if fk == entries.len() - 1 {
        lemma_occ_at_least_infos(entries.last().infos, ci, d);
        lemma_cnt_zero(entries.drop_last(), d);
        lemma_cnt_single_infos(entries.last().infos, ci, d);
    } else {
        assert(entries.drop_last()[fk] == entries[fk]);
        lemma_occ_at_least_infos(entries[fk].infos, ci, d);
        lemma_occ_at_least(entries.drop_last(), fk, ci, d);
        lemma_cnt_zero_infos(entries.last().infos, d);
        lemma_cnt_single(entries.drop_last(), fk, ci, d);
    }
}

/// A record at `d` makes the index's occurrence count positive.
pub proof fn lemma_occ_at_least(entries: Seq<SourceFileEntryA>, fk: int, ci: int, d: int)
    requires
        0 <= fk < entries.len(),
        0 <= ci < entries[fk].infos.len(),
        entries[fk].infos[ci].disassembly_line_index == d,
    ensures
        occ_entries(entries, d) >= 1,
    decreases entries.len(),
{
    crate::disasm::lemma_occ_entries_nonneg(entries.drop_last(), d);
    crate::disasm::lemma_occ_infos_nonneg(entries.last().infos, d);
    if fk == entries.len() - 1 {
        lemma_occ_at_least_infos(entries.last().infos, ci, d);
    } else {
        assert(entries.drop_last()[fk] == entries[fk]);
        lemma_occ_at_least(entries.drop_last(), fk, ci, d);
    }
}

/// One file entry's share of the bound on the deduplicated sum.
pub proof fn lemma_sum_seen_le_infos(infos: Seq<LookupInfoA>, seen: Set<int>)
    requires
        forall|j: int| 0 <= j < infos.len() ==> (#[trigger] infos[j]).instruction_count >= 0,
    ensures
        sum_seen_infos(infos, seen) <= sum_counts_infos(infos),
    decreases infos.len(),
{
    if infos.len() > 0 {
        assert(forall|j: int|
            0 <= j < infos.len() - 1 ==> (#[trigger] infos.drop_last()[j]) == infos[j]);
        lemma_sum_seen_le_infos(infos.drop_last(), seen);
    }
}

/// The deduplicated sum never exceeds the index's total count.
pub proof fn lemma_sum_seen_le(entries: Seq<SourceFileEntryA>, seen: Set<int>)
    requires
        counts_nonneg(entries),
    ensures
        sum_seen(entries, seen) <= sum_counts(entries),
    decreases entries.len(),
{
    if entries.len() > 0 {
        assert(counts_nonneg(entries.drop_last())) by {
            assert(forall|k: int|
                0 <= k < entries.len() - 1 ==> (#[trigger] entries.drop_last()[k])
                    == entries[k]);
        }
        lemma_sum_seen_le(entries.drop_last(), seen);
        assert(forall|j: int|
            0 <= j < entries.last().infos.len() ==> (#[trigger] entries.last().infos[j])
                .instruction_count >= 0) by {
            assert(entries.last() == entries[entries.len() - 1]);
        }
        lemma_sum_seen_le_infos(entries.last().infos, seen);
    }
}

// ---------------------------------------------------------------------
// The machine trace, ordered by listing line
// ---------------------------------------------------------------------

/// Strictly increasing listing lines: every anchor appears at most once.
pub open spec fn trace_sorted(tr: Seq<MachineEntryA>) -> bool {
    forall|a: int, b: int|
        0 <= a < b < tr.len() ==> (#[trigger] tr[a]).disassembly_line_index < (
        #[trigger] tr[b]).disassembly_line_index
}

/// Some trace entry is anchored at `d`.
pub open spec fn dlis_contains(tr: Seq<MachineEntryA>, d: int) -> bool {
    exists|k: int| 0 <= k < tr.len() && (#[trigger] tr[k]).disassembly_line_index == d
}

/// Sum of the counts of the trace's entries.
pub open spec fn sum_trace(tr: Seq<MachineEntryA>) -> int
    decreases tr.len(),
{
    if tr.len() == 0 {
        0
    } else {
        tr[0].instruction_count + sum_trace(tr.drop_first())
    }
}

/// Trace sums add over concatenation.
pub proof fn lemma_sum_trace_concat(a: Seq<MachineEntryA>, b: Seq<MachineEntryA>)
    ensures
        sum_trace(a + b) == sum_trace(a) + sum_trace(b),
    decreases a.len(),
{
    if a.len() == 0 {
        assert(a + b =~= b);
    } else {
        assert((a + b).drop_first() =~= a.drop_first() + b);
        assert((a + b)[0] == a[0]);
        lemma_sum_trace_concat(a.drop_first(), b);
    }
}

/// Insert an entry into a trace kept sorted by listing line.
pub open spec fn insert_sorted(tr: Seq<MachineEntryA>, e: MachineEntryA) -> Seq<MachineEntryA>
    decreases tr.len(),
{
    if tr.len() == 0 {
        seq![e]
    } else if e.disassembly_line_index < tr[0].disassembly_line_index {
        seq![e] + tr
    } else {
        seq![tr[0]] + insert_sorted(tr.drop_first(), e)
    }
}

/// For a sorted trace, inserting lands at the position that keeps the
/// order.
pub proof fn lemma_insert_sorted_at(tr: Seq<MachineEntryA>, e: MachineEntryA, pos: int)
    requires
        0 <= pos <= tr.len(),
        forall|i: int| 0 <= i < pos ==> (#[trigger] tr[i]).disassembly_line_index
            < e.disassembly_line_index,
        forall|i: int| pos <= i < tr.len() ==> (#[trigger] tr[i]).disassembly_line_index
            > e.disassembly_line_index,
    ensures
        insert_sorted(tr, e) == tr.subrange(0, pos) + seq![e] + tr.subrange(
            pos,
            tr.len() as int,
        ),
    decreases tr.len(),
{
    if tr.len() == 0 {
        assert(insert_sorted(tr, e) =~= tr.subrange(0, pos) + seq![e] + tr.subrange(
            pos,
            tr.len() as int,
        ));
    } else if pos == 0 {
        assert(tr[0].disassembly_line_index > e.disassembly_line_index);
        assert(insert_sorted(tr, e) =~= tr.subrange(0, pos) + seq![e] + tr.subrange(
            pos,
            tr.len() as int,
        ));
    } else {
        assert(tr[0].disassembly_line_index < e.disassembly_line_index);
        let rest = tr.drop_first();
        assert(forall|i: int|
            0 <= i < pos - 1 ==> (#[trigger] rest[i]).disassembly_line_index
                < e.disassembly_line_index) by {
            assert(forall|i: int| 0 <= i < rest.len() ==> (#[trigger] rest[i]) == tr[i + 1]);
        }
        assert(forall|i: int|
            pos - 1 <= i < rest.len() ==> (#[trigger] rest[i]).disassembly_line_index
                > e.disassembly_line_index) by {
            assert(forall|i: int| 0 <= i < rest.len() ==> (#[trigger] rest[i]) == tr[i + 1]);
        }
        lemma_insert_sorted_at(rest, e, pos - 1);
        assert(seq![tr[0]] + (rest.subrange(0, pos - 1) + seq![e] + rest.subrange(
            pos - 1,
            rest.len() as int,
        )) =~= tr.subrange(0, pos) + seq![e] + tr.subrange(pos, tr.len() as int));
    }
}

/// Inserting a fresh anchor keeps the trace sorted, adds exactly that
/// anchor, and raises the trace sum by its count.
pub proof fn lemma_insert_sorted_props(tr: Seq<MachineEntryA>, e: MachineEntryA, pos: int)
    requires
        trace_sorted(tr),
        0 <= pos <= tr.len(),
        forall|i: int| 0 <= i < pos ==> (#[trigger] tr[i]).disassembly_line_index
            < e.disassembly_line_index,
        forall|i: int| pos <= i < tr.len() ==> (#[trigger] tr[i]).disassembly_line_index
            > e.disassembly_line_index,
    ensures
        insert_sorted(tr, e) == tr.subrange(0, pos) + seq![e] + tr.subrange(
            pos,
            tr.len() as int,
        ),
        trace_sorted(insert_sorted(tr, e)),
        sum_trace(insert_sorted(tr, e)) == sum_trace(tr) + e.instruction_count,
        insert_sorted(tr, e).len() == tr.len() + 1,
        forall|d: int| #[trigger] dlis_contains(insert_sorted(tr, e), d) <==> (dlis_contains(
            tr,
            d,
        ) || d == e.disassembly_line_index),
{
    lemma_insert_sorted_at(tr, e, pos);
    let r = insert_sorted(tr, e);
    assert(r.len() == tr.len() + 1);
    assert(forall|i: int| 0 <= i < pos ==> (#[trigger] r[i]) == tr[i]);
    assert(r[pos] == e);
    assert(forall|i: int| pos < i < r.len() ==> (#[trigger] r[i]) == tr[i - 1]);
    assert(trace_sorted(r)) by {
        assert forall|a: int, b: int| 0 <= a < b < r.len() implies (
        #[trigger] r[a]).disassembly_line_index < (#[trigger] r[b]).disassembly_line_index by {
            if a < pos && b < pos {
            } else if a < pos && b == pos {
            } else if a < pos && b > pos {
                assert(r[b] == tr[b - 1]);
            } else if a == pos && b > pos {
            } else if a > pos {
            }
        }
    }
    assert(sum_trace(r) == sum_trace(tr) + e.instruction_count) by {
        lemma_sum_trace_concat(tr.subrange(0, pos) + seq![e], tr.subrange(pos, tr.len() as int));
        lemma_sum_trace_concat(tr.subrange(0, pos), seq![e]);
        lemma_sum_trace_concat(tr.subrange(0, pos), tr.subrange(pos, tr.len() as int));
        assert(tr.subrange(0, pos) + tr.subrange(pos, tr.len() as int) =~= tr);
        assert(sum_trace(seq![e]) == e.instruction_count) by {
            assert(seq![e].drop_first() =~= Seq::<MachineEntryA>::empty());
            assert(sum_trace(Seq::<MachineEntryA>::empty()) == 0);
            assert(seq![e][0] == e);
        }
        assert((tr.subrange(0, pos) + seq![e]) + tr.subrange(pos, tr.len() as int) =~= tr
            .subrange(0, pos) + seq![e] + tr.subrange(pos, tr.len() as int));
    }
    assert forall|d: int| #[trigger] dlis_contains(r, d) <==> (dlis_contains(tr, d) || d
        == e.disassembly_line_index) by {
        if dlis_contains(r, d) {
            let k = choose|k: int| 0 <= k < r.len() && (#[trigger] r[k]).disassembly_line_index
                == d;
            if k < pos {
                assert(tr[k].disassembly_line_index == d);
            } else if k > pos {
                assert(tr[k - 1].disassembly_line_index == d);
            }
        }
        if dlis_contains(tr, d) {
            let k = choose|k: int| 0 <= k < tr.len() && (#[trigger] tr[k]).disassembly_line_index
                == d;
            if k < pos {
                assert(r[k].disassembly_line_index == d);
            } else {
                assert(r[k + 1].disassembly_line_index == d);
            }
        }
        if d == e.disassembly_line_index {
            assert(r[pos].disassembly_line_index == d);
        }
    }
}

/// Position at which a fresh anchor is inserted into a sorted trace.
pub open spec fn find_pos(tr: Seq<MachineEntryA>, d: int) -> int
    decreases tr.len(),
{
    if tr.len() == 0 {
        0
    } else if tr[0].disassembly_line_index < d {
        1 + find_pos(tr.drop_first(), d)
    } else {
        0
    }
}

/// The insertion position splits a sorted trace around a fresh anchor.
pub proof fn lemma_find_pos_props(tr: Seq<MachineEntryA>, d: int)
    requires
        trace_sorted(tr),
        !dlis_contains(tr, d),
    ensures
        0 <= find_pos(tr, d) <= tr.len(),
        forall|i: int| 0 <= i < find_pos(tr, d) ==> (#[trigger] tr[i]).disassembly_line_index < d,
        forall|i: int| find_pos(tr, d) <= i < tr.len() ==> (
        #[trigger] tr[i]).disassembly_line_index > d,
    decreases tr.len(),
{
    if tr.len() > 0 {
        let rest = tr.drop_first();
        assert(forall|i: int| 0 <= i < rest.len() ==> (#[trigger] rest[i]) == tr[i + 1]);
        assert(!dlis_contains(rest, d)) by {
            if dlis_contains(rest, d) {
                let k = choose|k: int|
                    0 <= k < rest.len() && (#[trigger] rest[k]).disassembly_line_index == d;
                assert(tr[k + 1].disassembly_line_index == d);
            }
        }
        if tr[0].disassembly_line_index < d {
            lemma_find_pos_props(rest, d);
            let fp = find_pos(tr, d);
            assert(fp == 1 + find_pos(rest, d));
            assert forall|i: int| 0 <= i < fp implies (#[trigger] tr[i]).disassembly_line_index
                < d by {
                if i >= 1 {
                    assert(tr[i] == rest[i - 1]);
                }
            }
            assert forall|i: int| fp <= i < tr.len() implies (
            #[trigger] tr[i]).disassembly_line_index > d by {
                assert(tr[i] == rest[i - 1]);
            }
        } else {
            assert(tr[0].disassembly_line_index != d);
            assert forall|i: int| 0 <= i < tr.len() implies (
            #[trigger] tr[i]).disassembly_line_index > d by {
                if i > 0 {
                    assert(tr[0].disassembly_line_index < tr[i].disassembly_line_index);
                }
            }
        }
    }
}

// ---------------------------------------------------------------------
// The correlation walk
// ---------------------------------------------------------------------

/// The walk state the correlation starts from.
pub open spec fn init_corr_state() -> CorrState {
    CorrState { annotated: Seq::empty(), seen: Set::empty(), trace: Seq::empty(), total: 0 }
}

/// Internal consistency of a walk state against a model: the trace is
/// sorted by listing line, the seen anchors are exactly the trace's
/// anchors, and the total is both the trace's sum and the deduplicated
/// model sum over the seen anchors.
pub open spec fn st_ok(st: CorrState, model: Seq<SourceFileEntryA>) -> bool {
    &&& trace_sorted(st.trace)
    &&& forall|d: int| #[trigger] st.seen.contains(d) <==> dlis_contains(st.trace, d)
    &&& st.total == sum_seen(model, st.seen)
    &&& st.total == sum_trace(st.trace)
}

/// Correlate one instruction: resolve its debug location, select the
/// best candidate, and count its anchor if not yet seen.
pub open spec fn step_instr(st: CorrState, instr: IrInstr, model: Seq<SourceFileEntryA>)
    -> CorrState {
    match instr.debug {
        None => CorrState {
            annotated: st.annotated.push(TraceItemA::NoDebugLocation { text: instr.text@ }),
            seen: st.seen,
            trace: st.trace,
            total: st.total,
        },
        Some(d) => if d.line == 0 {
            CorrState {
                annotated: st.annotated.push(TraceItemA::NoDebugLocation { text: instr.text@ }),
                seen: st.seen,
                trace: st.trace,
                total: st.total,
            }
        } else {
            match first_file_idx(model, d.file@, 0) {
                None => CorrState {
                    annotated: st.annotated.push(TraceItemA::LookupFailed { text: instr.text@ }),
                    seen: st.seen,
                    trace: st.trace,
                    total: st.total,
                },
                Some(fk) => {
                    let infos = model[fk].infos;
                    match best_idx(infos, d.line as int, infos.len() as int) {
                        None => CorrState {
                            annotated: st.annotated.push(
                                TraceItemA::ThresholdExceeded { text: instr.text@ },
                            ),
                            seen: st.seen,
                            trace: st.trace,
                            total: st.total,
                        },
                        Some(ci) => {
                            let info = infos[ci];
                            if st.seen.contains(info.disassembly_line_index) {
                                CorrState {
                                    annotated: st.annotated.push(
                                        TraceItemA::Matched {
                                            text: instr.text@,
                                            disassembly_line_index: info.disassembly_line_index,
                                            counted: false,
                                        },
                                    ),
                                    seen: st.seen,
                                    trace: st.trace,
                                    total: st.total,
                                }
                            } else {
                                CorrState {
                                    annotated: st.annotated.push(
                                        TraceItemA::Matched {
                                            text: instr.text@,
                                            disassembly_line_index: info.disassembly_line_index,
                                            counted: true,
                                        },
                                    ),
                                    seen: st.seen.insert(info.disassembly_line_index),
                                    trace: insert_sorted(
                                        st.trace,
                                        MachineEntryA {
                                            disassembly_line_index: info.disassembly_line_index,
                                            instruction_count: info.instruction_count,
                                            text: info.instruction_text,
                                        },
                                    ),
                                    total: st.total + info.instruction_count,
                                }
                            }
                        },
                    }
                },
            }
        },
    }
}

/// Walk a block's instructions from `idx`: correlate each; a call at a
/// re-entry pair ends the walk at once, otherwise the block's terminator
/// text is appended at the end.
pub open spec fn walk_block(
    st: CorrState,
    e: PathEntry,
    idx: int,
    model: Seq<SourceFileEntryA>,
    re: Seq<(Seq<char>, int)>,
) -> CorrState
    decreases e.instrs@.len() - idx,
{
    if idx < 0 || idx >= e.instrs@.len() {
        CorrState {
            annotated: st.annotated.push(TraceItemA::TerminatorText { text: e.terminator@ }),
            seen: st.seen,
            trace: st.trace,
            total: st.total,
        }
    } else {
        let st2 = step_instr(st, e.instrs@[idx], model);
        if e.instrs@[idx].is_call && pairs_contains(re, (e.block_name@, idx)) {
            st2
        } else {
            walk_block(st2, e, idx + 1, model, re)
        }
    }
}

/// Walk one path entry: a header line, then either the terminator alone
/// or the block walk from the resume index.
pub open spec fn walk_entry(
    st: CorrState,
    e: PathEntry,
    model: Seq<SourceFileEntryA>,
    re: Seq<(Seq<char>, int)>,
) -> CorrState {
    let st1 = CorrState {
        annotated: st.annotated.push(
            TraceItemA::BlockHeader {
                module_name: e.module_name@,
                function_name: e.function_name@,
                block_name: e.block_name@,
            },
        ),
        seen: st.seen,
        trace: st.trace,
        total: st.total,
    };
    match e.position {
        Position::Terminator => CorrState {
            annotated: st1.annotated.push(TraceItemA::TerminatorText { text: e.terminator@ }),
            seen: st1.seen,
            trace: st1.trace,
            total: st1.total,
        },
        Position::Instr(idx) => walk_block(st1, e, idx as int, model, re),
    }
}

pub open spec fn walk_path(
    st: CorrState,
    p: Seq<PathEntry>,
    model: Seq<SourceFileEntryA>,
    re: Seq<(Seq<char>, int)>,
) -> CorrState
    decreases p.len(),
{
    if p.len() == 0 {
        st
    } else {
        walk_path(walk_entry(st, p[0], model, re), p.drop_first(), model, re)
    }
}

/// The whole correlation of a path against a model.
pub open spec fn spec_correlate(p: Seq<PathEntry>, model: Seq<SourceFileEntryA>) -> CorrState {
    walk_path(init_corr_state(), p, model, spec_reentry(p))
}

/// One instruction step keeps the walk state consistent and the total
/// within the model's total count.
pub proof fn lemma_step_instr_ok(st: CorrState, instr: IrInstr, model: Seq<SourceFileEntryA>)
    requires
        st_ok(st, model),
        index_wf(model),
    ensures
        st_ok(step_instr(st, instr, model), model),
        step_instr(st, instr, model).total <= sum_counts(model),
{
    let st2 = step_instr(st, instr, model);
    match instr.debug {
        None => {},
        Some(d) => {
            if d.line != 0 {
                match first_file_idx(model, d.file@, 0) {
                    None => {},
                    Some(fk) => {
                        crate::disasm::lemma_first_file_idx_bounds(model, d.file@, 0);
                        let infos = model[fk].infos;
                        match best_idx(infos, d.line as int, infos.len() as int) {
                            None => {},
                            Some(ci) => {
                                lemma_best_in_window(infos, d.line as int, infos.len() as int);
                                let info = infos[ci];
                                let dli = info.disassembly_line_index;
                                if !st.seen.contains(dli) {
                                    lemma_sum_seen_insert(model, st.seen, dli);
                                    lemma_cnt_single(model, fk, ci, dli);
                                    lemma_find_pos_props(st.trace, dli);
                                    let entry = MachineEntryA {
                                        disassembly_line_index: dli,
                                        instruction_count: info.instruction_count,
                                        text: info.instruction_text,
                                    };
                                    lemma_insert_sorted_props(
                                        st.trace,
                                        entry,
                                        find_pos(st.trace, dli),
                                    );
                                }
                            },
                        }
                    },
                }
            }
        },
    }
    lemma_sum_seen_le(model, st2.seen);
}

/// A block walk keeps the state consistent.
pub proof fn lemma_walk_block_ok(
    st: CorrState,
    e: PathEntry,
    idx: int,
    model: Seq<SourceFileEntryA>,
    re: Seq<(Seq<char>, int)>,
)
    requires
        st_ok(st, model),
        index_wf(model),
    ensures
        st_ok(walk_block(st, e, idx, model, re), model),
    decreases e.instrs@.len() - idx,
{
    if 0 <= idx < e.instrs@.len() {
        lemma_step_instr_ok(st, e.instrs@[idx], model);
        if !(e.instrs@[idx].is_call && pairs_contains(re, (e.block_name@, idx))) {
            lemma_walk_block_ok(step_instr(st, e.instrs@[idx], model), e, idx + 1, model, re);
        }
    }
}

/// An entry walk keeps the state consistent.
pub proof fn lemma_walk_entry_ok(
    st: CorrState,
    e: PathEntry,
    model: Seq<SourceFileEntryA>,
    re: Seq<(Seq<char>, int)>,
)
    requires
        st_ok(st, model),
        index_wf(model),
    ensures
        st_ok(walk_entry(st, e, model, re), model),
{
    let st1 = CorrState {
        annotated: st.annotated.push(
            TraceItemA::BlockHeader {
                module_name: e.module_name@,
                function_name: e.function_name@,
                block_name: e.block_name@,
            },
        ),
        seen: st.seen,
        trace: st.trace,
        total: st.total,
    };
    match e.position {
        Position::Terminator => {},
        Position::Instr(idx) => lemma_walk_block_ok(st1, e, idx as int, model, re),
    }
}

/// A correlation result is exactly what the walk of `p` against `model`
/// describes.
pub open spec fn correlation_matches(
    r: CorrelationResult,
    p: Seq<PathEntry>,
    model: Seq<SourceFileEntryA>,
) -> bool {
    let st = spec_correlate(p, model);
    &&& seq_views(r.annotated) == st.annotated
    &&& seq_views(r.machine_trace) == st.trace
    &&& r.total as int == st.total
}

/// Correlation is repeatable: two runs over the same path and model
/// yield identical totals, identical annotated walks, and the machine
/// trace in identical order.
pub proof fn lemma_correlate_repeatable(
    p: Seq<PathEntry>,
    model: Seq<SourceFileEntryA>,
    r1: CorrelationResult,
    r2: CorrelationResult,
)
    requires
        correlation_matches(r1, p, model),
        correlation_matches(r2, p, model),
    ensures
        r1.total == r2.total,
        seq_views(r1.annotated) == seq_views(r2.annotated),
        seq_views(r1.machine_trace) == seq_views(r2.machine_trace),
{
}

/// The dedup law: however many path instructions resolve to the same
/// anchor, the total includes each seen anchor's instruction count
/// exactly once.  The total equals the deduplicated model sum over the
/// seen anchors and the sum of the machine trace, whose anchors are
/// strictly increasing, and the seen anchors are exactly the trace's.
pub proof fn lemma_count_dedup(p: Seq<PathEntry>, model: Seq<SourceFileEntryA>)
    requires
        index_wf(model),
    ensures
        ({
            let st = spec_correlate(p, model);
            &&& st.total == sum_seen(model, st.seen)
            &&& st.total == sum_trace(st.trace)
            &&& trace_sorted(st.trace)
            &&& forall|d: int| #[trigger] st.seen.contains(d) <==> dlis_contains(st.trace, d)
        }),
{
    lemma_sum_seen_empty(model);
    assert(st_ok(init_corr_state(), model));
    lemma_walk_path_ok(init_corr_state(), p, model, spec_reentry(p));
}

/// Append one trace item.
fn push_item(ann: &mut Vec<TraceItem>, item: TraceItem)
    ensures
        seq_views(*final(ann)) == seq_views(*old(ann)).push(item@),
{
    let ghost before = seq_views(*ann);
    let ghost iv = item@;
    ann.push(item);
    assert(seq_views(*ann) =~= before.push(iv));
}

/// Is some trace entry anchored at `dli`?
fn trace_contains(tr: &Vec<MachineEntry>, dli: usize) -> (b: bool)
    ensures
        b == dlis_contains(seq_views(*tr), dli as int),
{
    let mut i: usize = 0;
    while i < tr.len()
        invariant
            0 <= i <= tr@.len(),
            forall|k: int| 0 <= k < i ==> (#[trigger] seq_views(*tr)[k]).disassembly_line_index
                != dli as int,
        decreases tr@.len() - i,
    {
        if tr[i].disassembly_line_index == dli {
            assert(seq_views(*tr)[i as int].disassembly_line_index == dli as int);
            return true;
        }
        assert(seq_views(*tr)[i as int].disassembly_line_index != dli as int);
        i = i + 1;
    }
    false
}

/// Where a fresh anchor belongs in the sorted trace.
fn insert_position(tr: &Vec<MachineEntry>, dli: usize) -> (pos: usize)
    requires
        trace_sorted(seq_views(*tr)),
        !dlis_contains(seq_views(*tr), dli as int),
    ensures
        0 <= pos <= tr@.len(),
        forall|i: int| 0 <= i < pos ==> (#[trigger] seq_views(*tr)[i]).disassembly_line_index
            < dli as int,
        forall|i: int| pos <= i < tr@.len() ==> (
        #[trigger] seq_views(*tr)[i]).disassembly_line_index > dli as int,
{
    let mut pos: usize = 0;
    while pos < tr.len() && tr[pos].disassembly_line_index < dli
        invariant
            0 <= pos <= tr@.len(),
            trace_sorted(seq_views(*tr)),
            !dlis_contains(seq_views(*tr), dli as int),
            forall|i: int| 0 <= i < pos ==> (#[trigger] seq_views(*tr)[i]).disassembly_line_index
                < dli as int,
        decreases tr@.len() - pos,
    {
        assert(seq_views(*tr)[pos as int].disassembly_line_index < dli as int);
        pos = pos + 1;
    }
    if pos < tr.len() {
        assert(seq_views(*tr)[pos as int].disassembly_line_index != dli as int);
        assert(seq_views(*tr)[pos as int].disassembly_line_index > dli as int);
    }
    assert forall|i: int| pos <= i < tr@.len() implies (
    #[trigger] seq_views(*tr)[i]).disassembly_line_index > dli as int by {
        if i > pos {
            assert(seq_views(*tr)[pos as int].disassembly_line_index < seq_views(
                *tr,
            )[i].disassembly_line_index);
        }
    }
    pos
}

/// Correlate a path against a disassembly model: walk the path's
/// entries, resolve each instruction's debug location through the model,
/// and count each matched anchor at most once.  Returns the annotated
/// walk, the machine trace ordered by listing line, and the deduplicated
/// instruction total.
pub fn count_instructions(path: &Vec<PathEntry>, model: &DisassemblyModel) -> (r:
    CorrelationResult)
    requires
        index_wf(seq_views(model.source_index)),
    ensures
        correlation_matches(r, path@, seq_views(model.source_index)),
{
    let ghost m = seq_views(model.source_index);
    let re = build_reentry(path);
    let ghost rev = pair_views(re);
    let mut ann: Vec<TraceItem> = Vec::new();
    let mut trace: Vec<MachineEntry> = Vec::new();
    let mut total: u64 = 0;
    let ghost mut seen: Set<int> = Set::empty();
    proof {
        assert(seq_views(ann) =~= Seq::<TraceItemA>::empty());
        assert(seq_views(trace) =~= Seq::<MachineEntryA>::empty());
        assert(path@.skip(0) =~= path@);
        lemma_sum_seen_empty(m);
    }
    let mut i: usize = 0;
    #[verifier::loop_isolation(false)]
    while i < path.len()
        invariant
            0 <= i <= path@.len(),
            st_ok(
                CorrState {
                    annotated: seq_views(ann),
                    seen: seen,
                    trace: seq_views(trace),
                    total: total as int,
                },
                m,
            ),
            walk_path(
                CorrState {
                    annotated: seq_views(ann),
                    seen: seen,
                    trace: seq_views(trace),
                    total: total as int,
                },
                path@.skip(i as int),
                m,
                rev,
            ) == spec_correlate(path@, m),
        decreases path@.len() - i,
    {
        let ghost outer_prev = CorrState {
            annotated: seq_views(ann),
            seen: seen,
            trace: seq_views(trace),
            total: total as int,
        };
        let e = &path[i];
        push_item(
            &mut ann,
            TraceItem::BlockHeader {
                module_name: e.module_name.clone(),
                function_name: e.function_name.clone(),
                block_name: e.block_name.clone(),
            },
        );
        let ghost st_header = CorrState {
            annotated: seq_views(ann),
            seen: seen,
            trace: seq_views(trace),
            total: total as int,
        };
        match e.position {
            Position::Terminator => {
                push_item(&mut ann, TraceItem::TerminatorText { text: e.terminator.clone() });
                assert(CorrState {
                    annotated: seq_views(ann),
                    seen: seen,
                    trace: seq_views(trace),
                    total: total as int,
                } == walk_entry(outer_prev, path@[i as int], m, rev));
            },
            Position::Instr(start) => {
                let ghost target = walk_block(st_header, path@[i as int], start as int, m, rev);
                let n = e.instrs.len();
                let mut idx: usize = start;
                let mut stopped: bool = false;
                #[verifier::loop_isolation(false)]
                while idx < n && !stopped
                    invariant
                        start <= idx <= if start > n {
                            start as int
                        } else {
                            n as int
                        },
                        st_ok(
                            CorrState {
                                annotated: seq_views(ann),
                                seen: seen,
                                trace: seq_views(trace),
                                total: total as int,
                            },
                            m,
                        ),
                        stopped ==> (CorrState {
                            annotated: seq_views(ann),
                            seen: seen,
                            trace: seq_views(trace),
                            total: total as int,
                        }) == target,
                        !stopped ==> walk_block(
                            CorrState {
                                annotated: seq_views(ann),
                                seen: seen,
                                trace: seq_views(trace),
                                total: total as int,
                            },
                            path@[i as int],
                            idx as int,
                            m,
                            rev,
                        ) == target,
                    decreases n - idx + (if stopped {
                        0int
                    } else {
                        1int
                    }),
                {
                    let ghost prev = CorrState {
                        annotated: seq_views(ann),
                        seen: seen,
                        trace: seq_views(trace),
                        total: total as int,
                    };
                    let ghost instr_s = path@[i as int].instrs@[idx as int];
                    let instr = &e.instrs[idx];
                    assert(*instr == instr_s);
                    match &instr.debug {
                        None => {
                            push_item(
                                &mut ann,
                                TraceItem::NoDebugLocation { text: instr.text.clone() },
                            );
                        },
                        Some(d) => {
                            if d.line == 0 {
                                push_item(
                                    &mut ann,
                                    TraceItem::NoDebugLocation { text: instr.text.clone() },
                                );
                            } else {
                                match find_file_idx(&model.source_index, &d.file) {
                                    None => {
                                        push_item(
                                            &mut ann,
                                            TraceItem::LookupFailed {
                                                text: instr.text.clone(),
                                            },
                                        );
                                    },
                                    Some(fk) => {
                                        assert(m[fk as int].infos == seq_views(
                                            model.source_index[fk as int].infos,
                                        ));
                                        match select_candidate(
                                            &model.source_index[fk].infos,
                                            d.line,
                                        ) {
                                            None => {
                                                push_item(
                                                    &mut ann,
                                                    TraceItem::ThresholdExceeded {
                                                        text: instr.text.clone(),
                                                    },
                                                );
                                            },
                                            Some(ci) => {
                                                let info = &model.source_index[fk].infos[ci];
                                                let dli = info.disassembly_line_index;
                                                assert(info@ == m[fk as int].infos[ci as int]);
                                                if trace_contains(&trace, dli) {
                                                    assert(seen.contains(dli as int));
                                                    push_item(
                                                        &mut ann,
                                                        TraceItem::Matched {
                                                            text: instr.text.clone(),
                                                            disassembly_line_index: dli,
                                                            counted: false,
                                                        },
                                                    );
                                                } else {
                                                    assert(!seen.contains(dli as int));
                                                    proof {
                                                        lemma_sum_seen_insert(
                                                            m,
                                                            seen,
                                                            dli as int,
                                                        );
                                                        lemma_cnt_single(
                                                            m,
                                                            fk as int,
                                                            ci as int,
                                                            dli as int,
                                                        );
                                                        lemma_sum_seen_le(
                                                            m,
                                                            seen.insert(dli as int),
                                                        );
                                                    }
                                                    let pos = insert_position(&trace, dli);
                                                    let me = MachineEntry {
                                                        disassembly_line_index: dli,
                                                        instruction_count:
                                                            info.instruction_count,
                                                        text: clone_lines(
                                                            &info.instruction_text,
                                                        ),
                                                    };
                                                    let ghost me_a = me@;
                                                    let ghost tr_before = seq_views(trace);
                                                    proof {
                                                        assert(me_a.text =~= m[
                                                            fk as int].infos[
                                                            ci as int].instruction_text);
                                                        assert(me_a == MachineEntryA {
                                                            disassembly_line_index: dli as int,
                                                            instruction_count: info@
                                                                .instruction_count,
                                                            text: m[fk as int].infos[
                                                                ci as int].instruction_text,
                                                        });
                                                        lemma_insert_sorted_at(
                                                            tr_before,
                                                            me_a,
                                                            pos as int,
                                                        );
                                                    }
                                                    trace.insert(pos, me);
                                                    proof {
                                                        assert(seq_views(trace) =~= tr_before
                                                            .subrange(0, pos as int) + seq![me_a]
                                                            + tr_before.subrange(
                                                            pos as int,
                                                            tr_before.len() as int,
                                                        ));
                                                        assert(seq_views(trace)
                                                            == insert_sorted(tr_before, me_a));
                                                        seen = seen.insert(dli as int);
                                                    }
                                                    total = total + info.instruction_count;
                                                    push_item(
                                                        &mut ann,
                                                        TraceItem::Matched {
                                                            text: instr.text.clone(),
                                                            disassembly_line_index: dli,
                                                            counted: true,
                                                        },
                                                    );
                                                }
                                            },
                                        }
                                    },
                                }
                            }
                        },
                    }
                    proof {
                        assert(CorrState {
                            annotated: seq_views(ann),
                            seen: seen,
                            trace: seq_views(trace),
                            total: total as int,
                        } == step_instr(prev, instr_s, m));
                        lemma_step_instr_ok(prev, instr_s, m);
                    }
                    let is_call = instr.is_call;
                    if is_call && reentry_contains(&re, &e.block_name, idx) {
                        stopped = true;
                        assert(CorrState {
                            annotated: seq_views(ann),
                            seen: seen,
                            trace: seq_views(trace),
                            total: total as int,
                        } == target);
                    } else {
                        idx = idx + 1;
                    }
                }
                if !stopped {
                    push_item(
                        &mut ann,
                        TraceItem::TerminatorText { text: e.terminator.clone() },
                    );
                    assert(CorrState {
                        annotated: seq_views(ann),
                        seen: seen,
                        trace: seq_views(trace),
                        total: total as int,
                    } == target);
                }
                assert(walk_entry(outer_prev, path@[i as int], m, rev) == target);
            },
        }
        proof {
            assert(path@.skip(i as int).drop_first() =~= path@.skip(i + 1));
            assert(path@.skip(i as int)[0] == path@[i as int]);
        }
        i = i + 1;
    }
    proof {
        assert(path@.skip(path@.len() as int) =~= Seq::<PathEntry>::empty());
    }
    CorrelationResult { annotated: ann, machine_trace: trace, total: total }
}

/// The whole walk keeps the state consistent.
pub proof fn lemma_walk_path_ok(
    st: CorrState,
    p: Seq<PathEntry>,
    model: Seq<SourceFileEntryA>,
    re: Seq<(Seq<char>, int)>,
)
    requires
        st_ok(st, model),
        index_wf(model),
    ensures
        st_ok(walk_path(st, p, model, re), model),
    decreases p.len(),
{
    if p.len() > 0 {
        lemma_walk_entry_ok(st, p[0], model, re);
        lemma_walk_path_ok(walk_entry(st, p[0], model, re), p.drop_first(), model, re);
    }
}

} // verus!

