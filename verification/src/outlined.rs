//! Resolution of compiler-generated shared code blocks ("outlined
//! functions").
//!
//! A label whose name begins with the outlined-function prefix introduces a
//! shared generated procedure; the line immediately after the header names
//! an alias for the same block.  The block's instruction count (literal
//! data excluded) and reconstructed text run from the header to the first
//! blank line.  Both names resolve to the same entry; the first
//! registration of a name wins.

use vstd::prelude::*;
use vstd::string::*;

use crate::grammar::{classify, spec_class, LineClass, LineShape};
use crate::text::{occurs_at, occurs_at_exec};
use crate::util::{clone_lines, seq_views};

verus! {

/// One shared code block: a name, the number of machine instructions the
/// block contains, and its reconstructed text lines.
#[derive(Debug, PartialEq, Eq)]
pub struct OutlinedEntry {
    pub name: String,
    pub instruction_count: u64,
    pub text: Vec<String>,
}

/// Ghost image of an [`OutlinedEntry`].
pub struct OutlinedEntryA {
    pub name: Seq<char>,
    pub instruction_count: int,
    pub text: Seq<Seq<char>>,
}

impl View for OutlinedEntry {
    type V = OutlinedEntryA;

    open spec fn view(&self) -> OutlinedEntryA {
        OutlinedEntryA {
            name: self.name@,
            instruction_count: self.instruction_count as int,
            text: seq_views(self.text),
        }
    }
}

/// The table of shared code blocks, keyed by canonical name and alias.
pub struct OutlinedTable {
    pub entries: Vec<OutlinedEntry>,
}

impl View for OutlinedTable {
    type V = Seq<OutlinedEntryA>;

    open spec fn view(&self) -> Seq<OutlinedEntryA> {
        seq_views(self.entries)
    }
}

/// The name prefix that marks a compiler-generated shared procedure.
pub open spec fn outlined_prefix() -> Seq<char> {
    "OUTLINED_FUNCTION"@
}

/// First entry registered under `name`, if any.
pub open spec fn spec_table_lookup(t: Seq<OutlinedEntryA>, name: Seq<char>) -> Option<
    OutlinedEntryA,
>
    decreases t.len(),
{
    if t.len() == 0 {
        None
    } else if t[0].name == name {
        Some(t[0])
    } else {
        spec_table_lookup(t.drop_first(), name)
    }
}

/// Register an entry unless its name is already taken: the first
/// registration of a name wins.
pub open spec fn spec_register(t: Seq<OutlinedEntryA>, e: OutlinedEntryA) -> Seq<OutlinedEntryA> {
    if spec_table_lookup(t, e.name) is Some {
        t
    } else {
        t.push(e)
    }
}

/// Instruction count, reconstructed text, and end index of the block of
/// code starting at line `j`: instruction lines up to the first blank line
/// or the end of the listing, literal data excluded from the count.
pub open spec fn outlined_body(lines: Seq<String>, j: int) -> (int, Seq<Seq<char>>, int)
    decreases lines.len() - j,
{
    if j < 0 || j >= lines.len() {
        (0, Seq::empty(), j)
    } else {
        match spec_class(lines[j]@) {
            LineShape::Blank => (0, Seq::empty(), j),
            LineShape::Instruction { literal_data, callee: _ } => {
                let rest = outlined_body(lines, j + 1);
                if literal_data {
                    rest
                } else {
                    (rest.0 + 1, seq![lines[j]@] + rest.1, rest.2)
                }
            },
            _ => outlined_body(lines, j + 1),
        }
    }
}

/// A block's count is bounded by the number of lines it spans.
pub proof fn lemma_outlined_body_bounds(lines: Seq<String>, j: int)
    requires
        0 <= j <= lines.len(),
    ensures
        0 <= outlined_body(lines, j).0 <= lines.len() - j,
        j <= outlined_body(lines, j).2 <= lines.len(),
    decreases lines.len() - j,
{
    if j < lines.len() {
        match spec_class(lines[j]@) {
            LineShape::Blank => {},
            _ => lemma_outlined_body_bounds(lines, j + 1),
        }
    }
}

/// The table described by a listing: scan every line; each
/// outlined-function header registers its block under the header name and,
/// when the next line is a label, under that alias too.
pub open spec fn spec_build_table(
    lines: Seq<String>,
    i: int,
    acc: Seq<OutlinedEntryA>,
) -> Seq<OutlinedEntryA>
    decreases lines.len() - i,
{
    if i < 0 || i >= lines.len() {
        acc
    } else {
        let acc2 = match spec_class(lines[i]@) {
            LineShape::Label { name } => {
                if occurs_at(name, 0, outlined_prefix()) {
                    let body = outlined_body(lines, i + 1);
                    let canonical = OutlinedEntryA {
                        name: name,
                        instruction_count: body.0,
                        text: body.1,
                    };
                    let acc1 = spec_register(acc, canonical);
                    if i + 1 < lines.len() {
                        match spec_class(lines[i + 1]@) {
                            LineShape::Label { name: alias } => spec_register(
                                acc1,
                                OutlinedEntryA {
                                    name: alias,
                                    instruction_count: body.0,
                                    text: body.1,
                                },
                            ),
                            _ => acc1,
                        }
                    } else {
                        acc1
                    }
                } else {
                    acc
                }
            },
            _ => acc,
        };
        spec_build_table(lines, i + 1, acc2)
    }
}

impl OutlinedTable {
    /// Index of the first entry registered under `name`, if any.
    pub fn lookup_idx(&self, name: &String) -> (r: Option<usize>)
        ensures
            match r {
                Some(k) => 0 <= k < self.entries@.len() && spec_table_lookup(self@, name@)
                    == Some(self.entries@[k as int]@),
                None => spec_table_lookup(self@, name@) is None,
            },
    {
        let mut i: usize = 0;
        assert(self@.skip(0) =~= self@);
        while i < self.entries.len()
            invariant
                0 <= i <= self.entries@.len(),
                spec_table_lookup(self@, name@) == spec_table_lookup(
                    self@.skip(i as int),
                    name@,
                ),
            decreases self.entries@.len() - i,
        {
            assert(self@.skip(i as int)[0] == self@[i as int]);
            if self.entries[i].name == *name {
                return Some(i);
            }
            assert(self@.skip(i as int).drop_first() =~= self@.skip(i + 1));
            i = i + 1;
        }
        assert(self@.skip(i as int).len() == 0);
        None
    }

    /// Register an entry unless its name is already taken.
    fn register(&mut self, e: OutlinedEntry)
        ensures
            final(self)@ == spec_register(old(self)@, e@),
    {
        match self.lookup_idx(&e.name) {
            Some(_) => {},
            None => {
                self.entries.push(e);
                assert(self@ =~= seq_views(old(self).entries).push(e@));
            },
        }
    }
}

/// Scan the block of code starting at line `from`: count instruction
/// lines (literal data excluded), collect their text, and report where the
/// block ends.
fn scan_body(lines: &Vec<String>, from: usize) -> (r: (u64, Vec<String>, usize))
    requires
        from <= lines@.len(),
    ensures
        r.0 as int == outlined_body(lines@, from as int).0,
        seq_views(r.1) == outlined_body(lines@, from as int).1,
        r.2 as int == outlined_body(lines@, from as int).2,
        from <= r.2 <= lines@.len(),
        r.0 <= lines@.len() - from,
    {
    let ghost whole = outlined_body(lines@, from as int);
    let mut count: u64 = 0;
    let mut text: Vec<String> = Vec::new();
    let mut j: usize = from;
    loop
        invariant
            from <= j <= lines@.len(),
            count <= j - from,
            whole == outlined_body(lines@, from as int),
            whole.0 == count + outlined_body(lines@, j as int).0,
            whole.1 == seq_views(text) + outlined_body(lines@, j as int).1,
            whole.2 == outlined_body(lines@, j as int).2,
        ensures
            j == whole.2,
            count == whole.0,
            seq_views(text) == whole.1,
            from <= j <= lines@.len(),
        decreases lines@.len() - j,
    {
        proof {
            lemma_outlined_body_bounds(lines@, j as int);
        }
        if j == lines.len() {
            assert(whole.1 =~= seq_views(text));
            break;
        }
        let class = classify(lines[j].as_str());
        match class {
            LineClass::Blank => {
                assert(whole.1 =~= seq_views(text));
                break;
            },
            LineClass::Instruction { literal_data, callee: _ } => {
                if !literal_data {
                    count = count + 1;
                    let ghost t_before = seq_views(text);
                    text.push(lines[j].clone());
                    assert(seq_views(text) =~= t_before.push(lines@[j as int]@));
                    assert(t_before.push(lines@[j as int]@) + outlined_body(
                        lines@,
                        j + 1,
                    ).1 =~= t_before + (seq![lines@[j as int]@] + outlined_body(
                        lines@,
                        j + 1,
                    ).1));
                }
            },
            _ => {},
        }
        j = j + 1;
    }
    (count, text, j)
}

/// Build the outlined-function table for a listing.
pub fn build_outlined_table(lines: &Vec<String>) -> (t: OutlinedTable)
    ensures
        t@ == spec_build_table(lines@, 0, Seq::empty()),
        forall|k: int| 0 <= k < t@.len() ==> 0 <= (#[trigger] t@[k]).instruction_count
            <= lines@.len(),
{
    let mut t = OutlinedTable { entries: Vec::new() };
    let mut i: usize = 0;
    assert(t@ =~= Seq::<OutlinedEntryA>::empty());
    while i < lines.len()
        invariant
            0 <= i <= lines@.len(),
            spec_build_table(lines@, 0, Seq::empty()) == spec_build_table(lines@, i as int, t@),
            forall|k: int| 0 <= k < t@.len() ==> 0 <= (#[trigger] t@[k]).instruction_count
                <= lines@.len(),
        decreases lines@.len() - i,
    {
        let class = classify(lines[i].as_str());
        match class {
            LineClass::Label { name } => {
                if occurs_at_exec(name.as_str(), 0, "OUTLINED_FUNCTION") {
                    let body = scan_body(lines, i + 1);
                    let alias_entry: Option<String> = if i + 1 < lines.len() {
                        match classify(lines[i + 1].as_str()) {
                            LineClass::Label { name: alias } => Some(alias),
                            _ => None,
                        }
                    } else {
                        None
                    };
                    let text2 = clone_lines(&body.1);
                    t.register(
                        OutlinedEntry {
                            name,
                            instruction_count: body.0,
                            text: body.1,
                        },
                    );
                    match alias_entry {
                        Some(alias) => {
                            t.register(
                                OutlinedEntry {
                                    name: alias,
                                    instruction_count: body.0,
                                    text: text2,
                                },
                            );
                        },
                        None => {},
                    }
                }
            },
            _ => {},
        }
        i = i + 1;
    }
    t
}

} // verus!
