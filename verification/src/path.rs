//! The abstract form of an execution path through a function's
//! intermediate representation: locations, visited block entries, and the
//! path-length measure.

use vstd::prelude::*;
use vstd::string::*;

verus! {

/// Where a path entry resumes within its basic block: at instruction
/// `Instr(index)`, or with only the block's terminating control transfer
/// left.
#[derive(Clone, Copy, Debug, PartialEq, Eq, Structural)]
pub enum Position {
    Instr(usize),
    Terminator,
}

/// One program point: a module, a function, a basic block, and a position
/// within the block.
#[derive(Debug, PartialEq, Eq)]
pub struct Location {
    pub module_name: String,
    pub function_name: String,
    pub basic_block_name: String,
    pub position: Position,
}

/// Source metadata attached to an intermediate-representation
/// instruction.
#[derive(Debug, PartialEq, Eq)]
pub struct DebugLoc {
    pub file: String,
    pub line: u64,
}

/// One intermediate-representation instruction of a basic block: its
/// text, its optional debug location, and whether it is a call.
#[derive(Debug, PartialEq, Eq)]
pub struct IrInstr {
    pub text: String,
    pub debug: Option<DebugLoc>,
    pub is_call: bool,
}

/// One basic block visited by a concrete path, in visitation order,
/// together with the block's instructions and terminator text.
#[derive(Debug, PartialEq, Eq)]
pub struct PathEntry {
    pub module_name: String,
    pub function_name: String,
    pub block_name: String,
    pub instrs: Vec<IrInstr>,
    pub terminator: String,
    pub position: Position,
}

/// A resume position that lies within its block.
pub open spec fn entry_wf(e: PathEntry) -> bool {
    match e.position {
        Position::Instr(idx) => idx <= e.instrs@.len(),
        Position::Terminator => true,
    }
}

pub open spec fn path_wf(p: Seq<PathEntry>) -> bool {
    forall|i: int| 0 <= i < p.len() ==> entry_wf(#[trigger] p[i])
}

/// Instructions an entry still has to execute: the block's instructions
/// from the resume index to the end, or none when only the terminator
/// remains.
pub open spec fn entry_remaining(e: PathEntry) -> int {
    match e.position {
        Position::Instr(idx) => e.instrs@.len() - idx,
        Position::Terminator => 0,
    }
}

/// The length of a path: the sum over its entries of the remaining
/// instructions.  The empty path has length zero.
pub open spec fn spec_path_len(p: Seq<PathEntry>) -> int
    decreases p.len(),
{
    if p.len() == 0 {
        0
    } else {
        spec_path_len(p.drop_last()) + entry_remaining(p.last())
    }
}

pub proof fn lemma_path_len_nonneg(p: Seq<PathEntry>)
    requires
        path_wf(p),
    ensures
        spec_path_len(p) >= 0,
    decreases p.len(),
{
    if p.len() > 0 {
        assert(path_wf(p.drop_last()));
        assert(entry_wf(p.last()));
        lemma_path_len_nonneg(p.drop_last());
    }
}

/// A prefix of a path is no longer than the path.
pub proof fn lemma_path_len_prefix_le(p: Seq<PathEntry>, k: int)
    requires
        path_wf(p),
        0 <= k <= p.len(),
    ensures
        spec_path_len(p.subrange(0, k)) <= spec_path_len(p),
    decreases p.len() - k,
{
    if k == p.len() {
        assert(p.subrange(0, k) =~= p);
    } else {
        lemma_path_len_prefix_le(p, k + 1);
        let q = p.subrange(0, k + 1);
        assert(q.drop_last() =~= p.subrange(0, k));
        assert(q.last() == p[k]);
        assert(entry_wf(p[k]));
    }
}

/// Compute a path's length, reporting `None` when it does not fit the
/// length type.
pub fn path_ir_length_checked(p: &Vec<PathEntry>) -> (r: Option<u64>)
    requires
        path_wf(p@),
    ensures
        match r {
            Some(v) => v as int == spec_path_len(p@),
            None => spec_path_len(p@) > u64::MAX,
        },
{
    let mut acc: u64 = 0;
    let mut i: usize = 0;
    assert(p@.subrange(0, 0) =~= Seq::<PathEntry>::empty());
    while i < p.len()
        invariant
            0 <= i <= p@.len(),
            path_wf(p@),
            acc as int == spec_path_len(p@.subrange(0, i as int)),
        decreases p@.len() - i,
    {
        let rem: usize = match p[i].position {
            Position::Instr(idx) => p[i].instrs.len() - idx,
            Position::Terminator => 0,
        };
        assert(rem as int == entry_remaining(p@[i as int]));
        let ghost q = p@.subrange(0, i + 1);
        assert(q.drop_last() =~= p@.subrange(0, i as int));
        assert(q.last() == p@[i as int]);
        if acc > u64::MAX - (rem as u64) {
            proof {
                assert(spec_path_len(q) > u64::MAX);
                lemma_path_len_prefix_le(p@, i + 1);
            }
            return None;
        }
        acc = acc + (rem as u64);
        i = i + 1;
        assert(acc as int == spec_path_len(q));
    }
    assert(p@.subrange(0, p@.len() as int) =~= p@);
    Some(acc)
}

/// Compute the length of a path known to fit the length type.
pub fn path_ir_length(p: &Vec<PathEntry>) -> (r: u64)
    requires
        path_wf(p@),
        spec_path_len(p@) <= u64::MAX,
    ensures
        r as int == spec_path_len(p@),
{
    match path_ir_length_checked(p) {
        Some(v) => v,
        None => {
            proof {
                assert(false);
            }
            0
        },
    }
}

/// Are two positions the same?
pub fn position_eq(a: &Position, b: &Position) -> (r: bool)
    ensures
        r == (a == b),
{
    match (a, b) {
        (Position::Instr(x), Position::Instr(y)) => x == y,
        (Position::Terminator, Position::Terminator) => true,
        _ => false,
    }
}

/// Do two locations name the same program point?  Text fields are
/// compared by their characters.
pub open spec fn loc_same(a: Location, b: Location) -> bool {
    &&& a.module_name@ == b.module_name@
    &&& a.function_name@ == b.function_name@
    &&& a.basic_block_name@ == b.basic_block_name@
    &&& a.position == b.position
}

pub fn loc_eq(a: &Location, b: &Location) -> (r: bool)
    ensures
        r == loc_same(*a, *b),
{
    let names = a.module_name == b.module_name && a.function_name == b.function_name
        && a.basic_block_name == b.basic_block_name;
    names && position_eq(&a.position, &b.position)
}

/// Quote a basic-block name for matching against listing text:
/// `%name` becomes `%"name"`.
pub fn quote_bb_name(bb_name: &String) -> (res: String)
    requires
        bb_name@.len() >= 1,
    ensures
        res@ == bb_name@.subrange(0, 1) + "\""@ + bb_name@.subrange(
            1,
            bb_name@.len() as int,
        ) + "\""@,
{
    let n: usize = bb_name.as_str().unicode_len();
    let head = bb_name.as_str().substring_char(0, 1);
    let tail = bb_name.as_str().substring_char(1, n);
    let mut res = head.to_owned();
    res.append("\"");
    res.append(tail);
    res.append("\"");
    assert(res@ =~= bb_name@.subrange(0, 1) + "\""@ + bb_name@.subrange(
        1,
        bb_name@.len() as int,
    ) + "\""@);
    res
}

} // verus!
