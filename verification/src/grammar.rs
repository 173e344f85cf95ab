//! Line classification grammar for annotated disassembly listings.
//!
//! Every listing line falls into exactly one class: blank, an
//! address-prefixed machine instruction (possibly literal data, possibly a
//! branch to a named target), a label introducing a block of code, a
//! source-location marker of the form `<path>:<line>`, a malformed marker
//! (fatal to indexing), or other text (directives, comments), which the
//! indexer ignores.

use vstd::prelude::*;
use vstd::string::*;

use crate::text::{
    all_digits_range, digits_val, first_colon, first_non_hex, first_non_space, first_space,
    is_digit_char, is_space_char, lemma_first_non_space_bounds, parse_u64_range, scan_colon,
    scan_non_hex, scan_non_space, scan_space,
};

verus! {

/// Ghost description of a classified line; texts are character sequences.
pub enum LineShape {
    Blank,
    Instruction { literal_data: bool, callee: Option<Seq<char>> },
    Label { name: Seq<char> },
    Marker { file: Seq<char>, line: int },
    MalformedMarker,
    Other,
}

/// The class of one listing line, as executable data.
#[derive(Debug, PartialEq, Eq)]
pub enum LineClass {
    Blank,
    Instruction { literal_data: bool, callee: Option<String> },
    Label { name: String },
    Marker { file: String, line: u64 },
    MalformedMarker,
    Other,
}

impl View for LineClass {
    type V = LineShape;

    open spec fn view(&self) -> LineShape {
        match self {
            LineClass::Blank => LineShape::Blank,
            LineClass::Instruction { literal_data, callee } => LineShape::Instruction {
                literal_data: *literal_data,
                callee: match callee {
                    Some(c) => Some(c@),
                    None => None,
                },
            },
            LineClass::Label { name } => LineShape::Label { name: name@ },
            LineClass::Marker { file, line } => LineShape::Marker {
                file: file@,
                line: *line as int,
            },
            LineClass::MalformedMarker => LineShape::MalformedMarker,
            LineClass::Other => LineShape::Other,
        }
    }
}

/// Nothing but horizontal space.
pub open spec fn is_blank_line(s: Seq<char>) -> bool {
    forall|j: int| 0 <= j < s.len() ==> is_space_char(#[trigger] s[j])
}

/// Start of the address field: the first non-space character.
pub open spec fn addr_start(s: Seq<char>) -> int {
    first_non_space(s, 0)
}

/// End of the address field: the first non-hexadecimal character after it.
pub open spec fn addr_end(s: Seq<char>) -> int {
    first_non_hex(s, addr_start(s))
}

/// An instruction line: optional space, a hexadecimal address, a colon, at
/// least one space, then non-empty text.
pub open spec fn is_instruction_line(s: Seq<char>) -> bool {
    let a = addr_start(s);
    let b = addr_end(s);
    &&& b > a
    &&& b < s.len()
    &&& s[b] == ':'
    &&& b + 1 < s.len()
    &&& is_space_char(s[b + 1])
    &&& first_non_space(s, b + 2) < s.len()
}

/// Start of an instruction line's text (mnemonic and operands).
pub open spec fn instr_text_start(s: Seq<char>) -> int {
    first_non_space(s, addr_end(s) + 2)
}

/// A literal-data pseudo-instruction: its text is an assembler directive,
/// excluded from instruction counts.
pub open spec fn is_literal_data_line(s: Seq<char>) -> bool {
    is_instruction_line(s) && s[instr_text_start(s)] == '.'
}

/// An instruction whose text is `bl <target>`: a call to a named procedure.
pub open spec fn has_branch_target(s: Seq<char>) -> bool {
    let ts = instr_text_start(s);
    &&& is_instruction_line(s)
    &&& ts + 2 < s.len()
    &&& s[ts] == 'b'
    &&& s[ts + 1] == 'l'
    &&& is_space_char(s[ts + 2])
    &&& first_non_space(s, ts + 2) < s.len()
}

/// The named target of a `bl` instruction: the token after the mnemonic.
pub open spec fn branch_target(s: Seq<char>) -> Seq<char> {
    let os = first_non_space(s, instr_text_start(s) + 2);
    s.subrange(os, first_space(s, os))
}

/// A label line: a name without spaces or inner colons, ending in a colon.
pub open spec fn is_label_line(s: Seq<char>) -> bool {
    &&& s.len() >= 2
    &&& s[s.len() - 1] == ':'
    &&& forall|j: int| 0 <= j < s.len() - 1 ==> (#[trigger] s[j]) != ':' && !is_space_char(s[j])
}

pub open spec fn label_name(s: Seq<char>) -> Seq<char> {
    s.subrange(0, s.len() - 1)
}

/// A line that must be a source-location marker if it is anything at all:
/// it starts in the first column with an ordinary character and contains a
/// colon, but is neither an instruction nor a label.
pub open spec fn is_marker_candidate(s: Seq<char>) -> bool {
    &&& !is_blank_line(s)
    &&& !is_instruction_line(s)
    &&& !is_label_line(s)
    &&& s.len() > 0
    &&& !is_space_char(s[0])
    &&& s[0] != '.'
    &&& s[0] != '@'
    &&& s[0] != ';'
    &&& s[0] != '#'
    &&& first_colon(s, 0) < s.len()
}

/// A well-formed marker `<path>:<line>`: exactly one colon, a non-empty
/// path before it, and a decimal line number after it.
pub open spec fn is_valid_marker(s: Seq<char>) -> bool {
    let p = first_colon(s, 0);
    &&& is_marker_candidate(s)
    &&& p >= 1
    &&& first_colon(s, p + 1) == s.len()
    &&& p + 1 < s.len()
    &&& all_digits_range(s, p + 1, s.len() as int)
    &&& digits_val(s.subrange(p + 1, s.len() as int)) <= u64::MAX
}

pub open spec fn marker_file(s: Seq<char>) -> Seq<char> {
    s.subrange(0, first_colon(s, 0))
}

pub open spec fn marker_line(s: Seq<char>) -> int {
    digits_val(s.subrange(first_colon(s, 0) + 1, s.len() as int))
}

/// The class of a line.  The cases are tried in a fixed order, so every
/// line has exactly one shape.
pub open spec fn spec_class(s: Seq<char>) -> LineShape {
    if is_blank_line(s) {
        LineShape::Blank
    } else if is_instruction_line(s) {
        LineShape::Instruction {
            literal_data: is_literal_data_line(s),
            callee: if has_branch_target(s) {
                Some(branch_target(s))
            } else {
                None
            },
        }
    } else if is_label_line(s) {
        LineShape::Label { name: label_name(s) }
    } else if is_marker_candidate(s) {
        if is_valid_marker(s) {
            LineShape::Marker { file: marker_file(s), line: marker_line(s) }
        } else {
            LineShape::MalformedMarker
        }
    } else {
        LineShape::Other
    }
}

/// Classify one listing line.
pub fn classify(line: &str) -> (r: LineClass)
    ensures
        r@ == spec_class(line@),
{
    let n: usize = line.unicode_len();
    let a = scan_non_space(line, 0);
    proof {
        lemma_first_non_space_bounds(line@, 0);
    }
    if a == n {
        return LineClass::Blank;
    }
    assert(!is_blank_line(line@)) by {
        assert(!is_space_char(line@[a as int]));
    }
    let b = scan_non_hex(line, a);
    let mut instr_ok: bool = false;
    let mut ts: usize = 0;
    if b > a && b < n {
        if line.get_char(b) == ':' {
            if b + 1 < n {
                let c1 = line.get_char(b + 1);
                if c1 == ' ' || c1 == '\t' {
                    ts = scan_non_space(line, b + 2);
                    if ts < n {
                        instr_ok = true;
                    }
                }
            }
        }
    }
    if instr_ok {
        assert(is_instruction_line(line@));
        assert(ts == instr_text_start(line@));
        let literal = line.get_char(ts) == '.';
        let mut callee: Option<String> = None;
        if n - ts > 2 {
            let c2 = line.get_char(ts);
            let c3 = line.get_char(ts + 1);
            let c4 = line.get_char(ts + 2);
            if c2 == 'b' && c3 == 'l' && (c4 == ' ' || c4 == '\t') {
                let os = scan_non_space(line, ts + 2);
                if os < n {
                    assert(has_branch_target(line@));
                    let oe = scan_space(line, os);
                    let target = line.substring_char(os, oe).to_owned();
                    assert(target@ == branch_target(line@));
                    callee = Some(target);
                } else {
                    assert(!has_branch_target(line@));
                }
            } else {
                assert(!has_branch_target(line@));
            }
        } else {
            assert(!has_branch_target(line@));
        }
        return LineClass::Instruction { literal_data: literal, callee };
    }
    assert(!is_instruction_line(line@));
    if n >= 2 {
        if line.get_char(n - 1) == ':' {
            let mut label_ok: bool = true;
            let mut j: usize = 0;
            while j < n - 1 && label_ok
                invariant
                    0 <= j <= n - 1,
                    n == line@.len(),
                    n >= 2,
                    label_ok ==> forall|k: int| 0 <= k < j ==> (#[trigger] line@[k]) != ':'
                        && !is_space_char(line@[k]),
                    !label_ok ==> exists|k: int| 0 <= k < n - 1 && ((#[trigger] line@[k]) == ':'
                        || is_space_char(line@[k])),
                decreases n - 1 - j + (if label_ok { 1int } else { 0int }),
            {
                let c = line.get_char(j);
                if c == ':' || c == ' ' || c == '\t' {
                    label_ok = false;
                } else {
                    j = j + 1;
                }
            }
            if label_ok {
                assert(is_label_line(line@));
                let name = line.substring_char(0, n - 1).to_owned();
                assert(name@ == label_name(line@));
                return LineClass::Label { name };
            }
        }
    }
    assert(!is_label_line(line@));
    let c0 = line.get_char(0);
    if c0 == ' ' || c0 == '\t' || c0 == '.' || c0 == '@' || c0 == ';' || c0 == '#' {
        assert(!is_marker_candidate(line@));
        return LineClass::Other;
    }
    let p = scan_colon(line, 0);
    if p == n {
        assert(!is_marker_candidate(line@));
        return LineClass::Other;
    }
    assert(is_marker_candidate(line@));
    if p == 0 || p + 1 >= n {
        assert(!is_valid_marker(line@));
        return LineClass::MalformedMarker;
    }
    let q = scan_colon(line, p + 1);
    if q != n {
        assert(!is_valid_marker(line@));
        return LineClass::MalformedMarker;
    }
    match parse_u64_range(line, p + 1, n) {
        Some(v) => {
            assert(is_valid_marker(line@)) by {
                assert(line@.subrange(p + 1 as int, n as int).len() == n - p - 1);
                assert(forall|k: int| p + 1 <= k < n ==> is_digit_char(#[trigger] line@[k]))
                    by {
                    assert(forall|k: int|
                        0 <= k < n - p - 1 ==> is_digit_char(
                            #[trigger] line@.subrange(p + 1 as int, n as int)[k],
                        ));
                    assert forall|k: int| p + 1 <= k < n implies is_digit_char(
                        #[trigger] line@[k],
                    ) by {
                        assert(line@[k] == line@.subrange(p + 1 as int, n as int)[k - p - 1]);
                    }
                }
            }
            let file = line.substring_char(0, p).to_owned();
            assert(file@ == marker_file(line@));
            assert(v as int == marker_line(line@));
            LineClass::Marker { file, line: v }
        },
        None => {
            assert(!is_valid_marker(line@)) by {
                let d = line@.subrange(p + 1 as int, n as int);
                if is_valid_marker(line@) {
                    assert(all_digits_range(line@, p + 1, n as int));
                    assert forall|k: int| 0 <= k < d.len() implies is_digit_char(
                        #[trigger] d[k],
                    ) by {
                        assert(d[k] == line@[k + p + 1]);
                    }
                    assert(digits_val(d) <= u64::MAX);
                }
            }
            LineClass::MalformedMarker
        },
    }
}

} // verus!
