//! Character classes and small text-scanning helpers used by the line
//! grammar: blank detection, hexadecimal address digits, decimal line
//! numbers, and prefix matching.

use vstd::prelude::*;
use vstd::string::*;
use vstd::arithmetic::div_mod::lemma_fundamental_div_mod;

verus! {

/// The only characters the listing grammar treats as horizontal space.
pub open spec fn is_space_char(c: char) -> bool {
    c == ' ' || c == '\t'
}

/// A decimal digit.
pub open spec fn is_digit_char(c: char) -> bool {
    48 <= c as u32 <= 57
}

/// A hexadecimal digit, as used in instruction address prefixes.
pub open spec fn is_hex_digit_char(c: char) -> bool {
    is_digit_char(c) || 97 <= c as u32 <= 102 || 65 <= c as u32 <= 70
}

pub open spec fn digit_val(c: char) -> int {
    c as u32 - 48
}

/// Every character of `s` in `[from, to)` is a decimal digit.
pub open spec fn all_digits_range(s: Seq<char>, from: int, to: int) -> bool {
    forall|j: int| from <= j < to ==> is_digit_char(#[trigger] s[j])
}

/// The number denoted by a sequence of decimal digits, most significant
/// first.  The empty sequence denotes 0.
pub open spec fn digits_val(s: Seq<char>) -> int
    decreases s.len(),
{
    if s.len() == 0 {
        0
    } else {
        digits_val(s.drop_last()) * 10 + digit_val(s.last())
    }
}

/// First index at or after `i` holding a character that is not horizontal
/// space, or the length of `s` if there is none.
pub open spec fn first_non_space(s: Seq<char>, i: int) -> int
    decreases s.len() - i,
{
    if i < 0 || i >= s.len() {
        s.len() as int
    } else if !is_space_char(s[i]) {
        i
    } else {
        first_non_space(s, i + 1)
    }
}

/// First index at or after `i` holding a character that is not a
/// hexadecimal digit, or the length of `s` if there is none.
pub open spec fn first_non_hex(s: Seq<char>, i: int) -> int
    decreases s.len() - i,
{
    if i < 0 || i >= s.len() {
        s.len() as int
    } else if !is_hex_digit_char(s[i]) {
        i
    } else {
        first_non_hex(s, i + 1)
    }
}

/// First index at or after `i` holding horizontal space, or the length of
/// `s` if there is none.
pub open spec fn first_space(s: Seq<char>, i: int) -> int
    decreases s.len() - i,
{
    if i < 0 || i >= s.len() {
        s.len() as int
    } else if is_space_char(s[i]) {
        i
    } else {
        first_space(s, i + 1)
    }
}

/// First index at or after `i` holding a colon, or the length of `s` if
/// there is none.
pub open spec fn first_colon(s: Seq<char>, i: int) -> int
    decreases s.len() - i,
{
    if i < 0 || i >= s.len() {
        s.len() as int
    } else if s[i] == ':' {
        i
    } else {
        first_colon(s, i + 1)
    }
}

/// `pat` occurs in `s` starting at index `at`.
pub open spec fn occurs_at(s: Seq<char>, at: int, pat: Seq<char>) -> bool {
    &&& 0 <= at
    &&& at + pat.len() <= s.len()
    &&& s.subrange(at, at + pat.len()) == pat
}

/// What the leading-space scan guarantees about its result.
pub proof fn lemma_first_non_space_bounds(s: Seq<char>, i: int)
    requires
        0 <= i <= s.len(),
    ensures
        i <= first_non_space(s, i) <= s.len(),
        forall|j: int| i <= j < first_non_space(s, i) ==> is_space_char(#[trigger] s[j]),
        first_non_space(s, i) < s.len() ==> !is_space_char(s[first_non_space(s, i)]),
    decreases s.len() - i,
{
    if i < s.len() && is_space_char(s[i]) {
        lemma_first_non_space_bounds(s, i + 1);
    }
}

/// A digit string denotes a non-negative number.
pub proof fn lemma_digits_val_nonneg(s: Seq<char>)
    requires
        all_digits_range(s, 0, s.len() as int),
    ensures
        digits_val(s) >= 0,
    decreases s.len(),
{
    if s.len() > 0 {
        assert(all_digits_range(s.drop_last(), 0, s.len() - 1));
        lemma_digits_val_nonneg(s.drop_last());
    }
}

/// Appending digits never shrinks the denoted number.
pub proof fn lemma_digits_val_prefix_le(s: Seq<char>, k: int)
    requires
        all_digits_range(s, 0, s.len() as int),
        0 <= k <= s.len(),
    ensures
        digits_val(s.subrange(0, k)) <= digits_val(s),
    decreases s.len() - k,
{
    if k == s.len() {
        assert(s.subrange(0, k) =~= s);
    } else {
        lemma_digits_val_prefix_le(s, k + 1);
        let p = s.subrange(0, k);
        let q = s.subrange(0, k + 1);
        assert(q.drop_last() =~= p);
        assert(all_digits_range(p, 0, p.len() as int));
        lemma_digits_val_nonneg(p);
        assert(digits_val(q) == digits_val(p) * 10 + digit_val(s[k]));
        assert(digits_val(p) * 10 >= digits_val(p));
    }
}

/// Scan forward from `from` to the first character that is not horizontal
/// space.
pub fn scan_non_space(s: &str, from: usize) -> (r: usize)
    requires
        from <= s@.len(),
    ensures
        r == first_non_space(s@, from as int),
        from <= r <= s@.len(),
{
    let n: usize = s.unicode_len();
    let mut i: usize = from;
    while i < n && (s.get_char(i) == ' ' || s.get_char(i) == '\t')
        invariant
            from <= i <= n,
            n == s@.len(),
            first_non_space(s@, from as int) == first_non_space(s@, i as int),
        decreases n - i,
    {
        i = i + 1;
    }
    i
}

/// Scan forward from `from` to the first character that is not a
/// hexadecimal digit.
pub fn scan_non_hex(s: &str, from: usize) -> (r: usize)
    requires
        from <= s@.len(),
    ensures
        r == first_non_hex(s@, from as int),
        from <= r <= s@.len(),
{
    let n: usize = s.unicode_len();
    let mut i: usize = from;
    loop
        invariant
            from <= i <= n,
            n == s@.len(),
            first_non_hex(s@, from as int) == first_non_hex(s@, i as int),
        ensures
            i == first_non_hex(s@, from as int),
        decreases n - i,
    {
        if i == n {
            break;
        }
        let c = s.get_char(i);
        let u = c as u32;
        if !(48 <= u && u <= 57 || 97 <= u && u <= 102 || 65 <= u && u <= 70) {
            break;
        }
        i = i + 1;
    }
    i
}

/// Scan forward from `from` to the first horizontal-space character.
pub fn scan_space(s: &str, from: usize) -> (r: usize)
    requires
        from <= s@.len(),
    ensures
        r == first_space(s@, from as int),
        from <= r <= s@.len(),
{
    let n: usize = s.unicode_len();
    let mut i: usize = from;
    while i < n && !(s.get_char(i) == ' ' || s.get_char(i) == '\t')
        invariant
            from <= i <= n,
            n == s@.len(),
            first_space(s@, from as int) == first_space(s@, i as int),
        decreases n - i,
    {
        i = i + 1;
    }
    i
}

/// Scan forward from `from` to the first colon.
pub fn scan_colon(s: &str, from: usize) -> (r: usize)
    requires
        from <= s@.len(),
    ensures
        r == first_colon(s@, from as int),
        from <= r <= s@.len(),
{
    let n: usize = s.unicode_len();
    let mut i: usize = from;
    while i < n && s.get_char(i) != ':'
        invariant
            from <= i <= n,
            n == s@.len(),
            first_colon(s@, from as int) == first_colon(s@, i as int),
        decreases n - i,
    {
        i = i + 1;
    }
    i
}

/// Does `pat` occur in `s` starting at index `at`?
pub fn occurs_at_exec(s: &str, at: usize, pat: &str) -> (r: bool)
    requires
        at <= s@.len(),
    ensures
        r == occurs_at(s@, at as int, pat@),
{
    let n: usize = s.unicode_len();
    let m: usize = pat.unicode_len();
    if m > n - at {
        return false;
    }
    let mut i: usize = 0;
    while i < m
        invariant
            0 <= i <= m,
            n == s@.len(),
            m == pat@.len(),
            at + m <= n,
            forall|j: int| 0 <= j < i ==> s@[at + j] == pat@[j],
        decreases m - i,
    {
        if s.get_char(at + i) != pat.get_char(i) {
            assert(s@.subrange(at as int, at + pat@.len()) != pat@) by {
                assert(s@.subrange(at as int, at + pat@.len())[i as int] != pat@[i as int]);
            }
            return false;
        }
        i = i + 1;
    }
    assert(s@.subrange(at as int, at + pat@.len()) =~= pat@);
    true
}

/// Parse the characters of `s` in `[start, end)` as a decimal number.
/// Returns `None` when the range is empty, holds a non-digit, or denotes a
/// number that does not fit in a `u64`.
pub fn parse_u64_range(s: &str, start: usize, end: usize) -> (r: Option<u64>)
    requires
        start <= end <= s@.len(),
    ensures
        ({
            let d = s@.subrange(start as int, end as int);
            match r {
                Some(v) => start < end && all_digits_range(d, 0, d.len() as int)
                    && v == digits_val(d),
                None => !(start < end && all_digits_range(d, 0, d.len() as int)
                    && digits_val(d) <= u64::MAX),
            }
        }),
{
    let ghost d = s@.subrange(start as int, end as int);
    if start == end {
        return None;
    }
    let mut i: usize = start;
    while i < end
        invariant
            start <= i <= end <= s@.len(),
            d == s@.subrange(start as int, end as int),
            forall|j: int| 0 <= j < i - start ==> is_digit_char(#[trigger] d[j]),
        decreases end - i,
    {
        let c = s.get_char(i);
        let u = c as u32;
        if !(48 <= u && u <= 57) {
            assert(!is_digit_char(d[i - start]));
            return None;
        }
        assert(is_digit_char(d[i - start]));
        i = i + 1;
    }
    assert(all_digits_range(d, 0, d.len() as int));
    let mut v: u64 = 0;
    let mut i: usize = start;
    while i < end
        invariant
            start <= i <= end <= s@.len(),
            d == s@.subrange(start as int, end as int),
            all_digits_range(d, 0, d.len() as int),
            v == digits_val(d.subrange(0, i - start)),
        decreases end - i,
    {
        let c = s.get_char(i);
        assert(c == d[i - start]);
        assert(is_digit_char(d[i - start]));
        let dg: u64 = (c as u32 - 48) as u64;
        assert(dg == digit_val(d[i - start]));
        let ghost p = d.subrange(0, i - start);
        let ghost q = d.subrange(0, i - start + 1);
        assert(q.drop_last() =~= p);
        assert(q.last() == d[i - start]);
        proof {
            assert(all_digits_range(p, 0, p.len() as int));
            lemma_digits_val_nonneg(p);
        }
        if v > (u64::MAX - dg) / 10 {
            proof {
                lemma_fundamental_div_mod((u64::MAX - dg) as int, 10);
                assert(digits_val(q) == v * 10 + dg);
                assert(digits_val(q) > u64::MAX);
                lemma_digits_val_prefix_le(d, i - start + 1);
            }
            return None;
        }
        proof {
            lemma_fundamental_div_mod((u64::MAX - dg) as int, 10);
            assert(v * 10 + dg <= u64::MAX);
        }
        v = v * 10 + dg;
        i = i + 1;
        assert(v == digits_val(q));
    }
    assert(d.subrange(0, d.len() as int) =~= d);
    Some(v)
}

} // verus!
