//! The document-boundary annotation: `-DOCSTART- (<digits><marker> <free text>)`.
//!
//! A boundary may start anywhere in a field; the leftmost start that can be
//! completed is the one that counts. The free text runs up to the first
//! unescaped `)`, where a backslash escapes the character after it.

use vstd::prelude::*;
use vstd::string::*;
use crate::text::chars_of;

verus! {

/// The partition a document belongs to.
#[derive(Clone, Copy, Debug, PartialEq, Eq, Structural)]
pub enum Split {
    Train,
    Validation,
    Test,
}

/// What a boundary line announces: the document that starts and its partition.
#[derive(Clone, Copy, Debug, PartialEq, Eq, Structural)]
pub struct Boundary {
    pub document_id: u32,
    pub split: Split,
}

/// The outcome of looking for a boundary annotation in a field.
#[derive(Clone, Copy, Debug, PartialEq, Eq, Structural)]
pub enum BoundaryScan {
    /// The field holds no boundary annotation.
    Absent,
    /// The field holds a boundary annotation with a usable document number.
    Found(Boundary),
    /// The field holds a boundary annotation whose number exceeds `u32::MAX`.
    IdOutOfRange,
}

/// The literal that opens a boundary annotation.
pub open spec fn opening() -> Seq<char> {
    "-DOCSTART- ("@
}

pub open spec fn is_digit(c: char) -> bool {
    '0' <= c && c <= '9'
}

/// Whether `lit` stands in `s` at index `at`.
pub open spec fn has_at(s: Seq<char>, at: int, lit: Seq<char>) -> bool {
    0 <= at && at + lit.len() <= s.len() && s.subrange(at, at + lit.len()) == lit
}

/// The index just past the longest run of decimal digits that starts at `from`.
pub open spec fn digits_end(s: Seq<char>, from: int) -> int
    decreases s.len() - from,
{
    if 0 <= from < s.len() && is_digit(s[from]) {
        digits_end(s, from + 1)
    } else {
        from
    }
}

/// The partition named by the marker at `at`, if one stands there.
pub open spec fn marker_at(s: Seq<char>, at: int) -> Option<Split> {
    if has_at(s, at, "testa"@) {
        Some(Split::Validation)
    } else if has_at(s, at, "testb"@) {
        Some(Split::Test)
    } else {
        None
    }
}

/// Whether the free text that starts at `from` reaches a closing parenthesis:
/// plain characters are skipped, a backslash takes the next character with it
/// (which must exist and must not be a line feed).
pub open spec fn closes(s: Seq<char>, from: int) -> bool
    decreases s.len() - from,
{
    if from < 0 || from >= s.len() {
        false
    } else if s[from] == ')' {
        true
    } else if s[from] == '\\' {
        from + 1 < s.len() && s[from + 1] != '\n' && closes(s, from + 2)
    } else {
        closes(s, from + 1)
    }
}

/// The digits and partition of the annotation that starts exactly at `at`.
pub open spec fn match_at(s: Seq<char>, at: int) -> Option<(Seq<char>, Split)> {
    if !has_at(s, at, opening()) {
        None
    } else {
        let first = at + opening().len();
        let last = digits_end(s, first);
        let marker = marker_at(s, last);
        let after = if marker is Some {
            last + 5
        } else {
            last
        };
        let split = if marker is Some {
            marker->0
        } else {
            Split::Train
        };
        if first < last && after < s.len() && s[after] == ' ' && closes(s, after + 1) {
            Some((s.subrange(first, last), split))
        } else {
            None
        }
    }
}

/// The leftmost annotation that starts at or after `from`.
pub open spec fn first_match(s: Seq<char>, from: int) -> Option<(Seq<char>, Split)>
    decreases s.len() - from,
{
    if from < 0 || from >= s.len() {
        None
    } else if match_at(s, from) is Some {
        match_at(s, from)
    } else {
        first_match(s, from + 1)
    }
}

/// The number that a run of decimal digits denotes.
pub open spec fn decimal_value(digits: Seq<char>) -> nat
    decreases digits.len(),
{
    if digits.len() == 0 {
        0
    } else {
        (decimal_value(digits.drop_last()) * 10 + (digits.last() as u32 - '0' as u32)) as nat
    }
}

/// What a field says about document boundaries.
pub open spec fn scan_boundary(field: Seq<char>) -> BoundaryScan {
    match first_match(field, 0) {
        None => BoundaryScan::Absent,
        Some((digits, split)) => if decimal_value(digits) <= u32::MAX {
            BoundaryScan::Found(Boundary { document_id: decimal_value(digits) as u32, split })
        } else {
            BoundaryScan::IdOutOfRange
        },
    }
}

/// Where a search finds an annotation, it is the one at the least index at
/// or after `from` where one starts; the result is that index.
pub proof fn lemma_first_match_is_leftmost(s: Seq<char>, from: int) -> (at: int)
    requires
        0 <= from,
        first_match(s, from) is Some,
    ensures
        from <= at < s.len(),
        match_at(s, at) == first_match(s, from),
        forall|earlier: int| from <= earlier < at ==> match_at(s, earlier) is None,
    decreases s.len() - from,
{
    if match_at(s, from) is Some {
        from
    } else {
        lemma_first_match_is_leftmost(s, from + 1)
    }
}

/// Where a search finds nothing, no annotation starts at or after `from`.
pub proof fn lemma_no_match_anywhere(s: Seq<char>, from: int, at: int)
    requires
        0 <= from <= at,
        first_match(s, from) is None,
    ensures
        match_at(s, at) is None,
    decreases s.len() - from,
{
    if from < s.len() {
        if from < at {
            lemma_no_match_anywhere(s, from + 1, at);
        }
    }
}

/// A run of digits is worth at least as much as any of its prefixes.
proof fn lemma_decimal_value_prefix(digits: Seq<char>, k: int)
    requires
        0 <= k <= digits.len(),
        forall|i: int| 0 <= i < digits.len() ==> is_digit(#[trigger] digits[i]),
    ensures
        decimal_value(digits.take(k)) <= decimal_value(digits),
    decreases digits.len() - k,
{
    if k == digits.len() {
        assert(digits.take(k) =~= digits);
    } else {
        lemma_decimal_value_prefix(digits, k + 1);
        assert(digits.take(k + 1).drop_last() =~= digits.take(k));
        assert(is_digit(digits[k]));
        assert(digits.take(k + 1).last() == digits[k]);
    }
}

/// Every index between `from` and `digits_end(s, from)` holds a digit, and the
/// index after the run does not.
proof fn lemma_digits_end(s: Seq<char>, from: int)
    requires
        0 <= from <= s.len(),
    ensures
        from <= digits_end(s, from) <= s.len(),
        forall|i: int| from <= i < digits_end(s, from) ==> is_digit(#[trigger] s[i]),
        digits_end(s, from) < s.len() ==> !is_digit(s[digits_end(s, from)]),
    decreases s.len() - from,
{
    if from < s.len() && is_digit(s[from]) {
        lemma_digits_end(s, from + 1);
    }
}

/// Whether the literal `lit` stands in `chars` at index `at`.
fn starts_at(chars: &Vec<char>, at: usize, lit: &str) -> (found: bool)
    ensures
        found == has_at(chars@, at as int, lit@),
{
    let n = chars.len();
    let m = lit.unicode_len();
    if at > n || m > n - at {
        return false;
    }
    let mut j: usize = 0;
    while j < m
        invariant
            at + m <= n,
            n == chars@.len(),
            m == lit@.len(),
            j <= m,
            forall|k: int| 0 <= k < j ==> chars@[at + k] == lit@[k],
        decreases m - j,
    {
        if chars[at + j] != lit.get_char(j) {
            assert(chars@.subrange(at as int, at + m)[j as int] == chars@[at + j]);
            return false;
        }
        j += 1;
    }
    assert(chars@.subrange(at as int, at + m) =~= lit@);
    true
}

/// The index just past the digits that start at `from`.
fn scan_digits(chars: &Vec<char>, from: usize) -> (end: usize)
    requires
        from <= chars@.len(),
    ensures
        end == digits_end(chars@, from as int),
        from <= end <= chars@.len(),
{
    let n = chars.len();
    let mut end: usize = from;
    while end < n && '0' <= chars[end] && chars[end] <= '9'
        invariant
            n == chars@.len(),
            from <= end <= n,
            digits_end(chars@, from as int) == digits_end(chars@, end as int),
        decreases n - end,
    {
        end += 1;
    }
    end
}

/// Whether the free text from `from` on reaches a closing parenthesis.
fn scan_closes(chars: &Vec<char>, from: usize) -> (closed: bool)
    ensures
        closed == closes(chars@, from as int),
{
    let n = chars.len();
    let mut k: usize = from;
    while k < n
        invariant
            n == chars@.len(),
            from <= k,
            closes(chars@, from as int) == closes(chars@, k as int),
        decreases n - k,
    {
        let c = chars[k];
        if c == ')' {
            return true;
        } else if c == '\\' {
            if n - k < 2 || chars[k + 1] == '\n' {
                return false;
            }
            k += 2;
        } else {
            k += 1;
        }
    }
    false
}

/// The value of the digits in `chars[first..last]`, unless it exceeds `u32::MAX`.
fn read_decimal(chars: &Vec<char>, first: usize, last: usize) -> (value: Option<u32>)
    requires
        first <= last <= chars@.len(),
        forall|i: int| first <= i < last ==> is_digit(#[trigger] chars@[i]),
    ensures
        value is Some <==> decimal_value(chars@.subrange(first as int, last as int)) <= u32::MAX,
        value is Some ==> value->0 == decimal_value(chars@.subrange(first as int, last as int)),
{
    let ghost digits = chars@.subrange(first as int, last as int);
    let mut acc: u64 = 0;
    let mut k: usize = first;
    assert(digits.take(0) =~= Seq::<char>::empty());
    while k < last
        invariant
            first <= k <= last <= chars@.len(),
            digits == chars@.subrange(first as int, last as int),
            forall|i: int| first <= i < last ==> is_digit(#[trigger] chars@[i]),
            acc == decimal_value(digits.take(k - first)),
            acc <= u32::MAX,
        decreases last - k,
    {
        let c = chars[k];
        assert(is_digit(chars@[k as int]));
        let d: u64 = (c as u32 - '0' as u32) as u64;
        let next: u64 = acc * 10 + d;
        proof {
            assert(digits.take(k + 1 - first).drop_last() =~= digits.take(k - first));
            assert(digits.take(k + 1 - first).last() == c);
            assert(next == decimal_value(digits.take(k + 1 - first)));
        }
        if next > 0xFFFF_FFFF {
            proof {
                lemma_decimal_value_prefix(digits, k + 1 - first);
            }
            return None;
        }
        acc = next;
        k += 1;
    }
    assert(digits.take(last - first) =~= digits);
    Some(acc as u32)
}

/// The annotation that starts exactly at `at`, with its number still as the
/// index range of its digits.
fn scan_at(chars: &Vec<char>, at: usize) -> (found: Option<(usize, usize, Split)>)
    requires
        at < chars@.len(),
    ensures
        found is Some <==> match_at(chars@, at as int) is Some,
        found is Some ==> {
            let (first, last, split) = found->0;
            &&& first <= last <= chars@.len()
            &&& forall|i: int| first <= i < last ==> is_digit(#[trigger] chars@[i])
            &&& match_at(chars@, at as int) == Some(
                (chars@.subrange(first as int, last as int), split),
            )
        },
{
    if !starts_at(chars, at, "-DOCSTART- (") {
        return None;
    }
    let n = chars.len();
    let first = at + "-DOCSTART- (".unicode_len();
    let last = scan_digits(chars, first);
    proof {
        reveal_strlit("testa");
        reveal_strlit("testb");
        lemma_digits_end(chars@, first as int);
    }
    let validation = starts_at(chars, last, "testa");
    let test = starts_at(chars, last, "testb");
    let split = if validation {
        Split::Validation
    } else if test {
        Split::Test
    } else {
        Split::Train
    };
    let after = if validation || test {
        last + 5
    } else {
        last
    };
    if first < last && after < n && chars[after] == ' ' && scan_closes(chars, after + 1) {
        Some((first, last, split))
    } else {
        None
    }
}

/// Looks for a boundary annotation in `field`.
pub fn parse_boundary(field: &str) -> (scan: BoundaryScan)
    ensures
        scan == scan_boundary(field@),
{
    let chars = chars_of(field);
    let n = chars.len();
    let mut at: usize = 0;
    while at < n
        invariant
            n == chars@.len(),
            chars@ == field@,
            at <= n,
            first_match(field@, 0) == first_match(field@, at as int),
        decreases n - at,
    {
        match scan_at(&chars, at) {
            Some((first, last, split)) => {
                return match read_decimal(&chars, first, last) {
                    Some(document_id) => BoundaryScan::Found(Boundary { document_id, split }),
                    None => BoundaryScan::IdOutOfRange,
                };
            },
            None => {},
        }
        at += 1;
    }
    BoundaryScan::Absent
}

} // verus!
