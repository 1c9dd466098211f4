//! Decoding of a fixed-width decimal text field: white space trimmed off
//! both ends, then an unsigned decimal number and nothing else.

use vstd::prelude::*;
use vstd::slice::slice_subrange;

verus! {

/// One of the white-space characters below U+0080: tab, line feed, vertical
/// tab, form feed, carriage return, space.
pub open spec fn is_narrow_space(b: u8) -> bool {
    (0x09 <= b <= 0x0d) || b == 0x20
}

/// The UTF-8 encoding of U+0085 or of U+00A0.
pub open spec fn is_two_byte_space(a: u8, b: u8) -> bool {
    a == 0xc2 && (b == 0x85 || b == 0xa0)
}

/// The UTF-8 encoding of one of the white-space characters from U+1680 on:
/// U+1680, U+2000 to U+200A, U+2028, U+2029, U+202F, U+205F, U+3000.
pub open spec fn is_three_byte_space(a: u8, b: u8, c: u8) -> bool {
    ||| (a == 0xe1 && b == 0x9a && c == 0x80)
    ||| (a == 0xe2 && b == 0x80 && ((0x80 <= c <= 0x8a) || c == 0xa8 || c == 0xa9 || c == 0xaf))
    ||| (a == 0xe2 && b == 0x81 && c == 0x9f)
    ||| (a == 0xe3 && b == 0x80 && c == 0x80)
}

/// The number of bytes of the white-space character that `s` starts with, or
/// 0 where it starts with none.
pub open spec fn space_at_start(s: Seq<u8>) -> int {
    if s.len() >= 1 && is_narrow_space(s[0]) {
        1
    } else if s.len() >= 2 && is_two_byte_space(s[0], s[1]) {
        2
    } else if s.len() >= 3 && is_three_byte_space(s[0], s[1], s[2]) {
        3
    } else {
        0
    }
}

/// The number of bytes of the white-space character that `s` ends with, or
/// 0 where it ends with none.
pub open spec fn space_at_end(s: Seq<u8>) -> int {
    let n = s.len() as int;
    if n >= 1 && is_narrow_space(s[n - 1]) {
        1
    } else if n >= 2 && is_two_byte_space(s[n - 2], s[n - 1]) {
        2
    } else if n >= 3 && is_three_byte_space(s[n - 3], s[n - 2], s[n - 1]) {
        3
    } else {
        0
    }
}

/// `s` without the white space it starts with.
pub open spec fn trimmed_start(s: Seq<u8>) -> Seq<u8>
    decreases s.len(),
{
    let k = space_at_start(s);
    if k == 0 {
        s
    } else {
        trimmed_start(s.subrange(k, s.len() as int))
    }
}

/// `s` without the white space it ends with.
pub open spec fn trimmed_end(s: Seq<u8>) -> Seq<u8>
    decreases s.len(),
{
    let k = space_at_end(s);
    if k == 0 {
        s
    } else {
        trimmed_end(s.subrange(0, s.len() - k))
    }
}

/// `s` without the white space at either end.
pub open spec fn trimmed(s: Seq<u8>) -> Seq<u8> {
    trimmed_end(trimmed_start(s))
}

/// An ASCII decimal digit.
pub open spec fn is_digit(b: u8) -> bool {
    0x30 <= b <= 0x39
}

/// Every byte of `s` is a digit.
pub open spec fn all_digits(s: Seq<u8>) -> bool {
    forall|i: int| 0 <= i < s.len() ==> is_digit(#[trigger] s[i])
}

/// The number that the digits of `s` write, most significant first.
pub open spec fn decimal_value(s: Seq<u8>) -> nat
    decreases s.len(),
{
    if s.len() == 0 {
        0
    } else {
        decimal_value(s.drop_last()) * 10 + (s.last() - 0x30) as nat
    }
}

/// `s` without the plus sign it may start with.
pub open spec fn unsigned_part(s: Seq<u8>) -> Seq<u8> {
    if s.len() > 0 && s[0] == 0x2b {
        s.subrange(1, s.len() as int)
    } else {
        s
    }
}

/// The number that `s` writes: an optional plus sign, then one digit or
/// more and nothing else, of a value that a `usize` holds.
pub open spec fn unsigned_decimal(s: Seq<u8>) -> Option<usize> {
    let digits = unsigned_part(s);
    if digits.len() == 0 || !all_digits(digits) || decimal_value(digits) > usize::MAX {
        None
    } else {
        Some(decimal_value(digits) as usize)
    }
}

/// The number that a text field holds once the white space at its ends is
/// taken off.
pub open spec fn field_value(field: Seq<u8>) -> Option<usize> {
    unsigned_decimal(trimmed(field))
}

fn narrow_space(b: u8) -> (yes: bool)
    ensures
        yes == is_narrow_space(b),
{
    (0x09 <= b && b <= 0x0d) || b == 0x20
}

fn two_byte_space(a: u8, b: u8) -> (yes: bool)
    ensures
        yes == is_two_byte_space(a, b),
{
    a == 0xc2 && (b == 0x85 || b == 0xa0)
}

fn three_byte_space(a: u8, b: u8, c: u8) -> (yes: bool)
    ensures
        yes == is_three_byte_space(a, b, c),
{
    (a == 0xe1 && b == 0x9a && c == 0x80) || (a == 0xe2 && b == 0x80 && ((0x80 <= c && c
        <= 0x8a) || c == 0xa8 || c == 0xa9 || c == 0xaf)) || (a == 0xe2 && b == 0x81 && c
        == 0x9f) || (a == 0xe3 && b == 0x80 && c == 0x80)
}

/// Takes the white space off the start of `s`.
pub fn trim_start(s: &[u8]) -> (rest: &[u8])
    ensures
        rest@ == trimmed_start(s@),
{
    let n = s.len();
    let mut lo: usize = 0;
    assert(s@.subrange(0, n as int) =~= s@);
    loop
        invariant
            n == s@.len(),
            lo <= n,
            trimmed_start(s@) == trimmed_start(s@.subrange(lo as int, n as int)),
        decreases n - lo,
    {
        let ghost tail = s@.subrange(lo as int, n as int);
        let left = n - lo;
        let k: usize = if left >= 1 && narrow_space(s[lo]) {
            1
        } else if left >= 2 && two_byte_space(s[lo], s[lo + 1]) {
            2
        } else if left >= 3 && three_byte_space(s[lo], s[lo + 1], s[lo + 2]) {
            3
        } else {
            0
        };
        assert(k == space_at_start(tail));
        if k == 0 {
            return slice_subrange(s, lo, n);
        }
        assert(tail.subrange(k as int, tail.len() as int) =~= s@.subrange(lo + k, n as int));
        lo += k;
    }
}

/// Takes the white space off the end of `s`.
pub fn trim_end(s: &[u8]) -> (rest: &[u8])
    ensures
        rest@ == trimmed_end(s@),
{
    let mut hi: usize = s.len();
    assert(s@.subrange(0, hi as int) =~= s@);
    loop
        invariant
            hi <= s@.len(),
            trimmed_end(s@) == trimmed_end(s@.subrange(0, hi as int)),
        decreases hi,
    {
        let ghost head = s@.subrange(0, hi as int);
        let k: usize = if hi >= 1 && narrow_space(s[hi - 1]) {
            1
        } else if hi >= 2 && two_byte_space(s[hi - 2], s[hi - 1]) {
            2
        } else if hi >= 3 && three_byte_space(s[hi - 3], s[hi - 2], s[hi - 1]) {
            3
        } else {
            0
        };
        assert(k == space_at_end(head));
        if k == 0 {
            return slice_subrange(s, 0, hi);
        }
        assert(head.subrange(0, head.len() - k) =~= s@.subrange(0, hi - k));
        hi -= k;
    }
}

/// The digits read so far never write more than all of them do.
pub proof fn lemma_decimal_grows(s: Seq<u8>, upto: int)
    requires
        0 <= upto <= s.len(),
        all_digits(s),
    ensures
        decimal_value(s.subrange(0, upto)) <= decimal_value(s),
    decreases s.len() - upto,
{
    if upto < s.len() {
        let next = s.subrange(0, upto + 1);
        assert(next.drop_last() =~= s.subrange(0, upto));
        assert(is_digit(s[upto]));
        lemma_decimal_grows(s, upto + 1);
    } else {
        assert(s.subrange(0, upto) =~= s);
    }
}

/// Reads an unsigned decimal number: an optional plus sign, then digits.
pub fn parse_unsigned(s: &[u8]) -> (value: Option<usize>)
    ensures
        value == unsigned_decimal(s@),
{
    let digits = if s.len() > 0 && s[0] == 0x2b {
        slice_subrange(s, 1, s.len())
    } else {
        s
    };
    let n = digits.len();
    if n == 0 {
        return None;
    }
    let mut value: usize = 0;
    let mut i: usize = 0;
    while i < n
        invariant
            n == digits@.len(),
            digits@ == unsigned_part(s@),
            i <= n,
            forall|k: int| 0 <= k < i ==> is_digit(#[trigger] digits@[k]),
            value == decimal_value(digits@.subrange(0, i as int)),
        decreases n - i,
    {
        let b = digits[i];
        if b < 0x30 || b > 0x39 {
            return None;
        }
        let ghost next = digits@.subrange(0, i + 1);
        proof {
            assert(next.drop_last() =~= digits@.subrange(0, i as int));
            assert(next.last() == b);
        }
        let grown = match value.checked_mul(10) {
            Some(tenfold) => tenfold.checked_add((b - 0x30) as usize),
            None => None,
        };
        match grown {
            Some(v) => {
                value = v;
            },
            None => {
                proof {
                    assert(decimal_value(next) > usize::MAX);
                    if all_digits(digits@) {
                        lemma_decimal_grows(digits@, i + 1);
                    }
                }
                return None;
            },
        }
        i += 1;
    }
    assert(digits@.subrange(0, n as int) =~= digits@);
    Some(value)
}

/// Reads the number that a text field holds: white space at either end is
/// skipped, and what is left has to be an unsigned decimal number.
pub fn parse_field(field: &[u8]) -> (value: Option<usize>)
    ensures
        value == field_value(field@),
{
    parse_unsigned(trim_end(trim_start(field)))
}

} // verus!
