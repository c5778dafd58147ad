use vstd::prelude::*;
use crate::text::chars_of;

verus! {

/// Values at or above this are all read as this, so that the arithmetic
/// cannot overflow.
pub const DIGITS_CAP: u128 = 0x1_0000_0000_0000_0000;

/// An ASCII decimal digit.
pub open spec fn is_digit(c: char) -> bool {
    '0' <= c <= '9'
}

/// Every character of `s` is a decimal digit.
pub open spec fn all_digits(s: Seq<char>) -> bool {
    forall|i: int| 0 <= i < s.len() ==> is_digit(s[i])
}

/// The value of one decimal digit.
pub open spec fn digit_value(c: char) -> nat {
    (c as int - '0' as int) as nat
}

/// The number that the decimal digits `s` write.
pub open spec fn digits_value(s: Seq<char>) -> nat
    decreases s.len(),
{
    if s.len() == 0 {
        0
    } else {
        digits_value(s.drop_last()) * 10 + digit_value(s.last())
    }
}

/// The integer that `s` writes in the form `i32` accepts: an optional sign,
/// then at least one decimal digit, and nothing else.
pub open spec fn signed_value(s: Seq<char>) -> Option<int> {
    if s.len() > 0 && (s[0] == '+' || s[0] == '-') {
        let rest = s.drop_first();
        if rest.len() > 0 && all_digits(rest) {
            if s[0] == '-' {
                Some(-(digits_value(rest) as int))
            } else {
                Some(digits_value(rest) as int)
            }
        } else {
            None
        }
    } else if s.len() > 0 && all_digits(s) {
        Some(digits_value(s) as int)
    } else {
        None
    }
}

/// The value of `s` read as an `i32`, if it is one.
pub open spec fn i32_value(s: Seq<char>) -> Option<int> {
    match signed_value(s) {
        Some(v) => if i32::MIN <= v <= i32::MAX {
            Some(v)
        } else {
            None
        },
        None => None,
    }
}

/// The value of `s` read as a `usize`: an optional `'+'`, then at least one
/// decimal digit, and a value that fits.
pub open spec fn usize_value(s: Seq<char>) -> Option<nat> {
    let digits = if s.len() > 0 && s[0] == '+' {
        s.drop_first()
    } else {
        s
    };
    if digits.len() > 0 && all_digits(digits) && digits_value(digits) <= usize::MAX {
        Some(digits_value(digits))
    } else {
        None
    }
}

/// Reads the digits of `chars` from `start` on, with the value held at
/// `DIGITS_CAP`; `None` where there is none or a character is no digit.
fn read_digits(chars: &Vec<char>, start: usize) -> (r: Option<u128>)
    requires
        start <= chars.len(),
    ensures
        r is Some <==> (start < chars.len() && all_digits(chars@.subrange(start as int, chars.len() as int))),
        r is Some ==> r->0 == if digits_value(chars@.subrange(start as int, chars.len() as int)) < DIGITS_CAP {
            digits_value(chars@.subrange(start as int, chars.len() as int))
        } else {
            DIGITS_CAP as nat
        },
{
    if start == chars.len() {
        return None;
    }
    let mut v: u128 = 0;
    let mut i: usize = start;
    while i < chars.len()
        invariant
            start <= i <= chars.len(),
            all_digits(chars@.subrange(start as int, i as int)),
            v == if digits_value(chars@.subrange(start as int, i as int)) < DIGITS_CAP {
                digits_value(chars@.subrange(start as int, i as int))
            } else {
                DIGITS_CAP as nat
            },
        decreases chars.len() - i,
    {
        let c = chars[i];
        if !('0' <= c && c <= '9') {
            assert(!all_digits(chars@.subrange(start as int, chars.len() as int))) by {
                assert(chars@.subrange(start as int, chars.len() as int)[i - start] == c);
            }
            return None;
        }
        let ghost pre = chars@.subrange(start as int, i as int);
        let ghost next = chars@.subrange(start as int, i + 1);
        assert(next.drop_last() =~= pre);
        assert(next.last() == c);
        let d = (c as u32 - '0' as u32) as u128;
        if v < DIGITS_CAP {
            let w = v * 10 + d;
            v = if w < DIGITS_CAP { w } else { DIGITS_CAP };
        }
        assert(all_digits(next)) by {
            assert forall|k: int| 0 <= k < next.len() implies is_digit(next[k]) by {
                if k < pre.len() {
                    assert(next[k] == pre[k]);
                }
            }
        }
        i += 1;
    }
    Some(v)
}

/// Reads `s` as an `i32`, in the form `str::parse` accepts.
pub fn parse_i32(s: &str) -> (r: Option<i32>)
    ensures
        r is Some <==> i32_value(s@) is Some,
        r is Some ==> r->0 as int == i32_value(s@)->0,
{
    let chars = chars_of(s);
    if chars.len() == 0 {
        return None;
    }
    let signed = chars[0] == '+' || chars[0] == '-';
    let start: usize = if signed { 1 } else { 0 };
    assert(chars@.subrange(1, chars.len() as int) =~= s@.drop_first());
    assert(chars@.subrange(0, chars.len() as int) =~= s@);
    match read_digits(&chars, start) {
        None => None,
        Some(v) => {
            if chars[0] == '-' {
                if v <= 0x8000_0000 {
                    let n: i64 = -(v as i64);
                    Some(n as i32)
                } else {
                    None
                }
            } else if v <= 0x7fff_ffff {
                Some(v as i32)
            } else {
                None
            }
        },
    }
}

/// Whether `s` reads as an `i32`.
pub fn is_numeric(s: &str) -> (r: bool)
    ensures
        r == i32_value(s@) is Some,
{
    parse_i32(s).is_some()
}

/// Reads `s` as a `usize`, in the form `str::parse` accepts.
pub fn parse_usize(s: &str) -> (r: Option<usize>)
    ensures
        r is Some <==> usize_value(s@) is Some,
        r is Some ==> r->0 as nat == usize_value(s@)->0,
{
    let chars = chars_of(s);
    let start: usize = if chars.len() > 0 && chars[0] == '+' { 1 } else { 0 };
    assert(chars@.subrange(1, chars.len() as int) =~= s@.drop_first());
    assert(chars@.subrange(0, chars.len() as int) =~= s@);
    match read_digits(&chars, start) {
        None => None,
        Some(v) => {
            if v <= usize::MAX as u128 {
                Some(v as usize)
            } else {
                None
            }
        },
    }
}

} // verus!
