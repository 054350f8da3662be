//! Words and numbers in command line arguments.

use vstd::prelude::*;

verus! {

/// Whether a text is a given word.
pub fn is_word(text: &str, word: &str) -> (b: bool)
    ensures
        b == (text@ == word@),
{
    let a: String = text.to_owned();
    let b: String = word.to_owned();
    a == b
}

/// Whether a character is a decimal digit.
pub open spec fn is_digit(c: char) -> bool {
    '0' <= c <= '9'
}

/// Value of the first `n` digits of a text.
pub open spec fn digits_value(s: Seq<char>, n: int) -> int
    decreases n,
{
    if n <= 0 {
        0
    } else {
        10 * digits_value(s, n - 1) + (s[n - 1] as int - '0' as int)
    }
}

/// The number behind the sign of a text: one digit or more, and nothing else.
pub open spec fn magnitude(s: Seq<char>, from: int) -> Option<int> {
    let digits = s.skip(from);
    if digits.len() > 0 && (forall|i: int| 0 <= i < digits.len() ==> is_digit(#[trigger] digits[i])) {
        Some(digits_value(digits, digits.len() as int))
    } else {
        None
    }
}

/// Whether a text starts with a sign.
pub open spec fn starts_with(s: Seq<char>, sign: char) -> bool {
    s.len() > 0 && s[0] == sign
}

/// The integer that a text stands for; a sign may stand in front.
pub open spec fn signed_number(s: Seq<char>) -> Option<int> {
    if starts_with(s, '-') {
        match magnitude(s, 1) {
            Some(m) => Some(-m),
            None => None,
        }
    } else if starts_with(s, '+') {
        magnitude(s, 1)
    } else {
        magnitude(s, 0)
    }
}

/// The natural number that a text stands for; a plus may stand in front.
pub open spec fn unsigned_number(s: Seq<char>) -> Option<int> {
    if starts_with(s, '+') {
        magnitude(s, 1)
    } else {
        magnitude(s, 0)
    }
}

/// A number that fits in 32 bits.
pub open spec fn number_i32(s: Seq<char>) -> Option<i32> {
    match signed_number(s) {
        Some(v) => if i32::MIN <= v <= i32::MAX {
            Some(v as i32)
        } else {
            None
        },
        None => None,
    }
}

/// A natural number that fits in a word.
pub open spec fn number_usize(s: Seq<char>) -> Option<usize> {
    match unsigned_number(s) {
        Some(v) => if v <= usize::MAX {
            Some(v as usize)
        } else {
            None
        },
        None => None,
    }
}

/// More than any word holds.
pub const HUGE: u128 = 0x1_0000_0000_0000_0000;

/// Computes [`magnitude`]; values that no word holds are brought to [`HUGE`].
fn read_magnitude(text: &str, from: usize) -> (m: Option<u128>)
    requires
        from <= text@.len(),
    ensures
        match magnitude(text@, from as int) {
            Some(v) => v >= 0 && m == Some((if v < HUGE { v } else { HUGE as int }) as u128),
            None => m is None,
        },
{
    let len: usize = text.unicode_len();
    let ghost digits = text@.skip(from as int);
    if len == from {
        return None;
    }
    let mut m: u128 = 0;
    for i in from..len
        invariant
            len == text@.len(),
            from <= len,
            digits == text@.skip(from as int),
            forall|k: int| 0 <= k < i - from ==> is_digit(#[trigger] digits[k]),
            digits_value(digits, i - from) >= 0,
            m == (if digits_value(digits, i - from) < HUGE {
                digits_value(digits, i - from)
            } else {
                HUGE as int
            }),
    {
        let c: char = text.get_char(i);
        assert(c == digits[i - from]);
        if c < '0' || c > '9' {
            return None;
        }
        let digit: u128 = (c as u32 - '0' as u32) as u128;
        let next: u128 = 10 * m + digit;
        m = if next < HUGE { next } else { HUGE };
    }
    Some(m)
}

/// Whether a text starts with a sign.
fn has_sign(text: &str, sign: char) -> (b: bool)
    ensures
        b == starts_with(text@, sign),
{
    text.unicode_len() > 0 && text.get_char(0) == sign
}

/// Computes [`number_i32`].
pub fn read_i32(text: &str) -> (v: Option<i32>)
    ensures
        v == number_i32(text@),
{
    let negative: bool = has_sign(text, '-');
    let from: usize = if negative || has_sign(text, '+') { 1 } else { 0 };
    match read_magnitude(text, from) {
        None => None,
        Some(m) => {
            if negative {
                if m <= 0x8000_0000 {
                    Some((0 - m as i64) as i32)
                } else {
                    None
                }
            } else if m <= 0x7fff_ffff {
                Some(m as i32)
            } else {
                None
            }
        },
    }
}

/// Computes [`number_usize`].
pub fn read_usize(text: &str) -> (v: Option<usize>)
    ensures
        v == number_usize(text@),
{
    let from: usize = if has_sign(text, '+') { 1 } else { 0 };
    match read_magnitude(text, from) {
        None => None,
        Some(m) => {
            if m <= usize::MAX as u128 {
                Some(m as usize)
            } else {
                None
            }
        },
    }
}

} // verus!
