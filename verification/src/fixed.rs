//! Fixed-point arithmetic primitives.
//!
//! Every primitive is total: shifts discard the bits that leave the word and
//! additions wrap, so that a corrupt stream can never make the decoder panic.
//! Each of them can be used in contracts under its own name.

use vstd::prelude::*;

verus! {

/// Unity in Q31.
pub const Q31_ONE: i32 = 2147483647;

/// Unity in Q15.
pub const Q15_ONE: i16 = 32767;

/// Magnitude of a unit-norm coefficient (Q14).
pub const NORM_SCALING: i16 = 16384;

/// Exact product of two 16-bit words.
#[verifier::allow_in_spec]
pub fn mult16_16(a: i16, b: i16) -> i32
    returns
        (a * b) as i32,
{
    assert(-32768 * 32768 <= a * b <= 32768 * 32768) by (nonlinear_arith)
        requires
            -32768 <= a <= 32767,
            -32768 <= b <= 32767,
    ;
    (a as i32) * (b as i32)
}

/// Q15 product of two 16-bit words, truncated to 16 bits.
#[verifier::allow_in_spec]
pub fn mult16_16_q15(a: i16, b: i16) -> i16
    returns
        (mult16_16(a, b) >> 15u32) as i16,
{
    (mult16_16(a, b) >> 15u32) as i16
}

/// Q15 product of two 16-bit words, rounded to nearest.
#[verifier::allow_in_spec]
pub fn mult16_16_p15(a: i16, b: i16) -> i16
    returns
        (mult16_16(a, b).wrapping_add(16384) >> 15u32) as i16,
{
    (mult16_16(a, b).wrapping_add(16384) >> 15u32) as i16
}

/// Q14 product of two 16-bit words, truncated to 16 bits.
#[verifier::allow_in_spec]
pub fn mult16_16_q14(a: i16, b: i16) -> i16
    returns
        (mult16_16(a, b) >> 14u32) as i16,
{
    (mult16_16(a, b) >> 14u32) as i16
}

/// Exact product of two 32-bit words.
#[verifier::allow_in_spec]
pub fn mult32_32(a: i32, b: i32) -> i64
    returns
        (a * b) as i64,
{
    assert(-0x4000_0000_0000_0000 <= a * b <= 0x4000_0000_0000_0000) by (nonlinear_arith)
        requires
            -0x8000_0000 <= a <= 0x7fff_ffff,
            -0x8000_0000 <= b <= 0x7fff_ffff,
    ;
    (a as i64) * (b as i64)
}

/// Q15 product of a 16-bit and a 32-bit word.
#[verifier::allow_in_spec]
pub fn mult16_32_q15(a: i16, b: i32) -> i32
    returns
        (mult32_32(a as i32, b) >> 15u32) as i32,
{
    (mult32_32(a as i32, b) >> 15u32) as i32
}

/// Q31 product of two 32-bit words.
#[verifier::allow_in_spec]
pub fn mult32_32_q31(a: i32, b: i32) -> i32
    returns
        (mult32_32(a, b) >> 31u32) as i32,
{
    (mult32_32(a, b) >> 31u32) as i32
}

/// Left shift; bits shifted out of the word are lost.
#[verifier::allow_in_spec]
pub fn shl32(a: i32, shift: u32) -> i32
    requires
        shift < 32,
    returns
        ((a as u32) << shift) as i32,
{
    ((a as u32) << shift) as i32
}

/// Arithmetic right shift.
#[verifier::allow_in_spec]
pub fn shr32(a: i32, shift: u32) -> i32
    requires
        shift < 32,
    returns
        a >> shift,
{
    a >> shift
}

/// Arithmetic right shift, rounding to nearest.
#[verifier::allow_in_spec]
pub fn pshr32(a: i32, shift: u32) -> i32
    requires
        shift < 32,
    returns
        a.wrapping_add(((1u32 << shift) >> 1u32) as i32) >> shift,
{
    a.wrapping_add(((1u32 << shift) >> 1u32) as i32) >> shift
}

/// Shift in either direction: right by `shift`, or left by `-shift`.
#[verifier::allow_in_spec]
pub fn vshr32(a: i32, shift: i32) -> i32
    requires
        -32 < shift < 32,
    returns
        if shift > 0 { a >> (shift as u32) } else { ((a as u32) << ((-shift) as u32)) as i32 },
{
    if shift > 0 {
        a >> (shift as u32)
    } else {
        ((a as u32) << ((-shift) as u32)) as i32
    }
}

/// Low 16 bits of a word.
#[verifier::allow_in_spec]
pub fn extract16(a: i32) -> i16
    returns
        a as i16,
{
    a as i16
}

} // verus!
