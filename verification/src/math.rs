//! Integer mathematics shared by the band tools: bit lengths, integer square
//! roots and the polynomial approximations used by the fixed-point gains.

use vstd::prelude::*;
use vstd::arithmetic::power2::{lemma_pow2_pos, lemma_pow2_strictly_increases, lemma_pow2_unfold, pow2};
use crate::fixed::{extract16, mult16_16_q15, mult16_32_q15, mult32_32_q31, pshr32, shl32, vshr32};

verus! {

/// Number of bits needed to write `x` in binary; zero needs none.
pub open spec fn bit_length(x: nat) -> nat
    decreases x,
{
    if x == 0 {
        0
    } else {
        1 + bit_length(x / 2)
    }
}

/// The bit length is the exponent of the first power of two above the value.
pub proof fn lemma_bit_length(x: nat)
    ensures
        x < pow2(bit_length(x)),
        x > 0 ==> bit_length(x) >= 1 && pow2((bit_length(x) - 1) as nat) <= x,
    decreases x,
{
    if x == 0 {
        lemma_pow2_pos(0);
    } else {
        lemma_bit_length(x / 2);
        lemma_pow2_unfold(bit_length(x));
        if x / 2 > 0 {
            lemma_pow2_unfold(bit_length(x / 2));
        } else {
            vstd::arithmetic::power2::lemma2_to64();
        }
    }
}

/// A value below a power of two has no more bits than its exponent.
pub proof fn lemma_bit_length_bound(x: nat, n: nat)
    requires
        x < pow2(n),
    ensures
        bit_length(x) <= n,
{
    lemma_bit_length(x);
    if bit_length(x) > n {
        if n < bit_length(x) - 1 {
            lemma_pow2_strictly_increases(n, (bit_length(x) - 1) as nat);
        }
    }
}

/// Bit length of a 32-bit word.
pub fn ec_ilog(x: u32) -> (bits: u32)
    ensures
        bits == bit_length(x as nat),
        bits <= 32,
{
    let mut v: u32 = x;
    let mut bits: u32 = 0;
    proof {
        vstd::arithmetic::power2::lemma2_to64();
        lemma_bit_length_bound(x as nat, 32);
    }
    while v > 0
        invariant
            bits + bit_length(v as nat) == bit_length(x as nat),
            bit_length(x as nat) <= 32,
        decreases v,
    {
        v = v / 2;
        bits = bits + 1;
    }
    bits
}

/// Bit length of a 64-bit word.
pub fn ilog64(x: u64) -> (bits: u32)
    ensures
        bits == bit_length(x as nat),
        bits <= 64,
{
    let mut v: u64 = x;
    let mut bits: u32 = 0;
    proof {
        vstd::arithmetic::power2::lemma2_to64();
        lemma_bit_length_bound(x as nat, 64);
    }
    while v > 0
        invariant
            bits + bit_length(v as nat) == bit_length(x as nat),
            bit_length(x as nat) <= 64,
        decreases v,
    {
        v = v / 2;
        bits = bits + 1;
    }
    bits
}

/// Position of the highest set bit of a positive value.
pub open spec fn ilog2(x: int) -> int {
    bit_length(x as nat) - 1
}

/// Position of the highest set bit of a positive word.
pub fn celt_ilog2(x: i32) -> (r: i32)
    requires
        x > 0,
    ensures
        r == ilog2(x as int),
        0 <= r <= 30,
{
    proof {
        vstd::arithmetic::power2::lemma2_to64();
        lemma_bit_length_bound(x as nat, 31);
        lemma_bit_length(x as nat);
    }
    ec_ilog(x as u32) as i32 - 1
}

/// Like [`ilog2`], extended by zero to values that are not positive.
pub open spec fn zlog2(x: int) -> int {
    if x <= 0 {
        0
    } else {
        ilog2(x)
    }
}

/// Like [`celt_ilog2`], extended by zero to words that are not positive.
pub fn celt_zlog2(x: i32) -> (r: i32)
    ensures
        r == zlog2(x as int),
        0 <= r <= 30,
{
    if x <= 0 {
        0
    } else {
        celt_ilog2(x)
    }
}

/// Largest integer whose square does not exceed `value`.
pub fn isqrt32(value: u32) -> (root: u32)
    ensures
        root * root <= value < (root + 1) * (root + 1),
        root <= 65535,
{
    let mut root: u32 = 0;
    // Gap to the first candidate already known to be too large.
    let mut gap: u32 = 65536;
    assert(65536int * 65536int == 0x1_0000_0000);
    while gap > 1
        invariant
            1 <= gap,
            root + gap <= 65536,
            root * root <= value < (root + gap) * (root + gap),
        decreases gap,
    {
        let step: u32 = gap / 2;
        let candidate: u32 = root + step;
        assert(candidate * candidate <= 65536 * 65536) by (nonlinear_arith)
            requires
                0 <= candidate <= 65536,
        ;
        let square: u64 = candidate as u64 * candidate as u64;
        if square <= value as u64 {
            root = candidate;
            gap = gap - step;
        } else {
            gap = step;
        }
    }
    root
}

/// Quotient rounded towards zero.
pub open spec fn trunc_div(a: int, b: int) -> int {
    if a >= 0 {
        a / b
    } else {
        -((-a) / b)
    }
}

/// Division by a positive word, rounding towards zero.
pub fn celt_sudiv(a: i32, b: i32) -> (q: i32)
    requires
        b > 0,
    ensures
        q == trunc_div(a as int, b as int),
{
    let wide: i64 = a as i64;
    let d: i64 = b as i64;
    let magnitude: i64 = if wide >= 0 { wide } else { -wide };
    let quotient: i64 = magnitude / d;
    proof {
        let m = magnitude as int;
        let e = d as int;
        vstd::arithmetic::div_mod::lemma_div_is_ordered_by_denominator(m, 1, e);
        vstd::arithmetic::div_mod::lemma_div_pos_is_pos(m, e);
        assert(m / 1 == m);
        if a == i32::MIN && b == 1 {
            assert(quotient == 0x8000_0000);
        }
    }
    if wide >= 0 {
        quotient as i32
    } else {
        (-quotient) as i32
    }
}

/// Half of a word, rounded down.
pub fn half_floor(x: i32) -> (h: i32)
    ensures
        h == x as int / 2,
{
    if x >= 0 {
        x / 2
    } else {
        -((-(x + 1)) / 2) - 1
    }
}

/// Reciprocal approximation: roughly `2^31 / x` for a positive `x`.
pub open spec fn rcp(x: i32) -> i32 {
    let i = ilog2(x as int) as i32;
    let n = vshr32(x, (i - 15) as i32).wrapping_sub(32768) as i16;
    let r0 = 30840i16.wrapping_add(mult16_16_q15((-15420) as i16, n));
    let r1 = r0.wrapping_sub(
        mult16_16_q15(r0, mult16_16_q15(r0, n).wrapping_add(r0.wrapping_add((-32768) as i16))),
    );
    let r2 = r1.wrapping_sub(
        1i16.wrapping_add(
            mult16_16_q15(r1, mult16_16_q15(r1, n).wrapping_add(r1.wrapping_add((-32768) as i16))),
        ),
    );
    vshr32(r2 as i32, (i - 16) as i32)
}

/// Computes [`rcp`].
pub fn celt_rcp(x: i32) -> (r: i32)
    requires
        x > 0,
    ensures
        r == rcp(x),
{
    let i: i32 = celt_ilog2(x);
    let n: i16 = vshr32(x, i - 15).wrapping_sub(32768) as i16;
    let r0: i16 = 30840i16.wrapping_add(mult16_16_q15(-15420, n));
    let r1: i16 = r0.wrapping_sub(
        mult16_16_q15(r0, mult16_16_q15(r0, n).wrapping_add(r0.wrapping_add(-32768))),
    );
    let r2: i16 = r1.wrapping_sub(
        1i16.wrapping_add(
            mult16_16_q15(r1, mult16_16_q15(r1, n).wrapping_add(r1.wrapping_add(-32768))),
        ),
    );
    vshr32(r2 as i32, i - 16)
}

/// Reciprocal square root of a Q16 value in [0.25, 1), as a Q14 word.
pub open spec fn rsqrt_norm(x: i32) -> i16 {
    let n = x.wrapping_sub(32768) as i16;
    let r = 23557i16.wrapping_add(
        mult16_16_q15(n, ((-13490) as i16).wrapping_add(mult16_16_q15(n, 6713))),
    );
    let r2 = mult16_16_q15(r, r);
    let d = mult16_16_q15(r2, n).wrapping_add(r2).wrapping_sub(16384);
    let y = d.wrapping_add(d);
    r.wrapping_add(
        mult16_16_q15(r, mult16_16_q15(y, mult16_16_q15(y, 12288).wrapping_sub(16384))),
    )
}

/// Computes [`rsqrt_norm`].
pub fn celt_rsqrt_norm(x: i32) -> (g: i16)
    ensures
        g == rsqrt_norm(x),
{
    let n: i16 = x.wrapping_sub(32768) as i16;
    let r: i16 = 23557i16.wrapping_add(
        mult16_16_q15(n, (-13490i16).wrapping_add(mult16_16_q15(n, 6713))),
    );
    let r2: i16 = mult16_16_q15(r, r);
    let d: i16 = mult16_16_q15(r2, n).wrapping_add(r2).wrapping_sub(16384);
    let y: i16 = d.wrapping_add(d);
    r.wrapping_add(
        mult16_16_q15(r, mult16_16_q15(y, mult16_16_q15(y, 12288).wrapping_sub(16384))),
    )
}

/// Square root approximation of a non-negative Q30 value, as a Q15 value.
pub open spec fn sqrt_approx(x: i32) -> i32 {
    if x <= 0 {
        0
    } else if x >= 1073741824 {
        32767
    } else {
        let k = (ilog2(x as int) / 2 - 7) as i32;
        let n = vshr32(x, (2 * k) as i32).wrapping_sub(32768) as i16;
        let c4 = ((-1002) as i16).wrapping_add(mult16_16_q15(n, 336));
        let c3 = 1592i16.wrapping_add(mult16_16_q15(n, c4));
        let c2 = ((-2901) as i16).wrapping_add(mult16_16_q15(n, c3));
        let c1 = 11574i16.wrapping_add(mult16_16_q15(n, c2));
        let c0 = 23171i16.wrapping_add(mult16_16_q15(n, c1));
        vshr32(c0 as i32, (7 - k) as i32)
    }
}

/// Computes [`sqrt_approx`].
pub fn celt_sqrt(x: i32) -> (r: i32)
    ensures
        r == sqrt_approx(x),
{
    if x <= 0 {
        return 0;
    }
    if x >= 1073741824 {
        return 32767;
    }
    let k: i32 = celt_ilog2(x) / 2 - 7;
    let n: i16 = vshr32(x, 2 * k).wrapping_sub(32768) as i16;
    let c4: i16 = (-1002i16).wrapping_add(mult16_16_q15(n, 336));
    let c3: i16 = 1592i16.wrapping_add(mult16_16_q15(n, c4));
    let c2: i16 = (-2901i16).wrapping_add(mult16_16_q15(n, c3));
    let c1: i16 = 11574i16.wrapping_add(mult16_16_q15(n, c2));
    let c0: i16 = 23171i16.wrapping_add(mult16_16_q15(n, c1));
    vshr32(c0 as i32, 7 - k)
}

/// Approximate quotient `a / b` in Q29.
pub open spec fn frac_div_q29(a: i32, b: i32) -> i32 {
    let shift = (ilog2(b as int) - 29) as i32;
    let na = vshr32(a, shift);
    let nb = vshr32(b, shift);
    let r = extract16(pshr32(rcp(extract16(pshr32(nb, 16)) as i32), 3));
    let res = mult16_32_q15(r, na);
    let rem = pshr32(na, 2).wrapping_sub(mult32_32_q31(res, nb));
    res.wrapping_add(shl32(mult16_32_q15(r, rem), 2))
}

/// Approximate quotient `a / b` in Q31, saturated to the open unit interval.
pub open spec fn frac_div(a: i32, b: i32) -> i32 {
    let q = frac_div_q29(a, b);
    if q >= 536870912 {
        2147483647
    } else if q <= -536870912 {
        (-2147483647) as i32
    } else {
        shl32(q, 2)
    }
}

/// A normalised divisor keeps a positive leading half-word after rounding.
proof fn lemma_rounded_divisor(nb: i32)
    requires
        0x2000_0000 <= nb < 0x4000_0000,
    ensures
        pshr32(nb, 16) as i16 > 0,
{
    assert(0x2000_0000i32 <= nb < 0x4000_0000i32 ==> ((nb + 32768) as i32 >> 16u32) as i16 > 0)
        by (bit_vector);
    assert(((1u32 << 16u32) >> 1u32) as i32 == 32768) by (bit_vector);
}

/// Shifting a positive word so that bit 29 leads keeps it in range.
proof fn lemma_normalised(b: i32, i: i32)
    requires
        b > 0,
        i == ilog2(b as int),
    ensures
        0x2000_0000 <= vshr32(b, (i - 29) as i32) < 0x4000_0000,
{
    vstd::arithmetic::power2::lemma2_to64();
    lemma_bit_length(b as nat);
    lemma_bit_length_bound(b as nat, 31);
    if i == 30 {
        assert(0x4000_0000 <= b);
        assert(0x4000_0000i32 <= b ==> 0x2000_0000 <= b >> 1u32 < 0x4000_0000) by (bit_vector);
    } else {
        let s = (29 - i) as u32;
        let p = pow2(i as nat);
        let k = pow2(s as nat);
        vstd::arithmetic::power2::lemma_pow2_adds(i as nat, s as nat);
        vstd::arithmetic::power2::lemma_pow2_adds(i as nat + 1, s as nat);
        lemma_pow2_unfold((i + 1) as nat);
        assert(p * k == 0x2000_0000);
        lemma_pow2_pos(s as nat);
        assert(p * k <= b * k < 2 * (p * k)) by (nonlinear_arith)
            requires
                p <= b < 2 * p,
                k > 0,
        ;
        vstd::bits::lemma_u32_shl_is_mul(b as u32, s);
        assert((b as u32) << s == b * k);
    }
}

/// Computes [`frac_div`].
pub fn frac_div32(a: i32, b: i32) -> (q: i32)
    requires
        b > 0,
    ensures
        q == frac_div(a, b),
{
    let shift: i32 = celt_ilog2(b) - 29;
    let na: i32 = vshr32(a, shift);
    let nb: i32 = vshr32(b, shift);
    proof {
        lemma_normalised(b, (shift + 29) as i32);
        lemma_rounded_divisor(nb);
    }
    let r: i16 = extract16(pshr32(celt_rcp(extract16(pshr32(nb, 16)) as i32), 3));
    let res: i32 = mult16_32_q15(r, na);
    let rem: i32 = pshr32(na, 2).wrapping_sub(mult32_32_q31(res, nb));
    let q: i32 = res.wrapping_add(shl32(mult16_32_q15(r, rem), 2));
    if q >= 536870912 {
        2147483647
    } else if q <= -536870912 {
        -2147483647
    } else {
        shl32(q, 2)
    }
}

} // verus!
