//! Scalar helpers of the band tools: bit-exact trigonometry, the hysteresis
//! rule, the noise generator and collapse masks.

use vstd::prelude::*;
use crate::math::{bit_length, ec_ilog, lemma_bit_length, lemma_bit_length_bound};

verus! {

/// Largest magnitude of a 16-bit word.
pub const WORD16_MAX: i32 = 32767;

/// The `bits` lowest bits set.
pub open spec fn low_mask(bits: int) -> u32 {
    if bits <= 0 {
        0
    } else if bits >= 32 {
        u32::MAX
    } else {
        ((1u32 << (bits as u32)) - 1) as u32
    }
}

/// Computes [`low_mask`].
pub fn mask_from_bits(bits: i32) -> (mask: u32)
    ensures
        mask == low_mask(bits as int),
{
    if bits <= 0 {
        0
    } else if bits >= 32 {
        u32::MAX
    } else {
        let b: u32 = bits as u32;
        assert(b < 32 ==> 1u32 << b >= 1) by (bit_vector);
        (1u32 << b) - 1
    }
}

/// Q15 product of the low 16 bits of two words, rounded to nearest.
pub open spec fn frac_product(a: int, b: int) -> int {
    (16384 + a * b) / 32768
}

/// Q15 product of the low 16 bits of `a` and `b`, rounded to nearest.
pub fn frac_mul16(a: i32, b: i32) -> (r: i32)
    ensures
        r == frac_product((a as i16) as int, (b as i16) as int),
        -32767 <= r <= 32768,
{
    let x: i32 = (a as i16) as i32;
    let y: i32 = (b as i16) as i32;
    assert(-32768 * 32767 <= x * y <= 32768 * 32768) by (nonlinear_arith)
        requires
            -32768 <= x <= 32767,
            -32768 <= y <= 32767,
    ;
    let p: i32 = 16384 + x * y;
    if p >= 0 {
        p / 32768
    } else {
        -((32767 - p) / 32768)
    }
}

/// [`frac_product`] as the helpers apply it: operands cut to 16 bits.
pub open spec fn frac_mul(a: int, b: int) -> int {
    frac_product((a as i32 as i16) as int, (b as i32 as i16) as int)
}

/// Squared angle in Q15 as used by the cosine polynomial.
pub open spec fn squared_angle(x: i16) -> int {
    (4096 + x * x) / 8192
}

/// Bit-exact cosine of a Q14 quarter-turn angle, in Q15.
pub open spec fn cos_q15(x: i16) -> i16 {
    let t = squared_angle(x);
    let p = t;
    (1 + (32767 - t) + frac_mul(p, -7651 + frac_mul(p, 8277 + frac_mul(-626, p)))) as i16
}

/// Computes [`cos_q15`].
pub fn bitexact_cos(x: i16) -> (c: i16)
    ensures
        c == cos_q15(x),
{
    assert(0 <= x * x <= 32768 * 32768) by (nonlinear_arith)
        requires
            -32768 <= x <= 32767,
    ;
    let square: i32 = x as i32 * x as i32;
    let t: i32 = (4096 + square) / 8192;
    let inner: i32 = 8277 + frac_mul16(-626, t);
    let outer: i32 = -7651 + frac_mul16(t, inner);
    let c: i32 = 1 + (32767 - t) + frac_mul16(t, outer);
    c as i16
}

/// Inside the angles that band splitting produces the cosine is a positive
/// Q15 value.
pub proof fn lemma_cos_range(x: i16)
    requires
        64 <= x <= 16320,
    ensures
        1 <= cos_q15(x) <= 32767,
{
    let t = squared_angle(x);
    assert(4096 <= x * x <= 16320 * 16320) by (nonlinear_arith)
        requires
            64 <= x <= 16320,
    ;
    assert(1 <= t <= 32513);
    assert((t as i32 as i16) as int == t);
    let i1 = frac_mul(-626, t);
    assert(((-626int) as i32 as i16) as int == -626);
    assert(-626 * 32513 <= -626 * t <= -626);
    assert(-622 <= i1 <= 0);
    let a = 8277 + i1;
    assert((a as i32 as i16) as int == a);
    let b = frac_mul(t, a);
    assert(t * 7655 <= t * a <= t * 8277) by (nonlinear_arith)
        requires
            7655 <= a <= 8277,
            t > 0,
    ;
    assert((16384 + t * 7655) / 32768 <= b <= (16384 + t * 8277) / 32768);
    assert(0 <= b <= 8213);
    let c = -7651 + b;
    assert((c as i32 as i16) as int == c);
    let d = frac_mul(t, c);
    let low = -7651 + (16384 + t * 7655) / 32768;
    assert(t * low <= t * c <= t * 562) by (nonlinear_arith)
        requires
            low <= c <= 562,
            t > 0,
    ;
    assert(d == (16384 + t * c) / 32768);
    assert(d <= (16384 + t * 562) / 32768);
    if t < 26560 {
        assert(t * low >= t * -7651) by (nonlinear_arith)
            requires
                low >= -7651,
                t > 0,
        ;
    } else if t < 31000 {
        assert(low >= -1447);
        assert(t * low >= t * -1447) by (nonlinear_arith)
            requires
                low >= -1447,
                t > 0,
        ;
    } else if t < 31900 {
        assert(low >= -410);
        assert(t * low >= t * -410) by (nonlinear_arith)
            requires
                low >= -410,
                t > 0,
        ;
    } else {
        assert(low >= -200);
        assert(t * low >= t * -200) by (nonlinear_arith)
            requires
                low >= -200,
                t > 0,
        ;
    }
}

/// The cosine as a polynomial in the squared angle.
spec fn cos_of_square(t: int) -> int {
    let a = 8277 + (16384 - 626 * t) / 32768;
    let c = -7651 + (16384 + t * a) / 32768;
    32768 - t + (16384 + t * c) / 32768
}

/// The polynomial gives the cosine without a loss of bits.
proof fn lemma_cos_of_square(x: i16)
    requires
        64 <= x <= 16320,
    ensures
        1 <= squared_angle(x) <= 32513,
        cos_q15(x) == cos_of_square(squared_angle(x)),
{
    let t = squared_angle(x);
    assert(4096 <= x * x <= 16320 * 16320) by (nonlinear_arith)
        requires
            64 <= x <= 16320,
    ;
    assert(1 <= t <= 32513);
    assert((t as i32 as i16) as int == t);
    assert(((-626int) as i32 as i16) as int == -626);
    let i1 = frac_mul(-626, t);
    assert(i1 == (16384 - 626 * t) / 32768);
    assert(-622 <= i1 <= 0);
    let a = 8277 + i1;
    assert((a as i32 as i16) as int == a);
    assert(t * 7655 <= t * a <= t * 8277) by (nonlinear_arith)
        requires
            7655 <= a <= 8277,
            t > 0,
    ;
    let b = frac_mul(t, a);
    assert(0 <= b <= 8213);
    let c = -7651 + b;
    assert((c as i32 as i16) as int == c);
    assert(t * -7651 <= t * c <= t * 562) by (nonlinear_arith)
        requires
            -7651 <= c <= 562,
            t > 0,
    ;
    let d = frac_mul(t, c);
    assert(d == (16384 + t * c) / 32768);
    assert(-7651 <= d <= 562);
    lemma_cos_range(x);
}

/// Over up to four steps of the squared angle the polynomial falls, by one more
/// than the number of steps at most.
proof fn lemma_square_step(t: int, k: int)
    requires
        1 <= t,
        0 <= k <= 4,
        t + k <= 32513,
    ensures
        0 <= cos_of_square(t) - cos_of_square(t + k) <= k + 1,
{
    if k > 0 {
        let u = t + k;
        let a = 8277 + (16384 - 626 * t) / 32768;
        let a2 = 8277 + (16384 - 626 * u) / 32768;
        assert(a - 1 <= a2 <= a);
        assert(7655 <= a2 <= 8277);
        assert(u * a2 == t * a + t * (a2 - a) + k * a2) by (nonlinear_arith)
            requires
                u == t + k,
        ;
        assert(7655 * k <= k * a2 <= 8277 * k) by (nonlinear_arith)
            requires
                7655 <= a2 <= 8277,
                k > 0,
        ;
        let m = t * (a2 - a);
        assert(m == 0 || m == -t) by (nonlinear_arith)
            requires
                m == t * (a2 - a),
                a2 == a || a2 == a - 1,
        ;
        let c = -7651 + (16384 + t * a) / 32768;
        let c2 = -7651 + (16384 + u * a2) / 32768;
        assert(-1 <= c2 - c <= 2);
        assert(k <= 3 ==> c2 - c <= 1);
        assert(u * 7655 <= u * a2 <= u * 8277) by (nonlinear_arith)
            requires
                7655 <= a2 <= 8277,
                u > 0,
        ;
        assert(-7651 <= c2 <= 562);
        assert(u >= 30000 ==> c2 <= 0) by {
            if u >= 30000 {
                assert(a2 <= 7705);
                assert(u * a2 <= u * 7705) by (nonlinear_arith)
                    requires
                        a2 <= 7705,
                        u > 0,
                ;
            }
        }
        assert(u * c2 == t * c + t * (c2 - c) + k * c2) by (nonlinear_arith)
            requires
                u == t + k,
        ;
        let g = c2 - c;
        let n = t * g;
        assert(n == if g == -1 { -t } else if g == 0 { 0 } else if g == 1 { t } else { 2 * t })
            by (nonlinear_arith)
            requires
                n == t * g,
                g == -1 || g == 0 || g == 1 || g == 2,
        ;
        let h = k * c2;
        assert(h == if k == 1 { c2 } else if k == 2 { 2 * c2 } else if k == 3 { 3 * c2 } else { 4 * c2 })
            by (nonlinear_arith)
            requires
                h == k * c2,
                k == 1 || k == 2 || k == 3 || k == 4,
        ;
        assert(n + h <= 32768 * k);
        if g == -1 {
            assert(7655 * k < t);
            assert(c2 >= -7651 + (16384 + u * 7655) / 32768);
        }
        assert(n + h >= -32768);
    }
}

/// Between the angles that band splitting produces the cosine falls, by five at
/// most from one angle to the next.
pub proof fn law_cosine_falls(x: i16)
    requires
        64 <= x < 16320,
    ensures
        0 <= cos_q15(x) - cos_q15((x + 1) as i16) <= 5,
{
    let y = (x + 1) as i16;
    lemma_cos_of_square(x);
    lemma_cos_of_square(y);
    assert(y * y == x * x + 2 * x + 1) by (nonlinear_arith)
        requires
            y == x + 1,
    ;
    let t = squared_angle(x);
    let k = squared_angle(y) - t;
    assert(0 <= k <= 4);
    lemma_square_step(t, k);
}

/// Between those angles the cosine stays a Q15 value of 200 or more.
pub proof fn law_cosine_stays_positive(x: i16)
    requires
        64 <= x <= 16320,
    ensures
        200 <= cos_q15(x) <= 32767,
    decreases 16320 - x,
{
    lemma_cos_range(x);
    if x < 16320 {
        law_cosine_falls(x);
        law_cosine_stays_positive((x + 1) as i16);
    } else {
        lemma_cos_of_square(x);
        assert(x * x == 266342400) by (nonlinear_arith)
            requires
                x == 16320,
        ;
        assert(squared_angle(x) == 32513);
        assert(32513 * 7656int == 248919528 && 32513 * -55int == -1788215);
        assert(cos_of_square(32513) >= 200);
    }
}

/// Logarithm polynomial of a mantissa in [0.5, 1), Q15.
pub open spec fn mantissa_log(m: int) -> int {
    frac_mul(m, frac_mul(m, -2597) + 7932)
}

/// A magnitude shifted so that its highest bit becomes bit 14.
pub open spec fn mantissa(x: int) -> int {
    x * vstd::arithmetic::power2::pow2((15 - bit_length(x as nat)) as nat)
}

/// Bit-exact base-two logarithm of the tangent `isin / icos`, in Q11.
pub open spec fn log2tan(isin: int, icos: int) -> int {
    (bit_length(isin as nat) - bit_length(icos as nat)) * 2048 + mantissa_log(mantissa(isin))
        - mantissa_log(mantissa(icos))
}

/// The mantissa of a Q15 magnitude stays a Q15 magnitude.
proof fn lemma_mantissa(x: int)
    requires
        0 <= x <= 32767,
    ensures
        bit_length(x as nat) <= 15,
        0 <= mantissa(x) <= 32767,
{
    vstd::arithmetic::power2::lemma2_to64();
    lemma_bit_length_bound(x as nat, 15);
    lemma_bit_length(x as nat);
    let l = bit_length(x as nat);
    let s = (15 - l) as nat;
    vstd::arithmetic::power2::lemma_pow2_adds(l, s);
    vstd::arithmetic::power2::lemma_pow2_pos(s);
    let p = vstd::arithmetic::power2::pow2(s) as int;
    let q = vstd::arithmetic::power2::pow2(l) as int;
    assert(0 <= x * p < q * p) by (nonlinear_arith)
        requires
            0 <= x < q,
            p > 0,
    ;
}

/// Computes [`mantissa`].
fn normalise_magnitude(x: i32, bits: u32) -> (m: i32)
    requires
        0 <= x <= WORD16_MAX,
        bits == bit_length(x as nat),
    ensures
        m == mantissa(x as int),
        0 <= m <= WORD16_MAX,
{
    proof {
        lemma_mantissa(x as int);
    }
    let mut m: i32 = x;
    let mut left: u32 = 15 - bits;
    let ghost total = (15 - bits) as nat;
    proof {
        vstd::arithmetic::power2::lemma2_to64();
    }
    while left > 0
        invariant
            left <= total <= 15,
            0 <= m,
            m * vstd::arithmetic::power2::pow2(left as nat) == mantissa(x as int),
            mantissa(x as int) <= WORD16_MAX,
        decreases left,
    {
        proof {
            let p = vstd::arithmetic::power2::pow2((left - 1) as nat) as int;
            vstd::arithmetic::power2::lemma_pow2_unfold(left as nat);
            vstd::arithmetic::power2::lemma_pow2_pos((left - 1) as nat);
            assert(m * (2 * p) == (m * 2) * p) by (nonlinear_arith);
            assert(m * 2 <= (m * 2) * p) by (nonlinear_arith)
                requires
                    p >= 1,
                    m >= 0,
            ;
        }
        m = m * 2;
        left = left - 1;
    }
    proof {
        vstd::arithmetic::power2::lemma2_to64();
        assert(m * 1 == m);
    }
    m
}

/// Computes [`log2tan`] of two Q15 magnitudes.
pub fn bitexact_log2tan(isin: i32, icos: i32) -> (r: i32)
    requires
        0 <= isin <= WORD16_MAX,
        0 <= icos <= WORD16_MAX,
    ensures
        r == log2tan(isin as int, icos as int),
        -200000 <= r <= 200000,
{
    proof {
        lemma_mantissa(isin as int);
        lemma_mantissa(icos as int);
    }
    let lc: u32 = ec_ilog(icos as u32);
    let ls: u32 = ec_ilog(isin as u32);
    let c: i32 = normalise_magnitude(icos, lc);
    let s: i32 = normalise_magnitude(isin, ls);
    (ls as i32 - lc as i32) * 2048 + frac_mul16(s, frac_mul16(s, -2597) + 7932) - frac_mul16(
        c,
        frac_mul16(c, -2597) + 7932,
    )
}

/// First table entry above `value`; the table length when there is none.
pub open spec fn first_above(value: i32, thresholds: Seq<i32>, from: int) -> int
    decreases thresholds.len() - from,
{
    if from < 0 || from >= thresholds.len() || value < thresholds[from] {
        from
    } else {
        first_above(value, thresholds, from + 1)
    }
}

/// The hysteresis rule: the previous region is kept while the value stays
/// within the hysteresis of the threshold that was crossed.
pub open spec fn hysteresis_region(
    value: i32,
    thresholds: Seq<i32>,
    hysteresis: Seq<i32>,
    prev: int,
) -> int {
    let index = first_above(value, thresholds, 0);
    if prev < thresholds.len() && index > prev && value < thresholds[prev] + hysteresis[prev] {
        prev
    } else if prev > 0 && index < prev && value > thresholds[prev - 1] - hysteresis[prev - 1] {
        prev
    } else {
        index
    }
}

/// Selects the region of `value`, applying hysteresis around the region
/// selected before.
pub fn hysteresis_decision(
    value: i32,
    thresholds: &[i32],
    hysteresis: &[i32],
    prev: usize,
) -> (region: usize)
    requires
        thresholds@.len() == hysteresis@.len(),
        prev <= thresholds@.len(),
    ensures
        region == hysteresis_region(value, thresholds@, hysteresis@, prev as int),
        region <= thresholds@.len(),
{
    let count: usize = thresholds.len();
    let mut index: usize = 0;
    while index < count && value >= thresholds[index]
        invariant
            index <= count == thresholds@.len(),
            first_above(value, thresholds@, 0) == first_above(value, thresholds@, index as int),
        decreases count - index,
    {
        index = index + 1;
    }
    if prev < count && index > prev && (value as i64) < thresholds[prev] as i64
        + hysteresis[prev] as i64 {
        return prev;
    }
    if prev > 0 && index < prev && value as i64 > thresholds[prev - 1] as i64 - hysteresis[prev
        - 1] as i64 {
        return prev;
    }
    index
}

/// Next state of the noise generator.
#[verifier::allow_in_spec]
pub fn celt_lcg_rand(seed: u32) -> u32
    returns
        seed.wrapping_mul(1664525).wrapping_add(1013904223),
{
    seed.wrapping_mul(1664525).wrapping_add(1013904223)
}

} // verus!
