//! How closely normalised coefficients follow the quotient that they stand for.

use vstd::prelude::*;
use vstd::arithmetic::power2::{
    lemma2_to64, lemma_pow2_adds, lemma_pow2_pos, lemma_pow2_unfold, pow2,
};
use crate::fixed::{mult16_16, mult16_16_q15, mult16_32_q15, mult32_32, pshr32, vshr32};
use crate::math::{ilog2, lemma_bit_length, lemma_bit_length_bound, rcp, zlog2};
use crate::spectrum::normal_value;

verus! {

/// A Q15 product is the exact one, rounded down.
pub proof fn lemma_q15(a: i16, b: i16)
    requires
        -32768 * 32767 <= a * b <= 32768 * 32767,
    ensures
        32768 * mult16_16_q15(a, b) <= a * b < 32768 * mult16_16_q15(a, b) + 32768,
{
    assert(-32768 * 32768 <= a * b <= 32768 * 32768) by (nonlinear_arith)
        requires
            -32768 <= a <= 32767,
            -32768 <= b <= 32767,
    ;
    let p = mult16_16(a, b);
    assert(p == a * b);
    assert(-32768 * 32767 <= p <= 32768 * 32767 ==> -32768 <= (p >> 15u32) <= 32767 && 32768 * (p
        >> 15u32) <= p && p < 32768 * (p >> 15u32) + 32768) by (bit_vector);
}

/// A shift to the right is a division, rounded down.
pub proof fn lemma_shr(p: i32, s: nat)
    requires
        s < 32,
    ensures
        pow2(s) * (p >> (s as u32)) <= p < pow2(s) * (p >> (s as u32)) + pow2(s),
    decreases s,
{
    lemma2_to64();
    if s == 0 {
        assert(p >> 0u32 == p) by (bit_vector);
    } else {
        let t = (s - 1) as nat;
        lemma_shr(p, t);
        lemma_pow2_unfold(s);
        lemma_pow2_pos(t);
        let u = t as u32;
        let v = s as u32;
        let x = p >> u;
        let y = p >> v;
        assert(u < 31 && v == u + 1 ==> p >> v == (p >> u) >> 1u32) by (bit_vector);
        assert(2 * (x >> 1u32) <= x && x < 2 * (x >> 1u32) + 2) by (bit_vector);
        let w = pow2(t) as int;
        assert((2 * w) * y <= w * x && w * x + w <= (2 * w) * y + 2 * w) by (nonlinear_arith)
            requires
                2 * y <= x,
                x < 2 * y + 2,
                w > 0,
        ;
    }
}

/// One step of the iteration for a reciprocal: the error is squared, up to the
/// rounding.
proof fn lemma_newton(r: int, d: int, t: int, q: int)
    requires
        0 <= r,
        0 < d,
        32768 * t <= r * d - 0x4000_0000 < 32768 * t + 32768,
        32768 * q <= r * t < 32768 * q + 32768,
    ensures
        ({
            let e = r * d - 0x4000_0000;
            let f = (r - q) * d - 0x4000_0000;
            &&& -(e * e) <= 0x4000_0000 * f
            &&& 0x4000_0000 * f < 32768 * (0x4000_0000 + e) + 0x4000_0000 * d - e * e
        }),
{
    let e = r * d - 0x4000_0000;
    let u = 32768 * t;
    let f = (r - q) * d - 0x4000_0000;
    assert(f == e - q * d) by (nonlinear_arith)
        requires
            f == (r - q) * d - 0x4000_0000,
            e == r * d - 0x4000_0000,
    ;
    assert(32768 * (q * d) <= (r * t) * d && (r * t) * d < 32768 * (q * d) + 32768 * d)
        by (nonlinear_arith)
        requires
            32768 * q <= r * t < 32768 * q + 32768,
            0 < d,
    ;
    assert(32768 * ((r * t) * d) == (r * d) * u) by (nonlinear_arith)
        requires
            u == 32768 * t,
    ;
    assert(0 <= r * d) by (nonlinear_arith)
        requires
            0 <= r,
            0 < d,
    ;
    assert((r * d) * (e - 32768) <= (r * d) * u <= (r * d) * e) by (nonlinear_arith)
        requires
            0 <= r * d,
            e - 32768 <= u <= e,
    ;
    let rd = r * d;
    assert(rd * e == 0x4000_0000 * e + e * e) by (nonlinear_arith)
        requires
            rd == 0x4000_0000 + e,
    ;
    assert(rd * (e - 32768) == rd * e - 32768 * rd) by (nonlinear_arith);
}

/// The first guess of a reciprocal.
proof fn lemma_guess(n: int, r: int)
    requires
        0 <= n < 32768,
        32768 * (r - 30840) <= -15420 * n < 32768 * (r - 30840) + 32768,
    ensures
        15420 <= r <= 30840,
        -63300000 <= r * (n + 32768) - 0x4000_0000 <= 63300000,
{
    let d = n + 32768;
    let g = 15420 * (65536 - n);
    assert(32768 * r <= g < 32768 * r + 32768);
    assert((32768 * r) * d <= g * d && g * d < (32768 * r) * d + 32768 * d) by (nonlinear_arith)
        requires
            32768 * r <= g < 32768 * r + 32768,
            d > 0,
    ;
    assert((32768 * r) * d == 32768 * (r * d)) by (nonlinear_arith);
    assert(65536 * 32768 <= (65536 - n) * d <= 49152 * 49152) by (nonlinear_arith)
        requires
            d == n + 32768,
            0 <= n < 32768,
    ;
    assert(g * d == 15420 * ((65536 - n) * d)) by (nonlinear_arith)
        requires
            g == 15420 * (65536 - n),
    ;
}

/// The squared error of the first guess.
proof fn lemma_squares(e: int, f: int)
    requires
        -63300000 <= e <= 63300000,
        -3740000 <= f <= 101000,
    ensures
        0 <= e * e <= 63300000 * 63300000,
        0 <= f * f <= 3740000 * 3740000,
{
    assert(0 <= e * e <= 63300000 * 63300000) by (nonlinear_arith)
        requires
            -63300000 <= e <= 63300000,
    ;
    assert(0 <= f * f <= 3740000 * 3740000) by (nonlinear_arith)
        requires
            -3740000 <= f <= 3740000,
    ;
}

/// A remainder and its product as the iteration computes them.
proof fn lemma_step_words(r: i16, n: i16, d: int)
    requires
        0 <= n,
        d == n + 32768,
        13600 <= r,
        -64000000 <= r * d - 0x4000_0000 <= 64000000,
    ensures
        ({
            let t = mult16_16_q15(r, n).wrapping_add(r.wrapping_add((-32768) as i16));
            let q = mult16_16_q15(r, t);
            &&& 32768 * t <= r * d - 0x4000_0000 < 32768 * t + 32768
            &&& 32768 * q <= r * t < 32768 * q + 32768
            &&& -1954 <= t <= 1954
            &&& -1955 <= q <= 1954
        }),
{
    assert(0 <= r * n <= 32767 * 32767) by (nonlinear_arith)
        requires
            0 <= r <= 32767,
            0 <= n <= 32767,
    ;
    lemma_q15(r, n);
    let a = mult16_16_q15(r, n);
    let b = r.wrapping_add((-32768) as i16);
    assert(b == r - 32768);
    assert(r * d == r * n + 32768 * r) by (nonlinear_arith)
        requires
            d == n + 32768,
    ;
    let t = a.wrapping_add(b);
    assert(t == a + b);
    assert(-1954 * 32767 <= r * t <= 1954 * 32767) by (nonlinear_arith)
        requires
            0 <= r <= 32767,
            -1954 <= t <= 1954,
    ;
    lemma_q15(r, t);
}

/// The divisors just above a power of two, whose reciprocals are the largest.
proof fn lemma_top_reciprocals(n: i16, r0: i16, r1: i16, t0: i16, t1: i16, q0: i16, q1: i16)
    requires
        n == 0 || n == 1,
        32768 * (r0 - 30840) <= -15420 * n < 32768 * (r0 - 30840) + 32768,
        32768 * t0 <= r0 * (n + 32768) - 0x4000_0000 < 32768 * t0 + 32768,
        32768 * q0 <= r0 * t0 < 32768 * q0 + 32768,
        r1 == r0 - q0,
        32768 * t1 <= r1 * (n + 32768) - 0x4000_0000 < 32768 * t1 + 32768,
        32768 * q1 <= r1 * t1 < 32768 * q1 + 32768,
    ensures
        r1 - 1 - q1 == 32767,
{
    assert(r0 == 30840 - n);
    assert(r0 * (n + 32768) == if n == 0 { 30840 * 32768 } else { 30839 * 32769 })
        by (nonlinear_arith)
        requires
            n == 0 || n == 1,
            r0 == 30840 - n,
    ;
    assert(t0 == -1928 - n);
    assert(r0 * t0 == if n == 0 { 30840 * -1928 } else { 30839 * -1929 }) by (nonlinear_arith)
        requires
            n == 0 || n == 1,
            r0 == 30840 - n,
            t0 == -1928 - n,
    ;
    assert(q0 == -1815 - n);
    assert(r1 == 32655);
    assert(r1 * (n + 32768) == 32655 * n + 32655 * 32768) by (nonlinear_arith)
        requires
            r1 == 32655,
    ;
    assert(t1 == -113);
    assert(r1 * t1 == 32655 * -113) by (nonlinear_arith)
        requires
            r1 == 32655,
            t1 == -113,
    ;
}

/// The reciprocal of a normalised divisor.
pub proof fn lemma_reciprocal(x: i32)
    requires
        0x10000 <= x < 0x20000,
    ensures
        ({
            let d = x as int / 2;
            &&& 0 <= rcp(x) <= 32767
            &&& -80000 <= rcp(x) * d - 0x4000_0000 <= 40000
        }),
{
    lemma2_to64();
    lemma_bit_length(x as nat);
    lemma_bit_length_bound(x as nat, 17);
    let bits = crate::math::bit_length(x as nat);
    if bits < 16 {
        vstd::arithmetic::power2::lemma_pow2_strictly_increases(bits, 16);
    }
    assert(ilog2(x as int) == 16);
    lemma_shr(x, 1);
    let h = vshr32(x, 1);
    let d = x as int / 2;
    assert(h == d);
    let n = h.wrapping_sub(32768) as i16;
    assert(n == d - 32768 && 0 <= n < 32768);
    let p0 = mult16_16_q15((-15420) as i16, n);
    assert(-15420 * 32768 <= -15420 * n <= 0);
    lemma_q15((-15420) as i16, n);
    let r0 = 30840i16.wrapping_add(p0);
    assert(r0 == 30840 + p0);
    lemma_guess(n as int, r0 as int);
    lemma_step_words(r0, n, d);
    let t0 = mult16_16_q15(r0, n).wrapping_add(r0.wrapping_add((-32768) as i16));
    let q0 = mult16_16_q15(r0, t0);
    lemma_newton(r0 as int, d, t0 as int, q0 as int);
    let e0 = r0 * d - 0x4000_0000;
    lemma_squares(e0, 0);
    let r1 = r0.wrapping_sub(q0);
    assert(-1932 * 30840 <= r0 * t0 <= 1932 * 30840) by (nonlinear_arith)
        requires
            0 <= r0 <= 30840,
            -1932 <= t0 <= 1932,
    ;
    assert(r1 == r0 - q0);
    let e1 = r1 * d - 0x4000_0000;
    assert(-3740000 <= e1 <= 101000);
    lemma_squares(0, e1);
    assert(13600 <= r1) by {
        assert(r0 - q0 >= 13600);
    }
    lemma_step_words(r1, n, d);
    let t1 = mult16_16_q15(r1, n).wrapping_add(r1.wrapping_add((-32768) as i16));
    let q1 = mult16_16_q15(r1, t1);
    lemma_newton(r1 as int, d, t1 as int, q1 as int);
    let w = r1 - 1 - q1;
    let e2 = w * d - 0x4000_0000;
    assert(e2 == (r1 - q1) * d - 0x4000_0000 - d) by (nonlinear_arith)
        requires
            w == r1 - 1 - q1,
            e2 == w * d - 0x4000_0000,
    ;
    assert(-80000 <= e2 <= 40000);
    if n <= 1 {
        lemma_top_reciprocals(n, r0, r1, t0, t1, q0, q1);
    } else {
        assert(w <= 32767) by (nonlinear_arith)
            requires
                w * d <= 0x4000_0000 + 40000,
                d >= 32770,
        ;
    }
    let c1 = 1i16.wrapping_add(q1);
    assert(c1 == 1 + q1);
    let r2 = r1.wrapping_sub(c1);
    assert(r2 == w);
    let y = r2 as i32;
    assert(vshr32(y, 0) == y) by {
        assert(((y as u32) << 0u32) as i32 == y) by (bit_vector);
    }
    assert(rcp(x) == w);
}

/// The exact quotient and the rounded one.
proof fn lemma_quotient(v: int, e: int, k: int, d: int, g: int, q: int, r: int)
    requires
        1 <= k,
        0 < e,
        -e <= v <= e,
        2 * k * d <= e < 2 * k * d + 2 * k,
        0 <= g <= 32767,
        -80000 <= g * d - 0x4000_0000 <= 40000,
        32768 * q <= g * v < 32768 * q + 32768,
        4 * k * r <= q + 2 * k < 4 * k * r + 4 * k,
    ensures
        -(2 * e) <= r * e - 16384 * v <= 2 * e,
{
    let s = e - 2 * k * d;
    let x = g * d - 0x4000_0000;
    let t = g * v - 32768 * q;
    let p = 4 * k * r - q;
    let a = 2 * (k * x) + g * s;
    let b = 32768 * p - t;
    assert(g * e == 0x8000_0000 * k + a) by (nonlinear_arith)
        requires
            e == 2 * k * d + s,
            g * d == x + 0x4000_0000,
            a == 2 * (k * x) + g * s,
    ;
    assert(131072 * (k * (r * e)) == (g * v + b) * e) by (nonlinear_arith)
        requires
            4 * k * r == q + p,
            32768 * q == g * v - t,
            b == 32768 * p - t,
    ;
    assert((g * v + b) * e == v * (g * e) + b * e) by (nonlinear_arith);
    assert(v * (g * e) == 0x8000_0000 * (k * v) + v * a) by (nonlinear_arith)
        requires
            g * e == 0x8000_0000 * k + a,
    ;
    assert(131072 * (k * (r * e)) == 0x8000_0000 * (k * v) + v * a + b * e);
    assert(-(80000 * k) <= k * x <= 40000 * k) by (nonlinear_arith)
        requires
            -80000 <= x <= 40000,
            1 <= k,
    ;
    assert(0 <= g * s <= 32767 * (2 * k)) by (nonlinear_arith)
        requires
            0 <= g <= 32767,
            0 <= s <= 2 * k,
    ;
    assert(-(160000 * k) <= a <= 160000 * k);
    assert(-(98304 * k) <= b <= 98304 * k);
    assert(-(160000 * (k * e)) <= v * a <= 160000 * (k * e)) by (nonlinear_arith)
        requires
            -(160000 * k) <= a <= 160000 * k,
            -e <= v <= e,
            1 <= k,
    ;
    assert(-(98304 * (k * e)) <= b * e <= 98304 * (k * e)) by (nonlinear_arith)
        requires
            -(98304 * k) <= b <= 98304 * k,
            0 < e,
    ;
    let m = r * e - 16384 * v;
    assert(131072 * (k * m) == 131072 * (k * (r * e)) - 0x8000_0000 * (k * v)) by (nonlinear_arith)
        requires
            m == r * e - 16384 * v,
    ;
    assert(131072 * (k * m) == v * a + b * e);
    assert(0 <= k * e) by (nonlinear_arith)
        requires
            1 <= k,
            0 < e,
    ;
    assert(-(262144 * (k * e)) <= 131072 * (k * m) <= 262144 * (k * e));
    assert(-(2 * e) <= m <= 2 * e) by (nonlinear_arith)
        requires
            -(262144 * (k * e)) <= 131072 * (k * m) <= 262144 * (k * e),
            1 <= k,
    ;
}

/// Half of a power of two.
pub proof fn lemma_half(s: u32)
    requires
        1 <= s < 31,
    ensures
        ((1u32 << s) >> 1u32) as i32 == pow2((s - 1) as nat),
        pow2(s as nat) == 2 * pow2((s - 1) as nat),
{
    lemma2_to64();
    lemma_pow2_unfold(s as nat);
    let t = (s - 1) as u32;
    assert(1 <= s < 31 && t == s - 1 ==> (1u32 << s) >> 1u32 == 1u32 << t && (1u32 << t)
        < 0x8000_0000) by (bit_vector);
    vstd::arithmetic::power2::lemma_pow2_strictly_increases(t as nat, 31);
    vstd::bits::lemma_u32_shl_is_mul(1, t);
}

/// A shift to the right that rounds to nearest.
pub proof fn lemma_pshr(p: i32, s: u32)
    requires
        1 <= s < 31,
        p + pow2((s - 1) as nat) <= i32::MAX,
    ensures
        -(pow2(s as nat) as int) < 2 * (pow2(s as nat) * pshr32(p, s) - p) <= pow2(s as nat),
{
    lemma_half(s);
    lemma_pow2_pos((s - 1) as nat);
    let half = ((1u32 << s) >> 1u32) as i32;
    lemma_shr(p.wrapping_add(half), s as nat);
}

/// A Q15 product with a wide word is the exact one, rounded down.
pub proof fn lemma_q15_wide(g: i16, v: i32)
    requires
        g * v < 0x4000_0000_0000,
    ensures
        32768 * mult16_32_q15(g, v) <= g * v < 32768 * mult16_32_q15(g, v) + 32768,
{
    assert(-0x4000_0000_0000 <= g * v <= 0x4000_0000_0000) by (nonlinear_arith)
        requires
            -32768 <= g <= 32767,
            -0x8000_0000 <= v <= 0x7fff_ffff,
    ;
    let p = mult32_32(g as i32, v);
    assert(p == g * v);
    assert(-0x4000_0000_0000 <= p < 0x4000_0000_0000 ==> 32768 * (p >> 15u32) <= p && p < 32768 * (p
        >> 15u32) + 32768) by (bit_vector);
}

/// A coefficient that does not exceed the amplitude of its band is divided by it
/// up to two units of Q14, unless the band is close to silence.
pub proof fn law_normalised_is_the_quotient(v: i32, e: i32)
    requires
        0x10000 <= e,
        -e <= v <= e,
    ensures
        -(2 * e) <= normal_value(v, e) * e - 16384 * v <= 2 * e,
{
    lemma2_to64();
    lemma_bit_length(e as nat);
    lemma_bit_length_bound(e as nat, 31);
    let z = zlog2(e as int);
    if z < 15 {
        vstd::arithmetic::power2::lemma_pow2_strictly_increases((z + 1) as nat, 16);
    }
    assert(16 <= z <= 30);
    let shift = z - 14;
    let j = (z - 16) as nat;
    let k = pow2(j) as int;
    lemma_pow2_pos(j);
    lemma_pow2_adds(j, 16);
    lemma_pow2_adds(j, 17);
    lemma_pow2_adds(j, 2);
    let x = vshr32(e, (shift - 2) as i32);
    lemma_shr(e, j);
    assert(x == e >> (j as u32)) by {
        if j == 0 {
            assert(((e as u32) << 0u32) as i32 == e) by (bit_vector);
            assert(e >> 0u32 == e) by (bit_vector);
        }
    }
    assert(0x10000 <= x < 0x20000) by (nonlinear_arith)
        requires
            k * x <= e < k * x + k,
            k * 0x10000 <= e < k * 0x20000,
            k >= 1,
    ;
    lemma_reciprocal(x);
    let g = rcp(x) as i16;
    let d = x as int / 2;
    assert(2 * k * d <= e < 2 * k * d + 2 * k) by (nonlinear_arith)
        requires
            k * x <= e < k * x + k,
            x == 2 * d || x == 2 * d + 1,
            k >= 1,
    ;
    assert(-32767 * 0x7fff_ffff <= g * v <= 32767 * 0x7fff_ffff) by (nonlinear_arith)
        requires
            0 <= g <= 32767,
            -0x7fff_ffff <= v <= 0x7fff_ffff,
    ;
    lemma_q15_wide(g, v);
    let q = mult16_32_q15(g, v);
    let half = ((1u32 << (shift as u32)) >> 1u32) as i32;
    lemma_half(shift as u32);
    lemma_pow2_adds(j, 1);
    assert(half == 2 * k);
    assert(pow2(16) == 65536);
    assert(half <= 32768) by {
        vstd::arithmetic::power2::lemma_pow2_strictly_increases((shift - 1) as nat, 16);
    }
    let sum = q.wrapping_add(half);
    assert(sum == q + half);
    let r = pshr32(q, shift as u32);
    assert(r == sum >> (shift as u32));
    lemma_shr(sum, shift as nat);
    assert(pow2(shift as nat) == 4 * k);
    assert(4 * k * r <= q + 2 * k < 4 * k * r + 4 * k);
    lemma_quotient(v as int, e as int, k, d, g as int, q as int, r as int);
    assert(-16386 <= r <= 16386) by (nonlinear_arith)
        requires
            -(2 * e) <= r * e - 16384 * v <= 2 * e,
            -e <= v <= e,
            e > 0,
    ;
}

} // verus!
