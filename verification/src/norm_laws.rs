//! Shapes that are scaled to a norm have that norm.

use vstd::arithmetic::power2::{lemma2_to64, lemma_pow2_adds, lemma_pow2_pos, lemma_pow2_unfold, pow2};
use vstd::prelude::*;
use crate::band_decode::{drawn, white_noise};
use crate::concealment::band_noise;
use crate::division_laws::{lemma_pshr, lemma_q15};
use crate::fixed::{extract16, mult16_16, mult16_16_q15, mult32_32, mult32_32_q31, pshr32, Q31_ONE};
use crate::math::{bit_length, ilog2, lemma_bit_length, lemma_bit_length_bound, rsqrt_norm};
use crate::mode::OpusCustomMode;
use crate::pvq::{norm_energy, renormalised};

verus! {

/// The polynomial of the first guess, in Q45.
spec fn guess_q45(n: int) -> int {
    23557 * 0x4000_0000 - 442040320 * n + 6713 * (n * n)
}

/// The first guess.
spec fn guess(n: i16) -> i16 {
    23557i16.wrapping_add(
        mult16_16_q15(n, ((-13490) as i16).wrapping_add(mult16_16_q15(n, 6713))),
    )
}

/// The first guess follows its polynomial.
proof fn lemma_guess(n: i16)
    requires
        -16384 <= n,
    ensures
        -2 * 0x4000_0000 <= 0x4000_0000 * guess(n) - guess_q45(n as int) <= 0x2000_0000,
        15000 <= guess(n) <= 32100,
{
    lemma_q15(n, 6713);
    let a = mult16_16_q15(n, 6713);
    let b = ((-13490) as i16).wrapping_add(a);
    assert(b == a - 13490);
    assert(-33000 * 20000 <= n * b <= 33000 * 20000) by (nonlinear_arith)
        requires
            -16384 <= n <= 32767,
            -16900 <= b <= -6700,
    ;
    lemma_q15(n, b);
    let c = mult16_16_q15(n, b);
    let rho = 6713 * n - 32768 * a;
    assert(0 <= rho < 32768);
    let nb = n * b;
    assert(32768 * nb == -442040320 * n + 6713 * (n * n) - n * rho) by (nonlinear_arith)
        requires
            nb == n * b,
            b == a - 13490,
            rho == 6713 * n - 32768 * a,
    ;
    assert(-0x2000_0000 <= n * rho <= 0x4000_0000) by (nonlinear_arith)
        requires
            -16384 <= n <= 32767,
            0 <= rho < 32768,
    ;
    lemma_guess_range(n as int);
    let g = 23557 + c;
    assert(-2 * 0x4000_0000 <= 0x4000_0000 * g - guess_q45(n as int) <= 0x2000_0000);
    assert(16776 <= g <= 31982);
    assert(guess(n) == g);
}

/// The polynomial falls from one end of the range to the other.
proof fn lemma_guess_order(a: int, b: int)
    requires
        -16384 <= a <= b <= 32767,
    ensures
        guess_q45(b) <= guess_q45(a),
{
    assert(guess_q45(b) - guess_q45(a) == (b - a) * (6713 * (a + b) - 442040320)) by (nonlinear_arith)
        requires
            guess_q45(b) == 23557 * 0x4000_0000 - 442040320 * b + 6713 * (b * b),
            guess_q45(a) == 23557 * 0x4000_0000 - 442040320 * a + 6713 * (a * a),
    ;
    assert((b - a) * (6713 * (a + b) - 442040320) <= 0) by (nonlinear_arith)
        requires
            a <= b,
            a + b <= 65534,
    ;
}

/// The range of the polynomial.
proof fn lemma_guess_range(n: int)
    requires
        -16384 <= n <= 32767,
    ensures
        16779 * 0x4000_0000 <= guess_q45(n) <= 31981 * 0x4000_0000,
{
    lemma_guess_order(-16384, n);
    lemma_guess_order(n, 32767);
    assert(-16384 * -16384 == 268435456int);
    assert(32767 * 32767 == 1073676289int);
}

/// The square of the guess times the argument, in one stretch of the range.
proof fn lemma_stretch(n: i16, a: int, b: int, high: int, low: int)
    requires
        -16384 <= a <= n <= b <= 32767,
        0 < low,
        guess_q45(a) + 0x2000_0000 <= 0x4000_0000 * high,
        guess_q45(b) - 0x8000_0000 >= 0x4000_0000 * low,
        (high * high) * (b + 32768) <= 19879000000000,
        (low * low) * (a + 32768) >= 15305000000000,
    ensures
        15305000000000 <= (guess(n) * guess(n)) * (n + 32768) <= 19879000000000,
{
    lemma_guess(n);
    lemma_guess_order(a, n as int);
    lemma_guess_order(n as int, b);
    let r = guess(n) as int;
    assert(low <= r <= high);
    assert(low * low <= r * r <= high * high) by (nonlinear_arith)
        requires
            0 < low <= r <= high,
    ;
    let s = r * r;
    let t = n + 32768;
    let l = low * low;
    let h = high * high;
    assert(l * (a + 32768) <= s * t <= h * (b + 32768)) by (nonlinear_arith)
        requires
            0 <= l <= s <= h,
            0 < a + 32768 <= t <= b + 32768,
    ;
}

/// The square of the guess times the argument, over the whole range.
proof fn lemma_squared_guess(n: i16)
    requires
        -16384 <= n,
    ensures
        15305000000000 <= (guess(n) * guess(n)) * (n + 32768) <= 19879000000000,
{
    if n <= -14043 {
        lemma_ends(-16384, -14043, 268435456, 197205849, 31981, 30569, 1022784361, 934463761);
        lemma_stretch(n, -16384, -14043, 31981, 30569);
    } else if n <= -11531 {
        lemma_ends(-14042, -11531, 197177764, 132963961, 30572, 29133, 934647184, 848731689);
        lemma_stretch(n, -14042, -11531, 30572, 29133);
    } else if n <= -9393 {
        lemma_ends(-11530, -9393, 132940900, 88228449, 29136, 27973, 848906496, 782488729);
        lemma_stretch(n, -11530, -9393, 29136, 27973);
    } else if n <= -7391 {
        lemma_ends(-9392, -7391, 88209664, 54626881, 27976, 26939, 782656576, 725709721);
        lemma_stretch(n, -9392, -7391, 27976, 26939);
    } else if n <= -5429 {
        lemma_ends(-7390, -5429, 54612100, 29474041, 26942, 25974, 725871364, 674648676);
        lemma_stretch(n, -7390, -5429, 26942, 25974);
    } else if n <= -3358 {
        lemma_ends(-5428, -3358, 29463184, 11276164, 25977, 25007, 674804529, 625350049);
        lemma_stretch(n, -5428, -3358, 25977, 25007);
    } else if n <= -1025 {
        lemma_ends(-3357, -1025, 11269449, 1050625, 25010, 23983, 625500100, 575184289);
        lemma_stretch(n, -3357, -1025, 25010, 23983);
    } else if n <= 1778 {
        lemma_ends(-1024, 1778, 1048576, 3161284, 23986, 22842, 575328196, 521756964);
        lemma_stretch(n, -1024, 1778, 23986, 22842);
    } else if n <= 5315 {
        lemma_ends(1779, 5315, 3164841, 28249225, 22845, 21543, 521894025, 464100849);
        lemma_stretch(n, 1779, 5315, 22845, 21543);
    } else if n <= 10008 {
        lemma_ends(5316, 10008, 28259856, 100160064, 21546, 20061, 464230116, 402443721);
        lemma_stretch(n, 5316, 10008, 21546, 20061);
    } else if n <= 14392 {
        lemma_ends(10009, 14392, 100180081, 207129664, 20064, 18925, 402564096, 358155625);
        lemma_stretch(n, 10009, 14392, 20064, 18925);
    } else if n <= 18857 {
        lemma_ends(14393, 18857, 207158449, 355586449, 18928, 18015, 358269184, 324540225);
        lemma_stretch(n, 14393, 18857, 18928, 18015);
    } else if n <= 24506 {
        lemma_ends(18858, 24506, 355624164, 600544036, 18018, 17220, 324648324, 296528400);
        lemma_stretch(n, 18858, 24506, 18018, 17220);
    } else if n <= 32767 {
        lemma_ends(24507, 32767, 600593049, 1073676289, 17224, 16778, 296666176, 281501284);
        lemma_stretch(n, 24507, 32767, 17224, 16778);
    }
}

/// The ends of a stretch, by their squares.
proof fn lemma_ends(
    a: int,
    b: int,
    aa: int,
    bb: int,
    high: int,
    low: int,
    hh: int,
    ll: int,
)
    requires
        aa == a * a,
        bb == b * b,
        hh == high * high,
        ll == low * low,
        23557 * 0x4000_0000 - 442040320 * a + 6713 * aa + 0x2000_0000 <= 0x4000_0000 * high,
        23557 * 0x4000_0000 - 442040320 * b + 6713 * bb - 0x8000_0000 >= 0x4000_0000 * low,
        hh * (b + 32768) <= 19879000000000,
        ll * (a + 32768) >= 15305000000000,
    ensures
        guess_q45(a) + 0x2000_0000 <= 0x4000_0000 * high,
        guess_q45(b) - 0x8000_0000 >= 0x4000_0000 * low,
        (high * high) * (b + 32768) <= 19879000000000,
        (low * low) * (a + 32768) >= 15305000000000,
{
}

/// The correction of the guess: the cube of the error is left.
proof fn lemma_correction(d: int, w: int, eta: int)
    requires
        -2140 <= d <= 2140,
        -76000 <= eta <= 10000,
        65536 * (w + d) == 3 * (d * d) + eta,
    ensures
        -30000000000 <= (16384 + d) * ((32768 + w) * (32768 + w)) - 0x1000_0000_0000 <= 30000000000,
        -4 <= w + d <= 220,
{
    let e = w + d;
    let dd = d * d;
    assert(0 <= dd <= 2140 * 2140) by (nonlinear_arith)
        requires
            dd == d * d,
            -2140 <= d <= 2140,
    ;
    assert(-4 <= e <= 220);
    let x = (16384 + d) * ((32768 + w) * (32768 + w));
    assert(x == 0x1000_0000_0000 - 49152 * dd + d * dd + 0x4000_0000 * e + 32768 * (d * e) - 2 * (dd
        * e) + (16384 + d) * (e * e)) by (nonlinear_arith)
        requires
            x == (16384 + d) * ((32768 + w) * (32768 + w)),
            w == e - d,
            dd == d * d,
    ;
    assert(0x4000_0000 * e == 49152 * dd + 16384 * eta);
    assert(-2140 * 4579600 <= d * dd <= 2140 * 4579600) by (nonlinear_arith)
        requires
            -2140 <= d <= 2140,
            0 <= dd <= 4579600,
    ;
    assert(-2140 * 220 <= d * e <= 2140 * 220) by (nonlinear_arith)
        requires
            -2140 <= d <= 2140,
            -4 <= e <= 220,
    ;
    assert(-4 * 4579600 <= dd * e <= 220 * 4579600) by (nonlinear_arith)
        requires
            0 <= dd <= 4579600,
            -4 <= e <= 220,
    ;
    assert(0 <= e * e <= 48400) by (nonlinear_arith)
        requires
            -4 <= e <= 220,
    ;
    assert(0 <= (16384 + d) * (e * e) <= 18524 * 48400) by (nonlinear_arith)
        requires
            -2140 <= d <= 2140,
            0 <= e * e <= 48400,
    ;
}

/// The parts of the reciprocal square root.
spec fn square_of(n: i16) -> i16 {
    mult16_16_q15(guess(n), guess(n))
}

/// The error of the guess, in Q14.
spec fn error_of(n: i16) -> i16 {
    mult16_16_q15(square_of(n), n).wrapping_add(square_of(n)).wrapping_sub(16384)
}

/// The correction, in Q15.
spec fn correction_of(y: i16) -> i16 {
    mult16_16_q15(y, mult16_16_q15(y, 12288).wrapping_sub(16384))
}

/// The error of the guess is the one of its square, up to rounding.
proof fn lemma_error(n: i16)
    requires
        -16384 <= n,
    ensures
        ({
            let u = (guess(n) * guess(n)) * (n + 32768);
            &&& u - 3 * 0x4000_0000 <= 0x4000_0000 * (error_of(n) + 16384) <= u
            &&& -2140 <= error_of(n) <= 2140
        }),
{
    lemma_guess(n);
    lemma_squared_guess(n);
    let r = guess(n);
    assert(0 <= r * r <= 32100 * 32100) by (nonlinear_arith)
        requires
            0 <= r <= 32100,
    ;
    lemma_q15(r, r);
    let q = square_of(n);
    let t = (n + 32768) as int;
    assert(-32768 * 16384 <= q * n <= 32767 * 32767) by (nonlinear_arith)
        requires
            0 <= q <= 32767,
            -16384 <= n <= 32767,
    ;
    lemma_q15(q, n);
    let p = mult16_16_q15(q, n);
    let sum = p + q - 16384;
    assert(q * t == q * n + 32768 * q) by (nonlinear_arith)
        requires
            t == n + 32768,
    ;
    let s = (r * r) as int;
    assert(s * t - 32768 * t <= (32768 * q) * t <= s * t) by (nonlinear_arith)
        requires
            32768 * q <= s < 32768 * q + 32768,
            t > 0,
    ;
    assert((32768 * q) * t == 32768 * (q * t)) by (nonlinear_arith);
    assert(0x4000_0000 * (p + q) >= s * t - 32768 * t - 0x4000_0000);
    assert(0x4000_0000 * (p + q) <= s * t);
    assert(14250 - 16384 <= sum <= 18514 - 16384);
    assert(error_of(n) == sum);
}

/// The correction by its formula.
proof fn lemma_corrected(d: int) -> (eta: int)
    requires
        -2140 <= d <= 2140,
    ensures
        -76000 <= eta <= 10000,
        65536 * (correction_of((2 * d) as i16) + d) == 3 * (d * d) + eta,
{
    let y = (2 * d) as i16;
    lemma_q15(y, 12288);
    let a = mult16_16_q15(y, 12288);
    let z = a.wrapping_sub(16384);
    assert(z == a - 16384);
    assert(-4280 * 18100 <= y * z <= 4280 * 18100) by (nonlinear_arith)
        requires
            -4280 <= y <= 4280,
            -18100 <= z <= 0,
    ;
    lemma_q15(y, z);
    let w = correction_of(y);
    let rho = 12288 * y - 32768 * a;
    let tau = y * z - 32768 * w;
    assert(0 <= rho < 32768 && 0 <= tau < 32768);
    let yz = y * z;
    assert(32768 * yz == 49152 * (d * d) - 0x4000_0000 * d - y * rho) by (nonlinear_arith)
        requires
            yz == y * z,
            y == 2 * d,
            z == a - 16384,
            rho == 12288 * y - 32768 * a,
    ;
    let yr = y * rho;
    assert(-4280 * 32768 <= yr <= 4280 * 32768) by (nonlinear_arith)
        requires
            yr == y * rho,
            -4280 <= y <= 4280,
            0 <= rho < 32768,
    ;
    let eta = 65536 * (w + d) - 3 * (d * d);
    assert(16384 * eta == -yr - 32768 * tau);
    eta
}

/// The reciprocal square root before it is cut to a word.
proof fn lemma_root(n: i16)
    requires
        -16384 <= n,
    ensures
        ({
            let r = guess(n);
            let w = correction_of(error_of(n).wrapping_add(error_of(n)));
            let g = r + mult16_16_q15(r, w);
            &&& 0 < g
            &&& -33000000000 <= (g * g) * (n + 32768) - 0x1000_0000_0000 <= 35000000000
        }),
{
    lemma_guess(n);
    lemma_error(n);
    let r = guess(n) as int;
    let t = (n + 32768) as int;
    let d = error_of(n) as int;
    let y = error_of(n).wrapping_add(error_of(n));
    assert(y == 2 * d);
    let eta = lemma_corrected(d);
    let wi = correction_of(y);
    let w = wi as int;
    lemma_correction(d, w, eta);
    let k = 32768 + w;
    assert(30600 <= k <= 35300);
    assert(-32100 * 2600 <= r * w <= 32100 * 2600) by (nonlinear_arith)
        requires
            0 <= r <= 32100,
            -2600 <= w <= 2600,
    ;
    lemma_q15(guess(n), wi);
    let g = r + mult16_16_q15(guess(n), wi);
    let a = r * k;
    assert(a == 32768 * r + r * w) by (nonlinear_arith)
        requires
            a == r * k,
            k == 32768 + w,
    ;
    assert(a - 32768 <= 32768 * g <= a);
    assert(16776 <= r) by {
        lemma_guess_range(n as int);
    }
    assert(513000000 <= a <= 1140000000) by (nonlinear_arith)
        requires
            a == r * k,
            16776 <= r <= 32100,
            30600 <= k <= 35300,
    ;
    let x = (16384 + d) * (k * k);
    let u = (r * r) * t;
    let kk = k * k;
    assert(0 < kk <= 1246090000) by (nonlinear_arith)
        requires
            kk == k * k,
            30600 <= k <= 35300,
    ;
    // The square of the exact value, times the argument.
    let aat = (a * a) * t;
    assert(aat == u * kk) by (nonlinear_arith)
        requires
            aat == (a * a) * t,
            a == r * k,
            u == (r * r) * t,
            kk == k * k,
    ;
    assert(0x4000_0000 * x <= aat && aat <= 0x4000_0000 * x + 0x4000_0000 * (3 * kk))
        by (nonlinear_arith)
        requires
            aat == u * kk,
            x == (16384 + d) * kk,
            u - 3 * 0x4000_0000 <= 0x4000_0000 * (d + 16384) <= u,
            kk > 0,
    ;
    let h = 32768 * g;
    assert(a * a - 65536 * a <= h * h <= a * a) by (nonlinear_arith)
        requires
            a - 32768 <= h <= a,
            a >= 513000000,
    ;
    assert(65536 * a <= a * a / 7800) by (nonlinear_arith)
        requires
            a >= 513000000,
    ;
    let aa = a * a;
    let hh = h * h;
    assert(7800 * hh >= 7799 * aa);
    assert(7799 * (aa * t) <= 7800 * (hh * t) && hh * t <= aa * t) by (nonlinear_arith)
        requires
            7800 * hh >= 7799 * aa,
            hh <= aa,
            t > 0,
    ;
    let gg = (g * g) * t;
    assert(hh * t == 0x4000_0000 * gg) by (nonlinear_arith)
        requires
            hh == h * h,
            h == 32768 * g,
            gg == (g * g) * t,
    ;
}

/// The word of the reciprocal square root does not overflow.
proof fn lemma_root_fits(n: i16)
    requires
        -16384 <= n,
    ensures
        rsqrt_norm((n + 32768) as i32) == guess(n) + mult16_16_q15(
            guess(n),
            correction_of(error_of(n).wrapping_add(error_of(n))),
        ),
{
    let r = guess(n);
    let v = mult16_16_q15(r, correction_of(error_of(n).wrapping_add(error_of(n))));
    lemma_root(n);
    let g = r + v;
    assert(g <= 32767) by {
        if n >= -16330 {
            let t = n + 32768;
            assert(g < 32768) by (nonlinear_arith)
                requires
                    (g * g) * t <= 0x1000_0000_0000 + 35000000000,
                    t >= 16438,
                    g > 0,
            ;
        } else {
            lemma_first_roots(n);
        }
    }
    assert(((n + 32768) as i32).wrapping_sub(32768) as i16 == n);
}

/// The first arguments, one by one.
proof fn lemma_first_roots(n: i16)
    requires
        -16384 <= n < -16330,
    ensures
        guess(n) + mult16_16_q15(
            guess(n),
            correction_of(error_of(n).wrapping_add(error_of(n))),
        ) <= 32767,
{
    if n == -16384 {
        lemma_exact(n, -3357, 8423, 31980, 31210, -15605, -1558, -585, -16969, 806, 786);
    } else if n == -16383 {
        lemma_exact(n, -3357, 8422, 31979, 31208, -15604, -1560, -585, -16969, 807, 787);
    } else if n == -16382 {
        lemma_exact(n, -3357, 8422, 31979, 31208, -15603, -1558, -585, -16969, 806, 786);
    } else if n == -16381 {
        lemma_exact(n, -3356, 8421, 31978, 31207, -15601, -1556, -584, -16968, 805, 785);
    } else if n == -16380 {
        lemma_exact(n, -3356, 8420, 31977, 31205, -15599, -1556, -584, -16968, 805, 785);
    } else if n == -16379 {
        lemma_exact(n, -3356, 8420, 31977, 31205, -15598, -1554, -583, -16967, 804, 784);
    } else if n == -16378 {
        lemma_exact(n, -3356, 8419, 31976, 31203, -15596, -1554, -583, -16967, 804, 784);
    } else if n == -16377 {
        lemma_exact(n, -3356, 8419, 31976, 31203, -15595, -1552, -582, -16966, 803, 783);
    } else if n == -16376 {
        lemma_exact(n, -3355, 8418, 31975, 31201, -15593, -1552, -582, -16966, 803, 783);
    } else if n == -16375 {
        lemma_exact(n, -3355, 8417, 31974, 31199, -15591, -1552, -582, -16966, 803, 783);
    } else if n == -16374 {
        lemma_exact(n, -3355, 8417, 31974, 31199, -15590, -1550, -582, -16966, 802, 782);
    } else if n == -16373 {
        lemma_exact(n, -3355, 8416, 31973, 31197, -15589, -1552, -582, -16966, 803, 783);
    } else if n == -16372 {
        lemma_exact(n, -3355, 8416, 31973, 31197, -15588, -1550, -582, -16966, 802, 782);
    } else if n == -16371 {
        lemma_exact(n, -3354, 8415, 31972, 31195, -15586, -1550, -582, -16966, 802, 782);
    } else if n == -16370 {
        lemma_exact(n, -3354, 8414, 31971, 31193, -15584, -1550, -582, -16966, 802, 782);
    } else if n == -16369 {
        lemma_exact(n, -3354, 8414, 31971, 31193, -15583, -1548, -581, -16965, 801, 781);
    } else if n == -16368 {
        lemma_exact(n, -3354, 8413, 31970, 31191, -15581, -1548, -581, -16965, 801, 781);
    } else if n == -16367 {
        lemma_exact(n, -3354, 8413, 31970, 31191, -15580, -1546, -580, -16964, 800, 780);
    } else if n == -16366 {
        lemma_exact(n, -3353, 8412, 31969, 31189, -15578, -1546, -580, -16964, 800, 780);
    } else if n == -16365 {
        lemma_exact(n, -3353, 8411, 31968, 31187, -15576, -1546, -580, -16964, 800, 780);
    } else if n == -16364 {
        lemma_exact(n, -3353, 8411, 31968, 31187, -15575, -1544, -579, -16963, 799, 779);
    } else if n == -16363 {
        lemma_exact(n, -3353, 8410, 31967, 31185, -15573, -1544, -579, -16963, 799, 779);
    } else if n == -16362 {
        lemma_exact(n, -3352, 8409, 31966, 31183, -15571, -1544, -579, -16963, 799, 779);
    } else if n == -16361 {
        lemma_exact(n, -3352, 8409, 31966, 31183, -15570, -1542, -579, -16963, 798, 778);
    } else if n == -16360 {
        lemma_exact(n, -3352, 8408, 31965, 31181, -15568, -1542, -579, -16963, 798, 778);
    } else if n == -16359 {
        lemma_exact(n, -3352, 8408, 31965, 31181, -15567, -1540, -578, -16962, 797, 777);
    } else if n == -16358 {
        lemma_exact(n, -3352, 8407, 31964, 31179, -15565, -1540, -578, -16962, 797, 777);
    } else if n == -16357 {
        lemma_exact(n, -3351, 8406, 31963, 31177, -15563, -1540, -578, -16962, 797, 777);
    } else if n == -16356 {
        lemma_exact(n, -3351, 8406, 31963, 31177, -15562, -1538, -577, -16961, 796, 776);
    } else if n == -16355 {
        lemma_exact(n, -3351, 8405, 31962, 31175, -15560, -1538, -577, -16961, 796, 776);
    } else if n == -16354 {
        lemma_exact(n, -3351, 8405, 31962, 31175, -15559, -1536, -576, -16960, 795, 775);
    } else if n == -16353 {
        lemma_exact(n, -3351, 8404, 31961, 31173, -15558, -1538, -577, -16961, 796, 776);
    } else if n == -16352 {
        lemma_exact(n, -3350, 8403, 31960, 31171, -15556, -1538, -577, -16961, 796, 776);
    } else if n == -16351 {
        lemma_exact(n, -3350, 8403, 31960, 31171, -15555, -1536, -576, -16960, 795, 775);
    } else if n == -16350 {
        lemma_exact(n, -3350, 8402, 31959, 31169, -15553, -1536, -576, -16960, 795, 775);
    } else if n == -16349 {
        lemma_exact(n, -3350, 8402, 31959, 31169, -15552, -1534, -576, -16960, 793, 773);
    } else if n == -16348 {
        lemma_exact(n, -3350, 8401, 31958, 31168, -15550, -1532, -575, -16959, 792, 772);
    } else if n == -16347 {
        lemma_exact(n, -3349, 8400, 31957, 31166, -15548, -1532, -575, -16959, 792, 772);
    } else if n == -16346 {
        lemma_exact(n, -3349, 8399, 31956, 31164, -15546, -1532, -575, -16959, 792, 772);
    } else if n == -16345 {
        lemma_exact(n, -3349, 8399, 31956, 31164, -15545, -1530, -574, -16958, 791, 771);
    } else if n == -16344 {
        lemma_exact(n, -3349, 8398, 31955, 31162, -15543, -1530, -574, -16958, 791, 771);
    } else if n == -16343 {
        lemma_exact(n, -3349, 8398, 31955, 31162, -15543, -1530, -574, -16958, 791, 771);
    } else if n == -16342 {
        lemma_exact(n, -3348, 8397, 31954, 31160, -15541, -1530, -574, -16958, 791, 771);
    } else if n == -16341 {
        lemma_exact(n, -3348, 8396, 31953, 31158, -15539, -1530, -574, -16958, 791, 771);
    } else if n == -16340 {
        lemma_exact(n, -3348, 8396, 31953, 31158, -15538, -1528, -573, -16957, 790, 770);
    } else if n == -16339 {
        lemma_exact(n, -3348, 8395, 31952, 31156, -15536, -1528, -573, -16957, 790, 770);
    } else if n == -16338 {
        lemma_exact(n, -3348, 8395, 31952, 31156, -15535, -1526, -573, -16957, 789, 769);
    } else if n == -16337 {
        lemma_exact(n, -3347, 8394, 31951, 31154, -15533, -1526, -573, -16957, 789, 769);
    } else if n == -16336 {
        lemma_exact(n, -3347, 8393, 31950, 31152, -15531, -1526, -573, -16957, 789, 769);
    } else if n == -16335 {
        lemma_exact(n, -3347, 8393, 31950, 31152, -15530, -1524, -572, -16956, 788, 768);
    } else if n == -16334 {
        lemma_exact(n, -3347, 8392, 31949, 31150, -15528, -1524, -572, -16956, 788, 768);
    } else if n == -16333 {
        lemma_exact(n, -3347, 8392, 31949, 31150, -15527, -1522, -571, -16955, 787, 767);
    } else if n == -16332 {
        lemma_exact(n, -3346, 8391, 31948, 31148, -15525, -1522, -571, -16955, 787, 767);
    } else if n == -16331 {
        lemma_exact(n, -3346, 8390, 31947, 31146, -15523, -1522, -571, -16955, 787, 767);
    }
}

/// The parts of a reciprocal square root, given their values.
proof fn lemma_exact(
    n: i16,
    a: int,
    c: int,
    r: int,
    q: int,
    p: int,
    y: int,
    z: int,
    x: int,
    w: int,
    v: int,
)
    requires
        -16384 <= n <= -16330,
        -3400 <= a <= 0,
        0 <= c <= 9000,
        r == 23557 + c,
        0 <= q <= 32000,
        -32768 <= p <= 0,
        y == 2 * (p + q - 16384),
        -4280 <= y <= 4280,
        -2000 <= z <= 2000,
        x == z - 16384,
        -3000 <= w <= 3000,
        0 <= v <= 1000,
        32768 * a <= n * 6713 < 32768 * a + 32768,
        32768 * c <= n * (a - 13490) < 32768 * c + 32768,
        32768 * q <= r * r < 32768 * q + 32768,
        32768 * p <= q * n < 32768 * p + 32768,
        32768 * z <= y * 12288 < 32768 * z + 32768,
        32768 * w <= y * x < 32768 * w + 32768,
        32768 * v <= r * w < 32768 * v + 32768,
        r + v <= 32767,
    ensures
        guess(n) + mult16_16_q15(
            guess(n),
            correction_of(error_of(n).wrapping_add(error_of(n))),
        ) <= 32767,
{
    lemma_q15(n, 6713);
    assert(mult16_16_q15(n, 6713) == a);
    let b = (a - 13490) as i16;
    lemma_q15(n, b);
    assert(mult16_16_q15(n, b) == c);
    let rw = r as i16;
    assert(guess(n) == rw);
    lemma_q15(rw, rw);
    assert(square_of(n) == q);
    lemma_q15(q as i16, n);
    assert(mult16_16_q15(q as i16, n) == p);
    assert(error_of(n) == p + q - 16384);
    let yw = y as i16;
    assert(error_of(n).wrapping_add(error_of(n)) == yw);
    lemma_q15(yw, 12288);
    assert(mult16_16_q15(yw, 12288) == z);
    let xw = x as i16;
    lemma_q15(yw, xw);
    assert(correction_of(yw) == w);
    lemma_q15(rw, w as i16);
}

/// The reciprocal square root of a value in [0.25, 1): its square times the value is one, up
/// to a five-hundredth.
pub proof fn law_reciprocal_square_root(t: i32)
    requires
        16384 <= t < 65536,
    ensures
        ({
            let g = rsqrt_norm(t);
            &&& 0 < g
            &&& -0x1000_0000_0000 <= 500 * ((g * g) * t - 0x1000_0000_0000) <= 0x1000_0000_0000
        }),
{
    let n = (t - 32768) as i16;
    lemma_root(n);
    lemma_root_fits(n);
}

/// Sum of the squares of a shape.
pub open spec fn squares(x: Seq<i16>) -> int
    decreases x.len(),
{
    if x.len() == 0 {
        0
    } else {
        squares(x.drop_last()) + x.last() * x.last()
    }
}

/// The energy is the sum of the squares and one.
proof fn lemma_energy(x: Seq<i16>)
    ensures
        norm_energy(x) == squares(x) + 1,
        0 <= squares(x) <= x.len() * 0x4000_0000,
    decreases x.len(),
{
    if x.len() > 0 {
        lemma_energy(x.drop_last());
        let v = x.last() as int;
        assert(0 <= v * v <= 0x4000_0000) by (nonlinear_arith)
            requires
                -32768 <= v <= 32767,
        ;
    }
}

/// No square is larger than the sum.
proof fn lemma_one_square(x: Seq<i16>, j: int)
    requires
        0 <= j < x.len(),
    ensures
        x[j] * x[j] <= squares(x),
    decreases x.len(),
{
    lemma_energy(x.drop_last());
    let v = x.last() as int;
    assert(0 <= v * v) by (nonlinear_arith);
    if j < x.len() - 1 {
        lemma_one_square(x.drop_last(), j);
    }
}

/// A square of a rounded product.
proof fn lemma_scaled_square(y: int, z: int, s: int)
    requires
        s >= 2,
        -s <= 2 * (s * y - z) <= s,
    ensures
        511 * (z * z) - 270000 * (s * s) <= 512 * ((s * s) * (y * y)),
        512 * ((s * s) * (y * y)) <= 513 * (z * z) + 270000 * (s * s),
{
    let e = s * y - z;
    assert((s * s) * (y * y) == z * z + 2 * (z * e) + e * e) by (nonlinear_arith)
        requires
            e == s * y - z,
    ;
    let ss = s * s;
    assert(0 <= 4 * (e * e) <= ss) by (nonlinear_arith)
        requires
            -s <= 2 * e <= s,
            s >= 2,
            ss == s * s,
    ;
    assert(-(z * z) - 262144 * ss <= 512 * (2 * (z * e)) <= z * z + 262144 * ss) by (nonlinear_arith)
        requires
            -s <= 2 * e <= s,
            ss == s * s,
            s >= 2,
    ;
}

/// A shape times a gain, each coefficient divided by a power of two and rounded.
spec fn scaled(x: Seq<i16>, g: i16, shift: u32) -> Seq<i16> {
    Seq::new(x.len(), |j: int| extract16(pshr32(mult16_16(g, x[j]), shift)))
}

/// The squares of a scaled shape.
proof fn lemma_scaled_squares(x: Seq<i16>, g: i16, shift: u32)
    requires
        0 <= g,
        7 <= shift < 31,
        x.len() <= 1024,
        forall|j: int|
            0 <= j < x.len() ==> -pow2(shift as nat) <= #[trigger] x[j] <= pow2(shift as nat),
    ensures
        ({
            let s = pow2(shift as nat) as int;
            let ss = s * s;
            let y = squares(scaled(x, g, shift));
            let z = (g * g) * squares(x);
            &&& 511 * z - (270000 * ss) * x.len() <= (512 * ss) * y
            &&& (512 * ss) * y <= 513 * z + (270000 * ss) * x.len()
        }),
    decreases x.len(),
{
    lemma2_to64();
    let s = pow2(shift as nat) as int;
    let ss = s * s;
    lemma_pow2_pos(shift as nat);
    lemma_pow2_unfold(shift as nat);
    let all = scaled(x, g, shift);
    if x.len() == 0 {
        assert((512 * ss) * 0 == 0 && (270000 * ss) * 0 == 0 && (g * g) * 0 == 0);
    } else {
        let front = x.drop_last();
        assert forall|j: int| 0 <= j < front.len() implies -pow2(shift as nat) <= #[trigger] front[j]
            <= pow2(shift as nat) by {
            assert(front[j] == x[j]);
        }
        lemma_scaled_squares(front, g, shift);
        assert(all.drop_last() =~= scaled(front, g, shift));
        let v = x.last();
        let p = mult16_16(g, v);
        assert(-32768 * 32767 <= g * v <= 32767 * 32767) by (nonlinear_arith)
            requires
                0 <= g <= 32767,
                -32768 <= v <= 32767,
        ;
        assert(p == g * v);
        let half = pow2((shift - 1) as nat);
        vstd::arithmetic::power2::lemma_pow2_strictly_increases((shift - 1) as nat, 30);
        lemma_pshr(p, shift);
        let w = pshr32(p, shift) as int;
        assert(v == x[x.len() - 1]);
        assert(-s <= v <= s);
        assert(-32767 * s <= p <= 32767 * s) by (nonlinear_arith)
            requires
                p == g * v,
                0 <= g <= 32767,
                -s <= v <= s,
        ;
        assert(-32768 <= w <= 32767) by (nonlinear_arith)
            requires
                -s < 2 * (s * w - p) <= s,
                -32767 * s <= p <= 32767 * s,
                s >= 1,
        ;
        assert(all.last() == w);
        lemma_scaled_square(w, p as int, s);
        let a = squares(scaled(front, g, shift));
        let b = squares(front);
        let gg = (g * g) as int;
        let n = front.len() as int;
        let pp = (p * p) as int;
        assert(pp == gg * (v * v)) by (nonlinear_arith)
            requires
                p == g * v,
                pp == p * p,
                gg == g * g,
        ;
        assert(gg * (b + v * v) == gg * b + gg * (v * v)) by (nonlinear_arith);
        assert((512 * ss) * (a + w * w) == (512 * ss) * a + 512 * (ss * (w * w))) by (nonlinear_arith);
        assert((270000 * ss) * (n + 1) == (270000 * ss) * n + 270000 * ss) by (nonlinear_arith);
    }
}

/// The gain of one, in Q31, takes one unit from a word.
proof fn lemma_unit_gain(g: i16)
    requires
        0 < g,
    ensures
        extract16(mult32_32_q31(g as i32, Q31_ONE)) == g - 1,
{
    let p = mult32_32(g as i32, Q31_ONE);
    assert(p == g * 0x7fff_ffff);
    crate::encode_laws::lemma_shr31(p);
    let q = p >> 31u32;
    assert(q == g - 1);
}

/// A shape that is scaled to norm one has norm one, up to a hundredth of its energy, unless
/// it was next to silent.
#[verifier::spinoff_prover]
pub proof fn law_renormalised_shapes_have_unit_norm(x: Seq<i16>)
    requires
        x.len() <= 1024,
        squares(x) >= 16383,
    ensures
        renormalised(x, Q31_ONE).len() == x.len(),
        99 * (16384 * 16384) <= 100 * squares(renormalised(x, Q31_ONE)) <= 101 * (16384 * 16384),
{
    lemma2_to64();
    lemma_energy(x);
    let e = norm_energy(x);
    let k = ilog2(e) / 2;
    lemma_bit_length(e as nat);
    let bits = bit_length(e as nat);
    assert(x.len() * 0x4000_0000 <= 1024 * 0x4000_0000);
    lemma_pow2_adds(20, 21);
    lemma_bit_length_bound(e as nat, 41);
    if bits < 15 {
        if bits < 14 {
            vstd::arithmetic::power2::lemma_pow2_strictly_increases(bits, 14);
        }
    }
    assert(7 <= k <= 20);
    let m = (2 * (k - 7)) as nat;
    let p = pow2(m) as int;
    lemma_pow2_pos(m);
    lemma_pow2_adds(m, 14);
    lemma_pow2_adds(m, 16);
    assert(p * 16384 <= e < p * 65536) by {
        let low = (2 * k) as nat;
        if low < bits - 1 {
            vstd::arithmetic::power2::lemma_pow2_strictly_increases(low, (bits - 1) as nat);
        }
        if bits < low + 2 {
            vstd::arithmetic::power2::lemma_pow2_strictly_increases(bits, low + 2);
        }
    }
    let t = e / p;
    vstd::arithmetic::div_mod::lemma_fundamental_div_mod(e, p);
    vstd::arithmetic::div_mod::lemma_mod_bound(e, p);
    assert(16384 <= t < 65536) by (nonlinear_arith)
        requires
            p * 16384 <= e < p * 65536,
            p * t <= e < p * t + p,
            p > 0,
    ;
    law_reciprocal_square_root(t as i32);
    let g0 = rsqrt_norm(t as i32);
    lemma_unit_gain(g0);
    let g = (g0 - 1) as i16;
    let shift = (k + 1) as u32;
    lemma_pow2_adds(shift as nat, shift as nat);
    assert(shift as nat + shift as nat == m + 16);
    assert forall|j: int| 0 <= j < x.len() implies -pow2(shift as nat) <= #[trigger] x[j] <= pow2(
        shift as nat,
    ) by {
        lemma_one_square(x, j);
        let v = x[j] as int;
        let r = pow2(shift as nat) as int;
        assert(-r <= v <= r) by (nonlinear_arith)
            requires
                v * v < r * r,
                r >= 0,
        ;
    }
    lemma_scaled_squares(x, g, shift);
    let out = renormalised(x, Q31_ONE);
    assert(out =~= scaled(x, g, shift));
    let s = pow2(shift as nat) as int;
    let ss = s * s;
    assert(ss == 65536 * p);
    let y = squares(out);
    let q = squares(x);
    let n = x.len() as int;
    let u = (g0 * g0) * t;
    let gg = (g * g) as int;
    let z = gg * q;
    lemma_total(g0 as int, t, p, e, z, u);
    lemma_cancel(y, z, u, p, ss, n);
}

/// The energy times the square of the gain.
proof fn lemma_total(g0: int, t: int, p: int, e: int, z: int, u: int)
    requires
        0 < g0 <= 32767,
        0 < t < 65536,
        p > 0,
        p * t <= e < p * t + p,
        u == (g0 * g0) * t,
        z == ((g0 - 1) * (g0 - 1)) * (e - 1),
    ensures
        (u - 6000000000) * p <= z <= (u + 0x4000_0000) * p,
{
    let a = g0 * g0;
    let b = (g0 - 1) * (g0 - 1);
    assert(b == a - 2 * g0 + 1) by (nonlinear_arith)
        requires
            a == g0 * g0,
            b == (g0 - 1) * (g0 - 1),
    ;
    assert(0 < a <= 0x4000_0000 && 0 <= b) by (nonlinear_arith)
        requires
            a == g0 * g0,
            b == (g0 - 1) * (g0 - 1),
            0 < g0 <= 32767,
    ;
    assert(b <= a);
    assert(z <= a * (p * t + p)) by (nonlinear_arith)
        requires
            z == b * (e - 1),
            0 <= b <= a,
            e - 1 <= p * t + p,
            0 <= p * t + p,
    ;
    assert(a * (p * t + p) == (a * t) * p + a * p) by (nonlinear_arith);
    assert(a * p <= 0x4000_0000 * p) by (nonlinear_arith)
        requires
            a <= 0x4000_0000,
            p > 0,
    ;
    assert((u + 0x4000_0000) * p == u * p + 0x4000_0000 * p) by (nonlinear_arith);
    assert(z >= b * (p * t - 1)) by (nonlinear_arith)
        requires
            z == b * (e - 1),
            0 <= b,
            p * t <= e,
    ;
    assert(b * (p * t - 1) == (b * t) * p - b) by (nonlinear_arith);
    assert(b * t == u - (2 * g0 - 1) * t) by (nonlinear_arith)
        requires
            b == a - 2 * g0 + 1,
            u == a * t,
    ;
    assert(0 <= (2 * g0 - 1) * t <= 65534 * 65536) by (nonlinear_arith)
        requires
            0 < g0 <= 32767,
            0 < t < 65536,
    ;
    let c = b * t;
    assert(c * p - b >= (c - 0x4000_0000) * p) by (nonlinear_arith)
        requires
            b <= 0x4000_0000,
            p >= 1,
    ;
    assert((c - 0x4000_0000) * p >= (u - 6000000000) * p) by (nonlinear_arith)
        requires
            c - 0x4000_0000 >= u - 6000000000,
            p > 0,
    ;
}

/// The energy of the scaled shape.
proof fn lemma_cancel(y: int, z: int, u: int, p: int, ss: int, n: int)
    requires
        p > 0,
        ss == 65536 * p,
        0 <= n <= 1024,
        (u - 6000000000) * p <= z <= (u + 0x4000_0000) * p,
        -0x1000_0000_0000 <= 500 * (u - 0x1000_0000_0000) <= 0x1000_0000_0000,
        511 * z - (270000 * ss) * n <= (512 * ss) * y,
        (512 * ss) * y <= 513 * z + (270000 * ss) * n,
    ensures
        99 * (16384 * 16384) <= 100 * y <= 101 * (16384 * 16384),
{
    let a = 33554432 * y;
    let b = 17694720000 * n;
    assert((512 * ss) * y == a * p && (270000 * ss) * n == b * p) by (nonlinear_arith)
        requires
            ss == 65536 * p,
            a == 33554432 * y,
            b == 17694720000 * n,
    ;
    assert(a * p <= (513 * (u + 0x4000_0000) + b) * p) by (nonlinear_arith)
        requires
            a * p <= 513 * z + b * p,
            z <= (u + 0x4000_0000) * p,
    ;
    assert(a <= 513 * (u + 0x4000_0000) + b) by (nonlinear_arith)
        requires
            a * p <= (513 * (u + 0x4000_0000) + b) * p,
            p > 0,
    ;
    assert((511 * (u - 6000000000) - b) * p <= a * p) by (nonlinear_arith)
        requires
            511 * z - b * p <= a * p,
            (u - 6000000000) * p <= z,
    ;
    assert(511 * (u - 6000000000) - b <= a) by (nonlinear_arith)
        requires
            (511 * (u - 6000000000) - b) * p <= a * p,
            p > 0,
    ;
}

/// Concealment fills a band with white noise of norm one, and draws once for each
/// coefficient; everything else stays.
pub proof fn law_noise_has_unit_norm(
    mode: OpusCustomMode,
    m: int,
    x: Seq<i16>,
    base: int,
    seed: u32,
    band: int,
)
    requires
        0 <= base,
        0 <= m * mode.edge(band),
        0 <= m * mode.width(band) <= 1024,
        base + m * mode.edge(band) + m * mode.width(band) <= x.len(),
        squares(white_noise(m * mode.width(band), seed)) >= 16383,
    ensures
        ({
            let at = base + m * mode.edge(band);
            let n = m * mode.width(band);
            let (y, next) = band_noise(mode, m, x, base, seed, band);
            let part = y.subrange(at, at + n);
            &&& y.len() == x.len()
            &&& 99 * (16384 * 16384) <= 100 * squares(part) <= 101 * (16384 * 16384)
            &&& forall|k: int| 0 <= k < x.len() && (k < at || k >= at + n) ==> #[trigger] y[k] == x[k]
            &&& next == drawn(seed, n as nat)
        }),
{
    let at = base + m * mode.edge(band);
    let n = m * mode.width(band);
    let noise = white_noise(n, seed);
    law_renormalised_shapes_have_unit_norm(noise);
    let (y, next) = band_noise(mode, m, x, base, seed, band);
    assert(y.subrange(at, at + n) =~= renormalised(noise, Q31_ONE));
}

} // verus!
