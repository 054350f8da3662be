//! What the encoder measures of a band, and what it makes of it.

use vstd::arithmetic::power2::{
    lemma2_to64, lemma_pow2_adds, lemma_pow2_pos, lemma_pow2_strictly_increases, lemma_pow2_unfold,
    pow2,
};
use vstd::prelude::*;
use crate::analysis::{
    amplitude_of, angle_of, atan01, channels_mixed, channels_split, half_difference, half_sum,
    mix_weights, raised, ratio_q15, split_angle, weights_of,
};
use crate::division_laws::{lemma_q15, lemma_reciprocal, lemma_shr};
use crate::fixed::{
    mult16_16, mult16_16_p15, mult16_16_q15, mult32_32, mult32_32_q31, shl32, vshr32,
};
use crate::math::{bit_length, ilog2, lemma_bit_length, lemma_bit_length_bound, rcp, zlog2};
use crate::pvq::norm_energy;

verus! {

/// A rounded Q15 product of words that are not both extreme.
proof fn lemma_p15(a: i16, b: i16)
    requires
        0 <= a,
    ensures
        32768 * mult16_16_p15(a, b) <= a * b + 16384 < 32768 * mult16_16_p15(a, b) + 32768,
{
    assert(-32768 * 32767 <= a * b <= 32767 * 32767) by (nonlinear_arith)
        requires
            0 <= a <= 32767,
            -32768 <= b <= 32767,
    ;
    lemma2_to64();
    let p = mult16_16(a, b).wrapping_add(16384);
    assert(p == a * b + 16384);
    lemma_shr(p, 15);
}

/// The arc tangent of a ratio lies between zero and the ratio.
proof fn lemma_atan(x: i16)
    requires
        0 <= x,
    ensures
        0 <= atan01(x) <= x,
        x == 0 ==> atan01(x) == 0,
{
    let a = mult16_16_p15(4936, x);
    lemma_p15(4936, x);
    let b = ((-11943) as i16).wrapping_add(a);
    assert(0 <= a <= 4936);
    assert(b == a - 11943);
    let c = mult16_16_p15(x, b);
    lemma_p15(x, b);
    assert(-11943 * 32767 <= x * b <= 0) by (nonlinear_arith)
        requires
            0 <= x <= 32767,
            -11943 <= b <= 0,
    ;
    let d = ((-21) as i16).wrapping_add(c);
    assert(d == c - 21 && -11965 <= d <= -21);
    let e = mult16_16_p15(x, d);
    lemma_p15(x, d);
    assert(-11965 * 32767 <= x * d <= 0) by (nonlinear_arith)
        requires
            0 <= x <= 32767,
            -11965 <= d <= 0,
    ;
    let f = 32767i16.wrapping_add(e);
    assert(f == 32767 + e && 20000 <= f <= 32767);
    lemma_p15(x, f);
    assert(0 <= x * f <= x * 32767) by (nonlinear_arith)
        requires
            0 <= x,
            0 <= f <= 32767,
    ;
    if x == 0 {
        assert(x * f == 0) by (nonlinear_arith)
            requires
                x == 0,
        ;
    }
}

/// A quarter turn of an angle in radians.
proof fn lemma_turns(r: i16)
    requires
        0 <= r <= 25736,
    ensures
        32768 * mult16_16_q15(20861, r) <= 20861 * r < 32768 * mult16_16_q15(20861, r) + 32768,
        0 <= mult16_16_q15(20861, r) <= 16384,
{
    lemma_q15(20861, r);
}

/// The polynomial in the middle of the reciprocal.
spec fn reciprocal_of(n: i16) -> i16 {
    let r0 = 30840i16.wrapping_add(mult16_16_q15((-15420) as i16, n));
    let r1 = r0.wrapping_sub(
        mult16_16_q15(r0, mult16_16_q15(r0, n).wrapping_add(r0.wrapping_add((-32768) as i16))),
    );
    r1.wrapping_sub(
        1i16.wrapping_add(
            mult16_16_q15(r1, mult16_16_q15(r1, n).wrapping_add(r1.wrapping_add((-32768) as i16))),
        ),
    )
}

/// The reciprocal of a word.
proof fn lemma_word_reciprocal(b: i32)
    requires
        1 <= b <= 32767,
    ensures
        0 <= rcp(b),
        -160000 <= rcp(b) * b - 0x8000_0000 <= 80000,
{
    lemma2_to64();
    lemma_bit_length(b as nat);
    lemma_bit_length_bound(b as nat, 15);
    let i = ilog2(b as int);
    let s = (15 - i) as nat;
    let p = pow2(s) as int;
    lemma_pow2_pos(s);
    lemma_pow2_adds(i as nat, s);
    lemma_pow2_adds((i + 1) as nat, s);
    lemma_pow2_unfold((s + 1) as nat);
    let low = pow2(i as nat) as int;
    let top = pow2((i + 1) as nat) as int;
    assert(low * p <= b * p < top * p) by (nonlinear_arith)
        requires
            low <= b < top,
            p >= 1,
    ;
    let d = b * p;
    assert(32768 <= d < 65536);
    vstd::bits::lemma_u32_shl_is_mul(b as u32, s as u32);
    assert(vshr32(b, (i - 15) as i32) == d);
    let n = (d - 32768) as i16;
    let x = (2 * d) as i32;
    lemma_reciprocal(x);
    lemma_bit_length(x as nat);
    lemma_bit_length_bound(x as nat, 17);
    let bits = bit_length(x as nat);
    if bits < 16 {
        lemma_pow2_strictly_increases(bits, 16);
    }
    assert(ilog2(x as int) == 16);
    lemma_shr(x, 1);
    assert(vshr32(x, 1) == d);
    let r = reciprocal_of(n) as i32;
    assert(rcp(x) == vshr32(r, 0));
    assert(vshr32(r, 0) == ((r as u32) << 0u32) as i32);
    assert(r >= 0 && vshr32(r, 0) == r) by {
        if r >= 0 {
            vstd::bits::lemma_u32_shl_is_mul(r as u32, 0);
        } else {
            assert(r < 0 ==> (((r as u32) << 0u32) as i32) == r) by (bit_vector);
        }
    }
    let t = (s + 1) as nat;
    lemma_pow2_strictly_increases(s, 16);
    assert(r * (2 * p) <= 32767 * 65536) by (nonlinear_arith)
        requires
            0 <= r <= 32767,
            1 <= p <= 32768,
    ;
    vstd::bits::lemma_u32_shl_is_mul(r as u32, t as u32);
    assert(rcp(b) == vshr32(r, (i - 16) as i32));
    assert(rcp(b) == r * (2 * p));
    assert((r * (2 * p)) * b == 2 * (r * d)) by (nonlinear_arith)
        requires
            d == b * p,
    ;
}

/// The ratio of two amplitudes is their quotient in Q15, up to a few units.
pub proof fn law_ratio_is_the_quotient(a: i16, b: i16)
    requires
        0 <= a < b,
    ensures
        0 <= ratio_q15(a, b),
        32765 * a - b <= b * ratio_q15(a, b) <= 32770 * a,
{
    lemma_word_reciprocal(b as i32);
    let r = rcp(b as i32);
    lemma2_to64();
    vstd::bits::lemma_u32_shl_is_mul(a as u32, 15);
    let wide = shl32(a as i32, 15);
    assert(wide == 32768 * a);
    assert(0 <= a * r) by (nonlinear_arith)
        requires
            0 <= a,
            0 <= r,
    ;
    assert(a * r <= b * r) by (nonlinear_arith)
        requires
            a <= b,
            0 <= r,
    ;
    assert(r * b == b * r) by (nonlinear_arith);
    let p = mult32_32(wide, r);
    assert(32768 * a * r == 32768 * (a * r)) by (nonlinear_arith);
    assert(p == 32768 * (a * r));
    let q = mult32_32_q31(wide, r) as int;
    lemma_shr31(p);
    assert(0x8000_0000 * q <= p < 0x8000_0000 * q + 0x8000_0000);
    assert(65536 * q <= a * r < 65536 * q + 65536);
    let e = b * r - 0x8000_0000;
    let ab = a * (b * r);
    assert(ab == 0x8000_0000 * a + a * e) by (nonlinear_arith)
        requires
            ab == a * (b * r),
            e == b * r - 0x8000_0000,
    ;
    assert(-160000 * a <= a * e <= 80000 * a) by (nonlinear_arith)
        requires
            0 <= a,
            -160000 <= e <= 80000,
    ;
    assert(b * (65536 * q) <= ab && ab <= b * (65536 * q + 65536)) by (nonlinear_arith)
        requires
            65536 * q <= a * r < 65536 * q + 65536,
            b > 0,
            ab == a * (b * r),
    ;
    assert(b * (65536 * q) == 65536 * (b * q)) by (nonlinear_arith);
    assert(b * (65536 * q + 65536) == 65536 * (b * q) + 65536 * b) by (nonlinear_arith);
    assert(32765 * a - b <= b * q <= 32770 * a);
    if q >= 32767 {
        assert(b * 32767 <= b * q) by (nonlinear_arith)
            requires
                q >= 32767,
                b > 0,
        ;
    }
}

/// A shift by 31 bits of a product that is not negative.
pub proof fn lemma_shr31(p: i64)
    requires
        0 <= p < 0x4000_0000_0000_0000,
    ensures
        0 <= (p >> 31u32) < 0x8000_0000,
        0x8000_0000 * (p >> 31u32) <= p < 0x8000_0000 * (p >> 31u32) + 0x8000_0000,
{
    assert(0 <= p < 0x4000_0000_0000_0000 ==> 0 <= (p >> 31u32) < 0x8000_0000 && 0x8000_0000 * (p
        >> 31u32) <= p && p < 0x8000_0000 * (p >> 31u32) + 0x8000_0000) by (bit_vector);
}

/// Exchanging the parts of a band mirrors its angle in the middle, up to rounding.
pub proof fn law_angle_is_mirrored(a: i16, b: i16)
    requires
        0 <= a,
        0 <= b,
        a != b,
    ensures
        0 <= angle_of(a, b) <= 16384,
        16383 <= angle_of(a, b) + angle_of(b, a) <= 16384,
{
    lemma2_to64();
    let (low, high) = if a < b { (a, b) } else { (b, a) };
    law_ratio_is_the_quotient(low, high);
    let t = atan01(ratio_q15(low, high));
    lemma_atan(ratio_q15(low, high));
    let r = t >> 1u32;
    lemma_half_word(t);
    assert(25736i16.wrapping_sub(r) == 25736 - r);
    lemma_turns(r);
    lemma_turns((25736 - r) as i16);
}

/// A band with a silent second part has no angle, and one with a silent first part has
/// a full one. Where one part is not half as strong as the other the angle stays on its
/// side of the middle.
pub proof fn law_angle_tells_the_stronger_part(mid: i16, side: i16)
    requires
        0 <= mid,
        0 <= side,
        mid > 0 || side > 0,
    ensures
        side == 0 ==> angle_of(mid, side) == 0,
        mid == 0 ==> angle_of(mid, side) == 16384,
        side <= 1 && mid >= 0x3000 ==> angle_of(mid, side) == 0,
        mid <= 1 && side >= 0x3000 ==> angle_of(mid, side) >= 16383,
        2 * side <= mid ==> angle_of(mid, side) < 8192,
        2 * mid <= side ==> angle_of(mid, side) > 8192,
{
    let (low, high) = if side < mid { (side, mid) } else { (mid, side) };
    if low != high {
        law_ratio_is_the_quotient(low, high);
        let q = ratio_q15(low, high);
        lemma_atan(q);
        let t = atan01(q);
        let r = t >> 1u32;
        lemma_half_word(t);
        assert(25736i16.wrapping_sub(r) == 25736 - r);
        lemma_turns(r);
        lemma_turns((25736 - r) as i16);
        if low == 0 {
            assert(q <= 0) by (nonlinear_arith)
                requires
                    high * q <= 32770 * low,
                    low == 0,
                    high > 0,
            ;
        }
        if low <= 1 && high >= 0x3000 {
            assert(q <= 2) by (nonlinear_arith)
                requires
                    high * q <= 32770 * low,
                    low <= 1,
                    high >= 0x3000,
            ;
        }
        if 2 * low <= high {
            assert(q <= 16385) by (nonlinear_arith)
                requires
                    high * q <= 32770 * low,
                    2 * low <= high,
                    high > 0,
            ;
        }
    }
}

/// Half a word.
proof fn lemma_half_word(t: i16)
    requires
        0 <= t,
    ensures
        2 * (t >> 1u32) <= t <= 2 * (t >> 1u32) + 1,
        0 <= (t >> 1u32) <= 16383,
{
    assert(0 <= t ==> 2 * (t >> 1u32) <= t && t <= 2 * (t >> 1u32) + 1 && 0 <= (t >> 1u32) <= 16383)
        by (bit_vector);
}

/// The amplitude of a silent part.
proof fn lemma_silent_amplitude(x: Seq<i16>)
    requires
        forall|i: int| 0 <= i < x.len() ==> #[trigger] x[i] == 0,
    ensures
        norm_energy(x) == 1,
        amplitude_of(norm_energy(x)) == 1,
{
    lemma_silent_energy(x);
    lemma2_to64();
    lemma_bit_length(1);
    lemma_bit_length_bound(1, 1);
    assert(ilog2(1) == 0);
    vstd::bits::lemma_u32_shl_is_mul(1, 14);
    assert(vshr32(1, (-14) as i32) == 16384);
    let n = (-16384) as i16;
    lemma_q15(n, 336);
    let c4 = ((-1002) as i16).wrapping_add(mult16_16_q15(n, 336));
    assert(c4 == -1170);
    lemma_q15(n, c4);
    let c3 = 1592i16.wrapping_add(mult16_16_q15(n, c4));
    assert(c3 == 2177);
    lemma_q15(n, c3);
    let c2 = ((-2901) as i16).wrapping_add(mult16_16_q15(n, c3));
    assert(c2 == -3990);
    lemma_q15(n, c2);
    let c1 = 11574i16.wrapping_add(mult16_16_q15(n, c2));
    assert(c1 == 13569);
    lemma_q15(n, c1);
    let c0 = 23171i16.wrapping_add(mult16_16_q15(n, c1));
    assert(c0 == 16386);
    lemma_shr(c0 as i32, 14);
}

/// A silent part has no energy but the offset.
proof fn lemma_silent_energy(x: Seq<i16>)
    requires
        forall|i: int| 0 <= i < x.len() ==> #[trigger] x[i] == 0,
    ensures
        norm_energy(x) == 1,
    decreases x.len(),
{
    if x.len() > 0 {
        lemma_silent_energy(x.drop_last());
    }
}

/// Channels with the same shape have no side, and channels of opposite sign have no mid;
/// a part of a band that is silent gets no share of the angle.
pub proof fn law_measured_angles(x: Seq<i16>, y: Seq<i16>)
    requires
        x.len() == y.len(),
    ensures
        x == y && amplitude_of(norm_energy(half_sum(x, y))) >= 0x3000 ==> split_angle(x, y, true)
            == 0,
        (forall|i: int| 0 <= i < x.len() ==> #[trigger] half_sum(x, y)[i] == 0) && amplitude_of(
            norm_energy(half_difference(x, y)),
        ) >= 0x3000 ==> split_angle(x, y, true) >= 16383,
        (forall|i: int| 0 <= i < y.len() ==> #[trigger] y[i] == 0) && amplitude_of(norm_energy(x))
            >= 0x3000 ==> split_angle(x, y, false) == 0,
        (forall|i: int| 0 <= i < x.len() ==> #[trigger] x[i] == 0) && amplitude_of(norm_energy(y))
            >= 0x3000 ==> split_angle(x, y, false) >= 16383,
{
    let m = half_sum(x, y);
    let d = half_difference(x, y);
    if x == y && amplitude_of(norm_energy(m)) >= 0x3000 {
        lemma_silent_amplitude(d);
        law_angle_tells_the_stronger_part(amplitude_of(norm_energy(m)), 1);
    }
    if (forall|i: int| 0 <= i < x.len() ==> #[trigger] m[i] == 0) && amplitude_of(norm_energy(d))
        >= 0x3000 {
        lemma_silent_amplitude(m);
        law_angle_tells_the_stronger_part(1, amplitude_of(norm_energy(d)));
    }
    if (forall|i: int| 0 <= i < y.len() ==> #[trigger] y[i] == 0) && amplitude_of(norm_energy(x))
        >= 0x3000 {
        lemma_silent_amplitude(y);
        law_angle_tells_the_stronger_part(amplitude_of(norm_energy(x)), 1);
    }
    if (forall|i: int| 0 <= i < x.len() ==> #[trigger] x[i] == 0) && amplitude_of(norm_energy(y))
        >= 0x3000 {
        lemma_silent_amplitude(x);
        law_angle_tells_the_stronger_part(1, amplitude_of(norm_energy(y)));
    }
}

/// Mid and side are the sum of the channels and the second less the first, each divided
/// by the root of two and rounded down: equal channels have no side, and exchanging the
/// channels keeps the mid and turns the side round.
pub proof fn law_mid_and_side(x: Seq<i16>, y: Seq<i16>, i: int)
    requires
        x.len() == y.len(),
        0 <= i < x.len(),
        -16384 <= x[i] <= 16384,
        -16384 <= y[i] <= 16384,
    ensures
        ({
            let (mid, side) = channels_split(x, y);
            let (mid2, side2) = channels_split(y, x);
            &&& mid.len() == x.len()
            &&& side.len() == x.len()
            &&& 32768 * mid[i] <= 23170 * (x[i] + y[i]) < 32768 * mid[i] + 32768
            &&& 32768 * side[i] <= 23170 * (y[i] - x[i]) < 32768 * side[i] + 32768
            &&& x[i] == y[i] ==> side[i] == 0
            &&& mid2[i] == mid[i]
            &&& -1 <= side[i] + side2[i] <= 0
        }),
{
    lemma2_to64();
    let a = x[i];
    let b = y[i];
    assert(mult16_16(23170, a) == 23170 * a && mult16_16(23170, b) == 23170 * b);
    lemma_shr(mult16_16(23170, a).wrapping_add(mult16_16(23170, b)), 15);
    lemma_shr(mult16_16(23170, b).wrapping_add(mult16_16(23170, a)), 15);
    lemma_shr(mult16_16(23170, b).wrapping_sub(mult16_16(23170, a)), 15);
    lemma_shr(mult16_16(23170, a).wrapping_sub(mult16_16(23170, b)), 15);
}

/// Mixing does not depend on which channel is the first, and a channel without energy
/// does not take part in it.
pub proof fn law_mixing_is_even_handed(
    x: Seq<i16>,
    y: Seq<i16>,
    other: Seq<i16>,
    left: i32,
    right: i32,
)
    requires
        x.len() == y.len(),
        x.len() == other.len(),
        0 <= left,
        0 <= right,
    ensures
        channels_mixed(x, y, left, right) == channels_mixed(y, x, right, left),
        left > 0 && right == 0 ==> channels_mixed(x, y, left, right) == channels_mixed(
            x,
            other,
            left,
            right,
        ),
        left == right ==> mix_weights(left, right).0 == mix_weights(left, right).1,
{
    let (a1, a2) = mix_weights(left, right);
    let (b1, b2) = mix_weights(right, left);
    assert(a1 == b2 && a2 == b1);
    assert(channels_mixed(x, y, left, right) =~= channels_mixed(y, x, right, left));
    if left > 0 && right == 0 {
        lemma2_to64();
        lemma_bit_length(left as nat);
        lemma_bit_length_bound(left as nat, 31);
        let shift = (zlog2(left as int) - 13) as i32;
        assert(a2 == 0) by {
            lemma_zero_shifted(shift);
            vstd::bits::lemma_u32_shl_is_mul(0, 14);
        }
        assert(channels_mixed(x, y, left, right) =~= channels_mixed(x, other, left, right)) by {
            assert(forall|v: i16| #[trigger] mult16_16(0, v) == 0);
        }
    }
}

/// Nothing stays nothing.
proof fn lemma_zero_shifted(shift: i32)
    requires
        -32 < shift < 32,
    ensures
        vshr32(0, shift) == 0,
{
    lemma2_to64();
    if shift > 0 {
        lemma_shr(0, shift as nat);
        lemma_pow2_pos(shift as nat);
        let r = 0i32 >> (shift as u32);
        let p = pow2(shift as nat) as int;
        assert(r == 0) by (nonlinear_arith)
            requires
                p * r <= 0 < p * r + p,
                p > 0,
        ;
    } else {
        vstd::bits::lemma_u32_shl_is_mul(0, (-shift) as u32);
    }
}

/// The stronger of two channels weighs at least as much, and exchanging the channels
/// exchanges their weights; a third of the weaker one is added to both.
pub proof fn law_channel_weights(ex: i32, ey: i32)
    requires
        0 <= ex <= 0x2000_0000,
        0 <= ey <= 0x2000_0000,
    ensures
        ({
            let (rx, ry) = raised(ex, ey);
            let least = if ex < ey { ex } else { ey };
            let (wx, wy) = weights_of(ex, ey);
            let (vy, vx) = weights_of(ey, ex);
            &&& rx - ex == ry - ey
            &&& 3 * (rx - ex) <= least < 3 * (rx - ex) + 3
            &&& vx == wx
            &&& vy == wy
            &&& ex >= ey ==> wx >= wy
            &&& ex <= ey ==> wx <= wy
            &&& 0 <= wx
            &&& 0 <= wy
        }),
{
    lemma2_to64();
    let (rx, ry) = raised(ex, ey);
    let most = 1i32.wrapping_add(if rx > ry { rx } else { ry });
    lemma_bit_length(most as nat);
    lemma_bit_length_bound(most as nat, 31);
    let z = zlog2(most as int);
    if ex <= ey {
        lemma_shift_order(rx, ry, z);
    } else {
        lemma_shift_order(ry, rx, z);
    }
}

/// Words of `z + 1` bits are shifted to fifteen bits and keep their order.
proof fn lemma_shift_order(a: i32, b: i32, z: int)
    requires
        0 <= z <= 30,
        0 <= a <= b,
        b < pow2((z + 1) as nat),
    ensures
        0 <= vshr32(a, (z - 14) as i32) <= vshr32(b, (z - 14) as i32) <= 32767,
{
    lemma2_to64();
    if z > 14 {
        let s = (z - 14) as nat;
        let p = pow2(s) as int;
        lemma_pow2_pos(s);
        lemma_pow2_adds(s, 15);
        lemma_shr(a, s);
        lemma_shr(b, s);
        let x = a >> (s as u32);
        let y = b >> (s as u32);
        assert(0 <= x <= y <= 32767) by (nonlinear_arith)
            requires
                p * x <= a < p * x + p,
                p * y <= b < p * y + p,
                0 <= a <= b < p * 32768,
                p > 0,
        ;
    } else {
        let s = (14 - z) as nat;
        let p = pow2(s) as int;
        lemma_pow2_pos(s);
        lemma_pow2_adds((z + 1) as nat, s);
        let q = pow2((z + 1) as nat) as int;
        assert(0 <= a * p <= b * p < q * p) by (nonlinear_arith)
            requires
                0 <= a <= b < q,
                p > 0,
        ;
        vstd::bits::lemma_u32_shl_is_mul(a as u32, s as u32);
        vstd::bits::lemma_u32_shl_is_mul(b as u32, s as u32);
    }
}

} // verus!
