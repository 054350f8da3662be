//! How a band is divided, mixed and put together again.

use vstd::arithmetic::power2::{lemma2_to64, lemma_pow2_pos, pow2};
use vstd::prelude::*;
use crate::all_bands::{at_or_zero, averaged, BandsInput};
use crate::band_decode::{affordable, folded_noise, mid_bits, rebalanced, split_bias};
use crate::band_stereo::{all_negated, inner_product, negated, pair_merged, stereo_merged, turned};
use crate::band_tf::sign_encoded;
use crate::division_laws::{lemma_pshr, lemma_shr};
use crate::fixed::{mult16_16, mult32_32, mult32_32_q31};
use crate::hadamard::{haar, haar_difference, haar_sum};
use crate::mode::OpusCustomMode;
use crate::range_encoder::EncState;
use crate::rate::bits_for;
use crate::stereo_encode::turns_left;

verus! {

/// The two parts of a split share its bits: evenly without a bias, and with one the second
/// part gets as many more as the bias says, as far as there are any.
pub proof fn law_parts_share_the_bits(b: i32, delta: i32, other: i32)
    requires
        0 <= b <= 0x1000_0000,
        -0x1000_0000 <= delta <= other <= 0x1000_0000,
    ensures
        ({
            let first = mid_bits(b, delta);
            let second = b - first;
            &&& 0 <= first <= b
            &&& -b <= delta <= b ==> delta <= second - first <= delta + 1
            &&& delta >= b ==> first == 0
            &&& delta <= -b ==> second == 0
            &&& mid_bits(b, other) <= first
        }),
{
}

/// What one part did not use goes to the other one, less three bits, if that is allowed;
/// nothing is taken away.
pub proof fn law_unused_bits_are_handed_on(own: i32, other: i32, before: i32, after: i32)
    requires
        0 <= own <= 0x1000_0000,
        0 <= other <= 0x1000_0000,
        -0x1000_0000 <= after <= before <= 0x1000_0000,
    ensures
        ({
            let used = before - after;
            let r = rebalanced(own, other, before, after, true);
            &&& r >= own
            &&& used + 24 >= other ==> r == own
            &&& used + 24 < other ==> r + used + 24 == own + other
            &&& rebalanced(own, other, before, after, false) == own
        }),
{
}

/// After transients the bias of a split is only ever made smaller: it never grows, and
/// never changes its sign.
pub proof fn law_bias_is_damped(delta: i32, itheta: i32, half: int, blocks: int, lm: int)
    requires
        0 <= half <= 256,
        -1 <= lm <= 3,
        -0x1_0000 <= delta <= 0x1_0000,
        itheta > 8192 ==> delta >= 0,
        itheta <= 8192 ==> delta <= 0,
    ensures
        ({
            let r = split_bias(delta, itheta, half, blocks, lm);
            &&& blocks <= 1 || itheta == 0 || itheta == 16384 ==> r == delta
            &&& delta >= 0 ==> 0 <= r <= delta
            &&& delta <= 0 ==> delta <= r <= 0
        }),
{
    lemma2_to64();
    let s = (4 - lm) as nat;
    lemma_pow2_pos(s);
    lemma_shr(delta, s);
    let p = pow2(s) as int;
    let x = delta >> (s as u32);
    if delta >= 0 {
        assert(0 <= x <= delta) by (nonlinear_arith)
            requires
                p * x <= delta < p * x + p,
                p >= 1,
                delta >= 0,
        ;
    }
    let t = (5 - lm) as nat;
    lemma_pow2_pos(t);
    let h = (half * 8) as i32;
    lemma_shr(h, t);
    let q = pow2(t) as int;
    let y = h >> (t as u32);
    assert(0 <= y <= h) by (nonlinear_arith)
        requires
            q * y <= h < q * y + q,
            q >= 1,
            h >= 0,
    ;
}

/// The pulses that are coded are the most that the bits left pay for.
pub proof fn law_pulses_are_affordable(mode: OpusCustomMode, band: int, lm: int, q: int, remaining: i32)
    requires
        0 <= q,
        -0x1000_0000 <= remaining,
        forall|k: int| 0 <= k <= q ==> 0 <= #[trigger] bits_for(mode, band, lm, k) <= 256,
    ensures
        ({
            let r = affordable(mode, band, lm, q, remaining);
            &&& 0 <= r <= q
            &&& r > 0 ==> bits_for(mode, band, lm, r) <= remaining
            &&& forall|k: int| r < k <= q ==> #[trigger] bits_for(mode, band, lm, k) > remaining
        }),
    decreases q,
{
    assert(0 <= bits_for(mode, band, lm, q) <= 256);
    if q > 0 && remaining.wrapping_sub(bits_for(mode, band, lm, q) as i32) < 0 {
        law_pulses_are_affordable(mode, band, lm, q - 1, remaining);
    }
}

/// Folding adds one step of noise to each coefficient, up or down.
pub proof fn law_folding_adds_a_step(low: Seq<i16>, n: int, seed: u32, i: int)
    requires
        0 <= i < n <= low.len(),
        -32000 <= low[i] <= 32000,
    ensures
        folded_noise(low, n, seed).len() == n,
        folded_noise(low, n, seed)[i] - low[i] == 4 || folded_noise(low, n, seed)[i] - low[i] == -4,
{
}

/// The mean of two folding buffers lies between them.
pub proof fn law_averages(a: Seq<i16>, b: Seq<i16>, i: int)
    requires
        0 <= i < a.len(),
        a.len() == b.len(),
    ensures
        averaged(a, b).len() == a.len(),
        2 * averaged(a, b)[i] <= a[i] + b[i] <= 2 * averaged(a, b)[i] + 1,
{
    lemma2_to64();
    lemma_shr((a[i] + b[i]) as i32, 1);
}

/// A band gets what it was allocated and a share of what earlier bands saved, a third or
/// more near the end, but never more than there is left; bands that are not coded get
/// nothing.
pub proof fn law_bands_get_their_allotment(cfg: BandsInput, band: int, remaining: i32, balance: i32)
    requires
        0 <= band,
        -0x1000_0000 <= remaining <= 0x1000_0000,
        0 <= balance <= 0x1000_0000,
        0 <= at_or_zero(cfg.pulses, band) <= 0x1000_0000,
    ensures
        ({
            let b = cfg.allotted(band, remaining, balance);
            let own = at_or_zero(cfg.pulses, band);
            let none = cfg.allotted(band, remaining, 0);
            &&& 0 <= b <= 16383
            &&& band >= cfg.coded_bands ==> b == 0
            &&& b > 0 ==> b <= remaining + 1
            &&& none <= b
            &&& none <= own
            &&& band < cfg.coded_bands && own <= remaining && own <= 16383 ==> none == own
            &&& band + 3 <= cfg.coded_bands ==> 3 * (b - own) <= balance
            &&& band + 1 == cfg.coded_bands && own + balance <= remaining && own + balance <= 16383
                ==> b == own + balance
            &&& band + 3 <= cfg.coded_bands && own + balance <= remaining && own + balance <= 16383
                ==> balance < 3 * (b - own) + 3
        }),
{
    if band < cfg.coded_bands {
        let share = if cfg.coded_bands - band < 3 { cfg.coded_bands - band } else { 3 };
        vstd::arithmetic::div_mod::lemma_fundamental_div_mod(balance as int, share);
        vstd::arithmetic::div_mod::lemma_mod_bound(balance as int, share);
        vstd::arithmetic::div_mod::lemma_div_pos_is_pos(balance as int, share);
        let q = balance as int / share;
        assert(q <= balance) by (nonlinear_arith)
            requires
                share * q <= balance,
                share >= 1,
                q >= 0,
        ;
        vstd::arithmetic::div_mod::lemma_div_basics(share);
        if share == 1 {
            assert(share * q == q) by (nonlinear_arith)
                requires
                    share == 1,
            ;
            assert(q == balance);
        }
    }
}

/// Sum and difference of a pair, each divided by the root of two and rounded.
proof fn lemma_haar(a: i16, b: i16)
    requires
        -23000 <= a <= 23000,
        -23000 <= b <= 23000,
    ensures
        -16384 <= 32768 * haar_sum(a, b) - 23170 * (a + b) <= 16384,
        -16384 <= 32768 * haar_difference(a, b) - 23170 * (a - b) <= 16384,
{
    lemma2_to64();
    assert(mult16_16(23170, a) == 23170 * a && mult16_16(23170, b) == 23170 * b);
    lemma_pshr(mult16_16(23170, a).wrapping_add(mult16_16(23170, b)), 15);
    lemma_pshr(mult16_16(23170, a).wrapping_sub(mult16_16(23170, b)), 15);
}

/// Sum and difference of a pair give the pair back, up to two units.
proof fn lemma_haar_twice(a: i16, b: i16)
    requires
        -16000 <= a <= 16000,
        -16000 <= b <= 16000,
    ensures
        -2 <= haar_sum(haar_sum(a, b), haar_difference(a, b)) - a <= 2,
        -2 <= haar_difference(haar_sum(a, b), haar_difference(a, b)) - b <= 2,
{
    lemma_haar(a, b);
    lemma_haar(haar_sum(a, b), haar_difference(a, b));
}

/// The Haar transform is its own inverse: applied twice it gives a band back, up to two
/// units of each coefficient.
pub proof fn law_haar_undoes_itself(x: Seq<i16>, n0: int, stride: int, k: int)
    requires
        1 <= stride,
        0 <= n0,
        n0 * stride <= x.len(),
        0 <= k < x.len(),
        forall|i: int| 0 <= i < x.len() ==> -16000 <= #[trigger] x[i] <= 16000,
    ensures
        haar(x, n0, stride).len() == x.len(),
        -2 <= haar(haar(x, n0, stride), n0, stride)[k] - x[k] <= 2,
{
    let pairs = n0 / 2;
    let end = 2 * pairs * stride;
    assert(end <= n0 * stride) by (nonlinear_arith)
        requires
            end == 2 * pairs * stride,
            2 * pairs <= n0,
            stride >= 1,
    ;
    if k < end {
        let row = k / stride;
        vstd::arithmetic::div_mod::lemma_fundamental_div_mod(k, stride);
        vstd::arithmetic::div_mod::lemma_mod_bound(k, stride);
        vstd::arithmetic::div_mod::lemma_div_pos_is_pos(k, stride);
        let col = k % stride;
        assert(row < 2 * pairs) by (nonlinear_arith)
            requires
                stride * row <= k,
                k < 2 * pairs * stride,
                stride >= 1,
        ;
        let even = if row % 2 == 0 { row } else { row - 1 };
        let first = stride * even + col;
        let second = first + stride;
        assert(stride * (even + 1) == stride * even + stride) by (nonlinear_arith);
        assert(stride * (even + 2) == stride * even + 2 * stride) by (nonlinear_arith);
        assert(stride * (even + 2) <= end) by (nonlinear_arith)
            requires
                even + 2 <= 2 * pairs,
                end == 2 * pairs * stride,
                stride >= 1,
        ;
        assert(0 <= stride * even) by (nonlinear_arith)
            requires
                0 <= even,
                stride >= 1,
        ;
        vstd::arithmetic::mul::lemma_mul_is_commutative(stride, even);
        vstd::arithmetic::mul::lemma_mul_is_commutative(stride, even + 1);
        vstd::arithmetic::div_mod::lemma_fundamental_div_mod_converse(first, stride, even, col);
        vstd::arithmetic::div_mod::lemma_fundamental_div_mod_converse(
            second,
            stride,
            even + 1,
            col,
        );
        let y = haar(x, n0, stride);
        assert(k == first || k == second) by {
            if row % 2 != 0 {
                assert(even + 1 == row);
            }
        }
        assert(y[first] == haar_sum(x[first], x[second]));
        assert(y[second] == haar_difference(x[first], x[second]));
        lemma_haar_twice(x[first], x[second]);
    }
}

/// A shape of two coefficients and the one at a right angle to it: their inner product is
/// zero, and the coded sign says on which side the second one lies.
pub proof fn law_turned_shapes(main: Seq<i16>, sign: bool)
    requires
        main.len() == 2,
        -32767 <= main[0],
        -32767 <= main[1],
        main[0] != 0 || main[1] != 0,
    ensures
        ({
            let other = turned(main, sign);
            &&& other.len() == 2
            &&& main[0] * other[0] + main[1] * other[1] == 0
            &&& turns_left(main, other) == sign
        }),
{
    let a = main[0] as int;
    let b = main[1] as int;
    let other = turned(main, sign);
    if sign {
        assert(other[0] == b && other[1] == -a);
        assert(a * b + b * (-a) == 0) by (nonlinear_arith);
        assert(a * (-a) - b * b < 0) by (nonlinear_arith)
            requires
                a != 0 || b != 0,
        ;
    } else {
        assert(other[0] == -b && other[1] == a);
        assert(a * (-b) + b * a == 0) by (nonlinear_arith);
        assert(a * a - b * (-b) > 0) by (nonlinear_arith)
            requires
                a != 0 || b != 0,
        ;
    }
}

/// Products with nothing.
proof fn lemma_no_product(a: Seq<i16>, b: Seq<i16>, n: int)
    requires
        n <= a.len(),
        n <= b.len(),
        forall|i: int| 0 <= i < a.len() ==> #[trigger] a[i] == 0,
    ensures
        inner_product(a, b, n) == 0,
        n <= a.len() ==> inner_product(a, a, n) == 0,
    decreases n,
{
    if n > 0 {
        lemma_no_product(a, b, n - 1);
        assert(0 * b[n - 1] == 0);
    }
}

/// Without a side both channels are the same.
pub proof fn law_no_side_means_equal_channels(x: Seq<i16>, y: Seq<i16>, mid: i32)
    requires
        x.len() == y.len(),
        forall|i: int| 0 <= i < y.len() ==> #[trigger] y[i] == 0,
    ensures
        stereo_merged(x, y, mid).0 == stereo_merged(x, y, mid).1,
        stereo_merged(x, y, mid).0.len() == x.len(),
{
    lemma_no_product(y, x, x.len() as int);
    assert(mult32_32(mid, 0) == 0) by {
        assert(mid * 0 == 0);
    }
    lemma_zero_q31(mid);
    let (l, r) = stereo_merged(x, y, mid);
    assert(l =~= r);
}

/// Nothing times a gain.
proof fn lemma_zero_q31(mid: i32)
    ensures
        mult32_32_q31(mid, 0) == 0,
        mult32_32_q31(0, mid) == 0,
{
    assert(mid * 0 == 0 && 0 * mid == 0);
    assert(0i64 >> 31u32 == 0) by (bit_vector);
}

/// In bands of two coefficients the channels are the mid less and plus the side: without a
/// side they are the same, without a mid they are opposite.
pub proof fn law_pairs_are_mid_and_side(main: Seq<i16>, swapped: bool, sign: bool, gain: i32, i: int)
    requires
        main.len() == 2,
        0 <= i < 2,
    ensures
        ({
            let (l, r) = pair_merged(main, swapped, sign, gain, 0);
            let (u, v) = pair_merged(main, swapped, sign, 0, gain);
            &&& l[i] == r[i]
            &&& u[i] == negated(v[i])
        }),
{
    let other = turned(main, sign);
    lemma_zero_q31(main[0] as i32);
    lemma_zero_q31(main[1] as i32);
    lemma_zero_q31(other[0] as i32);
    lemma_zero_q31(other[1] as i32);
}

/// Inverting a channel twice gives it back.
pub proof fn law_inversion_undoes_itself(y: Seq<i16>)
    ensures
        all_negated(all_negated(y)) == y,
        all_negated(y).len() == y.len(),
        forall|i: int| 0 <= i < y.len() && y[i] > -32768 ==> #[trigger] all_negated(y)[i] == -y[i],
{
    assert(all_negated(all_negated(y)) =~= y);
}

/// A band of one coefficient is coded as its sign, where there is a bit for it, and counts
/// as positive where there is none; it is always rebuilt at unit scale.
pub proof fn law_single_coefficients_keep_their_sign(enc: EncState, remaining: i32, value: i16)
    requires
        remaining >= -0x1000_0000,
    ensures
        ({
            let (e, left, rebuilt) = sign_encoded(enc, remaining, value, true);
            &&& rebuilt == 16384 || rebuilt == -16384
            &&& remaining >= 8 ==> (rebuilt < 0 <==> value < 0) && left == remaining - 8
            &&& remaining < 8 ==> rebuilt == 16384 && left == remaining && e == enc
        }),
{
}

} // verus!
