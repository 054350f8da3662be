//! The encoder picks the better of what it can choose from.

use vstd::arithmetic::power2::lemma2_to64;
use vstd::prelude::*;
use crate::all_bands::{BandPlan, BandsInput};
use crate::analysis::{channels_mixed, channels_split, split_angle, weights_of};
use crate::band_stereo::{all_negated, inner_product};
use crate::bands::{first_above, hysteresis_region};
use crate::bands_encode::{best_tried, likeness, tried};
use crate::division_laws::{lemma_q15, lemma_q15_wide, lemma_shr};
use crate::fixed::{mult16_16, mult16_32_q15};
use crate::pvq_encode::{best_position, pulse_added, score, Search};
use crate::range_encoder::EncState;
use crate::stereo_encode::{channels_turned, silence_covered, CodedPair};
use crate::theta::{theta_encoded, BandCtx};

verus! {

/// Whether a pulse at `a` fits at least as well as one at `b`: the square of the inner
/// product with the band, divided by the energy of the pulses, is not smaller.
pub open spec fn fits_as_well(x: Seq<i16>, s: Search, shift: u32, a: int, b: int) -> bool {
    let (num_a, den_a) = score(x, s, shift, a);
    let (num_b, den_b) = score(x, s, shift, b);
    num_b * den_a <= num_a * den_b
}

/// No energy is zero and no inner product negative.
pub open spec fn scores_sound(x: Seq<i16>, s: Search, shift: u32) -> bool {
    forall|j: int|
        0 <= j < x.len() ==> (#[trigger] score(x, s, shift, j)).0 >= 0 && score(x, s, shift, j).1
            > 0
}

/// Fitting is transitive.
proof fn lemma_fits(x: Seq<i16>, s: Search, shift: u32, a: int, b: int, c: int)
    requires
        scores_sound(x, s, shift),
        0 <= a < x.len(),
        0 <= b < x.len(),
        0 <= c < x.len(),
        fits_as_well(x, s, shift, a, b),
        fits_as_well(x, s, shift, b, c),
    ensures
        fits_as_well(x, s, shift, a, c),
{
    let (na, da) = score(x, s, shift, a);
    let (nb, db) = score(x, s, shift, b);
    let (nc, dc) = score(x, s, shift, c);
    let p = na as int;
    let q = da as int;
    let r = nb as int;
    let t = db as int;
    let u = nc as int;
    let v = dc as int;
    assert((u * q) * t <= (p * v) * t) by (nonlinear_arith)
        requires
            r * q <= p * t,
            u * t <= r * v,
            q > 0,
            v > 0,
            t > 0,
    ;
    assert(u * q <= p * v) by (nonlinear_arith)
        requires
            (u * q) * t <= (p * v) * t,
            t > 0,
    ;
}

/// Products of words are exact.
proof fn lemma_product(a: i16, b: i16)
    ensures
        mult16_16(a, b) == a * b,
{
    assert(-32768 * 32768 <= a * b <= 32768 * 32768) by (nonlinear_arith)
        requires
            -32768 <= a <= 32767,
            -32768 <= b <= 32767,
    ;
}

/// The best position among those from `j` on and `best`.
proof fn lemma_best(x: Seq<i16>, s: Search, shift: u32, j: int, best: int, k: int)
    requires
        scores_sound(x, s, shift),
        0 <= best < x.len(),
        0 <= j,
        0 <= k < x.len(),
        k >= j || fits_as_well(x, s, shift, best, k),
    ensures
        0 <= best_position(x, s, shift, j, best) < x.len(),
        fits_as_well(x, s, shift, best_position(x, s, shift, j, best), k),
        fits_as_well(x, s, shift, best_position(x, s, shift, j, best), best),
    decreases x.len() - j,
{
    if j < x.len() {
        let (num, den) = score(x, s, shift, j);
        let (best_num, best_den) = score(x, s, shift, best);
        lemma_product(best_den, num);
        lemma_product(den, best_num);
        assert(best_den * num == num * best_den) by (nonlinear_arith);
        assert(den * best_num == best_num * den) by (nonlinear_arith);
        let next = if mult16_16(best_den, num) > mult16_16(den, best_num) {
            j
        } else {
            best
        };
        if next == j {
            if k < j {
                lemma_fits(x, s, shift, j, best, k);
            }
        }
        lemma_best(x, s, shift, j + 1, next, if k == j { j } else { k });
        lemma_best(x, s, shift, j + 1, next, next);
        let found = best_position(x, s, shift, j + 1, next);
        if k == j && next == best {
            lemma_fits(x, s, shift, found, best, j);
        }
        if next == j {
            lemma_fits(x, s, shift, found, j, best);
        }
    }
}

/// Every pulse goes where it fits best: no other position would have been better.
pub proof fn law_pulse_goes_where_it_fits_best(x: Seq<i16>, s: Search, k: int, other: int)
    requires
        0 <= other < x.len(),
        s.y.len() == x.len(),
        ({
            let shift = (1 + crate::math::ilog2(k - s.left + 1)) as u32;
            scores_sound(x, s, shift)
        }),
    ensures
        ({
            let shift = (1 + crate::math::ilog2(k - s.left + 1)) as u32;
            let t = pulse_added(x, s, k);
            exists|at: int|
                0 <= at < x.len() && t.y == #[trigger] s.y.update(at, s.y[at] + 1) && fits_as_well(
                    x,
                    s,
                    shift,
                    at,
                    other,
                )
        }),
        pulse_added(x, s, k).left == s.left - 1,
{
    let shift = (1 + crate::math::ilog2(k - s.left + 1)) as u32;
    let at = best_position(x, s, shift, 1, 0);
    if other == 0 {
        lemma_best(x, s, shift, 1, 0, 0);
    } else {
        lemma_best(x, s, shift, 1, 0, other);
    }
    assert(pulse_added(x, s, k).y == s.y.update(at, s.y[at] + 1));
}

/// Of two positions with as many pulses the one with the larger coefficient fits at least
/// as well, and of two equal coefficients the one with fewer pulses.
pub proof fn law_pulses_follow_the_coefficients(
    x: Seq<i16>,
    s: Search,
    shift: u32,
    a: int,
    b: int,
)
    requires
        0 <= a < x.len(),
        0 <= b < x.len(),
        x.len() == s.y.len(),
        1 <= shift < 16,
        0 <= s.xy,
        s.xy + 32767 <= 32767 * crate::fixed::shl32(1, shift),
        0 <= x[b] <= x[a],
        0 <= s.y[a] <= s.y[b] <= 128,
        0 <= s.yy <= 16384,
        x[a] == x[b] || s.y[a] == s.y[b],
    ensures
        fits_as_well(x, s, shift, a, b),
        score(x, s, shift, a).1 == s.yy + 1 + 2 * s.y[a],
{
    lemma2_to64();
    let p = vstd::arithmetic::power2::pow2(shift as nat) as int;
    vstd::arithmetic::power2::lemma_pow2_pos(shift as nat);
    vstd::arithmetic::power2::lemma_pow2_strictly_increases(shift as nat, 16);
    vstd::bits::lemma_u32_shl_is_mul(1, shift);
    let u = s.xy.wrapping_add(x[a] as i32);
    let v = s.xy.wrapping_add(x[b] as i32);
    lemma_shr(u, shift as nat);
    lemma_shr(v, shift as nat);
    let f = (u >> shift) as int;
    let g = (v >> shift) as int;
    assert(0 <= g <= f <= 32767) by (nonlinear_arith)
        requires
            p * f <= u < p * f + p,
            p * g <= v < p * g + p,
            0 <= v <= u <= 32767 * p,
            p > 0,
    ;
    let h = f as i16;
    let i = g as i16;
    assert(0 <= i * i <= h * h <= 32767 * 32767) by (nonlinear_arith)
        requires
            0 <= i <= h <= 32767,
    ;
    lemma_q15(h, h);
    lemma_q15(i, i);
    let (na, da) = score(x, s, shift, a);
    let (nb, db) = score(x, s, shift, b);
    assert(0 <= nb <= na);
    assert(da <= db && da > 0);
    assert(nb * da <= na * db) by (nonlinear_arith)
        requires
            0 <= nb <= na,
            0 < da <= db,
    ;
}

/// Where two roundings of a stereo angle are tried the one is taken whose reconstruction
/// is more like the band.
pub proof fn law_better_rounding_is_taken(
    cfg: BandsInput,
    enc: EncState,
    ctx: BandCtx<'_>,
    p: BandPlan,
    x: Seq<i16>,
    y: Seq<i16>,
    left: i32,
    right: i32,
)
    ensures
        ({
            let best = best_tried(cfg, enc, ctx, p, x, y, left, right, true);
            let down = tried(cfg, enc, ctx, p, x, y, left, right, (-1) as i32);
            let up = tried(cfg, enc, ctx, p, x, y, left, right, 1);
            let w = weights_of(left, right);
            &&& best == down || best == up
            &&& likeness(x, y, best, w) >= likeness(x, y, down, w)
            &&& likeness(x, y, best, w) >= likeness(x, y, up, w)
        }),
        best_tried(cfg, enc, ctx, p, x, y, left, right, false) == tried(
            cfg,
            enc,
            ctx,
            p,
            x,
            y,
            left,
            right,
            0,
        ),
{
    reveal(best_tried);
}

/// Where one channel is silent the louder one stands for both; channels that can both be
/// heard stay as they are.
pub proof fn law_silent_channel_is_covered(x: Seq<i16>, y: Seq<i16>, left: i32, right: i32)
    ensures
        left >= 2 && right >= 2 ==> silence_covered(x, y, left, right) == (x, y),
        left < 2 && right > left ==> silence_covered(x, y, left, right) == (y, y),
        right < 2 && left > right ==> silence_covered(x, y, left, right) == (x, x),
{
}

/// The first threshold above a value.
proof fn lemma_first_above(value: i32, thresholds: Seq<i32>, from: int)
    requires
        0 <= from <= thresholds.len(),
    ensures
        from <= first_above(value, thresholds, from) <= thresholds.len(),
        first_above(value, thresholds, from) < thresholds.len() ==> value
            < thresholds[first_above(value, thresholds, from)],
        forall|i: int|
            from <= i < first_above(value, thresholds, from) ==> #[trigger] thresholds[i] <= value,
    decreases thresholds.len() - from,
{
    if from < thresholds.len() && value >= thresholds[from] {
        lemma_first_above(value, thresholds, from + 1);
    }
}

/// A value lies in the region between two thresholds. It is only put into the region
/// before instead while it has crossed the threshold of that region by less than the
/// hysteresis.
pub proof fn law_regions_are_kept_near_their_borders(
    value: i32,
    thresholds: Seq<i32>,
    hysteresis: Seq<i32>,
    prev: int,
)
    requires
        thresholds.len() == hysteresis.len(),
        0 <= prev <= thresholds.len(),
    ensures
        ({
            let r = hysteresis_region(value, thresholds, hysteresis, prev);
            &&& 0 <= r <= thresholds.len()
            &&& r != prev ==> {
                &&& r < thresholds.len() ==> value < thresholds[r]
                &&& forall|i: int| 0 <= i < r ==> #[trigger] thresholds[i] <= value
                &&& r > prev ==> value >= thresholds[prev] + hysteresis[prev]
                &&& r < prev ==> value <= thresholds[prev - 1] - hysteresis[prev - 1]
            }
            &&& (prev == 0 || value >= thresholds[prev - 1]) && (prev == thresholds.len() || value
                < thresholds[prev]) && (forall|i: int, j: int|
                0 <= i <= j < thresholds.len() ==> thresholds[i] <= thresholds[j]) ==> r == prev
            &&& prev < thresholds.len() && thresholds[prev] <= value < thresholds[prev]
                + hysteresis[prev] && (forall|i: int, j: int|
                0 <= i <= j < thresholds.len() ==> thresholds[i] <= thresholds[j]) ==> r == prev
        }),
{
    lemma_first_above(value, thresholds, 0);
}

/// Where a band has an angle the channels are turned into mid and side by the root of two,
/// and where the angle is zero they are mixed into one; without an angle they are mixed too,
/// the second one inverted where the measured angle lies beyond the middle and inversion is
/// allowed.
pub proof fn law_channels_are_turned(
    enc: EncState,
    ctx: BandCtx<'_>,
    x: Seq<i16>,
    y: Seq<i16>,
    n: int,
    b: i32,
    blocks: int,
    lm: int,
    left: i32,
    right: i32,
    fill: u32,
)
    ensures
        ({
            let w = channels_turned(enc, ctx, x, y, n, b, blocks, lm, left, right, fill);
            let angle = split_angle(x, y, true);
            let qn = ctx.resolution(n, b as int, lm, true);
            &&& w.t == theta_encoded(enc, ctx, angle, n, b, blocks, blocks, lm, true, fill)
            &&& qn != 1 && w.t.split.itheta != 0 ==> (w.x, w.y) == channels_split(x, y)
            &&& qn != 1 && w.t.split.itheta == 0 ==> w.x == channels_mixed(x, y, left, right)
            &&& qn == 1 && (angle <= 8192 || ctx.disable_inv) ==> w.x == channels_mixed(
                x,
                y,
                left,
                right,
            )
            &&& qn == 1 && angle > 8192 && !ctx.disable_inv ==> w.x == channels_mixed(
                x,
                all_negated(y),
                left,
                right,
            )
        }),
{
    reveal(channels_turned);
}

/// Each channel counts for the likeness of a reconstruction by its own weight: one without
/// weight does not count, and with equal weights the channels can be exchanged.
pub proof fn law_likeness_weighs_the_channels(
    x: Seq<i16>,
    y: Seq<i16>,
    c: CodedPair,
    swapped: CodedPair,
    w: i16,
)
    requires
        x.len() == y.len(),
        swapped.x == c.y,
        swapped.y == c.x,
    ensures
        likeness(x, y, c, (w, 0)) == mult16_32_q15(w, inner_product(x, c.x, x.len() as int)),
        likeness(x, y, c, (0, w)) == mult16_32_q15(w, inner_product(y, c.y, x.len() as int)),
        likeness(y, x, swapped, (w, w)) == likeness(x, y, c, (w, w)),
{
    lemma_no_weight(inner_product(x, c.x, x.len() as int));
    lemma_no_weight(inner_product(y, c.y, x.len() as int));
}

/// Nothing times a sum.
proof fn lemma_no_weight(v: i32)
    ensures
        mult16_32_q15(0, v) == 0,
{
    assert(0 * v == 0);
    lemma_q15_wide(0, v);
}

} // verus!
