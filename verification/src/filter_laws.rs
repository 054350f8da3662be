//! What the filters of post-processing and concealment do to a signal.

use vstd::arithmetic::power2::lemma2_to64;
use vstd::prelude::*;
use crate::band_stereo::negated;
use crate::collapse::{any_collapsed, block_filled, blocks_filled, collapsed, CollapseInput};
use crate::comb::{picked_up, sample_at, taps_of, CombParameters, Taps, TAP_GAINS};
use crate::decoder::DecoderState;
use crate::division_laws::{lemma_q15, lemma_q15_wide};
use crate::fixed::{mult16_16_q15, mult16_32_q15, shl32};
use crate::plc::{energy_ratio, fir_sum, iir_sum, int16tosig, Extrapolation};

verus! {

/// Nothing times anything is nothing.
proof fn lemma_nothing(g: i16)
    ensures
        mult16_32_q15(g, 0) == 0,
{
    assert(g * 0 == 0);
    lemma_q15_wide(g, 0);
}

/// Without gains the comb filter leaves a signal alone.
pub proof fn law_comb_without_gain(
    p: CombParameters,
    x: Seq<i32>,
    at: int,
    n: int,
    window: Seq<i16>,
    overlap: int,
    i: int,
)
    requires
        p.gain_from == 0,
        p.gain_to == 0,
        0 <= at,
        0 <= i,
        at + n <= x.len(),
    ensures
        p.filtered_in_place(x, at, n, window, overlap, i) == x,
    decreases n - i,
{
    if i < n {
        assert(x.update(at + i, x[at + i]) =~= x);
        law_comb_without_gain(p, x, at, n, window, overlap, i + 1);
    }
}

/// The comb filter changes nothing outside of its stretch.
pub proof fn law_comb_stays_in_its_stretch(
    p: CombParameters,
    x: Seq<i32>,
    at: int,
    n: int,
    window: Seq<i16>,
    overlap: int,
    i: int,
    k: int,
)
    requires
        0 <= at,
        0 <= i,
        at + n <= x.len(),
        0 <= k < x.len(),
        k < at + i || k >= at + n,
    ensures
        p.filtered_in_place(x, at, n, window, overlap, i).len() == x.len(),
        p.filtered_in_place(x, at, n, window, overlap, i)[k] == x[k],
    decreases n - i,
{
    if i < n {
        let y = x.update(at + i, p.filtered_sample(x, at, i, window, overlap));
        law_comb_stays_in_its_stretch(p, y, at, n, window, overlap, i + 1, k);
    }
}

/// The taps of the comb filter: a single sample is heard again one period later with the
/// gain of the centre, and around that with the gains of the near and the far taps, and
/// nowhere else.
pub proof fn law_comb_repeats_after_a_period(x: Seq<i32>, q: int, at: int, t: Taps)
    requires
        0 <= q < x.len(),
        forall|i: int| 0 <= i < x.len() && i != q ==> #[trigger] x[i] == 0,
    ensures
        ({
            let heard = picked_up(x, at, t, None);
            let late = at - q - t.period;
            &&& late == 0 ==> heard == mult16_32_q15(t.centre, x[q])
            &&& late == 1 || late == -1 ==> heard == mult16_32_q15(t.near, x[q])
            &&& late == 2 || late == -2 ==> heard == mult16_32_q15(t.far, x[q])
            &&& late < -2 || late > 2 ==> heard == 0
        }),
{
    lemma_nothing(t.centre);
    lemma_nothing(t.near);
    lemma_nothing(t.far);
    let p = at - t.period;
    assert forall|k: int| k != q implies #[trigger] sample_at(x, k) == 0 by {
    }
    assert(sample_at(x, q) == x[q]);
}

/// The taps of each tap set add up to one, and without a gain there are none.
pub proof fn law_taps_add_up(period: i32, tapset: i32)
    requires
        0 <= tapset <= 2,
    ensures
        TAP_GAINS@[tapset as int]@[0] + 2 * TAP_GAINS@[tapset as int]@[1] + 2
            * TAP_GAINS@[tapset as int]@[2] == 32768,
        taps_of(period, 0, tapset).period >= 15,
        period >= 15 ==> taps_of(period, 0, tapset).period == period,
{
    assert(tapset == 0 || tapset == 1 || tapset == 2);
}

/// Where a setting does not change the filter adds what the taps pick up to each sample.
pub proof fn law_comb_adds_to_each_sample(
    p: CombParameters,
    x: Seq<i32>,
    at: int,
    i: int,
    window: Seq<i16>,
    overlap: int,
)
    requires
        p.gain_from == p.gain_to,
        p.period_from == p.period_to,
        p.tapset_from == p.tapset_to,
        p.gain_to != 0,
        0 <= i,
        0 <= at + i < x.len(),
        ({
            let sum = x[at + i] + picked_up(
                x,
                at + i,
                taps_of(p.period_to, p.gain_to, p.tapset_to),
                None,
            );
            -0x1fff_ffff < sum < 0x1fff_ffff
        }),
    ensures
        p.filtered_sample(x, at, i, window, overlap) == x[at + i] + picked_up(
            x,
            at + i,
            taps_of(p.period_to, p.gain_to, p.tapset_to),
            None,
        ) - 1,
{
}

/// The prediction filter and the recursive filter undo each other: fed with a prediction
/// error and the samples before it, the recursion gives the sample back.
pub proof fn law_recursion_undoes_prediction(
    x: Seq<i16>,
    lpc: Seq<i16>,
    mem: Seq<i16>,
    i: int,
    n: int,
)
    requires
        0 <= n <= lpc.len(),
        n <= mem.len(),
        n <= i < x.len(),
        forall|k: int| 0 <= k < n ==> #[trigger] mem[k] == x[i - 1 - k],
    ensures
        iir_sum(fir_sum(x, lpc, i, n), lpc, mem, n) == shl32(x[i] as i32, 12),
    decreases n,
{
    if n > 0 {
        law_recursion_undoes_prediction(x, lpc, mem, i, n - 1);
        let c = crate::fixed::mult16_16(lpc[n - 1], x[i - n]);
        assert(mem[n - 1] == x[i - 1 - (n - 1)]);
        lemma_recursion_moves(fir_sum(x, lpc, i, n - 1), c, lpc, mem, n - 1);
    }
}

/// What is added in front of the recursion is added behind it.
proof fn lemma_recursion_moves(v: i32, c: i32, lpc: Seq<i16>, mem: Seq<i16>, n: int)
    ensures
        iir_sum(v.wrapping_add(c), lpc, mem, n) == iir_sum(v, lpc, mem, n).wrapping_add(c),
    decreases n,
{
    if n > 0 {
        lemma_recursion_moves(v, c, lpc, mem, n - 1);
    }
}

/// The gain of a continued pitch falls from period to period.
pub proof fn law_continuation_fades(e: Extrapolation, decay: i16, i: int)
    requires
        e.pitch >= 1,
        e.fade >= 0,
        decay >= 0,
        0 <= i,
    ensures
        0 <= e.attenuation(decay, i) <= e.fade,
        e.attenuation(decay, i + e.pitch) <= e.attenuation(decay, i),
        0 <= e.attenuation(decay, i + e.pitch),
    decreases i,
{
    if i >= e.pitch {
        law_continuation_fades(e, decay, i - e.pitch);
    } else {
        lemma_faded(e.fade, decay);
    }
    lemma_faded(e.attenuation(decay, i), decay);
}

/// A gain times a fraction.
proof fn lemma_faded(g: i16, decay: i16)
    requires
        0 <= g,
        0 <= decay,
    ensures
        0 <= mult16_16_q15(g, decay) <= g,
{
    assert(0 <= g * decay <= g * 32767) by (nonlinear_arith)
        requires
            0 <= g,
            0 <= decay <= 32767,
    ;
    lemma_q15(g, decay);
}

/// A continued excitation repeats the last period of the history, and is not louder one
/// period later: each sample keeps its sign and shrinks.
pub proof fn law_continuation_repeats_the_period(e: Extrapolation, mem: Seq<i32>, lpc: Seq<i16>, i: int)
    requires
        e.wf(),
        e.fade >= 0,
        0 <= i,
        i + e.pitch < e.n + e.overlap,
    ensures
        ({
            let y = e.continued(mem, lpc);
            &&& y.len() == e.n + e.overlap
            &&& e.decay(mem, lpc) >= 0 && y[i] >= 0 ==> 0 <= y[i + e.pitch] <= y[i]
            &&& e.decay(mem, lpc) >= 0 && y[i] < 0 ==> y[i] <= y[i + e.pitch] <= 0
        }),
{
    let y = e.continued(mem, lpc);
    let decay = e.decay(mem, lpc);
    if decay >= 0 {
        law_continuation_fades(e, decay, i);
        let g = e.attenuation(decay, i);
        let h = e.attenuation(decay, i + e.pitch);
        vstd::arithmetic::div_mod::lemma_mod_add_multiples_vanish(i, e.pitch);
        assert((i + e.pitch) % e.pitch == i % e.pitch);
        let w = e.excitation(mem, lpc)[1048 - e.pitch + i % e.pitch];
        if w >= 0 {
            assert(0 <= h * w <= g * w <= 32767 * 32767) by (nonlinear_arith)
                requires
                    0 <= h <= g <= 32767,
                    0 <= w <= 32767,
            ;
        } else {
            assert(-32768 * 32767 <= g * w <= h * w <= 0) by (nonlinear_arith)
                requires
                    0 <= h <= g <= 32767,
                    -32768 <= w < 0,
            ;
        }
        lemma_q15(g, w);
        lemma_q15(h, w);
        lemma_as_signal(mult16_16_q15(g, w));
        lemma_as_signal(mult16_16_q15(h, w));
    }
}

/// A word as a signal.
proof fn lemma_as_signal(v: i16)
    ensures
        int16tosig(v) == 4096 * v,
{
    let w = v as i32;
    assert(-32768 <= w <= 32767 ==> (((w as u32) << 12u32) as i32) == 4096 * w) by (bit_vector);
}

/// A continued frame that is not louder than the last period stays as it is; one of more
/// than four times its energy is silenced.
pub proof fn law_loud_continuations_are_tamed(
    e: Extrapolation,
    y: Seq<i32>,
    s1: i32,
    s2: i32,
    window: Seq<i16>,
    i: int,
)
    requires
        0 <= i < y.len(),
        0 <= s1,
        0 <= s2,
    ensures
        ({
            let r = e.tamed(y, s1, s2, window);
            &&& r.len() == y.len()
            &&& s2 <= s1 && s1 > 0 ==> r == y
            &&& 4 * s1 < s2 ==> r[i] == 0
        }),
{
    lemma2_to64();
    crate::division_laws::lemma_shr(s2, 2);
}

/// The history moves up by the continued frame, and keeps what it keeps.
pub proof fn law_continuation_moves_the_history(
    e: Extrapolation,
    mem: Seq<i32>,
    lpc: Seq<i16>,
    window: Seq<i16>,
    i: int,
)
    requires
        e.wf(),
        e.n <= i < 2048,
        mem.len() >= 2048,
    ensures
        e.extrapolated(mem, lpc, window).len() == mem.len(),
        e.extrapolated(mem, lpc, window)[i - e.n] == mem[i],
{
}

/// A loss goes on at full gain first, and at four fifths of it in later frames.
pub proof fn law_later_losses_are_quieter(s: DecoderState, t: DecoderState, n: int, lag: i32)
    requires
        s.loss_duration == 0,
        t.loss_duration != 0,
    ensures
        s.extrapolation(n, lag).fade == 32767,
        -5 <= 5 * t.extrapolation(n, lag).fade - 4 * 32768 <= 5,
        s.extrapolation(n, lag).pitch == lag,
        s.extrapolation(n, lag).n == n,
{
}

/// Bands without a collapsed block are left alone by anti-collapse, and draw no noise.
pub proof fn law_live_bands_stay(c: CollapseInput, x: Seq<i16>, seed: u32, band: int, channel: int)
    requires
        ({
            let m = crate::band_tf::scale_of(c.lm as int);
            forall|k: int|
                0 <= k < m ==> !#[trigger] collapsed(c.masks[band * c.channels + channel], k)
        }),
    ensures
        c.band_filled(x, seed, band, channel) == (x, seed),
{
    let m = crate::band_tf::scale_of(c.lm as int);
    let mask = c.masks[band * c.channels + channel];
    let at = channel * c.size() + m * c.mode.edge(band);
    lemma_no_collapse(
        x,
        at,
        m,
        mask,
        c.mode.width(band),
        c.amplitude(band, channel),
        seed,
        0,
    );
}

/// No block is filled where none has collapsed.
proof fn lemma_no_collapse(
    x: Seq<i16>,
    at: int,
    m: int,
    mask: u8,
    width: int,
    r: i16,
    seed: u32,
    k: int,
)
    requires
        0 <= k,
        forall|i: int| 0 <= i < m ==> !#[trigger] collapsed(mask, i),
    ensures
        blocks_filled(x, at, m, mask, width, r, seed, k) == (x, seed),
        !any_collapsed(mask, m, k),
    decreases m - k,
{
    if k < m {
        lemma_no_collapse(x, at, m, mask, width, r, seed, k + 1);
    }
}

/// A collapsed block is filled with noise of one magnitude, and nothing else is touched.
pub proof fn law_collapsed_block_is_filled(
    x: Seq<i16>,
    at: int,
    m: int,
    k: int,
    width: int,
    r: i16,
    seed: u32,
    j: int,
    i: int,
)
    requires
        0 <= at,
        1 <= m,
        0 <= k < m,
        0 <= j <= width,
        at + width * m <= x.len(),
        0 <= i < x.len(),
    ensures
        ({
            let y = block_filled(x, at, m, k, width, r, seed, j);
            let inside = at + j * m <= i < at + width * m && (i - at) % m == k;
            &&& y.len() == x.len()
            &&& inside ==> y[i] == r || y[i] == negated(r)
            &&& !inside ==> y[i] == x[i]
        }),
    decreases width - j,
{
    if j < width {
        let next = crate::bands::celt_lcg_rand(seed);
        let here = at + j * m + k;
        assert((j + 1) * m == j * m + m && (j + 1) * m <= width * m) by (nonlinear_arith)
            requires
                j + 1 <= width,
                m >= 1,
        ;
        assert(0 <= j * m) by (nonlinear_arith)
            requires
                0 <= j,
                1 <= m,
        ;
        let y = x.update(here, if next & 0x8000 != 0 { r } else { negated(r) });
        law_collapsed_block_is_filled(y, at, m, k, width, r, next, j + 1, i);
        vstd::arithmetic::div_mod::lemma_fundamental_div_mod_converse(here - at, m, j, k);
        if at + j * m <= i < at + (j + 1) * m {
            vstd::arithmetic::div_mod::lemma_fundamental_div_mod_converse(
                i - at,
                m,
                j,
                i - at - j * m,
            );
        }
    }
}

/// A frame that is louder than the last period is only ever made quieter, and keeps the
/// signs of its samples.
pub proof fn law_taming_never_amplifies(
    e: Extrapolation,
    y: Seq<i32>,
    s1: i32,
    s2: i32,
    window: Seq<i16>,
    i: int,
)
    requires
        0 <= i < y.len(),
        e.overlap <= window.len(),
        forall|k: int| 0 <= k < window.len() ==> 0 <= #[trigger] window[k],
        0 <= energy_ratio(s1, s2),
        y[i] >= -0x7fff_ffff,
    ensures
        ({
            let r = e.tamed(y, s1, s2, window);
            &&& y[i] >= 0 ==> 0 <= r[i] <= y[i]
            &&& y[i] <= 0 ==> y[i] <= r[i] <= 0
        }),
{
    let ratio = energy_ratio(s1, s2);
    let rest = crate::fixed::Q15_ONE.wrapping_sub(ratio);
    assert(0 <= rest <= 32767);
    if i < e.overlap {
        let w = window[i];
        lemma_faded(w, rest);
        let g = crate::fixed::Q15_ONE.wrapping_sub(mult16_16_q15(w, rest));
        assert(0 <= g <= 32767);
        lemma_quieter(g, y[i]);
    }
    lemma_quieter(ratio, y[i]);
}

/// A gain below one.
proof fn lemma_quieter(g: i16, v: i32)
    requires
        0 <= g,
        v >= -0x7fff_ffff,
    ensures
        v >= 0 ==> 0 <= mult16_32_q15(g, v) <= v,
        v <= 0 ==> v <= mult16_32_q15(g, v) <= 0,
{
    if v >= 0 {
        assert(0 <= g * v <= 32767 * v) by (nonlinear_arith)
            requires
                0 <= g <= 32767,
                0 <= v,
        ;
    } else {
        assert(32767 * v <= g * v <= 0) by (nonlinear_arith)
            requires
                0 <= g <= 32767,
                v <= 0,
        ;
    }
    lemma_q15_wide(g, v);
}

} // verus!
