//! The spreading decision of the encoder.

use vstd::prelude::*;
use crate::mode::OpusCustomMode;
use crate::pvq::{SPREAD_AGGRESSIVE, SPREAD_LIGHT, SPREAD_NONE, SPREAD_NORMAL};
use crate::spectrum::{band_edge, lemma_row, lemma_scaled_edges};

verus! {

/// How many coefficients of a band have an energy below a quarter, a sixteenth
/// and a sixty-fourth of the mean.
#[derive(Clone, Copy)]
pub struct BandCounts {
    pub quarter: u32,
    pub sixteenth: u32,
    pub sixty_fourth: u32,
}

/// Sums over the bands of all channels.
#[derive(Clone, Copy)]
pub struct SpreadSums {
    /// Weighted scores.
    pub score: i32,
    /// Weights.
    pub weight: i32,
    /// Tonality of the highest bands.
    pub high: i32,
}

/// How many of the three thresholds at least half of the coefficients undercut.
pub open spec fn band_score(t: BandCounts, n: int) -> int {
    (if 2 * t.sixty_fourth >= n { 1int } else { 0 }) + (if 2 * t.sixteenth >= n { 1int } else { 0 })
        + (if 2 * t.quarter >= n { 1int } else { 0 })
}

/// Sums after one band of `n` coefficients; narrow bands do not count.
pub open spec fn band_counted(
    s: SpreadSums,
    t: BandCounts,
    n: int,
    weight: i32,
    high: bool,
) -> SpreadSums {
    if n <= 8 {
        s
    } else {
        SpreadSums {
            score: s.score.wrapping_add((band_score(t, n) as i32).wrapping_mul(weight)),
            weight: s.weight.wrapping_add(weight),
            high: if high {
                s.high.wrapping_add(((32 * (t.sixteenth + t.quarter)) / n) as i32)
            } else {
                s.high
            },
        }
    }
}

/// Sums over the bands of a channel from `band` up to `end`; `at` is the place of
/// the channel in the counts.
pub open spec fn channel_counted(
    mode: OpusCustomMode,
    counts: Seq<BandCounts>,
    weights: Seq<i32>,
    end: int,
    m: int,
    at: int,
    band: int,
    s: SpreadSums,
) -> SpreadSums
    decreases end - band,
{
    if band >= end {
        s
    } else {
        channel_counted(
            mode,
            counts,
            weights,
            end,
            m,
            at,
            band + 1,
            band_counted(
                s,
                counts[at + band],
                m * mode.width(band),
                weights[band],
                band + 4 > mode.num_ebands,
            ),
        )
    }
}

/// Sums over the channels from `c` on.
pub open spec fn spread_counted(
    mode: OpusCustomMode,
    counts: Seq<BandCounts>,
    weights: Seq<i32>,
    end: int,
    channels: int,
    m: int,
    c: int,
    s: SpreadSums,
) -> SpreadSums
    decreases channels - c,
{
    if c >= channels {
        s
    } else {
        spread_counted(
            mode,
            counts,
            weights,
            end,
            channels,
            m,
            c + 1,
            channel_counted(mode, counts, weights, end, m, c * end, 0, s),
        )
    }
}

/// Smoothed tonality of the highest bands.
pub open spec fn high_average(high: i32, average: i32, channels: int, bands: int, end: int) -> i32 {
    let denom = channels * (4 - bands + end);
    let mean = if high == 0 {
        0
    } else if denom > 0 {
        ((high as u32) as int / denom) as i32
    } else {
        0
    };
    average.wrapping_add(mean) >> 1u32
}

/// Tap set chosen from the smoothed tonality, with hysteresis around the last
/// choice.
pub open spec fn tapset_chosen(average: i32, last: i32) -> i32 {
    let biased = if last == 2 {
        average.wrapping_add(4)
    } else if last == 0 {
        average.wrapping_sub(4)
    } else {
        average
    };
    if biased > 22 {
        2
    } else if biased > 18 {
        1
    } else {
        0
    }
}

/// Smoothed spreading score.
pub open spec fn spread_average(s: SpreadSums, average: i32) -> i32 {
    let mean = ((((s.score as i64) << 8u32) as u32) / (s.weight as u32)) as i32;
    mean.wrapping_add(average) >> 1u32
}

/// Spreading decision from the smoothed score, with hysteresis around the last
/// decision.
pub open spec fn spread_chosen(average: i32, last: i32) -> i32 {
    let hysteresis = (3i32.wrapping_sub(last) << 7u32).wrapping_add(64);
    let sum = average.wrapping_mul(3).wrapping_add(hysteresis).wrapping_add(2) >> 2u32;
    if sum < 80 {
        SPREAD_AGGRESSIVE
    } else if sum < 256 {
        SPREAD_NORMAL
    } else if sum < 384 {
        SPREAD_LIGHT
    } else {
        SPREAD_NONE
    }
}

/// Sums over all bands of a frame.
pub open spec fn spread_sums(
    mode: OpusCustomMode,
    counts: Seq<BandCounts>,
    weights: Seq<i32>,
    end: int,
    channels: int,
    m: int,
) -> SpreadSums {
    spread_counted(
        mode,
        counts,
        weights,
        end,
        channels,
        m,
        0,
        SpreadSums { score: 0, weight: 0, high: 0 },
    )
}

/// Computes [`band_counted`].
fn count_band(s: SpreadSums, t: BandCounts, n: usize, weight: i32, high: bool) -> (r: SpreadSums)
    requires
        n <= 2048,
        t.quarter <= n,
        t.sixteenth <= n,
        t.sixty_fourth <= n,
    ensures
        r == band_counted(s, t, n as int, weight, high),
{
    if n <= 8 {
        return s;
    }
    let width: u32 = n as u32;
    let score: i32 = (if 2 * t.sixty_fourth >= width { 1i32 } else { 0 }) + (if 2 * t.sixteenth
        >= width { 1i32 } else { 0 }) + (if 2 * t.quarter >= width { 1i32 } else { 0 });
    let tonal: u32 = (32 * (t.sixteenth + t.quarter)) / width;
    SpreadSums {
        score: s.score.wrapping_add(score.wrapping_mul(weight)),
        weight: s.weight.wrapping_add(weight),
        high: if high { s.high.wrapping_add(tonal as i32) } else { s.high },
    }
}

/// The counts are those of bands of the given sizes.
pub open spec fn counts_fit(
    mode: OpusCustomMode,
    counts: Seq<BandCounts>,
    end: int,
    channels: int,
    m: int,
) -> bool {
    &&& counts.len() == channels * end
    &&& forall|c: int, band: int|
        0 <= c < channels && 0 <= band < end ==> #[trigger] count_fits(mode, counts, end, m, c, band)
}

/// The counts of a band do not exceed its size.
pub open spec fn count_fits(
    mode: OpusCustomMode,
    counts: Seq<BandCounts>,
    end: int,
    m: int,
    c: int,
    band: int,
) -> bool {
    let t = counts[c * end + band];
    let n = m * mode.width(band);
    t.quarter <= n && t.sixteenth <= n && t.sixty_fourth <= n
}

/// Sums the scores of all bands of a frame.
fn sum_scores(
    mode: &OpusCustomMode,
    counts: &Vec<BandCounts>,
    weights: &Vec<i32>,
    end: usize,
    channels: usize,
    m: usize,
) -> (s: SpreadSums)
    requires
        mode.spectrum_wf(),
        end <= mode.num_ebands,
        end <= weights@.len(),
        1 <= m <= 8,
        counts_fit(*mode, counts@, end as int, channels as int, m as int),
    ensures
        s == spread_sums(*mode, counts@, weights@, end as int, channels as int, m as int),
{
    assert(counts@.len() == counts.len());
    let mut s: SpreadSums = SpreadSums { score: 0, weight: 0, high: 0 };
    let ghost zero = s;
    let mut c: usize = 0;
    while c < channels
        invariant
            mode.spectrum_wf(),
            end <= mode.num_ebands,
            end <= weights@.len(),
            1 <= m <= 8,
            counts_fit(*mode, counts@, end as int, channels as int, m as int),
            counts@.len() == counts.len(),
            c <= channels,
            spread_counted(
                *mode,
                counts@,
                weights@,
                end as int,
                channels as int,
                m as int,
                c as int,
                s,
            ) == spread_counted(
                *mode,
                counts@,
                weights@,
                end as int,
                channels as int,
                m as int,
                0,
                zero,
            ),
        decreases channels - c,
    {
        proof {
            lemma_row(c as int, channels as int, end as int);
        }
        let at: usize = c * end;
        let ghost s1 = s;
        let mut band: usize = 0;
        while band < end
            invariant
                mode.spectrum_wf(),
                end <= mode.num_ebands,
                end <= weights@.len(),
                1 <= m <= 8,
                counts_fit(*mode, counts@, end as int, channels as int, m as int),
                counts@.len() == counts.len(),
                c < channels,
                at == c * end,
                at + end <= counts@.len(),
                band <= end,
                channel_counted(
                    *mode,
                    counts@,
                    weights@,
                    end as int,
                    m as int,
                    at as int,
                    band as int,
                    s,
                ) == channel_counted(
                    *mode,
                    counts@,
                    weights@,
                    end as int,
                    m as int,
                    at as int,
                    0,
                    s1,
                ),
            decreases end - band,
        {
            proof {
                lemma_scaled_edges(*mode, m as int, band as int, band + 1);
                assert(count_fits(*mode, counts@, end as int, m as int, c as int, band as int));
                assert(mode.num_ebands <= 25);
            }
            let from: usize = band_edge(mode, m, band);
            let to: usize = band_edge(mode, m, band + 1);
            s = count_band(s, counts[at + band], to - from, weights[band], band + 4 > mode.num_ebands);
            band = band + 1;
        }
        c = c + 1;
    }
    s
}

/// Number of the `n` coefficients behind `at` whose energy stays below `limit`
/// when it is compared with the mean of `width` coefficients.
pub open spec fn small_count(x: Seq<i16>, at: int, n: int, width: int, limit: int) -> int
    decreases n,
{
    if n <= 0 {
        0
    } else {
        small_count(x, at, n - 1, width, limit) + if x[at + n - 1] * x[at + n - 1] * width < limit {
            1int
        } else {
            0
        }
    }
}

/// Counts of a band of `n` Q14 coefficients behind `at`.
pub open spec fn band_counts(x: Seq<i16>, at: int, n: int) -> BandCounts {
    BandCounts {
        quarter: small_count(x, at, n, n, 0x4000000) as u32,
        sixteenth: small_count(x, at, n, n, 0x1000000) as u32,
        sixty_fourth: small_count(x, at, n, n, 0x400000) as u32,
    }
}

/// Counts of the bands up to `end` of all channels.
pub open spec fn counts_of(mode: OpusCustomMode, x: Seq<i16>, end: int, channels: int, m: int) -> Seq<
    BandCounts,
> {
    Seq::new(
        (channels * end) as nat,
        |i: int|
            band_counts(
                x,
                (i / end) * (m * mode.short_mdct_size) + m * mode.edge(i % end),
                m * mode.width(i % end),
            ),
    )
}

/// Computes [`band_counts`].
fn count_small(x: &Vec<i16>, at: usize, n: usize) -> (t: BandCounts)
    requires
        at + n <= x@.len(),
        n <= 2048,
    ensures
        t == band_counts(x@, at as int, n as int),
        t.quarter <= n,
        t.sixteenth <= n,
        t.sixty_fourth <= n,
{
    let total: usize = x.len();
    let mut quarter: u32 = 0;
    let mut sixteenth: u32 = 0;
    let mut sixty_fourth: u32 = 0;
    let mut k: usize = 0;
    while k < n
        invariant
            k <= n <= 2048,
            at + n <= x@.len(),
            total == x@.len(),
            quarter == small_count(x@, at as int, k as int, n as int, 0x4000000),
            sixteenth == small_count(x@, at as int, k as int, n as int, 0x1000000),
            sixty_fourth == small_count(x@, at as int, k as int, n as int, 0x400000),
            quarter <= k,
            sixteenth <= k,
            sixty_fourth <= k,
        decreases n - k,
    {
        let v: i64 = x[at + k] as i64;
        assert(0 <= v * v <= 0x40000000) by (nonlinear_arith)
            requires
                -32768 <= v <= 32767,
        ;
        let square: i64 = v * v;
        assert(0 <= square * n <= 0x40000000 * 2048) by (nonlinear_arith)
            requires
                0 <= square <= 0x40000000,
                0 <= n <= 2048,
        ;
        let energy: i64 = square * n as i64;
        if energy < 0x4000000 {
            quarter = quarter + 1;
        }
        if energy < 0x1000000 {
            sixteenth = sixteenth + 1;
        }
        if energy < 0x400000 {
            sixty_fourth = sixty_fourth + 1;
        }
        k = k + 1;
    }
    BandCounts { quarter, sixteenth, sixty_fourth }
}

/// Computes [`counts_of`].
pub fn count_bands(mode: &OpusCustomMode, x: &Vec<i16>, end: usize, channels: usize, m: usize) -> (r:
    Vec<BandCounts>)
    requires
        mode.spectrum_wf(),
        0 < end <= mode.num_ebands,
        1 <= m <= 8,
        channels <= 255,
        channels * (m * mode.short_mdct_size) <= x@.len(),
    ensures
        r@ == counts_of(*mode, x@, end as int, channels as int, m as int),
        counts_fit(*mode, r@, end as int, channels as int, m as int),
{
    let mut r: Vec<BandCounts> = Vec::new();
    let ghost all = counts_of(*mode, x@, end as int, channels as int, m as int);
    proof {
        assert(m * mode.short_mdct_size <= 2048) by (nonlinear_arith)
            requires
                m <= 8,
                mode.short_mdct_size <= 256,
        ;
        assert(channels * end >= 0) by (nonlinear_arith)
            requires
                channels >= 0,
                end >= 0,
        ;
    }
    let size: usize = m * mode.short_mdct_size;
    let total: usize = x.len();
    let mut c: usize = 0;
    while c < channels
        invariant
            mode.spectrum_wf(),
            0 < end <= mode.num_ebands,
            1 <= m <= 8,
            c <= channels <= 255,
            size == m * mode.short_mdct_size,
            size <= 2048,
            channels * size <= x@.len(),
            total == x@.len(),
            all == counts_of(*mode, x@, end as int, channels as int, m as int),
            all.len() == channels * end,
            r@.len() == c * end,
            r@ == all.take(c * end),
            forall|a: int, b: int|
                0 <= a < c && 0 <= b < end ==> #[trigger] count_fits(
                    *mode,
                    all,
                    end as int,
                    m as int,
                    a,
                    b,
                ),
        decreases channels - c,
    {
        proof {
            lemma_row(c as int, channels as int, end as int);
            lemma_row(c as int, channels as int, size as int);
        }
        let row: usize = c * size;
        let mut band: usize = 0;
        while band < end
            invariant
                mode.spectrum_wf(),
                0 < end <= mode.num_ebands,
                1 <= m <= 8,
                c < channels <= 255,
                size == m * mode.short_mdct_size,
                size <= 2048,
                row == c * size,
                row + size <= x@.len(),
                total == x@.len(),
                band <= end,
                all == counts_of(*mode, x@, end as int, channels as int, m as int),
                all.len() == channels * end,
                0 <= c * end,
                c * end + end <= channels * end,
                r@ == all.take(c * end + band),
                forall|a: int, b: int|
                    0 <= a <= c && 0 <= b < (if a < c { end } else { band })
                        ==> #[trigger] count_fits(*mode, all, end as int, m as int, a, b),
            decreases end - band,
        {
            proof {
                lemma_scaled_edges(*mode, m as int, band as int, band + 1);
                lemma_scaled_edges(*mode, m as int, band + 1, mode.num_ebands as int);
                assert(m * mode.edge(mode.num_ebands as int) <= size) by (nonlinear_arith)
                    requires
                        mode.edge(mode.num_ebands as int) <= mode.short_mdct_size,
                        m >= 0,
                        size == m * mode.short_mdct_size,
                ;
            }
            let from: usize = band_edge(mode, m, band);
            let to: usize = band_edge(mode, m, band + 1);
            let t: BandCounts = count_small(x, row + from, to - from);
            proof {
                let i = c * end + band;
                vstd::arithmetic::div_mod::lemma_fundamental_div_mod_converse(
                    i,
                    end as int,
                    c as int,
                    band as int,
                );
                assert(m * mode.width(band as int) == to - from) by (nonlinear_arith)
                    requires
                        to == m * mode.edge(band + 1),
                        from == m * mode.edge(band as int),
                        mode.width(band as int) == mode.edge(band + 1) - mode.edge(band as int),
                ;
                assert(t == all[i]);
                assert(count_fits(*mode, all, end as int, m as int, c as int, band as int));
                assert(all.take(i + 1) =~= all.take(i).push(all[i]));
            }
            r.push(t);
            band = band + 1;
        }
        assert((c + 1) * end == c * end + end) by (nonlinear_arith);
        c = c + 1;
    }
    assert(all.take(channels * end) =~= all);
    r
}

/// Decides how far pulses are spread, from the counts of the bands.
pub fn spread_from_counts(
    mode: &OpusCustomMode,
    counts: &Vec<BandCounts>,
    average: &mut i32,
    last_decision: i32,
    hf_average: &mut i32,
    tapset_decision: &mut i32,
    update_hf: bool,
    end: usize,
    channels: usize,
    m: usize,
    spread_weight: &Vec<i32>,
) -> (decision: i32)
    requires
        mode.spectrum_wf(),
        0 < end <= mode.num_ebands,
        end <= spread_weight@.len(),
        1 <= m <= 8,
        channels <= 255,
        counts_fit(*mode, counts@, end as int, channels as int, m as int),
        m * mode.width(end - 1) > 8 ==> spread_sums(
            *mode,
            counts@,
            spread_weight@,
            end as int,
            channels as int,
            m as int,
        ).weight > 0,
    ensures
        m * mode.width(end - 1) <= 8 ==> {
            &&& decision == SPREAD_NONE
            &&& *final(average) == *old(average)
            &&& *final(hf_average) == *old(hf_average)
            &&& *final(tapset_decision) == *old(tapset_decision)
        },
        m * mode.width(end - 1) > 8 ==> {
            let s = spread_sums(
                *mode,
                counts@,
                spread_weight@,
                end as int,
                channels as int,
                m as int,
            );
            &&& *final(average) == spread_average(s, *old(average))
            &&& decision == spread_chosen(*final(average), last_decision)
            &&& *final(hf_average) == (if update_hf {
                high_average(
                    s.high,
                    *old(hf_average),
                    channels as int,
                    mode.num_ebands as int,
                    end as int,
                )
            } else {
                *old(hf_average)
            })
            &&& *final(tapset_decision) == (if update_hf {
                tapset_chosen(*final(hf_average), *old(tapset_decision))
            } else {
                *old(tapset_decision)
            })
        },
{
    proof {
        lemma_scaled_edges(*mode, m as int, end - 1, end as int);
        assert(mode.num_ebands <= 25);
    }
    let width: usize = band_edge(mode, m, end) - band_edge(mode, m, end - 1);
    if width <= 8 {
        return SPREAD_NONE;
    }
    let s: SpreadSums = sum_scores(mode, counts, spread_weight, end, channels, m);
    if update_hf {
        let span: i32 = 4 - mode.num_ebands as i32 + end as i32;
        assert(-255 * 25 <= channels * span <= 255 * 25) by (nonlinear_arith)
            requires
                0 <= channels <= 255,
                -25 <= span <= 25,
        ;
        let denom: i32 = channels as i32 * span;
        let mean: i32 = if s.high == 0 {
            0
        } else if denom > 0 {
            (s.high as u32 / denom as u32) as i32
        } else {
            0
        };
        *hf_average = hf_average.wrapping_add(mean) >> 1u32;
        let biased: i32 = if *tapset_decision == 2 {
            hf_average.wrapping_add(4)
        } else if *tapset_decision == 0 {
            hf_average.wrapping_sub(4)
        } else {
            *hf_average
        };
        *tapset_decision = if biased > 22 {
            2
        } else if biased > 18 {
            1
        } else {
            0
        };
    }
    let mean: i32 = ((((s.score as i64) << 8u32) as u32) / (s.weight as u32)) as i32;
    *average = mean.wrapping_add(*average) >> 1u32;
    let hysteresis: i32 = (3i32.wrapping_sub(last_decision) << 7u32).wrapping_add(64);
    let sum: i32 = average.wrapping_mul(3).wrapping_add(hysteresis).wrapping_add(2) >> 2u32;
    if sum < 80 {
        SPREAD_AGGRESSIVE
    } else if sum < 256 {
        SPREAD_NORMAL
    } else if sum < 384 {
        SPREAD_LIGHT
    } else {
        SPREAD_NONE
    }
}

/// Decides how far pulses are spread, from how concentrated the bands of a
/// normalised spectrum are.
///
/// Spectra whose last band has at most eight coefficients are not analysed.
pub fn spreading_decision(
    mode: &OpusCustomMode,
    x: &Vec<i16>,
    average: &mut i32,
    last_decision: i32,
    hf_average: &mut i32,
    tapset_decision: &mut i32,
    update_hf: bool,
    end: usize,
    channels: usize,
    m: usize,
    spread_weight: &Vec<i32>,
) -> (decision: i32)
    requires
        mode.spectrum_wf(),
        0 < end <= mode.num_ebands,
        end <= spread_weight@.len(),
        1 <= m <= 8,
        channels <= 255,
        channels * (m * mode.short_mdct_size) <= x@.len(),
        m * mode.width(end - 1) > 8 ==> spread_sums(
            *mode,
            counts_of(*mode, x@, end as int, channels as int, m as int),
            spread_weight@,
            end as int,
            channels as int,
            m as int,
        ).weight > 0,
    ensures
        m * mode.width(end - 1) <= 8 ==> {
            &&& decision == SPREAD_NONE
            &&& *final(average) == *old(average)
            &&& *final(hf_average) == *old(hf_average)
            &&& *final(tapset_decision) == *old(tapset_decision)
        },
        m * mode.width(end - 1) > 8 ==> {
            let s = spread_sums(
                *mode,
                counts_of(*mode, x@, end as int, channels as int, m as int),
                spread_weight@,
                end as int,
                channels as int,
                m as int,
            );
            &&& *final(average) == spread_average(s, *old(average))
            &&& decision == spread_chosen(*final(average), last_decision)
            &&& *final(hf_average) == (if update_hf {
                high_average(
                    s.high,
                    *old(hf_average),
                    channels as int,
                    mode.num_ebands as int,
                    end as int,
                )
            } else {
                *old(hf_average)
            })
            &&& *final(tapset_decision) == (if update_hf {
                tapset_chosen(*final(hf_average), *old(tapset_decision))
            } else {
                *old(tapset_decision)
            })
        },
{
    let counts: Vec<BandCounts> = count_bands(mode, x, end, channels, m);
    spread_from_counts(
        mode,
        &counts,
        average,
        last_decision,
        hf_average,
        tapset_decision,
        update_hf,
        end,
        channels,
        m,
        spread_weight,
    )
}

} // verus!
