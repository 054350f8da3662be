//! The spreading score is a weighted mean over the bands.

use vstd::prelude::*;
use crate::division_laws::lemma_shr;
use crate::mode::OpusCustomMode;
use crate::pvq::{SPREAD_AGGRESSIVE, SPREAD_LIGHT, SPREAD_NONE, SPREAD_NORMAL};
use crate::spreading::{
    band_counted, band_counts, band_score, channel_counted, high_average, small_count,
    spread_average, spread_chosen, spread_counted, spread_sums, tapset_chosen, BandCounts,
    SpreadSums,
};

verus! {

/// A band counts for the score if it has more than eight coefficients.
pub open spec fn counted(mode: OpusCustomMode, m: int, band: int) -> bool {
    m * mode.width(band) > 8
}

/// All bands that count have scores from `low` to `high`.
pub open spec fn scores_between(
    mode: OpusCustomMode,
    counts: Seq<BandCounts>,
    end: int,
    channels: int,
    m: int,
    low: int,
    high: int,
) -> bool {
    forall|c: int, band: int|
        0 <= c < channels && 0 <= band < end && #[trigger] counted(mode, m, band) ==> low
            <= #[trigger] band_score(counts[c * end + band], m * mode.width(band)) <= high
}

/// The weights are not negative, and so small that no sum leaves its word.
pub open spec fn weights_fit(weights: Seq<i32>, end: int, channels: int, most: int) -> bool {
    &&& 0 <= end <= weights.len()
    &&& 0 <= channels
    &&& 0 <= most
    &&& 768 * (most * (channels * end)) <= u32::MAX
    &&& forall|i: int| 0 <= i < end ==> 0 <= #[trigger] weights[i] <= most
}

/// The sums `s` cover `k` bands with scores from `low` to `high`.
spec fn sums_between(s: SpreadSums, k: int, most: int, low: int, high: int) -> bool {
    &&& 0 <= s.weight <= most * k
    &&& low * s.weight <= s.score <= high * s.weight
    &&& 0 <= s.score <= 3 * (most * k)
}

/// One more band.
proof fn lemma_band_between(
    s: SpreadSums,
    t: BandCounts,
    n: int,
    w: i32,
    high_band: bool,
    k: int,
    most: int,
    low: int,
    high: int,
)
    requires
        sums_between(s, k, most, low, high),
        0 <= k,
        0 <= w <= most,
        3 * (most * (k + 1)) <= 0x7fff_ffff,
        n > 8 ==> low <= band_score(t, n) <= high,
    ensures
        sums_between(band_counted(s, t, n, w, high_band), k + 1, most, low, high),
{
    assert(most * (k + 1) == most * k + most) by (nonlinear_arith);
    if n > 8 {
        let b = band_score(t, n);
        assert(0 <= b <= 3);
        assert(0 <= b * w <= 3 * w) by (nonlinear_arith)
            requires
                0 <= b <= 3,
                0 <= w,
        ;
        assert(low * w <= b * w <= high * w) by (nonlinear_arith)
            requires
                low <= b <= high,
                0 <= w,
        ;
        assert(low * (s.weight + w) == low * s.weight + low * w) by (nonlinear_arith);
        assert(high * (s.weight + w) == high * s.weight + high * w) by (nonlinear_arith);
        assert((b as i32).wrapping_mul(w) == b * w);
    }
}

/// The bands of one channel.
proof fn lemma_channel_between(
    mode: OpusCustomMode,
    counts: Seq<BandCounts>,
    weights: Seq<i32>,
    end: int,
    channels: int,
    m: int,
    c: int,
    band: int,
    s: SpreadSums,
    most: int,
    low: int,
    high: int,
)
    requires
        weights_fit(weights, end, channels, most),
        scores_between(mode, counts, end, channels, m, low, high),
        0 <= c < channels,
        0 <= band <= end,
        sums_between(s, c * end + band, most, low, high),
    ensures
        sums_between(
            channel_counted(mode, counts, weights, end, m, c * end, band, s),
            c * end + end,
            most,
            low,
            high,
        ),
    decreases end - band,
{
    if band < end {
        let k = c * end + band;
        assert(0 <= c * end && c * end + end <= channels * end) by (nonlinear_arith)
            requires
                0 <= c < channels,
                0 <= end,
        ;
        assert(most * (k + 1) <= most * (channels * end)) by (nonlinear_arith)
            requires
                k + 1 <= channels * end,
                0 <= most,
        ;
        let n = m * mode.width(band);
        assert(counted(mode, m, band) ==> low <= band_score(counts[c * end + band], n) <= high);
        lemma_band_between(
            s,
            counts[k],
            n,
            weights[band],
            band + 4 > mode.num_ebands,
            k,
            most,
            low,
            high,
        );
        lemma_channel_between(
            mode,
            counts,
            weights,
            end,
            channels,
            m,
            c,
            band + 1,
            band_counted(s, counts[k], n, weights[band], band + 4 > mode.num_ebands),
            most,
            low,
            high,
        );
    }
}

/// The bands of all channels.
proof fn lemma_sums_between(
    mode: OpusCustomMode,
    counts: Seq<BandCounts>,
    weights: Seq<i32>,
    end: int,
    channels: int,
    m: int,
    c: int,
    s: SpreadSums,
    most: int,
    low: int,
    high: int,
)
    requires
        weights_fit(weights, end, channels, most),
        scores_between(mode, counts, end, channels, m, low, high),
        0 <= c <= channels,
        sums_between(s, c * end, most, low, high),
    ensures
        sums_between(
            spread_counted(mode, counts, weights, end, channels, m, c, s),
            channels * end,
            most,
            low,
            high,
        ),
    decreases channels - c,
{
    if c < channels {
        lemma_channel_between(mode, counts, weights, end, channels, m, c, 0, s, most, low, high);
        assert((c + 1) * end == c * end + end) by (nonlinear_arith);
        lemma_sums_between(
            mode,
            counts,
            weights,
            end,
            channels,
            m,
            c + 1,
            channel_counted(mode, counts, weights, end, m, c * end, 0, s),
            most,
            low,
            high,
        );
    }
}

/// A score in Q8.
proof fn lemma_q8(score: i32)
    requires
        0 <= score <= 0xff_ffff,
    ensures
        (((score as i64) << 8u32) as u32) == 256 * score,
{
    let x = score as i64;
    assert(0 <= x <= 0xff_ffff ==> ((x << 8u32) as u32) == 256 * x) by (bit_vector);
}

/// The smoothed score by division.
proof fn lemma_average(s: SpreadSums, average: i32)
    requires
        0 <= s.score,
        256 * s.score <= u32::MAX,
        s.weight > 0,
        256 * s.score / (s.weight as int) + average <= i32::MAX,
        256 * s.score / (s.weight as int) <= i32::MAX,
    ensures
        ({
            let mean = 256 * s.score / (s.weight as int);
            mean + average - 1 <= 2 * spread_average(s, average) <= mean + average
        }),
{
    lemma_q8(s.score);
    let mean = 256 * s.score / (s.weight as int);
    vstd::arithmetic::div_mod::lemma_div_pos_is_pos(256 * s.score, s.weight as int);
    let word = ((((s.score as i64) << 8u32) as u32) / (s.weight as u32)) as i32;
    assert(word == mean);
    vstd::arithmetic::power2::lemma2_to64();
    lemma_shr(word.wrapping_add(average), 1);
}

/// The smoothed score is half the old one and half a weighted mean of the scores of
/// the bands, in Q8: whatever the weights are, it lies between the smallest and the
/// largest of the scores. If all bands that count have the same score, the weights do
/// not matter at all.
pub proof fn law_score_is_a_mean(
    mode: OpusCustomMode,
    counts: Seq<BandCounts>,
    weights: Seq<i32>,
    end: int,
    channels: int,
    m: int,
    most: int,
    low: int,
    high: int,
    average: i32,
)
    requires
        weights_fit(weights, end, channels, most),
        scores_between(mode, counts, end, channels, m, low, high),
        0 <= low <= high <= 3,
        spread_sums(mode, counts, weights, end, channels, m).weight > 0,
        average <= 0x4000_0000,
    ensures
        ({
            let s = spread_sums(mode, counts, weights, end, channels, m);
            256 * low + average - 1 <= 2 * spread_average(s, average) <= 256 * high + average
        }),
{
    let zero = SpreadSums { score: 0, weight: 0, high: 0 };
    assert(sums_between(zero, 0, most, low, high)) by {
        assert(most * 0 == 0 && low * 0 == 0 && high * 0 == 0);
    }
    assert(0 * end == 0);
    lemma_sums_between(mode, counts, weights, end, channels, m, 0, zero, most, low, high);
    let s = spread_sums(mode, counts, weights, end, channels, m);
    let w = s.weight as int;
    let mean = 256 * s.score / w;
    assert(256 * low <= mean <= 256 * high) by {
        assert(low * w <= s.score <= high * w);
        assert(256 * (low * w) <= 256 * s.score <= 256 * (high * w));
        vstd::arithmetic::div_mod::lemma_fundamental_div_mod(256 * s.score, w);
        vstd::arithmetic::div_mod::lemma_mod_bound(256 * s.score, w);
        assert(mean <= 256 * high) by (nonlinear_arith)
            requires
                w * mean <= 256 * (high * w),
                w > 0,
        ;
        assert(mean >= 256 * low) by (nonlinear_arith)
            requires
                w * mean + w > 256 * (low * w),
                w > 0,
        ;
    }
    lemma_average(s, average);
}

/// Sums over weights that are `f` times as large.
spec fn sums_scaled(s: SpreadSums, t: SpreadSums, k: int, most: int, f: int) -> bool {
    &&& t.weight == f * s.weight
    &&& t.score == f * s.score
    &&& t.high == s.high
    &&& 0 <= s.weight
    &&& 0 <= s.score
    &&& t.weight <= most * k
    &&& t.score <= 3 * (most * k)
}

/// One more band with a weight that is `f` times as large.
proof fn lemma_band_scaled(
    s: SpreadSums,
    t: SpreadSums,
    b: BandCounts,
    n: int,
    v: i32,
    w: i32,
    high_band: bool,
    k: int,
    most: int,
    f: int,
)
    requires
        sums_scaled(s, t, k, most, f),
        0 <= k,
        1 <= f,
        w == f * v,
        0 <= v,
        w <= most,
        3 * (most * (k + 1)) <= 0x7fff_ffff,
    ensures
        sums_scaled(
            band_counted(s, b, n, v, high_band),
            band_counted(t, b, n, w, high_band),
            k + 1,
            most,
            f,
        ),
{
    assert(most * (k + 1) == most * k + most) by (nonlinear_arith);
    if n > 8 {
        let q = band_score(b, n);
        assert(0 <= q <= 3);
        assert(0 <= q * v <= 3 * v && 0 <= q * w <= 3 * w) by (nonlinear_arith)
            requires
                0 <= q <= 3,
                0 <= v,
                0 <= w,
        ;
        assert(v <= w && s.weight <= t.weight && s.score <= t.score) by (nonlinear_arith)
            requires
                w == f * v,
                t.weight == f * s.weight,
                t.score == f * s.score,
                1 <= f,
                0 <= v,
                0 <= s.weight,
                0 <= s.score,
        ;
        assert((q as i32).wrapping_mul(v) == q * v);
        assert((q as i32).wrapping_mul(w) == q * w);
        assert(q * w == f * (q * v)) by (nonlinear_arith)
            requires
                w == f * v,
        ;
        assert(f * (s.weight + v) == f * s.weight + f * v) by (nonlinear_arith);
        assert(f * (s.score + q * v) == f * s.score + f * (q * v)) by (nonlinear_arith);
    }
}

/// The bands of one channel with weights that are `f` times as large.
proof fn lemma_channel_scaled(
    mode: OpusCustomMode,
    counts: Seq<BandCounts>,
    v: Seq<i32>,
    w: Seq<i32>,
    end: int,
    channels: int,
    m: int,
    c: int,
    band: int,
    s: SpreadSums,
    t: SpreadSums,
    most: int,
    f: int,
)
    requires
        weights_fit(w, end, channels, most),
        end <= v.len(),
        1 <= f,
        forall|i: int| 0 <= i < end ==> 0 <= #[trigger] v[i] && w[i] == f * v[i],
        0 <= c < channels,
        0 <= band <= end,
        sums_scaled(s, t, c * end + band, most, f),
    ensures
        sums_scaled(
            channel_counted(mode, counts, v, end, m, c * end, band, s),
            channel_counted(mode, counts, w, end, m, c * end, band, t),
            c * end + end,
            most,
            f,
        ),
    decreases end - band,
{
    if band < end {
        let k = c * end + band;
        assert(0 <= c * end && c * end + end <= channels * end) by (nonlinear_arith)
            requires
                0 <= c < channels,
                0 <= end,
        ;
        assert(most * (k + 1) <= most * (channels * end)) by (nonlinear_arith)
            requires
                k + 1 <= channels * end,
                0 <= most,
        ;
        let n = m * mode.width(band);
        let high_band = band + 4 > mode.num_ebands;
        assert(0 <= v[band] && w[band] == f * v[band]);
        lemma_band_scaled(s, t, counts[k], n, v[band], w[band], high_band, k, most, f);
        lemma_channel_scaled(
            mode,
            counts,
            v,
            w,
            end,
            channels,
            m,
            c,
            band + 1,
            band_counted(s, counts[k], n, v[band], high_band),
            band_counted(t, counts[k], n, w[band], high_band),
            most,
            f,
        );
    }
}

/// The bands of all channels with weights that are `f` times as large.
proof fn lemma_sums_scaled(
    mode: OpusCustomMode,
    counts: Seq<BandCounts>,
    v: Seq<i32>,
    w: Seq<i32>,
    end: int,
    channels: int,
    m: int,
    c: int,
    s: SpreadSums,
    t: SpreadSums,
    most: int,
    f: int,
)
    requires
        weights_fit(w, end, channels, most),
        end <= v.len(),
        1 <= f,
        forall|i: int| 0 <= i < end ==> 0 <= #[trigger] v[i] && w[i] == f * v[i],
        0 <= c <= channels,
        sums_scaled(s, t, c * end, most, f),
    ensures
        sums_scaled(
            spread_counted(mode, counts, v, end, channels, m, c, s),
            spread_counted(mode, counts, w, end, channels, m, c, t),
            channels * end,
            most,
            f,
        ),
    decreases channels - c,
{
    if c < channels {
        lemma_channel_scaled(mode, counts, v, w, end, channels, m, c, 0, s, t, most, f);
        assert((c + 1) * end == c * end + end) by (nonlinear_arith);
        lemma_sums_scaled(
            mode,
            counts,
            v,
            w,
            end,
            channels,
            m,
            c + 1,
            channel_counted(mode, counts, v, end, m, c * end, 0, s),
            channel_counted(mode, counts, w, end, m, c * end, 0, t),
            most,
            f,
        );
    }
}

/// Weights are relative: multiplied by the same factor they give the same smoothed
/// score and the same decision, and they never touch the tonality of the highest
/// bands.
pub proof fn law_weights_are_relative(
    mode: OpusCustomMode,
    counts: Seq<BandCounts>,
    v: Seq<i32>,
    w: Seq<i32>,
    end: int,
    channels: int,
    m: int,
    most: int,
    f: int,
    average: i32,
    last: i32,
)
    requires
        weights_fit(w, end, channels, most),
        end <= v.len(),
        1 <= f,
        forall|i: int| 0 <= i < end ==> 0 <= #[trigger] v[i] && w[i] == f * v[i],
        spread_sums(mode, counts, v, end, channels, m).weight > 0,
    ensures
        ({
            let s = spread_sums(mode, counts, v, end, channels, m);
            let t = spread_sums(mode, counts, w, end, channels, m);
            &&& t.weight > 0
            &&& spread_average(t, average) == spread_average(s, average)
            &&& spread_chosen(spread_average(t, average), last) == spread_chosen(
                spread_average(s, average),
                last,
            )
            &&& t.high == s.high
        }),
{
    let zero = SpreadSums { score: 0, weight: 0, high: 0 };
    assert(sums_scaled(zero, zero, 0, most, f)) by {
        assert(most * 0 == 0 && f * 0 == 0);
    }
    assert(0 * end == 0);
    lemma_sums_scaled(mode, counts, v, w, end, channels, m, 0, zero, zero, most, f);
    let s = spread_sums(mode, counts, v, end, channels, m);
    let t = spread_sums(mode, counts, w, end, channels, m);
    assert(s.weight <= t.weight && s.score <= t.score) by (nonlinear_arith)
        requires
            t.weight == f * s.weight,
            t.score == f * s.score,
            1 <= f,
            0 <= s.weight,
            0 <= s.score,
    ;
    lemma_q8(s.score);
    lemma_q8(t.score);
    assert(256 * t.score == f * (256 * s.score)) by (nonlinear_arith)
        requires
            t.score == f * s.score,
    ;
    vstd::arithmetic::div_mod::lemma_div_multiples_vanish_quotient(
        f,
        256 * s.score,
        s.weight as int,
    );
}

/// What one band adds: its score, as often as its weight says, and its tonality if it
/// is one of the highest bands: 32 times the shares of coefficients below a sixteenth
/// and below a quarter of the mean, rounded down. Narrow bands add nothing.
pub proof fn law_band_adds_its_score(s: SpreadSums, t: BandCounts, n: int, weight: i32, high: bool)
    requires
        0 <= s.score <= 0x1000_0000,
        0 <= s.weight <= 0x1000_0000,
        0 <= s.high <= 0x1000_0000,
        0 <= weight <= 0x100_0000,
        n <= 2048,
        t.quarter <= n,
        t.sixteenth <= n,
    ensures
        ({
            let r = band_counted(s, t, n, weight, high);
            let tonal = 32 * (t.sixteenth + t.quarter);
            &&& n <= 8 || weight == 0 ==> r.score == s.score && r.weight == s.weight
            &&& n > 8 ==> r.weight == s.weight + weight && r.score == s.score + band_score(t, n)
                * weight
            &&& n <= 8 || !high ==> r.high == s.high
            &&& n > 8 && high ==> n * (r.high - s.high) <= tonal < n * (r.high - s.high + 1)
        }),
{
    if n > 8 {
        let q = band_score(t, n);
        assert(0 <= q * weight <= 3 * weight) by (nonlinear_arith)
            requires
                0 <= q <= 3,
                0 <= weight,
        ;
        assert((q as i32).wrapping_mul(weight) == q * weight);
        let tonal = 32 * (t.sixteenth + t.quarter);
        vstd::arithmetic::div_mod::lemma_fundamental_div_mod(tonal, n);
        vstd::arithmetic::div_mod::lemma_mod_bound(tonal, n);
        vstd::arithmetic::div_mod::lemma_div_pos_is_pos(tonal, n);
        assert(tonal / n <= 64) by (nonlinear_arith)
            requires
                n * (tonal / n) <= tonal,
                tonal <= 64 * n,
                n > 8,
        ;
        assert(n * (tonal / n + 1) == n * (tonal / n) + n) by (nonlinear_arith);
        if weight == 0 {
            assert(q * weight == 0) by (nonlinear_arith)
                requires
                    weight == 0,
            ;
        }
    }
}

/// A band scores once for each threshold that at least half of its coefficients
/// undercut; more small coefficients never lower the score.
pub proof fn law_scores(t: BandCounts, u: BandCounts, n: int)
    requires
        n >= 1,
        t.sixty_fourth <= t.sixteenth <= t.quarter,
        t.sixty_fourth <= u.sixty_fourth,
        t.sixteenth <= u.sixteenth,
        t.quarter <= u.quarter,
    ensures
        band_score(t, n) <= band_score(u, n),
        band_score(t, n) == 0 <==> 2 * t.quarter < n,
        band_score(t, n) >= 2 <==> 2 * t.sixteenth >= n,
        band_score(t, n) == 3 <==> 2 * t.sixty_fourth >= n,
{
}

/// Counts of two stretches add up.
proof fn lemma_small_count_splits(x: Seq<i16>, at: int, a: int, b: int, width: int, limit: int)
    requires
        0 <= a,
        0 <= b,
    ensures
        small_count(x, at, a + b, width, limit) == small_count(x, at, a, width, limit) + small_count(
            x,
            at + a,
            b,
            width,
            limit,
        ),
        0 <= small_count(x, at, a, width, limit) <= a,
    decreases a + b,
{
    if b > 0 {
        lemma_small_count_splits(x, at, a, b - 1, width, limit);
    } else if a > 0 {
        lemma_small_count_splits(x, at, a - 1, 0, width, limit);
    }
}

/// A larger limit never counts fewer coefficients.
proof fn lemma_small_count_order(x: Seq<i16>, at: int, n: int, width: int, a: int, b: int)
    requires
        a <= b,
        0 <= n,
    ensures
        0 <= small_count(x, at, n, width, a) <= small_count(x, at, n, width, b) <= n,
    decreases n,
{
    if n > 0 {
        lemma_small_count_order(x, at, n - 1, width, a, b);
    }
}

/// The counts of a band: a coefficient of Q14 is counted where its energy, taken
/// `width` times, stays below a quarter, a sixteenth and a sixty-fourth of the unit.
/// The counts of parts add up, and the counts of a single coefficient are exact.
pub proof fn law_small_coefficients_are_counted(x: Seq<i16>, at: int, a: int, b: int, width: int)
    requires
        0 <= a,
        0 <= b,
        a + b <= 2048,
    ensures
        ({
            let unit = 16384 * 16384int;
            let v = x[at];
            let energy = v * v * width;
            &&& forall|limit: int|
                #[trigger] small_count(x, at, a + b, width, limit) == small_count(
                    x,
                    at,
                    a,
                    width,
                    limit,
                ) + small_count(x, at + a, b, width, limit)
            &&& small_count(x, at, 1, width, unit / 4) == (if 4 * energy < unit { 1int } else { 0 })
            &&& small_count(x, at, 1, width, unit / 16) == (if 16 * energy < unit {
                1int
            } else {
                0
            })
            &&& small_count(x, at, 1, width, unit / 64) == (if 64 * energy < unit {
                1int
            } else {
                0
            })
            &&& band_counts(x, at, a).quarter == small_count(x, at, a, a, unit / 4)
            &&& band_counts(x, at, a).sixteenth == small_count(x, at, a, a, unit / 16)
            &&& band_counts(x, at, a).sixty_fourth == small_count(x, at, a, a, unit / 64)
            &&& band_counts(x, at, a).sixty_fourth <= band_counts(x, at, a).sixteenth
                <= band_counts(x, at, a).quarter <= a
        }),
{
    assert forall|limit: int| #[trigger]
        small_count(x, at, a + b, width, limit) == small_count(x, at, a, width, limit)
            + small_count(x, at + a, b, width, limit) by {
        lemma_small_count_splits(x, at, a, b, width, limit);
    }
    reveal_with_fuel(small_count, 2);
    assert(x[at + 1 - 1] == x[at]);
    lemma_small_count_order(x, at, a, a, 0x400000, 0x1000000);
    lemma_small_count_order(x, at, a, a, 0x1000000, 0x4000000);
}

/// The decision from the smoothed score: more tonal frames are spread less, and the
/// last decision is favoured.
pub proof fn law_spreading_follows_the_score(a: i32, b: i32, last: i32, other: i32)
    requires
        0 <= a <= b <= 768,
        0 <= last <= other <= 3,
    ensures
        spread_chosen(a, last) >= spread_chosen(b, last),
        spread_chosen(a, last) <= spread_chosen(a, other),
        0 <= spread_chosen(a, last) <= 3,
        spread_chosen(a, last) == SPREAD_AGGRESSIVE <==> 3 * a + 128 * (3 - last) < 254,
        spread_chosen(a, last) >= SPREAD_NORMAL <==> 3 * a + 128 * (3 - last) < 958,
        spread_chosen(a, last) >= SPREAD_LIGHT <==> 3 * a + 128 * (3 - last) < 1470,
        SPREAD_NONE < SPREAD_LIGHT < SPREAD_NORMAL < SPREAD_AGGRESSIVE,
{
    lemma_chosen(a, last);
    lemma_chosen(b, last);
    lemma_chosen(a, other);
}

/// The decision by thresholds.
proof fn lemma_chosen(a: i32, last: i32)
    requires
        0 <= a <= 768,
        0 <= last <= 3,
    ensures
        ({
            let sum = 3 * a + 128 * (3 - last) + 66;
            spread_chosen(a, last) == (if sum < 320 {
                SPREAD_AGGRESSIVE
            } else if sum < 1024 {
                SPREAD_NORMAL
            } else if sum < 1536 {
                SPREAD_LIGHT
            } else {
                SPREAD_NONE
            })
        }),
{
    vstd::arithmetic::power2::lemma2_to64();
    let d = 3i32.wrapping_sub(last);
    assert(0 <= d <= 3 ==> (d << 7u32) == 128 * d) by (bit_vector);
    let hysteresis = (d << 7u32).wrapping_add(64);
    let x = a.wrapping_mul(3).wrapping_add(hysteresis).wrapping_add(2);
    assert(x == 3 * a + 128 * (3 - last) + 66);
    lemma_shr(x, 2);
}

/// The tonality of the highest bands: half the old average and half the mean of the
/// sum over the bands and channels.
pub proof fn law_tonality_is_averaged(high: i32, average: i32, channels: int, bands: int, end: int)
    requires
        0 <= high <= 0x1000_0000,
        0 <= average <= 0x1000_0000,
        1 <= channels,
        bands - 4 < end,
    ensures
        ({
            let denom = channels * (4 - bands + end);
            let r = high_average(high, average, channels, bands, end);
            &&& denom * (2 * r - average) <= high
            &&& high < denom * (2 * r - average + 2)
        }),
{
    let denom = channels * (4 - bands + end);
    assert(denom >= 1) by (nonlinear_arith)
        requires
            denom == channels * (4 - bands + end),
            channels >= 1,
            4 - bands + end >= 1,
    ;
    let q = high as int / denom;
    vstd::arithmetic::div_mod::lemma_fundamental_div_mod(high as int, denom);
    vstd::arithmetic::div_mod::lemma_mod_bound(high as int, denom);
    vstd::arithmetic::div_mod::lemma_div_pos_is_pos(high as int, denom);
    assert(q <= high) by (nonlinear_arith)
        requires
            denom * q <= high,
            denom >= 1,
            q >= 0,
    ;
    assert(high == 0 ==> q == 0);
    let mean = q as i32;
    let sum = average.wrapping_add(mean);
    vstd::arithmetic::power2::lemma2_to64();
    lemma_shr(sum, 1);
    let r = sum >> 1u32;
    let e = 2 * r - average;
    assert(q - 1 <= e <= q);
    assert(denom * e <= denom * q && denom * (q + 1) <= denom * (e + 2)) by (nonlinear_arith)
        requires
            q - 1 <= e <= q,
            denom >= 1,
    ;
    assert(denom * (q + 1) == denom * q + denom) by (nonlinear_arith);
}

/// The tap set follows the tonality, and the last choice is favoured: it changes to the
/// widest above 26 and to the narrowest from 14 down whatever it was, and stays where
/// the tonality is near.
pub proof fn law_tapset_follows_the_tonality(a: i32, b: i32, last: i32)
    requires
        -0x1000_0000 <= a <= b <= 0x1000_0000,
        0 <= last <= 2,
    ensures
        0 <= tapset_chosen(a, last) <= tapset_chosen(b, last) <= 2,
        a > 26 ==> tapset_chosen(a, last) == 2,
        a <= 14 ==> tapset_chosen(a, last) == 0,
        last == 2 && a > 18 ==> tapset_chosen(a, last) == 2,
        last == 1 ==> (tapset_chosen(a, last) == 1 <==> 18 < a <= 22),
        last == 0 && a <= 22 ==> tapset_chosen(a, last) == 0,
{
}

} // verus!
