//! Each band is normalised by the amplitude that was measured of it.

use vstd::prelude::*;
use crate::band_tf::scale_of;
use crate::mode::OpusCustomMode;
use crate::spectrum::{
    band_energy, bands_measured, bands_normalised, channel_measured, channel_normalised,
    lemma_scaled_edges, normal_value,
};

verus! {

/// Place of the first coefficient of a band.
pub open spec fn band_start(mode: OpusCustomMode, m: int, c: int, band: int) -> int {
    c * (m * mode.short_mdct_size) + m * mode.edge(band)
}

/// Amplitude of a band of channel `c`.
pub open spec fn amplitude(mode: OpusCustomMode, x: Seq<i32>, lm: int, c: int, band: int) -> i32 {
    let m = scale_of(lm);
    band_energy(
        x,
        band_start(mode, m, c, band),
        m * mode.width(band),
        mode.log_n@[band],
        lm,
    )
}

/// Rows of different channels do not overlap.
proof fn lemma_rows_apart(c: int, d: int, n: int)
    requires
        c < d,
        0 <= n,
    ensures
        c * n + n <= d * n,
{
    assert(c * n + n <= d * n) by (nonlinear_arith)
        requires
            c + 1 <= d,
            0 <= n,
    ;
}

/// What is measured of the bands of a channel.
proof fn lemma_channel_measured(
    mode: OpusCustomMode,
    x: Seq<i32>,
    e: Seq<i32>,
    end: int,
    lm: int,
    c: int,
    from: int,
    k: int,
)
    requires
        0 <= from,
        0 <= c * mode.num_ebands,
        c * mode.num_ebands + end <= e.len(),
        0 <= k < e.len(),
    ensures
        ({
            let r = channel_measured(mode, x, e, end, lm, c, from);
            let band = k - c * mode.num_ebands;
            &&& r.len() == e.len()
            &&& r[k] == (if from <= band < end { amplitude(mode, x, lm, c, band) } else { e[k] })
        }),
    decreases end - from,
{
    if from < end {
        let f = e.update(c * mode.num_ebands + from, amplitude(mode, x, lm, c, from));
        lemma_channel_measured(mode, x, f, end, lm, c, from + 1, k);
    }
}

/// What is measured of the bands of all channels.
proof fn lemma_bands_measured(
    mode: OpusCustomMode,
    x: Seq<i32>,
    e: Seq<i32>,
    end: int,
    channels: int,
    lm: int,
    from: int,
    c: int,
    band: int,
)
    requires
        0 <= from,
        0 <= c < channels,
        0 <= band < end <= mode.num_ebands,
        channels * mode.num_ebands <= e.len(),
    ensures
        ({
            let r = bands_measured(mode, x, e, end, channels, lm, from);
            let k = c * mode.num_ebands + band;
            &&& r.len() == e.len()
            &&& r[k] == (if from <= c { amplitude(mode, x, lm, c, band) } else { e[k] })
        }),
    decreases channels - from,
{
    let n = mode.num_ebands as int;
    let k = c * n + band;
    lemma_rows_apart(c, channels, n);
    assert(0 <= c * n) by (nonlinear_arith)
        requires
            0 <= c,
            0 <= n,
    ;
    if from < channels {
        lemma_rows_apart(from, channels, n);
        assert(0 <= from * n) by (nonlinear_arith)
            requires
                0 <= from,
                0 <= n,
        ;
        let f = channel_measured(mode, x, e, end, lm, from, 0);
        lemma_channel_measured(mode, x, e, end, lm, from, 0, k);
        lemma_bands_measured(mode, x, f, end, channels, lm, from + 1, c, band);
        if from < c {
            lemma_rows_apart(from, c, n);
        } else if c < from {
            lemma_rows_apart(c, from, n);
        }
    }
}

/// What normalising the bands of a channel leaves at `k`.
proof fn lemma_channel_normalised(
    mode: OpusCustomMode,
    freq: Seq<i32>,
    x: Seq<i16>,
    e: Seq<i32>,
    end: int,
    m: int,
    c: int,
    from: int,
    band: int,
    k: int,
)
    requires
        mode.spectrum_wf(),
        1 <= m <= 8,
        0 <= from,
        end <= mode.num_ebands,
        0 <= k < x.len(),
        0 <= band < mode.num_ebands,
        band_start(mode, m, c, band) <= k < band_start(mode, m, c, band + 1) || k < band_start(
            mode,
            m,
            c,
            0,
        ) || k >= band_start(mode, m, c, end),
    ensures
        ({
            let r = channel_normalised(mode, freq, x, e, end, m, c, from);
            &&& r.len() == x.len()
            &&& r[k] == (if from <= band < end && band_start(mode, m, c, band) <= k < band_start(
                mode,
                m,
                c,
                band + 1,
            ) {
                normal_value(freq[k], e[c * mode.num_ebands + band])
            } else {
                x[k]
            })
        }),
    decreases end - from,
{
    if from < end {
        let at = band_start(mode, m, c, from);
        let part = Seq::new(
            (m * mode.width(from)) as nat,
            |j: int| normal_value(freq[at + j], e[c * mode.num_ebands + from]),
        );
        let y = crate::spectrum::written(x, at, part);
        lemma_channel_normalised(mode, freq, y, e, end, m, c, from + 1, band, k);
        lemma_scaled_edges(mode, m, 0, from);
        lemma_scaled_edges(mode, m, from, from + 1);
        lemma_scaled_edges(mode, m, from + 1, end);
        assert(m * mode.width(from) == m * mode.edge(from + 1) - m * mode.edge(from))
            by (nonlinear_arith)
            requires
                mode.width(from) == mode.edge(from + 1) - mode.edge(from),
        ;
        if from < band {
            lemma_scaled_edges(mode, m, from + 1, band);
        } else if band < from {
            lemma_scaled_edges(mode, m, band + 1, from);
        }
    }
}

/// Whether `k` lies in one of the bands below `end` of a channel.
pub open spec fn in_bands(mode: OpusCustomMode, end: int, channels: int, m: int, k: int) -> bool {
    exists|c: int|
        0 <= c < channels && #[trigger] band_start(mode, m, c, 0) <= k < band_start(mode, m, c, end)
}

/// What normalising leaves in a band.
proof fn lemma_bands_normalised(
    mode: OpusCustomMode,
    freq: Seq<i32>,
    x: Seq<i16>,
    e: Seq<i32>,
    end: int,
    channels: int,
    m: int,
    from: int,
    c: int,
    band: int,
    k: int,
)
    requires
        mode.spectrum_wf(),
        1 <= m <= 8,
        0 <= from,
        0 <= c < channels,
        0 <= band < end <= mode.num_ebands,
        0 <= k < x.len(),
        band_start(mode, m, c, band) <= k < band_start(mode, m, c, band + 1),
    ensures
        ({
            let r = bands_normalised(mode, freq, x, e, end, channels, m, from);
            &&& r.len() == x.len()
            &&& r[k] == (if from <= c {
                normal_value(freq[k], e[c * mode.num_ebands + band])
            } else {
                x[k]
            })
        }),
    decreases channels - from,
{
    if from < channels {
        let n = m * mode.short_mdct_size;
        lemma_scaled_edges(mode, m, 0, band);
        lemma_scaled_edges(mode, m, band + 1, mode.num_ebands as int);
        lemma_scaled_edges(mode, m, 0, end);
        lemma_scaled_edges(mode, m, end, mode.num_ebands as int);
        assert(m * mode.edge(mode.num_ebands as int) <= n) by (nonlinear_arith)
            requires
                mode.edge(mode.num_ebands as int) <= mode.short_mdct_size,
                m >= 0,
                n == m * mode.short_mdct_size,
        ;
        if from < c {
            lemma_rows_apart(from, c, n);
        } else if c < from {
            lemma_rows_apart(c, from, n);
        }
        let other = if from == c { band } else { 0 };
        let y = channel_normalised(mode, freq, x, e, end, m, from, 0);
        lemma_channel_normalised(mode, freq, x, e, end, m, from, 0, other, k);
        lemma_bands_normalised(mode, freq, y, e, end, channels, m, from + 1, c, band, k);
    }
}

/// Normalising leaves alone what lies in no band.
proof fn lemma_outside_normalised(
    mode: OpusCustomMode,
    freq: Seq<i32>,
    x: Seq<i16>,
    e: Seq<i32>,
    end: int,
    channels: int,
    m: int,
    from: int,
    k: int,
)
    requires
        mode.spectrum_wf(),
        1 <= m <= 8,
        0 <= from,
        0 < end <= mode.num_ebands,
        0 <= k < x.len(),
        !in_bands(mode, end, channels, m, k),
    ensures
        bands_normalised(mode, freq, x, e, end, channels, m, from).len() == x.len(),
        bands_normalised(mode, freq, x, e, end, channels, m, from)[k] == x[k],
    decreases channels - from,
{
    if from < channels {
        let y = channel_normalised(mode, freq, x, e, end, m, from, 0);
        assert(!(band_start(mode, m, from, 0) <= k < band_start(mode, m, from, end)));
        if band_start(mode, m, from, 0) <= k < band_start(mode, m, from, 1) {
            lemma_scaled_edges(mode, m, 1, end);
        }
        lemma_channel_normalised(mode, freq, x, e, end, m, from, 0, 0, k);
        lemma_outside_normalised(mode, freq, y, e, end, channels, m, from + 1, k);
    }
}

/// A spectrum that is normalised by the energies measured of it: each coefficient
/// of a band is divided by the amplitude of its own band, and what lies in no band
/// stays.
pub proof fn law_bands_are_divided_by_their_amplitude(
    mode: OpusCustomMode,
    freq: Seq<i32>,
    x: Seq<i16>,
    e: Seq<i32>,
    end: int,
    channels: int,
    lm: int,
)
    requires
        mode.spectrum_wf(),
        0 <= lm <= 3,
        0 < end <= mode.num_ebands,
        channels * mode.num_ebands <= e.len(),
        channels * (scale_of(lm) * mode.short_mdct_size) <= x.len(),
    ensures
        ({
            let m = scale_of(lm);
            let energies = bands_measured(mode, freq, e, end, channels, lm, 0);
            let r = bands_normalised(mode, freq, x, energies, end, channels, m, 0);
            &&& r.len() == x.len()
            &&& forall|c: int, band: int, k: int|
                0 <= c < channels && 0 <= band < end && 0 <= k && #[trigger] band_start(
                    mode,
                    m,
                    c,
                    band,
                ) <= k < band_start(mode, m, c, band + 1) ==> #[trigger] r[k] == normal_value(
                    freq[k],
                    amplitude(mode, freq, lm, c, band),
                )
            &&& forall|k: int|
                0 <= k < x.len() && !in_bands(mode, end, channels, m, k) ==> #[trigger] r[k] == x[k]
        }),
{
    let m = scale_of(lm);
    let energies = bands_measured(mode, freq, e, end, channels, lm, 0);
    let r = bands_normalised(mode, freq, x, energies, end, channels, m, 0);
    lemma_normalised_len(mode, freq, x, energies, end, channels, m, 0);
    assert forall|c: int, band: int, k: int|
        0 <= c < channels && 0 <= band < end && 0 <= k && #[trigger] band_start(mode, m, c, band)
            <= k < band_start(mode, m, c, band + 1) implies #[trigger] r[k] == normal_value(
        freq[k],
        amplitude(mode, freq, lm, c, band),
    ) by {
        let n = m * mode.short_mdct_size;
        lemma_scaled_edges(mode, m, band + 1, mode.num_ebands as int);
        assert(m * mode.edge(mode.num_ebands as int) <= n) by (nonlinear_arith)
            requires
                mode.edge(mode.num_ebands as int) <= mode.short_mdct_size,
                m >= 0,
                n == m * mode.short_mdct_size,
        ;
        lemma_rows_apart(c, channels, n);
        lemma_bands_measured(mode, freq, e, end, channels, lm, 0, c, band);
        lemma_bands_normalised(mode, freq, x, energies, end, channels, m, 0, c, band, k);
    }
    assert forall|k: int|
        0 <= k < x.len() && !in_bands(mode, end, channels, m, k) implies #[trigger] r[k]
        == x[k] by {
        lemma_outside_normalised(mode, freq, x, energies, end, channels, m, 0, k);
    }
}

/// Normalising keeps the length.
proof fn lemma_normalised_len(
    mode: OpusCustomMode,
    freq: Seq<i32>,
    x: Seq<i16>,
    e: Seq<i32>,
    end: int,
    channels: int,
    m: int,
    from: int,
)
    ensures
        bands_normalised(mode, freq, x, e, end, channels, m, from).len() == x.len(),
    decreases channels - from,
{
    if from < channels {
        lemma_channel_len(mode, freq, x, e, end, m, from, 0);
        lemma_normalised_len(
            mode,
            freq,
            channel_normalised(mode, freq, x, e, end, m, from, 0),
            e,
            end,
            channels,
            m,
            from + 1,
        );
    }
}

/// Normalising a channel keeps the length.
proof fn lemma_channel_len(
    mode: OpusCustomMode,
    freq: Seq<i32>,
    x: Seq<i16>,
    e: Seq<i32>,
    end: int,
    m: int,
    c: int,
    from: int,
)
    ensures
        channel_normalised(mode, freq, x, e, end, m, c, from).len() == x.len(),
    decreases end - from,
{
    if from < end {
        let at = band_start(mode, m, c, from);
        let part = Seq::new(
            (m * mode.width(from)) as nat,
            |j: int| normal_value(freq[at + j], e[c * mode.num_ebands + from]),
        );
        lemma_channel_len(
            mode,
            freq,
            crate::spectrum::written(x, at, part),
            e,
            end,
            m,
            c,
            from + 1,
        );
    }
}

} // verus!
