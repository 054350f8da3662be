//! Concealment of lost packets: shaped noise, or a continuation of the pitch.

use vstd::prelude::*;
use crate::band_decode::{drawn, white_noise};
use crate::band_tf::{scale, scale_of};
use crate::bands::celt_lcg_rand;
use crate::decoder::{
    DecoderState, OpusCustomDecoder, DECODE_BUFFER_SIZE, LPC_ORDER, PLC_PITCH_LAG_MAX,
    PLC_PITCH_LAG_MIN,
};
use crate::comb::CombParameters;
use crate::fixed::{Q15_ONE, Q31_ONE};
use crate::lpc::{autocorrelated, celt_autocorr, celt_lpc, lag_windowed, predictor, window_lags};
use crate::memory::{
    fold_rows, move_rows, read_row, row, row_folded, row_moved, row_synthesised, synthesise_rows,
    write_row,
};
use crate::mode::OpusCustomMode;
use crate::pitch::{contents, downsampled, pitch_downsample, pitch_search, searched};
use crate::plc::{
    bandwidth_expanded, extrapolate_channel, iir_safe, plc_bandwidth_expand_for_iir, sig2word16,
    Extrapolation,
};
use crate::pvq::{renormalise_vector, renormalised};
use crate::spectrum::{band_edge, lemma_row, lemma_scaled_edges, write_at, written};
use crate::synthesis::{copy_range, Spectra, SynthesisInput};

verus! {

/// Fall of the energies in the first lost frame, 1.5 in Q24.
pub const FIRST_DECAY: i32 = 25165824;

/// Fall of the energies in later lost frames, 0.5 in Q24.
pub const NEXT_DECAY: i32 = 8388608;

/// Gain of the continuation after the first lost frame, 0.8 in Q15.
pub const NEXT_FADE: i16 = 26214;

/// Longest loss that is counted, in short blocks.
pub const MAX_LOSS: i32 = 10000;

/// One band of noise of unit norm, and the new state of the generator.
pub open spec fn band_noise(
    mode: OpusCustomMode,
    m: int,
    x: Seq<i16>,
    base: int,
    seed: u32,
    band: int,
) -> (Seq<i16>, u32) {
    let width = m * mode.width(band);
    (
        written(x, base + m * mode.edge(band), renormalised(white_noise(width, seed), Q31_ONE)),
        drawn(seed, width as nat),
    )
}

/// Noise in the bands from `band` to `end`.
pub open spec fn bands_noise(
    mode: OpusCustomMode,
    m: int,
    x: Seq<i16>,
    base: int,
    seed: u32,
    band: int,
    end: int,
) -> (Seq<i16>, u32)
    decreases end - band,
{
    if band >= end {
        (x, seed)
    } else {
        let (y, next) = band_noise(mode, m, x, base, seed, band);
        bands_noise(mode, m, y, base, next, band + 1, end)
    }
}

/// Noise in the channels from `channel` on.
pub open spec fn channels_noise(
    mode: OpusCustomMode,
    m: int,
    x: Seq<i16>,
    seed: u32,
    start: int,
    end: int,
    channel: int,
    channels: int,
) -> (Seq<i16>, u32)
    decreases channels - channel,
{
    if channel >= channels {
        (x, seed)
    } else {
        let (y, next) = bands_noise(
            mode,
            m,
            x,
            channel * (m * mode.short_mdct_size),
            seed,
            start,
            end,
        );
        channels_noise(mode, m, y, next, start, end, channel + 1, channels)
    }
}

impl DecoderState {
    /// Whether a lost packet is replaced by noise rather than by a continuation
    /// of the pitch.
    pub open spec fn noise_based(self) -> bool {
        self.loss_duration >= 40 || self.start_band != 0 || self.skip_plc
    }

    /// End of the bands that are synthesised.
    pub open spec fn eff_end(self) -> int {
        let limit = if self.end_band < self.mode.effective_ebands {
            self.end_band as int
        } else {
            self.mode.effective_ebands as int
        };
        if limit < self.start_band {
            self.start_band as int
        } else {
            limit
        }
    }

    /// Length of the loss after one more frame.
    pub open spec fn longer_loss(self, lm: int) -> i32 {
        let sum = self.loss_duration + scale_of(lm);
        if sum < MAX_LOSS {
            sum as i32
        } else {
            MAX_LOSS
        }
    }

    /// Energies fallen towards the background.
    pub open spec fn decayed_energies(self) -> Seq<i32> {
        let bands = self.mode.num_ebands as int;
        let decay = if self.loss_duration == 0 { FIRST_DECAY } else { NEXT_DECAY };
        Seq::new(
            self.old_ebands.len(),
            |i: int|
                if i < self.channels * bands && self.start_band <= i % bands < self.end_band {
                    let fallen = self.old_ebands[i].wrapping_sub(decay);
                    if self.background_log_e[i] > fallen {
                        self.background_log_e[i]
                    } else {
                        fallen
                    }
                } else {
                    self.old_ebands[i]
                },
        )
    }

    /// Spectrum of a frame of noise, and the new state of the generator.
    pub open spec fn noise(self, lm: int) -> (Seq<i16>, u32) {
        let m = scale_of(lm);
        channels_noise(
            self.mode,
            m,
            Seq::new((self.channels * (m * self.mode.short_mdct_size)) as nat, |i: int| 0i16),
            self.rng,
            self.start_band as int,
            self.eff_end(),
            0,
            self.channels as int,
        )
    }

    /// The state after a frame of noise, but for the signal history.
    pub open spec fn noise_concealed(self, lm: int) -> DecoderState {
        DecoderState {
            old_ebands: self.decayed_energies(),
            rng: self.noise(lm).1,
            prefilter_and_fold: false,
            skip_plc: true,
            loss_duration: self.longer_loss(lm),
            ..self
        }
    }

    /// The state after a continuation of the pitch with a lag and predictors.
    pub open spec fn pitch_concealed(self, lm: int, lag: i32, lpc: Seq<i16>) -> DecoderState {
        DecoderState {
            last_pitch_index: lag,
            lpc,
            prefilter_and_fold: true,
            loss_duration: self.longer_loss(lm),
            ..self
        }
    }

    /// Parameters of the continuation with a lag.
    pub open spec fn extrapolation(self, n: int, lag: i32) -> Extrapolation {
        Extrapolation {
            n,
            overlap: self.overlap as int,
            pitch: lag as int,
            fade: if self.loss_duration == 0 { Q15_ONE } else { NEXT_FADE },
        }
    }

    /// What concealment relies on: the length of the loss is in range, a running
    /// continuation has a lag, and a continued frame fits the analysed history.
    pub open spec fn concealable(self, n: int) -> bool {
        &&& self.valid()
        &&& self.mode.spectrum_wf()
        &&& self.mode.sizes_wf()
        &&& self.mode.mdct_wf()
        &&& 0 <= self.loss_duration <= MAX_LOSS
        &&& !self.noise_based() ==> n <= 1024
        &&& !self.noise_based() && self.loss_duration != 0 ==> self.last_pitch_index
            >= PLC_PITCH_LAG_MIN
    }
}

/// Comb filter settings with the gains reversed.
pub open spec fn prefilter(s: DecoderState) -> CombParameters {
    CombParameters {
        period_from: s.postfilter_period_old,
        period_to: s.postfilter_period,
        gain_from: 0i16.wrapping_sub(s.postfilter_gain_old),
        gain_to: 0i16.wrapping_sub(s.postfilter_gain),
        tapset_from: s.postfilter_tapset_old,
        tapset_to: s.postfilter_tapset,
    }
}

/// The history of a channel with the post-filter taken back from the overlap in
/// front of a frame of `n` samples, and folded.
pub open spec fn row_prefiltered(s: DecoderState, r: Seq<i32>, n: int) -> Seq<i32> {
    row_folded(r, DECODE_BUFFER_SIZE - n, s.overlap as int, prefilter(s), s.mode.window@)
}

/// The history of a channel moved by a frame; an overlap that concealment left
/// is folded.
pub open spec fn row_advanced(s: DecoderState, r: Seq<i32>, n: int) -> Seq<i32> {
    let moved = row_moved(r, n);
    if s.prefilter_and_fold {
        row_prefiltered(s, moved, n)
    } else {
        moved
    }
}

impl DecoderState {
    /// The spectra of a frame of noise.
    pub open spec fn noise_spectra(self, lm: int) -> Spectra {
        Spectra {
            mode: self.mode,
            x: self.noise(lm).0,
            old_band_e: self.decayed_energies(),
            start: self.start_band as int,
            eff_end: self.eff_end(),
            coded_channels: self.channels as int,
            lm,
            downsample: self.downsample as int,
            silence: false,
        }
    }

    /// The lag with which a loss is continued.
    pub open spec fn loss_lag(self) -> i32 {
        if self.loss_duration == 0 {
            plc_lag(self.decode_mem, self.stride(), self.channels as int)
        } else {
            self.last_pitch_index
        }
    }

    /// The predictor with which a loss is continued in one channel.
    pub open spec fn loss_predictor(self, channel: int) -> Seq<i16> {
        if self.loss_duration == 0 {
            plc_predictor(
                row(self.decode_mem, self.stride(), channel),
                self.mode.window@,
                self.overlap as int,
            )
        } else {
            row(self.lpc, LPC_ORDER as int, channel)
        }
    }
}

/// How a lost frame changes a decoder.
pub open spec fn lost(s: DecoderState, t: DecoderState, n: int, lm: int) -> bool {
    &&& t.decode_mem.len() == s.decode_mem.len()
    &&& t.lpc.len() == s.lpc.len()
    &&& if s.noise_based() {
        &&& t == (DecoderState { decode_mem: t.decode_mem, ..s.noise_concealed(lm) })
        &&& forall|channel: int|
            0 <= channel < s.channels ==> #[trigger] row(t.decode_mem, s.stride(), channel)
                == row_synthesised(
                s.mode,
                s.noise_spectra(lm).output(s.channels as int, channel),
                row_advanced(s, row(s.decode_mem, s.stride(), channel), n),
                DECODE_BUFFER_SIZE - n,
                lm,
                false,
            )
    } else {
        &&& t == (DecoderState {
            decode_mem: t.decode_mem,
            ..s.pitch_concealed(lm, s.loss_lag(), t.lpc)
        })
        &&& forall|channel: int|
            0 <= channel < s.channels ==> #[trigger] row(t.lpc, LPC_ORDER as int, channel)
                == s.loss_predictor(channel)
        &&& s.loss_duration != 0 ==> t.lpc == s.lpc
        &&& PLC_PITCH_LAG_MIN <= t.last_pitch_index <= PLC_PITCH_LAG_MAX
        &&& forall|channel: int|
            0 <= channel < s.channels ==> #[trigger] row(t.decode_mem, s.stride(), channel)
                == s.extrapolation(n, s.loss_lag()).extrapolated(
                row(s.decode_mem, s.stride(), channel),
                s.loss_predictor(channel),
                s.mode.window@,
            )
    }
}

/// Computes [`band_noise`].
fn fill_band_noise(
    mode: &OpusCustomMode,
    m: usize,
    x: &mut Vec<i16>,
    base: usize,
    seed: u32,
    band: usize,
) -> (next: u32)
    requires
        mode.spectrum_wf(),
        1 <= m <= 8,
        band < mode.num_ebands,
        base + m * mode.short_mdct_size <= old(x)@.len(),
    ensures
        (final(x)@, next) == band_noise(*mode, m as int, old(x)@, base as int, seed, band as int),
        final(x)@.len() == old(x)@.len(),
{
    proof {
        lemma_scaled_edges(*mode, m as int, band as int, band + 1);
    }
    assert(x@.len() == x.len());
    let from: usize = band_edge(mode, m, band);
    let width: usize = band_edge(mode, m, band + 1) - from;
    let mut part: Vec<i16> = Vec::new();
    let mut s: u32 = seed;
    for j in 0..width
        invariant
            part@.len() == j,
            s == drawn(seed, j as nat),
            forall|i: int| 0 <= i < j ==> #[trigger] part@[i] == white_noise(width as int, seed)[i],
    {
        s = celt_lcg_rand(s);
        part.push(((s as i32) >> 20u32) as i16);
    }
    assert(part@ =~= white_noise(width as int, seed));
    renormalise_vector(&mut part, Q31_ONE);
    write_at(x, base + from, &part);
    s
}

/// Computes [`channels_noise`] for a fresh spectrum.
fn make_noise(mode: &OpusCustomMode, lm: usize, channels: usize, seed: u32, start: usize, end: usize) -> (
    r: (Vec<i16>, u32))
    requires
        mode.spectrum_wf(),
        lm <= 3,
        1 <= channels <= 2,
        end <= mode.num_ebands,
    ensures
        ({
            let m = scale_of(lm as int);
            (r.0@, r.1) == channels_noise(
                *mode,
                m,
                Seq::new((channels * (m * mode.short_mdct_size)) as nat, |i: int| 0i16),
                seed,
                start as int,
                end as int,
                0,
                channels as int,
            )
        }),
        r.0@.len() == channels * (scale_of(lm as int) * mode.short_mdct_size),
{
    let m: usize = scale(lm as i32);
    proof {
        lemma_scaled_edges(*mode, m as int, 0, 0);
    }
    let n: usize = m * mode.short_mdct_size;
    assert(channels * n <= 4096) by (nonlinear_arith)
        requires
            channels <= 2,
            n <= 2048,
    ;
    let mut x: Vec<i16> = vec![0i16; channels * n];
    let ghost x0 = Seq::new((channels * n) as nat, |i: int| 0i16);
    assert(x@ =~= x0);
    let mut s: u32 = seed;
    for channel in 0..channels
        invariant
            mode.spectrum_wf(),
            1 <= m <= 8,
            channels <= 2,
            n == m * mode.short_mdct_size,
            n <= 2048,
            end <= mode.num_ebands,
            x@.len() == channels * n,
            channels_noise(
                *mode,
                m as int,
                x@,
                s,
                start as int,
                end as int,
                channel as int,
                channels as int,
            ) == channels_noise(
                *mode,
                m as int,
                x0,
                seed,
                start as int,
                end as int,
                0,
                channels as int,
            ),
    {
        proof {
            lemma_row(channel as int, channels as int, n as int);
        }
        assert(x@.len() == x.len());
        let base: usize = channel * n;
        let ghost x1 = x@;
        let ghost s1 = s;
        let mut band: usize = start;
        while band < end
            invariant
                mode.spectrum_wf(),
                1 <= m <= 8,
                n == m * mode.short_mdct_size,
                end <= mode.num_ebands,
                x@.len() == channels * n,
                base + n <= x@.len(),
                bands_noise(*mode, m as int, x@, base as int, s, band as int, end as int)
                    == bands_noise(*mode, m as int, x1, base as int, s1, start as int, end as int),
            decreases end - band,
        {
            s = fill_band_noise(mode, m, &mut x, base, s, band);
            band = band + 1;
        }
    }
    (x, s)
}

/// Lets the energies fall towards the background.
fn decay_energies(decoder: &mut OpusCustomDecoder<'_>)
    requires
        old(decoder)@.valid(),
        old(decoder)@.mode.bands_wf(),
    ensures
        final(decoder)@ == (DecoderState {
            old_ebands: old(decoder)@.decayed_energies(),
            ..old(decoder)@
        }),
        final(decoder).mode == old(decoder).mode,
{
    let ghost s = decoder@;
    let bands: usize = decoder.mode.num_ebands;
    let decay: i32 = if decoder.loss_duration == 0 { FIRST_DECAY } else { NEXT_DECAY };
    assert(decoder.channels * bands <= 2 * bands) by (nonlinear_arith)
        requires
            decoder.channels <= 2,
            bands >= 0,
    ;
    let total: usize = decoder.channels * bands;
    for i in 0..total
        invariant
            1 <= bands,
            total == s.channels * bands,
            total <= s.old_ebands.len(),
            s.old_ebands.len() == s.background_log_e.len(),
            bands == s.mode.num_ebands,
            s.start_band >= 0,
            s.end_band >= 0,
            decay == (if s.loss_duration == 0 { FIRST_DECAY } else { NEXT_DECAY }),
            decoder.mode == old(decoder).mode,
            decoder.old_ebands@.len() == s.old_ebands.len(),
            decoder@ == (DecoderState { old_ebands: decoder.old_ebands@, ..s }),
            forall|k: int|
                0 <= k < s.old_ebands.len() ==> #[trigger] decoder.old_ebands@[k] == (if k < i {
                    s.decayed_energies()[k]
                } else {
                    s.old_ebands[k]
                }),
    {
        let band: usize = i % bands;
        if decoder.start_band as usize <= band && band < decoder.end_band as usize {
            let fallen: i32 = decoder.old_ebands[i].wrapping_sub(decay);
            let background: i32 = decoder.background_log_e[i];
            decoder.old_ebands.set(i, if background > fallen { background } else { fallen });
        }
    }
    assert(decoder.old_ebands@ =~= s.decayed_energies());
}

/// Takes the post-filter back from the overlap in front of a frame of `n`
/// samples and folds it, so that the next frame can be added to it.
pub fn prefilter_and_fold(decoder: &mut OpusCustomDecoder<'_>, n: usize)
    requires
        old(decoder)@.valid(),
        old(decoder)@.mode.sizes_wf(),
        n <= DECODE_BUFFER_SIZE,
    ensures
        final(decoder)@ == (DecoderState { decode_mem: final(decoder)@.decode_mem, ..old(decoder)@ }),
        final(decoder)@.decode_mem.len() == old(decoder)@.decode_mem.len(),
        forall|channel: int|
            0 <= channel < old(decoder).channels ==> #[trigger] row(
                final(decoder)@.decode_mem,
                old(decoder)@.stride(),
                channel,
            ) == row_prefiltered(
                old(decoder)@,
                row(old(decoder)@.decode_mem, old(decoder)@.stride(), channel),
                n as int,
            ),
        final(decoder).mode == old(decoder).mode,
{
    let mode: &OpusCustomMode = decoder.mode;
    let stride: usize = DECODE_BUFFER_SIZE + decoder.overlap;
    proof {
        vstd::arithmetic::mul::lemma_mul_is_commutative(stride as int, decoder.channels as int);
    }
    let parameters: CombParameters = CombParameters {
        period_from: decoder.postfilter_period_old,
        period_to: decoder.postfilter_period,
        gain_from: 0i16.wrapping_sub(decoder.postfilter_gain_old),
        gain_to: 0i16.wrapping_sub(decoder.postfilter_gain),
        tapset_from: decoder.postfilter_tapset_old,
        tapset_to: decoder.postfilter_tapset,
    };
    assert(parameters == prefilter(decoder@));
    fold_rows(
        &mut decoder.decode_mem,
        stride,
        decoder.channels,
        DECODE_BUFFER_SIZE - n,
        decoder.overlap,
        &parameters,
        &mode.window,
    );
}

/// Moves the history by a frame and folds its overlap if concealment left one.
pub fn advance_history(decoder: &mut OpusCustomDecoder<'_>, n: usize)
    requires
        old(decoder)@.valid(),
        old(decoder)@.mode.sizes_wf(),
        n <= DECODE_BUFFER_SIZE,
    ensures
        final(decoder)@ == (DecoderState { decode_mem: final(decoder)@.decode_mem, ..old(decoder)@ }),
        final(decoder)@.decode_mem.len() == old(decoder)@.decode_mem.len(),
        forall|channel: int|
            0 <= channel < old(decoder).channels ==> #[trigger] row(
                final(decoder)@.decode_mem,
                old(decoder)@.stride(),
                channel,
            ) == row_advanced(
                old(decoder)@,
                row(old(decoder)@.decode_mem, old(decoder)@.stride(), channel),
                n as int,
            ),
        final(decoder).mode == old(decoder).mode,
{
    let stride: usize = DECODE_BUFFER_SIZE + decoder.overlap;
    proof {
        vstd::arithmetic::mul::lemma_mul_is_commutative(stride as int, decoder.channels as int);
    }
    let ghost s = decoder@;
    move_rows(&mut decoder.decode_mem, stride, decoder.channels, n);
    if decoder.prefilter_and_fold {
        let ghost moved = decoder@;
        assert(moved.stride() == s.stride() && prefilter(moved) == prefilter(s));
        prefilter_and_fold(decoder, n);
        assert forall|channel: int| 0 <= channel < s.channels implies #[trigger] row(
            decoder@.decode_mem,
            s.stride(),
            channel,
        ) == row_advanced(s, row(s.decode_mem, s.stride(), channel), n as int) by {
            assert(row(moved.decode_mem, s.stride(), channel) == row_moved(
                row(s.decode_mem, s.stride(), channel),
                n as int,
            ));
        }
    }
}

/// Replaces a frame by noise.
fn conceal_with_noise(decoder: &mut OpusCustomDecoder<'_>, n: usize, lm: usize)
    requires
        old(decoder)@.concealable(n as int),
        old(decoder)@.noise_based(),
        lm <= old(decoder).mode.max_lm,
        n == scale_of(lm as int) * old(decoder).mode.short_mdct_size,
    ensures
        lost(old(decoder)@, final(decoder)@, n as int, lm as int),
        final(decoder).mode == old(decoder).mode,
{
    let ghost s = decoder@;
    let mode: &OpusCustomMode = decoder.mode;
    let channels: usize = decoder.channels;
    let stride: usize = DECODE_BUFFER_SIZE + decoder.overlap;
    proof {
        vstd::arithmetic::mul::lemma_mul_is_commutative(stride as int, channels as int);
        lemma_scaled_edges(*mode, scale_of(lm as int), 0, 0);
        assert(channels * mode.num_ebands <= 2 * mode.num_ebands) by (nonlinear_arith)
            requires
                channels <= 2,
        ;
    }
    advance_history(decoder, n);
    let ghost advanced = decoder@.decode_mem;
    decay_energies(decoder);
    let start: usize = decoder.start_band as usize;
    let end: usize = decoder.end_band as usize;
    let limit: usize = if end < mode.effective_ebands { end } else { mode.effective_ebands };
    let eff_end: usize = if limit < start { start } else { limit };
    let (spectrum, seed) = make_noise(mode, lm, channels, decoder.rng, start, eff_end);
    decoder.rng = seed;
    let input: SynthesisInput<'_> = SynthesisInput {
        mode,
        x: &spectrum,
        old_band_e: &decoder.old_ebands,
        start,
        eff_end,
        coded_channels: channels,
        lm,
        downsample: decoder.downsample as usize,
        silence: false,
    };
    assert(input@ =~= s.noise_spectra(lm as int));
    synthesise_rows(
        &input,
        &mut decoder.decode_mem,
        stride,
        channels,
        DECODE_BUFFER_SIZE - n,
        false,
    );
    decoder.prefilter_and_fold = false;
    decoder.skip_plc = true;
    let longer: i32 = decoder.loss_duration + scale(lm as i32) as i32;
    decoder.loss_duration = if longer < MAX_LOSS { longer } else { MAX_LOSS };
    proof {
        assert forall|channel: int| 0 <= channel < s.channels implies #[trigger] row(
            decoder@.decode_mem,
            s.stride(),
            channel,
        ) == row_synthesised(
            s.mode,
            s.noise_spectra(lm as int).output(s.channels as int, channel),
            row_advanced(s, row(s.decode_mem, s.stride(), channel), n as int),
            DECODE_BUFFER_SIZE - n,
            lm as int,
            false,
        ) by {
            assert(row(advanced, s.stride(), channel) == row_advanced(
                s,
                row(s.decode_mem, s.stride(), channel),
                n as int,
            ));
        }
        assert(decoder@ =~= (DecoderState {
            decode_mem: decoder@.decode_mem,
            ..s.noise_concealed(lm as int)
        }));
    }
}

/// Pitch lag for a distance from the longest lag, kept in the searched range.
pub open spec fn lag_of(index: i32) -> i32 {
    if index < 0 {
        PLC_PITCH_LAG_MAX
    } else if index > PLC_PITCH_LAG_MAX - PLC_PITCH_LAG_MIN {
        PLC_PITCH_LAG_MIN
    } else {
        (PLC_PITCH_LAG_MAX - index) as i32
    }
}

/// Computes [`lag_of`].
pub fn pitch_lag(index: i32) -> (lag: i32)
    ensures
        lag == lag_of(index),
        PLC_PITCH_LAG_MIN <= lag <= PLC_PITCH_LAG_MAX,
{
    if index < 0 {
        PLC_PITCH_LAG_MAX
    } else if index > PLC_PITCH_LAG_MAX - PLC_PITCH_LAG_MIN {
        PLC_PITCH_LAG_MIN
    } else {
        PLC_PITCH_LAG_MAX - index
    }
}

/// The analysed part of the histories of all channels.
pub open spec fn analysed(mem: Seq<i32>, stride: int, channels: int) -> Seq<Seq<i32>> {
    Seq::new(
        channels as nat,
        |c: int| row(mem, stride, c).subrange(0, DECODE_BUFFER_SIZE as int),
    )
}

/// Pitch lag of the history.
pub open spec fn plc_lag(mem: Seq<i32>, stride: int, channels: int) -> i32 {
    let lp = downsampled(analysed(mem, stride, channels), 1024);
    lag_of(searched(lp.subrange(360, 1024), lp, 1328, 620) as i32)
}

/// Computes [`plc_lag`].
pub fn celt_plc_pitch_search(decode_mem: &Vec<i32>, stride: usize, channels: usize) -> (lag: i32)
    requires
        decode_mem@.len() == channels * stride,
        stride >= DECODE_BUFFER_SIZE,
    ensures
        lag == plc_lag(decode_mem@, stride as int, channels as int),
        PLC_PITCH_LAG_MIN <= lag <= PLC_PITCH_LAG_MAX,
{
    let mut views: Vec<Vec<i32>> = Vec::new();
    for channel in 0..channels
        invariant
            decode_mem@.len() == channels * stride,
            stride >= DECODE_BUFFER_SIZE,
            views@.len() == channel,
            forall|c: int|
                0 <= c < channel ==> (#[trigger] views@[c])@ == analysed(
                    decode_mem@,
                    stride as int,
                    channels as int,
                )[c],
            forall|c: int| 0 <= c < channel ==> (#[trigger] views@[c])@.len() == DECODE_BUFFER_SIZE,
    {
        let r: Vec<i32> = read_row(decode_mem, stride, channels, channel);
        views.push(copy_range(&r, 0, DECODE_BUFFER_SIZE));
    }
    assert(contents(views@) =~= analysed(decode_mem@, stride as int, channels as int));
    let lp: Vec<i16> = pitch_downsample(&views, 1024);
    let target: Vec<i16> = copy_range(&lp, 360, 1024);
    pitch_lag(pitch_search(&target, &lp, 1328, 620))
}

/// Predictor for the last samples of a channel, made safe for recursion.
pub open spec fn plc_predictor(r: Seq<i32>, window: Seq<i16>, overlap: int) -> Seq<i16> {
    let x = Seq::new(1024, |i: int| sig2word16(r[1024 + i]));
    bandwidth_expanded(
        predictor(
            lag_windowed(autocorrelated(x, window, overlap, LPC_ORDER as int)),
            LPC_ORDER as int,
        ),
    )
}

/// Computes [`plc_predictor`].
fn find_predictor(mem: &Vec<i32>, window: &Vec<i16>, overlap: usize) -> (lpc: Vec<i16>)
    requires
        mem@.len() >= DECODE_BUFFER_SIZE,
        overlap <= window@.len(),
        2 * overlap <= 1024,
    ensures
        lpc@ == plc_predictor(mem@, window@, overlap as int),
        lpc@.len() == LPC_ORDER,
        iir_safe(lpc@),
{
    let mut x: Vec<i16> = Vec::new();
    for i in 1024..DECODE_BUFFER_SIZE
        invariant
            mem@.len() >= DECODE_BUFFER_SIZE,
            x@.len() == i - 1024,
            forall|k: int| 0 <= k < x@.len() ==> #[trigger] x@[k] == sig2word16(mem@[1024 + k]),
    {
        x.push(sig2word16(mem[i]));
    }
    assert(x@ =~= Seq::new(1024, |i: int| sig2word16(mem@[1024 + i])));
    let mut ac: Vec<i32> = celt_autocorr(&x, window, overlap, LPC_ORDER);
    window_lags(&mut ac);
    let mut lpc: Vec<i16> = celt_lpc(&ac, LPC_ORDER);
    plc_bandwidth_expand_for_iir(&mut lpc);
    lpc
}

/// Finds the predictors of all channels.
fn find_predictors(decoder: &mut OpusCustomDecoder<'_>)
    requires
        old(decoder)@.valid(),
        old(decoder)@.mode.sizes_wf(),
    ensures
        final(decoder)@ == (DecoderState { lpc: final(decoder)@.lpc, ..old(decoder)@ }),
        final(decoder)@.lpc.len() == old(decoder)@.lpc.len(),
        forall|channel: int|
            0 <= channel < old(decoder).channels ==> #[trigger] row(
                final(decoder)@.lpc,
                LPC_ORDER as int,
                channel,
            ) == plc_predictor(
                row(old(decoder)@.decode_mem, old(decoder)@.stride(), channel),
                old(decoder).mode.window@,
                old(decoder).overlap as int,
            ),
        final(decoder).mode == old(decoder).mode,
{
    let ghost s = decoder@;
    let mode: &OpusCustomMode = decoder.mode;
    let channels: usize = decoder.channels;
    let stride: usize = DECODE_BUFFER_SIZE + decoder.overlap;
    proof {
        vstd::arithmetic::mul::lemma_mul_is_commutative(stride as int, channels as int);
    }
    for channel in 0..channels
        invariant
            s.valid(),
            s.mode.sizes_wf(),
            *mode == s.mode,
            channels == s.channels,
            stride == s.stride(),
            stride >= DECODE_BUFFER_SIZE,
            decoder.mode == old(decoder).mode,
            decoder@ == (DecoderState { lpc: decoder@.lpc, ..s }),
            s.decode_mem.len() == channels * stride,
            decoder@.lpc.len() == LPC_ORDER * channels,
            forall|c: int|
                0 <= c < channel ==> #[trigger] row(decoder@.lpc, LPC_ORDER as int, c)
                    == plc_predictor(
                    row(s.decode_mem, stride as int, c),
                    s.mode.window@,
                    s.overlap as int,
                ),
    {
        let r: Vec<i32> = read_row(&decoder.decode_mem, stride, channels, channel);
        let lpc: Vec<i16> = find_predictor(&r, &mode.window, decoder.overlap);
        write_row(&mut decoder.lpc, LPC_ORDER, channels, channel, &lpc);
    }
}

/// Continues all channels with the predictors and the lag of the decoder.
fn continue_channels(decoder: &mut OpusCustomDecoder<'_>, n: usize)
    requires
        old(decoder)@.valid(),
        old(decoder)@.mode.sizes_wf(),
        n <= 1024,
        old(decoder).last_pitch_index >= PLC_PITCH_LAG_MIN,
    ensures
        final(decoder)@ == (DecoderState { decode_mem: final(decoder)@.decode_mem, ..old(decoder)@ }),
        final(decoder)@.decode_mem.len() == old(decoder)@.decode_mem.len(),
        forall|channel: int|
            0 <= channel < old(decoder).channels ==> #[trigger] row(
                final(decoder)@.decode_mem,
                old(decoder)@.stride(),
                channel,
            ) == old(decoder)@.extrapolation(
                n as int,
                old(decoder).last_pitch_index,
            ).extrapolated(
                row(old(decoder)@.decode_mem, old(decoder)@.stride(), channel),
                row(old(decoder)@.lpc, LPC_ORDER as int, channel),
                old(decoder).mode.window@,
            ),
        final(decoder).mode == old(decoder).mode,
{
    let ghost s = decoder@;
    let mode: &OpusCustomMode = decoder.mode;
    let channels: usize = decoder.channels;
    let overlap: usize = decoder.overlap;
    let stride: usize = DECODE_BUFFER_SIZE + overlap;
    let pitch: usize = decoder.last_pitch_index as usize;
    let fade: i16 = if decoder.loss_duration == 0 { Q15_ONE } else { NEXT_FADE };
    let ghost e = s.extrapolation(n as int, s.last_pitch_index);
    proof {
        vstd::arithmetic::mul::lemma_mul_is_commutative(stride as int, channels as int);
    }
    for channel in 0..channels
        invariant
            s.valid(),
            s.mode.sizes_wf(),
            n <= 1024,
            *mode == s.mode,
            channels == s.channels,
            overlap == s.overlap,
            stride == s.stride(),
            stride == DECODE_BUFFER_SIZE + overlap,
            pitch == s.last_pitch_index,
            pitch >= PLC_PITCH_LAG_MIN,
            e == s.extrapolation(n as int, s.last_pitch_index),
            e.fade == fade,
            decoder.mode == old(decoder).mode,
            decoder@ == (DecoderState { decode_mem: decoder@.decode_mem, ..s }),
            decoder@.decode_mem.len() == channels * stride,
            forall|c: int|
                0 <= c < channels ==> #[trigger] row(decoder@.decode_mem, stride as int, c) == (if c
                    < channel {
                    e.extrapolated(
                        row(s.decode_mem, stride as int, c),
                        row(s.lpc, LPC_ORDER as int, c),
                        s.mode.window@,
                    )
                } else {
                    row(s.decode_mem, stride as int, c)
                }),
    {
        let mut r: Vec<i32> = read_row(&decoder.decode_mem, stride, channels, channel);
        let lpc: Vec<i16> = read_row(&decoder.lpc, LPC_ORDER, channels, channel);
        extrapolate_channel(&mut r, n, overlap, pitch, fade, &lpc, &mode.window);
        write_row(&mut decoder.decode_mem, stride, channels, channel, &r);
    }
}

/// Replaces a frame by a continuation of the pitch.
fn conceal_with_pitch(decoder: &mut OpusCustomDecoder<'_>, n: usize, lm: usize)
    requires
        old(decoder)@.concealable(n as int),
        !old(decoder)@.noise_based(),
        lm <= old(decoder).mode.max_lm,
    ensures
        lost(old(decoder)@, final(decoder)@, n as int, lm as int),
        final(decoder).mode == old(decoder).mode,
{
    let ghost s = decoder@;
    let stride: usize = DECODE_BUFFER_SIZE + decoder.overlap;
    proof {
        vstd::arithmetic::mul::lemma_mul_is_commutative(stride as int, decoder.channels as int);
    }
    if decoder.loss_duration == 0 {
        let lag: i32 = celt_plc_pitch_search(&decoder.decode_mem, stride, decoder.channels);
        decoder.last_pitch_index = lag;
        assert(decoder@.stride() == s.stride());
        find_predictors(decoder);
    }
    let ghost ready = decoder@;
    proof {
        assert(ready.stride() == s.stride());
        assert(ready.last_pitch_index == s.loss_lag());
        assert(ready.extrapolation(n as int, s.loss_lag()) == s.extrapolation(
            n as int,
            s.loss_lag(),
        ));
        assert forall|channel: int| 0 <= channel < s.channels implies #[trigger] row(
            ready.lpc,
            LPC_ORDER as int,
            channel,
        ) == s.loss_predictor(channel) by {}
    }
    continue_channels(decoder, n);
    decoder.prefilter_and_fold = true;
    let longer: i32 = decoder.loss_duration + scale(lm as i32) as i32;
    decoder.loss_duration = if longer < MAX_LOSS { longer } else { MAX_LOSS };
    proof {
        assert forall|channel: int| 0 <= channel < s.channels implies #[trigger] row(
            decoder@.decode_mem,
            s.stride(),
            channel,
        ) == s.extrapolation(n as int, s.loss_lag()).extrapolated(
            row(s.decode_mem, s.stride(), channel),
            s.loss_predictor(channel),
            s.mode.window@,
        ) by {
            assert(row(ready.lpc, LPC_ORDER as int, channel) == s.loss_predictor(channel));
        }
    }
}

/// Makes up for a lost frame of `n` samples.
///
/// Noise is shaped by the decayed energies. A continuation of the pitch looks
/// for a lag and predictors in the first lost frame and keeps them in later
/// ones.
pub fn celt_decode_lost(decoder: &mut OpusCustomDecoder<'_>, n: usize, lm: usize)
    requires
        old(decoder)@.concealable(n as int),
        lm <= old(decoder).mode.max_lm,
        n == scale_of(lm as int) * old(decoder).mode.short_mdct_size,
    ensures
        lost(old(decoder)@, final(decoder)@, n as int, lm as int),
        final(decoder).mode == old(decoder).mode,
{
    if decoder.loss_duration >= 40 || decoder.start_band != 0 || decoder.skip_plc {
        conceal_with_noise(decoder, n, lm);
    } else {
        conceal_with_pitch(decoder, n, lm);
    }
}

} // verus!
