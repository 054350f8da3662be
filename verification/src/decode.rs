//! Decoding of a frame, from the packet to samples.

use vstd::prelude::*;
use crate::all_bands::{
    at_or_zero, bands_decoded, bands_started, quant_all_bands_decode, BandsConfig, BandsInput,
};
use crate::band_tf::{scale, scale_of, tf_valid};
use crate::collapse::{anti_collapse, CollapseInfo, CollapseInput};
use crate::comb::CombParameters;
use crate::concealment::{
    advance_history, celt_decode_lost, lost, row_advanced,
};
use crate::decoder::{
    constant, CeltDecodeError, DecoderState, OpusCustomDecoder, COMBFILTER_MINPERIOD,
    DECODE_BUFFER_SIZE, SILENCE_LOG_E,
};
use crate::fixed::pshr32;
use crate::energy::{final_decoded, unquant_energy_finalise};
use crate::frame::{
    frame_decoder, frame_read, frame_ready, prepare_frame, FrameBody, FramePreparation, FrameState,
    Postfilter,
};
use crate::header::{header_applied, header_found, FrameHeader};
use crate::memory::{comb_rows, read_row, row, row_synthesised, synthesise_rows};
use crate::mode::OpusCustomMode;
use crate::plc::sig2word16;
use crate::range_decoder::{EcDec, MAX_STORAGE};
use crate::spectrum::lemma_scaled_edges;
use crate::synthesis::{
    copy_range, deemphasis_filter, deemphasis_of, deemphasise_channel, Deemphasis, Spectra,
    SynthesisInput,
};

verus! {

/// Spectrum and energies of a frame, and the range decoder behind them.
#[verifier::ext_equal]
pub struct SpectrumState<'a> {
    pub dec: EcDec<'a>,
    /// Normalised spectra of the stream channels, one behind the other.
    pub x: Seq<i16>,
    /// Band energies with all their bits.
    pub e: Seq<i32>,
}

/// What the head of a frame says about the band shapes.
pub open spec fn shapes_of(s: DecoderState, h: FrameHeader, f: FrameState<'_>) -> BandsInput {
    BandsInput {
        mode: s.mode,
        start: s.start_band as usize,
        end: h.end,
        stereo: h.c == 2,
        pulses: f.allocation.pulses,
        short_blocks: f.transient,
        spread: f.spread,
        intensity: f.allocation.intensity as usize,
        tf_res: f.tf_res,
        total_bits: ((h.len * 64) as i32).wrapping_sub(f.anti_collapse_rsv),
        lm: h.lm as i32,
        coded_bands: f.allocation.coded as usize,
        disable_inv: s.disable_inv,
    }
}

/// Samples per channel of a frame.
pub open spec fn samples_of(s: DecoderState, h: FrameHeader) -> int {
    scale_of(h.lm as int) * s.mode.short_mdct_size
}

/// Bits that are left in the packet.
pub open spec fn bits_left(dec: EcDec<'_>) -> i32 {
    ((dec.buf@.len() * 8) as i32).wrapping_sub(dec.tell_bits())
}

/// Reads the band shapes and the last energy bits of a frame.
#[verifier::opaque]
pub open spec fn spectrum_read<'a>(s: DecoderState, h: FrameHeader, f: FrameState<'a>) -> SpectrumState<
    'a,
> {
    let cfg = shapes_of(s, h, f);
    let n = samples_of(s, h) as nat;
    let bands = s.mode.num_ebands as int;
    let silent = constant(n, 0i16);
    let b = bands_decoded(
        cfg,
        bands_started(
            cfg,
            f.dec,
            silent,
            if h.c == 2 { silent } else { Seq::empty() },
            constant((h.c * bands) as nat, 0u8),
            s.rng,
            f.allocation.balance,
            f.allocation.dual,
        ),
        cfg.start as int,
    );
    let (d, flag) = if f.anti_collapse_rsv > 0 { b.coder.raw(1) } else { (b.coder, 0u32) };
    let (dec, e) = final_decoded(
        d,
        f.e,
        bands,
        cfg.start as int,
        cfg.end as int,
        f.allocation.fine,
        f.allocation.priority,
        bits_left(d) as int,
        h.c as int,
    );
    let x = b.x + b.y;
    let filled = (CollapseInput {
        mode: s.mode,
        masks: b.masks,
        lm: h.lm,
        channels: h.c,
        start: cfg.start,
        end: cfg.end,
        log_e: e,
        prev1_log_e: s.old_log_e,
        prev2_log_e: s.old_log_e2,
        pulses: f.allocation.pulses,
        encode: false,
    }).bands_filled(x, b.seed, cfg.start as int).0;
    SpectrumState { dec, x: if flag != 0 { filled } else { x }, e }
}

/// The elements of `a` followed by those of `b`.
fn joined(a: Vec<i16>, b: &Vec<i16>) -> (r: Vec<i16>)
    ensures
        r@ == a@ + b@,
{
    let mut r: Vec<i16> = a;
    let ghost a0 = r@;
    let len: usize = b.len();
    for i in 0..len
        invariant
            len == b@.len(),
            r@ == a0 + b@.take(i as int),
    {
        r.push(b[i]);
        assert(b@.take(i + 1) =~= b@.take(i as int).push(b@[i as int]));
        assert(r@ =~= a0 + b@.take(i + 1));
    }
    assert(b@.take(len as int) =~= b@);
    r
}

/// Computes [`spectrum_read`].
#[verifier::rlimit(40)]
fn read_spectrum<'p>(
    decoder: &mut OpusCustomDecoder<'_>,
    h: &FrameHeader,
    body: &FrameBody<'p>,
    Ghost(f): Ghost<FrameState<'p>>,
) -> (r: (Vec<i16>, EcDec<'p>))
    requires
        body.holds(f),
        body.usable(
            *old(decoder).mode,
            old(decoder).start_band as int,
            h.end as int,
            h.lm as int,
        ),
        frame_ready(old(decoder)@, *h),
        f.e == old(decoder)@.old_ebands,
        old(decoder).mode.foldable(old(decoder).start_band as int, h.end as int),
        body.range_decoder.buf@.len() <= MAX_STORAGE,
    ensures
        ({
            let q = spectrum_read(old(decoder)@, *h, f);
            &&& r.0@ == q.x
            &&& r.1 == q.dec
            &&& final(decoder)@ == (DecoderState { old_ebands: q.e, ..old(decoder)@ })
            &&& q.e.len() == old(decoder)@.old_ebands.len()
        }),
        r.0@.len() == h.c * samples_of(old(decoder)@, *h),
        r.1.wf(),
        r.1.buf@ == body.range_decoder.buf@,
        final(decoder).mode == old(decoder).mode,
{
    proof {
        reveal(spectrum_read);
    }
    let ghost s = decoder@;
    let mode: &OpusCustomMode = decoder.mode;
    let bands: usize = mode.num_ebands;
    let start: usize = decoder.start_band as usize;
    let m: usize = scale(h.lm as i32);
    proof {
        lemma_scaled_edges(*mode, m as int, h.end as int, h.end as int);
        assert(h.c * bands <= 2 * bands) by (nonlinear_arith)
            requires
                h.c <= 2,
                bands >= 0,
        ;
        assert(h.c * h.end <= h.c * bands) by (nonlinear_arith)
            requires
                h.end <= bands,
                h.c >= 0,
        ;
    }
    let n: usize = m * mode.short_mdct_size;
    let cfg: BandsConfig<'_> = BandsConfig {
        mode,
        start,
        end: h.end,
        stereo: h.c == 2,
        pulses: body.allocation.pulses.as_slice(),
        short_blocks: body.is_transient,
        spread: body.spread_decision,
        intensity: body.allocation.intensity,
        tf_res: body.tf_res.as_slice(),
        total_bits: ((h.len * 64) as i32).wrapping_sub(body.anti_collapse_rsv),
        lm: h.lm as i32,
        coded_bands: body.allocation.coded,
        disable_inv: decoder.disable_inv,
    };
    proof {
        assert(cfg@ =~= shapes_of(s, *h, f));
        assert forall|band: int|
            #![trigger at_or_zero(cfg@.tf_res, band)]
            start <= band < h.end implies tf_valid(
            cfg@.blocks(),
            at_or_zero(cfg@.tf_res, band) as int,
        ) by {
            assert(tf_valid(
                if body.is_transient { scale_of(h.lm as int) } else { 1 },
                body.tf_res@[band] as int,
            ));
        }
        assert(cfg@.wf());
        assert(cfg@.at(h.end as int) <= n);
    }
    let mut x: Vec<i16> = vec![0i16; n];
    let mut y: Vec<i16> = if h.c == 2 { vec![0i16; n] } else { Vec::new() };
    let mut masks: Vec<u8> = vec![0u8; h.c * bands];
    proof {
        assert(x@ =~= constant(n as nat, 0i16));
        assert(y@ =~= (if h.c == 2 { constant(n as nat, 0i16) } else { Seq::empty() }));
        assert(masks@ =~= constant((h.c * bands) as nat, 0u8));
    }
    let mut dec: EcDec<'p> = body.range_decoder;
    let seed: u32 = quant_all_bands_decode(
        &cfg,
        &mut dec,
        &mut x,
        &mut y,
        &mut masks,
        decoder.rng,
        body.allocation.balance,
        body.allocation.dual,
    );
    proof {
        vstd::arithmetic::power2::lemma2_to64();
    }
    let flag: u32 = if body.anti_collapse_rsv > 0 { dec.dec_bits(1) } else { 0 };
    let left: i32 = ((dec.buf.len() * 8) as i32).wrapping_sub(dec.tell());
    unquant_energy_finalise(
        bands,
        start,
        h.end,
        &mut decoder.old_ebands,
        &body.allocation.fine,
        &body.allocation.priority,
        left,
        &mut dec,
        h.c,
    );
    let mut spectrum: Vec<i16> = joined(x, &y);
    assert(spectrum@.len() == h.c * n) by (nonlinear_arith)
        requires
            1 <= h.c <= 2,
            spectrum@.len() == (if h.c == 2 { n + n } else { n as int }),
    ;
    if flag != 0 {
        let info: CollapseInfo<'_> = CollapseInfo {
            mode,
            masks: &masks,
            lm: h.lm,
            channels: h.c,
            start,
            end: h.end,
            log_e: &decoder.old_ebands,
            prev1_log_e: &decoder.old_log_e,
            prev2_log_e: &decoder.old_log_e2,
            pulses: &body.allocation.pulses,
            encode: false,
        };
        let _ = anti_collapse(&info, &mut spectrum, seed);
    }
    (spectrum, dec)
}

/// Energies of a silent frame.
pub open spec fn silenced(e: Seq<i32>, silence: bool) -> Seq<i32> {
    if silence {
        constant(e.len(), SILENCE_LOG_E)
    } else {
        e
    }
}

/// Energies with the row of a single stream channel copied to the second row.
pub open spec fn mirrored(e: Seq<i32>, bands: int, c: int) -> Seq<i32> {
    if c == 1 {
        Seq::new(e.len(), |i: int| if i >= bands { e[i - bands] } else { e[i] })
    } else {
        e
    }
}

/// Rise of the background energies after a frame, 0.001 in Q24 per short block.
pub open spec fn background_rise(loss_duration: i32, m: int) -> i32 {
    (if loss_duration + m < 160 { (loss_duration + m) * 16777 } else { 2684320int }) as i32
}

/// The smaller of two words.
pub open spec fn smaller(a: i32, b: i32) -> i32 {
    if a < b {
        a
    } else {
        b
    }
}

/// Whether an element of a pair of energy rows lies outside the coded bands.
pub open spec fn uncoded(i: int, bands: int, start: int, end: int) -> bool {
    i % bands < start || i % bands >= end
}

/// The energy histories after a frame.
pub open spec fn energies_settled(s: DecoderState, h: FrameHeader, transient: bool) -> DecoderState {
    let bands = s.mode.num_ebands as int;
    let start = s.start_band as int;
    let end = h.end as int;
    let e = mirrored(s.old_ebands, bands, h.c as int);
    let rise = background_rise(s.loss_duration, scale_of(h.lm as int));
    DecoderState {
        old_ebands: Seq::new(
            s.old_ebands.len(),
            |i: int| if uncoded(i, bands, start, end) { 0 } else { e[i] },
        ),
        old_log_e: Seq::new(
            s.old_log_e.len(),
            |i: int|
                if uncoded(i, bands, start, end) {
                    SILENCE_LOG_E
                } else if transient {
                    smaller(s.old_log_e[i], e[i])
                } else {
                    e[i]
                },
        ),
        old_log_e2: Seq::new(
            s.old_log_e2.len(),
            |i: int|
                if uncoded(i, bands, start, end) {
                    SILENCE_LOG_E
                } else if transient {
                    s.old_log_e2[i]
                } else {
                    s.old_log_e[i]
                },
        ),
        background_log_e: Seq::new(
            s.background_log_e.len(),
            |i: int| smaller(s.background_log_e[i].wrapping_add(rise), e[i]),
        ),
        ..s
    }
}

/// Computes [`mirrored`].
fn mirror(e: &mut Vec<i32>, bands: usize, c: usize)
    requires
        old(e)@.len() == 2 * bands,
        bands <= 0xff,
    ensures
        final(e)@ == mirrored(old(e)@, bands as int, c as int),
        final(e)@.len() == old(e)@.len(),
{
    if c != 1 {
        return;
    }
    let ghost e0 = e@;
    for i in 0..bands
        invariant
            e@.len() == 2 * bands,
            e0.len() == 2 * bands,
            bands <= 0xff,
            forall|k: int|
                0 <= k < e0.len() ==> #[trigger] e@[k] == (if bands <= k < bands + i {
                    e0[k - bands]
                } else {
                    e0[k]
                }),
    {
        let v: i32 = e[i];
        e.set(bands + i, v);
    }
    assert(e@ =~= mirrored(e0, bands as int, c as int));
}

/// Computes [`energies_settled`].
#[verifier::rlimit(40)]
fn settle_energies(decoder: &mut OpusCustomDecoder<'_>, h: &FrameHeader, transient: bool)
    requires
        old(decoder)@.valid(),
        1 <= old(decoder).mode.num_ebands <= 25,
        0 <= old(decoder).loss_duration <= 10000,
        h.lm <= 3,
    ensures
        final(decoder)@ == energies_settled(old(decoder)@, *h, transient),
        final(decoder).mode == old(decoder).mode,
{
    let ghost s = decoder@;
    let bands: usize = decoder.mode.num_ebands;
    let start: usize = decoder.start_band as usize;
    mirror(&mut decoder.old_ebands, bands, h.c);
    let ghost e = decoder.old_ebands@;
    let since: i32 = decoder.loss_duration + scale(h.lm as i32) as i32;
    let rise: i32 = (if since < 160 { since } else { 160 }) * 16777;
    let ghost t = energies_settled(s, *h, transient);
    for i in 0..2 * bands
        invariant
            1 <= bands <= 25,
            bands == s.mode.num_ebands,
            start == s.start_band,
            s.valid(),
            e == mirrored(s.old_ebands, bands as int, h.c as int),
            e.len() == 2 * bands,
            rise == background_rise(s.loss_duration, scale_of(h.lm as int)),
            t == energies_settled(s, *h, transient),
            decoder.mode == old(decoder).mode,
            decoder@ == (DecoderState {
                old_ebands: decoder@.old_ebands,
                old_log_e: decoder@.old_log_e,
                old_log_e2: decoder@.old_log_e2,
                background_log_e: decoder@.background_log_e,
                ..s
            }),
            decoder@.old_ebands.len() == 2 * bands,
            decoder@.old_log_e.len() == 2 * bands,
            decoder@.old_log_e2.len() == 2 * bands,
            decoder@.background_log_e.len() == 2 * bands,
            forall|k: int| 0 <= k < i ==> #[trigger] decoder@.old_ebands[k] == t.old_ebands[k],
            forall|k: int| 0 <= k < i ==> #[trigger] decoder@.old_log_e[k] == t.old_log_e[k],
            forall|k: int| 0 <= k < i ==> #[trigger] decoder@.old_log_e2[k] == t.old_log_e2[k],
            forall|k: int|
                0 <= k < i ==> #[trigger] decoder@.background_log_e[k] == t.background_log_e[k],
            forall|k: int| i <= k < 2 * bands ==> #[trigger] decoder@.old_ebands[k] == e[k],
            forall|k: int| i <= k < 2 * bands ==> #[trigger] decoder@.old_log_e[k] == s.old_log_e[k],
            forall|k: int|
                i <= k < 2 * bands ==> #[trigger] decoder@.old_log_e2[k] == s.old_log_e2[k],
            forall|k: int|
                i <= k < 2 * bands ==> #[trigger] decoder@.background_log_e[k]
                    == s.background_log_e[k],
    {
        let band: usize = i % bands;
        let v: i32 = decoder.old_ebands[i];
        let raised: i32 = decoder.background_log_e[i].wrapping_add(rise);
        decoder.background_log_e.set(i, if raised < v { raised } else { v });
        let log_e: i32 = decoder.old_log_e[i];
        if band < start || band >= h.end {
            decoder.old_ebands.set(i, 0);
            decoder.old_log_e.set(i, SILENCE_LOG_E);
            decoder.old_log_e2.set(i, SILENCE_LOG_E);
        } else if transient {
            decoder.old_log_e.set(i, if log_e < v { log_e } else { v });
        } else {
            decoder.old_log_e2.set(i, log_e);
            decoder.old_log_e.set(i, v);
        }
    }
    assert(decoder@.old_ebands =~= t.old_ebands);
    assert(decoder@.old_log_e =~= t.old_log_e);
    assert(decoder@.old_log_e2 =~= t.old_log_e2);
    assert(decoder@.background_log_e =~= t.background_log_e);
}

/// A period that the comb filter can run with.
pub open spec fn usable_period(period: i32) -> i32 {
    if period < COMBFILTER_MINPERIOD {
        COMBFILTER_MINPERIOD
    } else {
        period
    }
}

/// The post-filter settings after a frame: long frames fade to the new settings
/// at once, single blocks one frame later.
pub open spec fn postfilter_shifted(s: DecoderState, lm: int, p: Postfilter) -> DecoderState {
    DecoderState {
        postfilter_period_old: if lm != 0 {
            p.pitch
        } else {
            usable_period(s.postfilter_period)
        },
        postfilter_gain_old: if lm != 0 { p.gain } else { s.postfilter_gain },
        postfilter_tapset_old: if lm != 0 { p.tapset } else { s.postfilter_tapset },
        postfilter_period: p.pitch,
        postfilter_gain: p.gain,
        postfilter_tapset: p.tapset,
        ..s
    }
}

/// The post-filter of the first short block of a frame, which fades from the
/// settings before the last frame to those of the last frame.
pub open spec fn first_filter(s: DecoderState) -> CombParameters {
    CombParameters {
        period_from: usable_period(s.postfilter_period_old),
        period_to: usable_period(s.postfilter_period),
        gain_from: s.postfilter_gain_old,
        gain_to: s.postfilter_gain,
        tapset_from: s.postfilter_tapset_old,
        tapset_to: s.postfilter_tapset,
    }
}

/// The post-filter of the rest of a frame, which fades to the new settings.
pub open spec fn second_filter(s: DecoderState, p: Postfilter) -> CombParameters {
    CombParameters {
        period_from: usable_period(s.postfilter_period),
        period_to: p.pitch,
        gain_from: s.postfilter_gain,
        gain_to: p.gain,
        tapset_from: s.postfilter_tapset,
        tapset_to: p.tapset,
    }
}

/// The history of a channel with the post-filter run over the last frame.
pub open spec fn row_postfiltered(
    s: DecoderState,
    r: Seq<i32>,
    n: int,
    lm: int,
    p: Postfilter,
) -> Seq<i32> {
    let start = DECODE_BUFFER_SIZE - n;
    let short = s.mode.short_mdct_size as int;
    let window = s.mode.window@;
    let overlap = s.overlap as int;
    let once = first_filter(s).filtered_in_place(r, start, short, window, overlap, 0);
    if lm != 0 && short < n {
        second_filter(s, p).filtered_in_place(once, start + short, n - short, window, overlap, 0)
    } else {
        once
    }
}

/// Runs the post-filter over a frame and takes over its settings.
fn filter_frame(decoder: &mut OpusCustomDecoder<'_>, n: usize, lm: usize, p: &Postfilter)
    requires
        old(decoder)@.valid(),
        old(decoder)@.mode.sizes_wf(),
        old(decoder).mode.short_mdct_size <= n <= DECODE_BUFFER_SIZE,
        0 <= p.tapset <= 2,
    ensures
        final(decoder)@ == (DecoderState {
            decode_mem: final(decoder)@.decode_mem,
            ..postfilter_shifted(old(decoder)@, lm as int, *p)
        }),
        final(decoder)@.decode_mem.len() == old(decoder)@.decode_mem.len(),
        forall|channel: int|
            0 <= channel < old(decoder).channels ==> #[trigger] row(
                final(decoder)@.decode_mem,
                old(decoder)@.stride(),
                channel,
            ) == row_postfiltered(
                old(decoder)@,
                row(old(decoder)@.decode_mem, old(decoder)@.stride(), channel),
                n as int,
                lm as int,
                *p,
            ),
        final(decoder).mode == old(decoder).mode,
{
    let ghost s = decoder@;
    let mode: &OpusCustomMode = decoder.mode;
    let channels: usize = decoder.channels;
    let overlap: usize = decoder.overlap;
    let stride: usize = DECODE_BUFFER_SIZE + overlap;
    proof {
        vstd::arithmetic::mul::lemma_mul_is_commutative(stride as int, channels as int);
    }
    let start: usize = DECODE_BUFFER_SIZE - n;
    let short: usize = mode.short_mdct_size;
    let period: i32 = if decoder.postfilter_period < COMBFILTER_MINPERIOD {
        COMBFILTER_MINPERIOD
    } else {
        decoder.postfilter_period
    };
    let period_old: i32 = if decoder.postfilter_period_old < COMBFILTER_MINPERIOD {
        COMBFILTER_MINPERIOD
    } else {
        decoder.postfilter_period_old
    };
    let first: CombParameters = CombParameters {
        period_from: period_old,
        period_to: period,
        gain_from: decoder.postfilter_gain_old,
        gain_to: decoder.postfilter_gain,
        tapset_from: decoder.postfilter_tapset_old,
        tapset_to: decoder.postfilter_tapset,
    };
    assert(first == first_filter(s));
    comb_rows(
        &mut decoder.decode_mem,
        stride,
        channels,
        start,
        short,
        &first,
        &mode.window,
        overlap,
    );
    let ghost once = decoder@.decode_mem;
    if lm != 0 && short < n {
        let second: CombParameters = CombParameters {
            period_from: period,
            period_to: p.pitch,
            gain_from: decoder.postfilter_gain,
            gain_to: p.gain,
            tapset_from: decoder.postfilter_tapset,
            tapset_to: p.tapset,
        };
        assert(second == second_filter(s, *p));
        comb_rows(
            &mut decoder.decode_mem,
            stride,
            channels,
            start + short,
            n - short,
            &second,
            &mode.window,
            overlap,
        );
    }
    if lm != 0 {
        decoder.postfilter_period_old = p.pitch;
        decoder.postfilter_gain_old = p.gain;
        decoder.postfilter_tapset_old = p.tapset;
    } else {
        decoder.postfilter_period_old = period;
        decoder.postfilter_gain_old = decoder.postfilter_gain;
        decoder.postfilter_tapset_old = decoder.postfilter_tapset;
    }
    decoder.postfilter_period = p.pitch;
    decoder.postfilter_gain = p.gain;
    decoder.postfilter_tapset = p.tapset;
    proof {
        assert forall|channel: int| 0 <= channel < s.channels implies #[trigger] row(
            decoder@.decode_mem,
            s.stride(),
            channel,
        ) == row_postfiltered(
            s,
            row(s.decode_mem, s.stride(), channel),
            n as int,
            lm as int,
            *p,
        ) by {
            assert(row(once, s.stride(), channel) == first_filter(s).filtered_in_place(
                row(s.decode_mem, s.stride(), channel),
                start as int,
                short as int,
                s.mode.window@,
                s.overlap as int,
                0,
            ));
        }
    }
}

/// Samples of a frame at the end of the history of a channel.
pub open spec fn frame_part(s: DecoderState, n: int, channel: int) -> Seq<i32> {
    row(s.decode_mem, s.stride(), channel).subrange(
        DECODE_BUFFER_SIZE - n,
        DECODE_BUFFER_SIZE as int,
    )
}

/// The de-emphasis filter of a decoder.
pub open spec fn filter_of(s: DecoderState, accum: bool) -> Deemphasis {
    deemphasis_of(s.mode, s.channels as int, s.downsample as int, accum)
}

/// Output of a frame of `n` samples per channel, interleaved.
pub open spec fn signal(s: DecoderState, n: int, accum: bool) -> Seq<i32> {
    let channels = s.channels as int;
    Seq::new(
        (n / s.downsample as int * channels) as nat,
        |k: int|
            filter_of(s, accum).sample(
                frame_part(s, n, k % channels),
                s.preemph[k % channels],
                k / channels * s.downsample,
            ),
    )
}

/// The state after de-emphasis.
pub open spec fn deemphasised(s: DecoderState, n: int, accum: bool) -> DecoderState {
    DecoderState {
        preemph: Seq::new(
            s.preemph.len(),
            |channel: int|
                if channel < s.channels {
                    filter_of(s, accum).memory(frame_part(s, n, channel), s.preemph[channel], n)
                } else {
                    s.preemph[channel]
                },
        ),
        ..s
    }
}

/// De-emphasises the last frame of one channel.
fn deemphasise_row(
    decoder: &OpusCustomDecoder<'_>,
    filter: &Deemphasis,
    n: usize,
    channel: usize,
) -> (r: (Vec<i32>, i32))
    requires
        decoder@.valid(),
        decoder@.mode.sizes_wf(),
        n <= DECODE_BUFFER_SIZE,
        channel < decoder.channels,
    ensures
        r.0@ == Seq::new(
            (n as int / decoder.downsample as int) as nat,
            |j: int|
                filter.sample(
                    frame_part(decoder@, n as int, channel as int),
                    decoder@.preemph[channel as int],
                    j * decoder.downsample,
                ),
        ),
        r.1 == filter.memory(
            frame_part(decoder@, n as int, channel as int),
            decoder@.preemph[channel as int],
            n as int,
        ),
{
    let stride: usize = DECODE_BUFFER_SIZE + decoder.overlap;
    proof {
        vstd::arithmetic::mul::lemma_mul_is_commutative(stride as int, decoder.channels as int);
    }
    let r: Vec<i32> = read_row(&decoder.decode_mem, stride, decoder.channels, channel);
    let part: Vec<i32> = copy_range(&r, DECODE_BUFFER_SIZE - n, DECODE_BUFFER_SIZE);
    deemphasise_channel(
        filter,
        &part,
        decoder.preemph_mem_decoder[channel],
        decoder.downsample as usize,
    )
}

/// De-emphasises the last frame; its output is interleaved.
fn deemphasise(decoder: &mut OpusCustomDecoder<'_>, n: usize, accum: bool) -> (out: Vec<i32>)
    requires
        old(decoder)@.valid(),
        old(decoder)@.mode.sizes_wf(),
        n <= DECODE_BUFFER_SIZE,
    ensures
        out@ == signal(old(decoder)@, n as int, accum),
        final(decoder)@ == deemphasised(old(decoder)@, n as int, accum),
        final(decoder).mode == old(decoder).mode,
{
    let ghost s = decoder@;
    let downsample: usize = decoder.downsample as usize;
    let filter: Deemphasis = deemphasis_filter(
        decoder.mode,
        decoder.channels,
        downsample,
        accum,
    );
    let (left, left_mem) = deemphasise_row(decoder, &filter, n, 0);
    if decoder.channels == 1 {
        decoder.preemph_mem_decoder = [left_mem, decoder.preemph_mem_decoder[1]];
        assert(decoder@.preemph =~= deemphasised(s, n as int, accum).preemph);
        assert(left@ =~= signal(s, n as int, accum));
        return left;
    }
    let (right, right_mem) = deemphasise_row(decoder, &filter, n, 1);
    decoder.preemph_mem_decoder = [left_mem, right_mem];
    assert(decoder@.preemph =~= deemphasised(s, n as int, accum).preemph);
    let count: usize = left.len();
    let mut out: Vec<i32> = Vec::new();
    for j in 0..count
        invariant
            s.valid(),
            s.channels == 2,
            count == n as int / s.downsample as int,
            filter == filter_of(s, accum),
            left@.len() == count,
            right@.len() == count,
            forall|i: int|
                0 <= i < count ==> #[trigger] left@[i] == filter.sample(
                    frame_part(s, n as int, 0),
                    s.preemph[0],
                    i * s.downsample,
                ),
            forall|i: int|
                0 <= i < count ==> #[trigger] right@[i] == filter.sample(
                    frame_part(s, n as int, 1),
                    s.preemph[1],
                    i * s.downsample,
                ),
            out@.len() == 2 * j,
            forall|k: int| 0 <= k < 2 * j ==> #[trigger] out@[k] == signal(s, n as int, accum)[k],
    {
        out.push(left[j]);
        out.push(right[j]);
        assert((2 * j) as int / 2 == j && (2 * j) as int % 2 == 0);
        assert((2 * j + 1) as int / 2 == j && (2 * j + 1) as int % 2 == 1);
        assert(signal(s, n as int, accum).len() == 2 * count);
    }
    assert(out@ =~= signal(s, n as int, accum));
    out
}

/// The state after the frame that a packet holds, from the state after its head
/// was read, but for the signal history; see [`row_decoded`].
pub open spec fn frame_decoded(s: DecoderState, h: FrameHeader, f: FrameState<'_>) -> DecoderState {
    let q = spectrum_read(s, h, f);
    let loud = DecoderState { old_ebands: silenced(q.e, f.silence), ..s };
    DecoderState {
        rng: q.dec.rng,
        loss_duration: 0,
        prefilter_and_fold: false,
        ..energies_settled(
            postfilter_shifted(loud, h.lm as int, f.postfilter),
            h,
            f.transient,
        )
    }
}

/// End of the bands of a frame that are synthesised.
pub open spec fn frame_end(s: DecoderState, h: FrameHeader) -> int {
    if h.end < s.mode.effective_ebands {
        h.end as int
    } else {
        s.mode.effective_ebands as int
    }
}

/// The spectra of the frame that a packet holds.
pub open spec fn frame_spectra(s: DecoderState, h: FrameHeader, f: FrameState<'_>) -> Spectra {
    let q = spectrum_read(s, h, f);
    Spectra {
        mode: s.mode,
        x: q.x,
        old_band_e: silenced(q.e, f.silence),
        start: s.start_band as int,
        eff_end: frame_end(s, h),
        coded_channels: h.c as int,
        lm: h.lm as int,
        downsample: s.downsample as int,
        silence: f.silence,
    }
}

/// The history of a channel after the frame that a packet holds.
pub open spec fn row_decoded(s: DecoderState, h: FrameHeader, f: FrameState<'_>, channel: int) -> Seq<
    i32,
> {
    let n = samples_of(s, h);
    row_postfiltered(
        s,
        row_synthesised(
            s.mode,
            frame_spectra(s, h, f).output(s.channels as int, channel),
            row_advanced(s, row(s.decode_mem, s.stride(), channel), n),
            DECODE_BUFFER_SIZE - n,
            h.lm as int,
            f.transient,
        ),
        n,
        h.lm as int,
        f.postfilter,
    )
}

/// What decoding the frame of a packet relies on.
pub open spec fn frame_decodable(s: DecoderState, h: FrameHeader) -> bool {
    &&& s.valid()
    &&& frame_ready(s, h)
    &&& 0 <= s.loss_duration <= 10000
    &&& s.mode.mdct_wf()
    &&& s.mode.foldable(s.start_band as int, h.end as int)
}

/// Decodes the frame that follows its head.
#[verifier::rlimit(40)]
fn decode_body<'p>(
    decoder: &mut OpusCustomDecoder<'_>,
    h: &FrameHeader,
    eff_end: usize,
    body: &FrameBody<'p>,
    Ghost(f): Ghost<FrameState<'p>>,
) -> (dec: EcDec<'p>)
    requires
        frame_decodable(old(decoder)@, *h),
        f.e == old(decoder)@.old_ebands,
        body.holds(f),
        body.usable(
            *old(decoder).mode,
            old(decoder).start_band as int,
            h.end as int,
            h.lm as int,
        ),
        body.range_decoder.buf@.len() <= MAX_STORAGE,
        eff_end == frame_end(old(decoder)@, *h),
    ensures
        final(decoder)@ == (DecoderState {
            decode_mem: final(decoder)@.decode_mem,
            ..frame_decoded(old(decoder)@, *h, f)
        }),
        dec == spectrum_read(old(decoder)@, *h, f).dec,
        dec.buf@ == body.range_decoder.buf@,
        final(decoder)@.decode_mem.len() == old(decoder)@.decode_mem.len(),
        forall|channel: int|
            0 <= channel < old(decoder).channels ==> #[trigger] row(
                final(decoder)@.decode_mem,
                old(decoder)@.stride(),
                channel,
            ) == row_decoded(old(decoder)@, *h, f, channel),
        final(decoder)@.valid(),
        final(decoder).mode == old(decoder).mode,
{
    let ghost s = decoder@;
    let mode: &OpusCustomMode = decoder.mode;
    let channels: usize = decoder.channels;
    let start: usize = decoder.start_band as usize;
    let stride: usize = DECODE_BUFFER_SIZE + decoder.overlap;
    let m: usize = scale(h.lm as i32);
    proof {
        vstd::arithmetic::mul::lemma_mul_is_commutative(stride as int, channels as int);
        lemma_scaled_edges(*mode, m as int, 0, 0);
        assert(mode.short_mdct_size <= m * mode.short_mdct_size) by (nonlinear_arith)
            requires
                1 <= m,
                0 <= mode.short_mdct_size,
        ;
        assert(h.c * mode.num_ebands <= 2 * mode.num_ebands) by (nonlinear_arith)
            requires
                h.c <= 2,
        ;
    }
    let n: usize = m * mode.short_mdct_size;
    advance_history(decoder, n);
    let ghost advanced = decoder@;
    proof {
        lemma_spectrum_independent(s, advanced, *h, f);
    }
    let (spectrum, dec) = read_spectrum(decoder, h, body, Ghost(f));
    if body.silence {
        let len: usize = decoder.old_ebands.len();
        decoder.old_ebands = vec![SILENCE_LOG_E; len];
        assert(decoder.old_ebands@ =~= constant(len as nat, SILENCE_LOG_E));
    }
    let ghost loud = decoder@;
    let input: SynthesisInput<'_> = SynthesisInput {
        mode,
        x: &spectrum,
        old_band_e: &decoder.old_ebands,
        start,
        eff_end,
        coded_channels: h.c,
        lm: h.lm,
        downsample: decoder.downsample as usize,
        silence: body.silence,
    };
    assert(input@ =~= frame_spectra(s, *h, f));
    synthesise_rows(
        &input,
        &mut decoder.decode_mem,
        stride,
        channels,
        DECODE_BUFFER_SIZE - n,
        body.is_transient,
    );
    let ghost synthesised = decoder@;
    filter_frame(decoder, n, h.lm, &body.postfilter);
    let ghost filtered = decoder@.decode_mem;
    settle_energies(decoder, h, body.is_transient);
    decoder.rng = dec.rng;
    decoder.loss_duration = 0;
    decoder.prefilter_and_fold = false;
    proof {
        assert forall|channel: int| 0 <= channel < s.channels implies #[trigger] row(
            decoder@.decode_mem,
            s.stride(),
            channel,
        ) == row_decoded(s, *h, f, channel) by {
            assert(row(advanced.decode_mem, s.stride(), channel) == row_advanced(
                s,
                row(s.decode_mem, s.stride(), channel),
                n as int,
            ));
            assert(row(filtered, synthesised.stride(), channel) == row_postfiltered(
                synthesised,
                row(synthesised.decode_mem, synthesised.stride(), channel),
                n as int,
                h.lm as int,
                body.postfilter,
            ));
            lemma_same_filters(
                synthesised,
                s,
                row(synthesised.decode_mem, s.stride(), channel),
                n as int,
                h.lm as int,
                f.postfilter,
            );
        }
    }
    dec
}

/// The post-filter depends on its settings alone.
proof fn lemma_same_filters(
    a: DecoderState,
    b: DecoderState,
    r: Seq<i32>,
    n: int,
    lm: int,
    p: Postfilter,
)
    requires
        a == (DecoderState { decode_mem: a.decode_mem, old_ebands: a.old_ebands, ..b }),
    ensures
        row_postfiltered(a, r, n, lm, p) == row_postfiltered(b, r, n, lm, p),
{
}

/// The signal history does not change what is read.
proof fn lemma_spectrum_independent(a: DecoderState, b: DecoderState, h: FrameHeader, f: FrameState<'_>)
    requires
        b == (DecoderState { decode_mem: b.decode_mem, ..a }),
    ensures
        spectrum_read(a, h, f) == spectrum_read(b, h, f),
{
    reveal(spectrum_read);
}

/// What decoding a packet relies on: the mode is complete, and the header leaves
/// the decoder ready for the frame, or for concealment where the payload holds
/// none.
pub open spec fn decodable(s: DecoderState, packet: Seq<u8>, frame_size: int) -> bool {
    &&& s.valid()
    &&& s.mode.wf()
    &&& s.mode.effective_ebands >= 1
    &&& packet.len() <= 0x7fffffff
    &&& match header_found(s, packet, frame_size) {
        Err(_) => true,
        Ok(h) => {
            let t = header_applied(s, packet, frame_size);
            if h.len <= 1 {
                t.concealable(samples_of(t, h))
            } else {
                frame_decodable(t, h)
            }
        },
    }
}

/// The state after the head of a frame was read.
pub open spec fn head_read(t: DecoderState, h: FrameHeader, dec: EcDec<'_>) -> DecoderState {
    DecoderState {
        skip_plc: t.skip_plc && t.loss_duration != 0,
        old_ebands: frame_read(t, h, dec).e,
        ..t
    }
}

/// Samples that replace those of a buffer, or are added to them.
pub open spec fn delivered(pcm: Seq<i32>, samples: Seq<i32>, accum: bool) -> Seq<i32> {
    Seq::new(
        pcm.len(),
        |i: int|
            if i >= samples.len() {
                pcm[i]
            } else if accum {
                pcm[i].wrapping_add(samples[i])
            } else {
                samples[i]
            },
    )
}

/// Computes [`delivered`].
fn deliver(pcm: &mut Vec<i32>, samples: &Vec<i32>, accum: bool)
    requires
        samples@.len() <= old(pcm)@.len(),
    ensures
        final(pcm)@ == delivered(old(pcm)@, samples@, accum),
{
    let ghost pcm0 = pcm@;
    let len: usize = samples.len();
    for i in 0..len
        invariant
            len == samples@.len(),
            len <= pcm@.len(),
            pcm@.len() == pcm0.len(),
            forall|k: int|
                0 <= k < pcm0.len() ==> #[trigger] pcm@[k] == (if k < i {
                    delivered(pcm0, samples@, accum)[k]
                } else {
                    pcm0[k]
                }),
    {
        let v: i32 = if accum { pcm[i].wrapping_add(samples[i]) } else { samples[i] };
        pcm.set(i, v);
    }
    assert(pcm@ =~= delivered(pcm0, samples@, accum));
}

/// Packet of a lost frame.
const NO_DATA: [u8; 0] = [];

/// Bytes of a packet, none for a lost one.
pub open spec fn packet_bytes(packet: Option<&[u8]>) -> Seq<u8> {
    match packet {
        Some(data) => data@,
        None => Seq::empty(),
    }
}

/// Whether more bits were read than the packet has.
pub open spec fn overrun(dec: EcDec<'_>) -> bool {
    dec.tell_bits() > dec.buf@.len() * 8
}

/// How a packet that holds a frame changes a decoder.
pub open spec fn frame_taken(
    t: DecoderState,
    u: DecoderState,
    h: FrameHeader,
    dec: EcDec<'_>,
    accum: bool,
) -> bool {
    let n = samples_of(t, h);
    let read = head_read(t, h, dec);
    let f = frame_read(t, h, dec);
    let q = spectrum_read(read, h, f);
    let decoded = DecoderState { decode_mem: u.decode_mem, ..frame_decoded(read, h, f) };
    &&& u == (DecoderState {
        error: if q.dec.error && !overrun(q.dec) { 1 } else { t.error },
        ..deemphasised(decoded, n, accum)
    })
    &&& u.valid()
    &&& forall|channel: int|
        0 <= channel < t.channels ==> #[trigger] row(u.decode_mem, t.stride(), channel)
            == row_decoded(read, h, f, channel)
}

/// What becomes of a decoder, its output buffer and an external range decoder.
pub struct Outcome<'p> {
    pub state: DecoderState,
    pub pcm: Seq<i32>,
    pub range_decoder: Option<EcDec<'p>>,
}

/// How a lost packet is answered.
pub open spec fn loss_answered(
    before: Outcome<'_>,
    after: Outcome<'_>,
    r: Result<usize, CeltDecodeError>,
    h: FrameHeader,
    accum: bool,
) -> bool {
    let t = before.state;
    let n = samples_of(t, h);
    let count = n / t.downsample as int;
    let u = DecoderState { preemph: t.preemph, ..after.state };
    &&& after.range_decoder == before.range_decoder
    &&& if before.pcm.len() < count * t.channels {
        &&& r == Err::<usize, CeltDecodeError>(CeltDecodeError::BadArgument)
        &&& after.state == t
        &&& after.pcm == before.pcm
    } else {
        &&& r == Ok::<usize, CeltDecodeError>(count as usize)
        &&& lost(t, u, n, h.lm as int)
        &&& after.state == deemphasised(u, n, accum)
        &&& after.pcm == delivered(before.pcm, signal(u, n, accum), accum)
    }
}

/// How a packet that holds a frame is answered when it is read with `dec`: the
/// frame is delivered even where the packet turns out to be too short.
pub open spec fn frame_answered<'p>(
    before: Outcome<'p>,
    after: Outcome<'p>,
    r: Result<usize, CeltDecodeError>,
    h: FrameHeader,
    dec: EcDec<'p>,
    accum: bool,
) -> bool {
    let t = before.state;
    let n = samples_of(t, h);
    let count = n / t.downsample as int;
    let f = frame_read(t, h, dec);
    let q = spectrum_read(head_read(t, h, dec), h, f);
    let u = DecoderState { preemph: t.preemph, ..after.state };
    let external = before.range_decoder is Some;
    if before.pcm.len() < count * t.channels {
        &&& r == Err::<usize, CeltDecodeError>(CeltDecodeError::BadArgument)
        &&& after.state == head_read(t, h, dec)
        &&& after.state.valid()
        &&& after.pcm == before.pcm
        &&& after.range_decoder == (if external { Some(f.dec) } else { None })
    } else {
        &&& r == (if overrun(q.dec) {
            Err::<usize, CeltDecodeError>(CeltDecodeError::InvalidPacket)
        } else {
            Ok::<usize, CeltDecodeError>(count as usize)
        })
        &&& frame_taken(t, after.state, h, dec, accum)
        &&& after.pcm == delivered(before.pcm, signal(u, n, accum), accum)
        &&& after.range_decoder == (if external { Some(q.dec) } else { None })
    }
}

/// How a packet is answered.
pub open spec fn answered<'p>(
    before: Outcome<'p>,
    after: Outcome<'p>,
    r: Result<usize, CeltDecodeError>,
    packet: Seq<u8>,
    frame_size: int,
    accum: bool,
) -> bool {
    let t = Outcome { state: header_applied(before.state, packet, frame_size), ..before };
    match header_found(before.state, packet, frame_size) {
        Err(e) => r == Err::<usize, CeltDecodeError>(e) && after == t,
        Ok(h) => if h.len <= 1 {
            loss_answered(t, after, r, h, accum)
        } else {
            exists|payload: &'p [u8]|
                payload@ == packet.subrange(h.from as int, h.from + h.len) && frame_answered(
                    t,
                    after,
                    r,
                    h,
                    #[trigger] frame_decoder(payload, before.range_decoder),
                    accum,
                )
        },
    }
}

/// Answers a lost packet.
fn answer_loss<'p>(
    decoder: &mut OpusCustomDecoder<'_>,
    h: &FrameHeader,
    n: usize,
    pcm: &mut Vec<i32>,
    accum: bool,
    Ghost(ext): Ghost<Option<EcDec<'p>>>,
) -> (r: Result<usize, CeltDecodeError>)
    requires
        old(decoder)@.concealable(n as int),
        h.lm <= old(decoder).mode.max_lm,
        n == samples_of(old(decoder)@, *h),
        n <= DECODE_BUFFER_SIZE,
    ensures
        loss_answered(
            Outcome { state: old(decoder)@, pcm: old(pcm)@, range_decoder: ext },
            Outcome { state: final(decoder)@, pcm: final(pcm)@, range_decoder: ext },
            r,
            *h,
            accum,
        ),
        final(decoder).mode == old(decoder).mode,
{
    let ghost t = decoder@;
    let count: usize = n / decoder.downsample as usize;
    proof {
        lemma_count(n as int, t.downsample as int, t.channels as int);
    }
    if pcm.len() < count * decoder.channels {
        return Err(CeltDecodeError::BadArgument);
    }
    celt_decode_lost(decoder, n, h.lm);
    let ghost u = decoder@;
    proof {
        lemma_lost_valid(t, u, n as int, h.lm as int);
    }
    let out: Vec<i32> = deemphasise(decoder, n, accum);
    deliver(pcm, &out, accum);
    assert(u =~= (DecoderState { preemph: t.preemph, ..decoder@ }));
    Ok(count)
}

/// Samples per channel at the output rate, and of all channels, are few.
proof fn lemma_count(n: int, downsample: int, channels: int)
    requires
        0 <= n <= DECODE_BUFFER_SIZE,
        downsample > 0,
        0 <= channels <= 2,
    ensures
        0 <= n / downsample <= n,
        0 <= n / downsample * channels <= 2 * DECODE_BUFFER_SIZE,
{
    vstd::arithmetic::div_mod::lemma_div_nonincreasing(n, downsample);
    vstd::arithmetic::div_mod::lemma_div_pos_is_pos(n, downsample);
    let c = n / downsample;
    assert(0 <= c * channels <= 2 * DECODE_BUFFER_SIZE) by (nonlinear_arith)
        requires
            0 <= c <= DECODE_BUFFER_SIZE,
            0 <= channels <= 2,
    ;
}

/// Concealment keeps the invariant of a decoder.
pub proof fn lemma_lost_valid(s: DecoderState, t: DecoderState, n: int, lm: int)
    requires
        s.valid(),
        lost(s, t, n, lm),
    ensures
        t.valid(),
{
}

/// Answers a packet whose head was read into the decoder.
#[verifier::rlimit(60)]
fn answer_frame<'p>(
    decoder: &mut OpusCustomDecoder<'_>,
    h: &FrameHeader,
    n: usize,
    eff_end: usize,
    body: &FrameBody<'p>,
    pcm: &mut Vec<i32>,
    range_decoder: &mut Option<EcDec<'p>>,
    accum: bool,
    Ghost(t): Ghost<DecoderState>,
    Ghost(dec0): Ghost<EcDec<'p>>,
) -> (r: Result<usize, CeltDecodeError>)
    requires
        frame_decodable(t, *h),
        old(decoder)@ == head_read(t, *h, dec0),
        frame_read(t, *h, dec0).e.len() == t.old_ebands.len(),
        body.holds(frame_read(t, *h, dec0)),
        body.usable(t.mode, t.start_band as int, h.end as int, h.lm as int),
        body.range_decoder.buf@.len() <= MAX_STORAGE,
        eff_end == frame_end(t, *h),
        n == samples_of(t, *h),
        n <= DECODE_BUFFER_SIZE,
    ensures
        frame_answered(
            Outcome { state: t, pcm: old(pcm)@, range_decoder: *old(range_decoder) },
            Outcome {
                state: final(decoder)@,
                pcm: final(pcm)@,
                range_decoder: *final(range_decoder),
            },
            r,
            *h,
            dec0,
            accum,
        ),
        final(decoder).mode == old(decoder).mode,
{
    let ghost f = frame_read(t, *h, dec0);
    let count: usize = n / decoder.downsample as usize;
    proof {
        lemma_count(n as int, t.downsample as int, t.channels as int);
    }
    if pcm.len() < count * decoder.channels {
        if range_decoder.is_some() {
            *range_decoder = Some(body.range_decoder);
        }
        return Err(CeltDecodeError::BadArgument);
    }
    let ghost read = decoder@;
    let dec: EcDec<'p> = decode_body(decoder, h, eff_end, body, Ghost(f));
    let ghost decoded = decoder@;
    let out: Vec<i32> = deemphasise(decoder, n, accum);
    deliver(pcm, &out, accum);
    if range_decoder.is_some() {
        *range_decoder = Some(dec);
    }
    let ghost u = decoder@;
    let long: bool = dec.tell() > (dec.buf.len() * 8) as i32;
    if !long && dec.error {
        decoder.error = 1;
    }
    proof {
        let after = decoder@;
        assert(decoded =~= (DecoderState {
            decode_mem: after.decode_mem,
            ..frame_decoded(read, *h, f)
        }));
        assert(after =~= (DecoderState {
            error: if dec.error && !overrun(dec) { 1 } else { t.error },
            ..deemphasised(decoded, n as int, accum)
        }));
        lemma_same_signal(
            decoded,
            DecoderState { preemph: t.preemph, ..after },
            n as int,
            accum,
        );
        assert(t.stride() == read.stride());
        assert forall|channel: int| 0 <= channel < t.channels implies #[trigger] row(
            after.decode_mem,
            t.stride(),
            channel,
        ) == row_decoded(read, *h, f, channel) by {
            assert(row(decoded.decode_mem, read.stride(), channel) == row_decoded(
                read,
                *h,
                f,
                channel,
            ));
        }
        assert(frame_taken(t, after, *h, dec0, accum));
    }
    if long {
        Err(CeltDecodeError::InvalidPacket)
    } else {
        Ok(count)
    }
}

/// The output depends on the history and the filter alone.
proof fn lemma_same_signal(a: DecoderState, b: DecoderState, n: int, accum: bool)
    requires
        a.mode == b.mode,
        a.overlap == b.overlap,
        a.channels == b.channels,
        a.downsample == b.downsample,
        a.decode_mem == b.decode_mem,
        a.preemph == b.preemph,
    ensures
        signal(a, n, accum) == signal(b, n, accum),
{
    assert(signal(a, n, accum) =~= signal(b, n, accum));
}

/// Decodes a packet, or makes up for a lost one.
///
/// The samples are interleaved, in Q12. They replace the start of the buffer, or
/// are added to it. An external range decoder is left behind the frame.
#[verifier::rlimit(60)]
pub fn celt_decode_with_ec<'p>(
    decoder: &mut OpusCustomDecoder<'_>,
    packet: Option<&'p [u8]>,
    pcm: &mut Vec<i32>,
    frame_size: usize,
    range_decoder: &mut Option<EcDec<'p>>,
    accum: bool,
) -> (r: Result<usize, CeltDecodeError>)
    requires
        decodable(old(decoder)@, packet_bytes(packet), frame_size as int),
        *old(range_decoder) matches Some(dec) ==> dec.wf() && dec.buf@.len() <= MAX_STORAGE,
    ensures
        answered(
            Outcome {
                state: old(decoder)@,
                pcm: old(pcm)@,
                range_decoder: *old(range_decoder),
            },
            Outcome {
                state: final(decoder)@,
                pcm: final(pcm)@,
                range_decoder: *final(range_decoder),
            },
            r,
            packet_bytes(packet),
            frame_size as int,
            accum,
        ),
        final(decoder).mode == old(decoder).mode,
{
    let ghost s = decoder@;
    let ghost ext = *range_decoder;
    let data: &'p [u8] = match packet {
        Some(data) => data,
        None => &NO_DATA,
    };
    assert(data@ =~= packet_bytes(packet));
    let frame: FramePreparation<'p> = match prepare_frame(
        decoder,
        data,
        frame_size,
        *range_decoder,
    ) {
        Err(e) => {
            return Err(e);
        },
        Ok(frame) => frame,
    };
    let ghost t = header_applied(s, data@, frame_size as int);
    let h: FrameHeader = FrameHeader {
        end: frame.end,
        c: frame.c,
        lm: frame.lm,
        from: frame.from,
        len: frame.payload.len(),
    };
    proof {
        assert(header_found(s, data@, frame_size as int) == Ok::<FrameHeader, CeltDecodeError>(h));
        lemma_scaled_edges(t.mode, scale_of(h.lm as int), 0, 0);
    }
    match frame.body {
        None => answer_loss(decoder, &h, frame.n, pcm, accum, Ghost(ext)),
        Some(body) => {
            let ghost dec0 = frame_decoder(frame.payload, ext);
            let r: Result<usize, CeltDecodeError> = answer_frame(
                        decoder,
                &h,
                frame.n,
                frame.eff_end,
                &body,
                pcm,
                range_decoder,
                accum,
                Ghost(t),
                Ghost(dec0),
            );
            r
        },
    }
}

/// A sample in Q12 as a 24-bit word.
#[verifier::allow_in_spec]
pub fn sig2word24(v: i32) -> i32
    returns
        (if pshr32(v, 4) < -8388608 {
            (-8388608) as i32
        } else if pshr32(v, 4) > 8388607 {
            8388607
        } else {
            pshr32(v, 4)
        }),
{
    let w: i32 = pshr32(v, 4);
    if w < -8388608 {
        -8388608
    } else if w > 8388607 {
        8388607
    } else {
        w
    }
}

/// The output of a decoder in words of another size.
pub open spec fn converted<T>(pcm: Seq<T>, samples: Seq<i32>, word: spec_fn(i32) -> T) -> Seq<T> {
    Seq::new(pcm.len(), |i: int| if i < samples.len() { word(samples[i]) } else { pcm[i] })
}

/// Whether a packet is answered through a buffer of samples, of which `word`
/// makes the output; output is only delivered together with success.
pub open spec fn answered_through<T>(
    s: DecoderState,
    u: DecoderState,
    before: Seq<T>,
    after: Seq<T>,
    r: Result<usize, CeltDecodeError>,
    packet: Seq<u8>,
    frame_size: int,
    word: spec_fn(i32) -> T,
    pcm: Seq<i32>,
) -> bool {
    let silence = constant((s.channels * frame_size) as nat, 0i32);
    &&& answered(
        Outcome { state: s, pcm: silence, range_decoder: None },
        Outcome { state: u, pcm, range_decoder: None },
        r,
        packet,
        frame_size,
        false,
    )
    &&& after == (match r {
        Ok(count) => converted(before, pcm.take(count * s.channels), word),
        Err(_) => before,
    })
}

/// How a packet is answered with words of another size: a buffer that cannot
/// hold a full frame is refused first.
pub open spec fn answered_in<T>(
    s: DecoderState,
    u: DecoderState,
    before: Seq<T>,
    after: Seq<T>,
    r: Result<usize, CeltDecodeError>,
    packet: Seq<u8>,
    frame_size: int,
    word: spec_fn(i32) -> T,
) -> bool {
    let required = s.channels * frame_size;
    if required > usize::MAX || before.len() < required {
        &&& r == Err::<usize, CeltDecodeError>(CeltDecodeError::BadArgument)
        &&& u == s
        &&& after == before
    } else {
        exists|pcm: Seq<i32>|
            #[trigger] answered_through(s, u, before, after, r, packet, frame_size, word, pcm)
    }
}

/// The samples that a success announces fit the buffer.
proof fn lemma_answered_count(
    before: Outcome<'_>,
    after: Outcome<'_>,
    count: usize,
    packet: Seq<u8>,
    frame_size: int,
    accum: bool,
)
    requires
        decodable(before.state, packet, frame_size),
        answered(
            before,
            after,
            Ok::<usize, CeltDecodeError>(count),
            packet,
            frame_size,
            accum,
        ),
    ensures
        0 <= count * before.state.channels <= before.pcm.len(),
        after.pcm.len() == before.pcm.len(),
{
    let t = header_applied(before.state, packet, frame_size);
    let h = header_found(before.state, packet, frame_size)->Ok_0;
    let n = samples_of(t, h);
    lemma_scaled_edges(t.mode, scale_of(h.lm as int), 0, 0);
    lemma_count(n, t.downsample as int, t.channels as int);
}

/// Decodes into a fresh buffer that holds a full frame.
fn decode_samples<'p>(
    decoder: &mut OpusCustomDecoder<'_>,
    packet: Option<&'p [u8]>,
    frame_size: usize,
    required: usize,
) -> (r: (Result<usize, CeltDecodeError>, Vec<i32>))
    requires
        decodable(old(decoder)@, packet_bytes(packet), frame_size as int),
        required == old(decoder).channels * frame_size,
    ensures
        answered(
            Outcome {
                state: old(decoder)@,
                pcm: constant(required as nat, 0i32),
                range_decoder: None,
            },
            Outcome { state: final(decoder)@, pcm: r.1@, range_decoder: None },
            r.0,
            packet_bytes(packet),
            frame_size as int,
            false,
        ),
        r.0 matches Ok(count) ==> count * old(decoder).channels <= required && required
            == r.1@.len(),
        final(decoder).mode == old(decoder).mode,
{
    let ghost s = decoder@;
    let mut pcm: Vec<i32> = vec![0i32; required];
    assert(pcm@ =~= constant(required as nat, 0i32));
    let ghost silence = pcm@;
    let mut none: Option<EcDec<'p>> = None;
    let r: Result<usize, CeltDecodeError> = celt_decode_with_ec(
        decoder,
        packet,
        &mut pcm,
        frame_size,
        &mut none,
        false,
    );
    proof {
        let before = Outcome { state: s, pcm: silence, range_decoder: None };
        let after = Outcome { state: decoder@, pcm: pcm@, range_decoder: none };
        lemma_no_external(before, after, r, packet_bytes(packet), frame_size as int, false);
        if r is Ok {
            lemma_answered_count(
                before,
                after,
                r->Ok_0,
                packet_bytes(packet),
                frame_size as int,
                false,
            );
        }
    }
    (r, pcm)
}

/// Without an external range decoder there is none afterwards.
proof fn lemma_no_external(
    before: Outcome<'_>,
    after: Outcome<'_>,
    r: Result<usize, CeltDecodeError>,
    packet: Seq<u8>,
    frame_size: int,
    accum: bool,
)
    requires
        before.range_decoder is None,
        answered(before, after, r, packet, frame_size, accum),
    ensures
        after.range_decoder is None,
{
}

/// Decodes a packet into 16-bit words, or makes up for a lost one; the number of
/// samples per channel is returned.
pub fn opus_custom_decode(
    decoder: &mut OpusCustomDecoder<'_>,
    packet: Option<&[u8]>,
    pcm: &mut [i16],
    frame_size: usize,
) -> (r: Result<usize, CeltDecodeError>)
    requires
        decodable(old(decoder)@, packet_bytes(packet), frame_size as int),
    ensures
        answered_in(
            old(decoder)@,
            final(decoder)@,
            old(pcm)@,
            final(pcm)@,
            r,
            packet_bytes(packet),
            frame_size as int,
            |v: i32| sig2word16(v),
        ),
        final(decoder).mode == old(decoder).mode,
{
    let ghost s = decoder@;
    let ghost before = pcm@;
    let ghost word = |v: i32| sig2word16(v);
    let channels: usize = decoder.channels;
    let required: usize = match channels.checked_mul(frame_size) {
        None => {
            return Err(CeltDecodeError::BadArgument);
        },
        Some(required) => required,
    };
    if pcm.len() < required {
        return Err(CeltDecodeError::BadArgument);
    }
    let (r, samples) = decode_samples(decoder, packet, frame_size, required);
    if let Ok(count) = r {
        let total: usize = count * channels;
        for i in 0..total
            invariant
                total <= samples@.len() <= pcm@.len(),
                pcm@.len() == before.len(),
                word == (|v: i32| sig2word16(v)),
                forall|k: int|
                    0 <= k < before.len() ==> #[trigger] pcm@[k] == (if k < i {
                        converted(before, samples@.take(total as int), word)[k]
                    } else {
                        before[k]
                    }),
        {
            pcm[i] = sig2word16(samples[i]);
        }
        assert(pcm@ =~= converted(before, samples@.take(total as int), word));
    }
    assert(answered_through(
        s,
        decoder@,
        before,
        pcm@,
        r,
        packet_bytes(packet),
        frame_size as int,
        word,
        samples@,
    ));
    r
}

/// Decodes a packet into 24-bit words, or makes up for a lost one; the number of
/// samples per channel is returned.
pub fn opus_custom_decode24(
    decoder: &mut OpusCustomDecoder<'_>,
    packet: Option<&[u8]>,
    pcm: &mut [i32],
    frame_size: usize,
) -> (r: Result<usize, CeltDecodeError>)
    requires
        decodable(old(decoder)@, packet_bytes(packet), frame_size as int),
    ensures
        answered_in(
            old(decoder)@,
            final(decoder)@,
            old(pcm)@,
            final(pcm)@,
            r,
            packet_bytes(packet),
            frame_size as int,
            |v: i32| sig2word24(v),
        ),
        final(decoder).mode == old(decoder).mode,
{
    let ghost s = decoder@;
    let ghost before = pcm@;
    let ghost word = |v: i32| sig2word24(v);
    let channels: usize = decoder.channels;
    let required: usize = match channels.checked_mul(frame_size) {
        None => {
            return Err(CeltDecodeError::BadArgument);
        },
        Some(required) => required,
    };
    if pcm.len() < required {
        return Err(CeltDecodeError::BadArgument);
    }
    let (r, samples) = decode_samples(decoder, packet, frame_size, required);
    if let Ok(count) = r {
        let total: usize = count * channels;
        for i in 0..total
            invariant
                total <= samples@.len() <= pcm@.len(),
                pcm@.len() == before.len(),
                word == (|v: i32| sig2word24(v)),
                forall|k: int|
                    0 <= k < before.len() ==> #[trigger] pcm@[k] == (if k < i {
                        converted(before, samples@.take(total as int), word)[k]
                    } else {
                        before[k]
                    }),
        {
            pcm[i] = sig2word24(samples[i]);
        }
        assert(pcm@ =~= converted(before, samples@.take(total as int), word));
    }
    assert(answered_through(
        s,
        decoder@,
        before,
        pcm@,
        r,
        packet_bytes(packet),
        frame_size as int,
        word,
        samples@,
    ));
    r
}

} // verus!
