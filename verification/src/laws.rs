//! Properties of a decoder over any sequence of packets and losses.

use vstd::prelude::*;
use crate::all_bands::{bands_decoded, bands_started};
use crate::band_tf::scale_of;
use crate::concealment::MAX_LOSS;
use crate::decode::{answered, decodable, samples_of, shapes_of, spectrum_read, Outcome};
use crate::decoder::{
    constant, layout_valid, AllocState, CeltDecodeError, DecoderState, PLC_PITCH_LAG_MIN,
};
use crate::frame::FrameState;
use crate::header::{header_applied, header_found, lm_of, signalled, FrameHeader};
use crate::mode::OpusCustomMode;

verus! {

/// A mode whose bands can all be coded together, with frames short enough for
/// every kind of concealment.
pub open spec fn regular(mode: OpusCustomMode) -> bool {
    &&& mode.wf()
    &&& 1 <= mode.effective_ebands
    &&& mode.num_ebands <= 23
    &&& forall|band: int| 0 <= band < mode.num_ebands ==> #[trigger] mode.width(band) >= 1
    &&& mode.foldable(0, mode.num_ebands as int)
    &&& 8 * mode.short_mdct_size <= 1024
}

/// Checks [`regular`].
pub fn is_regular(mode: &OpusCustomMode) -> (ok: bool)
    ensures
        ok == regular(*mode),
{
    if !mode.is_valid() || mode.effective_ebands < 1 || mode.num_ebands > 23 || 8
        * mode.short_mdct_size > 1024 {
        return false;
    }
    let bands: usize = mode.num_ebands;
    for band in 0..bands
        invariant
            mode.wf(),
            bands == mode.num_ebands,
            forall|k: int| 0 <= k < band ==> #[trigger] mode.width(k) >= 1,
    {
        if mode.e_bands[band + 1] <= mode.e_bands[band] {
            assert(mode.width(band as int) < 1);
            return false;
        }
    }
    if bands > 1 {
        assert(mode.edge(0) <= mode.edge(1) <= mode.edge(2) <= 256 && mode.edge(bands - 1) >= 0);
        let first: i32 = mode.e_bands[1] as i32 - mode.e_bands[0] as i32;
        let second: i32 = mode.e_bands[2] as i32 - mode.e_bands[1] as i32;
        let room: i32 = mode.e_bands[bands - 1] as i32 - mode.e_bands[0] as i32;
        if second > first && (second > 2 * first || second > room) {
            return false;
        }
    }
    true
}

/// What holds of a decoder between packets: it starts at the first band, or at
/// another one as long as no packet can move the last band in front of it.
pub open spec fn steady(s: DecoderState) -> bool {
    &&& s.valid()
    &&& regular(s.mode)
    &&& s.start_band == 0 || s.signalling == 0
    &&& s.mode.foldable(s.start_band as int, s.mode.num_ebands as int)
    &&& 0 <= s.loss_duration <= MAX_LOSS
    &&& s.loss_duration != 0 && !s.skip_plc ==> s.last_pitch_index >= PLC_PITCH_LAG_MIN
}

/// The exponent that is found for a size is one that the mode has.
proof fn lemma_lm(mode: OpusCustomMode, size: int, lm: int)
    requires
        0 <= lm,
    ensures
        lm_of(mode, size, lm) matches Some(found) ==> lm <= found <= mode.max_lm,
    decreases mode.max_lm + 1 - lm,
{
    if lm <= mode.max_lm && scale_of(lm) * mode.short_mdct_size != size {
        lemma_lm(mode, size, lm + 1);
    }
}

/// Reading a header keeps a decoder steady.
proof fn lemma_header(s: DecoderState, packet: Seq<u8>, frame_size: int)
    requires
        steady(s),
        packet.len() <= 0x7fffffff,
    ensures
        steady(header_applied(s, packet, frame_size)),
        header_found(s, packet, frame_size) matches Ok(h) ==> {
            let t = header_applied(s, packet, frame_size);
            &&& h.end == t.end_band
            &&& 1 <= h.c <= 2
            &&& h.lm <= s.mode.max_lm
            &&& h.len <= 1275
            &&& 0 <= samples_of(t, h) <= 1024
        },
{
    let size = frame_size * s.downsample;
    lemma_lm(s.mode, size, 0);
    if let Ok(h) = header_found(s, packet, frame_size) {
        let m = scale_of(h.lm as int);
        assert(0 <= m * s.mode.short_mdct_size <= 8 * s.mode.short_mdct_size) by (nonlinear_arith)
            requires
                0 <= m <= 8,
                0 <= s.mode.short_mdct_size,
        ;
    }
}

/// A steady decoder can take any packet with any frame size, or do without one.
pub proof fn law_any_packet_can_be_taken(s: DecoderState, packet: Seq<u8>, frame_size: int)
    requires
        steady(s),
        packet.len() <= 0x7fffffff,
    ensures
        decodable(s, packet, frame_size),
{
    lemma_header(s, packet, frame_size);
}

/// Whatever packet is taken or lost, and whether it is refused or not, a steady
/// decoder stays steady.
pub proof fn law_decoder_stays_steady(
    before: Outcome<'_>,
    after: Outcome<'_>,
    r: Result<usize, CeltDecodeError>,
    packet: Seq<u8>,
    frame_size: int,
    accum: bool,
)
    requires
        steady(before.state),
        packet.len() <= 0x7fffffff,
        answered(before, after, r, packet, frame_size, accum),
    ensures
        steady(after.state),
{
    lemma_header(before.state, packet, frame_size);
    let t = header_applied(before.state, packet, frame_size);
    if let Ok(h) = header_found(before.state, packet, frame_size) {
        if h.len <= 1 {
            assert(scale_of(h.lm as int) >= 1);
        }
    }
}

/// A new decoder for a regular mode is steady.
pub proof fn law_fresh_decoder_is_steady(mode: OpusCustomMode, channels: usize)
    requires
        layout_valid(channels as int, channels as int),
        regular(mode),
    ensures
        steady(AllocState::fresh(mode, channels as int).prepared(mode, channels, channels)),
{
    crate::decoder::law_fresh_decoder_is_valid(mode, channels, channels);
}

/// A reset leaves a steady decoder steady.
pub proof fn law_reset_keeps_steady(s: DecoderState)
    requires
        steady(s),
    ensures
        steady(s.reset()),
{
}

/// A decoded frame ends a loss; a lost one prolongs it, up to a limit.
pub proof fn law_losses_are_counted(
    before: Outcome<'_>,
    after: Outcome<'_>,
    count: usize,
    packet: Seq<u8>,
    frame_size: int,
    accum: bool,
)
    requires
        steady(before.state),
        packet.len() <= 0x7fffffff,
        answered(before, after, Ok::<usize, CeltDecodeError>(count), packet, frame_size, accum),
    ensures
        header_found(before.state, packet, frame_size) matches Ok(h) && if h.len <= 1 {
            after.state.loss_duration == before.state.longer_loss(h.lm as int)
                && after.state.loss_duration >= 1
        } else {
            after.state.loss_duration == 0
        },
{
    lemma_header(before.state, packet, frame_size);
}

/// Decoding never touches the settings of a decoder, but for the end band that a
/// packet can signal.
pub proof fn law_settings_survive_packets(
    before: Outcome<'_>,
    after: Outcome<'_>,
    r: Result<usize, CeltDecodeError>,
    packet: Seq<u8>,
    frame_size: int,
    accum: bool,
)
    requires
        answered(before, after, r, packet, frame_size, accum),
    ensures
        after.state.mode == before.state.mode,
        after.state.channels == before.state.channels,
        after.state.stream_channels == before.state.stream_channels,
        after.state.downsample == before.state.downsample,
        after.state.start_band == before.state.start_band,
        after.state.signalling == before.state.signalling,
        after.state.disable_inv == before.state.disable_inv,
        after.state.complexity == before.state.complexity,
        after.state.arch == before.state.arch,
        !signalled(before.state, packet) ==> after.state.end_band == before.state.end_band,
{
}

/// An error leaves the output alone, unless the packet ran out of bits.
pub proof fn law_errors_leave_the_output(
    before: Outcome<'_>,
    after: Outcome<'_>,
    e: CeltDecodeError,
    packet: Seq<u8>,
    frame_size: int,
    accum: bool,
)
    requires
        answered(before, after, Err::<usize, CeltDecodeError>(e), packet, frame_size, accum),
        e != CeltDecodeError::InvalidPacket || header_found(before.state, packet, frame_size) is Err,
    ensures
        after.pcm == before.pcm,
{
}

/// A frame that was decoded ends a loss and leaves no overlap to be folded. The pitch is
/// trusted again from the second frame behind a loss on, and the final range is the one
/// that the range decoder is left with.
pub proof fn law_frames_settle_the_decoder(
    before: Outcome<'_>,
    after: Outcome<'_>,
    count: usize,
    packet: Seq<u8>,
    frame_size: int,
    accum: bool,
)
    requires
        answered(before, after, Ok::<usize, CeltDecodeError>(count), packet, frame_size, accum),
        header_found(before.state, packet, frame_size) matches Ok(h) && h.len > 1,
    ensures
        after.state.loss_duration == 0,
        !after.state.prefilter_and_fold,
        after.state.skip_plc == (before.state.skip_plc && before.state.loss_duration != 0),
        before.range_decoder is Some ==> after.range_decoder is Some,
        after.range_decoder matches Some(dec) ==> after.state.rng == dec.rng,
        after.state.last_pitch_index == before.state.last_pitch_index,
        after.state.lpc == before.state.lpc,
{
}

/// A success announces the samples of the frame at the output rate: all of them at the
/// full rate, and one out of `downsample` at a lower one.
pub proof fn law_frames_have_their_samples(
    before: Outcome<'_>,
    after: Outcome<'_>,
    count: usize,
    packet: Seq<u8>,
    frame_size: int,
    accum: bool,
)
    requires
        steady(before.state),
        packet.len() <= 0x7fffffff,
        answered(before, after, Ok::<usize, CeltDecodeError>(count), packet, frame_size, accum),
    ensures
        header_found(before.state, packet, frame_size) matches Ok(h) && {
            let n = scale_of(h.lm as int) * before.state.mode.short_mdct_size;
            count * before.state.downsample <= n < (count + 1) * before.state.downsample
        },
        count * before.state.channels <= before.pcm.len(),
        after.pcm.len() == before.pcm.len(),
        forall|i: int|
            count * before.state.channels <= i < before.pcm.len() ==> #[trigger] after.pcm[i]
                == before.pcm[i],
{
    lemma_header(before.state, packet, frame_size);
    let h = header_found(before.state, packet, frame_size)->Ok_0;
    let n = scale_of(h.lm as int) * before.state.mode.short_mdct_size;
    let d = before.state.downsample as int;
    let q = n / d;
    vstd::arithmetic::div_mod::lemma_fundamental_div_mod(n, d);
    vstd::arithmetic::div_mod::lemma_mod_bound(n, d);
    vstd::arithmetic::div_mod::lemma_div_pos_is_pos(n, d);
    assert(q <= n) by (nonlinear_arith)
        requires
            d * q <= n,
            d >= 1,
            q >= 0,
    ;
    assert(q * d == d * q && (q + 1) * d == d * q + d) by (nonlinear_arith);
    assert(0 <= n <= 1024);
    assert(count == q);
    assert(0 <= q * before.state.channels) by (nonlinear_arith)
        requires
            0 <= q,
            0 <= before.state.channels,
    ;
}

/// Where no anti-collapse flag was reserved nothing is filled in: the spectrum is the one
/// that was read.
pub proof fn law_nothing_is_filled_in_unasked(s: DecoderState, h: FrameHeader, f: FrameState<'_>)
    requires
        f.anti_collapse_rsv <= 0,
    ensures
        ({
            let cfg = shapes_of(s, h, f);
            let n = samples_of(s, h) as nat;
            let silent = constant(n, 0i16);
            let b = bands_decoded(
                cfg,
                bands_started(
                    cfg,
                    f.dec,
                    silent,
                    if h.c == 2 { silent } else { Seq::empty() },
                    constant((h.c * s.mode.num_ebands) as nat, 0u8),
                    s.rng,
                    f.allocation.balance,
                    f.allocation.dual,
                ),
                cfg.start as int,
            );
            spectrum_read(s, h, f).x == b.x + b.y
        }),
{
    reveal(spectrum_read);
}

} // verus!
