//! Decoder state: allocation, initialisation, validation and control requests.

use vstd::prelude::*;
use crate::mdct::copied;
use crate::mode::{resampling, resampling_factor, OpusCustomMode};
use crate::mode_tables::canonical_mode;

verus! {

/// Order of the linear predictor used by concealment.
pub const LPC_ORDER: usize = 24;

/// Samples of history kept per channel in front of the overlap.
pub const DECODE_BUFFER_SIZE: usize = 2048;

/// Bound on pitch periods.
pub const MAX_PERIOD: i32 = 1024;

/// Longest lag probed by concealment.
pub const PLC_PITCH_LAG_MAX: i32 = 720;

/// Shortest lag probed by concealment.
pub const PLC_PITCH_LAG_MIN: i32 = 100;

/// Shortest period of the post-filter.
pub const COMBFILTER_MINPERIOD: i32 = 15;

/// Largest number of channels.
pub const MAX_CHANNELS: usize = 2;

/// Bytes in front of the history buffers of a decoder.
pub const DECODER_PREFIX_SIZE: usize = 112;

/// Log energy of silence, -28 in Q24.
pub const SILENCE_LOG_E: i32 = -469762048;

/// Largest architecture selector.
pub const OPUS_ARCHMASK: i32 = 7;

/// Errors reported while a frame is decoded.
#[derive(Debug, Clone, Copy, PartialEq, Eq, Structural)]
pub enum CeltDecodeError {
    /// Arguments do not fit the decoder state.
    BadArgument,
    /// The packet is too short to hold a frame.
    PacketLoss,
    /// The packet signals an invalid configuration or runs out of bits.
    InvalidPacket,
}

/// Errors reported while a decoder is initialised.
#[derive(Debug, Clone, Copy, PartialEq, Eq, Structural)]
pub enum CeltDecoderInitError {
    /// There is no channel, or there are more than the decoder supports.
    InvalidChannelCount,
    /// The stream has no channel, or more than the decoder.
    InvalidStreamChannels,
    /// The sampling rate cannot be reached from 48 kHz.
    UnsupportedSampleRate,
    /// The canonical mode could not be constructed.
    CanonicalModeUnavailable,
}

/// Errors reported by [`opus_custom_decoder_ctl`].
#[derive(Debug, Clone, Copy, PartialEq, Eq, Structural)]
pub enum CeltDecoderCtlError {
    /// The argument is outside the range that the request accepts.
    InvalidArgument,
    /// The request is not supported.
    Unimplemented,
}

/// Control requests of the decoder.
pub enum DecoderCtlRequest<'dec, 'req> {
    SetComplexity(i32),
    GetComplexity(&'req mut i32),
    SetStartBand(i32),
    SetEndBand(i32),
    SetChannels(usize),
    GetAndClearError(&'req mut i32),
    GetLookahead(&'req mut i32),
    ResetState,
    GetPitch(&'req mut i32),
    GetMode(&'req mut Option<&'dec OpusCustomMode>),
    SetSignalling(i32),
    GetFinalRange(&'req mut u32),
    SetPhaseInversionDisabled(bool),
    GetPhaseInversionDisabled(&'req mut bool),
}

/// State of a decoder.
///
/// Samples are Q12, log energies Q24, gains Q15 and predictor coefficients Q12.
pub struct OpusCustomDecoder<'mode> {
    pub mode: &'mode OpusCustomMode,
    pub overlap: usize,
    /// Output channels.
    pub channels: usize,
    /// Channels in the stream.
    pub stream_channels: usize,
    pub downsample: i32,
    pub start_band: i32,
    pub end_band: i32,
    /// Whether packets start with a header byte.
    pub signalling: i32,
    /// Whether phase inversion is disabled.
    pub disable_inv: bool,
    pub complexity: i32,
    pub arch: i32,
    pub rng: u32,
    pub error: i32,
    pub last_pitch_index: i32,
    /// How long packets have been lost, in short blocks.
    pub loss_duration: i32,
    /// Whether pitch-based concealment is not trusted.
    pub skip_plc: bool,
    pub postfilter_period: i32,
    pub postfilter_period_old: i32,
    pub postfilter_gain: i16,
    pub postfilter_gain_old: i16,
    pub postfilter_tapset: i32,
    pub postfilter_tapset_old: i32,
    /// Whether concealment left an overlap to be filtered and folded.
    pub prefilter_and_fold: bool,
    pub preemph_mem_decoder: [i32; 2],
    pub decode_mem: Vec<i32>,
    pub lpc: Vec<i16>,
    pub old_ebands: Vec<i32>,
    pub old_log_e: Vec<i32>,
    pub old_log_e2: Vec<i32>,
    pub background_log_e: Vec<i32>,
}

/// What a decoder holds.
#[verifier::ext_equal]
pub struct DecoderState {
    pub mode: OpusCustomMode,
    pub overlap: usize,
    pub channels: usize,
    pub stream_channels: usize,
    pub downsample: i32,
    pub start_band: i32,
    pub end_band: i32,
    pub signalling: i32,
    pub disable_inv: bool,
    pub complexity: i32,
    pub arch: i32,
    pub rng: u32,
    pub error: i32,
    pub last_pitch_index: i32,
    pub loss_duration: i32,
    pub skip_plc: bool,
    pub postfilter_period: i32,
    pub postfilter_period_old: i32,
    pub postfilter_gain: i16,
    pub postfilter_gain_old: i16,
    pub postfilter_tapset: i32,
    pub postfilter_tapset_old: i32,
    pub prefilter_and_fold: bool,
    pub preemph: Seq<i32>,
    pub decode_mem: Seq<i32>,
    pub lpc: Seq<i16>,
    pub old_ebands: Seq<i32>,
    pub old_log_e: Seq<i32>,
    pub old_log_e2: Seq<i32>,
    pub background_log_e: Seq<i32>,
}

impl<'mode> View for OpusCustomDecoder<'mode> {
    type V = DecoderState;

    open spec fn view(&self) -> DecoderState {
        DecoderState {
            mode: *self.mode,
            overlap: self.overlap,
            channels: self.channels,
            stream_channels: self.stream_channels,
            downsample: self.downsample,
            start_band: self.start_band,
            end_band: self.end_band,
            signalling: self.signalling,
            disable_inv: self.disable_inv,
            complexity: self.complexity,
            arch: self.arch,
            rng: self.rng,
            error: self.error,
            last_pitch_index: self.last_pitch_index,
            loss_duration: self.loss_duration,
            skip_plc: self.skip_plc,
            postfilter_period: self.postfilter_period,
            postfilter_period_old: self.postfilter_period_old,
            postfilter_gain: self.postfilter_gain,
            postfilter_gain_old: self.postfilter_gain_old,
            postfilter_tapset: self.postfilter_tapset,
            postfilter_tapset_old: self.postfilter_tapset_old,
            prefilter_and_fold: self.prefilter_and_fold,
            preemph: self.preemph_mem_decoder@,
            decode_mem: self.decode_mem@,
            lpc: self.lpc@,
            old_ebands: self.old_ebands@,
            old_log_e: self.old_log_e@,
            old_log_e2: self.old_log_e2@,
            background_log_e: self.background_log_e@,
        }
    }
}

/// `n` times the same value.
pub open spec fn constant<T>(n: nat, v: T) -> Seq<T> {
    Seq::new(n, |i: int| v)
}

impl DecoderState {
    /// The state after a reset: histories cleared, configuration kept.
    pub open spec fn reset(self) -> DecoderState {
        DecoderState {
            rng: 0,
            error: 0,
            last_pitch_index: 0,
            loss_duration: 0,
            skip_plc: true,
            postfilter_period: 0,
            postfilter_period_old: 0,
            postfilter_gain: 0,
            postfilter_gain_old: 0,
            postfilter_tapset: 0,
            postfilter_tapset_old: 0,
            prefilter_and_fold: false,
            preemph: constant(self.preemph.len(), 0),
            decode_mem: constant(self.decode_mem.len(), 0),
            lpc: constant(self.lpc.len(), 0),
            old_ebands: constant(self.old_ebands.len(), 0),
            old_log_e: constant(self.old_log_e.len(), SILENCE_LOG_E),
            old_log_e2: constant(self.old_log_e2.len(), SILENCE_LOG_E),
            background_log_e: constant(self.background_log_e.len(), 0),
            ..self
        }
    }

    /// Samples per channel in the history buffer.
    pub open spec fn stride(self) -> int {
        DECODE_BUFFER_SIZE + self.overlap
    }

    /// Largest end band that the decoder supports.
    pub open spec fn end_limit(self) -> int {
        if self.mode.num_ebands <= 25 {
            self.mode.num_ebands as int
        } else {
            25
        }
    }

    /// The buffers have the sizes that the mode and the channels ask for.
    pub open spec fn buffers_fit(self) -> bool {
        &&& self.decode_mem.len() == self.stride() * self.channels
        &&& self.lpc.len() == LPC_ORDER * self.channels
        &&& self.old_ebands.len() == 2 * self.mode.num_ebands
        &&& self.old_log_e.len() == 2 * self.mode.num_ebands
        &&& self.old_log_e2.len() == 2 * self.mode.num_ebands
        &&& self.background_log_e.len() == 2 * self.mode.num_ebands
    }

    /// The invariant of a decoder.
    pub open spec fn valid(self) -> bool {
        &&& self.overlap == self.mode.overlap
        &&& self.end_band <= self.end_limit()
        &&& self.channels == 1 || self.channels == 2
        &&& self.stream_channels == 1 || self.stream_channels == 2
        &&& self.downsample > 0
        &&& 0 <= self.start_band < self.end_band
        &&& 0 <= self.arch <= OPUS_ARCHMASK
        &&& self.last_pitch_index <= PLC_PITCH_LAG_MAX
        &&& self.last_pitch_index >= PLC_PITCH_LAG_MIN || self.last_pitch_index == 0
        &&& self.postfilter_period < MAX_PERIOD
        &&& self.postfilter_period >= COMBFILTER_MINPERIOD || self.postfilter_period == 0
        &&& self.postfilter_period_old < MAX_PERIOD
        &&& self.postfilter_period_old >= COMBFILTER_MINPERIOD || self.postfilter_period_old == 0
        &&& 0 <= self.postfilter_tapset <= 2
        &&& 0 <= self.postfilter_tapset_old <= 2
        &&& self.buffers_fit()
    }
}

/// Whether the channel layout is one that a decoder can have.
pub open spec fn layout_valid(channels: int, stream_channels: int) -> bool {
    1 <= stream_channels <= channels <= MAX_CHANNELS
}

/// The error of a channel layout that is not valid.
pub open spec fn layout_error(channels: int) -> CeltDecoderInitError {
    if channels == 0 || channels > MAX_CHANNELS {
        CeltDecoderInitError::InvalidChannelCount
    } else {
        CeltDecoderInitError::InvalidStreamChannels
    }
}

/// Checks a channel layout.
pub fn validate_channel_layout(channels: usize, stream_channels: usize) -> (r: Result<
    (),
    CeltDecoderInitError,
>)
    ensures
        r is Ok <==> layout_valid(channels as int, stream_channels as int),
        r matches Err(e) ==> e == layout_error(channels as int),
{
    if channels == 0 || channels > MAX_CHANNELS {
        return Err(CeltDecoderInitError::InvalidChannelCount);
    }
    if stream_channels == 0 || stream_channels > channels {
        return Err(CeltDecoderInitError::InvalidStreamChannels);
    }
    Ok(())
}

/// Bytes of a decoder: the prefix, then signal and log-energy histories and
/// predictors, each in working and in storage precision.
pub open spec fn decoder_size(decode_mem: int, lpc: int, band_history: int) -> int {
    DECODER_PREFIX_SIZE + (decode_mem - 1) * 4 + lpc * 4 + 4 * band_history * 4 + decode_mem * 4
        + lpc * 2 + 4 * band_history * 4
}

/// Bytes of a decoder for `mode` with `channels` channels.
pub open spec fn mode_size(mode: OpusCustomMode, channels: int) -> int {
    decoder_size(
        channels * (DECODE_BUFFER_SIZE + mode.overlap),
        channels * LPC_ORDER,
        2 * mode.num_ebands,
    )
}

/// The buffers of a decoder that fits the address space can be counted.
proof fn lemma_mode_size(mode: OpusCustomMode, channels: int)
    requires
        1 <= channels,
        mode_size(mode, channels) <= usize::MAX,
    ensures
        channels <= channels * (DECODE_BUFFER_SIZE + mode.overlap),
        DECODE_BUFFER_SIZE + mode.overlap <= channels * (DECODE_BUFFER_SIZE + mode.overlap),
        8 * (channels * (DECODE_BUFFER_SIZE + mode.overlap)) <= usize::MAX,
        6 * (channels * LPC_ORDER) <= usize::MAX,
        32 * (2 * mode.num_ebands) <= usize::MAX,
{
    assert(channels <= channels * (DECODE_BUFFER_SIZE + mode.overlap)) by (nonlinear_arith)
        requires
            1 <= channels,
            mode.overlap >= 0,
    ;
    assert(DECODE_BUFFER_SIZE + mode.overlap <= channels * (DECODE_BUFFER_SIZE + mode.overlap))
        by (nonlinear_arith)
        requires
            1 <= channels,
            mode.overlap >= 0,
    ;
}

/// Bytes that a decoder for `mode` takes; `None` unless it is mono or stereo.
pub fn opus_custom_decoder_get_size(mode: &OpusCustomMode, channels: usize) -> (size: Option<usize>)
    requires
        1 <= channels <= MAX_CHANNELS ==> mode_size(*mode, channels as int) <= usize::MAX,
    ensures
        size is Some <==> 1 <= channels <= MAX_CHANNELS,
        size matches Some(bytes) ==> bytes == mode_size(*mode, channels as int),
{
    if channels == 0 || channels > MAX_CHANNELS {
        return None;
    }
    proof {
        lemma_mode_size(*mode, channels as int);
    }
    let decode_mem: usize = channels * (DECODE_BUFFER_SIZE + mode.overlap);
    let lpc: usize = channels * LPC_ORDER;
    let band_history: usize = 2 * mode.num_ebands;
    Some(
        DECODER_PREFIX_SIZE + (decode_mem - 1) * 4 + lpc * 4 + 4 * band_history * 4 + decode_mem * 4
            + lpc * 2 + 4 * band_history * 4,
    )
}

/// Bytes that a decoder for the canonical mode takes.
pub fn celt_decoder_get_size(channels: usize) -> (size: Option<usize>)
    ensures
        size is Some <==> 1 <= channels <= MAX_CHANNELS,
        size matches Some(bytes) ==> bytes == decoder_size(
            channels * (DECODE_BUFFER_SIZE + 120),
            channels * LPC_ORDER,
            42,
        ),
{
    let mode: OpusCustomMode = canonical_mode();
    opus_custom_decoder_get_size(&mode, channels)
}

/// Sets all elements to `v`.
fn fill_all<T: Copy>(s: &mut Vec<T>, v: T)
    ensures
        final(s)@ == constant(old(s)@.len(), v),
{
    let n: usize = s.len();
    for i in 0..n
        invariant
            n == s@.len(),
            n == old(s)@.len(),
            forall|j: int| 0 <= j < i ==> s@[j] == v,
    {
        s.set(i, v);
    }
    assert(s@ =~= constant(old(s)@.len(), v));
}

/// `n` times the same value.
fn repeated<T: Copy>(n: usize, v: T) -> (s: Vec<T>)
    ensures
        s@ == constant(n as nat, v),
{
    let mut s: Vec<T> = Vec::new();
    for i in 0..n
        invariant
            s@.len() == i,
            forall|j: int| 0 <= j < i ==> s@[j] == v,
    {
        s.push(v);
    }
    assert(s@ =~= constant(n as nat, v));
    s
}

impl<'mode> OpusCustomDecoder<'mode> {
    /// Clears the histories and keeps the configuration.
    pub fn reset_runtime_state(&mut self)
        ensures
            final(self)@ == old(self)@.reset(),
            final(self).mode == old(self).mode,
    {
        self.rng = 0;
        self.error = 0;
        self.last_pitch_index = 0;
        self.loss_duration = 0;
        self.skip_plc = true;
        self.postfilter_period = 0;
        self.postfilter_period_old = 0;
        self.postfilter_gain = 0;
        self.postfilter_gain_old = 0;
        self.postfilter_tapset = 0;
        self.postfilter_tapset_old = 0;
        self.prefilter_and_fold = false;
        self.preemph_mem_decoder = [0, 0];
        fill_all(&mut self.decode_mem, 0);
        fill_all(&mut self.lpc, 0);
        fill_all(&mut self.old_ebands, 0);
        fill_all(&mut self.old_log_e, SILENCE_LOG_E);
        fill_all(&mut self.old_log_e2, SILENCE_LOG_E);
        fill_all(&mut self.background_log_e, 0);
        assert(self.preemph_mem_decoder@ =~= constant(2, 0));
        assert(old(self)@.preemph.len() == 2);
    }
}

/// Checks the invariant of a decoder.
pub fn validate_celt_decoder(decoder: &OpusCustomDecoder<'_>) -> (ok: bool)
    ensures
        ok == decoder@.valid(),
{
    let bands: usize = decoder.mode.num_ebands;
    let limit: i32 = if bands <= 25 { bands as i32 } else { 25 };
    if decoder.overlap != decoder.mode.overlap || decoder.end_band > limit {
        return false;
    }
    if decoder.channels != 1 && decoder.channels != 2 {
        return false;
    }
    if decoder.stream_channels != 1 && decoder.stream_channels != 2 {
        return false;
    }
    let settings: bool = decoder.downsample > 0 && decoder.start_band >= 0 && decoder.start_band
        < decoder.end_band && decoder.arch >= 0 && decoder.arch <= OPUS_ARCHMASK;
    let lag: i32 = decoder.last_pitch_index;
    let lags: bool = lag <= PLC_PITCH_LAG_MAX && (lag >= PLC_PITCH_LAG_MIN || lag == 0);
    let period: i32 = decoder.postfilter_period;
    let period_old: i32 = decoder.postfilter_period_old;
    let periods: bool = period < MAX_PERIOD && (period >= COMBFILTER_MINPERIOD || period == 0)
        && period_old < MAX_PERIOD && (period_old >= COMBFILTER_MINPERIOD || period_old == 0);
    let taps: bool = decoder.postfilter_tapset >= 0 && decoder.postfilter_tapset <= 2
        && decoder.postfilter_tapset_old >= 0 && decoder.postfilter_tapset_old <= 2;
    let stride: u128 = DECODE_BUFFER_SIZE as u128 + decoder.overlap as u128;
    let signal: u128 = if decoder.channels == 1 {
        stride
    } else {
        2 * stride
    };
    let history: u128 = 2 * bands as u128;
    let buffers: bool = decoder.decode_mem.len() as u128 == signal && decoder.lpc.len() == LPC_ORDER
        * decoder.channels && decoder.old_ebands.len() as u128 == history
        && decoder.old_log_e.len() as u128 == history && decoder.old_log_e2.len() as u128 == history
        && decoder.background_log_e.len() as u128 == history;
    settings && lags && periods && taps && buffers
}

/// Buffers for a decoder.
pub struct CeltDecoderAlloc {
    pub decode_mem: Vec<i32>,
    pub lpc: Vec<i16>,
    pub old_ebands: Vec<i32>,
    pub old_log_e: Vec<i32>,
    pub old_log_e2: Vec<i32>,
    pub background_log_e: Vec<i32>,
}

/// What buffers for a decoder hold.
#[verifier::ext_equal]
pub struct AllocState {
    pub decode_mem: Seq<i32>,
    pub lpc: Seq<i16>,
    pub old_ebands: Seq<i32>,
    pub old_log_e: Seq<i32>,
    pub old_log_e2: Seq<i32>,
    pub background_log_e: Seq<i32>,
}

impl View for CeltDecoderAlloc {
    type V = AllocState;

    open spec fn view(&self) -> AllocState {
        AllocState {
            decode_mem: self.decode_mem@,
            lpc: self.lpc@,
            old_ebands: self.old_ebands@,
            old_log_e: self.old_log_e@,
            old_log_e2: self.old_log_e2@,
            background_log_e: self.background_log_e@,
        }
    }
}

impl AllocState {
    /// The same buffers, cleared.
    pub open spec fn cleared(self) -> AllocState {
        AllocState {
            decode_mem: constant(self.decode_mem.len(), 0),
            lpc: constant(self.lpc.len(), 0),
            old_ebands: constant(self.old_ebands.len(), 0),
            old_log_e: constant(self.old_log_e.len(), 0),
            old_log_e2: constant(self.old_log_e2.len(), 0),
            background_log_e: constant(self.background_log_e.len(), 0),
        }
    }

    /// Cleared buffers for a mode.
    pub open spec fn fresh(mode: OpusCustomMode, channels: int) -> AllocState {
        let bands = 2 * mode.num_ebands as nat;
        AllocState {
            decode_mem: constant((channels * (DECODE_BUFFER_SIZE + mode.overlap)) as nat, 0),
            lpc: constant((LPC_ORDER * channels) as nat, 0),
            old_ebands: constant(bands, 0),
            old_log_e: constant(bands, 0),
            old_log_e2: constant(bands, 0),
            background_log_e: constant(bands, 0),
        }
    }

    /// The decoder that starts from the buffers.
    pub open spec fn attached(
        self,
        mode: OpusCustomMode,
        channels: usize,
        stream_channels: usize,
    ) -> DecoderState {
        DecoderState {
            mode,
            overlap: mode.overlap,
            channels,
            stream_channels,
            downsample: 1,
            start_band: 0,
            end_band: mode.effective_ebands as i32,
            signalling: 1,
            disable_inv: false,
            complexity: 0,
            arch: 0,
            rng: 0,
            error: 0,
            last_pitch_index: 0,
            loss_duration: 0,
            skip_plc: false,
            postfilter_period: 0,
            postfilter_period_old: 0,
            postfilter_gain: 0,
            postfilter_gain_old: 0,
            postfilter_tapset: 0,
            postfilter_tapset_old: 0,
            prefilter_and_fold: false,
            preemph: seq![0i32, 0],
            decode_mem: self.decode_mem,
            lpc: self.lpc,
            old_ebands: self.old_ebands,
            old_log_e: self.old_log_e,
            old_log_e2: self.old_log_e2,
            background_log_e: self.background_log_e,
        }
    }

    /// The decoder in its initial state.
    pub open spec fn prepared(
        self,
        mode: OpusCustomMode,
        channels: usize,
        stream_channels: usize,
    ) -> DecoderState {
        DecoderState {
            disable_inv: channels == 1,
            ..self.attached(mode, channels, stream_channels).reset()
        }
    }
}

impl CeltDecoderAlloc {
    /// Allocates cleared buffers for a mode.
    pub fn new(mode: &OpusCustomMode, channels: usize) -> (alloc: CeltDecoderAlloc)
        requires
            1 <= channels,
            mode_size(*mode, channels as int) <= usize::MAX,
        ensures
            alloc@ == AllocState::fresh(*mode, channels as int),
    {
        proof {
            lemma_mode_size(*mode, channels as int);
        }
        let bands: usize = 2 * mode.num_ebands;
        CeltDecoderAlloc {
            decode_mem: repeated(channels * (DECODE_BUFFER_SIZE + mode.overlap), 0),
            lpc: repeated(LPC_ORDER * channels, 0),
            old_ebands: repeated(bands, 0),
            old_log_e: repeated(bands, 0),
            old_log_e2: repeated(bands, 0),
            background_log_e: repeated(bands, 0),
        }
    }

    /// Bytes of a decoder with these buffers.
    pub fn size_in_bytes(&self) -> (size: usize)
        requires
            1 <= self.decode_mem@.len(),
            decoder_size(
                self.decode_mem@.len() as int,
                self.lpc@.len() as int,
                self.old_ebands@.len() as int,
            ) <= usize::MAX,
        ensures
            size == decoder_size(
                self.decode_mem@.len() as int,
                self.lpc@.len() as int,
                self.old_ebands@.len() as int,
            ),
    {
        let decode_mem: usize = self.decode_mem.len();
        let lpc: usize = self.lpc.len();
        let band_history: usize = self.old_ebands.len();
        DECODER_PREFIX_SIZE + (decode_mem - 1) * 4 + lpc * 4 + 4 * band_history * 4 + decode_mem * 4
            + lpc * 2 + 4 * band_history * 4
    }

    /// Makes a decoder over the buffers.
    ///
    /// The buffers stay with the allocation as they are, so that one decoder
    /// after another can be made from them.
    pub fn as_decoder<'mode>(
        &mut self,
        mode: &'mode OpusCustomMode,
        channels: usize,
        stream_channels: usize,
    ) -> (decoder: OpusCustomDecoder<'mode>)
        ensures
            decoder@ == old(self)@.attached(*mode, channels, stream_channels),
            decoder.mode == mode,
            *final(self) == *old(self),
    {
        let decoder: OpusCustomDecoder<'mode> = OpusCustomDecoder {
            mode,
            overlap: mode.overlap,
            channels,
            stream_channels,
            downsample: 1,
            start_band: 0,
            end_band: mode.effective_ebands as i32,
            signalling: 1,
            disable_inv: false,
            complexity: 0,
            arch: 0,
            rng: 0,
            error: 0,
            last_pitch_index: 0,
            loss_duration: 0,
            skip_plc: false,
            postfilter_period: 0,
            postfilter_period_old: 0,
            postfilter_gain: 0,
            postfilter_gain_old: 0,
            postfilter_tapset: 0,
            postfilter_tapset_old: 0,
            prefilter_and_fold: false,
            preemph_mem_decoder: [0, 0],
            decode_mem: copied(&self.decode_mem),
            lpc: copied(&self.lpc),
            old_ebands: copied(&self.old_ebands),
            old_log_e: copied(&self.old_log_e),
            old_log_e2: copied(&self.old_log_e2),
            background_log_e: copied(&self.background_log_e),
        };
        assert(decoder.preemph_mem_decoder@ =~= seq![0i32, 0]);
        decoder
    }

    /// Clears the buffers.
    pub fn reset(&mut self)
        ensures
            final(self)@ == old(self)@.cleared(),
    {
        fill_all(&mut self.decode_mem, 0);
        fill_all(&mut self.lpc, 0);
        fill_all(&mut self.old_ebands, 0);
        fill_all(&mut self.old_log_e, 0);
        fill_all(&mut self.old_log_e2, 0);
        fill_all(&mut self.background_log_e, 0);
    }

    /// Makes a decoder in its initial state; the buffers stay with the allocation.
    pub fn prepare_decoder<'mode>(
        &mut self,
        mode: &'mode OpusCustomMode,
        channels: usize,
        stream_channels: usize,
    ) -> (r: Result<OpusCustomDecoder<'mode>, CeltDecoderInitError>)
        ensures
            r is Ok <==> layout_valid(channels as int, stream_channels as int),
            r matches Ok(decoder) ==> {
                &&& decoder@ == old(self)@.prepared(*mode, channels, stream_channels)
                &&& decoder.mode == mode
            },
            r matches Err(e) ==> e == layout_error(channels as int),
            *final(self) == *old(self),
    {
        match validate_channel_layout(channels, stream_channels) {
            Err(e) => Err(e),
            Ok(()) => {
                let mut decoder: OpusCustomDecoder<'mode> = self.as_decoder(
                    mode,
                    channels,
                    stream_channels,
                );
                decoder.reset_runtime_state();
                decoder.disable_inv = channels == 1;
                Ok(decoder)
            },
        }
    }

    /// Makes a decoder that resamples to the rate of the mode; the buffers stay
    /// with the allocation.
    pub fn init_decoder<'mode>(
        &mut self,
        mode: &'mode OpusCustomMode,
        channels: usize,
        stream_channels: usize,
    ) -> (r: Result<OpusCustomDecoder<'mode>, CeltDecoderInitError>)
        ensures
            r is Ok <==> layout_valid(channels as int, stream_channels as int) && resampling(
                mode.sample_rate,
            ) != 0,
            r matches Ok(decoder) ==> {
                &&& decoder@ == (DecoderState {
                    downsample: resampling(mode.sample_rate) as i32,
                    ..old(self)@.prepared(*mode, channels, stream_channels)
                })
                &&& decoder.mode == mode
            },
            r matches Err(e) ==> e == (if layout_valid(channels as int, stream_channels as int) {
                CeltDecoderInitError::UnsupportedSampleRate
            } else {
                layout_error(channels as int)
            }),
            *final(self) == *old(self),
    {
        match self.prepare_decoder(mode, channels, stream_channels) {
            Err(e) => Err(e),
            Ok(prepared) => {
                let mut decoder: OpusCustomDecoder<'mode> = prepared;
                let downsample: i32 = resampling_factor(mode.sample_rate);
                if downsample == 0 {
                    return Err(CeltDecoderInitError::UnsupportedSampleRate);
                }
                decoder.downsample = downsample;
                Ok(decoder)
            },
        }
    }
}

/// Initialises a decoder for the canonical mode, if there is one, that resamples
/// to `sampling_rate`.
pub fn celt_decoder_init<'mode>(
    alloc: &mut CeltDecoderAlloc,
    canonical: Option<&'mode OpusCustomMode>,
    sampling_rate: i32,
    channels: usize,
) -> (r: Result<OpusCustomDecoder<'mode>, CeltDecoderInitError>)
    ensures
        *final(alloc) == *old(alloc),
        canonical is None ==> r == Err::<OpusCustomDecoder<'mode>, CeltDecoderInitError>(
            CeltDecoderInitError::CanonicalModeUnavailable,
        ),
        canonical matches Some(mode) ==> {
            &&& r is Ok <==> layout_valid(channels as int, channels as int) && resampling(
                mode.sample_rate,
            ) != 0 && resampling(sampling_rate) != 0
            &&& r matches Ok(decoder) ==> {
                &&& decoder@ == (DecoderState {
                    downsample: resampling(sampling_rate) as i32,
                    ..old(alloc)@.prepared(*mode, channels, channels)
                })
                &&& decoder.mode == mode
            }
            &&& r matches Err(e) ==> e == (if layout_valid(channels as int, channels as int) {
                CeltDecoderInitError::UnsupportedSampleRate
            } else {
                layout_error(channels as int)
            })
        },
{
    match canonical {
        None => Err(CeltDecoderInitError::CanonicalModeUnavailable),
        Some(mode) => match alloc.init_decoder(mode, channels, channels) {
            Err(e) => Err(e),
            Ok(initial) => {
                let mut decoder: OpusCustomDecoder<'mode> = initial;
                let factor: i32 = resampling_factor(sampling_rate);
                if factor == 0 {
                    return Err(CeltDecoderInitError::UnsupportedSampleRate);
                }
                decoder.downsample = factor;
                Ok(decoder)
            },
        },
    }
}

/// Initialises a decoder for a custom mode, without resampling.
pub fn opus_custom_decoder_init<'mode>(
    alloc: &mut CeltDecoderAlloc,
    mode: &'mode OpusCustomMode,
    channels: usize,
) -> (r: Result<OpusCustomDecoder<'mode>, CeltDecoderInitError>)
    ensures
        r is Ok <==> 1 <= channels <= MAX_CHANNELS,
        r matches Ok(decoder) ==> {
            &&& decoder@ == old(alloc)@.prepared(*mode, channels, channels)
            &&& decoder.mode == mode
        },
        r matches Err(e) ==> e == CeltDecoderInitError::InvalidChannelCount,
        *final(alloc) == *old(alloc),
{
    alloc.prepare_decoder(mode, channels, channels)
}

/// A decoder together with its buffers.
pub struct OwnedCeltDecoder<'mode> {
    pub decoder: OpusCustomDecoder<'mode>,
}

impl<'mode> OwnedCeltDecoder<'mode> {
    /// Borrows the decoder.
    pub fn decoder(&mut self) -> (decoder: &mut OpusCustomDecoder<'mode>)
        ensures
            *decoder == old(self).decoder,
            final(self).decoder == *final(decoder),
    {
        &mut self.decoder
    }

    /// Allocates and initialises a decoder.
    pub fn new(mode: &'mode OpusCustomMode, channels: usize) -> (r: Result<
        OwnedCeltDecoder<'mode>,
        CeltDecoderInitError,
    >)
        requires
            1 <= channels <= MAX_CHANNELS ==> mode_size(*mode, channels as int) <= usize::MAX,
        ensures
            r is Ok <==> 1 <= channels <= MAX_CHANNELS,
            r matches Ok(owned) ==> {
                &&& owned.decoder@ == AllocState::fresh(*mode, channels as int).prepared(
                    *mode,
                    channels,
                    channels,
                )
                &&& owned.decoder.mode == mode
            },
            r matches Err(e) ==> e == CeltDecoderInitError::InvalidChannelCount,
    {
        opus_custom_decoder_create(mode, channels)
    }
}

/// Allocates and initialises a decoder for a custom mode.
pub fn opus_custom_decoder_create<'mode>(mode: &'mode OpusCustomMode, channels: usize) -> (r: Result<
    OwnedCeltDecoder<'mode>,
    CeltDecoderInitError,
>)
    requires
        1 <= channels <= MAX_CHANNELS ==> mode_size(*mode, channels as int) <= usize::MAX,
    ensures
        r is Ok <==> 1 <= channels <= MAX_CHANNELS,
        r matches Ok(owned) ==> {
            &&& owned.decoder@ == AllocState::fresh(*mode, channels as int).prepared(
                *mode,
                channels,
                channels,
            )
            &&& owned.decoder.mode == mode
        },
        r matches Err(e) ==> e == CeltDecoderInitError::InvalidChannelCount,
{
    match validate_channel_layout(channels, channels) {
        Err(e) => Err(e),
        Ok(()) => {
            let mut alloc: CeltDecoderAlloc = CeltDecoderAlloc::new(mode, channels);
            match alloc.prepare_decoder(mode, channels, channels) {
                Err(e) => Err(e),
                Ok(decoder) => Ok(OwnedCeltDecoder { decoder }),
            }
        },
    }
}

/// Releases a decoder.
pub fn opus_custom_decoder_destroy(_decoder: OwnedCeltDecoder<'_>) {
}

/// Settings that a control request can change.
pub enum Setting {
    Complexity(i32),
    StartBand(i32),
    EndBand(i32),
    Channels(usize),
    Signalling(i32),
    PhaseInversionDisabled(bool),
}

/// The setting that a request makes, if it makes one.
pub open spec fn setting_of(request: DecoderCtlRequest<'_, '_>) -> Option<Setting> {
    match request {
        DecoderCtlRequest::SetComplexity(v) => Some(Setting::Complexity(v)),
        DecoderCtlRequest::SetStartBand(v) => Some(Setting::StartBand(v)),
        DecoderCtlRequest::SetEndBand(v) => Some(Setting::EndBand(v)),
        DecoderCtlRequest::SetChannels(v) => Some(Setting::Channels(v)),
        DecoderCtlRequest::SetSignalling(v) => Some(Setting::Signalling(v)),
        DecoderCtlRequest::SetPhaseInversionDisabled(v) => Some(Setting::PhaseInversionDisabled(v)),
        _ => None,
    }
}

impl DecoderState {
    /// Whether a setting is in range.
    pub open spec fn accepts(self, setting: Setting) -> bool {
        match setting {
            Setting::Complexity(v) => 0 <= v <= 10,
            Setting::StartBand(v) => 0 <= v < self.mode.num_ebands,
            Setting::EndBand(v) => 1 <= v <= self.mode.num_ebands,
            Setting::Channels(v) => 1 <= v <= MAX_CHANNELS,
            Setting::Signalling(_) => true,
            Setting::PhaseInversionDisabled(_) => true,
        }
    }

    /// The state with a setting made.
    pub open spec fn with(self, setting: Setting) -> DecoderState {
        DecoderState {
            complexity: match setting {
                Setting::Complexity(v) => v,
                _ => self.complexity,
            },
            start_band: match setting {
                Setting::StartBand(v) => v,
                _ => self.start_band,
            },
            end_band: match setting {
                Setting::EndBand(v) => v,
                _ => self.end_band,
            },
            stream_channels: match setting {
                Setting::Channels(v) => v,
                _ => self.stream_channels,
            },
            signalling: match setting {
                Setting::Signalling(v) => v,
                _ => self.signalling,
            },
            disable_inv: match setting {
                Setting::PhaseInversionDisabled(v) => v,
                _ => self.disable_inv,
            },
            ..self
        }
    }

    /// Samples of delay at the output rate.
    pub open spec fn lookahead(self) -> i32 {
        (self.overlap as int / self.downsample as int) as i32
    }
}

/// Applies a control request.
///
/// A setting in range is made, one out of range is refused and changes nothing.
/// A reset clears the histories, the error query clears the error, and all other
/// requests only read.
pub fn opus_custom_decoder_ctl<'dec, 'req>(
    decoder: &mut OpusCustomDecoder<'dec>,
    request: DecoderCtlRequest<'dec, 'req>,
) -> (r: Result<(), CeltDecoderCtlError>)
    requires
        request is GetLookahead ==> old(decoder).overlap <= i32::MAX,
    ensures
        r is Ok || r == Err::<(), CeltDecoderCtlError>(CeltDecoderCtlError::InvalidArgument),
        setting_of(request) matches Some(setting) ==> {
            &&& r is Ok <==> old(decoder)@.accepts(setting)
            &&& r is Ok ==> final(decoder)@ == old(decoder)@.with(setting)
        },
        r is Err ==> *final(decoder) == *old(decoder),
        final(decoder).mode == old(decoder).mode,
        request is ResetState ==> r is Ok && final(decoder)@ == old(decoder)@.reset(),
        request matches DecoderCtlRequest::GetAndClearError(slot) ==> {
            &&& r is Ok
            &&& *final(slot) == old(decoder).error
            &&& final(decoder)@ == (DecoderState { error: 0, ..old(decoder)@ })
        },
        request matches DecoderCtlRequest::GetComplexity(slot) ==> {
            &&& r is Ok
            &&& *final(slot) == old(decoder).complexity
            &&& *final(decoder) == *old(decoder)
        },
        request matches DecoderCtlRequest::GetLookahead(slot) ==> {
            &&& r is Ok <==> old(decoder).downsample > 0
            &&& *final(slot) == (if r is Ok { old(decoder)@.lookahead() } else { *slot })
            &&& *final(decoder) == *old(decoder)
        },
        request matches DecoderCtlRequest::GetPitch(slot) ==> {
            &&& r is Ok
            &&& *final(slot) == old(decoder).postfilter_period
            &&& *final(decoder) == *old(decoder)
        },
        request matches DecoderCtlRequest::GetMode(slot) ==> {
            &&& r is Ok
            &&& *final(slot) == Some(old(decoder).mode)
            &&& *final(decoder) == *old(decoder)
        },
        request matches DecoderCtlRequest::GetFinalRange(slot) ==> {
            &&& r is Ok
            &&& *final(slot) == old(decoder).rng
            &&& *final(decoder) == *old(decoder)
        },
        request matches DecoderCtlRequest::GetPhaseInversionDisabled(slot) ==> {
            &&& r is Ok
            &&& *final(slot) == old(decoder).disable_inv
            &&& *final(decoder) == *old(decoder)
        },
{
    match request {
        DecoderCtlRequest::SetComplexity(value) => {
            if value < 0 || value > 10 {
                return Err(CeltDecoderCtlError::InvalidArgument);
            }
            decoder.complexity = value;
        },
        DecoderCtlRequest::GetComplexity(slot) => {
            *slot = decoder.complexity;
        },
        DecoderCtlRequest::SetStartBand(value) => {
            if value < 0 || value as usize >= decoder.mode.num_ebands {
                return Err(CeltDecoderCtlError::InvalidArgument);
            }
            decoder.start_band = value;
        },
        DecoderCtlRequest::SetEndBand(value) => {
            if value < 1 || value as usize > decoder.mode.num_ebands {
                return Err(CeltDecoderCtlError::InvalidArgument);
            }
            decoder.end_band = value;
        },
        DecoderCtlRequest::SetChannels(value) => {
            if value == 0 || value > MAX_CHANNELS {
                return Err(CeltDecoderCtlError::InvalidArgument);
            }
            decoder.stream_channels = value;
        },
        DecoderCtlRequest::GetAndClearError(slot) => {
            *slot = decoder.error;
            decoder.error = 0;
        },
        DecoderCtlRequest::GetLookahead(slot) => {
            if decoder.downsample <= 0 {
                return Err(CeltDecoderCtlError::InvalidArgument);
            }
            *slot = (decoder.overlap / decoder.downsample as usize) as i32;
        },
        DecoderCtlRequest::ResetState => {
            decoder.reset_runtime_state();
        },
        DecoderCtlRequest::GetPitch(slot) => {
            *slot = decoder.postfilter_period;
        },
        DecoderCtlRequest::GetMode(slot) => {
            *slot = Some(decoder.mode);
        },
        DecoderCtlRequest::SetSignalling(value) => {
            decoder.signalling = value;
        },
        DecoderCtlRequest::GetFinalRange(slot) => {
            *slot = decoder.rng;
        },
        DecoderCtlRequest::SetPhaseInversionDisabled(value) => {
            decoder.disable_inv = value;
        },
        DecoderCtlRequest::GetPhaseInversionDisabled(slot) => {
            *slot = decoder.disable_inv;
        },
    }
    Ok(())
}

/// Resetting twice is resetting once, and a reset keeps every setting.
pub proof fn law_reset_keeps_settings(state: DecoderState, setting: Setting)
    ensures
        state.reset().reset() == state.reset(),
        state.with(setting).reset() == state.reset().with(setting),
        state.reset().accepts(setting) == state.accepts(setting),
{
}

/// Whether two decoders have the same configuration.
pub open spec fn same_settings(a: DecoderState, b: DecoderState) -> bool {
    &&& a.mode == b.mode
    &&& a.overlap == b.overlap
    &&& a.channels == b.channels
    &&& a.stream_channels == b.stream_channels
    &&& a.downsample == b.downsample
    &&& a.start_band == b.start_band
    &&& a.end_band == b.end_band
    &&& a.signalling == b.signalling
    &&& a.disable_inv == b.disable_inv
    &&& a.complexity == b.complexity
    &&& a.arch == b.arch
}

/// A reset erases the history: decoders with the same configuration cannot be
/// told apart behind it, whatever they decoded before.
pub proof fn law_reset_erases_history(a: OpusCustomDecoder<'_>, b: OpusCustomDecoder<'_>)
    requires
        same_settings(a@, b@),
        a@.buffers_fit(),
        b@.buffers_fit(),
    ensures
        a@.reset() == b@.reset(),
{
}

/// A reset of a valid decoder leaves it valid.
pub proof fn law_reset_keeps_validity(state: DecoderState)
    requires
        state.valid(),
    ensures
        state.reset().valid(),
{
}

/// Accepted settings keep a decoder valid, as long as the first band stays in
/// front of the last one.
pub proof fn law_settings_keep_validity(state: DecoderState, setting: Setting)
    requires
        state.valid(),
        state.mode.num_ebands <= 25,
        state.accepts(setting),
        state.with(setting).start_band < state.with(setting).end_band,
    ensures
        state.with(setting).valid(),
{
}

/// What a setting makes is what is read back.
pub proof fn law_settings_are_read_back(
    state: DecoderState,
    complexity: i32,
    start_band: i32,
    end_band: i32,
    channels: usize,
    signalling: i32,
    disabled: bool,
)
    ensures
        state.with(Setting::Complexity(complexity)).complexity == complexity,
        state.with(Setting::StartBand(start_band)).start_band == start_band,
        state.with(Setting::EndBand(end_band)).end_band == end_band,
        state.with(Setting::Channels(channels)).stream_channels == channels,
        state.with(Setting::Signalling(signalling)).signalling == signalling,
        state.with(Setting::PhaseInversionDisabled(disabled)).disable_inv == disabled,
{
}

/// Making a setting twice is making the last one, and different settings do not
/// disturb each other.
pub proof fn law_settings_are_independent(state: DecoderState, a: Setting, b: Setting)
    ensures
        state.with(a).with(a) == state.with(a),
        state.with(a).with(b).accepts(a) == state.accepts(a),
        !same_setting(a, b) ==> state.with(a).with(b) == state.with(b).with(a),
{
}

/// Whether two settings concern the same field.
pub open spec fn same_setting(a: Setting, b: Setting) -> bool {
    match (a, b) {
        (Setting::Complexity(_), Setting::Complexity(_)) => true,
        (Setting::StartBand(_), Setting::StartBand(_)) => true,
        (Setting::EndBand(_), Setting::EndBand(_)) => true,
        (Setting::Channels(_), Setting::Channels(_)) => true,
        (Setting::Signalling(_), Setting::Signalling(_)) => true,
        (Setting::PhaseInversionDisabled(_), Setting::PhaseInversionDisabled(_)) => true,
        _ => false,
    }
}

/// A decoder made from fresh buffers is valid, whatever valid layout it has.
pub proof fn law_fresh_decoder_is_valid(
    mode: OpusCustomMode,
    channels: usize,
    stream_channels: usize,
)
    requires
        layout_valid(channels as int, stream_channels as int),
        1 <= mode.effective_ebands <= mode.num_ebands <= 25,
    ensures
        AllocState::fresh(mode, channels as int).attached(mode, channels, stream_channels).valid(),
        AllocState::fresh(mode, channels as int).prepared(mode, channels, stream_channels).valid(),
{
    vstd::arithmetic::mul::lemma_mul_is_commutative(
        channels as int,
        DECODE_BUFFER_SIZE + mode.overlap,
    );
    assert(0 <= channels * (DECODE_BUFFER_SIZE + mode.overlap)) by (nonlinear_arith)
        requires
            channels >= 0,
            mode.overlap >= 0,
    ;
}

/// Fresh buffers take as many bytes as a decoder is said to take.
pub proof fn law_fresh_buffers_have_the_stated_size(mode: OpusCustomMode, channels: int)
    requires
        1 <= channels,
    ensures
        ({
            let a = AllocState::fresh(mode, channels);
            decoder_size(
                a.decode_mem.len() as int,
                a.lpc.len() as int,
                a.old_ebands.len() as int,
            ) == mode_size(mode, channels)
        }),
{
    assert(0 <= channels * (DECODE_BUFFER_SIZE + mode.overlap)) by (nonlinear_arith)
        requires
            channels >= 0,
            mode.overlap >= 0,
    ;
}

/// A second channel takes a history of samples and a predictor more, each in
/// working and in storage precision.
pub proof fn law_second_channel_size(mode: OpusCustomMode)
    ensures
        mode_size(mode, 2) - mode_size(mode, 1) == 8 * (DECODE_BUFFER_SIZE + mode.overlap) + 6
            * LPC_ORDER,
{
}

/// A decoder made from fresh buffers has buffers of the sizes that its mode and
/// its channels ask for.
pub proof fn law_fresh_buffers_fit(
    mode: OpusCustomMode,
    channels: usize,
    stream_channels: usize,
)
    requires
        layout_valid(channels as int, stream_channels as int),
    ensures
        ({
            let alloc = AllocState::fresh(mode, channels as int);
            &&& alloc.attached(mode, channels, stream_channels).buffers_fit()
            &&& alloc.prepared(mode, channels, stream_channels).buffers_fit()
        }),
{
    vstd::arithmetic::mul::lemma_mul_is_commutative(
        channels as int,
        DECODE_BUFFER_SIZE + mode.overlap,
    );
    assert(0 <= channels * (DECODE_BUFFER_SIZE + mode.overlap)) by (nonlinear_arith)
        requires
            channels >= 0,
            mode.overlap >= 0,
    ;
}

/// The rates that can be reached are those that divide 48 kHz by one, two, three, four and
/// six.
pub proof fn law_rates_divide_the_clock(rate: i32)
    ensures
        resampling(rate) != 0 ==> resampling(rate) * rate == 48000,
        resampling(rate) != 0 <==> rate == 48000 || rate == 24000 || rate == 16000 || rate == 12000
            || rate == 8000,
{
}

/// The delay at the output rate is the overlap at the rate of the mode.
pub proof fn law_lookahead_is_the_overlap(s: DecoderState)
    requires
        s.downsample > 0,
        s.overlap <= i32::MAX,
    ensures
        s.lookahead() * s.downsample <= s.overlap < (s.lookahead() + 1) * s.downsample,
{
    let o = s.overlap as int;
    let d = s.downsample as int;
    vstd::arithmetic::div_mod::lemma_fundamental_div_mod(o, d);
    vstd::arithmetic::div_mod::lemma_mod_bound(o, d);
    vstd::arithmetic::div_mod::lemma_div_pos_is_pos(o, d);
    let q = o / d;
    assert(q <= o) by (nonlinear_arith)
        requires
            d * q <= o,
            d >= 1,
            q >= 0,
    ;
    assert(q * d == d * q && (q + 1) * d == d * q + d) by (nonlinear_arith);
}

} // verus!
