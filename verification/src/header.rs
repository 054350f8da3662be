//! Packet headers: the configuration byte, padding and the frame size.

use vstd::prelude::*;
use crate::band_tf::{scale, scale_of};
use crate::decoder::{CeltDecodeError, DecoderState, OpusCustomDecoder, MAX_CHANNELS};
use crate::mode::OpusCustomMode;

verus! {

/// Longest payload of a frame in bytes.
pub const MAX_PAYLOAD: usize = 1275;

/// Configurations of the packet format, as configurations of a custom decoder.
pub const FROM_OPUS_TABLE: [u8; 16] = [
    0x80, 0x88, 0x90, 0x98, 0x40, 0x48, 0x50, 0x58, 0x20, 0x28, 0x30, 0x38, 0x00, 0x08, 0x10, 0x18,
];

/// A configuration byte of the packet format as one of a custom decoder; the
/// lower half of the values does not stand for this codec.
pub open spec fn custom_byte(value: u8) -> Option<u8> {
    if value < 0x80 {
        None
    } else {
        Some(FROM_OPUS_TABLE@[value as int / 8 - 16] | (value & 0x7))
    }
}

/// Computes [`custom_byte`].
pub fn from_opus(value: u8) -> (r: Option<u8>)
    ensures
        r == custom_byte(value),
{
    if value < 0x80 {
        None
    } else {
        let at: usize = value as usize / 8 - 16;
        Some(FROM_OPUS_TABLE[at] | (value & 0x7))
    }
}

/// The configuration that a packet signals, if it is one of the mode.
pub open spec fn config_byte(mode: OpusCustomMode, packet: Seq<u8>) -> Option<u8> {
    if mode.sample_rate == 48000 && mode.short_mdct_size == 120 {
        custom_byte(packet[0])
    } else {
        Some(packet[0])
    }
}

/// End of the coded bands that a configuration signals.
pub open spec fn config_end(mode: OpusCustomMode, config: u8) -> int {
    let end = mode.effective_ebands - 2 * (config as int / 32);
    if end > 1 {
        end
    } else {
        1
    }
}

/// Channels that a configuration signals.
pub open spec fn config_channels(config: u8) -> int {
    1 + (config as int / 4) % 2
}

/// Block size exponent that a configuration signals.
pub open spec fn config_lm(config: u8) -> int {
    (config as int / 8) % 4
}

/// Reads a padding length from position `at` on: the position behind it, the
/// bytes left for the payload and the length; `None` if the packet ends first.
pub open spec fn padding_read(packet: Seq<u8>, at: int, len: int, padding: int) -> Option<(
    int,
    int,
    int,
)>
    decreases packet.len() - at,
{
    if at < 0 || at >= packet.len() {
        None
    } else {
        let p = packet[at];
        if p == 255 {
            padding_read(packet, at + 1, len - 1 - 254, padding + 254)
        } else {
            Some((at + 1, len - 1 - p, padding + p))
        }
    }
}

/// Start and length of the payload of a packet with a header; `None` if the
/// packet is malformed.
pub open spec fn payload_found(packet: Seq<u8>) -> Option<(int, int)> {
    let n = packet.len() as int;
    if packet[0] % 4 == 3 {
        if n < 2 {
            None
        } else if (packet[1] as int / 64) % 2 == 1 {
            if n < 3 {
                None
            } else {
                match padding_read(packet, 2, n - 2, 0) {
                    None => None,
                    Some((at, len, padding)) => if len <= 0 || padding < 1 {
                        None
                    } else {
                        Some((at, len))
                    },
                }
            }
        } else {
            Some((1, n - 1))
        }
    } else {
        Some((1, n - 1))
    }
}

/// Computes [`payload_found`].
pub fn find_payload(packet: &[u8]) -> (r: Option<(usize, usize)>)
    requires
        1 <= packet@.len() <= 0x7fffffff,
    ensures
        r matches Some((from, len)) ==> {
            &&& payload_found(packet@) == Some((from as int, len as int))
            &&& from + len <= packet@.len()
        },
        r is None ==> payload_found(packet@) is None,
{
    let n: usize = packet.len();
    let p0: u8 = packet[0];
    if p0 % 4 != 3 {
        return Some((1, n - 1));
    }
    if n < 2 {
        return None;
    }
    if (packet[1] / 64) % 2 != 1 {
        return Some((1, n - 1));
    }
    if n < 3 {
        return None;
    }
    let mut at: usize = 2;
    let mut len: i64 = (n - 2) as i64;
    let mut padding: i64 = 0;
    while at < n
        invariant
            n == packet@.len(),
            3 <= n <= 0x7fffffff,
            2 <= at <= n,
            len + padding == n - at,
            0 <= padding <= 254 * at,
            padding_read(packet@, at as int, len as int, padding as int) == padding_read(
                packet@,
                2,
                n - 2,
                0,
            ),
            packet@[0] % 4 == 3,
            (packet@[1] as int / 64) % 2 == 1,
        decreases n - at,
    {
        let p: u8 = packet[at];
        at = at + 1;
        if p == 255 {
            len = len - 1 - 254;
            padding = padding + 254;
        } else {
            len = len - 1 - p as i64;
            padding = padding + p as i64;
            if len <= 0 || padding < 1 {
                return None;
            }
            return Some((at, len as usize));
        }
    }
    None
}

/// What the header of a frame says.
pub struct FrameHeader {
    /// End of the coded bands.
    pub end: usize,
    /// Channels in the stream.
    pub c: usize,
    /// Block size exponent.
    pub lm: usize,
    /// Start of the payload in the packet.
    pub from: usize,
    /// Length of the payload.
    pub len: usize,
}

/// Smallest exponent from `lm` on whose frame has `size` samples.
pub open spec fn lm_of(mode: OpusCustomMode, size: int, lm: int) -> Option<int>
    decreases mode.max_lm + 1 - lm,
{
    if lm > mode.max_lm {
        None
    } else if scale_of(lm) * mode.short_mdct_size == size {
        Some(lm)
    } else {
        lm_of(mode, size, lm + 1)
    }
}

/// Whether packets of this decoder start with a configuration byte.
pub open spec fn signalled(s: DecoderState, packet: Seq<u8>) -> bool {
    s.signalling != 0 && packet.len() > 0
}

/// Whether the arguments can be those of a frame at all.
pub open spec fn arguments_valid(s: DecoderState, frame_size: int) -> bool {
    &&& s.channels != 0
    &&& s.stream_channels != 0
    &&& s.channels <= MAX_CHANNELS
    &&& frame_size != 0
    &&& frame_size * s.downsample <= usize::MAX
}

/// The header of a frame, or the error of a packet that is not one.
pub open spec fn header_found(s: DecoderState, packet: Seq<u8>, frame_size: int) -> Result<
    FrameHeader,
    CeltDecodeError,
> {
    let size = frame_size * s.downsample;
    let longest = scale_of(s.mode.max_lm as int) * s.mode.short_mdct_size;
    if !arguments_valid(s, frame_size) {
        Err(CeltDecodeError::BadArgument)
    } else if signalled(s, packet) {
        match config_byte(s.mode, packet) {
            None => Err(CeltDecodeError::InvalidPacket),
            Some(config) => match payload_found(packet) {
                None => Err(CeltDecodeError::InvalidPacket),
                Some((from, len)) => if config_lm(config) > s.mode.max_lm {
                    Err(CeltDecodeError::InvalidPacket)
                } else if size < scale_of(config_lm(config)) * s.mode.short_mdct_size {
                    Err(CeltDecodeError::BadArgument)
                } else if len > MAX_PAYLOAD {
                    Err(CeltDecodeError::BadArgument)
                } else {
                    Ok(
                        FrameHeader {
                            end: config_end(s.mode, config) as usize,
                            c: config_channels(config) as usize,
                            lm: config_lm(config) as usize,
                            from: from as usize,
                            len: len as usize,
                        },
                    )
                },
            },
        }
    } else if size > longest {
        Err(CeltDecodeError::BadArgument)
    } else {
        match lm_of(s.mode, size, 0) {
            None => Err(CeltDecodeError::BadArgument),
            Some(lm) => if s.stream_channels > MAX_CHANNELS || packet.len() > MAX_PAYLOAD {
                Err(CeltDecodeError::BadArgument)
            } else {
                Ok(
                    FrameHeader {
                        end: s.end_band as usize,
                        c: s.stream_channels,
                        lm: lm as usize,
                        from: 0,
                        len: packet.len() as usize,
                    },
                )
            },
        }
    }
}

/// The state after the header was read: a signalled configuration sets the end
/// band, even if the packet is refused later.
pub open spec fn header_applied(s: DecoderState, packet: Seq<u8>, frame_size: int) -> DecoderState {
    if arguments_valid(s, frame_size) && signalled(s, packet) {
        match config_byte(s.mode, packet) {
            Some(config) => DecoderState { end_band: config_end(s.mode, config) as i32, ..s },
            None => s,
        }
    } else {
        s
    }
}

/// The sizes that header parsing relies on.
pub open spec fn header_ready(s: DecoderState) -> bool {
    &&& s.mode.max_lm <= 3
    &&& s.mode.short_mdct_size <= 0xffff
    &&& 1 <= s.mode.effective_ebands <= 0xffff
    &&& s.downsample > 0
    &&& s.end_band >= 0
}

/// Samples of a frame.
pub fn frame_length(mode: &OpusCustomMode, lm: usize) -> (n: usize)
    requires
        lm <= 3,
        mode.short_mdct_size <= 0xffff,
    ensures
        n == scale_of(lm as int) * mode.short_mdct_size,
        n <= 0x7fff8,
{
    let m: usize = scale(lm as i32);
    assert(m * mode.short_mdct_size <= 8 * 0xffff) by (nonlinear_arith)
        requires
            m <= 8,
            mode.short_mdct_size <= 0xffff,
    ;
    m * mode.short_mdct_size
}

/// Reads the header of a frame.
pub fn read_header(decoder: &mut OpusCustomDecoder<'_>, packet: &[u8], frame_size: usize) -> (r: Result<
    FrameHeader,
    CeltDecodeError,
>)
    requires
        header_ready(old(decoder)@),
        packet@.len() <= 0x7fffffff,
    ensures
        r == header_found(old(decoder)@, packet@, frame_size as int),
        final(decoder)@ == header_applied(old(decoder)@, packet@, frame_size as int),
        final(decoder).mode == old(decoder).mode,
        r matches Ok(h) ==> {
            &&& h.from + h.len <= packet@.len()
            &&& h.len <= MAX_PAYLOAD
            &&& h.lm <= old(decoder).mode.max_lm
            &&& h.end == final(decoder).end_band
        },
{
    let mode: &OpusCustomMode = decoder.mode;
    if decoder.channels == 0 || decoder.stream_channels == 0 || decoder.channels > MAX_CHANNELS
        || frame_size == 0 {
        return Err(CeltDecodeError::BadArgument);
    }
    let size: usize = match frame_size.checked_mul(decoder.downsample as usize) {
        None => {
            return Err(CeltDecodeError::BadArgument);
        },
        Some(size) => size,
    };
    let longest: usize = frame_length(mode, mode.max_lm);
    if decoder.signalling != 0 && packet.len() > 0 {
        let config: u8 = if mode.sample_rate == 48000 && mode.short_mdct_size == 120 {
            match from_opus(packet[0]) {
                None => {
                    return Err(CeltDecodeError::InvalidPacket);
                },
                Some(config) => config,
            }
        } else {
            packet[0]
        };
        let cut: usize = 2 * (config as usize / 32);
        let end: usize = if mode.effective_ebands > cut + 1 { mode.effective_ebands - cut } else { 1 };
        decoder.end_band = end as i32;
        let c: usize = 1 + (config as usize / 4) % 2;
        let lm: usize = (config as usize / 8) % 4;
        match find_payload(packet) {
            None => Err(CeltDecodeError::InvalidPacket),
            Some((from, len)) => {
                if lm > mode.max_lm {
                    return Err(CeltDecodeError::InvalidPacket);
                }
                if size < frame_length(mode, lm) || len > MAX_PAYLOAD {
                    return Err(CeltDecodeError::BadArgument);
                }
                Ok(FrameHeader { end, c, lm, from, len })
            },
        }
    } else {
        if size > longest {
            return Err(CeltDecodeError::BadArgument);
        }
        let mut lm: usize = 0;
        while lm <= mode.max_lm && frame_length(mode, lm) != size
            invariant
                mode.max_lm <= 3,
                mode.short_mdct_size <= 0xffff,
                lm <= mode.max_lm + 1,
                lm_of(*mode, size as int, lm as int) == lm_of(*mode, size as int, 0),
            decreases mode.max_lm + 1 - lm,
        {
            lm = lm + 1;
        }
        if lm > mode.max_lm || decoder.stream_channels > MAX_CHANNELS || packet.len()
            > MAX_PAYLOAD {
            return Err(CeltDecodeError::BadArgument);
        }
        Ok(
            FrameHeader {
                end: decoder.end_band as usize,
                c: decoder.stream_channels,
                lm,
                from: 0,
                len: packet.len(),
            },
        )
    }
}

} // verus!
