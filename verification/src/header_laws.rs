//! What the first bytes of a packet mean.

use vstd::prelude::*;
use crate::band_tf::scale_of;
use crate::decoder::{CeltDecodeError, DecoderState};
use crate::header::{
    arguments_valid, custom_byte, header_applied, header_found, lm_of, padding_read, payload_found,
    signalled, FROM_OPUS_TABLE,
};

verus! {

/// The bits of a configuration byte of the packet format.
proof fn lemma_custom_byte(value: u8)
    ensures
        value < 0x80 ==> custom_byte(value) is None,
        value >= 0x80 ==> {
            let config = custom_byte(value)->Some_0;
            &&& custom_byte(value) is Some
            &&& config as int / 32 == (if value < 0xa0 {
                4int
            } else if value < 0xc0 {
                2
            } else if value < 0xe0 {
                1
            } else {
                0
            })
            &&& (config as int / 8) % 4 == (value as int / 8) % 4
            &&& (config as int / 4) % 2 == (value as int / 4) % 2
        },
{
    if value >= 0x80 {
        let i = value as int / 8 - 16;
        let t = FROM_OPUS_TABLE@[i];
        let low = value & 0x7;
        assert(low == value % 8) by (bit_vector)
            requires
                low == value & 0x7,
        ;
        assert(t % 8 == 0);
        assert((t | low) == t + low) by (bit_vector)
            requires
                t % 8 == 0,
                low < 8,
        ;
        assert((t as int / 8) % 4 == i % 4);
    }
}

/// In a 48 kHz mode with short blocks of 120 samples the first byte of a packet
/// tells its bandwidth: narrowband leaves out eight of the bands of the mode,
/// wideband four, super-wideband two and fullband none. Bytes of the lower half
/// are refused. The decoder goes on with the end band that the packet signals.
pub proof fn law_first_byte_tells_the_bandwidth(s: DecoderState, packet: Seq<u8>, frame_size: int)
    requires
        arguments_valid(s, frame_size),
        signalled(s, packet),
        s.mode.sample_rate == 48000,
        s.mode.short_mdct_size == 120,
        9 < s.mode.effective_ebands <= 25,
    ensures
        packet[0] < 0x80 ==> header_found(s, packet, frame_size) == Err::<
            crate::header::FrameHeader,
            CeltDecodeError,
        >(CeltDecodeError::InvalidPacket) && header_applied(s, packet, frame_size) == s,
        packet[0] >= 0x80 ==> {
            let t = header_applied(s, packet, frame_size);
            let missing = s.mode.effective_ebands - t.end_band;
            &&& t == (DecoderState { end_band: t.end_band, ..s })
            &&& 0x80 <= packet[0] <= 0x9f ==> missing == 8
            &&& 0xa0 <= packet[0] <= 0xbf ==> missing == 4
            &&& 0xc0 <= packet[0] <= 0xdf ==> missing == 2
            &&& 0xe0 <= packet[0] ==> missing == 0
            &&& header_found(s, packet, frame_size) matches Ok(h) ==> h.end == t.end_band
        },
{
    lemma_custom_byte(packet[0]);
}

/// In other modes the upper three bits of the first byte tell how many pairs of
/// bands are missing at the top; at least one band is left.
pub proof fn law_custom_byte_tells_the_bandwidth(s: DecoderState, packet: Seq<u8>, frame_size: int)
    requires
        arguments_valid(s, frame_size),
        signalled(s, packet),
        s.mode.sample_rate != 48000 || s.mode.short_mdct_size != 120,
        1 <= s.mode.effective_ebands <= 25,
    ensures
        ({
            let t = header_applied(s, packet, frame_size);
            let missing = s.mode.effective_ebands - t.end_band;
            &&& t == (DecoderState { end_band: t.end_band, ..s })
            &&& 1 <= t.end_band <= s.mode.effective_ebands
            &&& t.end_band > 1 ==> missing % 2 == 0 && 16 * missing <= packet[0] < 16 * missing + 32
            &&& t.end_band == 1 ==> packet[0] >= 16 * missing - 16
            &&& header_found(s, packet, frame_size) matches Ok(h) ==> h.end == t.end_band
        }),
{
}

/// Three more bits of the first byte tell the channels and the frame: `0x04` is
/// set for two channels, and each step of `0x08` doubles the samples of a frame,
/// from one short block to eight. A frame that is announced fits the frame that
/// was asked for.
pub proof fn law_first_byte_tells_the_frame(s: DecoderState, packet: Seq<u8>, frame_size: int)
    requires
        signalled(s, packet),
    ensures
        header_found(s, packet, frame_size) matches Ok(h) ==> {
            &&& h.c == (if packet[0] % 8 < 4 { 1int } else { 2 })
            &&& h.lm <= s.mode.max_lm
            &&& h.lm == 0 <==> packet[0] % 32 < 8
            &&& h.lm == 1 <==> 8 <= packet[0] % 32 < 16
            &&& h.lm == 2 <==> 16 <= packet[0] % 32 < 24
            &&& h.lm == 3 <==> 24 <= packet[0] % 32
            &&& scale_of(h.lm as int) * s.mode.short_mdct_size <= frame_size * s.downsample
        },
{
    lemma_custom_byte(packet[0]);
    if let Ok(h) = header_found(s, packet, frame_size) {
        let v = packet[0] as int;
        assert((v / 4) % 2 == 0 <==> v % 8 < 4);
        assert((v / 8) % 4 == (v % 32) / 8);
    }
}

/// Frames of twice the exponent step have twice the samples.
pub proof fn law_frames_double(lm: int)
    requires
        0 <= lm <= 2,
    ensures
        scale_of(0) == 1,
        scale_of(lm + 1) == 2 * scale_of(lm),
{
}

/// Without a configuration byte the settings of the decoder hold, the whole packet
/// is payload, and the frame is the one that was asked for.
pub proof fn law_settings_stand_for_a_header(s: DecoderState, packet: Seq<u8>, frame_size: int)
    requires
        !signalled(s, packet),
        s.end_band >= 0,
        s.mode.max_lm <= 3,
    ensures
        header_applied(s, packet, frame_size) == s,
        header_found(s, packet, frame_size) matches Ok(h) ==> {
            &&& h.end == s.end_band
            &&& h.c == s.stream_channels
            &&& h.from == 0
            &&& h.len == packet.len()
            &&& h.lm <= s.mode.max_lm
            &&& scale_of(h.lm as int) * s.mode.short_mdct_size == frame_size * s.downsample
        },
{
    lemma_lm(s, frame_size * s.downsample, 0);
}

/// The exponent that is found has the size that was looked for.
proof fn lemma_lm(s: DecoderState, size: int, lm: int)
    requires
        0 <= lm,
    ensures
        lm_of(s.mode, size, lm) matches Some(found) ==> {
            &&& lm <= found <= s.mode.max_lm
            &&& scale_of(found) * s.mode.short_mdct_size == size
        },
    decreases s.mode.max_lm + 1 - lm,
{
    if lm <= s.mode.max_lm && scale_of(lm) * s.mode.short_mdct_size != size {
        lemma_lm(s, size, lm + 1);
    }
}

/// A padding length of `k` bytes of 255 and one other byte.
proof fn lemma_padding(packet: Seq<u8>, at: int, len: int, padding: int, k: int)
    requires
        0 <= k,
        0 <= at,
        at + k < packet.len(),
        forall|i: int| at <= i < at + k ==> packet[i] == 255,
        packet[at + k] != 255,
    ensures
        padding_read(packet, at, len, padding) == Some(
            (at + k + 1, len - k - 1 - 254 * k - packet[at + k], padding + 254 * k + packet[at + k]),
        ),
    decreases k,
{
    if k > 0 {
        lemma_padding(packet, at + 1, len - 255, padding + 254, k - 1);
    }
}

/// A packet with one frame holds its payload behind the first byte, up to its end.
pub proof fn law_payload_without_padding(packet: Seq<u8>)
    requires
        packet.len() >= 1,
        packet[0] % 4 != 3 || (packet.len() >= 2 && (packet[1] as int / 64) % 2 == 0),
    ensures
        payload_found(packet) == Some((1int, packet.len() - 1)),
{
}

/// A padded packet gives the length of its padding behind the second byte, in `k`
/// bytes that stand for 254 and one that stands for itself. The padding is what is
/// left out at the end of the packet; the payload is the rest.
pub proof fn law_padding_is_left_out(packet: Seq<u8>, k: int)
    requires
        0 <= k,
        packet.len() >= 3 + k,
        packet[0] % 4 == 3,
        (packet[1] as int / 64) % 2 == 1,
        forall|i: int| 2 <= i < 2 + k ==> packet[i] == 255,
        packet[2 + k] != 255,
    ensures
        ({
            let padding = 254 * k + packet[2 + k];
            let from = 3 + k;
            &&& payload_found(packet) is Some <==> padding >= 1 && from + padding < packet.len()
            &&& payload_found(packet) matches Some((at, len)) ==> at == from && at + len + padding
                == packet.len()
        }),
{
    lemma_padding(packet, 2, packet.len() - 2, 0, k);
}

/// The payload that a header announces is the one of the packet.
pub proof fn law_header_names_the_payload(s: DecoderState, packet: Seq<u8>, frame_size: int)
    requires
        signalled(s, packet),
        packet.len() <= 0x7fffffff,
    ensures
        header_found(s, packet, frame_size) matches Ok(h) ==> payload_found(packet) matches Some(
            (at, len),
        ) && h.from == at as usize && h.len == len as usize && h.len <= 1275,
{
}

} // verus!
