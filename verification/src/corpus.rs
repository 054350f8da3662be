//! Files of packets for the codec benchmark, and its bookkeeping.
//!
//! A file is a header of twenty-eight bytes followed by packets, each behind its
//! length. All integers are little endian.

use vstd::prelude::*;
use crate::bench_args::{ApplicationArg, ArgumentError, BitrateMode, EncodeConfig};

verus! {

/// How a file starts.
pub const MAGIC: [u8; 8] = [79, 80, 85, 83, 66, 69, 78, 49];

/// Bytes of the header.
pub const HEADER_SIZE: usize = 28;

/// Bytes that hold the longest packet.
pub const MAX_PACKET_SIZE: usize = 3828;

/// What all packets of a file have in common.
#[derive(Clone, Copy, Debug, PartialEq, Eq, Structural)]
pub struct PacketHeader {
    pub sample_rate: u32,
    pub channels: u16,
    pub frame_size: u16,
    pub application: u32,
    pub bitrate: i32,
    pub complexity: u8,
    pub bitrate_mode: BitrateMode,
}

/// Why a file is refused.
#[derive(Clone, Copy, Debug, PartialEq, Eq, Structural)]
pub enum CorpusError {
    /// The file ends inside its header.
    UnexpectedEnd,
    /// The file starts with something else.
    InvalidMagic,
    /// The bitrate mode has no such number.
    InvalidBitrateMode(u8),
    /// The file ends inside a length.
    TruncatedLength,
    /// The file ends inside a packet.
    TruncatedPacket,
    /// A packet of this length cannot be written.
    PacketTooLarge(usize),
    /// The header holds a rate that no configuration has.
    SampleRateOutOfRange,
    /// The application has no such number.
    InvalidApplication(u32),
}

/// The two bytes behind `at` as a number.
pub open spec fn le16(s: Seq<u8>, at: int) -> u16 {
    (s[at] + 256 * s[at + 1]) as u16
}

/// The four bytes behind `at` as a number.
pub open spec fn le32(s: Seq<u8>, at: int) -> u32 {
    (s[at] + 256 * s[at + 1] + 65536 * s[at + 2] + 16777216 * s[at + 3]) as u32
}

/// The two bytes of a number.
pub open spec fn bytes16(v: u16) -> Seq<u8> {
    seq![(v % 256) as u8, (v / 256) as u8]
}

/// The four bytes of a number.
pub open spec fn bytes32(v: u32) -> Seq<u8> {
    seq![
        (v % 256) as u8,
        (v / 256 % 256) as u8,
        (v / 65536 % 256) as u8,
        (v / 16777216) as u8,
    ]
}

/// Computes [`le16`].
fn get16(s: &[u8], at: usize) -> (v: u16)
    requires
        at + 2 <= s@.len(),
    ensures
        v == le16(s@, at as int),
{
    assert(s@.len() == s.len());
    (s[at] as u16) + 256 * (s[at + 1] as u16)
}

/// Computes [`le32`].
fn get32(s: &[u8], at: usize) -> (v: u32)
    requires
        at + 4 <= s@.len(),
    ensures
        v == le32(s@, at as int),
{
    assert(s@.len() == s.len());
    (s[at] as u32) + 256 * (s[at + 1] as u32) + 65536 * (s[at + 2] as u32) + 16777216 * (s[at
        + 3] as u32)
}

/// Appends [`bytes16`].
fn put16(out: &mut Vec<u8>, v: u16)
    ensures
        final(out)@ == old(out)@ + bytes16(v),
{
    let ghost before = out@;
    out.push((v % 256) as u8);
    out.push((v / 256) as u8);
    assert(out@ =~= before + bytes16(v));
}

/// Appends [`bytes32`].
fn put32(out: &mut Vec<u8>, v: u32)
    ensures
        final(out)@ == old(out)@ + bytes32(v),
{
    let ghost before = out@;
    out.push((v % 256) as u8);
    out.push((v / 256 % 256) as u8);
    out.push((v / 65536 % 256) as u8);
    out.push((v / 16777216) as u8);
    assert(out@ =~= before + bytes32(v));
}

/// Number of a bitrate mode.
pub open spec fn mode_byte(mode: BitrateMode) -> u8 {
    match mode {
        BitrateMode::Vbr => 0,
        BitrateMode::Cvbr => 1,
        BitrateMode::Cbr => 2,
    }
}

/// Bitrate mode of a number.
pub open spec fn mode_of(byte: u8) -> Option<BitrateMode> {
    if byte == 0 {
        Some(BitrateMode::Vbr)
    } else if byte == 1 {
        Some(BitrateMode::Cvbr)
    } else if byte == 2 {
        Some(BitrateMode::Cbr)
    } else {
        None
    }
}

impl PacketHeader {
    /// The bytes of a header; the last two are reserved.
    pub open spec fn bytes(self) -> Seq<u8> {
        MAGIC@ + bytes32(self.sample_rate) + bytes16(self.channels) + bytes16(self.frame_size)
            + bytes32(self.application) + bytes32(self.bitrate as u32) + seq![
            self.complexity,
            mode_byte(self.bitrate_mode),
            0u8,
            0u8,
        ]
    }

    /// The header that a file starts with.
    pub open spec fn found(s: Seq<u8>) -> Result<PacketHeader, CorpusError> {
        if s.len() < 8 {
            Err(CorpusError::UnexpectedEnd)
        } else if s.take(8) != MAGIC@ {
            Err(CorpusError::InvalidMagic)
        } else if s.len() < 26 {
            Err(CorpusError::UnexpectedEnd)
        } else {
            match mode_of(s[25]) {
                None => Err(CorpusError::InvalidBitrateMode(s[25])),
                Some(bitrate_mode) => if s.len() < HEADER_SIZE {
                    Err(CorpusError::UnexpectedEnd)
                } else {
                    Ok(
                        PacketHeader {
                            sample_rate: le32(s, 8),
                            channels: le16(s, 12),
                            frame_size: le16(s, 14),
                            application: le32(s, 16),
                            bitrate: le32(s, 20) as i32,
                            complexity: s[24],
                            bitrate_mode,
                        },
                    )
                },
            }
        }
    }

    /// Appends the bytes of a header.
    pub fn write(self, out: &mut Vec<u8>)
        ensures
            final(out)@ == old(out)@ + self.bytes(),
    {
        let ghost before = out@;
        for i in 0..8
            invariant
                out@ == before + MAGIC@.take(i as int),
        {
            out.push(MAGIC[i]);
            assert(out@ =~= before + MAGIC@.take(i + 1));
        }
        assert(MAGIC@.take(8) =~= MAGIC@);
        put32(out, self.sample_rate);
        put16(out, self.channels);
        put16(out, self.frame_size);
        put32(out, self.application);
        put32(out, self.bitrate as u32);
        out.push(self.complexity);
        out.push(
            match self.bitrate_mode {
                BitrateMode::Vbr => 0,
                BitrateMode::Cvbr => 1,
                BitrateMode::Cbr => 2,
            },
        );
        out.push(0);
        out.push(0);
        assert(out@ =~= before + self.bytes());
    }

    /// Computes [`PacketHeader::found`].
    pub fn read(s: &[u8]) -> (r: Result<PacketHeader, CorpusError>)
        ensures
            r == PacketHeader::found(s@),
    {
        if s.len() < 8 {
            return Err(CorpusError::UnexpectedEnd);
        }
        for i in 0..8
            invariant
                s@.len() >= 8,
                forall|k: int| 0 <= k < i ==> #[trigger] s@[k] == MAGIC@[k],
        {
            if s[i] != MAGIC[i] {
                assert(s@.take(8)[i as int] != MAGIC@[i as int]);
                return Err(CorpusError::InvalidMagic);
            }
        }
        assert(s@.take(8) =~= MAGIC@);
        if s.len() < 26 {
            return Err(CorpusError::UnexpectedEnd);
        }
        let bitrate_mode: BitrateMode = match s[25] {
            0 => BitrateMode::Vbr,
            1 => BitrateMode::Cvbr,
            2 => BitrateMode::Cbr,
            value => {
                return Err(CorpusError::InvalidBitrateMode(value));
            },
        };
        if s.len() < HEADER_SIZE {
            return Err(CorpusError::UnexpectedEnd);
        }
        Ok(
            PacketHeader {
                sample_rate: get32(s, 8),
                channels: get16(s, 12),
                frame_size: get16(s, 14),
                application: get32(s, 16),
                bitrate: get32(s, 20) as i32,
                complexity: s[24],
                bitrate_mode,
            },
        )
    }
}

/// A number is read back from its two bytes.
proof fn lemma_le16(v: u16, s: Seq<u8>, at: int)
    requires
        0 <= at,
        at + 2 <= s.len(),
        s[at] == bytes16(v)[0],
        s[at + 1] == bytes16(v)[1],
    ensures
        le16(s, at) == v,
{
}

/// A number is read back from its four bytes.
proof fn lemma_le32(v: u32, s: Seq<u8>, at: int)
    requires
        0 <= at,
        at + 4 <= s.len(),
        forall|k: int| 0 <= k < 4 ==> #[trigger] s[at + k] == bytes32(v)[k],
    ensures
        le32(s, at) == v,
{
    assert(s[at + 0] == bytes32(v)[0]);
    assert(s[at + 1] == bytes32(v)[1]);
    assert(s[at + 2] == bytes32(v)[2]);
    assert(s[at + 3] == bytes32(v)[3]);
}

/// A header that was written is read back, whatever follows it.
pub proof fn law_headers_are_read_back(h: PacketHeader, rest: Seq<u8>)
    ensures
        h.bytes().len() == HEADER_SIZE,
        PacketHeader::found(h.bytes() + rest) == Ok::<PacketHeader, CorpusError>(h),
{
    let s = h.bytes() + rest;
    assert(s.take(8) =~= MAGIC@);
    assert forall|k: int| 0 <= k < 4 implies #[trigger] s[8 + k] == bytes32(h.sample_rate)[k] by {}
    lemma_le32(h.sample_rate, s, 8);
    lemma_le16(h.channels, s, 12);
    lemma_le16(h.frame_size, s, 14);
    assert forall|k: int| 0 <= k < 4 implies #[trigger] s[16 + k] == bytes32(h.application)[k] by {}
    lemma_le32(h.application, s, 16);
    assert forall|k: int| 0 <= k < 4 implies #[trigger] s[20 + k] == bytes32(
        h.bitrate as u32,
    )[k] by {}
    lemma_le32(h.bitrate as u32, s, 20);
    let b = h.bitrate;
    assert((b as u32) as i32 == b) by (bit_vector);
    assert(s[24] == h.complexity);
    assert(s[25] == mode_byte(h.bitrate_mode));
}

/// Packets of a file.
pub struct PacketCorpus {
    pub header: PacketHeader,
    pub packets: Vec<Vec<u8>>,
}

/// The contents of a list of packets.
pub open spec fn contents(packets: Seq<Vec<u8>>) -> Seq<Seq<u8>> {
    Seq::new(packets.len(), |i: int| packets[i]@)
}

/// The bytes of the packets from `at` on, each behind its length.
pub open spec fn packets_bytes(packets: Seq<Seq<u8>>, at: int) -> Seq<u8>
    decreases packets.len() - at,
{
    if at < 0 || at >= packets.len() {
        Seq::empty()
    } else {
        bytes16(packets[at].len() as u16) + packets[at] + packets_bytes(packets, at + 1)
    }
}

/// The first packet from `at` on that is too long for its length to be written.
pub open spec fn too_large(packets: Seq<Seq<u8>>, at: int) -> Option<int>
    decreases packets.len() - at,
{
    if at < 0 || at >= packets.len() {
        None
    } else if packets[at].len() > 0xffff {
        Some(at)
    } else {
        too_large(packets, at + 1)
    }
}

/// The packets in the bytes behind `at`.
pub open spec fn packets_found(s: Seq<u8>, at: int) -> Result<Seq<Seq<u8>>, CorpusError>
    decreases s.len() - at,
{
    if at < 0 || at >= s.len() {
        Ok(Seq::empty())
    } else if at + 2 > s.len() {
        Err(CorpusError::TruncatedLength)
    } else {
        let end = at + 2 + le16(s, at);
        if end > s.len() {
            Err(CorpusError::TruncatedPacket)
        } else {
            match packets_found(s, end) {
                Ok(rest) => Ok(seq![s.subrange(at + 2, end)] + rest),
                Err(e) => Err(e),
            }
        }
    }
}

/// Appends all bytes of a slice from `from` to `to`.
fn copy_bytes(s: &[u8], from: usize, to: usize) -> (r: Vec<u8>)
    requires
        from <= to <= s@.len(),
    ensures
        r@ == s@.subrange(from as int, to as int),
{
    let mut r: Vec<u8> = Vec::new();
    for i in from..to
        invariant
            from <= to <= s@.len(),
            r@.len() == i - from,
            forall|k: int| 0 <= k < i - from ==> #[trigger] r@[k] == s@[from + k],
    {
        r.push(s[i]);
    }
    assert(r@ =~= s@.subrange(from as int, to as int));
    r
}

/// Reads the packets behind the header.
fn read_packets(s: &[u8]) -> (r: Result<Vec<Vec<u8>>, CorpusError>)
    requires
        s@.len() >= HEADER_SIZE,
    ensures
        match packets_found(s@, HEADER_SIZE as int) {
            Ok(packets) => r matches Ok(v) && contents(v@) == packets,
            Err(e) => r == Err::<Vec<Vec<u8>>, CorpusError>(e),
        },
{
    let len: usize = s.len();
    let ghost all = packets_found(s@, HEADER_SIZE as int);
    let mut packets: Vec<Vec<u8>> = Vec::new();
    let mut at: usize = HEADER_SIZE;
    assert(contents(packets@) =~= Seq::<Seq<u8>>::empty());
    proof {
        if let Ok(rest) = packets_found(s@, at as int) {
            assert(contents(packets@) + rest =~= rest);
        }
    }
    while at < len
        invariant
            at <= len,
            len == s@.len(),
            all == packets_found(s@, HEADER_SIZE as int),
            match packets_found(s@, at as int) {
                Ok(rest) => all == Ok::<Seq<Seq<u8>>, CorpusError>(contents(packets@) + rest),
                Err(e) => all == Err::<Seq<Seq<u8>>, CorpusError>(e),
            },
        decreases len - at,
    {
        if len - at < 2 {
            return Err(CorpusError::TruncatedLength);
        }
        let size: usize = get16(s, at) as usize;
        if len - (at + 2) < size {
            return Err(CorpusError::TruncatedPacket);
        }
        let end: usize = at + 2 + size;
        let packet: Vec<u8> = copy_bytes(s, at + 2, end);
        let ghost before = packets@;
        packets.push(packet);
        proof {
            assert(contents(packets@) =~= contents(before).push(packet@));
            if let Ok(rest) = packets_found(s@, end as int) {
                assert(contents(before) + (seq![packet@] + rest) =~= contents(packets@) + rest);
            }
        }
        at = end;
    }
    proof {
        assert(contents(packets@) + Seq::<Seq<u8>>::empty() =~= contents(packets@));
    }
    Ok(packets)
}

impl PacketCorpus {
    /// The bytes of a file.
    pub open spec fn bytes(self) -> Seq<u8> {
        self.header.bytes() + packets_bytes(contents(self.packets@), 0)
    }

    /// Reads a file.
    pub fn read(s: &[u8]) -> (r: Result<PacketCorpus, CorpusError>)
        ensures
            match PacketHeader::found(s@) {
                Err(e) => r == Err::<PacketCorpus, CorpusError>(e),
                Ok(header) => match packets_found(s@, HEADER_SIZE as int) {
                    Err(e) => r == Err::<PacketCorpus, CorpusError>(e),
                    Ok(packets) => r matches Ok(c) && c.header == header && contents(c.packets@)
                        == packets,
                },
            },
    {
        let header: PacketHeader = match PacketHeader::read(s) {
            Ok(h) => h,
            Err(e) => {
                return Err(e);
            },
        };
        match read_packets(s) {
            Ok(packets) => Ok(PacketCorpus { header, packets }),
            Err(e) => Err(e),
        }
    }

    /// Writes a file; a packet can be too long for its length.
    pub fn write(&self) -> (r: Result<Vec<u8>, CorpusError>)
        ensures
            match too_large(contents(self.packets@), 0) {
                Some(i) => 0 <= i < self.packets@.len() && r == Err::<Vec<u8>, CorpusError>(
                    CorpusError::PacketTooLarge(self.packets@[i].len()),
                ),
                None => r matches Ok(v) && v@ == self.bytes(),
            },
    {
        let ghost all = contents(self.packets@);
        let mut out: Vec<u8> = Vec::new();
        self.header.write(&mut out);
        let n: usize = self.packets.len();
        assert(out@ =~= self.header.bytes());
        for i in 0..n
            invariant
                n == self.packets@.len(),
                all == contents(self.packets@),
                too_large(all, i as int) == too_large(all, 0),
                out@ + packets_bytes(all, i as int) == self.header.bytes() + packets_bytes(all, 0),
        {
            let packet: &Vec<u8> = &self.packets[i];
            let size: usize = packet.len();
            assert(all[i as int] == packet@);
            if size > 0xffff {
                return Err(CorpusError::PacketTooLarge(size));
            }
            let ghost before = out@;
            put16(&mut out, size as u16);
            for k in 0..size
                invariant
                    size == packet@.len(),
                    out@ == before + bytes16(size as u16) + packet@.take(k as int),
            {
                out.push(packet[k]);
                assert(out@ =~= before + bytes16(size as u16) + packet@.take(k + 1));
            }
            proof {
                assert(packet@.take(size as int) =~= packet@);
                assert(out@ + packets_bytes(all, i + 1) =~= before + packets_bytes(all, i as int));
            }
        }
        assert(out@ + packets_bytes(all, n as int) =~= out@);
        Ok(out)
    }
}

/// The packets that were written behind `front` are found behind it.
proof fn lemma_packets(front: Seq<u8>, packets: Seq<Seq<u8>>, at: int)
    requires
        0 <= at <= packets.len(),
        too_large(packets, at) is None,
    ensures
        packets_found(front + packets_bytes(packets, at), front.len() as int) == Ok::<
            Seq<Seq<u8>>,
            CorpusError,
        >(packets.skip(at)),
    decreases packets.len() - at,
{
    let s = front + packets_bytes(packets, at);
    if at == packets.len() {
        assert(packets.skip(at) =~= Seq::<Seq<u8>>::empty());
    } else {
        let p = packets[at];
        let head = bytes16(p.len() as u16) + p;
        let next = front + head;
        assert(s =~= next + packets_bytes(packets, at + 1));
        lemma_le16(p.len() as u16, s, front.len() as int);
        lemma_packets(next, packets, at + 1);
        let end = front.len() as int + 2 + p.len();
        assert(s.subrange(front.len() as int + 2, end) =~= p);
        assert(seq![p] + packets.skip(at + 1) =~= packets.skip(at));
    }
}

/// A file that was written is read back.
pub proof fn law_files_are_read_back(c: PacketCorpus)
    requires
        too_large(contents(c.packets@), 0) is None,
    ensures
        PacketHeader::found(c.bytes()) == Ok::<PacketHeader, CorpusError>(c.header),
        packets_found(c.bytes(), HEADER_SIZE as int) == Ok::<Seq<Seq<u8>>, CorpusError>(
            contents(c.packets@),
        ),
{
    let packets = contents(c.packets@);
    law_headers_are_read_back(c.header, packets_bytes(packets, 0));
    lemma_packets(c.header.bytes(), packets, 0);
    assert(packets.skip(0) =~= packets);
}

/// The header for a configuration.
pub open spec fn header_of(config: EncodeConfig) -> Result<PacketHeader, ArgumentError> {
    if config.sample_rate < 0 {
        Err(ArgumentError::SampleRateOutOfRange)
    } else if !(0 <= config.channels <= 0xffff) {
        Err(ArgumentError::ChannelsOutOfRange)
    } else if config.frame_size > 0xffff {
        Err(ArgumentError::FrameSizeOutOfRange)
    } else if !(0 <= config.complexity <= 0xff) {
        Err(ArgumentError::ComplexityOutOfRange)
    } else {
        Ok(
            PacketHeader {
                sample_rate: config.sample_rate as u32,
                channels: config.channels as u16,
                frame_size: config.frame_size as u16,
                application: config.application.code() as u32,
                bitrate: config.bitrate,
                complexity: config.complexity as u8,
                bitrate_mode: config.bitrate_mode,
            },
        )
    }
}

/// The configuration that a header stands for.
pub open spec fn config_of(h: PacketHeader) -> Result<EncodeConfig, CorpusError> {
    if h.sample_rate > 0x7fffffff {
        Err(CorpusError::SampleRateOutOfRange)
    } else if h.application != 2048 && h.application != 2049 && h.application != 2051 {
        Err(CorpusError::InvalidApplication(h.application))
    } else {
        Ok(
            EncodeConfig {
                sample_rate: h.sample_rate as i32,
                channels: h.channels as i32,
                frame_size: h.frame_size as usize,
                application: if h.application == 2048 {
                    ApplicationArg::Voip
                } else if h.application == 2049 {
                    ApplicationArg::Audio
                } else {
                    ApplicationArg::RestrictedLowDelay
                },
                bitrate: h.bitrate,
                complexity: h.complexity as i32,
                bitrate_mode: h.bitrate_mode,
            },
        )
    }
}

/// Computes [`header_of`].
pub fn corpus_header(config: EncodeConfig) -> (r: Result<PacketHeader, ArgumentError>)
    ensures
        r == header_of(config),
{
    if config.sample_rate < 0 {
        return Err(ArgumentError::SampleRateOutOfRange);
    }
    if config.channels < 0 || config.channels > 0xffff {
        return Err(ArgumentError::ChannelsOutOfRange);
    }
    if config.frame_size > 0xffff {
        return Err(ArgumentError::FrameSizeOutOfRange);
    }
    if config.complexity < 0 || config.complexity > 0xff {
        return Err(ArgumentError::ComplexityOutOfRange);
    }
    Ok(
        PacketHeader {
            sample_rate: config.sample_rate as u32,
            channels: config.channels as u16,
            frame_size: config.frame_size as u16,
            application: config.application.to_opus_int() as u32,
            bitrate: config.bitrate,
            complexity: config.complexity as u8,
            bitrate_mode: config.bitrate_mode,
        },
    )
}

/// Computes [`config_of`].
pub fn header_config(h: PacketHeader) -> (r: Result<EncodeConfig, CorpusError>)
    ensures
        r == config_of(h),
{
    if h.sample_rate > 0x7fffffff {
        return Err(CorpusError::SampleRateOutOfRange);
    }
    let application: ApplicationArg = match h.application {
        2048 => ApplicationArg::Voip,
        2049 => ApplicationArg::Audio,
        2051 => ApplicationArg::RestrictedLowDelay,
        value => {
            return Err(CorpusError::InvalidApplication(value));
        },
    };
    Ok(
        EncodeConfig {
            sample_rate: h.sample_rate as i32,
            channels: h.channels as i32,
            frame_size: h.frame_size as usize,
            application,
            bitrate: h.bitrate,
            complexity: h.complexity as i32,
            bitrate_mode: h.bitrate_mode,
        },
    )
}

/// A configuration that fits a header is found again in it.
pub proof fn law_configurations_survive_headers(config: EncodeConfig)
    ensures
        header_of(config) matches Ok(h) ==> config_of(h) == Ok::<EncodeConfig, CorpusError>(config),
{
}

/// A request to an encoder.
#[derive(Clone, Copy, Debug, PartialEq, Eq, Structural)]
pub enum EncoderRequest {
    SetBitrate(i32),
    SetComplexity(i32),
    SetVbr(bool),
    SetVbrConstraint(bool),
}

/// The requests that set up an encoder, in order.
pub fn encoder_requests(config: EncodeConfig) -> (r: Vec<EncoderRequest>)
    ensures
        r@ == seq![
            EncoderRequest::SetBitrate(config.bitrate),
            EncoderRequest::SetComplexity(config.complexity),
            EncoderRequest::SetVbr(config.bitrate_mode != BitrateMode::Cbr),
            EncoderRequest::SetVbrConstraint(config.bitrate_mode != BitrateMode::Vbr),
        ],
{
    let mut r: Vec<EncoderRequest> = Vec::new();
    r.push(EncoderRequest::SetBitrate(config.bitrate));
    r.push(EncoderRequest::SetComplexity(config.complexity));
    r.push(EncoderRequest::SetVbr(config.bitrate_mode != BitrateMode::Cbr));
    r.push(EncoderRequest::SetVbrConstraint(config.bitrate_mode != BitrateMode::Vbr));
    assert(r@ =~= seq![
        EncoderRequest::SetBitrate(config.bitrate),
        EncoderRequest::SetComplexity(config.complexity),
        EncoderRequest::SetVbr(config.bitrate_mode != BitrateMode::Cbr),
        EncoderRequest::SetVbrConstraint(config.bitrate_mode != BitrateMode::Vbr),
    ]);
    r
}

/// The sixteen-bit samples of a recording, where its bytes come in pairs.
pub fn pcm_samples(s: &[u8]) -> (r: Option<Vec<i16>>)
    ensures
        if s@.len() % 2 == 0 {
            r matches Some(v) && v@ == Seq::new(
                s@.len() / 2,
                |i: int| le16(s@, 2 * i) as i16,
            )
        } else {
            r is None
        },
{
    if s.len() % 2 != 0 {
        return None;
    }
    let n: usize = s.len() / 2;
    let mut v: Vec<i16> = Vec::new();
    for i in 0..n
        invariant
            s@.len() == 2 * n,
            s@.len() <= usize::MAX,
            v@.len() == i,
            forall|k: int| 0 <= k < i ==> #[trigger] v@[k] == le16(s@, 2 * k) as i16,
    {
        v.push(get16(s, 2 * i) as i16);
    }
    assert(v@ =~= Seq::new(s@.len() / 2, |i: int| le16(s@, 2 * i) as i16));
    Some(v)
}

/// The thirty-two-bit words of a file, where its bytes come in fours.
pub fn words32(s: &[u8]) -> (r: Option<Vec<u32>>)
    ensures
        if s@.len() % 4 == 0 {
            r matches Some(v) && v@ == Seq::new(s@.len() / 4, |i: int| le32(s@, 4 * i))
        } else {
            r is None
        },
{
    if s.len() % 4 != 0 {
        return None;
    }
    let n: usize = s.len() / 4;
    let mut v: Vec<u32> = Vec::new();
    for i in 0..n
        invariant
            s@.len() == 4 * n,
            s@.len() <= usize::MAX,
            v@.len() == i,
            forall|k: int| 0 <= k < i ==> #[trigger] v@[k] == le32(s@, 4 * k),
    {
        v.push(get32(s, 4 * i));
    }
    assert(v@ =~= Seq::new(s@.len() / 4, |i: int| le32(s@, 4 * i)));
    Some(v)
}

/// Whether measurements are in order.
pub open spec fn ordered(v: Seq<u128>) -> bool {
    forall|i: int, j: int| 0 <= i <= j < v.len() ==> v[i] <= v[j]
}

/// Sorts measurements.
pub fn sort_measurements(v: &mut Vec<u128>)
    ensures
        ordered(final(v)@),
        final(v)@.to_multiset() == old(v)@.to_multiset(),
        final(v)@.len() == old(v)@.len(),
{
    let n: usize = v.len();
    let ghost v0 = v@;
    for i in 0..n
        invariant
            n == v@.len(),
            n == v0.len(),
            v@.to_multiset() == v0.to_multiset(),
            forall|a: int, b: int| 0 <= a <= b < i ==> v@[a] <= v@[b],
    {
        let mut j: usize = i;
        while j > 0 && v[j - 1] > v[j]
            invariant
                n == v@.len(),
                n == v0.len(),
                j <= i < n,
                v@.to_multiset() == v0.to_multiset(),
                forall|a: int, b: int| 0 <= a <= b <= i && a != j && b != j ==> v@[a] <= v@[b],
                forall|b: int| j <= b <= i ==> v@[j as int] <= v@[b],
            decreases j,
        {
            let ghost before = v@;
            let x: u128 = v[j - 1];
            let y: u128 = v[j];
            v.set(j - 1, y);
            v.set(j, x);
            proof {
                vstd::seq_lib::to_multiset_update(before, j - 1, y);
                let mid = before.update(j - 1, y);
                vstd::seq_lib::to_multiset_update(mid, j as int, x);
                assert(v@ =~= mid.update(j as int, x));
                vstd::seq_lib::to_multiset_contains(before, x);
                assert(before.contains(x));
                broadcast use {
                    vstd::multiset::group_multiset_axioms,
                    vstd::multiset::group_multiset_properties,
                };

                assert(v@.to_multiset() =~= before.to_multiset());
            }
            j = j - 1;
        }
    }
}

/// The measurement below which `percent` of the others lie, rounded down.
pub open spec fn percentile_of(values: Seq<u128>, percent: int) -> u128 {
    values[(values.len() - 1) * percent / 100]
}

/// The measurement below which a percentage of the others lies.
pub fn percentile(values: &Vec<u128>, percent: usize) -> (v: u128)
    requires
        values@.len() >= 1,
        percent <= 100,
        (values@.len() - 1) * percent <= usize::MAX,
    ensures
        v == percentile_of(values@, percent as int),
{
    proof {
        let last = values@.len() - 1;
        assert(0 <= last * percent && last * percent / 100 <= last) by (nonlinear_arith)
            requires
                0 <= last,
                percent <= 100,
        ;
    }
    values[(values.len() - 1) * percent / 100]
}

} // verus!
