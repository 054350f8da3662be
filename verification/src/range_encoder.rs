//! Range encoder: the counterpart of the range decoder, writing range-coded
//! symbols from the front of a packet and raw bits from its back.

use vstd::arithmetic::power2::pow2;
use vstd::prelude::*;
use crate::math::{bit_length, ec_ilog, lemma_bit_length};
use crate::range_decoder::{
    range_eighths, range_log_eighths, CODE_BOTTOM, CODE_TOP, MAX_RAW_BITS,
};

verus! {

/// Mathematical state of a range encoder.
pub struct EncState {
    /// The packet being written.
    pub buf: Seq<u8>,
    /// Bytes written at the front.
    pub offs: int,
    /// Bytes written at the back.
    pub end_offs: int,
    /// Raw bits not yet written.
    pub end_window: u32,
    /// Number of bits in `end_window`.
    pub nend_bits: u32,
    /// Bits accounted for so far, including those of the current range.
    pub nbits_total: i32,
    /// Size of the current range.
    pub rng: u32,
    /// Low end of the current range.
    pub val: u32,
    /// Buffered byte that a carry may still change.
    pub rem: Option<u8>,
    /// Number of buffered bytes equal to 255 that a carry would clear.
    pub ext: u64,
    /// Whether the packet overflowed.
    pub error: bool,
}

impl EncState {
    /// The state before the first symbol.
    pub open spec fn started(size: nat) -> Self {
        EncState {
            buf: Seq::new(size, |i: int| 0u8),
            offs: 0,
            end_offs: 0,
            end_window: 0,
            nend_bits: 0,
            nbits_total: 33,
            rng: CODE_TOP,
            val: 0,
            rem: None,
            ext: 0,
            error: false,
        }
    }

    /// What every operation keeps.
    pub open spec fn wf(self) -> bool {
        &&& CODE_BOTTOM < self.rng <= CODE_TOP
        &&& self.val + self.rng <= 0x1_0000_0000
        &&& self.in_bounds()
    }

    /// The part of [`EncState::wf`] that does not speak of the range.
    pub open spec fn in_bounds(self) -> bool {
        &&& 0 <= self.offs
        &&& 0 <= self.end_offs
        &&& self.offs + self.end_offs <= self.buf.len()
        &&& self.nend_bits <= 32
    }

    /// One byte appended at the front, or the overflow flag.
    pub open spec fn put_front(self, byte: u8) -> Self {
        if self.offs + self.end_offs >= self.buf.len() {
            EncState { error: true, ..self }
        } else {
            EncState { buf: self.buf.update(self.offs, byte), offs: self.offs + 1, ..self }
        }
    }

    /// One byte prepended at the back, or the overflow flag.
    pub open spec fn put_back(self, byte: u8) -> Self {
        if self.offs + self.end_offs >= self.buf.len() {
            EncState { error: true, ..self }
        } else {
            EncState {
                buf: self.buf.update(self.buf.len() - 1 - self.end_offs, byte),
                end_offs: self.end_offs + 1,
                ..self
            }
        }
    }

    /// All buffered carry-sensitive bytes written as `byte`.
    pub open spec fn put_run(self, byte: u8) -> Self
        decreases self.ext,
    {
        if self.ext == 0 {
            self
        } else {
            EncState { ext: (self.ext - 1) as u64, ..self.put_front(byte) }.put_run(byte)
        }
    }

    /// Emits the symbol `c`, a byte with a possible carry in its ninth bit.
    pub open spec fn carried(self, c: u32) -> Self {
        if c == 255 {
            EncState { ext: self.ext.wrapping_add(1), ..self }
        } else {
            let carry = c / 256;
            let flushed = match self.rem {
                Some(r) => self.put_front((r + carry) as u8),
                None => self,
            };
            EncState { rem: Some((c % 256) as u8), ..flushed.put_run(((255 + carry) % 256) as u8) }
        }
    }

    /// How far the range is below the renormalisation threshold.
    pub open spec fn headroom(self) -> int {
        if self.rng > CODE_BOTTOM {
            0
        } else {
            CODE_BOTTOM + 1 - self.rng
        }
    }

    /// One renormalisation step: the top byte of the low end leaves.
    pub open spec fn shift_out(self) -> Self {
        EncState {
            val: (self.val % CODE_BOTTOM * 256) as u32,
            rng: (self.rng * 256) as u32,
            nbits_total: self.nbits_total.wrapping_add(8),
            ..self.carried(self.val / CODE_BOTTOM)
        }
    }

    /// Bytes shifted out until the range exceeds the threshold.
    pub open spec fn renormalised(self) -> Self
        decreases self.headroom(),
    {
        if self.rng == 0 || self.rng > CODE_BOTTOM {
            self
        } else {
            self.shift_out().renormalised()
        }
    }

    /// The symbol occupying `[fl, fh)` out of `ft` appended.
    pub open spec fn coded(self, fl: int, fh: int, ft: int) -> Self {
        let r = self.rng as int / ft;
        if fl > 0 {
            EncState {
                val: (self.val + self.rng - r * (ft - fl)) as u32,
                rng: (r * (fh - fl)) as u32,
                ..self
            }.renormalised()
        } else {
            EncState { rng: (self.rng - r * (ft - fh)) as u32, ..self }.renormalised()
        }
    }

    /// A binary symbol appended whose probability of being one is
    /// `1 / 2^logp`.
    pub open spec fn bit_coded(self, bit: bool, logp: u32) -> Self {
        let s = self.rng as int / pow2(logp as nat) as int;
        if bit {
            EncState { val: (self.val + self.rng - s) as u32, rng: s as u32, ..self }.renormalised()
        } else {
            EncState { rng: (self.rng - s) as u32, ..self }.renormalised()
        }
    }

    /// Whole bytes of the raw-bit window written out.
    pub open spec fn window_flushed(self) -> Self
        decreases self.nend_bits,
    {
        if self.nend_bits < 8 {
            self
        } else {
            EncState {
                end_window: self.end_window >> 8u32,
                nend_bits: (self.nend_bits - 8) as u32,
                ..self.put_back((self.end_window & 255) as u8)
            }.window_flushed()
        }
    }

    /// `bits` raw bits appended at the back.
    pub open spec fn raw_coded(self, value: u32, bits: u32) -> Self {
        let e = if self.nend_bits + bits > 32 { self.window_flushed() } else { self };
        EncState {
            end_window: e.end_window | (value << e.nend_bits),
            nend_bits: (e.nend_bits + bits) as u32,
            nbits_total: e.nbits_total.wrapping_add(bits as i32),
            ..e
        }
    }

    /// An integer below `ft` appended.
    pub open spec fn uint_coded(self, value: u32, ft: u32) -> Self {
        let ftb = bit_length((ft - 1) as nat);
        if ftb > 8 {
            let low = (ftb - 8) as u32;
            let p = pow2(low as nat) as int;
            let head = value as int / p;
            self.coded(head, head + 1, (ft - 1) / p + 1).raw_coded((value as int % p) as u32, low)
        } else {
            self.coded(value as int, value + 1, ft as int)
        }
    }

    /// The top `l` bits of `end` written out.
    pub open spec fn tail_carried(self, end: u32, l: int) -> Self
        decreases (if l <= 0 { 0 } else { l }),
    {
        if l <= 0 {
            self
        } else {
            self.carried(end / CODE_BOTTOM).tail_carried((end % CODE_BOTTOM * 256) as u32, l - 8)
        }
    }

    /// Number of bits of the low end that identify the final range, and the low
    /// end rounded up to that precision.
    pub open spec fn final_bits(self) -> (int, u32) {
        let l = 32 - bit_length(self.rng as nat);
        let mask = 0x7fff_ffffu32 >> (l as u32);
        let end = self.val.wrapping_add(mask) & !mask;
        if (end | mask) >= self.val.wrapping_add(self.rng) {
            let finer = mask >> 1u32;
            (l + 1, self.val.wrapping_add(finer) & !finer)
        } else {
            (l, end)
        }
    }

    /// The unused middle of the packet cleared and the last raw bits merged in.
    pub open spec fn sealed(self, spare: u32) -> Self {
        let middle = Seq::new(
            self.buf.len(),
            |i: int|
                if self.offs <= i < self.buf.len() - self.end_offs {
                    0u8
                } else {
                    self.buf[i]
                },
        );
        let e = EncState { buf: middle, ..self };
        if self.nend_bits == 0 {
            e
        } else if self.end_offs >= self.buf.len() {
            EncState { error: true, ..e }
        } else {
            let at = self.buf.len() - 1 - self.end_offs;
            let full = self.offs + self.end_offs >= self.buf.len() && spare < self.nend_bits;
            let bits = if full {
                self.end_window & (((1u32 << spare) - 1) as u32)
            } else {
                self.end_window
            };
            EncState { buf: middle.update(at, middle[at] | bits as u8), error: full, ..e }
        }
    }

    /// The finished packet.
    pub open spec fn finished(self) -> Self {
        let (l, end) = self.final_bits();
        let a = self.tail_carried(end, l);
        let b = if a.rem is Some || a.ext > 0 { a.carried(0) } else { a };
        let c = b.window_flushed();
        if c.error {
            c
        } else {
            c.sealed(((8 - l % 8) % 8) as u32)
        }
    }

    /// Bits used so far, in units of 1/8 bit.
    pub open spec fn tell_eighths(self) -> i32 {
        self.nbits_total.wrapping_mul(8).wrapping_sub(range_eighths(self.rng) as i32)
    }
}

/// Range encoder over an owned packet buffer.
pub struct EcEnc {
    buf: Vec<u8>,
    offs: usize,
    end_offs: usize,
    end_window: u32,
    nend_bits: u32,
    nbits_total: i32,
    rng: u32,
    val: u32,
    rem: Option<u8>,
    ext: u64,
    error: bool,
}

impl View for EcEnc {
    type V = EncState;

    closed spec fn view(&self) -> EncState {
        EncState {
            buf: self.buf@,
            offs: self.offs as int,
            end_offs: self.end_offs as int,
            end_window: self.end_window,
            nend_bits: self.nend_bits,
            nbits_total: self.nbits_total,
            rng: self.rng,
            val: self.val,
            rem: self.rem,
            ext: self.ext,
            error: self.error,
        }
    }
}

impl EcEnc {
    /// Starts a packet of `size` bytes.
    pub fn new(size: usize) -> (enc: Self)
        ensures
            enc@ == EncState::started(size as nat),
            enc@.wf(),
    {
        let buf: Vec<u8> = vec![0u8; size];
        let enc = EcEnc {
            buf,
            offs: 0,
            end_offs: 0,
            end_window: 0,
            nend_bits: 0,
            nbits_total: 33,
            rng: CODE_TOP,
            val: 0,
            rem: None,
            ext: 0,
            error: false,
        };
        assert(enc@.buf =~= EncState::started(size as nat).buf);
        enc
    }

    /// A coder in the same state, to come back to.
    pub fn snapshot(&self) -> (saved: Self)
        ensures
            saved@ == self@,
    {
        EcEnc {
            buf: crate::mdct::copied(self.buf.as_slice()),
            offs: self.offs,
            end_offs: self.end_offs,
            end_window: self.end_window,
            nend_bits: self.nend_bits,
            nbits_total: self.nbits_total,
            rng: self.rng,
            val: self.val,
            rem: self.rem,
            ext: self.ext,
            error: self.error,
        }
    }

    /// Appends a byte at the front.
    fn write_byte(&mut self, byte: u8)
        requires
            old(self)@.in_bounds(),
        ensures
            final(self)@ == old(self)@.put_front(byte),
            final(self)@.in_bounds(),
    {
        if self.offs >= self.buf.len() - self.end_offs {
            self.error = true;
        } else {
            self.buf.set(self.offs, byte);
            self.offs = self.offs + 1;
        }
    }

    /// Prepends a byte at the back.
    fn write_byte_at_end(&mut self, byte: u8)
        requires
            old(self)@.in_bounds(),
        ensures
            final(self)@ == old(self)@.put_back(byte),
            final(self)@.in_bounds(),
    {
        if self.offs >= self.buf.len() - self.end_offs {
            self.error = true;
        } else {
            let at: usize = self.buf.len() - 1 - self.end_offs;
            self.buf.set(at, byte);
            self.end_offs = self.end_offs + 1;
        }
    }

    /// Emits a byte, resolving the carry kept in its ninth bit.
    fn carry_out(&mut self, c: u32)
        requires
            old(self)@.in_bounds(),
            c < 512,
        ensures
            final(self)@ == old(self)@.carried(c),
            final(self)@.in_bounds(),
            final(self)@.rng == old(self)@.rng,
            final(self)@.nbits_total == old(self)@.nbits_total,
    {
        if c == 255 {
            self.ext = self.ext.wrapping_add(1);
            return;
        }
        let carry: u32 = c / 256;
        let ghost start = self@;
        match self.rem {
            Some(r) => {
                let byte: u8 = r.wrapping_add(carry as u8);
                assert(byte == (r + carry) as u8) by {
                    assert(carry <= 1);
                    if r + carry == 256 {
                        assert(256u32 as u8 == 0) by (bit_vector);
                    }
                }
                self.write_byte(byte);
            },
            None => {},
        }
        let ghost flushed = self@;
        let fill: u8 = if carry == 1 { 0 } else { 255 };
        while self.ext > 0
            invariant
                self@.in_bounds(),
                self@.rng == old(self)@.rng,
                self@.nbits_total == old(self)@.nbits_total,
                self@.put_run(fill) == flushed.put_run(fill),
            decreases self.ext,
        {
            self.write_byte(fill);
            self.ext = self.ext - 1;
        }
        assert(self@ == flushed.put_run(fill));
        self.rem = Some((c % 256) as u8);
    }

    /// Shifts bytes out until the range is large enough again.
    fn normalize(&mut self)
        requires
            0 < old(self)@.rng <= CODE_TOP,
            old(self)@.val + old(self)@.rng <= 0x1_0000_0000,
            old(self)@.in_bounds(),
        ensures
            final(self)@ == old(self)@.renormalised(),
            final(self)@.wf(),
    {
        while self.rng <= CODE_BOTTOM
            invariant
                0 < self@.rng <= CODE_TOP,
                self@.val + self@.rng <= 0x1_0000_0000,
                self@.in_bounds(),
                self@.renormalised() == old(self)@.renormalised(),
            decreases self@.headroom(),
        {
            let ghost before = self@;
            let val: u32 = self.val;
            self.carry_out(val / CODE_BOTTOM);
            self.val = val % CODE_BOTTOM * 256;
            self.rng = self.rng * 256;
            self.nbits_total = self.nbits_total.wrapping_add(8);
            assert(self@ == before.shift_out());
        }
    }

    /// Encodes the symbol occupying `[fl, fh)` out of `ft`.
    pub fn encode(&mut self, fl: u32, fh: u32, ft: u32)
        requires
            old(self)@.wf(),
            fl < fh <= ft <= CODE_BOTTOM,
        ensures
            final(self)@ == old(self)@.coded(fl as int, fh as int, ft as int),
            final(self)@.wf(),
    {
        let r: u32 = self.rng / ft;
        proof {
            lemma_coded(self@, fl as int, fh as int, ft as int);
        }
        if fl > 0 {
            self.val = self.val + (self.rng - r * (ft - fl));
            self.rng = r * (fh - fl);
        } else {
            self.rng = self.rng - r * (ft - fh);
        }
        self.normalize();
    }

    /// Encodes a binary symbol.
    pub fn enc_bit_logp(&mut self, bit: bool, logp: u32)
        requires
            old(self)@.wf(),
            1 <= logp <= 16,
        ensures
            final(self)@ == old(self)@.bit_coded(bit, logp),
            final(self)@.wf(),
    {
        let s: u32 = self.rng >> logp;
        proof {
            crate::range_decoder::lemma_scaled_range(self.rng, logp);
        }
        let r: u32 = self.rng - s;
        if bit {
            self.val = self.val + r;
            self.rng = s;
        } else {
            self.rng = r;
        }
        self.normalize();
    }

    /// Writes out the whole bytes of the raw-bit window.
    fn flush_window(&mut self)
        requires
            old(self)@.in_bounds(),
        ensures
            final(self)@ == old(self)@.window_flushed(),
            final(self)@.in_bounds(),
            final(self)@.nend_bits < 8,
            final(self)@.rng == old(self)@.rng,
            final(self)@.val == old(self)@.val,
    {
        while self.nend_bits >= 8
            invariant
                self@.in_bounds(),
                self@.window_flushed() == old(self)@.window_flushed(),
                self@.rng == old(self)@.rng,
                self@.val == old(self)@.val,
            decreases self.nend_bits,
        {
            let byte: u8 = (self.end_window & 255) as u8;
            self.write_byte_at_end(byte);
            self.end_window = self.end_window >> 8u32;
            self.nend_bits = self.nend_bits - 8;
        }
    }

    /// Encodes `bits` raw bits at the back of the packet.
    pub fn enc_bits(&mut self, value: u32, bits: u32)
        requires
            old(self)@.wf(),
            1 <= bits <= MAX_RAW_BITS,
        ensures
            final(self)@ == old(self)@.raw_coded(value, bits),
            final(self)@.wf(),
    {
        if self.nend_bits + bits > 32 {
            self.flush_window();
        }
        self.end_window = self.end_window | (value << self.nend_bits);
        self.nend_bits = self.nend_bits + bits;
        self.nbits_total = self.nbits_total.wrapping_add(bits as i32);
    }

    /// Encodes an integer below `ft`.
    pub fn enc_uint(&mut self, value: u32, ft: u32)
        requires
            old(self)@.wf(),
            ft > 1,
            value < ft,
        ensures
            final(self)@ == old(self)@.uint_coded(value, ft),
            final(self)@.wf(),
    {
        let top: u32 = ft - 1;
        let ftb: u32 = ec_ilog(top);
        proof {
            vstd::arithmetic::power2::lemma2_to64();
            lemma_bit_length(top as nat);
        }
        if ftb > 8 {
            let low: u32 = ftb - 8;
            proof {
                let p = pow2(low as nat) as int;
                vstd::bits::lemma_u32_shr_is_div(top, low);
                vstd::bits::lemma_u32_shr_is_div(value, low);
                vstd::arithmetic::power2::lemma_pow2_adds(8, low as nat);
                vstd::arithmetic::power2::lemma_pow2_pos(low as nat);
                vstd::arithmetic::div_mod::lemma_multiply_divide_lt(top as int, p, 256);
                vstd::arithmetic::div_mod::lemma_div_is_ordered(value as int, top as int, p);
                if low < 24 {
                    vstd::arithmetic::power2::lemma_pow2_strictly_increases(low as nat, 24);
                }
                vstd::bits::lemma_u32_shl_is_mul(1, low);
            }
            let scale: u32 = 1u32 << low;
            let head: u32 = value >> low;
            self.encode(head, head + 1, (top >> low) + 1);
            self.enc_bits(value % scale, low);
        } else {
            proof {
                if ftb < 8 {
                    vstd::arithmetic::power2::lemma_pow2_strictly_increases(ftb as nat, 8);
                }
            }
            self.encode(value, value + 1, ft);
        }
    }

    /// Writes the top `l` bits of `end`.
    fn write_tail(&mut self, end: u32, l: u32)
        requires
            old(self)@.in_bounds(),
            l <= 16,
        ensures
            final(self)@ == old(self)@.tail_carried(end, l as int),
            final(self)@.in_bounds(),
    {
        let mut left: u32 = l;
        let mut rest: u32 = end;
        while left > 0
            invariant
                self@.in_bounds(),
                self@.tail_carried(rest, left as int) == old(self)@.tail_carried(end, l as int),
            decreases left,
        {
            self.carry_out(rest / CODE_BOTTOM);
            rest = rest % CODE_BOTTOM * 256;
            if left <= 8 {
                assert(self@.tail_carried(rest, left - 8) == self@);
                left = 0;
            } else {
                left = left - 8;
            }
        }
    }

    /// Clears the unused middle of the packet and merges the last raw bits in.
    fn seal(&mut self, spare: u32)
        requires
            old(self)@.in_bounds(),
            !old(self)@.error,
            old(self)@.nend_bits < 8,
            spare < 8,
        ensures
            final(self)@ == old(self)@.sealed(spare),
    {
        let limit: usize = self.buf.len() - self.end_offs;
        let mut i: usize = self.offs;
        while i < limit
            invariant
                self@ == (EncState { buf: self@.buf, ..old(self)@ }),
                self@.buf.len() == old(self)@.buf.len(),
                self@.offs <= i <= limit,
                limit == self@.buf.len() - self@.end_offs,
                forall|j: int|
                    0 <= j < self@.buf.len() ==> self@.buf[j] == (if self@.offs <= j < i {
                        0u8
                    } else {
                        old(self)@.buf[j]
                    }),
            decreases limit - i,
        {
            self.buf.set(i, 0);
            i = i + 1;
        }
        assert(self@.buf =~= (EncState { nend_bits: 0, ..old(self)@ }).sealed(spare).buf);
        if self.nend_bits > 0 {
            if self.end_offs >= self.buf.len() {
                self.error = true;
            } else {
                let at: usize = self.buf.len() - 1 - self.end_offs;
                let full: bool = self.offs >= self.buf.len() - self.end_offs && spare
                    < self.nend_bits;
                let mut bits: u32 = self.end_window;
                if full {
                    assert(spare < 8 ==> 1u32 << spare >= 1) by (bit_vector);
                    bits = bits & ((1u32 << spare) - 1);
                    self.error = true;
                }
                let merged: u8 = self.buf[at] | bits as u8;
                self.buf.set(at, merged);
            }
        }
    }

    /// Finishes the packet and returns it, or `None` when it did not fit.
    pub fn enc_done(self) -> (packet: Option<Vec<u8>>)
        requires
            self@.wf(),
        ensures
            packet is Some <==> !self@.finished().error,
            packet matches Some(p) ==> p@ == self@.finished().buf,
    {
        let mut enc = self;
        let l: u32 = 32 - ec_ilog(enc.rng);
        proof {
            vstd::arithmetic::power2::lemma2_to64();
            lemma_bit_length(enc.rng as nat);
            if bit_length(enc.rng as nat) < 24 {
                vstd::arithmetic::power2::lemma_pow2_strictly_increases(
                    bit_length(enc.rng as nat),
                    24,
                );
            }
        }
        let mask: u32 = 0x7fff_ffffu32 >> l;
        let coarse: u32 = enc.val.wrapping_add(mask) & !mask;
        let mut count: u32 = l;
        let mut end: u32 = coarse;
        if (coarse | mask) >= enc.val.wrapping_add(enc.rng) {
            let finer: u32 = mask >> 1u32;
            count = l + 1;
            end = enc.val.wrapping_add(finer) & !finer;
        }
        enc.write_tail(end, count);
        if enc.rem.is_some() || enc.ext > 0 {
            enc.carry_out(0);
        }
        enc.flush_window();
        if !enc.error {
            let spare: u32 = (8 - count % 8) % 8;
            enc.seal(spare);
        }
        if enc.error {
            None
        } else {
            Some(enc.buf)
        }
    }

    /// Bits used so far, in units of 1/8 bit.
    pub fn tell_frac(&self) -> (eighths: i32)
        requires
            self@.wf(),
        ensures
            eighths == self@.tell_eighths(),
    {
        self.nbits_total.wrapping_mul(8).wrapping_sub(range_log_eighths(self.rng))
    }
}

/// A symbol's interval stays inside the current range.
proof fn lemma_coded(e: EncState, fl: int, fh: int, ft: int)
    requires
        e.wf(),
        0 <= fl < fh <= ft <= CODE_BOTTOM,
    ensures
        ({
            let r = e.rng as int / ft;
            &&& r > 0
            &&& 0 <= r * (ft - fl) <= e.rng
            &&& 0 <= r * (ft - fh) < e.rng
            &&& 0 < r * (fh - fl) <= r * (ft - fl)
        }),
{
    let r = e.rng as int / ft;
    vstd::arithmetic::div_mod::lemma_div_non_zero(e.rng as int, ft);
    vstd::arithmetic::div_mod::lemma_fundamental_div_mod(e.rng as int, ft);
    vstd::arithmetic::div_mod::lemma_mod_bound(e.rng as int, ft);
    assert(0 <= r * (ft - fl) <= ft * r) by (nonlinear_arith)
        requires
            r > 0,
            0 <= ft - fl <= ft,
    ;
    assert(0 <= r * (ft - fh) < ft * r) by (nonlinear_arith)
        requires
            r > 0,
            0 <= ft - fh < ft,
    ;
    assert(0 < r * (fh - fl) <= r * (ft - fl)) by (nonlinear_arith)
        requires
            r > 0,
            0 < fh - fl <= ft - fl,
    ;
}

} // verus!
