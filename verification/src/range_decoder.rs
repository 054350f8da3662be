//! Range decoder for the entropy-coded part of a frame, together with the raw
//! bits that are packed backwards from the end of the packet.

use vstd::arithmetic::power2::pow2;
use vstd::prelude::*;
use crate::math::{bit_length, ec_ilog, lemma_bit_length};

verus! {

/// Longest packet whose bits can be counted in eighths with 31 bits.
pub const MAX_STORAGE: usize = 0x1ff_ffff;

/// The coding range is renormalised as soon as it no longer exceeds this.
pub const CODE_BOTTOM: u32 = 0x80_0000;

/// Largest coding range.
pub const CODE_TOP: u32 = 0x8000_0000;

/// Largest number of raw bits that one call may read.
pub const MAX_RAW_BITS: u32 = 25;

/// State of the range decoder over a borrowed packet.
#[derive(Clone, Copy)]
pub struct EcDec<'a> {
    /// The packet being decoded.
    pub buf: &'a [u8],
    /// Bytes consumed from the front.
    pub offs: usize,
    /// Bytes consumed from the back.
    pub end_offs: usize,
    /// Raw bits read from the back and not yet handed out.
    pub end_window: u32,
    /// Number of valid bits in `end_window`.
    pub nend_bits: u32,
    /// Bits accounted for so far, including those of the current range.
    pub nbits_total: i32,
    /// Size of the current range.
    pub rng: u32,
    /// Distance from the top of the range to the code value, minus one.
    pub val: u32,
    /// Scale of the last `decode` call.
    pub ext: u32,
    /// Last byte read from the front.
    pub rem: u32,
    /// Whether an impossible symbol was met.
    pub error: bool,
}

/// Thresholds between the eighths of an octave, in Q15.
pub open spec fn octave_eighth(i: int) -> u32 {
    if i == 0 {
        35733
    } else if i == 1 {
        38967
    } else if i == 2 {
        42495
    } else if i == 3 {
        46340
    } else if i == 4 {
        50535
    } else if i == 5 {
        55109
    } else if i == 6 {
        60097
    } else {
        65535
    }
}

/// Length in 1/8 bits of a range: its base-two logarithm, rounded down.
pub open spec fn range_eighths(rng: u32) -> int {
    let l = bit_length(rng as nat);
    let r = rng as int / pow2((l - 16) as nat) as int;
    let b = r / 4096 - 8;
    8 * l + b + if r > octave_eighth(b) { 1int } else { 0 }
}

/// First entry of `table` (scaled by `r`) that does not exceed `val`.
pub open spec fn icdf_search(table: Seq<u8>, r: int, val: int, from: int) -> int
    decreases table.len() - from,
{
    if from < 0 || from >= table.len() || val >= r * table[from] {
        from
    } else {
        icdf_search(table, r, val, from + 1)
    }
}

/// An inverse cumulative table usable with `ftb` fractional bits.
pub open spec fn valid_icdf(table: Seq<u8>, ftb: u32) -> bool {
    &&& 0 < table.len() <= 256
    &&& table[table.len() - 1] == 0
    &&& ftb <= 8
    &&& forall|i: int| 0 <= i < table.len() ==> #[trigger] table[i] < pow2(ftb as nat)
}

impl<'a> EcDec<'a> {
    /// What every operation keeps: the range is normalised and contains the
    /// code value, and the cursors stay inside the packet.
    pub open spec fn wf(self) -> bool {
        &&& CODE_BOTTOM < self.rng <= CODE_TOP
        &&& self.val < self.rng
        &&& self.in_bounds()
    }

    /// The part of [`EcDec::wf`] that does not speak of the range.
    pub open spec fn in_bounds(self) -> bool {
        &&& self.rem <= 255
        &&& self.offs <= self.buf@.len()
        &&& self.end_offs <= self.buf@.len()
        &&& self.nend_bits <= 32
    }

    /// Next byte from the front; zero once the packet is exhausted.
    pub open spec fn front_byte(self) -> u32 {
        if self.offs < self.buf@.len() {
            self.buf@[self.offs as int] as u32
        } else {
            0
        }
    }

    /// Next byte from the back; zero once the packet is exhausted.
    pub open spec fn back_byte(self) -> u32 {
        if self.end_offs < self.buf@.len() {
            self.buf@[self.buf@.len() - 1 - self.end_offs] as u32
        } else {
            0
        }
    }

    /// How far the range is below the renormalisation threshold.
    pub open spec fn headroom(self) -> int {
        if self.rng > CODE_BOTTOM {
            0
        } else {
            CODE_BOTTOM + 1 - self.rng
        }
    }

    /// One renormalisation step: the range grows by eight bits.
    pub open spec fn shift_in(self) -> Self {
        let next = self.front_byte();
        EcDec {
            offs: if self.offs < self.buf@.len() { (self.offs + 1) as usize } else { self.offs },
            nbits_total: self.nbits_total.wrapping_add(8),
            rng: (self.rng * 256) as u32,
            val: (self.val * 256 + 255 - (self.rem * 256 + next) as int / 2 % 256) as u32,
            rem: next,
            ..self
        }
    }

    /// Renormalisation: bytes are shifted in until the range exceeds
    /// [`CODE_BOTTOM`].
    pub open spec fn renormalised(self) -> Self
        decreases self.headroom(),
    {
        if self.rng == 0 || self.rng > CODE_BOTTOM {
            self
        } else {
            self.shift_in().renormalised()
        }
    }

    /// The cumulative frequency, out of `ft`, that the code value points to.
    pub open spec fn slot(self, ft: int) -> int {
        let q = self.val as int / (self.rng as int / ft) + 1;
        ft - if q < ft { q } else { ft }
    }

    /// The state after the symbol occupying `[fl, fh)` out of `ft` was decoded.
    pub open spec fn consumed(self, fl: int, fh: int, ft: int) -> Self {
        let scale = self.rng as int / ft;
        let s = scale * (ft - fh);
        EcDec {
            val: (self.val - s) as u32,
            rng: (if fl > 0 { scale * (fh - fl) } else { self.rng - s }) as u32,
            ..self
        }.renormalised()
    }

    /// A symbol of a uniform alphabet of `ft` symbols.
    pub open spec fn uniform(self, ft: int) -> (Self, int) {
        let s = self.slot(ft);
        let scaled = EcDec { ext: (self.rng as int / ft) as u32, ..self };
        (scaled.consumed(s, s + 1, ft), s)
    }

    /// A binary symbol whose probability of being one is `1 / 2^logp`.
    pub open spec fn bit(self, logp: u32) -> (Self, bool) {
        let s = self.rng as int / pow2(logp as nat) as int;
        if self.val < s {
            (EcDec { rng: s as u32, ..self }.renormalised(), true)
        } else {
            (
                EcDec { val: (self.val - s) as u32, rng: (self.rng - s) as u32, ..self }
                    .renormalised(),
                false,
            )
        }
    }

    /// A symbol described by an inverse cumulative table with `2^ftb` slots.
    pub open spec fn symbol(self, table: Seq<u8>, ftb: u32) -> (Self, int) {
        let r = self.rng as int / pow2(ftb as nat) as int;
        let k = icdf_search(table, r, self.val as int, 0);
        let top = if k == 0 { self.rng as int } else { r * table[k - 1] };
        let low = r * table[k];
        (EcDec { val: (self.val - low) as u32, rng: (top - low) as u32, ..self }.renormalised(), k)
    }

    /// The raw-bit window filled up from the back of the packet.
    pub open spec fn refilled(self) -> Self
        decreases 32 - self.nend_bits,
    {
        if self.nend_bits > 24 {
            self
        } else {
            EcDec {
                end_offs: if self.end_offs < self.buf@.len() {
                    (self.end_offs + 1) as usize
                } else {
                    self.end_offs
                },
                end_window: self.end_window | (self.back_byte() << self.nend_bits),
                nend_bits: (self.nend_bits + 8) as u32,
                ..self
            }.refilled()
        }
    }

    /// `bits` raw bits from the back of the packet.
    pub open spec fn raw(self, bits: u32) -> (Self, u32) {
        let d = if self.nend_bits < bits { self.refilled() } else { self };
        (
            EcDec {
                end_window: d.end_window >> bits,
                nend_bits: (d.nend_bits - bits) as u32,
                nbits_total: d.nbits_total.wrapping_add(bits as i32),
                ..d
            },
            d.end_window & (((1u32 << bits) - 1) as u32),
        )
    }

    /// An integer below `ft`: its high bits are range coded and the remaining
    /// ones are raw.
    pub open spec fn uint(self, ft: u32) -> (Self, u32) {
        let ftb = bit_length((ft - 1) as nat);
        if ftb > 8 {
            let low = (ftb - 8) as u32;
            let (d, s) = self.uniform((ft - 1) / pow2(low as nat) as int + 1);
            let (e, tail) = d.raw(low);
            let t = s * pow2(low as nat) + tail;
            if t < ft {
                (e, t as u32)
            } else {
                (EcDec { error: true, ..e }, (ft - 1) as u32)
            }
        } else {
            let (d, s) = self.uniform(ft as int);
            (d, s as u32)
        }
    }

    /// Bits used so far, rounded up.
    pub open spec fn tell_bits(self) -> i32 {
        self.nbits_total.wrapping_sub(bit_length(self.rng as nat) as i32)
    }

    /// Bits used so far in units of 1/8 bit, rounded up.
    pub open spec fn tell_eighths(self) -> i32 {
        self.nbits_total.wrapping_mul(8).wrapping_sub(range_eighths(self.rng) as i32)
    }

    /// The state before the first symbol of a packet.
    pub open spec fn started(buf: &'a [u8]) -> Self {
        let first = if buf@.len() > 0 { buf@[0] as u32 } else { 0 };
        EcDec {
            buf,
            offs: if buf@.len() > 0 { 1 } else { 0 },
            end_offs: 0,
            end_window: 0,
            nend_bits: 0,
            nbits_total: 9,
            rng: 128,
            val: (127 - first / 2) as u32,
            ext: 0,
            rem: first,
            error: false,
        }.renormalised()
    }

    /// Starts decoding `buf`.
    pub fn new(buf: &'a [u8]) -> (dec: Self)
        ensures
            dec == EcDec::started(buf),
            dec.wf(),
            dec.buf@ == buf@,
    {
        let first: u32 = if buf.len() > 0 { buf[0] as u32 } else { 0 };
        let mut dec = EcDec {
            buf,
            offs: if buf.len() > 0 { 1 } else { 0 },
            end_offs: 0,
            end_window: 0,
            nend_bits: 0,
            nbits_total: 9,
            rng: 128,
            val: 127 - first / 2,
            ext: 0,
            rem: first,
            error: false,
        };
        dec.normalize();
        dec
    }

    /// Shifts bytes in until the range is large enough again.
    fn normalize(&mut self)
        requires
            0 < old(self).rng <= CODE_TOP,
            old(self).val < old(self).rng,
            old(self).in_bounds(),
        ensures
            *final(self) == old(self).renormalised(),
            final(self).wf(),
            final(self).buf@ == old(self).buf@,
    {
        while self.rng <= CODE_BOTTOM
            invariant
                0 < self.rng <= CODE_TOP,
                self.val < self.rng,
                self.in_bounds(),
                self.renormalised() == old(self).renormalised(),
                self.buf@ == old(self).buf@,
            decreases self.headroom(),
        {
            let ghost before = *self;
            let next: u32 = if self.offs < self.buf.len() {
                let byte: u32 = self.buf[self.offs] as u32;
                self.offs = self.offs + 1;
                byte
            } else {
                0
            };
            let sym: u32 = (self.rem * 256 + next) / 2 % 256;
            self.nbits_total = self.nbits_total.wrapping_add(8);
            self.val = self.val * 256 + 255 - sym;
            self.rng = self.rng * 256;
            self.rem = next;
            assert(*self == before.shift_in());
        }
    }

    /// Returns the cumulative frequency, out of `ft`, of the next symbol.
    pub fn decode(&mut self, ft: u32) -> (fs: u32)
        requires
            old(self).wf(),
            0 < ft <= CODE_BOTTOM,
        ensures
            *final(self) == (EcDec { ext: (old(self).rng as int / ft as int) as u32, ..*old(self) }),
            final(self).wf(),
            final(self).buf@ == old(self).buf@,
            fs == old(self).slot(ft as int),
            0 <= fs < ft,
    {
        let ext: u32 = self.rng / ft;
        proof {
            vstd::arithmetic::div_mod::lemma_div_non_zero(self.rng as int, ft as int);
            vstd::arithmetic::div_mod::lemma_div_pos_is_pos(self.val as int, ext as int);
            vstd::arithmetic::div_mod::lemma_div_is_ordered_by_denominator(
                self.val as int,
                1,
                ext as int,
            );
        }
        self.ext = ext;
        let q: u32 = self.val / ext + 1;
        if q < ft {
            ft - q
        } else {
            0
        }
    }

    /// Removes the symbol occupying `[fl, fh)` out of `ft`, which has to be the
    /// one that the preceding [`EcDec::decode`] call pointed to.
    pub fn update(&mut self, fl: u32, fh: u32, ft: u32)
        requires
            old(self).wf(),
            0 < ft <= CODE_BOTTOM,
            old(self).ext == old(self).rng as int / ft as int,
            fl <= old(self).slot(ft as int) < fh <= ft,
        ensures
            *final(self) == old(self).consumed(fl as int, fh as int, ft as int),
            final(self).wf(),
            final(self).buf@ == old(self).buf@,
    {
        proof {
            lemma_consumed(*self, fl as int, fh as int, ft as int);
        }
        let s: u32 = self.ext * (ft - fh);
        self.val = self.val - s;
        self.rng = if fl > 0 { self.ext * (fh - fl) } else { self.rng - s };
        self.normalize();
    }

    /// Decodes a symbol of a uniform alphabet of `ft` symbols.
    pub fn dec_uniform(&mut self, ft: u32) -> (s: u32)
        requires
            old(self).wf(),
            0 < ft <= CODE_BOTTOM,
        ensures
            (*final(self), s as int) == old(self).uniform(ft as int),
            final(self).wf(),
            final(self).buf@ == old(self).buf@,
            0 <= s < ft,
    {
        let s: u32 = self.decode(ft);
        self.update(s, s + 1, ft);
        s
    }

    /// Decodes a binary symbol whose probability of being one is `1 / 2^logp`.
    pub fn dec_bit_logp(&mut self, logp: u32) -> (bit: bool)
        requires
            old(self).wf(),
            1 <= logp <= 16,
        ensures
            (*final(self), bit) == old(self).bit(logp),
            final(self).wf(),
            final(self).buf@ == old(self).buf@,
    {
        let s: u32 = self.rng >> logp;
        proof {
            lemma_scaled_range(self.rng, logp);
        }
        let bit: bool = self.val < s;
        if bit {
            self.rng = s;
        } else {
            self.val = self.val - s;
            self.rng = self.rng - s;
        }
        self.normalize();
        bit
    }

    /// Decodes a symbol described by an inverse cumulative table.
    pub fn dec_icdf(&mut self, table: &[u8], ftb: u32) -> (k: usize)
        requires
            old(self).wf(),
            valid_icdf(table@, ftb),
        ensures
            (*final(self), k as int) == old(self).symbol(table@, ftb),
            final(self).wf(),
            final(self).buf@ == old(self).buf@,
            k < table@.len(),
    {
        let r: u32 = self.rng >> ftb;
        proof {
            lemma_scaled_range(self.rng, ftb);
            if ftb == 0 {
                vstd::arithmetic::power2::lemma2_to64();
            }
        }
        let mut top: u32 = self.rng;
        let mut k: usize = 0;
        proof {
            lemma_icdf_product(r, table@[0], ftb, self.rng);
        }
        let mut low: u32 = r * table[0] as u32;
        while self.val < low
            invariant
                k < table@.len(),
                valid_icdf(table@, ftb),
                r as int == self.rng as int / pow2(ftb as nat) as int,
                r > 0,
                low == r * table@[k as int],
                self.val < top <= self.rng,
                top == (if k == 0 { self.rng as int } else { r * table@[k - 1] }),
                icdf_search(table@, r as int, self.val as int, 0) == icdf_search(
                    table@,
                    r as int,
                    self.val as int,
                    k as int,
                ),
            decreases table@.len() - k,
        {
            proof {
                if k == table@.len() - 1 {
                    assert(r * 0 == 0);
                }
            }
            top = low;
            k = k + 1;
            proof {
                lemma_icdf_product(r, table@[k as int], ftb, self.rng);
                lemma_icdf_product(r, table@[k - 1], ftb, self.rng);
            }
            low = r * table[k] as u32;
        }
        self.val = self.val - low;
        self.rng = top - low;
        self.normalize();
        k
    }

    /// Reads `bits` raw bits from the back of the packet.
    pub fn dec_bits(&mut self, bits: u32) -> (value: u32)
        requires
            old(self).wf(),
            bits <= MAX_RAW_BITS,
        ensures
            (*final(self), value) == old(self).raw(bits),
            final(self).wf(),
            final(self).buf@ == old(self).buf@,
            value < pow2(bits as nat),
    {
        if self.nend_bits < bits {
            while self.nend_bits <= 24
                invariant
                    self.wf(),
                    self.refilled() == old(self).refilled(),
                    self.buf@ == old(self).buf@,
                decreases 32 - self.nend_bits,
            {
                let ghost before = *self;
                let byte: u32 = if self.end_offs < self.buf.len() {
                    let b: u32 = self.buf[self.buf.len() - 1 - self.end_offs] as u32;
                    self.end_offs = self.end_offs + 1;
                    b
                } else {
                    0
                };
                self.end_window = self.end_window | (byte << self.nend_bits);
                self.nend_bits = self.nend_bits + 8;
                assert(byte == before.back_byte());
            }
        }
        proof {
            lemma_low_mask(self.end_window, bits);
        }
        let mask: u32 = (1u32 << bits) - 1;
        let value: u32 = self.end_window & mask;
        self.end_window = self.end_window >> bits;
        self.nend_bits = self.nend_bits - bits;
        self.nbits_total = self.nbits_total.wrapping_add(bits as i32);
        value
    }

    /// Decodes an integer below `ft`.
    pub fn dec_uint(&mut self, ft: u32) -> (value: u32)
        requires
            old(self).wf(),
            ft > 1,
        ensures
            (*final(self), value) == old(self).uint(ft),
            final(self).wf(),
            final(self).buf@ == old(self).buf@,
            value < ft,
    {
        let top: u32 = ft - 1;
        let ftb: u32 = ec_ilog(top);
        proof {
            vstd::arithmetic::power2::lemma2_to64();
            lemma_bit_length(top as nat);
        }
        if ftb > 8 {
            let low: u32 = ftb - 8;
            proof {
                vstd::bits::lemma_u32_shr_is_div(top, low);
                vstd::arithmetic::power2::lemma_pow2_adds(8, low as nat);
                vstd::arithmetic::power2::lemma_pow2_pos(low as nat);
                vstd::arithmetic::div_mod::lemma_multiply_divide_lt(
                    top as int,
                    pow2(low as nat) as int,
                    256,
                );
            }
            let heads: u32 = (top >> low) + 1;
            let s: u32 = self.dec_uniform(heads);
            let tail: u32 = self.dec_bits(low);
            proof {
                assert(s * pow2(low as nat) <= 255 * pow2(low as nat)) by (nonlinear_arith)
                    requires
                        s <= 255,
                ;
                vstd::arithmetic::power2::lemma_pow2_adds(8, low as nat);
                if low < 24 {
                    vstd::arithmetic::power2::lemma_pow2_strictly_increases(low as nat, 24);
                }
                vstd::bits::lemma_u32_shl_is_mul(s, low);
            }
            let t: u32 = (s << low) + tail;
            if t <= top {
                t
            } else {
                self.error = true;
                top
            }
        } else {
            proof {
                if ftb < 8 {
                    vstd::arithmetic::power2::lemma_pow2_strictly_increases(ftb as nat, 8);
                }
            }
            self.dec_uniform(ft)
        }
    }

    /// Bits used so far, rounded up.
    pub fn tell(&self) -> (bits: i32)
        ensures
            bits == self.tell_bits(),
    {
        self.nbits_total.wrapping_sub(ec_ilog(self.rng) as i32)
    }

    /// Bits used so far in units of 1/8 bit, rounded up.
    pub fn tell_frac(&self) -> (eighths: i32)
        requires
            self.wf(),
        ensures
            eighths == self.tell_eighths(),
    {
        self.nbits_total.wrapping_mul(8).wrapping_sub(range_log_eighths(self.rng))
    }
}

/// Computes [`range_eighths`].
pub fn range_log_eighths(rng: u32) -> (eighths: i32)
    requires
        rng > CODE_BOTTOM,
    ensures
        eighths == range_eighths(rng),
        0 <= eighths <= 264,
{
    let l: u32 = ec_ilog(rng);
    proof {
        vstd::arithmetic::power2::lemma2_to64();
        lemma_bit_length(rng as nat);
        if l < 24 {
            vstd::arithmetic::power2::lemma_pow2_strictly_increases(l as nat, 24);
        }
        let p = pow2((l - 16) as nat) as int;
        vstd::arithmetic::power2::lemma_pow2_pos((l - 16) as nat);
        vstd::arithmetic::power2::lemma_pow2_adds((l - 16) as nat, 16);
        vstd::arithmetic::power2::lemma_pow2_adds((l - 16) as nat, 15);
        vstd::arithmetic::div_mod::lemma_multiply_divide_lt(rng as int, p, 65536);
        vstd::arithmetic::div_mod::lemma_div_is_ordered(p * 32768, rng as int, p);
        vstd::arithmetic::div_mod::lemma_div_multiples_vanish(32768, p);
        vstd::bits::lemma_u32_shr_is_div(rng, (l - 16) as u32);
    }
    let r: u32 = rng >> (l - 16);
    let b: u32 = r / 4096 - 8;
    let threshold: u32 = match b {
        0 => 35733,
        1 => 38967,
        2 => 42495,
        3 => 46340,
        4 => 50535,
        5 => 55109,
        6 => 60097,
        _ => 65535,
    };
    (8 * l + b + if r > threshold { 1 } else { 0 }) as i32
}

/// Splitting a normalised range by a power of two leaves both parts non-empty.
pub proof fn lemma_scaled_range(rng: u32, logp: u32)
    requires
        CODE_BOTTOM < rng,
        logp <= 16,
    ensures
        (rng >> logp) as int == rng as int / pow2(logp as nat) as int,
        0 < rng >> logp,
        logp >= 1 ==> rng >> logp < rng,
{
    vstd::bits::lemma_u32_shr_is_div(rng, logp);
    vstd::arithmetic::power2::lemma2_to64();
    vstd::arithmetic::power2::lemma_pow2_pos(logp as nat);
    let p = pow2(logp as nat) as int;
    if logp < 16 {
        vstd::arithmetic::power2::lemma_pow2_strictly_increases(logp as nat, 16);
    }
    vstd::arithmetic::div_mod::lemma_div_non_zero(rng as int, p);
    if logp >= 1 {
        vstd::arithmetic::power2::lemma_pow2_unfold(logp as nat);
        vstd::arithmetic::power2::lemma_pow2_pos((logp - 1) as nat);
        vstd::arithmetic::div_mod::lemma_div_decreases(rng as int, p);
    }
}

/// Table entries scale to values inside the range.
proof fn lemma_icdf_product(r: u32, entry: u8, ftb: u32, rng: u32)
    requires
        r as int == rng as int / pow2(ftb as nat) as int,
        entry < pow2(ftb as nat),
    ensures
        0 <= r * entry <= rng,
{
    let p = pow2(ftb as nat) as int;
    vstd::arithmetic::div_mod::lemma_fundamental_div_mod(rng as int, p);
    vstd::arithmetic::div_mod::lemma_mod_bound(rng as int, p);
    assert(0 <= r * entry <= p * r) by (nonlinear_arith)
        requires
            0 <= entry < p,
            0 <= r,
    ;
}

/// The interval of the decoded symbol contains the code value.
proof fn lemma_consumed(d: EcDec<'_>, fl: int, fh: int, ft: int)
    requires
        d.wf(),
        0 < ft <= CODE_BOTTOM,
        0 <= fl <= d.slot(ft) < fh <= ft,
    ensures
        ({
            let scale = d.rng as int / ft;
            let s = scale * (ft - fh);
            &&& scale > 0
            &&& 0 <= s <= d.val
            &&& 0 <= scale * (fh - fl) <= d.rng
            &&& fl > 0 ==> d.val - s < scale * (fh - fl)
            &&& scale * ft <= d.rng
        }),
{
    let scale = d.rng as int / ft;
    let v = d.val as int;
    let q = v / scale;
    vstd::arithmetic::div_mod::lemma_div_non_zero(d.rng as int, ft);
    vstd::arithmetic::div_mod::lemma_fundamental_div_mod(d.rng as int, ft);
    vstd::arithmetic::div_mod::lemma_mod_bound(d.rng as int, ft);
    vstd::arithmetic::div_mod::lemma_fundamental_div_mod(v, scale);
    vstd::arithmetic::div_mod::lemma_mod_bound(v, scale);
    vstd::arithmetic::div_mod::lemma_div_pos_is_pos(v, scale);
    assert(scale * ft == ft * scale) by (nonlinear_arith);
    assert(0 <= scale * (ft - fh) <= scale * q) by (nonlinear_arith)
        requires
            scale > 0,
            0 <= ft - fh <= q,
    ;
    assert(0 <= scale * (fh - fl) <= scale * ft) by (nonlinear_arith)
        requires
            scale > 0,
            0 <= fh - fl <= ft,
    ;
    if fl > 0 {
        assert(q + 1 <= ft - fl);
        assert(scale * (q + 1) <= scale * (ft - fl)) by (nonlinear_arith)
            requires
                scale > 0,
                q + 1 <= ft - fl,
        ;
        assert(scale * (q + 1) == scale * q + scale) by (nonlinear_arith);
        assert(scale * (ft - fl) - scale * (ft - fh) == scale * (fh - fl)) by (nonlinear_arith);
    }
}

/// Masking keeps only the low bits.
proof fn lemma_low_mask(window: u32, bits: u32)
    requires
        bits <= MAX_RAW_BITS,
    ensures
        1u32 << bits >= 1,
        window & (((1u32 << bits) - 1) as u32) < pow2(bits as nat),
{
    vstd::arithmetic::power2::lemma2_to64();
    vstd::arithmetic::power2::lemma_pow2_pos(bits as nat);
    if bits < 25 {
        vstd::arithmetic::power2::lemma_pow2_strictly_increases(bits as nat, 25);
    }
    vstd::bits::lemma_u32_shl_is_mul(1, bits);
    assert(window & (((1u32 << bits) - 1) as u32) <= ((1u32 << bits) - 1) as u32) by (bit_vector);
}

} // verus!
