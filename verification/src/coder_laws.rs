//! What the range decoder reads of a packet is what the range encoder wrote.

use vstd::arithmetic::power2::{
    lemma2_to64, lemma2_to64_rest, lemma_pow2_adds, lemma_pow2_pos, lemma_pow2_strictly_increases, pow2,
};
use vstd::prelude::*;
use crate::math::{bit_length, lemma_bit_length};
use crate::range_decoder::{EcDec, CODE_BOTTOM, CODE_TOP, MAX_RAW_BITS};
use crate::range_encoder::EncState;

verus! {

/// Something that can be coded.
pub enum Symbol {
    /// The symbol that occupies `[fl, fh)` out of `ft`.
    Span { fl: int, fh: int, ft: int },
    /// A flag that is set with probability `1 / 2^logp`.
    Flag { bit: bool, logp: u32 },
    /// Raw bits.
    Raw { value: u32, bits: u32 },
    /// An integer below `total`.
    Count { value: u32, total: u32 },
}

impl Symbol {
    /// What the coders ask of a symbol.
    pub open spec fn valid(self) -> bool {
        match self {
            Symbol::Span { fl, fh, ft } => 0 <= fl < fh <= ft <= CODE_BOTTOM,
            Symbol::Flag { bit: _, logp } => 1 <= logp <= 16,
            Symbol::Raw { value, bits } => 1 <= bits <= MAX_RAW_BITS && value < pow2(bits as nat),
            Symbol::Count { value, total } => value < total && total > 1,
        }
    }
}

/// The encoder after one more symbol.
pub open spec fn written(e: EncState, s: Symbol) -> EncState {
    match s {
        Symbol::Span { fl, fh, ft } => e.coded(fl, fh, ft),
        Symbol::Flag { bit, logp } => e.bit_coded(bit, logp),
        Symbol::Raw { value, bits } => e.raw_coded(value, bits),
        Symbol::Count { value, total } => e.uint_coded(value, total),
    }
}

/// The encoder after all of the symbols.
pub open spec fn all_written(e: EncState, symbols: Seq<Symbol>) -> EncState
    decreases symbols.len(),
{
    if symbols.len() == 0 {
        e
    } else {
        all_written(written(e, symbols[0]), symbols.skip(1))
    }
}

/// The decoder after one more symbol, and whether it was the expected one.
pub open spec fn read<'a>(d: EcDec<'a>, s: Symbol) -> (EcDec<'a>, bool) {
    match s {
        Symbol::Span { fl, fh, ft } => (
            EcDec { ext: (d.rng as int / ft) as u32, ..d }.consumed(fl, fh, ft),
            fl <= d.slot(ft) < fh,
        ),
        Symbol::Flag { bit, logp } => (d.bit(logp).0, d.bit(logp).1 == bit),
        Symbol::Raw { value, bits } => (d.raw(bits).0, d.raw(bits).1 == value),
        Symbol::Count { value, total } => (d.uint(total).0, d.uint(total).1 == value),
    }
}

/// The decoder after all of the symbols.
pub open spec fn all_read<'a>(d: EcDec<'a>, symbols: Seq<Symbol>) -> EcDec<'a>
    decreases symbols.len(),
{
    if symbols.len() == 0 {
        d
    } else {
        all_read(read(d, symbols[0]).0, symbols.skip(1))
    }
}

/// The decoder finds every symbol, and counts as many bits as the encoder.
pub open spec fn read_back(e: EncState, d: EcDec<'_>, symbols: Seq<Symbol>) -> bool
    decreases symbols.len(),
{
    &&& d.tell_eighths() == e.tell_eighths()
    &&& symbols.len() > 0 ==> {
        let (next, same) = read(d, symbols[0]);
        same && read_back(written(e, symbols[0]), next, symbols.skip(1))
    }
}

/// Bytes as the digits of a number, the first one the highest.
spec fn number(s: Seq<u8>) -> int
    decreases s.len(),
{
    if s.len() == 0 {
        0
    } else {
        number(s.drop_last()) * 256 + s.last()
    }
}

/// Two to the power of eight times `n`.
spec fn bytes(n: nat) -> int {
    pow2(8 * n) as int
}

/// One byte more.
proof fn lemma_bytes(n: nat)
    ensures
        bytes(n + 1) == bytes(n) * 256,
        bytes(n) >= 1,
        bytes(0) == 1,
{
    lemma2_to64();
    lemma_pow2_adds(8 * n, 8);
    lemma_pow2_pos(8 * n);
    assert(8 * (n + 1) == 8 * n + 8);
}

/// Bytes behind other bytes.
proof fn lemma_number_joined(a: Seq<u8>, b: Seq<u8>)
    ensures
        number(a + b) == number(a) * bytes(b.len()) + number(b),
        0 <= number(b) < bytes(b.len()),
    decreases b.len(),
{
    lemma_bytes(b.len());
    if b.len() == 0 {
        assert(a + b =~= a);
    } else {
        let c = b.drop_last();
        lemma_number_joined(a, c);
        lemma_bytes(c.len());
        assert((a + b).drop_last() =~= a + c);
        let (x, y, z) = (number(a), bytes(c.len()), number(c));
        assert((x * y + z) * 256 == x * (y * 256) + z * 256) by (nonlinear_arith);
        assert(z * 256 + 255 < y * 256);
    }
}

/// One byte behind other bytes.
proof fn lemma_number_pushed(a: Seq<u8>, b: u8)
    ensures
        number(a.push(b)) == number(a) * 256 + b,
{
    assert(a.push(b).drop_last() =~= a);
}

/// Runs of the lowest and of the highest byte.
proof fn lemma_number_run(n: nat)
    ensures
        number(Seq::new(n, |i: int| 0u8)) == 0,
        number(Seq::new(n, |i: int| 255u8)) == bytes(n) - 1,
    decreases n,
{
    lemma_bytes(n);
    if n > 0 {
        let m = (n - 1) as nat;
        lemma_number_run(m);
        lemma_bytes(m);
        assert(Seq::new(n, |i: int| 0u8).drop_last() =~= Seq::new(m, |i: int| 0u8));
        assert(Seq::new(n, |i: int| 255u8).drop_last() =~= Seq::new(m, |i: int| 255u8));
    }
}

/// What a carry can still change.
spec fn pending(e: EncState) -> Seq<u8> {
    let run = Seq::new(e.ext as nat, |i: int| 255u8);
    match e.rem {
        Some(r) => seq![r] + run,
        None => run,
    }
}

/// Everything that has left the range so far.
spec fn emitted(e: EncState) -> Seq<u8> {
    e.buf.take(e.offs) + pending(e)
}

/// Low end of the range, with all that has left it in front.
spec fn low(e: EncState) -> int {
    number(emitted(e)) * 0x8000_0000 + e.val
}

/// A carry would have to change more than the pending bytes.
spec fn brimful(e: EncState) -> bool {
    match e.rem {
        Some(r) => r == 255,
        None => true,
    }
}

/// What holds of an encoder without an overflow, even while its range is too
/// small.
spec fn front_ok(e: EncState) -> bool {
    &&& !e.error
    &&& e.in_bounds()
    &&& 0 < e.rng <= CODE_TOP
    &&& e.val + e.rng <= 0x1_0000_0000
    &&& e.rem is None ==> e.offs == 0
    &&& brimful(e) ==> e.val + e.rng <= 0x8000_0000
}

/// Two states that differ at most in what was written at the front.
spec fn same_back(a: EncState, b: EncState) -> bool {
    &&& a.buf.len() == b.buf.len()
    &&& a.end_offs == b.end_offs
    &&& a.end_window == b.end_window
    &&& a.nend_bits == b.nend_bits
    &&& forall|i: int| a.buf.len() - a.end_offs <= i < a.buf.len() ==> a.buf[i] == b.buf[i]
}

/// A run of equal bytes written out.
proof fn lemma_put_run(e: EncState, byte: u8)
    requires
        e.in_bounds(),
        !e.put_run(byte).error,
    ensures
        ({
            let f = e.put_run(byte);
            &&& !e.error
            &&& f.in_bounds()
            &&& same_back(e, f)
            &&& f.offs == e.offs + e.ext
            &&& f.ext == 0
            &&& f == (EncState { buf: f.buf, offs: f.offs, ext: 0, ..e })
            &&& f.buf.take(f.offs) == e.buf.take(e.offs) + Seq::new(e.ext as nat, |i: int| byte)
        }),
    decreases e.ext,
{
    if e.ext == 0 {
        assert(e.buf.take(e.offs) =~= e.buf.take(e.offs) + Seq::new(0, |i: int| byte));
    } else {
        let g = EncState { ext: (e.ext - 1) as u64, ..e.put_front(byte) };
        lemma_put_run(g, byte);
        let f = g.put_run(byte);
        assert(e.put_run(byte) == f);
        let m = (e.ext - 1) as nat;
        assert(g.buf.take(g.offs) =~= e.buf.take(e.offs).push(byte));
        assert(f.buf.take(f.offs) =~= e.buf.take(e.offs) + Seq::new(e.ext as nat, |i: int| byte));
    }
}

/// A symbol that leaves the range becomes the last digit of what was emitted.
#[verifier::rlimit(40)]
proof fn lemma_carried(e: EncState, c: u32)
    requires
        e.in_bounds(),
        c <= 511,
        c >= 256 ==> !brimful(e),
        e.rem is None ==> e.offs == 0,
        e.ext < u64::MAX,
        !e.carried(c).error,
    ensures
        ({
            let f = e.carried(c);
            &&& !e.error
            &&& f.in_bounds()
            &&& same_back(e, f)
            &&& f.rem is None ==> f.offs == 0
            &&& f.val == e.val
            &&& f.rng == e.rng
            &&& f.nbits_total == e.nbits_total
            &&& f.ext <= e.ext + 1
            &&& emitted(f).len() == emitted(e).len() + 1
            &&& number(emitted(f)) == number(emitted(e)) * 256 + c
            &&& c == 255 ==> f.rem == e.rem
            &&& c != 255 ==> f.rem == Some((c % 256) as u8) && f.ext == 0
        }),
{
    let f = e.carried(c);
    let w = e.buf.take(e.offs);
    let n = e.ext as nat;
    if c == 255 {
        assert(pending(f) =~= pending(e).push(255));
        assert(emitted(f) =~= emitted(e).push(255));
        lemma_number_pushed(emitted(e), 255);
    } else {
        let carry = c / 256;
        let flushed = match e.rem {
            Some(r) => e.put_front((r + carry) as u8),
            None => e,
        };
        let byte = ((255 + carry) % 256) as u8;
        lemma_put_run(flushed, byte);
        let g = flushed.put_run(byte);
        let run = Seq::new(n, |i: int| byte);
        let low_byte = (c % 256) as u8;
        assert(f == (EncState { rem: Some(low_byte), ..g }));
        assert(!flushed.error);
        let head = flushed.buf.take(flushed.offs);
        match e.rem {
            Some(r) => {
                assert(head =~= w.push((r + carry) as u8));
            },
            None => {},
        }
        assert(emitted(f) =~= (head + run).push(low_byte));
        lemma_number_pushed(head + run, low_byte);
        lemma_number_joined(head, run);
        lemma_number_run(n);
        let full = Seq::new(n, |i: int| 255u8);
        match e.rem {
            Some(r) => {
                assert(emitted(e) =~= w.push(r) + full);
                lemma_number_joined(w.push(r), full);
                lemma_number_pushed(w, r);
                lemma_number_pushed(w, (r + carry) as u8);
                let (x, p) = (number(w), bytes(n));
                if carry == 1 {
                    assert(run =~= Seq::new(n, |i: int| 0u8));
                    assert((x * 256 + r + 1) * p == (x * 256 + r) * p + p) by (nonlinear_arith);
                    assert(number(head + run) == number(emitted(e)) + 1);
                } else {
                    assert(run =~= full);
                    assert(number(head + run) == number(emitted(e)));
                }
            },
            None => {
                assert(carry == 0);
                assert(run =~= full);
                assert(emitted(e) =~= w + full);
            },
        }
    }
}

/// Byte of a packet; there are zeros behind it.
spec fn byte_at(p: Seq<u8>, i: nat) -> u8 {
    if i < p.len() {
        p[i as int]
    } else {
        0
    }
}

/// The first `n` bytes of a packet.
spec fn padded(p: Seq<u8>, n: nat) -> Seq<u8> {
    Seq::new(n, |i: int| byte_at(p, i as nat))
}

/// What a decoder has taken in after `m` bytes have left the range.
spec fn code(p: Seq<u8>, m: nat) -> int {
    number(padded(p, m + 4)) / 2
}

/// One more byte taken in.
proof fn lemma_code(p: Seq<u8>, m: nat)
    ensures
        ({
            let sym = (byte_at(p, m + 3) * 256 + byte_at(p, m + 4)) / 2 % 256;
            code(p, m + 1) == code(p, m) * 256 + sym
        }),
        code(p, m) == code(p, m + 1) / 256,
        code(p, m) >= 0,
{
    let n = number(padded(p, m + 4));
    let next = byte_at(p, m + 4);
    let last = byte_at(p, m + 3);
    assert(padded(p, m + 5) =~= padded(p, m + 4).push(next));
    lemma_number_pushed(padded(p, m + 4), next);
    assert(padded(p, m + 4) =~= padded(p, m + 3).push(last));
    lemma_number_pushed(padded(p, m + 3), last);
    lemma_number_joined(Seq::empty(), padded(p, m + 3));
    assert(number(Seq::<u8>::empty()) == 0);
    assert(n % 2 == last % 2);
}

/// The code value of a packet lies in the range of an encoder.
spec fn front_holds(e: EncState, p: Seq<u8>) -> bool {
    low(e) <= code(p, emitted(e).len()) < low(e) + e.rng
}

/// A decoder stands where an encoder stood.
spec fn front_synced(e: EncState, d: EcDec<'_>, p: Seq<u8>) -> bool {
    let m = emitted(e).len();
    &&& d.buf@ == p
    &&& d.rng == e.rng
    &&& d.val == low(e) + e.rng - 1 - code(p, m)
    &&& d.offs == (if m + 4 < p.len() { m + 4 } else { p.len() })
    &&& d.rem == byte_at(p, m + 3)
    &&& d.nbits_total == e.nbits_total
}

/// Parts of a decoder that renormalisation leaves alone.
spec fn same_window(a: EcDec<'_>, b: EcDec<'_>) -> bool {
    &&& a.buf == b.buf
    &&& a.end_offs == b.end_offs
    &&& a.end_window == b.end_window
    &&& a.nend_bits == b.nend_bits
}

/// An overflow is never forgotten by a run.
proof fn lemma_run_sticky(e: EncState, byte: u8)
    requires
        e.error,
    ensures
        e.put_run(byte).error,
    decreases e.ext,
{
    if e.ext > 0 {
        lemma_run_sticky(EncState { ext: (e.ext - 1) as u64, ..e.put_front(byte) }, byte);
    }
}

/// An overflow is never forgotten by a carry.
proof fn lemma_carry_sticky(e: EncState, c: u32)
    requires
        e.error,
    ensures
        e.carried(c).error,
{
    if c != 255 {
        let carry = c / 256;
        let flushed = match e.rem {
            Some(r) => e.put_front((r + carry) as u8),
            None => e,
        };
        lemma_run_sticky(flushed, ((255 + carry) % 256) as u8);
    }
}

/// An overflow is never forgotten by renormalisation.
proof fn lemma_renorm_sticky(e: EncState)
    requires
        e.error,
    ensures
        e.renormalised().error,
    decreases e.headroom(),
{
    if !(e.rng == 0 || e.rng > CODE_BOTTOM) {
        lemma_carry_sticky(e, e.val / CODE_BOTTOM);
        lemma_renorm_sticky(e.shift_out());
    }
}

/// An overflow is never forgotten by the raw-bit window.
proof fn lemma_flush_sticky(e: EncState)
    requires
        e.error,
    ensures
        e.window_flushed().error,
    decreases e.nend_bits,
{
    if e.nend_bits >= 8 {
        lemma_flush_sticky(
            EncState {
                end_window: e.end_window >> 8u32,
                nend_bits: (e.nend_bits - 8) as u32,
                ..e.put_back((e.end_window & 255) as u8)
            },
        );
    }
}

/// An overflow is never forgotten by a symbol.
pub proof fn lemma_sticky(e: EncState, s: Symbol)
    requires
        e.error,
    ensures
        written(e, s).error,
{
    match s {
        Symbol::Span { fl, fh, ft } => {
            lemma_coded_sticky(e, fl, fh, ft);
        },
        Symbol::Flag { bit, logp } => {
            let s = e.rng as int / pow2(logp as nat) as int;
            lemma_renorm_sticky(
                EncState { val: (e.val + e.rng - s) as u32, rng: s as u32, ..e },
            );
            lemma_renorm_sticky(EncState { rng: (e.rng - s) as u32, ..e });
        },
        Symbol::Raw { value, bits } => {
            lemma_flush_sticky(e);
        },
        Symbol::Count { value, total } => {
            let ftb = bit_length((total - 1) as nat);
            if ftb > 8 {
                let bits = (ftb - 8) as u32;
                let p = pow2(bits as nat) as int;
                let head = value as int / p;
                lemma_coded_sticky(e, head, head + 1, (total - 1) / p + 1);
                lemma_flush_sticky(e.coded(head, head + 1, (total - 1) / p + 1));
            } else {
                lemma_coded_sticky(e, value as int, value + 1, total as int);
            }
        },
    }
}

/// An overflow is never forgotten by a coded interval.
proof fn lemma_coded_sticky(e: EncState, fl: int, fh: int, ft: int)
    requires
        e.error,
    ensures
        e.coded(fl, fh, ft).error,
{
    let r = e.rng as int / ft;
    lemma_renorm_sticky(
        EncState {
            val: (e.val + e.rng - r * (ft - fl)) as u32,
            rng: (r * (fh - fl)) as u32,
            ..e
        },
    );
    lemma_renorm_sticky(EncState { rng: (e.rng - r * (ft - fh)) as u32, ..e });
}

/// A renormalisation step makes everything 256 times as large.
proof fn lemma_shift(e: EncState)
    requires
        front_ok(e),
        e.rng <= CODE_BOTTOM,
        e.ext < u64::MAX,
        !e.shift_out().error,
    ensures
        ({
            let f = e.shift_out();
            &&& front_ok(f)
            &&& same_back(e, f)
            &&& f.rng == e.rng * 256
            &&& low(f) == low(e) * 256
            &&& emitted(f).len() == emitted(e).len() + 1
            &&& f.ext <= e.ext + 1
            &&& f.nbits_total == e.nbits_total.wrapping_add(8)
        }),
{
    let c = e.val / CODE_BOTTOM;
    lemma_carried(e, c);
    let f = e.shift_out();
    let g = e.carried(c);
    assert(emitted(f) == emitted(g));
}

/// If the code value lies in the range behind a step, it did before.
proof fn lemma_shift_holds(e: EncState, p: Seq<u8>)
    requires
        front_ok(e),
        e.rng <= CODE_BOTTOM,
        e.ext < u64::MAX,
        !e.shift_out().error,
        front_holds(e.shift_out(), p),
    ensures
        front_holds(e, p),
{
    lemma_shift(e);
    lemma_code(p, emitted(e).len());
}

/// The decoder follows a renormalisation step.
proof fn lemma_shift_synced(e: EncState, d: EcDec<'_>, p: Seq<u8>)
    requires
        front_ok(e),
        e.rng <= CODE_BOTTOM,
        e.ext < u64::MAX,
        !e.shift_out().error,
        front_holds(e, p),
        front_synced(e, d, p),
    ensures
        front_synced(e.shift_out(), d.shift_in(), p),
        same_window(d, d.shift_in()),
{
    lemma_shift(e);
    let m = emitted(e).len();
    lemma_code(p, m);
    assert(d.buf@.len() == d.buf.len());
}

/// Steps that a range needs to be large again.
spec fn steps_needed(rng: u32) -> int {
    if rng > CODE_BOTTOM {
        0
    } else if rng > 0x8000 {
        1
    } else if rng > 0x80 {
        2
    } else {
        3
    }
}

/// Renormalisation keeps the encoder in order.
proof fn lemma_renorm(e: EncState)
    requires
        front_ok(e),
        e.ext + steps_needed(e.rng) <= u64::MAX,
        !e.renormalised().error,
    ensures
        ({
            let f = e.renormalised();
            &&& front_ok(f)
            &&& f.wf()
            &&& same_back(e, f)
            &&& f.ext <= e.ext + steps_needed(e.rng)
        }),
    decreases e.headroom(),
{
    if e.rng <= CODE_BOTTOM {
        if e.shift_out().error {
            lemma_renorm_sticky(e.shift_out());
        }
        lemma_shift(e);
        lemma_renorm(e.shift_out());
    }
}

/// If the code value lies in the renormalised range, it did before.
proof fn lemma_renorm_holds(e: EncState, p: Seq<u8>)
    requires
        front_ok(e),
        e.ext + steps_needed(e.rng) <= u64::MAX,
        !e.renormalised().error,
        front_holds(e.renormalised(), p),
    ensures
        front_holds(e, p),
    decreases e.headroom(),
{
    if e.rng <= CODE_BOTTOM {
        if e.shift_out().error {
            lemma_renorm_sticky(e.shift_out());
        }
        lemma_shift(e);
        lemma_renorm_holds(e.shift_out(), p);
        lemma_shift_holds(e, p);
    }
}

/// The decoder follows a renormalisation.
proof fn lemma_renorm_synced(e: EncState, d: EcDec<'_>, p: Seq<u8>)
    requires
        front_ok(e),
        e.ext + steps_needed(e.rng) <= u64::MAX,
        !e.renormalised().error,
        front_holds(e.renormalised(), p),
        front_synced(e, d, p),
    ensures
        front_synced(e.renormalised(), d.renormalised(), p),
        same_window(d, d.renormalised()),
    decreases e.headroom(),
{
    if e.rng <= CODE_BOTTOM {
        if e.shift_out().error {
            lemma_renorm_sticky(e.shift_out());
        }
        lemma_shift(e);
        lemma_renorm_holds(e, p);
        lemma_shift_synced(e, d, p);
        lemma_renorm_synced(e.shift_out(), d.shift_in(), p);
    }
}

/// The range after an interval was picked and before it is renormalised.
spec fn narrowed(e: EncState, fl: int, fh: int, ft: int) -> EncState {
    let r = e.rng as int / ft;
    if fl > 0 {
        EncState {
            val: (e.val + e.rng - r * (ft - fl)) as u32,
            rng: (r * (fh - fl)) as u32,
            ..e
        }
    } else {
        EncState { rng: (e.rng - r * (ft - fh)) as u32, ..e }
    }
}

/// An interval lies inside the range.
proof fn lemma_narrowed(e: EncState, fl: int, fh: int, ft: int)
    requires
        front_ok(e),
        e.wf(),
        0 <= fl < fh <= ft <= CODE_BOTTOM,
    ensures
        ({
            let f = narrowed(e, fl, fh, ft);
            let r = e.rng as int / ft;
            &&& front_ok(f)
            &&& same_back(e, f)
            &&& r > 0
            &&& f.ext == e.ext
            &&& emitted(f) == emitted(e)
            &&& f.nbits_total == e.nbits_total
            &&& low(e) <= low(f)
            &&& low(f) + f.rng == low(e) + e.rng - r * (ft - fh)
            &&& fl > 0 ==> low(f) == low(e) + e.rng - r * (ft - fl)
            &&& fl == 0 ==> low(f) == low(e)
            &&& e.coded(fl, fh, ft) == f.renormalised()
        }),
{
    let r = e.rng as int / ft;
    vstd::arithmetic::div_mod::lemma_div_non_zero(e.rng as int, ft);
    vstd::arithmetic::div_mod::lemma_fundamental_div_mod(e.rng as int, ft);
    vstd::arithmetic::div_mod::lemma_mod_bound(e.rng as int, ft);
    assert(0 <= r * (ft - fl) <= ft * r) by (nonlinear_arith)
        requires
            r > 0,
            0 <= ft - fl <= ft,
    ;
    assert(0 <= r * (ft - fh) && r * (ft - fh) + r * (fh - fl) == r * (ft - fl)) by (
    nonlinear_arith)
        requires
            r > 0,
            0 <= ft - fh,
    ;
    assert(0 < r * (fh - fl)) by (nonlinear_arith)
        requires
            r > 0,
            0 < fh - fl,
    ;
    let f = narrowed(e, fl, fh, ft);
    assert(emitted(f) == emitted(e));
}

/// Coding an interval keeps the encoder in order.
proof fn lemma_span(e: EncState, fl: int, fh: int, ft: int)
    requires
        front_ok(e),
        e.wf(),
        0 <= fl < fh <= ft <= CODE_BOTTOM,
        e.ext <= u64::MAX - 3,
        !e.coded(fl, fh, ft).error,
    ensures
        ({
            let f = e.coded(fl, fh, ft);
            &&& front_ok(f)
            &&& f.wf()
            &&& same_back(e, f)
            &&& f.ext <= e.ext + 3
        }),
{
    lemma_narrowed(e, fl, fh, ft);
    lemma_renorm(narrowed(e, fl, fh, ft));
}

/// If the code value lies in an interval, it lies in the range around it.
proof fn lemma_span_holds(e: EncState, fl: int, fh: int, ft: int, p: Seq<u8>)
    requires
        front_ok(e),
        e.wf(),
        0 <= fl < fh <= ft <= CODE_BOTTOM,
        e.ext <= u64::MAX - 3,
        !e.coded(fl, fh, ft).error,
        front_holds(e.coded(fl, fh, ft), p),
    ensures
        front_holds(e, p),
        front_holds(narrowed(e, fl, fh, ft), p),
{
    lemma_narrowed(e, fl, fh, ft);
    lemma_renorm_holds(narrowed(e, fl, fh, ft), p);
    let r = e.rng as int / ft;
    assert(0 <= r * (ft - fh)) by (nonlinear_arith)
        requires
            r > 0,
            0 <= ft - fh,
    ;
}

/// The decoder finds an interval and follows.
proof fn lemma_span_synced(e: EncState, d: EcDec<'_>, fl: int, fh: int, ft: int, p: Seq<u8>)
    requires
        front_ok(e),
        e.wf(),
        0 <= fl < fh <= ft <= CODE_BOTTOM,
        e.ext <= u64::MAX - 3,
        !e.coded(fl, fh, ft).error,
        front_holds(e.coded(fl, fh, ft), p),
        front_synced(e, d, p),
    ensures
        fl <= d.slot(ft) < fh,
        front_synced(e.coded(fl, fh, ft), d.consumed(fl, fh, ft), p),
        same_window(d, d.consumed(fl, fh, ft)),
{
    let f = narrowed(e, fl, fh, ft);
    let r = e.rng as int / ft;
    let v = d.val as int;
    lemma_narrowed(e, fl, fh, ft);
    lemma_span_holds(e, fl, fh, ft, p);
    let a = ft - fh;
    let b = ft - fl;
    assert(0 <= r * a && r * b - r * a == r * (fh - fl)) by (nonlinear_arith)
        requires
            r > 0,
            0 <= a,
            b - a == fh - fl,
    ;
    assert(r * a <= v);
    let q = v / r;
    vstd::arithmetic::div_mod::lemma_fundamental_div_mod(v, r);
    vstd::arithmetic::div_mod::lemma_mod_bound(v, r);
    assert(q >= a) by (nonlinear_arith)
        requires
            r * q + r > v,
            v >= r * a,
            r > 0,
    ;
    if fl > 0 {
        assert(v < r * b);
        assert(q < b) by (nonlinear_arith)
            requires
                r * q <= v,
                v < r * b,
                r > 0,
        ;
    }
    let g = EcDec {
        val: (d.val - r * a) as u32,
        rng: (if fl > 0 {
            r * (fh - fl)
        } else {
            d.rng - r * a
        }) as u32,
        ..d
    };
    assert(front_synced(f, g, p));
    lemma_renorm_synced(f, g, p);
}

/// A flag is an interval.
proof fn lemma_flag(e: EncState, d: EcDec<'_>, bit: bool, logp: u32)
    requires
        1 <= logp <= 16,
        e.wf(),
        d.rng == e.rng,
        d.val < d.rng,
    ensures
        ({
            let ft = pow2(logp as nat) as int;
            let fl = if bit { ft - 1 } else { 0 };
            let fh = if bit { ft } else { ft - 1 };
            &&& 0 <= fl < fh <= ft <= CODE_BOTTOM
            &&& e.bit_coded(bit, logp) == e.coded(fl, fh, ft)
            &&& fl <= d.slot(ft) < fh ==> d.bit(logp) == (d.consumed(fl, fh, ft), bit)
        }),
{
    lemma2_to64();
    let ft = pow2(logp as nat) as int;
    if logp < 16 {
        lemma_pow2_strictly_increases(logp as nat, 16);
    }
    if logp > 1 {
        lemma_pow2_strictly_increases(1, logp as nat);
    }
    let s = e.rng as int / ft;
    vstd::arithmetic::div_mod::lemma_div_non_zero(e.rng as int, ft);
    assert(s * (ft - (ft - 1)) == s && s * (ft - ft) == 0 && s * (ft - 1 - 0) == s * (ft - 1))
        by (nonlinear_arith);
    let v = d.val as int;
    vstd::arithmetic::div_mod::lemma_fundamental_div_mod(v, s);
    vstd::arithmetic::div_mod::lemma_mod_bound(v, s);
    let q = v / s;
    if v < s {
        assert(q < 1) by (nonlinear_arith)
            requires
                s * q <= v,
                v < s,
                s > 0,
        ;
    } else {
        assert(q >= 1) by (nonlinear_arith)
            requires
                s * q + s > v,
                v >= s,
                s > 0,
        ;
    }
    vstd::arithmetic::div_mod::lemma_div_pos_is_pos(v, s);
}

/// The last `n` bytes as the digits of a number, the last one the lowest.
spec fn back(p: Seq<u8>, n: nat) -> int
    decreases n,
{
    if n == 0 {
        0
    } else {
        back(p, (n - 1) as nat) + p[p.len() - n] * bytes((n - 1) as nat)
    }
}

/// The number that `n` bytes make is below that of one more.
proof fn lemma_back_bound(p: Seq<u8>, n: nat)
    ensures
        0 <= back(p, n) < bytes(n),
    decreases n,
{
    lemma_bytes(n);
    if n > 0 {
        let m = (n - 1) as nat;
        lemma_back_bound(p, m);
        lemma_bytes(m);
        let b = p[p.len() - n] as int;
        let q = bytes(m);
        assert(0 <= b * q <= 255 * q) by (nonlinear_arith)
            requires
                0 <= b <= 255,
                q >= 1,
        ;
    }
}

/// Only the last bytes matter.
proof fn lemma_back_same(a: Seq<u8>, b: Seq<u8>, n: nat)
    requires
        a.len() == b.len(),
        n <= a.len(),
        forall|i: int| a.len() - n <= i < a.len() ==> a[i] == b[i],
    ensures
        back(a, n) == back(b, n),
    decreases n,
{
    if n > 0 {
        lemma_back_same(a, b, (n - 1) as nat);
    }
}

/// One digit of the number that the last `n` bytes make.
proof fn lemma_back_digit(p: Seq<u8>, v: nat, n: nat)
    requires
        v < n <= p.len(),
    ensures
        (back(p, n) / bytes(v)) % 256 == p[p.len() - 1 - v],
    decreases n,
{
    lemma_bytes(v);
    lemma_back_bound(p, v);
    let q = bytes(v);
    let m = (n - 1) as nat;
    if m == v {
        let b = p[p.len() - n] as int;
        vstd::arithmetic::div_mod::lemma_fundamental_div_mod_converse(
            back(p, n),
            q,
            b,
            back(p, v),
        );
        assert(back(p, n) / q == b);
    } else {
        lemma_back_digit(p, v, m);
        let k = (m - v - 1) as nat;
        lemma_pow2_adds(8 * v, 8 * (k + 1));
        assert(8 * v + 8 * (k + 1) == 8 * m);
        lemma_bytes(k);
        let b = p[p.len() - n] as int;
        let x = back(p, m);
        let y = b * (bytes(k) * 256);
        assert(b * (q * (bytes(k) * 256)) == q * y) by (nonlinear_arith)
            requires
                y == b * (bytes(k) * 256),
        ;
        vstd::arithmetic::div_mod::lemma_hoist_over_denominator(x, y, q as nat);
        assert(y == 256 * (b * bytes(k))) by (nonlinear_arith)
            requires
                y == b * (bytes(k) * 256),
        ;
        assert(back(p, n) == x + y * q) by {
            assert(bytes(m) == q * (bytes(k) * 256));
            assert(q * y == y * q) by (nonlinear_arith);
        }
        assert(back(p, n) / q == x / q + y);
        vstd::arithmetic::div_mod::lemma_mod_multiples_vanish(b * bytes(k), x / q, 256);
    }
}

/// A digit of the number that a whole packet makes; zero behind the packet.
proof fn lemma_packet_digit(p: Seq<u8>, v: nat)
    ensures
        (back(p, p.len()) / bytes(v)) % 256 == (if v < p.len() {
            p[p.len() - 1 - v] as int
        } else {
            0
        }),
{
    if v < p.len() {
        lemma_back_digit(p, v, p.len());
    } else {
        lemma_back_bound(p, p.len());
        if p.len() < v {
            lemma_pow2_strictly_increases(8 * p.len(), 8 * v);
        }
        vstd::arithmetic::div_mod::lemma_basic_div(back(p, p.len()), bytes(v));
    }
}

/// The raw bits written so far, the first one the lowest.
spec fn raw_number(e: EncState) -> int {
    back(e.buf, e.end_offs as nat) + e.end_window * bytes(e.end_offs as nat)
}

/// How many raw bits were written so far.
spec fn raw_count(e: EncState) -> nat {
    (8 * e.end_offs + e.nend_bits) as nat
}

/// The window holds no more bits than it says.
spec fn back_ok(e: EncState) -> bool {
    &&& e.in_bounds()
    &&& e.end_window < pow2(e.nend_bits as nat)
}

/// The raw bits fit their number.
proof fn lemma_raw_number(e: EncState)
    requires
        back_ok(e),
    ensures
        0 <= raw_number(e) < pow2(raw_count(e)),
        pow2(raw_count(e)) == bytes(e.end_offs as nat) * pow2(e.nend_bits as nat),
{
    let n = e.end_offs as nat;
    lemma_back_bound(e.buf, n);
    lemma_bytes(n);
    lemma_pow2_adds(8 * n, e.nend_bits as nat);
    let (w, b, q) = (e.end_window as int, bytes(n), pow2(e.nend_bits as nat) as int);
    assert(w * b + b <= b * q && 0 <= w * b) by (nonlinear_arith)
        requires
            0 <= w,
            w + 1 <= q,
            b >= 1,
    ;
}

/// The packet has the raw bits of an encoder at its back.
spec fn back_holds(e: EncState, p: Seq<u8>) -> bool {
    &&& p.len() == e.buf.len()
    &&& back(p, p.len()) % (pow2(raw_count(e)) as int) == raw_number(e)
}

/// Two states that differ at most in what was written at the back.
spec fn same_front(a: EncState, b: EncState) -> bool {
    &&& a.buf.len() == b.buf.len()
    &&& a.offs == b.offs
    &&& a.buf.take(a.offs) == b.buf.take(b.offs)
    &&& a.rem == b.rem
    &&& a.ext == b.ext
    &&& a.val == b.val
    &&& a.rng == b.rng
}

/// Writing out the window keeps the raw bits.
proof fn lemma_flush(e: EncState)
    requires
        back_ok(e),
        !e.window_flushed().error,
    ensures
        ({
            let f = e.window_flushed();
            &&& !e.error
            &&& back_ok(f)
            &&& same_front(e, f)
            &&& f.nend_bits < 8
            &&& f.nbits_total == e.nbits_total
            &&& raw_count(f) == raw_count(e)
            &&& raw_number(f) == raw_number(e)
        }),
    decreases e.nend_bits,
{
    if e.nend_bits >= 8 {
        let w = e.end_window;
        let g = EncState {
            end_window: w >> 8u32,
            nend_bits: (e.nend_bits - 8) as u32,
            ..e.put_back((w & 255) as u8)
        };
        assert(e.window_flushed() == g.window_flushed());
        if g.error {
            lemma_flush_sticky(g);
        }
        assert(w >> 8u32 == w / 256 && w & 255 == w % 256) by (bit_vector);
        lemma_pow2_adds((e.nend_bits - 8) as nat, 8);
        lemma2_to64();
        let q = pow2((e.nend_bits - 8) as nat) as int;
        assert(w as int / 256 < q) by (nonlinear_arith)
            requires
                w < q * 256,
                w >= 0,
        ;
        let n = e.end_offs as nat;
        lemma_bytes(n);
        assert(g.end_offs == e.end_offs + 1);
        assert(g.buf == e.buf.update(e.buf.len() - 1 - n, (w & 255) as u8));
        lemma_back_same(e.buf, g.buf, n);
        let b = bytes(n);
        let (h, l) = (w as int / 256, w as int % 256);
        assert(w as int * b == l * b + h * (b * 256)) by (nonlinear_arith)
            requires
                w as int == 256 * h + l,
        ;
        assert(back(g.buf, n + 1) == back(g.buf, n) + l * b);
        assert(raw_number(g) == raw_number(e));
        lemma_flush(g);
        assert(g.buf.take(g.offs) =~= e.buf.take(e.offs));
    }
}

/// Bits put above others are added.
proof fn lemma_or_is_sum(w: u32, v: u32, n: u32, bits: u32)
    requires
        n + bits <= 32,
        bits >= 1,
        w < pow2(n as nat),
        v < pow2(bits as nat),
    ensures
        (w | (v << n)) as int == w + v * pow2(n as nat),
        v * pow2(n as nat) + pow2(n as nat) <= pow2((n + bits) as nat),
{
    lemma_pow2_adds(n as nat, bits as nat);
    lemma2_to64();
    if n + bits < 32 {
        lemma_pow2_strictly_increases((n + bits) as nat, 32);
    }
    lemma_pow2_pos(n as nat);
    let (x, y, z) = (v as int, pow2(n as nat) as int, pow2(bits as nat) as int);
    assert(x * y + y <= y * z) by (nonlinear_arith)
        requires
            x + 1 <= z,
            y >= 1,
    ;
    vstd::bits::lemma_u32_shl_is_mul(v, n);
    if n < 32 {
        assert(pow2(n as nat) <= u32::MAX) by {
            if n < 31 {
                lemma_pow2_strictly_increases(n as nat, 31);
            }
        }
        vstd::bits::lemma_u32_shl_is_mul(1, n);
        let t = v << n;
        assert((w | t) == w + t) by (bit_vector)
            requires
                n < 32,
                w < (1u32 << n),
                t == v << n,
        ;
    }
}

/// Raw bits go above those written before.
proof fn lemma_raw(e: EncState, value: u32, bits: u32)
    requires
        back_ok(e),
        1 <= bits <= MAX_RAW_BITS,
        value < pow2(bits as nat),
        !e.raw_coded(value, bits).error,
    ensures
        ({
            let f = e.raw_coded(value, bits);
            &&& !e.error
            &&& back_ok(f)
            &&& same_front(e, f)
            &&& f.nbits_total == e.nbits_total.wrapping_add(bits as i32)
            &&& raw_count(f) == raw_count(e) + bits
            &&& raw_number(f) == raw_number(e) + value * pow2(raw_count(e))
        }),
{
    let g = if e.nend_bits + bits > 32 { e.window_flushed() } else { e };
    if e.nend_bits + bits > 32 {
        lemma_flush(e);
    }
    let f = e.raw_coded(value, bits);
    let n = g.nend_bits;
    lemma_or_is_sum(g.end_window, value, n, bits);
    lemma_raw_number(g);
    let (w, v, b, q) = (
        g.end_window as int,
        value as int,
        bytes(g.end_offs as nat),
        pow2(n as nat) as int,
    );
    assert((w + v * q) * b == w * b + v * (b * q)) by (nonlinear_arith);
    assert(f.buf == g.buf);
}

/// What holds of the back of a packet behind raw bits held before, and the
/// packet has the bits in between.
proof fn lemma_raw_holds(e: EncState, value: u32, bits: u32, p: Seq<u8>)
    requires
        back_ok(e),
        1 <= bits <= MAX_RAW_BITS,
        value < pow2(bits as nat),
        !e.raw_coded(value, bits).error,
        back_holds(e.raw_coded(value, bits), p),
    ensures
        back_holds(e, p),
        (back(p, p.len()) / (pow2(raw_count(e)) as int)) % (pow2(bits as nat) as int) == value,
{
    lemma_raw(e, value, bits);
    lemma_raw_number(e);
    let f = e.raw_coded(value, bits);
    let b = back(p, p.len());
    let (x, y) = (pow2(raw_count(e)) as int, pow2(bits as nat) as int);
    lemma_pow2_adds(raw_count(e), bits as nat);
    lemma_pow2_pos(raw_count(e));
    lemma_pow2_pos(bits as nat);
    lemma_back_bound(p, p.len());
    vstd::arithmetic::div_mod::lemma_mod_breakdown(b, x, y);
    let q = (b / x) % y;
    let r = b % x;
    vstd::arithmetic::div_mod::lemma_mod_bound(b, x);
    vstd::arithmetic::div_mod::lemma_mod_bound(b / x, y);
    let v = value as int;
    let n = raw_number(e);
    assert(x * q + r == n + v * x);
    assert(q == v && r == n) by (nonlinear_arith)
        requires
            x * q + r == n + v * x,
            0 <= r < x,
            0 <= n < x,
    ;
}

/// A decoder has handed out `u` raw bits.
spec fn back_at(d: EcDec<'_>, p: Seq<u8>, u: nat) -> bool {
    let taken = (u + d.nend_bits) as int / 8;
    &&& d.buf@ == p
    &&& d.nend_bits <= 32
    &&& (u + d.nend_bits) % 8 == 0
    &&& d.end_offs == (if taken < p.len() { taken } else { p.len() as int })
    &&& d.end_window == (back(p, p.len()) / (pow2(u) as int)) % (pow2(d.nend_bits as nat) as int)
}

/// Parts of a decoder that raw bits leave alone.
spec fn same_range(a: EcDec<'_>, b: EcDec<'_>) -> bool {
    &&& a.buf == b.buf
    &&& a.offs == b.offs
    &&& a.rng == b.rng
    &&& a.val == b.val
    &&& a.rem == b.rem
}

/// Filling the window takes the next bits of the packet.
proof fn lemma_refill(d: EcDec<'_>, p: Seq<u8>, u: nat)
    requires
        back_at(d, p, u),
    ensures
        back_at(d.refilled(), p, u),
        same_range(d, d.refilled()),
        d.refilled().nbits_total == d.nbits_total,
        24 < d.refilled().nend_bits <= 32,
    decreases 32 - d.nend_bits,
{
    if d.nend_bits <= 24 {
        let n = d.nend_bits;
        let v = ((u + n) / 8) as nat;
        let g = EcDec {
            end_offs: if d.end_offs < d.buf@.len() {
                (d.end_offs + 1) as usize
            } else {
                d.end_offs
            },
            end_window: d.end_window | (d.back_byte() << n),
            nend_bits: (n + 8) as u32,
            ..d
        };
        let b = back(p, p.len());
        let byte = d.back_byte();
        assert(d.buf@.len() == d.buf.len());
        lemma_packet_digit(p, v);
        assert(byte as int == (b / bytes(v)) % 256);
        let x = b / (pow2(u) as int);
        let y = pow2(n as nat) as int;
        lemma_pow2_pos(u);
        lemma_pow2_pos(n as nat);
        lemma_pow2_pos((n + 8) as nat);
        lemma_pow2_adds(u, n as nat);
        lemma_pow2_adds(n as nat, 8);
        lemma2_to64();
        lemma_back_bound(p, p.len());
        vstd::arithmetic::div_mod::lemma_div_denominator(b, pow2(u) as int, y);
        assert(8 * v == u + n);
        vstd::arithmetic::div_mod::lemma_mod_breakdown(x, y, 256);
        vstd::arithmetic::div_mod::lemma_mod_bound(x, y);
        lemma_or_is_sum(d.end_window, byte, n, 8);
        assert(y * (byte as int) == byte as int * y) by (nonlinear_arith);
        assert(g.end_window as int == x % (pow2((n + 8) as nat) as int));
        assert(back_at(g, p, u));
        lemma_refill(g, p, u);
    }
}

/// The decoder reads the next raw bits.
proof fn lemma_raw_read(d: EcDec<'_>, bits: u32, p: Seq<u8>, u: nat)
    requires
        back_at(d, p, u),
        1 <= bits <= MAX_RAW_BITS,
    ensures
        ({
            let (next, value) = d.raw(bits);
            &&& value == (back(p, p.len()) / (pow2(u) as int)) % (pow2(bits as nat) as int)
            &&& back_at(next, p, (u + bits) as nat)
            &&& same_range(d, next)
            &&& next.nbits_total == d.nbits_total.wrapping_add(bits as i32)
        }),
{
    let g = if d.nend_bits < bits { d.refilled() } else { d };
    if d.nend_bits < bits {
        lemma_refill(d, p, u);
    }
    let n = g.nend_bits;
    let k = (n - bits) as nat;
    let w = g.end_window;
    let b = back(p, p.len());
    let x = b / (pow2(u) as int);
    let (y, z) = (pow2(bits as nat) as int, pow2(k) as int);
    lemma2_to64();
    lemma_pow2_pos(u);
    lemma_pow2_pos(bits as nat);
    lemma_pow2_pos(k);
    lemma_pow2_adds(bits as nat, k);
    lemma_pow2_adds(u, bits as nat);
    lemma_back_bound(p, p.len());
    vstd::arithmetic::div_mod::lemma_mod_breakdown(x, y, z);
    vstd::arithmetic::div_mod::lemma_mod_bound(x, y);
    vstd::arithmetic::div_mod::lemma_mod_bound(x / y, z);
    vstd::arithmetic::div_mod::lemma_div_denominator(b, pow2(u) as int, y);
    let q = (x / y) % z;
    let r = x % y;
    vstd::arithmetic::div_mod::lemma_fundamental_div_mod_converse(w as int, y, q, r);
    vstd::bits::lemma_u32_shr_is_div(w, bits);
    lemma_pow2_strictly_increases(bits as nat, 31);
    vstd::bits::lemma_u32_shl_is_mul(1, bits);
    let mask = ((1u32 << bits) - 1) as u32;
    vstd::bits::lemma_u32_low_bits_mask_is_mod(w, bits as nat);
    assert(mask == vstd::bits::low_bits_mask(bits as nat));
    assert((u + n) == (u + bits) + k);
}

/// An encoder in order.
pub closed spec fn enc_ok(e: EncState) -> bool {
    front_ok(e) && e.wf() && back_ok(e)
}

/// A packet agrees with an encoder.
pub closed spec fn holds(e: EncState, p: Seq<u8>) -> bool {
    front_holds(e, p) && back_holds(e, p)
}

/// A decoder stands where an encoder stood.
pub closed spec fn synced(e: EncState, d: EcDec<'_>, p: Seq<u8>) -> bool {
    front_synced(e, d, p) && back_at(d, p, raw_count(e))
}

/// The back of the packet does not depend on the front.
proof fn lemma_same_back(a: EncState, b: EncState)
    requires
        same_back(a, b),
        a.in_bounds(),
    ensures
        raw_number(a) == raw_number(b),
        raw_count(a) == raw_count(b),
{
    lemma_back_same(a.buf, b.buf, a.end_offs as nat);
}

/// The range does not depend on the back of the packet.
proof fn lemma_same_front(a: EncState, b: EncState)
    requires
        same_front(a, b),
    ensures
        emitted(a) == emitted(b),
        low(a) == low(b),
        pending(a) == pending(b),
{
}

/// An interval coded and read.
proof fn lemma_span_step(e: EncState, d: EcDec<'_>, fl: int, fh: int, ft: int, p: Seq<u8>)
    requires
        enc_ok(e),
        0 <= fl < fh <= ft <= CODE_BOTTOM,
        e.ext <= u64::MAX - 3,
        !e.coded(fl, fh, ft).error,
    ensures
        enc_ok(e.coded(fl, fh, ft)),
        e.coded(fl, fh, ft).ext <= e.ext + 3,
        holds(e.coded(fl, fh, ft), p) ==> holds(e, p),
        holds(e.coded(fl, fh, ft), p) && synced(e, d, p) ==> {
            &&& fl <= d.slot(ft) < fh
            &&& synced(e.coded(fl, fh, ft), d.consumed(fl, fh, ft), p)
        },
{
    let f = e.coded(fl, fh, ft);
    lemma_span(e, fl, fh, ft);
    lemma_same_back(e, f);
    if holds(f, p) {
        lemma_span_holds(e, fl, fh, ft, p);
        if synced(e, d, p) {
            lemma_span_synced(e, d, fl, fh, ft, p);
        }
    }
}

/// Raw bits coded and read.
proof fn lemma_raw_step(e: EncState, d: EcDec<'_>, value: u32, bits: u32, p: Seq<u8>)
    requires
        enc_ok(e),
        1 <= bits <= MAX_RAW_BITS,
        value < pow2(bits as nat),
        !e.raw_coded(value, bits).error,
    ensures
        enc_ok(e.raw_coded(value, bits)),
        e.raw_coded(value, bits).ext == e.ext,
        holds(e.raw_coded(value, bits), p) ==> holds(e, p),
        holds(e.raw_coded(value, bits), p) && synced(e, d, p) ==> {
            &&& d.raw(bits).1 == value
            &&& synced(e.raw_coded(value, bits), d.raw(bits).0, p)
        },
{
    let f = e.raw_coded(value, bits);
    lemma_raw(e, value, bits);
    lemma_same_front(e, f);
    if holds(f, p) {
        lemma_raw_holds(e, value, bits, p);
        if synced(e, d, p) {
            lemma_raw_read(d, bits, p, raw_count(e));
        }
    }
}

/// A value rounded up to a multiple of a power of two.
proof fn lemma_ceiling(v: u32, mask: u32, k: nat)
    requires
        k <= 31,
        mask + 1 == pow2(k),
        v + mask <= u32::MAX,
    ensures
        ({
            let end = v.wrapping_add(mask) & !mask;
            &&& v <= end <= v + mask
            &&& end as int % (pow2(k) as int) == 0
            &&& (end | mask) as int == end + mask
        }),
{
    let x = v.wrapping_add(mask);
    let end = x & !mask;
    assert(end == x - (x & mask) && (end & mask) == 0) by (bit_vector)
        requires
            end == x & !mask,
    ;
    assert((end | mask) == end + mask) by (bit_vector)
        requires
            (end & mask) == 0,
    ;
    vstd::bits::lemma_u32_low_bits_mask_is_mod(x, k);
    vstd::bits::lemma_u32_low_bits_mask_is_mod(end, k);
    assert(mask == vstd::bits::low_bits_mask(k));
}

/// The final bits of the low end name a value in the range, whatever follows.
#[verifier::spinoff_prover]
proof fn lemma_final_bits(e: EncState)
    requires
        e.wf(),
    ensures
        ({
            let (l, end) = e.final_bits();
            &&& 0 <= l <= 9
            &&& l == 0 ==> end == 0
            &&& e.val <= end
            &&& end + pow2((31 - l) as nat) <= e.val + e.rng
            &&& end as int % (pow2((31 - l) as nat) as int) == 0
        }),
{
    lemma2_to64();
    let bits = bit_length(e.rng as nat);
    lemma_bit_length(e.rng as nat);
    crate::math::lemma_bit_length_bound(e.rng as nat, 32);
    if bits < 24 {
        lemma_pow2_strictly_increases(bits, 24);
    }
    let l = (32 - bits) as u32;
    let k = (31 - l) as u32;
    let mask = 0x7fff_ffffu32 >> l;
    assert(mask + 1 == (1u32 << k)) by (bit_vector)
        requires
            l <= 8,
            k == 31 - l,
            mask == 0x7fff_ffffu32 >> l,
    ;
    if k < 31 {
        lemma_pow2_strictly_increases(k as nat, 31);
    }
    vstd::bits::lemma_u32_shl_is_mul(1, k);
    assert(pow2(k as nat) <= e.rng) by {
        assert((bits - 1) as nat == k as nat);
    }
    lemma_ceiling(e.val, mask, k as nat);
    let end = e.val.wrapping_add(mask) & !mask;
    if (end | mask) >= e.val.wrapping_add(e.rng) {
        let finer = mask >> 1u32;
        let j = (k - 1) as u32;
        assert(finer + 1 == (1u32 << j)) by (bit_vector)
            requires
                l <= 8,
                j == 30 - l,
                mask == 0x7fff_ffffu32 >> l,
                finer == mask >> 1u32,
        ;
        lemma_pow2_strictly_increases(j as nat, 31);
        vstd::bits::lemma_u32_shl_is_mul(1, j);
        lemma_pow2_adds(j as nat, 1);
        lemma_ceiling(e.val, finer, j as nat);
        let fine = e.val.wrapping_add(finer) & !finer;
        assert(e.final_bits() == (l + 1, fine));
        assert((31 - (l + 1)) as nat == j as nat);
        assert(1 <= l + 1 <= 9);
        assert(e.val <= fine <= e.val + finer);
        assert(pow2(j as nat) == finer + 1);
        assert(pow2(k as nat) == 2 * pow2(j as nat));
        assert(fine + pow2(j as nat) <= e.val + e.rng);
        assert(fine as int % (pow2(j as nat) as int) == 0);
    } else {
        assert(e.final_bits() == (l as int, end));
        assert((31 - l) as nat == k as nat);
        assert(e.val + e.rng < 0x1_0000_0000);
        assert(pow2(k as nat) == mask + 1);
        assert(e.val <= end);
        assert((end | mask) as int == end + mask);
        assert(end + pow2(k as nat) <= e.val + e.rng);
        assert(end as int % (pow2(k as nat) as int) == 0);
        if l == 0 {
            assert(end < 0x8000_0000);
            assert(end == 0);
        }
    }
}

/// Bytes that the final bits take.
spec fn tail_bytes(l: int) -> int {
    (l + 7) / 8
}

/// The final bits written out.
#[verifier::rlimit(40)]
proof fn lemma_tail(e: EncState)
    requires
        enc_ok(e),
        e.ext <= u64::MAX - 3,
        !e.tail_carried(e.final_bits().1, e.final_bits().0).error,
    ensures
        ({
            let (l, end) = e.final_bits();
            let t = tail_bytes(l);
            let a = e.tail_carried(end, l);
            let n = number(emitted(e));
            &&& a.in_bounds()
            &&& same_back(e, a)
            &&& a.rem is None ==> a.offs == 0
            &&& a.ext <= e.ext + 2
            &&& emitted(a).len() == emitted(e).len() + t
            &&& t == 0 ==> l == 0 && end == 0 && number(emitted(a)) == n
            &&& t == 1 ==> 1 <= l <= 8 && number(emitted(a)) * 0x80_0000 == n * 0x8000_0000 + end
            &&& t == 2 ==> l == 9 && number(emitted(a)) * 0x8000 == n * 0x8000_0000 + end
            &&& 0 <= t <= 2
        }),
{
    lemma2_to64();
    lemma_final_bits(e);
    let (l, end) = e.final_bits();
    let a = e.tail_carried(end, l);
    lemma_pow2_pos((31 - l) as nat);
    if l == 0 {
        assert(a == e);
    } else {
        let c = end / CODE_BOTTOM;
        let rest = (end % CODE_BOTTOM * 256) as u32;
        let g = e.carried(c);
        if brimful(e) {
            assert(end < 0x8000_0000);
        }
        if l <= 8 {
            assert(g.tail_carried(rest, l - 8) == g);
            assert(a == g);
            lemma_carried(e, c);
            lemma_pow2_adds(23, (8 - l) as nat);
            let q = pow2((8 - l) as nat) as int;
            lemma_pow2_pos((8 - l) as nat);
            assert(23 + (8 - l) as nat == (31 - l) as nat);
            vstd::arithmetic::div_mod::lemma_fundamental_div_mod(end as int, 0x80_0000 * q);
            let x = end as int / (0x80_0000 * q);
            assert(end as int == 0x80_0000 * (q * x)) by (nonlinear_arith)
                requires
                    end as int == (0x80_0000 * q) * x,
            ;
            assert(end as int % 0x80_0000 == 0);
        } else {
            let c2 = rest / CODE_BOTTOM;
            let h = g.carried(c2);
            assert(g.tail_carried(rest, l - 8) == h.tail_carried(
                (rest % CODE_BOTTOM * 256) as u32,
                l - 16,
            ));
            assert(a == h);
            if g.error {
                lemma_carry_sticky(g, c2);
            }
            lemma_carried(e, c);
            assert(c2 <= 255);
            lemma_carried(g, c2);
            assert((31 - l) as nat == 22 && pow2(22) == 0x40_0000);
            assert(end as int % 0x40_0000 == 0);
            let r = end % CODE_BOTTOM;
            assert(r == 0 || r == 0x40_0000);
            assert(rest == r * 256);
            assert(c2 * 0x8000 == r);
            assert(c * 0x80_0000 + r == end);
        }
    }
}

/// Low bits put into a byte that has none are added.
proof fn lemma_byte_or(b: u8, w: u8, k: nat)
    requires
        k <= 7,
        b as int % (pow2(k) as int) == 0,
        w < pow2(k),
    ensures
        (b | w) as int == b + w,
{
    lemma2_to64();
    if k < 7 {
        lemma_pow2_strictly_increases(k, 7);
    }
    lemma_pow2_pos(k);
    let m = vstd::bits::low_bits_mask(k) as u8;
    vstd::bits::lemma_u8_low_bits_mask_is_mod(b, k);
    vstd::bits::lemma_u8_low_bits_mask_is_mod(w, k);
    vstd::arithmetic::div_mod::lemma_small_mod(w as nat, pow2(k));
    assert((b | w) == b + w) by (bit_vector)
        requires
            b & m == 0,
            w & m == w,
    ;
}

/// The low digits of the number that a packet makes.
proof fn lemma_back_rest(p: Seq<u8>, v: nat, n: nat)
    requires
        v <= n <= p.len(),
    ensures
        back(p, n) % bytes(v) == back(p, v),
    decreases n,
{
    lemma_bytes(v);
    lemma_back_bound(p, v);
    let q = bytes(v);
    if n == v {
        vstd::arithmetic::div_mod::lemma_small_mod(back(p, v) as nat, q as nat);
    } else {
        let m = (n - 1) as nat;
        lemma_back_rest(p, v, m);
        let k = (m - v) as nat;
        lemma_pow2_adds(8 * v, 8 * k);
        assert(8 * v + 8 * k == 8 * m);
        let b = p[p.len() - n] as int;
        let x = b * bytes(k);
        assert(b * (q * bytes(k)) == q * x) by (nonlinear_arith)
            requires
                x == b * bytes(k),
        ;
        vstd::arithmetic::div_mod::lemma_mod_multiples_vanish(x, back(p, m), q);
    }
}

/// The packet that sealing leaves has the raw bits at its back, and at its
/// front what was written there with the last bits in the place left for them.
#[verifier::rlimit(60)]
#[verifier::spinoff_prover]
proof fn lemma_sealed(c: EncState, spare: u32)
    requires
        back_ok(c),
        !c.error,
        c.nend_bits < 8,
        spare < 8,
        number(c.buf.take(c.offs)) % (pow2(spare as nat) as int) == 0,
        !c.sealed(spare).error,
    ensures
        ({
            let p = c.sealed(spare).buf;
            &&& back_holds(c, p)
            &&& 0 <= number(p.take(c.offs)) - number(c.buf.take(c.offs)) < pow2(spare as nat)
        }),
{
    lemma2_to64();
    let p = c.sealed(spare).buf;
    let len = c.buf.len();
    let n = c.end_offs as nat;
    let k = c.nend_bits as nat;
    let s = spare as nat;
    lemma_pow2_pos(s);
    lemma_bytes(n);
    lemma_raw_number(c);
    assert(p.len() == len);
    let b = back(p, len);
    if k == 0 {
        assert(p.take(c.offs) =~= c.buf.take(c.offs));
        lemma_back_rest(p, n, len);
        lemma_back_same(p, c.buf, n);
        assert(c.end_window == 0);
        assert(raw_count(c) == 8 * n);
        assert(0 * bytes(n) == 0);
        assert(raw_number(c) == back(c.buf, n));
        assert(back_holds(c, p));
        assert(number(p.take(c.offs)) == number(c.buf.take(c.offs)));
    } else {
        let at = len - 1 - c.end_offs;
        let w = c.end_window;
        lemma_pow2_strictly_increases(k, 8);
        lemma_back_same(p, c.buf, n);
        lemma_back_rest(p, n + 1, len);
        lemma_pow2_adds(8 * n + k, (8 - k) as nat);
        let x = pow2(8 * n + k) as int;
        let y = pow2((8 - k) as nat) as int;
        lemma_pow2_pos(8 * n + k);
        lemma_pow2_pos((8 - k) as nat);
        assert(8 * n + k + (8 - k) as nat == 8 * (n + 1));
        assert(b % (x * y) == back(p, n + 1));
        vstd::arithmetic::div_mod::lemma_mod_mod(b, x, y);
        let r = raw_number(c);
        let q = bytes(n);
        assert(back(p, n + 1) == back(p, n) + p[at] * q);
        if c.offs + c.end_offs < len {
            assert(p.take(c.offs) =~= c.buf.take(c.offs));
            assert((0u8 | (w as u8)) == w as u8) by (bit_vector);
            assert(p[at] == w);
            assert(back(p, n + 1) == r);
            vstd::arithmetic::div_mod::lemma_small_mod(r as nat, x as nat);
            assert(number(p.take(c.offs)) == number(c.buf.take(c.offs)));
        } else {
            assert(at == c.offs - 1);
            assert(k <= s);
            let head = c.buf.take(c.offs);
            let old = c.buf[at];
            assert(p[at] == old | (w as u8));
            assert(head.last() == old);
            let z = pow2(s) as int;
            // The last byte has the same low bits as the whole number.
            lemma_pow2_adds(s, (8 - s) as nat);
            lemma_pow2_pos((8 - s) as nat);
            let u = pow2((8 - s) as nat) as int;
            let front = number(head.drop_last());
            assert(front * 256 == z * (front * u)) by (nonlinear_arith)
                requires
                    z * u == 256,
            ;
            vstd::arithmetic::div_mod::lemma_mod_multiples_vanish(front * u, old as int, z);
            assert(old as int % z == 0);
            if k < s {
                lemma_pow2_strictly_increases(k, s);
            }
            lemma_byte_or(old, w as u8, s);
            assert(p[at] as int == old + w);
            let tail = p.take(c.offs);
            assert(tail.drop_last() =~= head.drop_last());
            assert(tail.last() == p[at]);
            // Above the raw bits there are only whole steps of their number.
            lemma_pow2_adds(k, (s - k) as nat);
            let j = pow2((s - k) as nat) as int;
            vstd::arithmetic::div_mod::lemma_fundamental_div_mod(old as int, z);
            let o = old as int / z;
            let kk = pow2(k) as int;
            assert(z == kk * j);
            assert((old + w) * q == w * q + x * (j * o)) by (nonlinear_arith)
                requires
                    old as int == z * o,
                    z == kk * j,
                    x == q * kk,
            ;
            assert(back(p, n + 1) == x * (j * o) + r);
            vstd::arithmetic::div_mod::lemma_mod_multiples_vanish(j * o, r, x);
            vstd::arithmetic::div_mod::lemma_small_mod(r as nat, x as nat);
            assert(number(tail) == number(head) + w);
            assert(w < pow2(s));
        }
        assert(raw_count(c) == 8 * n + k);
        assert(b % x == r);
        assert(back_holds(c, p));
    }
}

/// The number in front of the last bits, whatever stands behind them.
proof fn lemma_final_code(p: Seq<u8>, m: nat, t: nat, num: int)
    requires
        t <= 2,
        m + t <= p.len(),
        num == number(p.take((m + t) as int)),
    ensures
        t == 0 ==> num * 0x8000_0000 <= code(p, m) < num * 0x8000_0000 + 0x8000_0000,
        t == 1 ==> num * 0x80_0000 <= code(p, m) < num * 0x80_0000 + 0x80_0000,
        t == 2 ==> num * 0x8000 <= code(p, m) < num * 0x8000 + 0x8000,
{
    lemma2_to64();
    lemma2_to64_rest();
    let head = p.take((m + t) as int);
    let k = (4 - t) as nat;
    let rest = Seq::new(k, |i: int| byte_at(p, (m + t + i) as nat));
    assert(padded(p, m + 4) =~= head + rest);
    lemma_number_joined(head, rest);
    assert(bytes(4) == 0x1_0000_0000);
    assert(bytes(3) == 0x100_0000);
    assert(bytes(2) == 0x1_0000);
    let z = number(rest);
    let whole = number(padded(p, m + 4));
    assert(number(head) == num && rest.len() == k);
    if t == 0 {
        assert(k == 4 && whole == num * 0x1_0000_0000 + z);
    } else if t == 1 {
        assert(k == 3 && whole == num * 0x100_0000 + z);
    } else {
        assert(k == 2 && whole == num * 0x1_0000 + z);
    }
}

/// A finished packet agrees with the encoder that finished it.
#[verifier::rlimit(60)]
#[verifier::spinoff_prover]
proof fn lemma_finished(e: EncState)
    requires
        enc_ok(e),
        e.ext <= u64::MAX - 4,
        !e.finished().error,
    ensures
        holds(e, e.finished().buf),
{
    lemma2_to64();
    let (l, end) = e.final_bits();
    lemma_final_bits(e);
    let a = e.tail_carried(end, l);
    let some = a.rem is Some || a.ext > 0;
    let b = if some { a.carried(0) } else { a };
    let c = b.window_flushed();
    let spare = ((8 - l % 8) % 8) as u32;
    let p = e.finished().buf;
    assert(!c.error);
    assert(e.finished() == c.sealed(spare));
    if b.error {
        lemma_flush_sticky(b);
    }
    if a.error && some {
        lemma_carry_sticky(a, 0);
    }
    assert(!a.error);
    lemma_tail(e);
    let t = tail_bytes(l) as nat;
    let m = emitted(e).len();
    let n = number(emitted(e));
    let na = number(emitted(a));
    lemma_same_back(e, a);
    if some {
        lemma_carried(a, 0);
        lemma_same_back(a, b);
        let w = b.buf.take(b.offs);
        assert(emitted(b) =~= w.push(0u8));
        lemma_number_pushed(w, 0);
        assert(number(w) == na);
        assert(b.offs == m + t);
    } else {
        assert(emitted(a) =~= Seq::<u8>::empty());
        assert(b.buf.take(b.offs) =~= Seq::<u8>::empty());
        assert(b.offs == m + t);
    }
    assert(number(b.buf.take(b.offs)) == na);
    assert(back_ok(b));
    lemma_flush(b);
    assert(number(c.buf.take(c.offs)) == na);
    let s = spare as nat;
    lemma_pow2_pos(s);
    // The last byte leaves room for the spare bits.
    assert(na % (pow2(s) as int) == 0) by {
        if t == 0 {
            assert(s == 0);
        } else if t == 1 {
            lemma_spare(n, end as int, l, na);
        } else {
            assert(s == 7 && pow2(22) == 0x40_0000 && (31 - l) as nat == 22);
            assert(end as int % 0x40_0000 == 0);
        }
    }
    lemma_sealed(c, spare);
    assert(raw_number(c) == raw_number(e) && raw_count(c) == raw_count(e));
    assert(back_holds(e, p));
    let num = number(p.take(c.offs));
    lemma_final_code(p, m, t, num);
    let d = num - na;
    if t == 0 {
        assert(d == 0);
        assert(pow2(31) == 0x8000_0000);
    } else if t == 1 {
        lemma_pow2_adds(23, s);
        assert(23 + s == (31 - l) as nat);
        let q = pow2(s) as int;
        assert(d * 0x80_0000 + 0x80_0000 <= 0x80_0000 * q) by (nonlinear_arith)
            requires
                d + 1 <= q,
        ;
        assert(num * 0x80_0000 == na * 0x80_0000 + d * 0x80_0000) by (nonlinear_arith)
            requires
                num == na + d,
        ;
    } else {
        assert(d < 128);
        assert((31 - l) as nat == 22 && pow2(22) == 0x40_0000);
    }
    assert(front_holds(e, p));
}

/// Eight final bits or fewer leave the lowest bits of their byte empty.
proof fn lemma_spare(n: int, end: int, l: int, na: int)
    requires
        1 <= l <= 8,
        na * 0x80_0000 == n * 0x8000_0000 + end,
        end % (pow2((31 - l) as nat) as int) == 0,
    ensures
        na % (pow2(((8 - l % 8) % 8) as nat) as int) == 0,
{
    lemma2_to64();
    let s = ((8 - l % 8) % 8) as nat;
    assert(s == 8 - l);
    lemma_pow2_adds(23, s);
    lemma_pow2_adds(s, (8 - s) as nat);
    lemma_pow2_pos(s);
    assert(23 + s == (31 - l) as nat);
    let q = pow2(s) as int;
    let u = pow2((8 - s) as nat) as int;
    vstd::arithmetic::div_mod::lemma_fundamental_div_mod(end, 0x80_0000 * q);
    let x = end / (0x80_0000 * q);
    assert(end == 0x80_0000 * (q * x)) by (nonlinear_arith)
        requires
            end == (0x80_0000 * q) * x,
    ;
    assert(na == n * 256 + q * x);
    assert(n * 256 == q * (n * u)) by (nonlinear_arith)
        requires
            q * u == 256,
    ;
    assert(na == q * (n * u + x)) by (nonlinear_arith)
        requires
            na == q * (n * u) + q * x,
    ;
    vstd::arithmetic::div_mod::lemma_mod_multiples_basic(n * u + x, q);
    assert(q * (n * u + x) == (n * u + x) * q) by (nonlinear_arith);
}

/// What one symbol keeps: the encoder stays in order, a packet that agrees with
/// it afterwards agreed before, and the decoder reads the symbol and follows.
#[verifier::rlimit(40)]
#[verifier::spinoff_prover]
pub proof fn lemma_symbol(e: EncState, d: EcDec<'_>, s: Symbol, p: Seq<u8>)
    requires
        enc_ok(e),
        s.valid(),
        e.ext <= u64::MAX - 3,
        !written(e, s).error,
    ensures
        enc_ok(written(e, s)),
        written(e, s).ext <= e.ext + 3,
        holds(written(e, s), p) ==> holds(e, p),
        holds(written(e, s), p) && synced(e, d, p) ==> {
            &&& read(d, s).1
            &&& synced(written(e, s), read(d, s).0, p)
        },
{
    match s {
        Symbol::Span { fl, fh, ft } => {
            let g = EcDec { ext: (d.rng as int / ft) as u32, ..d };
            assert(synced(e, d, p) ==> synced(e, g, p));
            assert(g.slot(ft) == d.slot(ft));
            lemma_span_step(e, g, fl, fh, ft, p);
        },
        Symbol::Flag { bit, logp } => {
            let ft = pow2(logp as nat) as int;
            let fl = if bit { ft - 1 } else { 0 };
            let fh = if bit { ft } else { ft - 1 };
            let like = EcDec { rng: e.rng, val: 0, ..d };
            lemma_flag(e, like, bit, logp);
            lemma_span_step(e, d, fl, fh, ft, p);
            if holds(written(e, s), p) && synced(e, d, p) {
                lemma_flag(e, d, bit, logp);
            }
        },
        Symbol::Raw { value, bits } => {
            lemma_raw_step(e, d, value, bits, p);
        },
        Symbol::Count { value, total } => {
            lemma2_to64();
            let top = (total - 1) as nat;
            let ftb = bit_length(top);
            lemma_bit_length(top);
            crate::math::lemma_bit_length_bound(top, 32);
            if ftb > 8 {
                let bits = (ftb - 8) as u32;
                let q = pow2(bits as nat) as int;
                lemma_pow2_pos(bits as nat);
                lemma_pow2_adds(8, bits as nat);
                vstd::arithmetic::div_mod::lemma_multiply_divide_lt(top as int, q, 256);
                vstd::arithmetic::div_mod::lemma_div_is_ordered(value as int, top as int, q);
                vstd::arithmetic::div_mod::lemma_div_pos_is_pos(value as int, q);
                vstd::arithmetic::div_mod::lemma_fundamental_div_mod(value as int, q);
                vstd::arithmetic::div_mod::lemma_mod_bound(value as int, q);
                let head = value as int / q;
                let rest = (value as int % q) as u32;
                let heads = top as int / q + 1;
                let f = e.coded(head, head + 1, heads);
                if f.error {
                    lemma_flush_sticky(f);
                }
                let g = EcDec { ext: (d.rng as int / heads) as u32, ..d };
                assert(synced(e, d, p) ==> synced(e, g, p));
                assert(g.slot(heads) == d.slot(heads));
                lemma_span_step(e, g, head, head + 1, heads, p);
                let h = g.consumed(head, head + 1, heads);
                lemma_raw_step(f, h, rest, bits, p);
                assert(q * head == head * q) by (nonlinear_arith);
            } else {
                if ftb < 8 {
                    lemma_pow2_strictly_increases(ftb, 8);
                }
                let g = EcDec { ext: (d.rng as int / total as int) as u32, ..d };
                assert(synced(e, d, p) ==> synced(e, g, p));
                assert(g.slot(total as int) == d.slot(total as int));
                lemma_span_step(e, g, value as int, value + 1, total as int, p);
            }
        },
    }
}

/// An overflow is never forgotten.
pub proof fn lemma_all_sticky(e: EncState, symbols: Seq<Symbol>)
    requires
        e.error,
    ensures
        all_written(e, symbols).error,
        all_written(e, symbols).finished().error,
    decreases symbols.len(),
{
    if symbols.len() > 0 {
        lemma_sticky(e, symbols[0]);
        lemma_all_sticky(written(e, symbols[0]), symbols.skip(1));
    } else {
        let (l, end) = e.final_bits();
        lemma_tail_sticky(e, end, l);
        let a = e.tail_carried(end, l);
        lemma_carry_sticky(a, 0);
        let b = if a.rem is Some || a.ext > 0 { a.carried(0) } else { a };
        lemma_flush_sticky(b);
    }
}

/// An overflow is never forgotten by the final bits.
proof fn lemma_tail_sticky(e: EncState, end: u32, l: int)
    requires
        e.error,
    ensures
        e.tail_carried(end, l).error,
    decreases (if l <= 0 { 0 } else { l }),
{
    if l > 0 {
        lemma_carry_sticky(e, end / CODE_BOTTOM);
        lemma_tail_sticky(
            e.carried(end / CODE_BOTTOM),
            (end % CODE_BOTTOM * 256) as u32,
            l - 8,
        );
    }
}

/// The packet agrees with the encoder before each of the symbols.
pub proof fn lemma_holds(e: EncState, symbols: Seq<Symbol>)
    requires
        enc_ok(e),
        forall|i: int| 0 <= i < symbols.len() ==> (#[trigger] symbols[i]).valid(),
        e.ext + 3 * symbols.len() + 4 <= u64::MAX,
        !all_written(e, symbols).finished().error,
    ensures
        holds(e, all_written(e, symbols).finished().buf),
    decreases symbols.len(),
{
    if symbols.len() == 0 {
        lemma_finished(e);
    } else {
        let f = written(e, symbols[0]);
        let rest = symbols.skip(1);
        let p = all_written(e, symbols).finished().buf;
        if f.error {
            lemma_all_sticky(f, rest);
        }
        assert(symbols[0].valid());
        lemma_symbol(e, arbitrary(), symbols[0], p);
        lemma_holds(f, rest);
    }
}

/// A decoder in step reads all of the symbols.
pub proof fn lemma_reads(e: EncState, d: EcDec<'_>, symbols: Seq<Symbol>)
    requires
        enc_ok(e),
        forall|i: int| 0 <= i < symbols.len() ==> (#[trigger] symbols[i]).valid(),
        e.ext + 3 * symbols.len() + 4 <= u64::MAX,
        !all_written(e, symbols).finished().error,
        synced(e, d, all_written(e, symbols).finished().buf),
    ensures
        read_back(e, d, symbols),
    decreases symbols.len(),
{
    if symbols.len() > 0 {
        let f = written(e, symbols[0]);
        let rest = symbols.skip(1);
        let p = all_written(e, symbols).finished().buf;
        if f.error {
            lemma_all_sticky(f, rest);
        }
        assert(symbols[0].valid());
        lemma_symbol(e, d, symbols[0], p);
        lemma_holds(f, rest);
        lemma_reads(f, read(d, symbols[0]).0, rest);
    }
}

/// A decoder in step with an encoder has counted as many bits.
pub proof fn lemma_tell(e: EncState, d: EcDec<'_>, p: Seq<u8>)
    requires
        synced(e, d, p),
    ensures
        d.tell_eighths() == e.tell_eighths(),
{
}

/// A decoder has taken in the first `k + 1` bytes.
spec fn taken_in(d: EcDec<'_>, p: Seq<u8>, k: nat) -> bool {
    &&& d.buf@ == p
    &&& d.offs == (if k + 1 < p.len() { k + 1 } else { p.len() })
    &&& d.rem == byte_at(p, k)
    &&& d.rng * 2 == bytes(k + 1)
    &&& d.val == d.rng - 1 - number(padded(p, k + 1)) / 2
    &&& d.nbits_total == 9 + 8 * k
    &&& d.end_offs == 0
    &&& d.end_window == 0
    &&& d.nend_bits == 0
}

/// One more byte taken in at the start.
proof fn lemma_take_in(d: EcDec<'_>, p: Seq<u8>, k: nat)
    requires
        taken_in(d, p, k),
        k <= 2,
        d.rng <= CODE_BOTTOM,
    ensures
        taken_in(d.shift_in(), p, k + 1),
{
    let next = byte_at(p, k + 1);
    let last = byte_at(p, k);
    let a = padded(p, k + 1);
    assert(padded(p, k + 2) =~= a.push(next));
    lemma_number_pushed(a, next);
    assert(a =~= padded(p, k).push(last));
    lemma_number_pushed(padded(p, k), last);
    lemma_number_joined(Seq::empty(), a);
    assert(Seq::<u8>::empty() + a =~= a);
    lemma_bytes(k + 1);
    let n = number(a);
    assert(n % 2 == last % 2);
    assert(d.buf@.len() == d.buf.len());
    assert(d.front_byte() == next);
    let sym = (d.rem * 256 + next) as int / 2 % 256;
    assert((n * 256 + next) / 2 == n / 2 * 256 + sym);
}

/// A decoder starts where the encoder starts.
proof fn lemma_started(packet: &[u8])
    ensures
        ({
            let d = EcDec::started(packet);
            let p = packet@;
            &&& d.buf@ == p
            &&& d.rng == CODE_TOP
            &&& d.val == CODE_TOP - 1 - code(p, 0)
            &&& d.offs == (if 4 < p.len() { 4 } else { p.len() })
            &&& d.rem == byte_at(p, 3)
            &&& d.nbits_total == 33
            &&& d.end_offs == 0
            &&& d.end_window == 0
            &&& d.nend_bits == 0
        }),
{
    lemma2_to64();
    let p = packet@;
    let first = byte_at(p, 0) as u32;
    let d0 = EcDec {
        buf: packet,
        offs: if p.len() > 0 { 1 } else { 0 },
        end_offs: 0,
        end_window: 0,
        nend_bits: 0,
        nbits_total: 9,
        rng: 128,
        val: (127 - first / 2) as u32,
        ext: 0,
        rem: first,
        error: false,
    };
    assert(padded(p, 1) =~= Seq::<u8>::empty().push(byte_at(p, 0)));
    lemma_number_pushed(Seq::empty(), byte_at(p, 0));
    assert(bytes(1) == 256);
    assert(taken_in(d0, p, 0));
    let d1 = d0.shift_in();
    lemma_take_in(d0, p, 0);
    assert(bytes(2) == 0x1_0000);
    let d2 = d1.shift_in();
    lemma_take_in(d1, p, 1);
    assert(bytes(3) == 0x100_0000);
    let d3 = d2.shift_in();
    lemma_take_in(d2, p, 2);
    lemma2_to64_rest();
    assert(bytes(4) == 0x1_0000_0000);
    assert(d3.renormalised() == d3);
    assert(d2.renormalised() == d3.renormalised());
    assert(d1.renormalised() == d2.renormalised());
    assert(d0.renormalised() == d1.renormalised());
    assert(EcDec::started(packet) == d0.renormalised());
}

/// A new decoder is in step with a new encoder.
pub proof fn lemma_beginning(size: nat, packet: &[u8])
    ensures
        enc_ok(EncState::started(size)),
        synced(EncState::started(size), EcDec::started(packet), packet@),
{
    lemma2_to64();
    let e = EncState::started(size);
    assert(emitted(e) =~= Seq::<u8>::empty());
    assert(number(emitted(e)) == 0);
    lemma_started(packet);
}

/// A decoder in step stays in step over symbols that the packet holds.
pub proof fn lemma_follow(e: EncState, d: EcDec<'_>, symbols: Seq<Symbol>, p: Seq<u8>)
    requires
        enc_ok(e),
        forall|i: int| 0 <= i < symbols.len() ==> (#[trigger] symbols[i]).valid(),
        e.ext + 3 * symbols.len() <= u64::MAX,
        !all_written(e, symbols).error,
    ensures
        enc_ok(all_written(e, symbols)),
        all_written(e, symbols).ext <= e.ext + 3 * symbols.len(),
        holds(all_written(e, symbols), p) ==> holds(e, p),
        holds(all_written(e, symbols), p) && synced(e, d, p) ==> synced(
            all_written(e, symbols),
            all_read(d, symbols),
            p,
        ),
    decreases symbols.len(),
{
    if symbols.len() > 0 {
        let f = written(e, symbols[0]);
        let rest = symbols.skip(1);
        if f.error {
            lemma_all_sticky(f, rest);
        }
        assert(symbols[0].valid());
        lemma_symbol(e, d, symbols[0], p);
        lemma_follow(f, read(d, symbols[0]).0, rest, p);
    }
}

/// Whatever symbols are written into a packet that has room for them, the
/// decoder reads them back, and before each of them it has counted as many bits
/// as the encoder had.
pub proof fn law_packets_are_read_back(size: nat, symbols: Seq<Symbol>, packet: &[u8])
    requires
        forall|i: int| 0 <= i < symbols.len() ==> (#[trigger] symbols[i]).valid(),
        3 * symbols.len() + 4 <= u64::MAX,
        !all_written(EncState::started(size), symbols).finished().error,
        packet@ == all_written(EncState::started(size), symbols).finished().buf,
    ensures
        read_back(EncState::started(size), EcDec::started(packet), symbols),
{
    let e = EncState::started(size);
    lemma_beginning(size, packet);
    lemma_reads(e, EcDec::started(packet), symbols);
}

} // verus!
