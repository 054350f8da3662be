//! What the decoder reconstructs of a band is what the encoder reconstructed.

use vstd::prelude::*;
use crate::analysis::split_angle;
use crate::band_decode::{
    affordable, band_ready, front_replaced, leaf, lemma_band_ready, mid_bits, opt_skip, opt_take,
    partition, rebalanced, split_bias, splits, Part,
};
use crate::band_encode::{
    angles_coded, leaf_encoded, lemma_split_has_angle, partition_encoded, CodedPart,
};
use crate::band_stereo::{pair_decoded, stereo_decoded, wide_decoded, StereoPart};
use crate::band_tf::{
    at_least_one, band_decoded, band_encoded, bits_spread, fill_merged, opt_haar, recombinations,
    recombined, scale_of, sign_decoded, sign_encoded, tf_prepared, tf_restored, time_divided,
    time_merged, uncombined, TfState,
};
use crate::coder_laws::{
    all_read, all_written, enc_ok, holds, lemma_all_sticky, lemma_beginning, lemma_follow,
    lemma_holds, lemma_sticky, lemma_symbol, lemma_tell, synced, written, Symbol,
};
use crate::fixed::{mult32_32_q31, shl32, Q31_ONE};
use crate::hadamard::{haar, interleaved};
use crate::mode::OpusCustomMode;
use crate::pvq::{
    lemma_gathered_len, lemma_v_at_least_two, pulses_of, pvq_v, spread_gathered, vector_fits,
};
use crate::pvq_encode::{
    law_decoder_rebuilds_the_band, law_index_names_the_vector, law_search_places_every_pulse,
    pulses_searched, pvq_encoded, pvq_index,
};
use crate::range_decoder::EcDec;
use crate::range_encoder::EncState;
use crate::rate::{bracket, bits_for, pulses_for};
use crate::stereo_encode::{
    channels_turned, pair_encoded, silence_covered, stereo_encoded, turns_left, wide_encoded,
    CodedPair,
};
use crate::theta::{
    angle_bits, angle_read, angle_written, law_angle_round_trip, law_step_intervals,
    law_triangle_intervals, lemma_steps_range, quantised_angle, step_low, step_total,
    theta_decoded, theta_encoded, triangle_low, triangle_total, BandCtx, MAX_QN,
};

verus! {

/// The context in which a decoder reads what was written in `ctx`.
pub open spec fn reading(ctx: BandCtx<'_>) -> BandCtx<'_> {
    BandCtx { theta_round: 0, ..ctx }
}

/// A quantised angle is one of the steps.
proof fn lemma_quantised_range(
    ctx: BandCtx<'_>,
    itheta: int,
    n: int,
    qn: int,
    b: int,
    stereo: bool,
)
    requires
        0 <= itheta <= 16384,
        2 <= qn <= MAX_QN,
    ensures
        0 <= quantised_angle(ctx, itheta, n, qn, b, stereo) <= qn,
{
    assert(0 <= itheta * qn <= 16384 * qn) by (nonlinear_arith)
        requires
            0 <= itheta <= 16384,
            2 <= qn,
    ;
}

/// The resolution of an angle is one, or an even number of steps.
proof fn lemma_resolution(ctx: BandCtx<'_>, n: int, b: int, lm: int, stereo: bool)
    ensures
        ({
            let qn = ctx.resolution(n, b, lm, stereo);
            qn == 1 || (2 <= qn <= MAX_QN && qn % 2 == 0)
        }),
{
    let cap = ctx.pulse_cap(lm);
    let offset = cap / 2 - if stereo && n == 2 { 16int } else { 4 };
    lemma_steps_range(angle_bits(n, b, offset, cap, stereo));
}

/// The triangular intervals lie inside their total.
proof fn lemma_triangle_bound(i: int, qn: int)
    requires
        2 <= qn <= MAX_QN,
        qn % 2 == 0,
        0 <= i <= qn,
    ensures
        0 <= triangle_low(i, qn) < triangle_low(i + 1, qn) <= triangle_total(qn) <= 16641,
{
    crate::theta::lemma_triangle_ordered(0, i, qn);
    crate::theta::lemma_triangle_ordered(i + 1, qn + 1, qn);
    law_triangle_intervals(i, qn);
    law_triangle_intervals(qn, qn);
    let h = qn / 2;
    assert((h + 1) * (h + 1) <= 129 * 129) by (nonlinear_arith)
        requires
            0 <= h <= 128,
    ;
}

/// The decoder reads the split that the encoder wrote.
#[verifier::rlimit(60)]
#[verifier::spinoff_prover]
proof fn lemma_theta(
    e: EncState,
    d: EcDec<'_>,
    ctx: BandCtx<'_>,
    itheta: int,
    n: int,
    b: i32,
    blocks: int,
    b0: int,
    lm: int,
    stereo: bool,
    fill: u32,
    p: Seq<u8>,
)
    requires
        enc_ok(e),
        e.ext <= u64::MAX - 3,
        0 <= itheta <= 16384,
        !stereo ==> ctx.resolution(n, b as int, lm, stereo) != 1,
        !theta_encoded(e, ctx, itheta, n, b, blocks, b0, lm, stereo, fill).enc.error,
    ensures
        ({
            let t = theta_encoded(e, ctx, itheta, n, b, blocks, b0, lm, stereo, fill);
            let u = theta_decoded(d, reading(ctx), n, b, blocks, b0, lm, stereo, fill);
            &&& enc_ok(t.enc)
            &&& t.enc.ext <= e.ext + 3
            &&& holds(t.enc, p) ==> holds(e, p)
            &&& holds(t.enc, p) && synced(e, d, p) ==> {
                &&& synced(t.enc, u.dec, p)
                &&& u.split == t.split
                &&& u.b == t.b
                &&& u.fill == t.fill
            }
        }),
{
    reveal(theta_encoded);
    reveal(theta_decoded);
    let qn = ctx.resolution(n, b as int, lm, stereo);
    assert(reading(ctx).resolution(n, b as int, lm, stereo) == qn);
    lemma_resolution(ctx, n, b as int, lm, stereo);
    let (f, angle, inv) = angle_written(e, ctx, itheta, n, qn, b as int, b0, stereo);
    let (g, angle2, inv2) = angle_read(d, reading(ctx), n, qn, b as int, b0, stereo);
    let going = holds(f, p) && synced(e, d, p);
    if qn != 1 {
        let i = quantised_angle(ctx, itheta, n, qn, b as int, stereo);
        lemma_quantised_range(ctx, itheta, n, qn, b as int, stereo);
        if stereo && n > 2 {
            law_step_intervals(i, qn);
            let s = Symbol::Span {
                fl: step_low(i, qn),
                fh: step_low(i + 1, qn),
                ft: step_total(qn),
            };
            assert(s.valid());
            lemma_symbol(e, d, s, p);
            if going {
                law_angle_round_trip(i, d.slot(step_total(qn)), qn);
            }
        } else if b0 > 1 || stereo {
            let s = Symbol::Count { value: i as u32, total: (qn + 1) as u32 };
            assert(s.valid());
            lemma_symbol(e, d, s, p);
        } else {
            lemma_triangle_bound(i, qn);
            let s = Symbol::Span {
                fl: triangle_low(i, qn),
                fh: triangle_low(i + 1, qn),
                ft: triangle_total(qn),
            };
            assert(s.valid());
            lemma_symbol(e, d, s, p);
            if going {
                law_angle_round_trip(i, d.slot(triangle_total(qn)), qn);
            }
        }
    } else if b > 16 && ctx.remaining_bits > 16 {
        let s = Symbol::Flag { bit: inv, logp: 2 };
        assert(s.valid());
        lemma_symbol(e, d, s, p);
    }
    if going {
        assert(synced(f, g, p) && angle == angle2 && inv == inv2);
        lemma_tell(e, d, p);
        lemma_tell(f, g, p);
    }
}

/// The bracket of a search stays inside what it starts with.
proof fn lemma_bracket(bits: Seq<u8>, at: int, target: int, lo: int, hi: int, steps: nat)
    requires
        0 <= lo <= hi,
    ensures
        ({
            let (l, h) = bracket(bits, at, target, lo, hi, steps);
            lo <= l <= hi && lo <= h <= hi
        }),
    decreases steps,
{
    if steps > 0 {
        let mid = (lo + hi + 1) / 2;
        lemma_bracket(bits, at, target, lo, mid, (steps - 1) as nat);
        if mid <= hi {
            lemma_bracket(bits, at, target, mid, hi, (steps - 1) as nat);
        }
    }
}

/// The affordable pseudo-count is between none and the wish.
proof fn lemma_affordable(mode: OpusCustomMode, band: int, lm: int, q: int, remaining: i32)
    requires
        q >= 0,
    ensures
        0 <= affordable(mode, band, lm, q, remaining) <= q,
    decreases q,
{
    if !(q <= 0 || remaining.wrapping_sub(bits_for(mode, band, lm, q) as i32) >= 0) {
        lemma_affordable(mode, band, lm, q - 1, remaining);
    }
}

/// The decoder rebuilds a part that is not split.
#[verifier::rlimit(60)]
#[verifier::spinoff_prover]
proof fn lemma_leaf(
    e: EncState,
    d: EcDec<'_>,
    ctx: BandCtx<'_>,
    x: Seq<i16>,
    y: Seq<i16>,
    n: int,
    b: i32,
    blocks: int,
    lowband: Option<Seq<i16>>,
    lm: int,
    gain: i32,
    fill: u32,
    p: Seq<u8>,
)
    requires
        enc_ok(e),
        e.ext <= u64::MAX - 3,
        ctx.resynth,
        band_ready(ctx, n, lm),
        x.len() == n,
        y.len() == n,
        !leaf_encoded(e, ctx, x, n, b, blocks, lowband, lm, gain, fill).enc.error,
    ensures
        ({
            let c = leaf_encoded(e, ctx, x, n, b, blocks, lowband, lm, gain, fill);
            let r = leaf(d, reading(ctx), y, n, b, blocks, lowband, lm, gain, fill);
            &&& enc_ok(c.enc)
            &&& c.enc.ext <= e.ext + 3
            &&& c.x.len() == n
            &&& holds(c.enc, p) ==> holds(e, p)
            &&& holds(c.enc, p) && synced(e, d, p) ==> {
                &&& synced(c.enc, r.dec, p)
                &&& r.x == c.x
                &&& r.remaining == c.remaining
                &&& r.seed == c.seed
                &&& r.cm == c.cm
            }
        }),
{
    reveal(leaf);
    reveal(leaf_encoded);
    lemma_band_ready(ctx, n, lm);
    let mode = *ctx.mode;
    let band = ctx.band as int;
    let bits = mode.cache.bits@;
    let at = mode.cache_start(lm, band);
    let wish = pulses_for(mode, band, lm, b as int);
    lemma_bracket(bits, at, b - 1, 0, bits[at] as int, 6);
    lemma_affordable(mode, band, lm, wish, ctx.remaining_bits);
    let q = affordable(mode, band, lm, wish, ctx.remaining_bits);
    let c = leaf_encoded(e, ctx, x, n, b, blocks, lowband, lm, gain, fill);
    let r = leaf(d, reading(ctx), y, n, b, blocks, lowband, lm, gain, fill);
    assert(x.take(n) =~= x);
    if q != 0 {
        assert(vector_fits(n, q));
        let k = pulses_of(q);
        assert(k >= 1);
        let count = if blocks < 1 { 1 } else { blocks };
        let spread = ctx.spread as int;
        let gathered = spread_gathered(x, count, k, spread);
        lemma_gathered_len(x, count, k, spread);
        law_search_places_every_pulse(gathered, k);
        let v = pulses_searched(gathered, k);
        law_index_names_the_vector(v);
        lemma_v_at_least_two(n as nat, k as nat);
        let total = pvq_v(n as nat, k as nat);
        let s = Symbol::Count { value: pvq_index(v) as u32, total: total as u32 };
        assert(s.valid());
        lemma_symbol(e, d, s, p);
        if holds(c.enc, p) && synced(e, d, p) {
            law_decoder_rebuilds_the_band(e, d, x, k, spread, count, gain);
        }
        let rebuilt = pvq_encoded(e, x, k, spread, count, gain, true).1;
        lemma_rebuilt_len(e, x, k, spread, count, gain);
        assert(front_replaced(x, rebuilt) =~= rebuilt);
        assert(front_replaced(y, rebuilt) =~= rebuilt);
    } else {
        assert(forall|h: Seq<i16>|
            h.len() == n ==> #[trigger] front_replaced(x, h) =~= h && front_replaced(y, h) =~= h);
    }
}

/// The reconstruction has as many coefficients as the band.
proof fn lemma_rebuilt_len(e: EncState, x: Seq<i16>, k: int, spread: int, blocks: int, gain: i32)
    requires
        x.len() >= 1,
        k >= 0,
        blocks >= 1,
    ensures
        pvq_encoded(e, x, k, spread, blocks, gain, true).1.len() == x.len(),
{
    let gathered = spread_gathered(x, blocks, k, spread);
    lemma_gathered_len(x, blocks, k, spread);
    law_search_places_every_pulse(gathered, k);
    crate::pvq::lemma_spread_len(
        crate::pvq::normalised_residual(pulses_searched(gathered, k), gain),
        blocks,
        k,
        spread,
    );
}

/// Bytes that may be held back while a part is written.
pub open spec fn room(lm: int) -> int
    decreases (if lm < 0 { 0 } else { lm + 1 }),
{
    if lm < 0 {
        3
    } else {
        3 + 2 * room(lm - 1)
    }
}

/// The room needed for parts of any size that there is.
proof fn lemma_room(lm: int)
    requires
        lm <= 3,
    ensures
        3 <= room(lm) <= 93,
        lm >= 0 ==> room(lm) == 3 + 2 * room(lm - 1),
{
    reveal_with_fuel(room, 6);
}

/// Bands that are split have an even number of coefficients.
pub open spec fn even_bands(mode: OpusCustomMode) -> bool {
    forall|band: int|
        0 <= band < mode.num_ebands && #[trigger] mode.width(band) > 2 ==> mode.width(band) % 2
            == 0
}

/// Checks [`even_bands`].
pub fn has_even_bands(mode: &OpusCustomMode) -> (ok: bool)
    requires
        mode.bands_wf(),
    ensures
        ok == even_bands(*mode),
{
    for band in 0..mode.num_ebands
        invariant
            mode.bands_wf(),
            forall|k: int|
                0 <= k < band && #[trigger] mode.width(k) > 2 ==> mode.width(k) % 2 == 0,
    {
        let width: i32 = mode.e_bands[band + 1] as i32 - mode.e_bands[band] as i32;
        assert(width == mode.width(band as int));
        if width > 2 && width % 2 != 0 {
            return false;
        }
    }
    true
}

/// An overflow is never forgotten by a split.
proof fn lemma_theta_sticky(
    e: EncState,
    ctx: BandCtx<'_>,
    itheta: int,
    n: int,
    b: i32,
    blocks: int,
    b0: int,
    lm: int,
    stereo: bool,
    fill: u32,
)
    requires
        e.error,
    ensures
        theta_encoded(e, ctx, itheta, n, b, blocks, b0, lm, stereo, fill).enc.error,
{
    reveal(theta_encoded);
    let qn = ctx.resolution(n, b as int, lm, stereo);
    let i = quantised_angle(ctx, itheta, n, qn, b as int, stereo);
    lemma_sticky(
        e,
        Symbol::Span { fl: step_low(i, qn), fh: step_low(i + 1, qn), ft: step_total(qn) },
    );
    lemma_sticky(
        e,
        Symbol::Span {
            fl: triangle_low(i, qn),
            fh: triangle_low(i + 1, qn),
            ft: triangle_total(qn),
        },
    );
    lemma_sticky(e, Symbol::Count { value: i as u32, total: (qn + 1) as u32 });
    lemma_sticky(e, Symbol::Flag { bit: itheta > 8192 && !ctx.disable_inv, logp: 2 });
}

/// A split that was coded is read back: the decoder finds the angle, the gains,
/// the cost, the bits left and the blocks to be filled that the encoder went on
/// with. The split may stand anywhere in a packet, behind the symbols `before`
/// and in front of the symbols `after`.
pub proof fn law_split_is_read_back(
    size: nat,
    before: Seq<Symbol>,
    after: Seq<Symbol>,
    ctx: BandCtx<'_>,
    itheta: int,
    n: int,
    b: i32,
    blocks: int,
    b0: int,
    lm: int,
    stereo: bool,
    fill: u32,
    packet: &[u8],
)
    requires
        forall|i: int| 0 <= i < before.len() ==> (#[trigger] before[i]).valid(),
        forall|i: int| 0 <= i < after.len() ==> (#[trigger] after[i]).valid(),
        before.len() + after.len() <= u32::MAX,
        0 <= itheta <= 16384,
        !stereo ==> ctx.resolution(n, b as int, lm, stereo) != 1,
        ({
            let e = all_written(EncState::started(size), before);
            let t = theta_encoded(e, ctx, itheta, n, b, blocks, b0, lm, stereo, fill);
            let done = all_written(t.enc, after).finished();
            &&& !done.error
            &&& packet@ == done.buf
        }),
    ensures
        ({
            let e = all_written(EncState::started(size), before);
            let d = all_read(EcDec::started(packet), before);
            let t = theta_encoded(e, ctx, itheta, n, b, blocks, b0, lm, stereo, fill);
            let u = theta_decoded(d, reading(ctx), n, b, blocks, b0, lm, stereo, fill);
            &&& u.split == t.split
            &&& u.b == t.b
            &&& u.fill == t.fill
            &&& u.dec.tell_eighths() == t.enc.tell_eighths()
        }),
{
    let p = packet@;
    let e0 = EncState::started(size);
    let d0 = EcDec::started(packet);
    let e = all_written(e0, before);
    let d = all_read(d0, before);
    let t = theta_encoded(e, ctx, itheta, n, b, blocks, b0, lm, stereo, fill);
    let u = theta_decoded(d, reading(ctx), n, b, blocks, b0, lm, stereo, fill);
    lemma_beginning(size, packet);
    if t.enc.error {
        lemma_all_sticky(t.enc, after);
    }
    if e.error {
        lemma_theta_sticky(e, ctx, itheta, n, b, blocks, b0, lm, stereo, fill);
    }
    lemma_follow(e0, d0, before, p);
    lemma_theta(e, d, ctx, itheta, n, b, blocks, b0, lm, stereo, fill, p);
    lemma_holds(t.enc, after);
    lemma_tell(t.enc, u.dec, p);
}

/// An overflow is never forgotten by a part.
proof fn lemma_partition_sticky(
    e: EncState,
    ctx: BandCtx<'_>,
    x: Seq<i16>,
    n: int,
    b: i32,
    blocks: int,
    lowband: Option<Seq<i16>>,
    lm: int,
    gain: i32,
    fill: u32,
)
    requires
        e.error,
    ensures
        partition_encoded(e, ctx, x, n, b, blocks, lowband, lm, gain, fill).enc.error,
    decreases (if lm < 0 { 0 } else { lm + 1 }),
{
    if !splits(ctx, n, b, lm) {
        reveal(leaf_encoded);
        let band = ctx.band as int;
        let q = affordable(
            *ctx.mode,
            band,
            lm,
            pulses_for(*ctx.mode, band, lm, b as int),
            ctx.remaining_bits,
        );
        let k = pulses_of(q);
        let y = pulses_searched(
            spread_gathered(x.take(n), if blocks < 1 { 1 } else { blocks }, k, ctx.spread as int),
            k,
        );
        lemma_sticky(
            e,
            Symbol::Count {
                value: pvq_index(y) as u32,
                total: pvq_v(x.take(n).len(), k as nat) as u32,
            },
        );
    } else {
        let s = split_step(e, ctx, x, n, b, blocks, lowband, lm, gain, fill);
        lemma_theta_sticky(
            e,
            ctx,
            split_angle(x.take(n / 2), x.skip(n / 2).take(n / 2), false),
            n / 2,
            b,
            s.parts,
            blocks,
            lm - 1,
            false,
            s.doubled,
        );
        if s.mid_first {
            lemma_partition_sticky(
                s.enc,
                s.entry,
                x.take(s.half),
                s.half,
                s.mbits,
                s.parts,
                opt_take(lowband, s.half),
                lm - 1,
                s.mid,
                s.fill,
            );
            let q = s.first(x, lowband, lm);
            lemma_partition_sticky(
                q.enc,
                BandCtx { remaining_bits: q.remaining, seed: q.seed, ..ctx },
                x.skip(s.half),
                s.half,
                rebalanced(s.sbits, s.mbits, s.entry.remaining_bits, q.remaining, s.itheta != 0),
                s.parts,
                opt_skip(lowband, s.half),
                lm - 1,
                s.side,
                s.fill2,
            );
        } else {
            lemma_partition_sticky(
                s.enc,
                s.entry,
                x.skip(s.half),
                s.half,
                s.sbits,
                s.parts,
                opt_skip(lowband, s.half),
                lm - 1,
                s.side,
                s.fill2,
            );
            let q = s.first(x, lowband, lm);
            lemma_partition_sticky(
                q.enc,
                BandCtx { remaining_bits: q.remaining, seed: q.seed, ..ctx },
                x.take(s.half),
                s.half,
                rebalanced(
                    s.mbits,
                    s.sbits,
                    s.entry.remaining_bits,
                    q.remaining,
                    s.itheta != 16384,
                ),
                s.parts,
                opt_take(lowband, s.half),
                lm - 1,
                s.mid,
                s.fill,
            );
        }
    }
}

/// What a split settles for its two parts.
struct SplitStep<'m> {
    half: int,
    parts: int,
    doubled: u32,
    enc: EncState,
    entry: BandCtx<'m>,
    mid: i32,
    side: i32,
    mbits: i32,
    sbits: i32,
    itheta: i32,
    fill: u32,
    fill2: u32,
    mid_first: bool,
}

/// The split of a part.
spec fn split_step<'m>(
    e: EncState,
    ctx: BandCtx<'m>,
    x: Seq<i16>,
    n: int,
    b: i32,
    blocks: int,
    lowband: Option<Seq<i16>>,
    lm: int,
    gain: i32,
    fill: u32,
) -> SplitStep<'m> {
    let half = n / 2;
    let doubled = if blocks == 1 { (fill & 1) | (fill << 1u32) } else { fill };
    let parts = (blocks + 1) / 2;
    let angle = split_angle(x.take(half), x.skip(half).take(half), false);
    let t = theta_encoded(e, ctx, angle, half, b, parts, blocks, lm - 1, false, doubled);
    let delta = split_bias(t.split.delta, t.split.itheta, half, blocks, lm - 1);
    let mbits = mid_bits(t.b, delta);
    let sbits = t.b.wrapping_sub(mbits);
    SplitStep {
        half,
        parts,
        doubled,
        enc: t.enc,
        entry: BandCtx {
            remaining_bits: ctx.remaining_bits.wrapping_sub(t.split.qalloc),
            ..ctx
        },
        mid: mult32_32_q31(gain, shl32(t.split.imid, 16)),
        side: mult32_32_q31(gain, shl32(t.split.iside, 16)),
        mbits,
        sbits,
        itheta: t.split.itheta,
        fill: t.fill,
        fill2: t.fill >> (parts as u32),
        mid_first: mbits >= sbits,
    }
}

impl<'m> SplitStep<'m> {
    /// The part that is written first.
    spec fn first(self, x: Seq<i16>, lowband: Option<Seq<i16>>, lm: int) -> CodedPart {
        if self.mid_first {
            partition_encoded(
                self.enc,
                self.entry,
                x.take(self.half),
                self.half,
                self.mbits,
                self.parts,
                opt_take(lowband, self.half),
                lm - 1,
                self.mid,
                self.fill,
            )
        } else {
            partition_encoded(
                self.enc,
                self.entry,
                x.skip(self.half),
                self.half,
                self.sbits,
                self.parts,
                opt_skip(lowband, self.half),
                lm - 1,
                self.side,
                self.fill2,
            )
        }
    }
}

/// The decoder rebuilds a part.
#[verifier::rlimit(100)]
#[verifier::spinoff_prover]
proof fn lemma_partition(
    e: EncState,
    d: EcDec<'_>,
    ctx: BandCtx<'_>,
    x: Seq<i16>,
    y: Seq<i16>,
    n: int,
    b: i32,
    blocks: int,
    lowband: Option<Seq<i16>>,
    lm: int,
    gain: i32,
    fill: u32,
    p: Seq<u8>,
)
    requires
        enc_ok(e),
        e.ext <= u64::MAX - room(lm),
        ctx.resynth,
        band_ready(ctx, n, lm),
        angles_coded(*ctx.mode),
        even_bands(*ctx.mode),
        x.len() == n,
        y.len() == n,
        !partition_encoded(e, ctx, x, n, b, blocks, lowband, lm, gain, fill).enc.error,
    ensures
        ({
            let c = partition_encoded(e, ctx, x, n, b, blocks, lowband, lm, gain, fill);
            let r = partition(d, reading(ctx), y, n, b, blocks, lowband, lm, gain, fill);
            &&& enc_ok(c.enc)
            &&& c.enc.ext <= e.ext + room(lm)
            &&& c.x.len() == n
            &&& holds(c.enc, p) ==> holds(e, p)
            &&& holds(c.enc, p) && synced(e, d, p) ==> {
                &&& synced(c.enc, r.dec, p)
                &&& r.x == c.x
                &&& r.remaining == c.remaining
                &&& r.seed == c.seed
                &&& r.cm == c.cm
            }
        }),
    decreases (if lm < 0 { 0 } else { lm + 1 }),
{
    lemma_band_ready(ctx, n, lm);
    lemma_room(lm);
    assert(splits(reading(ctx), n, b, lm) == splits(ctx, n, b, lm));
    if !splits(ctx, n, b, lm) {
        lemma_leaf(e, d, ctx, x, y, n, b, blocks, lowband, lm, gain, fill, p);
    } else {
        let c = partition_encoded(e, ctx, x, n, b, blocks, lowband, lm, gain, fill);
        let r = partition(d, reading(ctx), y, n, b, blocks, lowband, lm, gain, fill);
        let s = split_step(e, ctx, x, n, b, blocks, lowband, lm, gain, fill);
        let half = n / 2;
        let angle = split_angle(x.take(half), x.skip(half).take(half), false);
        assert(ctx.mode.width(ctx.band as int) >= 1);
        assert(n % 2 == 0);
        assert(half == ctx.mode.band_size(lm - 1, ctx.band as int));
        lemma_split_has_angle(ctx, n, b, lm);
        let q = s.first(x, lowband, lm);
        let second_ctx = BandCtx { remaining_bits: q.remaining, seed: q.seed, ..ctx };
        let u = theta_decoded(
            d,
            reading(ctx),
            half,
            b,
            s.parts,
            blocks,
            lm - 1,
            false,
            s.doubled,
        );
        let (x1, x2, y1, y2) = if s.mid_first {
            (x.take(half), x.skip(half), y.take(half), y.skip(half))
        } else {
            (x.skip(half), x.take(half), y.skip(half), y.take(half))
        };
        let (l1, l2) = if s.mid_first {
            (opt_take(lowband, half), opt_skip(lowband, half))
        } else {
            (opt_skip(lowband, half), opt_take(lowband, half))
        };
        let (b1, g1, f1) = if s.mid_first {
            (s.mbits, s.mid, s.fill)
        } else {
            (s.sbits, s.side, s.fill2)
        };
        let b2 = if s.mid_first {
            rebalanced(s.sbits, s.mbits, s.entry.remaining_bits, q.remaining, s.itheta != 0)
        } else {
            rebalanced(s.mbits, s.sbits, s.entry.remaining_bits, q.remaining, s.itheta != 16384)
        };
        let (g2, f2) = if s.mid_first {
            (s.side, s.fill2)
        } else {
            (s.mid, s.fill)
        };
        assert(q == partition_encoded(s.enc, s.entry, x1, half, b1, s.parts, l1, lm - 1, g1, f1));
        let v = partition_encoded(q.enc, second_ctx, x2, half, b2, s.parts, l2, lm - 1, g2, f2);
        assert(c.enc == v.enc);
        if q.enc.error {
            lemma_partition_sticky(q.enc, second_ctx, x2, half, b2, s.parts, l2, lm - 1, g2, f2);
        }
        if s.enc.error {
            lemma_partition_sticky(s.enc, s.entry, x1, half, b1, s.parts, l1, lm - 1, g1, f1);
        }
        lemma_theta(
            e,
            d,
            ctx,
            angle,
            half,
            b,
            s.parts,
            blocks,
            lm - 1,
            false,
            s.doubled,
            p,
        );
        let w1 = partition(u.dec, reading(s.entry), y1, half, b1, s.parts, l1, lm - 1, g1, f1);
        lemma_partition(
            s.enc,
            u.dec,
            s.entry,
            x1,
            y1,
            half,
            b1,
            s.parts,
            l1,
            lm - 1,
            g1,
            f1,
            p,
        );
        lemma_partition(
            q.enc,
            w1.dec,
            second_ctx,
            x2,
            y2,
            half,
            b2,
            s.parts,
            l2,
            lm - 1,
            g2,
            f2,
            p,
        );
    }
}

/// Recombining blocks keeps a sequence and its length.
proof fn lemma_recombined_len(low: Option<Seq<i16>>, fill: u32, n: int, k: int, upto: int)
    requires
        low is Some,
    ensures
        ({
            let r = recombined(low, fill, n, k, upto).0;
            r is Some && r->0.len() == low->0.len()
        }),
    decreases upto - k,
{
    if k < upto {
        lemma_recombined_len(
            opt_haar(low, n / scale_of(k), scale_of(k)),
            fill_merged(fill),
            n,
            k + 1,
            upto,
        );
    }
}

/// Dividing blocks keeps a sequence and its length.
proof fn lemma_divided_len(s: TfState, tf: int)
    requires
        s.low is Some,
    ensures
        time_divided(s, tf).low is Some,
        time_divided(s, tf).low->0.len() == s.low->0.len(),
    decreases (if tf + s.divisions < 0 { -(tf + s.divisions) } else { 0 }),
{
    if s.per_block % 2 == 0 && tf + s.divisions < 0 {
        lemma_divided_len(
            TfState {
                low: opt_haar(s.low, s.per_block, at_least_one(s.blocks)),
                fill: s.fill | (s.fill << (at_least_one(s.blocks) as u32)),
                blocks: s.blocks * 2,
                per_block: s.per_block / 2,
                divisions: s.divisions + 1,
            },
            tf,
        );
    }
}

/// A change of resolution keeps a sequence and its length.
proof fn lemma_tf_len(x: Seq<i16>, fill: u32, n: int, blocks: int, tf: int)
    ensures
        tf_prepared(Some(x), fill, n, blocks, tf).low is Some,
        tf_prepared(Some(x), fill, n, blocks, tf).low->0.len() == x.len(),
{
    let rec = recombinations(tf);
    lemma_recombined_len(Some(x), fill, n, 0, rec);
    let (low1, fill1) = recombined(Some(x), fill, n, 0, rec);
    lemma_divided_len(
        TfState {
            low: low1,
            fill: fill1,
            blocks: blocks / scale_of(rec),
            per_block: n / blocks * scale_of(rec),
            divisions: 0,
        },
        tf,
    );
}

/// Merging blocks keeps the number of coefficients.
proof fn lemma_merged_len(x: Seq<i16>, cm: u32, blocks: int, per_block: int, times: int)
    ensures
        time_merged(x, cm, blocks, per_block, times).0.len() == x.len(),
    decreases times,
{
    if times > 0 {
        let b = blocks / 2;
        lemma_merged_len(
            haar(x, per_block * 2, at_least_one(b)),
            if b > 0 { cm | (cm >> (b as u32)) } else { cm },
            b,
            per_block * 2,
            times - 1,
        );
    }
}

/// Taking recombined blocks apart keeps the number of coefficients.
proof fn lemma_uncombined_len(x: Seq<i16>, cm: u32, n: int, k: int, upto: int)
    ensures
        uncombined(x, cm, n, k, upto).0.len() == x.len(),
    decreases upto - k,
{
    if k < upto {
        lemma_uncombined_len(
            haar(x, n / scale_of(k), scale_of(k)),
            bits_spread((cm & 0xF) as int),
            n,
            k + 1,
            upto,
        );
    }
}

/// Going back to the resolution of the frame keeps the number of coefficients.
proof fn lemma_restored_len(x: Seq<i16>, cm: u32, n: int, blocks: int, tf: int, s: TfState)
    ensures
        tf_restored(x, cm, n, blocks, tf, s).0.len() == x.len(),
{
    let rec = recombinations(tf);
    let natural = if s.blocks > 1 {
        interleaved(x, s.per_block / scale_of(rec), s.blocks * scale_of(rec), blocks == 1)
    } else {
        x
    };
    lemma_merged_len(natural, cm, s.blocks, s.per_block, s.divisions);
    let (x1, cm1) = time_merged(natural, cm, s.blocks, s.per_block, s.divisions);
    lemma_uncombined_len(x1, cm1, n, 0, rec);
}

/// The decoder reads the sign of a coefficient.
proof fn lemma_sign(e: EncState, d: EcDec<'_>, remaining: i32, value: i16, p: Seq<u8>)
    requires
        enc_ok(e),
        e.ext <= u64::MAX - 3,
        !sign_encoded(e, remaining, value, true).0.error,
    ensures
        ({
            let c = sign_encoded(e, remaining, value, true);
            let r = sign_decoded(d, remaining);
            &&& enc_ok(c.0)
            &&& c.0.ext <= e.ext + 3
            &&& holds(c.0, p) ==> holds(e, p)
            &&& holds(c.0, p) && synced(e, d, p) ==> {
                &&& synced(c.0, r.0, p)
                &&& r.1 == c.1
                &&& r.2 == c.2
            }
        }),
{
    if remaining >= 8 {
        vstd::arithmetic::power2::lemma2_to64();
        let s = Symbol::Raw { value: if value < 0 { 1 } else { 0 }, bits: 1 };
        assert(s.valid());
        lemma_symbol(e, d, s, p);
    }
}

/// An overflow is never forgotten by a channel of a band.
pub proof fn lemma_band_sticky(
    e: EncState,
    ctx: BandCtx<'_>,
    x: Seq<i16>,
    n: int,
    b: i32,
    blocks: int,
    lowband: Option<Seq<i16>>,
    lm: int,
    gain: i32,
    fill: u32,
)
    requires
        e.error,
    ensures
        band_encoded(e, ctx, x, n, b, blocks, lowband, lm, gain, fill).enc.error,
{
    let tf = ctx.tf_change as int;
    if n == 1 {
        lemma_sticky(e, Symbol::Raw { value: if x[0] < 0 { 1 } else { 0 }, bits: 1 });
    } else {
        let s = tf_prepared(lowband, fill, n, blocks, tf);
        let turned = tf_prepared(Some(x), fill, n, blocks, tf).low->0;
        lemma_partition_sticky(e, ctx, turned, n, b, s.blocks, s.low, lm, gain, s.fill);
    }
}

/// What two outcomes of a band have in common where the decoder follows.
pub open spec fn rebuilt(c: CodedPart, r: Part<'_>) -> bool {
    &&& r.x == c.x
    &&& r.remaining == c.remaining
    &&& r.seed == c.seed
    &&& r.cm == c.cm
}

/// The decoder rebuilds one channel of a band.
#[verifier::spinoff_prover]
pub proof fn lemma_band(
    e: EncState,
    d: EcDec<'_>,
    ctx: BandCtx<'_>,
    x: Seq<i16>,
    y: Seq<i16>,
    n: int,
    b: i32,
    blocks: int,
    lowband: Option<Seq<i16>>,
    lm: int,
    gain: i32,
    fill: u32,
    p: Seq<u8>,
)
    requires
        enc_ok(e),
        e.ext <= u64::MAX - 93,
        ctx.resynth,
        band_ready(ctx, n, lm),
        angles_coded(*ctx.mode),
        even_bands(*ctx.mode),
        x.len() == n,
        y.len() == n,
        !band_encoded(e, ctx, x, n, b, blocks, lowband, lm, gain, fill).enc.error,
    ensures
        ({
            let c = band_encoded(e, ctx, x, n, b, blocks, lowband, lm, gain, fill);
            let r = band_decoded(d, reading(ctx), y, n, b, blocks, lowband, lm, gain, fill);
            &&& enc_ok(c.enc)
            &&& c.enc.ext <= e.ext + 93
            &&& c.x.len() == n
            &&& holds(c.enc, p) ==> holds(e, p)
            &&& holds(c.enc, p) && synced(e, d, p) ==> synced(c.enc, r.dec, p) && rebuilt(c, r)
        }),
{
    lemma_band_ready(ctx, n, lm);
    lemma_room(lm);
    let tf = ctx.tf_change as int;
    if n == 1 {
        lemma_sign(e, d, ctx.remaining_bits, x[0], p);
        let value = sign_encoded(e, ctx.remaining_bits, x[0], true).2;
        assert(x.update(0, value) =~= y.update(0, value));
    } else {
        let s = tf_prepared(lowband, fill, n, blocks, tf);
        lemma_tf_len(x, fill, n, blocks, tf);
        let turned = tf_prepared(Some(x), fill, n, blocks, tf).low->0;
        lemma_partition(e, d, ctx, turned, y, n, b, s.blocks, s.low, lm, gain, s.fill, p);
        let q = partition_encoded(e, ctx, turned, n, b, s.blocks, s.low, lm, gain, s.fill);
        lemma_restored_len(q.x, q.cm, n, blocks, tf, s);
    }
}

/// The decoder reads the angle of two channels.
proof fn lemma_turned(
    e: EncState,
    d: EcDec<'_>,
    ctx: BandCtx<'_>,
    x: Seq<i16>,
    y: Seq<i16>,
    n: int,
    b: i32,
    blocks: int,
    lm: int,
    left: i32,
    right: i32,
    fill: u32,
    p: Seq<u8>,
)
    requires
        enc_ok(e),
        e.ext <= u64::MAX - 3,
        x.len() == n,
        y.len() == n,
        !channels_turned(e, ctx, x, y, n, b, blocks, lm, left, right, fill).t.enc.error,
    ensures
        ({
            let w = channels_turned(e, ctx, x, y, n, b, blocks, lm, left, right, fill);
            let u = theta_decoded(d, reading(ctx), n, b, blocks, blocks, lm, true, fill);
            &&& enc_ok(w.t.enc)
            &&& w.t.enc.ext <= e.ext + 3
            &&& w.x.len() == n
            &&& w.y.len() == n
            &&& holds(w.t.enc, p) ==> holds(e, p)
            &&& holds(w.t.enc, p) && synced(e, d, p) ==> {
                &&& synced(w.t.enc, u.dec, p)
                &&& u.split == w.t.split
                &&& u.b == w.t.b
                &&& u.fill == w.t.fill
            }
        }),
{
    reveal(channels_turned);
    let angle = split_angle(x, y, true);
    lemma_theta(e, d, ctx, angle, n, b, blocks, blocks, lm, true, fill, p);
}

/// An overflow is never forgotten by the angle of two channels.
proof fn lemma_turned_sticky(
    e: EncState,
    ctx: BandCtx<'_>,
    x: Seq<i16>,
    y: Seq<i16>,
    n: int,
    b: i32,
    blocks: int,
    lm: int,
    left: i32,
    right: i32,
    fill: u32,
)
    requires
        e.error,
    ensures
        channels_turned(e, ctx, x, y, n, b, blocks, lm, left, right, fill).t.enc.error,
{
    reveal(channels_turned);
    lemma_theta_sticky(e, ctx, split_angle(x, y, true), n, b, blocks, blocks, lm, true, fill);
}

/// What two outcomes of a band in stereo have in common where the decoder
/// follows.
pub open spec fn rebuilt_pair(c: CodedPair, r: StereoPart<'_>) -> bool {
    &&& r.x == c.x
    &&& r.y == c.y
    &&& r.main == c.main
    &&& r.remaining == c.remaining
    &&& r.seed == c.seed
    &&& r.cm == c.cm
}

/// The decoder rebuilds a band of two coefficients per channel.
#[verifier::rlimit(60)]
#[verifier::spinoff_prover]
proof fn lemma_pair(
    e: EncState,
    d: EcDec<'_>,
    ctx: BandCtx<'_>,
    x: Seq<i16>,
    y: Seq<i16>,
    dx: Seq<i16>,
    dy: Seq<i16>,
    b: i32,
    blocks: int,
    lowband: Option<Seq<i16>>,
    lm: int,
    left: i32,
    right: i32,
    fill: u32,
    p: Seq<u8>,
)
    requires
        enc_ok(e),
        e.ext <= u64::MAX - 192,
        ctx.resynth,
        band_ready(ctx, 2, lm),
        angles_coded(*ctx.mode),
        even_bands(*ctx.mode),
        x.len() == 2,
        y.len() == 2,
        dx.len() == 2,
        dy.len() == 2,
        !pair_encoded(e, ctx, x, y, b, blocks, lowband, lm, left, right, fill).enc.error,
    ensures
        ({
            let c = pair_encoded(e, ctx, x, y, b, blocks, lowband, lm, left, right, fill);
            let r = pair_decoded(d, reading(ctx), dx, dy, b, blocks, lowband, lm, fill);
            &&& enc_ok(c.enc)
            &&& c.enc.ext <= e.ext + 192
            &&& c.x.len() == 2 && c.y.len() == 2 && c.main.len() == 2
            &&& holds(c.enc, p) ==> holds(e, p)
            &&& holds(c.enc, p) && synced(e, d, p) ==> synced(c.enc, r.dec, p) && rebuilt_pair(
                c,
                r,
            )
        }),
{
    reveal(pair_encoded);
    reveal(pair_decoded);
    let c = pair_encoded(e, ctx, x, y, b, blocks, lowband, lm, left, right, fill);
    let w = channels_turned(e, ctx, x, y, 2, b, blocks, lm, left, right, fill);
    let t = w.t;
    let u = theta_decoded(d, reading(ctx), 2, b, blocks, blocks, lm, true, fill);
    let coded = t.split.itheta != 0 && t.split.itheta != 16384;
    let sbits: i32 = if coded { 8 } else { 0 };
    let swapped = t.split.itheta > 8192;
    let main = if swapped { w.y } else { w.x };
    let other = if swapped { w.x } else { w.y };
    let sign = coded && turns_left(main, other);
    let s = Symbol::Raw { value: if sign { 1 } else { 0 }, bits: 1 };
    let f = if coded { written(t.enc, s) } else { t.enc };
    let g = if coded { u.dec.raw(1).0 } else { u.dec };
    let entry = BandCtx {
        remaining_bits: ctx.remaining_bits.wrapping_sub(t.split.qalloc.wrapping_add(sbits)),
        ..ctx
    };
    let bits = t.b.wrapping_sub(sbits);
    let start = if swapped { dy } else { dx };
    if f.error {
        lemma_band_sticky(f, entry, main, 2, bits, blocks, lowband, lm, Q31_ONE, fill);
    }
    if t.enc.error {
        lemma_sticky(t.enc, s);
    }
    lemma_turned(e, d, ctx, x, y, 2, b, blocks, lm, left, right, fill, p);
    if coded {
        vstd::arithmetic::power2::lemma2_to64();
        assert(s.valid());
        lemma_symbol(t.enc, u.dec, s, p);
    }
    lemma_band(f, g, entry, main, start, 2, bits, blocks, lowband, lm, Q31_ONE, fill, p);
}

/// The decoder rebuilds a band of more than two coefficients per channel.
#[verifier::rlimit(60)]
#[verifier::spinoff_prover]
proof fn lemma_wide(
    e: EncState,
    d: EcDec<'_>,
    ctx: BandCtx<'_>,
    x: Seq<i16>,
    y: Seq<i16>,
    dx: Seq<i16>,
    dy: Seq<i16>,
    n: int,
    b: i32,
    blocks: int,
    lowband: Option<Seq<i16>>,
    lm: int,
    left: i32,
    right: i32,
    fill: u32,
    p: Seq<u8>,
)
    requires
        enc_ok(e),
        e.ext <= u64::MAX - 192,
        ctx.resynth,
        band_ready(ctx, n, lm),
        angles_coded(*ctx.mode),
        even_bands(*ctx.mode),
        x.len() == n,
        y.len() == n,
        dx.len() == n,
        dy.len() == n,
        !wide_encoded(e, ctx, x, y, n, b, blocks, lowband, lm, left, right, fill).enc.error,
    ensures
        ({
            let c = wide_encoded(e, ctx, x, y, n, b, blocks, lowband, lm, left, right, fill);
            let r = wide_decoded(d, reading(ctx), dx, dy, n, b, blocks, lowband, lm, fill);
            &&& enc_ok(c.enc)
            &&& c.enc.ext <= e.ext + 192
            &&& c.x.len() == n && c.y.len() == n && c.main.len() == n
            &&& holds(c.enc, p) ==> holds(e, p)
            &&& holds(c.enc, p) && synced(e, d, p) ==> synced(c.enc, r.dec, p) && rebuilt_pair(
                c,
                r,
            )
        }),
{
    reveal(wide_encoded);
    reveal(wide_decoded);
    let c = wide_encoded(e, ctx, x, y, n, b, blocks, lowband, lm, left, right, fill);
    let w = channels_turned(e, ctx, x, y, n, b, blocks, lm, left, right, fill);
    let t = w.t;
    let u = theta_decoded(d, reading(ctx), n, b, blocks, blocks, lm, true, fill);
    let side = shl32(t.split.iside, 16);
    let mbits = mid_bits(t.b, t.split.delta);
    let sbits = t.b.wrapping_sub(mbits);
    let before = ctx.remaining_bits.wrapping_sub(t.split.qalloc);
    let entry = BandCtx { remaining_bits: before, ..ctx };
    let fill2 = t.fill >> (blocks as u32);
    let first = mbits >= sbits;
    let (x1, x2, d1, d2) = if first { (w.x, w.y, dx, dy) } else { (w.y, w.x, dy, dx) };
    let (b1, l1, g1, f1) = if first {
        (mbits, lowband, Q31_ONE, t.fill)
    } else {
        (sbits, None, side, fill2)
    };
    let q = band_encoded(t.enc, entry, x1, n, b1, blocks, l1, lm, g1, f1);
    let next = BandCtx { remaining_bits: q.remaining, seed: q.seed, ..ctx };
    let (b2, l2, g2, f2) = if first {
        (
            rebalanced(sbits, mbits, before, q.remaining, t.split.itheta != 0),
            None,
            side,
            fill2,
        )
    } else {
        (
            rebalanced(mbits, sbits, before, q.remaining, t.split.itheta != 16384),
            lowband,
            Q31_ONE,
            t.fill,
        )
    };
    let v = band_encoded(q.enc, next, x2, n, b2, blocks, l2, lm, g2, f2);
    assert(c.enc == v.enc);
    if q.enc.error {
        lemma_band_sticky(q.enc, next, x2, n, b2, blocks, l2, lm, g2, f2);
    }
    if t.enc.error {
        lemma_band_sticky(t.enc, entry, x1, n, b1, blocks, l1, lm, g1, f1);
    }
    lemma_turned(e, d, ctx, x, y, n, b, blocks, lm, left, right, fill, p);
    lemma_band(t.enc, u.dec, entry, x1, d1, n, b1, blocks, l1, lm, g1, f1, p);
    let r1 = band_decoded(u.dec, reading(entry), d1, n, b1, blocks, l1, lm, g1, f1);
    lemma_band(q.enc, r1.dec, next, x2, d2, n, b2, blocks, l2, lm, g2, f2, p);
}

/// The decoder rebuilds both channels of a band.
#[verifier::spinoff_prover]
pub proof fn lemma_stereo(
    e: EncState,
    d: EcDec<'_>,
    ctx: BandCtx<'_>,
    x: Seq<i16>,
    y: Seq<i16>,
    dx: Seq<i16>,
    dy: Seq<i16>,
    n: int,
    b: i32,
    blocks: int,
    lowband: Option<Seq<i16>>,
    lm: int,
    left: i32,
    right: i32,
    fill: u32,
    p: Seq<u8>,
)
    requires
        enc_ok(e),
        e.ext <= u64::MAX - 192,
        ctx.resynth,
        band_ready(ctx, n, lm),
        angles_coded(*ctx.mode),
        even_bands(*ctx.mode),
        x.len() == n,
        y.len() == n,
        dx.len() == n,
        dy.len() == n,
        !stereo_encoded(e, ctx, x, y, n, b, blocks, lowband, lm, left, right, fill).enc.error,
    ensures
        ({
            let c = stereo_encoded(e, ctx, x, y, n, b, blocks, lowband, lm, left, right, fill);
            let r = stereo_decoded(d, reading(ctx), dx, dy, n, b, blocks, lowband, lm, fill);
            &&& enc_ok(c.enc)
            &&& c.enc.ext <= e.ext + 192
            &&& c.x.len() == n && c.y.len() == n && c.main.len() == n
            &&& holds(c.enc, p) ==> holds(e, p)
            &&& holds(c.enc, p) && synced(e, d, p) ==> synced(c.enc, r.dec, p) && rebuilt_pair(
                c,
                r,
            )
        }),
{
    if n == 1 {
        let (e1, r1, v1) = sign_encoded(e, ctx.remaining_bits, x[0], true);
        let (e2, r2, v2) = sign_encoded(e1, r1, y[0], true);
        if e1.error {
            lemma_sticky(e1, Symbol::Raw { value: if y[0] < 0 { 1 } else { 0 }, bits: 1 });
        }
        lemma_sign(e, d, ctx.remaining_bits, x[0], p);
        let d1 = sign_decoded(d, ctx.remaining_bits).0;
        lemma_sign(e1, d1, r1, y[0], p);
        assert(x.update(0, v1) =~= dx.update(0, v1));
        assert(y.update(0, v2) =~= dy.update(0, v2));
    } else {
        let (l, r) = silence_covered(x, y, left, right);
        if n == 2 {
            lemma_pair(e, d, ctx, l, r, dx, dy, b, blocks, lowband, lm, left, right, fill, p);
        } else {
            lemma_wide(e, d, ctx, l, r, dx, dy, n, b, blocks, lowband, lm, left, right, fill, p);
        }
    }
}

/// An overflow is never forgotten by both channels of a band.
pub proof fn lemma_stereo_sticky(
    e: EncState,
    ctx: BandCtx<'_>,
    x: Seq<i16>,
    y: Seq<i16>,
    n: int,
    b: i32,
    blocks: int,
    lowband: Option<Seq<i16>>,
    lm: int,
    left: i32,
    right: i32,
    fill: u32,
)
    requires
        e.error,
    ensures
        stereo_encoded(e, ctx, x, y, n, b, blocks, lowband, lm, left, right, fill).enc.error,
{
    if n == 1 {
        let (e1, r1, v1) = sign_encoded(e, ctx.remaining_bits, x[0], ctx.resynth);
        lemma_sticky(e, Symbol::Raw { value: if x[0] < 0 { 1 } else { 0 }, bits: 1 });
        lemma_sticky(e1, Symbol::Raw { value: if y[0] < 0 { 1 } else { 0 }, bits: 1 });
    } else {
        let (l, r) = silence_covered(x, y, left, right);
        let w = channels_turned(e, ctx, l, r, n, b, blocks, lm, left, right, fill);
        lemma_turned_sticky(e, ctx, l, r, n, b, blocks, lm, left, right, fill);
        if n == 2 {
            reveal(pair_encoded);
            let coded = w.t.split.itheta != 0 && w.t.split.itheta != 16384;
            let sbits: i32 = if coded { 8 } else { 0 };
            let swapped = w.t.split.itheta > 8192;
            let main = if swapped { w.y } else { w.x };
            let other = if swapped { w.x } else { w.y };
            let sign = coded && turns_left(main, other);
            let s = Symbol::Raw { value: if sign { 1 } else { 0 }, bits: 1 };
            lemma_sticky(w.t.enc, s);
            let f = if coded { written(w.t.enc, s) } else { w.t.enc };
            lemma_band_sticky(
                f,
                BandCtx {
                    remaining_bits: ctx.remaining_bits.wrapping_sub(
                        w.t.split.qalloc.wrapping_add(sbits),
                    ),
                    ..ctx
                },
                main,
                2,
                w.t.b.wrapping_sub(sbits),
                blocks,
                lowband,
                lm,
                Q31_ONE,
                fill,
            );
        } else {
            reveal(wide_encoded);
            let t = w.t;
            let side = shl32(t.split.iside, 16);
            let mbits = mid_bits(t.b, t.split.delta);
            let sbits = t.b.wrapping_sub(mbits);
            let before = ctx.remaining_bits.wrapping_sub(t.split.qalloc);
            let entry = BandCtx { remaining_bits: before, ..ctx };
            let fill2 = t.fill >> (blocks as u32);
            if mbits >= sbits {
                lemma_band_sticky(
                    t.enc,
                    entry,
                    w.x,
                    n,
                    mbits,
                    blocks,
                    lowband,
                    lm,
                    Q31_ONE,
                    t.fill,
                );
                let q = band_encoded(
                    t.enc,
                    entry,
                    w.x,
                    n,
                    mbits,
                    blocks,
                    lowband,
                    lm,
                    Q31_ONE,
                    t.fill,
                );
                lemma_band_sticky(
                    q.enc,
                    BandCtx { remaining_bits: q.remaining, seed: q.seed, ..ctx },
                    w.y,
                    n,
                    rebalanced(sbits, mbits, before, q.remaining, t.split.itheta != 0),
                    blocks,
                    None,
                    lm,
                    side,
                    fill2,
                );
            } else {
                lemma_band_sticky(t.enc, entry, w.y, n, sbits, blocks, None, lm, side, fill2);
                let q = band_encoded(t.enc, entry, w.y, n, sbits, blocks, None, lm, side, fill2);
                lemma_band_sticky(
                    q.enc,
                    BandCtx { remaining_bits: q.remaining, seed: q.seed, ..ctx },
                    w.x,
                    n,
                    rebalanced(mbits, sbits, before, q.remaining, t.split.itheta != 16384),
                    blocks,
                    lowband,
                    lm,
                    Q31_ONE,
                    t.fill,
                );
            }
        }
    }
}

} // verus!
