//! Recursive decoding of the quantised shape of a band.

use vstd::prelude::*;
use crate::bands::{celt_lcg_rand, low_mask, mask_from_bits};
use crate::fixed::{mult32_32_q31, shl32};
use crate::math::trunc_div;
use crate::mode::OpusCustomMode;
use crate::pvq::{
    alg_unquant, get_pulses, pulses_of, pvq_decoded, renormalise_vector, renormalised,
    vector_fits,
};
use crate::range_decoder::EcDec;
use crate::rate::{bits2pulses, bits_for, pulses2bits, pulses_for};
use crate::theta::{compute_theta_decode, theta_decoded, BandCtx};

verus! {

/// State of the noise generator after `steps` draws.
pub open spec fn drawn(seed: u32, steps: nat) -> u32
    decreases steps,
{
    if steps == 0 {
        seed
    } else {
        celt_lcg_rand(drawn(seed, (steps - 1) as nat))
    }
}

/// Largest pseudo-count up to `q` that the remaining bits pay for.
pub open spec fn affordable(mode: OpusCustomMode, band: int, lm: int, q: int, remaining: i32) -> int
    decreases q,
{
    if q <= 0 || remaining.wrapping_sub(bits_for(mode, band, lm, q) as i32) >= 0 {
        q
    } else {
        affordable(mode, band, lm, q - 1, remaining)
    }
}

/// Folded coefficients with one step of noise added to each.
pub open spec fn folded_noise(lowband: Seq<i16>, n: int, seed: u32) -> Seq<i16> {
    Seq::new(
        n as nat,
        |i: int|
            lowband[i].wrapping_add(
                if drawn(seed, (i + 1) as nat) & 0x8000 != 0 { 4 } else { (-4) as i16 },
            ),
    )
}

/// Pure noise.
pub open spec fn white_noise(n: int, seed: u32) -> Seq<i16> {
    Seq::new(n as nat, |i: int| ((drawn(seed, (i + 1) as nat) as i32) >> 20u32) as i16)
}

/// The first elements of `x` replaced by `head`.
pub open spec fn front_replaced(x: Seq<i16>, head: Seq<i16>) -> Seq<i16> {
    head + x.skip(head.len() as int)
}

/// Outcome of decoding a band or a part of it.
#[verifier::ext_equal]
pub struct Part<'a> {
    pub dec: EcDec<'a>,
    /// Bits left for the following bands.
    pub remaining: i32,
    /// State of the noise generator.
    pub seed: u32,
    /// Coefficients.
    pub x: Seq<i16>,
    /// Collapse mask.
    pub cm: u32,
}

/// A part too small to be split: coded pulses, folding or noise.
#[verifier::opaque]
pub open spec fn leaf<'a>(
    dec: EcDec<'a>,
    ctx: BandCtx<'_>,
    x: Seq<i16>,
    n: int,
    b: i32,
    blocks: int,
    lowband: Option<Seq<i16>>,
    lm: int,
    gain: i32,
    fill: u32,
) -> Part<'a> {
    let band = ctx.band as int;
    let q = affordable(
        *ctx.mode,
        band,
        lm,
        pulses_for(*ctx.mode, band, lm, b as int),
        ctx.remaining_bits,
    );
    let remaining = ctx.remaining_bits.wrapping_sub(bits_for(*ctx.mode, band, lm, q) as i32);
    if q != 0 {
        let (d, y, mask) = pvq_decoded(
            dec,
            n as nat,
            pulses_of(q) as nat,
            ctx.spread as int,
            if blocks < 1 { 1 } else { blocks },
            gain,
        );
        Part { dec: d, remaining, seed: ctx.seed, x: front_replaced(x, y), cm: mask }
    } else {
        let kept = fill & low_mask(blocks);
        if kept == 0 {
            Part {
                dec,
                remaining,
                seed: ctx.seed,
                x: front_replaced(x, Seq::new(n as nat, |i: int| 0i16)),
                cm: 0,
            }
        } else {
            let (source, cm) = match lowband {
                Some(low) => (folded_noise(low, n, ctx.seed), kept),
                None => (white_noise(n, ctx.seed), low_mask(blocks)),
            };
            Part {
                dec,
                remaining,
                seed: drawn(ctx.seed, n as nat),
                x: front_replaced(x, renormalised(source, gain)),
                cm,
            }
        }
    }
}

/// Allocation bias of a split, corrected for transients.
pub open spec fn split_bias(delta: i32, itheta: i32, half: int, blocks: int, lm: int) -> i32 {
    if blocks > 1 && itheta != 0 && itheta != 16384 {
        if itheta > 8192 {
            delta.wrapping_sub(delta >> ((4 - lm) as u32))
        } else {
            let raised = delta.wrapping_add(((half * 8) as i32) >> ((5 - lm) as u32));
            if raised < 0 { raised } else { 0 }
        }
    } else {
        delta
    }
}

/// Bits of the first of two parts that share `b`.
pub open spec fn mid_bits(b: i32, delta: i32) -> i32 {
    let q = trunc_div(b.wrapping_sub(delta) as int, 2);
    let m = if q > b { b as int } else { q };
    (if m < 0 { 0 } else { m }) as i32
}

/// Bits of the second part after the first one returned what it did not use.
pub open spec fn rebalanced(
    own: i32,
    other: i32,
    before: i32,
    after: i32,
    allowed: bool,
) -> i32 {
    let unused = other.wrapping_sub(before.wrapping_sub(after));
    if unused > 24 && allowed {
        own.wrapping_add(unused.wrapping_sub(24))
    } else {
        own
    }
}

/// First `half` elements of an optional sequence.
pub open spec fn opt_take(s: Option<Seq<i16>>, half: int) -> Option<Seq<i16>> {
    match s {
        Some(v) => Some(v.take(half)),
        None => None,
    }
}

/// Elements of an optional sequence behind the first `half`.
pub open spec fn opt_skip(s: Option<Seq<i16>>, half: int) -> Option<Seq<i16>> {
    match s {
        Some(v) => Some(v.skip(half)),
        None => None,
    }
}

/// Whether a part gets so many bits that it is split.
pub open spec fn splits(ctx: BandCtx<'_>, n: int, b: i32, lm: int) -> bool {
    let at = ctx.mode.cache_start(lm, ctx.band as int);
    let bits = ctx.mode.cache.bits@;
    lm >= 0 && n > 2 && b > bits[at + bits[at]] + 12
}

/// Decodes a part of a band of `n` coefficients with `b` eighths of a bit.
pub open spec fn partition<'a>(
    dec: EcDec<'a>,
    ctx: BandCtx<'_>,
    x: Seq<i16>,
    n: int,
    b: i32,
    blocks: int,
    lowband: Option<Seq<i16>>,
    lm: int,
    gain: i32,
    fill: u32,
) -> Part<'a>
    decreases (if lm < 0 { 0 } else { lm + 1 }),
{
    if !splits(ctx, n, b, lm) {
        leaf(dec, ctx, x, n, b, blocks, lowband, lm, gain, fill)
    } else {
        let half = n / 2;
        let doubled = if blocks == 1 { (fill & 1) | (fill << 1u32) } else { fill };
        let parts = (blocks + 1) / 2;
        let t = theta_decoded(dec, ctx, half, b, parts, blocks, lm - 1, false, doubled);
        let mid = mult32_32_q31(gain, shl32(t.split.imid, 16));
        let side = mult32_32_q31(gain, shl32(t.split.iside, 16));
        let delta = split_bias(t.split.delta, t.split.itheta, half, blocks, lm - 1);
        let mbits = mid_bits(t.b, delta);
        let sbits = t.b.wrapping_sub(mbits);
        let before = ctx.remaining_bits.wrapping_sub(t.split.qalloc);
        let entry = BandCtx { remaining_bits: before, ..ctx };
        let fill2 = t.fill >> (parts as u32);
        let shift = (blocks / 2) as u32;
        if mbits >= sbits {
            let p = partition(
                t.dec,
                entry,
                x.take(half),
                half,
                mbits,
                parts,
                opt_take(lowband, half),
                lm - 1,
                mid,
                t.fill,
            );
            let r = partition(
                p.dec,
                BandCtx { remaining_bits: p.remaining, seed: p.seed, ..ctx },
                x.skip(half),
                half,
                rebalanced(sbits, mbits, before, p.remaining, t.split.itheta != 0),
                parts,
                opt_skip(lowband, half),
                lm - 1,
                side,
                fill2,
            );
            Part { x: p.x + r.x, cm: p.cm | (r.cm << shift), ..r }
        } else {
            let r = partition(
                t.dec,
                entry,
                x.skip(half),
                half,
                sbits,
                parts,
                opt_skip(lowband, half),
                lm - 1,
                side,
                fill2,
            );
            let p = partition(
                r.dec,
                BandCtx { remaining_bits: r.remaining, seed: r.seed, ..ctx },
                x.take(half),
                half,
                rebalanced(mbits, sbits, before, r.remaining, t.split.itheta != 16384),
                parts,
                opt_take(lowband, half),
                lm - 1,
                mid,
                t.fill,
            );
            Part { x: p.x + r.x, cm: (r.cm << shift) | p.cm, ..p }
        }
    }
}

/// What the decoders of one band rely on.
pub open spec fn band_ready(ctx: BandCtx<'_>, n: int, lm: int) -> bool {
    &&& ctx.mode.wf()
    &&& ctx.band < ctx.mode.num_ebands
    &&& -1 <= lm <= ctx.mode.max_lm
    &&& n == ctx.mode.band_size(lm, ctx.band as int)
    &&& n >= 1
    &&& ctx.mode.width(ctx.band as int) >= (if lm < 0 { 2int } else { 1 })
}

/// A ready band has a usable pulse-cost run and a bounded size.
pub proof fn lemma_band_ready(ctx: BandCtx<'_>, n: int, lm: int)
    requires
        band_ready(ctx, n, lm),
    ensures
        ctx.mode.run_usable(lm, ctx.band as int),
        ctx.wf(),
        n <= 2048,
{
    let mode = *ctx.mode;
    let band = ctx.band as int;
    assert(mode.run_usable(lm, band)) by {
        let row = lm + 1;
        assert(mode.cache_start(row - 1, band) == mode.cache_start(lm, band));
    }
    assert(mode.e_bands@[band + 1] <= mode.e_bands@[mode.num_ebands as int]);
    assert(mode.e_bands@[0] <= mode.e_bands@[band]);
}

/// View of an optional vector.
pub open spec fn opt_view(v: Option<Vec<i16>>) -> Option<Seq<i16>> {
    match v {
        Some(s) => Some(s@),
        None => None,
    }
}

/// Splits an optional vector in two.
pub(crate) fn split_optional(v: Option<Vec<i16>>, half: usize) -> (r: (Option<Vec<i16>>, Option<Vec<i16>>))
    requires
        v matches Some(s) ==> half <= s@.len(),
    ensures
        opt_view(r.0) == opt_take(opt_view(v), half as int),
        opt_view(r.1) == opt_skip(opt_view(v), half as int),
{
    match v {
        Some(mut s) => {
            let ghost whole = s@;
            let tail: Vec<i16> = s.split_off(half);
            assert(s@ =~= whole.take(half as int));
            assert(tail@ =~= whole.skip(half as int));
            (Some(s), Some(tail))
        },
        None => (None, None),
    }
}

/// Replaces the first elements of `x` by `head`.
pub(crate) fn replace_front(x: &mut Vec<i16>, head: &Vec<i16>)
    requires
        head@.len() <= old(x)@.len(),
    ensures
        final(x)@ == front_replaced(old(x)@, head@),
        final(x)@.len() == old(x)@.len(),
{
    for i in 0..head.len()
        invariant
            head@.len() <= x@.len(),
            x@.len() == old(x)@.len(),
            forall|j: int|
                0 <= j < x@.len() ==> #[trigger] x@[j] == (if j < i {
                    head@[j]
                } else {
                    old(x)@[j]
                }),
    {
        x.set(i, head[i]);
    }
    assert(x@ =~= front_replaced(old(x)@, head@));
}

/// Fills a part that got no pulses.
pub(crate) fn fill_part(
    ctx: &mut BandCtx<'_>,
    n: usize,
    blocks: i32,
    lowband: Option<Vec<i16>>,
    gain: i32,
    fill: u32,
) -> (r: (Vec<i16>, u32))
    requires
        n <= 0x7fff,
        lowband matches Some(low) ==> low@.len() >= n,
    ensures
        ({
            let kept = fill & low_mask(blocks as int);
            let seed = old(ctx).seed;
            if kept == 0 {
                &&& r.0@ == Seq::new(n as nat, |i: int| 0i16)
                &&& r.1 == 0
                &&& *final(ctx) == *old(ctx)
            } else {
                &&& r.0@ == renormalised(
                    match lowband {
                        Some(low) => folded_noise(low@, n as int, seed),
                        None => white_noise(n as int, seed),
                    },
                    gain,
                )
                &&& r.1 == (if lowband is Some { kept } else { low_mask(blocks as int) })
                &&& *final(ctx) == (BandCtx { seed: drawn(seed, n as nat), ..*old(ctx) })
            }
        }),
{
    let all: u32 = mask_from_bits(blocks);
    let kept: u32 = fill & all;
    let mut x: Vec<i16> = Vec::new();
    let ghost seed = ctx.seed;
    if kept == 0 {
        for i in 0..n
            invariant
                x@.len() == i,
                forall|j: int| 0 <= j < i ==> x@[j] == 0,
        {
            x.push(0);
        }
        assert(x@ =~= Seq::new(n as nat, |i: int| 0i16));
        return (x, 0);
    }
    match lowband {
        Some(low) => {
            for i in 0..n
                invariant
                    x@.len() == i,
                    low@.len() >= n,
                    *ctx == (BandCtx { seed: drawn(seed, i as nat), ..*old(ctx) }),
                    forall|j: int| 0 <= j < i ==> x@[j] == folded_noise(low@, n as int, seed)[j],
            {
                ctx.seed = celt_lcg_rand(ctx.seed);
                assert(ctx.seed == drawn(seed, (i + 1) as nat));
                let noise: i16 = if ctx.seed & 0x8000 != 0 { 4 } else { -4 };
                x.push(low[i].wrapping_add(noise));
            }
            assert(x@ =~= folded_noise(low@, n as int, seed));
            renormalise_vector(&mut x, gain);
            (x, kept)
        },
        None => {
            for i in 0..n
                invariant
                    x@.len() == i,
                    *ctx == (BandCtx { seed: drawn(seed, i as nat), ..*old(ctx) }),
                    forall|j: int| 0 <= j < i ==> x@[j] == white_noise(n as int, seed)[j],
            {
                ctx.seed = celt_lcg_rand(ctx.seed);
                assert(ctx.seed == drawn(seed, (i + 1) as nat));
                x.push(((ctx.seed as i32) >> 20u32) as i16);
            }
            assert(x@ =~= white_noise(n as int, seed));
            renormalise_vector(&mut x, gain);
            (x, all)
        },
    }
}

/// Finds the pseudo-count that the bits of a part pay for, and the bits that
/// remain.
pub(crate) fn afford(ctx: &BandCtx<'_>, n: usize, b: i32, lm: i32) -> (r: (i32, i32))
    requires
        band_ready(*ctx, n as int, lm as int),
    ensures
        r.0 == affordable(
            *ctx.mode,
            ctx.band as int,
            lm as int,
            pulses_for(*ctx.mode, ctx.band as int, lm as int, b as int),
            ctx.remaining_bits,
        ),
        r.1 == ctx.remaining_bits.wrapping_sub(
            bits_for(*ctx.mode, ctx.band as int, lm as int, r.0 as int) as i32,
        ),
        0 <= r.0 <= 40,
        r.0 != 0 ==> vector_fits(n as int, r.0 as int),
        n <= 2048,
{
    proof {
        lemma_band_ready(*ctx, n as int, lm as int);
    }
    let mode: &OpusCustomMode = ctx.mode;
    let band: usize = ctx.band;
    let base: i32 = ctx.remaining_bits;
    let first: i32 = bits2pulses(mode, band, lm, b);
    let mut q: i32 = first;
    let mut left: i32 = base.wrapping_sub(pulses2bits(mode, band, lm, q));
    while left < 0 && q > 0
        invariant
            band_ready(*ctx, n as int, lm as int),
            ctx.mode.run_usable(lm as int, band as int),
            mode == ctx.mode,
            band == ctx.band,
            0 <= q <= first <= mode.cache.bits@[mode.cache_start(lm as int, band as int)],
            first <= 40,
            left == base.wrapping_sub(bits_for(*mode, band as int, lm as int, q as int) as i32),
            affordable(*mode, band as int, lm as int, q as int, base) == affordable(
                *mode,
                band as int,
                lm as int,
                first as int,
                base,
            ),
        decreases q,
    {
        q = q - 1;
        left = base.wrapping_sub(pulses2bits(mode, band, lm, q));
    }
    (q, left)
}

/// Decodes a part that is not split.
fn quant_leaf_decode(
    dec: &mut EcDec<'_>,
    ctx: &mut BandCtx<'_>,
    x: &mut Vec<i16>,
    n: usize,
    b: i32,
    blocks: i32,
    lowband: Option<Vec<i16>>,
    lm: i32,
    gain: i32,
    fill: u32,
) -> (cm: u32)
    requires
        old(dec).wf(),
        band_ready(*old(ctx), n as int, lm as int),
        n <= old(x)@.len(),
        lowband matches Some(low) ==> low@.len() >= n,
        0 <= blocks <= 32,
    ensures
        ({
            let p = leaf(
                *old(dec),
                *old(ctx),
                old(x)@,
                n as int,
                b,
                blocks as int,
                opt_view(lowband),
                lm as int,
                gain,
                fill,
            );
            &&& *final(dec) == p.dec
            &&& *final(ctx) == (BandCtx { remaining_bits: p.remaining, seed: p.seed, ..*old(ctx) })
            &&& final(x)@ == p.x
            &&& cm == p.cm
        }),
        final(dec).wf(),
        final(dec).buf@ == old(dec).buf@,
        final(x)@.len() == old(x)@.len(),
{
    proof {
        reveal(leaf);
    }
    let (q, left) = afford(ctx, n, b, lm);
    ctx.remaining_bits = left;
    if q != 0 {
        let k: i32 = get_pulses(q);
        let count: usize = if blocks < 1 { 1 } else { blocks as usize };
        let (y, mask) = alg_unquant(dec, n, k, ctx.spread, count, gain);
        replace_front(x, &y);
        mask
    } else {
        let (y, mask) = fill_part(ctx, n, blocks, lowband, gain, fill);
        replace_front(x, &y);
        mask
    }
}

/// Quotient by two, rounded towards zero.
fn half_trunc(a: i32) -> (h: i32)
    ensures
        h == trunc_div(a as int, 2),
{
    if a >= 0 {
        a / 2
    } else {
        -((-(a as i64)) / 2) as i32
    }
}

/// Computes [`mid_bits`].
pub fn first_share(b: i32, delta: i32) -> (mbits: i32)
    ensures
        mbits == mid_bits(b, delta),
{
    let q: i32 = half_trunc(b.wrapping_sub(delta));
    let m: i32 = if q > b { b } else { q };
    if m < 0 {
        0
    } else {
        m
    }
}

/// Computes [`rebalanced`].
pub fn rebalance(own: i32, other: i32, before: i32, after: i32, allowed: bool) -> (bits: i32)
    ensures
        bits == rebalanced(own, other, before, after, allowed),
{
    let unused: i32 = other.wrapping_sub(before.wrapping_sub(after));
    if unused > 24 && allowed {
        own.wrapping_add(unused.wrapping_sub(24))
    } else {
        own
    }
}

/// Computes [`split_bias`].
pub(crate) fn bias_split(delta: i32, itheta: i32, half: usize, blocks: i32, lm: i32) -> (d: i32)
    requires
        half <= 0x7fff,
        -1 <= lm <= 3,
    ensures
        d == split_bias(delta, itheta, half as int, blocks as int, lm as int),
{
    if blocks > 1 && itheta != 0 && itheta != 16384 {
        if itheta > 8192 {
            delta.wrapping_sub(delta >> ((4 - lm) as u32))
        } else {
            let raised: i32 = delta.wrapping_add(((half * 8) as i32) >> ((5 - lm) as u32));
            if raised < 0 {
                raised
            } else {
                0
            }
        }
    } else {
        delta
    }
}

/// Decodes a part of a band, splitting it as long as it has bits enough.
#[verifier::rlimit(60)]
pub fn quant_partition_decode(
    dec: &mut EcDec<'_>,
    ctx: &mut BandCtx<'_>,
    x: &mut Vec<i16>,
    n: usize,
    b: i32,
    blocks: i32,
    lowband: Option<Vec<i16>>,
    lm: i32,
    gain: i32,
    fill: u32,
) -> (cm: u32)
    requires
        old(dec).wf(),
        band_ready(*old(ctx), n as int, lm as int),
        n <= old(x)@.len(),
        lowband matches Some(low) ==> low@.len() >= n,
        0 <= blocks <= 32,
    ensures
        ({
            let p = partition(
                *old(dec),
                *old(ctx),
                old(x)@,
                n as int,
                b,
                blocks as int,
                opt_view(lowband),
                lm as int,
                gain,
                fill,
            );
            &&& *final(dec) == p.dec
            &&& *final(ctx) == (BandCtx { remaining_bits: p.remaining, seed: p.seed, ..*old(ctx) })
            &&& final(x)@ == p.x
            &&& cm == p.cm
        }),
        final(dec).wf(),
        final(dec).buf@ == old(dec).buf@,
        final(x)@.len() == old(x)@.len(),
    decreases lm + 1,
{
    proof {
        lemma_band_ready(*ctx, n as int, lm as int);
    }
    let split: bool = if lm >= 0 && n > 2 {
        let at: usize = crate::rate::run_start(ctx.mode, ctx.band, lm);
        let last: usize = at + ctx.mode.cache.bits[at] as usize;
        b > ctx.mode.cache.bits[last] as i32 + 12
    } else {
        false
    };
    assert(split == splits(*ctx, n as int, b, lm as int));
    if !split {
        return quant_leaf_decode(dec, ctx, x, n, b, blocks, lowband, lm, gain, fill);
    }
    let half: usize = n / 2;
    let doubled: u32 = if blocks == 1 { (fill & 1) | (fill << 1u32) } else { fill };
    let parts: i32 = (blocks + 1) / 2;
    let ghost x0 = x@;
    let ghost entry = *ctx;
    proof {
        assert(half == ctx.mode.band_size(lm - 1, ctx.band as int));
    }
    let (s, rest, kept) = compute_theta_decode(
        dec,
        ctx,
        half,
        b,
        parts,
        blocks,
        lm - 1,
        false,
        doubled,
    );
    let mid: i32 = mult32_32_q31(gain, shl32(s.imid, 16));
    let side: i32 = mult32_32_q31(gain, shl32(s.iside, 16));
    let delta: i32 = bias_split(s.delta, s.itheta, half, blocks, lm - 1);
    let mbits: i32 = first_share(rest, delta);
    let sbits: i32 = rest.wrapping_sub(mbits);
    ctx.remaining_bits = ctx.remaining_bits.wrapping_sub(s.qalloc);
    let before: i32 = ctx.remaining_bits;
    let (low_left, low_right) = split_optional(lowband, half);
    let mut right: Vec<i16> = x.split_off(half);
    assert(x@ =~= x0.take(half as int));
    assert(right@ =~= x0.skip(half as int));
    let fill2: u32 = kept >> (parts as u32);
    let shift: u32 = (blocks / 2) as u32;
    let cm: u32;
    if mbits >= sbits {
        let c1: u32 = quant_partition_decode(
            dec,
            ctx,
            x,
            half,
            mbits,
            parts,
            low_left,
            lm - 1,
            mid,
            kept,
        );
        let more: i32 = rebalance(sbits, mbits, before, ctx.remaining_bits, s.itheta != 0);
        let c2: u32 = quant_partition_decode(
            dec,
            ctx,
            &mut right,
            half,
            more,
            parts,
            low_right,
            lm - 1,
            side,
            fill2,
        );
        cm = c1 | (c2 << shift);
    } else {
        let c2: u32 = quant_partition_decode(
            dec,
            ctx,
            &mut right,
            half,
            sbits,
            parts,
            low_right,
            lm - 1,
            side,
            fill2,
        );
        let more: i32 = rebalance(mbits, sbits, before, ctx.remaining_bits, s.itheta != 16384);
        let c1: u32 = quant_partition_decode(
            dec,
            ctx,
            x,
            half,
            more,
            parts,
            low_left,
            lm - 1,
            mid,
            kept,
        );
        cm = (c2 << shift) | c1;
    }
    x.append(&mut right);
    cm
}

} // verus!
