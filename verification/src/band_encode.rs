//! Recursive encoding of the shape of a band, and of one channel of a band with
//! the changes of its time-frequency resolution around it.

use vstd::prelude::*;
use crate::analysis::{split_angle, stereo_itheta};
use crate::band_decode::{
    afford, affordable, band_ready, bias_split, drawn, fill_part, first_share, folded_noise,
    front_replaced, lemma_band_ready, mid_bits, opt_skip, opt_take, opt_view, rebalance,
    rebalanced, replace_front, split_bias, split_optional, splits, white_noise,
};
use crate::bands::low_mask;
use crate::fixed::{mult32_32_q31, shl32};
use crate::mode::OpusCustomMode;
use crate::pvq::{get_pulses, pulses_of, renormalised};
use crate::pvq_encode::{alg_quant, pvq_encoded};
use crate::range_encoder::{EcEnc, EncState};
use crate::rate::{bits_for, pulses_for};
use crate::synthesis::copy_range;
use crate::theta::{angle_steps, compute_qn, compute_theta, lemma_angle_kept, theta_encoded, BandCtx};

verus! {

/// Outcome of encoding a band or a part of it.
#[verifier::ext_equal]
pub struct CodedPart {
    pub enc: EncState,
    /// Bits left for the following bands.
    pub remaining: i32,
    /// State of the noise generator.
    pub seed: u32,
    /// Coefficients, as the decoder will see them if they are reconstructed.
    pub x: Seq<i16>,
    /// Collapse mask.
    pub cm: u32,
}

/// A part too small to be split: coded pulses, folding or noise.
#[verifier::opaque]
pub open spec fn leaf_encoded(
    enc: EncState,
    ctx: BandCtx<'_>,
    x: Seq<i16>,
    n: int,
    b: i32,
    blocks: int,
    lowband: Option<Seq<i16>>,
    lm: int,
    gain: i32,
    fill: u32,
) -> CodedPart {
    let band = ctx.band as int;
    let q = affordable(
        *ctx.mode,
        band,
        lm,
        pulses_for(*ctx.mode, band, lm, b as int),
        ctx.remaining_bits,
    );
    let remaining = ctx.remaining_bits.wrapping_sub(bits_for(*ctx.mode, band, lm, q) as i32);
    if q != 0 {
        let (e, y, mask) = pvq_encoded(
            enc,
            x.take(n),
            pulses_of(q),
            ctx.spread as int,
            if blocks < 1 { 1 } else { blocks },
            gain,
            ctx.resynth,
        );
        CodedPart { enc: e, remaining, seed: ctx.seed, x: front_replaced(x, y), cm: mask }
    } else if !ctx.resynth {
        CodedPart { enc, remaining, seed: ctx.seed, x, cm: 0 }
    } else {
        let kept = fill & low_mask(blocks);
        if kept == 0 {
            CodedPart {
                enc,
                remaining,
                seed: ctx.seed,
                x: front_replaced(x, Seq::new(n as nat, |i: int| 0i16)),
                cm: 0,
            }
        } else {
            let (source, cm) = match lowband {
                Some(low) => (folded_noise(low, n, ctx.seed), kept),
                None => (white_noise(n, ctx.seed), low_mask(blocks)),
            };
            CodedPart {
                enc,
                remaining,
                seed: drawn(ctx.seed, n as nat),
                x: front_replaced(x, renormalised(source, gain)),
                cm,
            }
        }
    }
}

/// Encodes a part of a band of `n` coefficients with `b` eighths of a bit.
pub open spec fn partition_encoded(
    enc: EncState,
    ctx: BandCtx<'_>,
    x: Seq<i16>,
    n: int,
    b: i32,
    blocks: int,
    lowband: Option<Seq<i16>>,
    lm: int,
    gain: i32,
    fill: u32,
) -> CodedPart
    decreases (if lm < 0 { 0 } else { lm + 1 }),
{
    if !splits(ctx, n, b, lm) {
        leaf_encoded(enc, ctx, x, n, b, blocks, lowband, lm, gain, fill)
    } else {
        let half = n / 2;
        let doubled = if blocks == 1 { (fill & 1) | (fill << 1u32) } else { fill };
        let parts = (blocks + 1) / 2;
        let angle = split_angle(x.take(half), x.skip(half).take(half), false);
        let t = theta_encoded(enc, ctx, angle, half, b, parts, blocks, lm - 1, false, doubled);
        let mid = mult32_32_q31(gain, shl32(t.split.imid, 16));
        let side = mult32_32_q31(gain, shl32(t.split.iside, 16));
        let delta = split_bias(t.split.delta, t.split.itheta, half, blocks, lm - 1);
        let mbits = mid_bits(t.b, delta);
        let sbits = t.b.wrapping_sub(mbits);
        let before = ctx.remaining_bits.wrapping_sub(t.split.qalloc);
        let entry = BandCtx { remaining_bits: before, ..ctx };
        let fill2 = t.fill >> (parts as u32);
        let shift = (blocks / 2) as u32;
        if mbits >= sbits {
            let p = partition_encoded(
                t.enc,
                entry,
                x.take(half),
                half,
                mbits,
                parts,
                opt_take(lowband, half),
                lm - 1,
                mid,
                t.fill,
            );
            let r = partition_encoded(
                p.enc,
                BandCtx { remaining_bits: p.remaining, seed: p.seed, ..ctx },
                x.skip(half),
                half,
                rebalanced(sbits, mbits, before, p.remaining, t.split.itheta != 0),
                parts,
                opt_skip(lowband, half),
                lm - 1,
                side,
                fill2,
            );
            CodedPart { x: p.x + r.x, cm: p.cm | (r.cm << shift), ..r }
        } else {
            let r = partition_encoded(
                t.enc,
                entry,
                x.skip(half),
                half,
                sbits,
                parts,
                opt_skip(lowband, half),
                lm - 1,
                side,
                fill2,
            );
            let p = partition_encoded(
                r.enc,
                BandCtx { remaining_bits: r.remaining, seed: r.seed, ..ctx },
                x.take(half),
                half,
                rebalanced(mbits, sbits, before, r.remaining, t.split.itheta != 16384),
                parts,
                opt_take(lowband, half),
                lm - 1,
                mid,
                t.fill,
            );
            CodedPart { x: p.x + r.x, cm: (r.cm << shift) | p.cm, ..p }
        }
    }
}

/// Resolution of the angle of a part that has just enough bits to be split.
pub open spec fn least_steps(mode: OpusCustomMode, lm: int, band: int) -> int {
    let at = mode.cache_start(lm, band);
    let bits = mode.cache.bits@;
    let cap = mode.log_n@[band] + (lm - 1) * 8;
    angle_steps(
        mode.band_size(lm, band) / 2,
        bits[at + bits[at]] + 13,
        cap / 2 - 4,
        cap,
        false,
    )
}

/// Every part that is split has bits enough for an angle.
pub open spec fn angles_coded(mode: OpusCustomMode) -> bool {
    forall|lm: int, band: int|
        #![trigger mode.cache_start(lm, band)]
        0 <= lm <= mode.max_lm && 0 <= band < mode.num_ebands && mode.width(band) >= 1
            && mode.band_size(lm, band) > 2 ==> least_steps(mode, lm, band) != 1
}

/// Checks [`angles_coded`].
pub fn codes_angles(mode: &OpusCustomMode) -> (ok: bool)
    requires
        mode.wf(),
    ensures
        ok == angles_coded(*mode),
{
    let mut lm: i32 = 0;
    while lm <= mode.max_lm as i32
        invariant
            mode.wf(),
            0 <= lm <= mode.max_lm + 1 <= 4,
            forall|l: int, band: int|
                #![trigger mode.cache_start(l, band)]
                0 <= l < lm && 0 <= band < mode.num_ebands && mode.width(band) >= 1
                    && mode.band_size(l, band) > 2 ==> least_steps(*mode, l, band) != 1,
        decreases mode.max_lm + 1 - lm,
    {
        let mut band: usize = 0;
        while band < mode.num_ebands
            invariant
                mode.wf(),
                0 <= lm <= mode.max_lm <= 3,
                band <= mode.num_ebands,
                forall|l: int, k: int|
                    #![trigger mode.cache_start(l, k)]
                    0 <= l <= lm && 0 <= k < (if l < lm { mode.num_ebands } else { band })
                        && mode.width(k) >= 1 && mode.band_size(l, k) > 2 ==> least_steps(
                        *mode,
                        l,
                        k,
                    ) != 1,
            decreases mode.num_ebands - band,
        {
            assert(mode.edge(0) <= mode.edge(band as int) <= mode.edge(band + 1) <= mode.edge(
                mode.num_ebands as int,
            ) <= 256);
            let width: i32 = mode.e_bands[band + 1] as i32 - mode.e_bands[band] as i32;
            let size: i32 = if lm == 0 {
                width
            } else if lm == 1 {
                width * 2
            } else if lm == 2 {
                width * 4
            } else {
                width * 8
            };
            assert(width >= 1 ==> size == mode.band_size(lm as int, band as int));
            if width >= 1 && size > 2 {
                proof {
                    let ctx = BandCtx {
                        mode,
                        band,
                        intensity: 0,
                        spread: 0,
                        tf_change: 0,
                        remaining_bits: 0,
                        seed: 0,
                        theta_round: 0,
                        disable_inv: false,
                        avoid_split_noise: false,
                        resynth: false,
                    };
                    lemma_band_ready(ctx, size as int, lm as int);
                }
                let at: usize = crate::rate::run_start(mode, band, lm);
                let last: usize = at + mode.cache.bits[at] as usize;
                let cap: i32 = mode.log_n[band] as i32 + (lm - 1) * 8;
                let steps: i32 = compute_qn(
                    size / 2,
                    mode.cache.bits[last] as i32 + 13,
                    crate::math::half_floor(cap) - 4,
                    cap,
                    false,
                );
                if steps == 1 {
                    assert(least_steps(*mode, lm as int, band as int) == 1);
                    return false;
                }
            }
            band = band + 1;
        }
        lm = lm + 1;
    }
    true
}

/// A part that is split has an angle with more than one step.
pub proof fn lemma_split_has_angle(ctx: BandCtx<'_>, n: int, b: i32, lm: int)
    requires
        band_ready(ctx, n, lm),
        angles_coded(*ctx.mode),
        splits(ctx, n, b, lm),
    ensures
        ctx.resolution(n / 2, b as int, lm - 1, false) != 1,
{
    let mode = *ctx.mode;
    let band = ctx.band as int;
    let at = mode.cache_start(lm, band);
    let bits = mode.cache.bits@;
    let cap = mode.log_n@[band] + (lm - 1) * 8;
    assert(least_steps(mode, lm, band) != 1);
    lemma_angle_kept(n / 2, bits[at + bits[at]] + 13, b as int, cap / 2 - 4, cap, false);
}

/// Encodes a part that is not split.
fn quant_leaf(
    enc: &mut EcEnc,
    ctx: &mut BandCtx<'_>,
    x: &mut Vec<i16>,
    n: usize,
    b: i32,
    blocks: i32,
    lowband: Option<Vec<i16>>,
    lm: i32,
    gain: i32,
    fill: u32,
) -> (cm: u32)
    requires
        old(enc)@.wf(),
        band_ready(*old(ctx), n as int, lm as int),
        n <= old(x)@.len(),
        lowband matches Some(low) ==> low@.len() >= n,
        0 <= blocks <= 32,
    ensures
        ({
            let p = leaf_encoded(
                old(enc)@,
                *old(ctx),
                old(x)@,
                n as int,
                b,
                blocks as int,
                opt_view(lowband),
                lm as int,
                gain,
                fill,
            );
            &&& final(enc)@ == p.enc
            &&& *final(ctx) == (BandCtx { remaining_bits: p.remaining, seed: p.seed, ..*old(ctx) })
            &&& final(x)@ == p.x
            &&& cm == p.cm
        }),
        final(enc)@.wf(),
        final(x)@.len() == old(x)@.len(),
{
    proof {
        reveal(leaf_encoded);
    }
    let (q, left) = afford(ctx, n, b, lm);
    ctx.remaining_bits = left;
    if q != 0 {
        let k: i32 = get_pulses(q);
        let count: usize = if blocks < 1 { 1 } else { blocks as usize };
        let mut head: Vec<i16> = copy_range(x, 0, n);
        assert(head@ =~= x@.take(n as int));
        let mask: u32 = alg_quant(enc, &mut head, k, ctx.spread, count, gain, ctx.resynth);
        replace_front(x, &head);
        mask
    } else if !ctx.resynth {
        0
    } else {
        let (y, mask) = fill_part(ctx, n, blocks, lowband, gain, fill);
        replace_front(x, &y);
        mask
    }
}

/// Encodes a part of a band, splitting it as long as it has bits enough.
#[verifier::rlimit(60)]
pub fn quant_partition(
    enc: &mut EcEnc,
    ctx: &mut BandCtx<'_>,
    x: &mut Vec<i16>,
    n: usize,
    b: i32,
    blocks: i32,
    lowband: Option<Vec<i16>>,
    lm: i32,
    gain: i32,
    fill: u32,
) -> (cm: u32)
    requires
        old(enc)@.wf(),
        band_ready(*old(ctx), n as int, lm as int),
        angles_coded(*old(ctx).mode),
        n <= old(x)@.len(),
        lowband matches Some(low) ==> low@.len() >= n,
        0 <= blocks <= 32,
    ensures
        ({
            let p = partition_encoded(
                old(enc)@,
                *old(ctx),
                old(x)@,
                n as int,
                b,
                blocks as int,
                opt_view(lowband),
                lm as int,
                gain,
                fill,
            );
            &&& final(enc)@ == p.enc
            &&& *final(ctx) == (BandCtx { remaining_bits: p.remaining, seed: p.seed, ..*old(ctx) })
            &&& final(x)@ == p.x
            &&& cm == p.cm
        }),
        final(enc)@.wf(),
        final(x)@.len() == old(x)@.len(),
    decreases lm + 1,
{
    proof {
        lemma_band_ready(*ctx, n as int, lm as int);
    }
    let split: bool = if lm >= 0 && n > 2 {
        let at: usize = crate::rate::run_start(ctx.mode, ctx.band, lm);
        let last: usize = at + ctx.mode.cache.bits[at] as usize;
        b > ctx.mode.cache.bits[last] as i32 + 12
    } else {
        false
    };
    assert(split == splits(*ctx, n as int, b, lm as int));
    if !split {
        return quant_leaf(enc, ctx, x, n, b, blocks, lowband, lm, gain, fill);
    }
    let half: usize = n / 2;
    let doubled: u32 = if blocks == 1 { (fill & 1) | (fill << 1u32) } else { fill };
    let parts: i32 = (blocks + 1) / 2;
    let ghost x0 = x@;
    proof {
        assert(half == ctx.mode.band_size(lm - 1, ctx.band as int));
        lemma_split_has_angle(*ctx, n as int, b, lm as int);
    }
    let first: Vec<i16> = copy_range(x, 0, half);
    let second: Vec<i16> = copy_range(x, half, half + half);
    assert(first@ =~= x0.take(half as int));
    assert(second@ =~= x0.skip(half as int).take(half as int));
    let angle: i32 = stereo_itheta(&first, &second, false);
    let (s, rest, kept) = compute_theta(
        enc,
        ctx,
        angle,
        half,
        b,
        parts,
        blocks,
        lm - 1,
        false,
        doubled,
    );
    let mid: i32 = mult32_32_q31(gain, shl32(s.imid, 16));
    let side: i32 = mult32_32_q31(gain, shl32(s.iside, 16));
    let delta: i32 = bias_split(s.delta, s.itheta, half, blocks, lm - 1);
    let mbits: i32 = first_share(rest, delta);
    let sbits: i32 = rest.wrapping_sub(mbits);
    ctx.remaining_bits = ctx.remaining_bits.wrapping_sub(s.qalloc);
    let before: i32 = ctx.remaining_bits;
    let (low_left, low_right) = split_optional(lowband, half);
    let mut right: Vec<i16> = x.split_off(half);
    assert(x@ =~= x0.take(half as int));
    assert(right@ =~= x0.skip(half as int));
    let fill2: u32 = kept >> (parts as u32);
    let shift: u32 = (blocks / 2) as u32;
    let cm: u32;
    if mbits >= sbits {
        let c1: u32 = quant_partition(
            enc,
            ctx,
            x,
            half,
            mbits,
            parts,
            low_left,
            lm - 1,
            mid,
            kept,
        );
        let more: i32 = rebalance(sbits, mbits, before, ctx.remaining_bits, s.itheta != 0);
        let c2: u32 = quant_partition(
            enc,
            ctx,
            &mut right,
            half,
            more,
            parts,
            low_right,
            lm - 1,
            side,
            fill2,
        );
        cm = c1 | (c2 << shift);
    } else {
        let c2: u32 = quant_partition(
            enc,
            ctx,
            &mut right,
            half,
            sbits,
            parts,
            low_right,
            lm - 1,
            side,
            fill2,
        );
        let more: i32 = rebalance(mbits, sbits, before, ctx.remaining_bits, s.itheta != 16384);
        let c1: u32 = quant_partition(
            enc,
            ctx,
            x,
            half,
            more,
            parts,
            low_left,
            lm - 1,
            mid,
            kept,
        );
        cm = (c2 << shift) | c1;
    }
    x.append(&mut right);
    cm
}

} // verus!
