//! Encoding of the two channels of a band as a mid and a side shape.

use vstd::prelude::*;
use crate::analysis::{
    channels_mixed, channels_split, intensity_stereo, split_angle, stereo_itheta, stereo_split,
};
use crate::band_decode::{band_ready, first_share, mid_bits, opt_view, rebalance, rebalanced};
use crate::band_encode::angles_coded;
use crate::band_stereo::{
    all_negated, invert, merge_pair, negated, pair_merged, stereo_merge, stereo_merged, turned,
};
use crate::band_tf::{band_encoded, encode_sign, opt_len, quant_band, sign_encoded, tf_valid};
use crate::fixed::{shl32, Q31_ONE};
use crate::mdct::copied;
use crate::range_encoder::{EcEnc, EncState};
use crate::theta::{compute_theta, theta_encoded, BandCtx, SplitCtx, ThetaEncoded};

verus! {

/// Amplitude below which a channel counts as silent.
pub const MIN_STEREO_ENERGY: i32 = 2;

/// Where one of the channels is silent, the other one stands for both.
pub open spec fn silence_covered(x: Seq<i16>, y: Seq<i16>, left: i32, right: i32) -> (
    Seq<i16>,
    Seq<i16>,
) {
    if left < MIN_STEREO_ENERGY || right < MIN_STEREO_ENERGY {
        if left > right {
            (x, x)
        } else {
            (y, y)
        }
    } else {
        (x, y)
    }
}

/// Applies [`silence_covered`].
fn cover_silence(x: &mut Vec<i16>, y: &mut Vec<i16>, left: i32, right: i32)
    requires
        old(x)@.len() == old(y)@.len(),
    ensures
        (final(x)@, final(y)@) == silence_covered(old(x)@, old(y)@, left, right),
        final(x)@.len() == old(x)@.len(),
        final(y)@.len() == old(y)@.len(),
{
    if left < MIN_STEREO_ENERGY || right < MIN_STEREO_ENERGY {
        if left > right {
            *y = copied(x.as_slice());
        } else {
            *x = copied(y.as_slice());
        }
    }
}

/// The coded angle of two channels, with the channels turned by it.
pub struct Turned {
    pub t: ThetaEncoded,
    pub x: Seq<i16>,
    pub y: Seq<i16>,
}

/// Codes the angle of two channels and turns them into mid and side, or mixes
/// them where there is no side.
#[verifier::opaque]
pub open spec fn channels_turned(
    enc: EncState,
    ctx: BandCtx<'_>,
    x: Seq<i16>,
    y: Seq<i16>,
    n: int,
    b: i32,
    blocks: int,
    lm: int,
    left: i32,
    right: i32,
    fill: u32,
) -> Turned {
    let angle = split_angle(x, y, true);
    let t = theta_encoded(enc, ctx, angle, n, b, blocks, blocks, lm, true, fill);
    if ctx.resolution(n, b as int, lm, true) != 1 {
        if t.split.itheta == 0 {
            Turned { t, x: channels_mixed(x, y, left, right), y }
        } else {
            let (mid, side) = channels_split(x, y);
            Turned { t, x: mid, y: side }
        }
    } else {
        let upright = if angle > 8192 && !ctx.disable_inv {
            all_negated(y)
        } else {
            y
        };
        Turned { t, x: channels_mixed(x, upright, left, right), y: upright }
    }
}

/// Computes [`channels_turned`].
fn turn_channels(
    enc: &mut EcEnc,
    ctx: &BandCtx<'_>,
    x: &mut Vec<i16>,
    y: &mut Vec<i16>,
    n: usize,
    b: i32,
    blocks: i32,
    lm: i32,
    left: i32,
    right: i32,
    fill: u32,
) -> (r: (SplitCtx, i32, u32))
    requires
        old(enc)@.wf(),
        ctx.wf(),
        1 <= n <= 0x7fff,
        -1 <= lm <= 3,
        old(x)@.len() == n,
        old(y)@.len() == n,
    ensures
        ({
            let p = channels_turned(
                old(enc)@,
                *ctx,
                old(x)@,
                old(y)@,
                n as int,
                b,
                blocks as int,
                lm as int,
                left,
                right,
                fill,
            );
            &&& final(enc)@ == p.t.enc
            &&& r == (p.t.split, p.t.b, p.t.fill)
            &&& final(x)@ == p.x
            &&& final(y)@ == p.y
        }),
        final(enc)@.wf(),
        final(x)@.len() == n,
        final(y)@.len() == n,
{
    proof {
        reveal(channels_turned);
    }
    let angle: i32 = stereo_itheta(x, y, true);
    let qn: i32 = ctx.angle_resolution(n, b, lm, true);
    let (s, rest, kept) = compute_theta(enc, ctx, angle, n, b, blocks, blocks, lm, true, fill);
    if qn != 1 {
        if s.itheta == 0 {
            intensity_stereo(x, y, left, right);
        } else {
            stereo_split(x, y);
        }
    } else {
        invert(y, angle > 8192 && !ctx.disable_inv);
        intensity_stereo(x, y, left, right);
    }
    (s, rest, kept)
}

/// Outcome of encoding a band in stereo.
#[verifier::ext_equal]
pub struct CodedPair {
    pub enc: EncState,
    pub remaining: i32,
    pub seed: u32,
    /// Left channel.
    pub x: Seq<i16>,
    /// Right channel.
    pub y: Seq<i16>,
    /// The coded main shape, from which later bands are folded.
    pub main: Seq<i16>,
    /// Collapse mask.
    pub cm: u32,
}

/// Whether the second of two shapes lies to the left of the first one.
pub open spec fn turns_left(main: Seq<i16>, other: Seq<i16>) -> bool {
    main[0] * other[1] - main[1] * other[0] < 0
}

/// Computes [`turns_left`].
fn is_left(main: &Vec<i16>, other: &Vec<i16>) -> (left: bool)
    requires
        main@.len() == 2,
        other@.len() == 2,
    ensures
        left == turns_left(main@, other@),
{
    let a: i64 = crate::fixed::mult16_16(main[0], other[1]) as i64;
    let b: i64 = crate::fixed::mult16_16(main[1], other[0]) as i64;
    proof {
        let (p, q) = (main@[0] as int, other@[1] as int);
        let (r, s) = (main@[1] as int, other@[0] as int);
        assert(-32768 * 32768 <= p * q <= 32768 * 32768) by (nonlinear_arith)
            requires
                -32768 <= p <= 32767,
                -32768 <= q <= 32767,
        ;
        assert(-32768 * 32768 <= r * s <= 32768 * 32768) by (nonlinear_arith)
            requires
                -32768 <= r <= 32767,
                -32768 <= s <= 32767,
        ;
    }
    a - b < 0
}

/// A band of two coefficients per channel.
#[verifier::opaque]
pub open spec fn pair_encoded(
    enc: EncState,
    ctx: BandCtx<'_>,
    x: Seq<i16>,
    y: Seq<i16>,
    b: i32,
    blocks: int,
    lowband: Option<Seq<i16>>,
    lm: int,
    left: i32,
    right: i32,
    fill: u32,
) -> CodedPair {
    let w = channels_turned(enc, ctx, x, y, 2, b, blocks, lm, left, right, fill);
    let t = w.t;
    let coded = t.split.itheta != 0 && t.split.itheta != 16384;
    let sbits: i32 = if coded { 8 } else { 0 };
    let swapped = t.split.itheta > 8192;
    let main = if swapped { w.y } else { w.x };
    let other = if swapped { w.x } else { w.y };
    let sign = coded && turns_left(main, other);
    let e = if coded {
        t.enc.raw_coded(
            if sign {
                1
            } else {
                0
            },
            1,
        )
    } else {
        t.enc
    };
    let p = band_encoded(
        e,
        BandCtx {
            remaining_bits: ctx.remaining_bits.wrapping_sub(t.split.qalloc.wrapping_add(sbits)),
            ..ctx
        },
        main,
        2,
        t.b.wrapping_sub(sbits),
        blocks,
        lowband,
        lm,
        Q31_ONE,
        fill,
    );
    let (l, r) = if ctx.resynth {
        let (l, r) = pair_merged(
            p.x,
            swapped,
            sign,
            shl32(t.split.imid, 16),
            shl32(t.split.iside, 16),
        );
        (l, if t.split.inv { all_negated(r) } else { r })
    } else if swapped {
        (turned(p.x, sign), p.x)
    } else {
        (p.x, turned(p.x, sign))
    };
    CodedPair {
        enc: p.enc,
        remaining: p.remaining,
        seed: p.seed,
        x: l,
        y: r,
        main: p.x,
        cm: p.cm,
    }
}

/// A band of more than two coefficients per channel.
#[verifier::opaque]
pub open spec fn wide_encoded(
    enc: EncState,
    ctx: BandCtx<'_>,
    x: Seq<i16>,
    y: Seq<i16>,
    n: int,
    b: i32,
    blocks: int,
    lowband: Option<Seq<i16>>,
    lm: int,
    left: i32,
    right: i32,
    fill: u32,
) -> CodedPair {
    let w = channels_turned(enc, ctx, x, y, n, b, blocks, lm, left, right, fill);
    let t = w.t;
    let mid = shl32(t.split.imid, 16);
    let side = shl32(t.split.iside, 16);
    let mbits = mid_bits(t.b, t.split.delta);
    let sbits = t.b.wrapping_sub(mbits);
    let before = ctx.remaining_bits.wrapping_sub(t.split.qalloc);
    let entry = BandCtx { remaining_bits: before, ..ctx };
    let fill2 = t.fill >> (blocks as u32);
    let (p, r, last) = if mbits >= sbits {
        let p = band_encoded(t.enc, entry, w.x, n, mbits, blocks, lowband, lm, Q31_ONE, t.fill);
        let r = band_encoded(
            p.enc,
            BandCtx { remaining_bits: p.remaining, seed: p.seed, ..ctx },
            w.y,
            n,
            rebalanced(sbits, mbits, before, p.remaining, t.split.itheta != 0),
            blocks,
            None,
            lm,
            side,
            fill2,
        );
        (p, r, r)
    } else {
        let r = band_encoded(t.enc, entry, w.y, n, sbits, blocks, None, lm, side, fill2);
        let p = band_encoded(
            r.enc,
            BandCtx { remaining_bits: r.remaining, seed: r.seed, ..ctx },
            w.x,
            n,
            rebalanced(mbits, sbits, before, r.remaining, t.split.itheta != 16384),
            blocks,
            lowband,
            lm,
            Q31_ONE,
            t.fill,
        );
        (p, r, p)
    };
    let (l, s) = if ctx.resynth {
        let (l, s) = stereo_merged(p.x, r.x, mid);
        (l, if t.split.inv { all_negated(s) } else { s })
    } else {
        (p.x, r.x)
    };
    CodedPair {
        enc: last.enc,
        remaining: last.remaining,
        seed: last.seed,
        x: l,
        y: s,
        main: p.x,
        cm: p.cm | r.cm,
    }
}

/// Encodes both channels of a band whose amplitudes are `left` and `right`.
pub open spec fn stereo_encoded(
    enc: EncState,
    ctx: BandCtx<'_>,
    x: Seq<i16>,
    y: Seq<i16>,
    n: int,
    b: i32,
    blocks: int,
    lowband: Option<Seq<i16>>,
    lm: int,
    left: i32,
    right: i32,
    fill: u32,
) -> CodedPair {
    if n == 1 {
        let (e1, r1, v1) = sign_encoded(enc, ctx.remaining_bits, x[0], ctx.resynth);
        let (e2, r2, v2) = sign_encoded(e1, r1, y[0], ctx.resynth);
        CodedPair {
            enc: e2,
            remaining: r2,
            seed: ctx.seed,
            x: x.update(0, v1),
            y: y.update(0, v2),
            main: x.update(0, v1),
            cm: 1,
        }
    } else {
        let (l, r) = silence_covered(x, y, left, right);
        if n == 2 {
            pair_encoded(enc, ctx, l, r, b, blocks, lowband, lm, left, right, fill)
        } else {
            wide_encoded(enc, ctx, l, r, n, b, blocks, lowband, lm, left, right, fill)
        }
    }
}

/// Sets the channel beside the main one to the shape at a right angle to it;
/// the main shape is returned.
fn turn_pair(x: &mut Vec<i16>, y: &mut Vec<i16>, swapped: bool, sign: bool) -> (main: Vec<i16>)
    requires
        old(x)@.len() == 2,
        old(y)@.len() == 2,
    ensures
        main@ == (if swapped { old(y)@ } else { old(x)@ }),
        (final(x)@, final(y)@) == (if swapped {
            (turned(main@, sign), main@)
        } else {
            (main@, turned(main@, sign))
        }),
{
    let main: Vec<i16> = if swapped { copied(y.as_slice()) } else { copied(x.as_slice()) };
    let a: i16 = if sign { main[1] } else { negated(main[1]) };
    let b: i16 = if sign { negated(main[0]) } else { main[0] };
    if swapped {
        x.set(0, a);
        x.set(1, b);
        assert(x@ =~= turned(main@, sign));
    } else {
        y.set(0, a);
        y.set(1, b);
        assert(y@ =~= turned(main@, sign));
    }
    main
}

/// Computes [`pair_encoded`].
#[verifier::rlimit(40)]
fn quant_pair(
    enc: &mut EcEnc,
    ctx: &mut BandCtx<'_>,
    x: &mut Vec<i16>,
    y: &mut Vec<i16>,
    b: i32,
    blocks: i32,
    lowband: Option<Vec<i16>>,
    lm: i32,
    left: i32,
    right: i32,
    fill: u32,
) -> (r: (u32, Vec<i16>))
    requires
        old(enc)@.wf(),
        band_ready(*old(ctx), 2, lm as int),
        angles_coded(*old(ctx).mode),
        0 <= lm <= 3,
        old(x)@.len() == 2,
        old(y)@.len() == 2,
        opt_len(opt_view(lowband), 2),
        tf_valid(blocks as int, old(ctx).tf_change as int),
    ensures
        ({
            let p = pair_encoded(
                old(enc)@,
                *old(ctx),
                old(x)@,
                old(y)@,
                b,
                blocks as int,
                opt_view(lowband),
                lm as int,
                left,
                right,
                fill,
            );
            &&& final(enc)@ == p.enc
            &&& *final(ctx) == (BandCtx { remaining_bits: p.remaining, seed: p.seed, ..*old(ctx) })
            &&& final(x)@ == p.x
            &&& final(y)@ == p.y
            &&& r.1@ == p.main
            &&& r.0 == p.cm
        }),
        final(enc)@.wf(),
        final(x)@.len() == 2,
        final(y)@.len() == 2,
        r.1@.len() == 2,
{
    proof {
        reveal(pair_encoded);
        crate::band_decode::lemma_band_ready(*ctx, 2, lm as int);
    }
    let (s, rest, _kept) = turn_channels(enc, ctx, x, y, 2, b, blocks, lm, left, right, fill);
    let coded: bool = s.itheta != 0 && s.itheta != 16384;
    let sbits: i32 = if coded { 8 } else { 0 };
    let swapped: bool = s.itheta > 8192;
    ctx.remaining_bits = ctx.remaining_bits.wrapping_sub(s.qalloc.wrapping_add(sbits));
    let mut sign: bool = false;
    if coded {
        sign = if swapped { is_left(y, x) } else { is_left(x, y) };
        enc.enc_bits(if sign { 1 } else { 0 }, 1);
    }
    let cm: u32 = if swapped {
        quant_band(enc, ctx, y, 2, rest.wrapping_sub(sbits), blocks, lowband, lm, Q31_ONE, fill)
    } else {
        quant_band(enc, ctx, x, 2, rest.wrapping_sub(sbits), blocks, lowband, lm, Q31_ONE, fill)
    };
    if ctx.resynth {
        let main: Vec<i16> = merge_pair(
            x,
            y,
            swapped,
            sign,
            shl32(s.imid, 16),
            shl32(s.iside, 16),
        );
        invert(y, s.inv);
        (cm, main)
    } else {
        let main: Vec<i16> = turn_pair(x, y, swapped, sign);
        (cm, main)
    }
}

/// Computes [`wide_encoded`].
#[verifier::rlimit(40)]
fn quant_wide(
    enc: &mut EcEnc,
    ctx: &mut BandCtx<'_>,
    x: &mut Vec<i16>,
    y: &mut Vec<i16>,
    n: usize,
    b: i32,
    blocks: i32,
    lowband: Option<Vec<i16>>,
    lm: i32,
    left: i32,
    right: i32,
    fill: u32,
) -> (r: (u32, Vec<i16>))
    requires
        old(enc)@.wf(),
        band_ready(*old(ctx), n as int, lm as int),
        angles_coded(*old(ctx).mode),
        0 <= lm <= 3,
        old(x)@.len() == n,
        old(y)@.len() == n,
        opt_len(opt_view(lowband), n as int),
        tf_valid(blocks as int, old(ctx).tf_change as int),
    ensures
        ({
            let p = wide_encoded(
                old(enc)@,
                *old(ctx),
                old(x)@,
                old(y)@,
                n as int,
                b,
                blocks as int,
                opt_view(lowband),
                lm as int,
                left,
                right,
                fill,
            );
            &&& final(enc)@ == p.enc
            &&& *final(ctx) == (BandCtx { remaining_bits: p.remaining, seed: p.seed, ..*old(ctx) })
            &&& final(x)@ == p.x
            &&& final(y)@ == p.y
            &&& r.1@ == p.main
            &&& r.0 == p.cm
        }),
        final(enc)@.wf(),
        final(x)@.len() == n,
        final(y)@.len() == n,
        r.1@.len() == n,
{
    proof {
        reveal(wide_encoded);
        crate::band_decode::lemma_band_ready(*ctx, n as int, lm as int);
    }
    let (s, rest, kept) = turn_channels(enc, ctx, x, y, n, b, blocks, lm, left, right, fill);
    let mid: i32 = shl32(s.imid, 16);
    let side: i32 = shl32(s.iside, 16);
    let mbits: i32 = first_share(rest, s.delta);
    let sbits: i32 = rest.wrapping_sub(mbits);
    ctx.remaining_bits = ctx.remaining_bits.wrapping_sub(s.qalloc);
    let before: i32 = ctx.remaining_bits;
    let fill2: u32 = kept >> (blocks as u32);
    let cm: u32 = if mbits >= sbits {
        let c1: u32 = quant_band(enc, ctx, x, n, mbits, blocks, lowband, lm, Q31_ONE, kept);
        let more: i32 = rebalance(sbits, mbits, before, ctx.remaining_bits, s.itheta != 0);
        let c2: u32 = quant_band(enc, ctx, y, n, more, blocks, None, lm, side, fill2);
        c1 | c2
    } else {
        let c2: u32 = quant_band(enc, ctx, y, n, sbits, blocks, None, lm, side, fill2);
        let more: i32 = rebalance(mbits, sbits, before, ctx.remaining_bits, s.itheta != 16384);
        let c1: u32 = quant_band(enc, ctx, x, n, more, blocks, lowband, lm, Q31_ONE, kept);
        c1 | c2
    };
    let main: Vec<i16> = copied(x.as_slice());
    if ctx.resynth {
        stereo_merge(x, y, mid);
        invert(y, s.inv);
    }
    (cm, main)
}

/// Encodes both channels of a band; the collapse mask and the main shape are
/// returned.
pub fn quant_band_stereo(
    enc: &mut EcEnc,
    ctx: &mut BandCtx<'_>,
    x: &mut Vec<i16>,
    y: &mut Vec<i16>,
    n: usize,
    b: i32,
    blocks: i32,
    lowband: Option<Vec<i16>>,
    lm: i32,
    left: i32,
    right: i32,
    fill: u32,
) -> (r: (u32, Vec<i16>))
    requires
        old(enc)@.wf(),
        band_ready(*old(ctx), n as int, lm as int),
        angles_coded(*old(ctx).mode),
        0 <= lm <= 3,
        old(x)@.len() == n,
        old(y)@.len() == n,
        opt_len(opt_view(lowband), n as int),
        tf_valid(blocks as int, old(ctx).tf_change as int),
    ensures
        ({
            let p = stereo_encoded(
                old(enc)@,
                *old(ctx),
                old(x)@,
                old(y)@,
                n as int,
                b,
                blocks as int,
                opt_view(lowband),
                lm as int,
                left,
                right,
                fill,
            );
            &&& final(enc)@ == p.enc
            &&& *final(ctx) == (BandCtx { remaining_bits: p.remaining, seed: p.seed, ..*old(ctx) })
            &&& final(x)@ == p.x
            &&& final(y)@ == p.y
            &&& r.1@ == p.main
            &&& r.0 == p.cm
        }),
        final(enc)@.wf(),
        final(x)@.len() == n,
        final(y)@.len() == n,
        r.1@.len() == n,
{
    if n == 1 {
        let v1: i16 = encode_sign(enc, ctx, x[0]);
        x.set(0, v1);
        let v2: i16 = encode_sign(enc, ctx, y[0]);
        y.set(0, v2);
        return (1, copied(x.as_slice()));
    }
    cover_silence(x, y, left, right);
    if n == 2 {
        quant_pair(enc, ctx, x, y, b, blocks, lowband, lm, left, right, fill)
    } else {
        quant_wide(enc, ctx, x, y, n, b, blocks, lowband, lm, left, right, fill)
    }
}

} // verus!
