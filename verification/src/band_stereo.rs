//! Decoding of the two channels of a band from a mid and a side shape.

use vstd::prelude::*;
use crate::band_decode::{
    band_ready, first_share, mid_bits, opt_view, rebalance, rebalanced,
};
use crate::band_tf::{band_decoded, decode_sign, opt_len, quant_band_decode, sign_decoded, tf_valid};
use crate::fixed::{
    extract16, mult16_16, mult32_32_q31, pshr32, shl32, shr32, vshr32, Q31_ONE,
};
use crate::math::{celt_ilog2, celt_rsqrt_norm, ilog2, rsqrt_norm};
use crate::mdct::copied;
use crate::range_decoder::EcDec;
use crate::theta::{compute_theta_decode, theta_decoded, BandCtx};

verus! {

/// Sum of the products of the first `n` elements, in wrapping 32-bit arithmetic.
pub open spec fn inner_product(a: Seq<i16>, b: Seq<i16>, n: int) -> i32
    decreases n,
{
    if n <= 0 {
        0
    } else {
        inner_product(a, b, n - 1).wrapping_add(mult16_16(a[n - 1], b[n - 1]))
    }
}

/// Computes [`inner_product`] over whole vectors.
pub fn inner_prod(a: &Vec<i16>, b: &Vec<i16>) -> (sum: i32)
    requires
        a@.len() == b@.len(),
    ensures
        sum == inner_product(a@, b@, a@.len() as int),
{
    let mut sum: i32 = 0;
    for i in 0..a.len()
        invariant
            a@.len() == b@.len(),
            sum == inner_product(a@, b@, i as int),
    {
        sum = sum.wrapping_add(mult16_16(a[i], b[i]));
    }
    sum
}

/// Smallest channel energy, in Q28, for which the channels are told apart.
pub const MERGE_THRESHOLD: i32 = 161061;

/// Gain that normalises a channel of energy `e`, with its shift.
pub open spec fn merge_gain(e: i32) -> (i16, u32) {
    let k = ilog2(e as int) / 2;
    (rsqrt_norm(vshr32(e, (2 * (k - 7)) as i32)), ((if k < 7 { 7int } else { k }) + 1) as u32)
}

/// Computes [`merge_gain`].
fn channel_gain(e: i32) -> (g: (i16, u32))
    requires
        e >= MERGE_THRESHOLD,
    ensures
        g == merge_gain(e),
        8 <= g.1 <= 16,
{
    let k: i32 = celt_ilog2(e) / 2;
    let t: i32 = vshr32(e, 2 * (k - 7));
    (celt_rsqrt_norm(t), if k < 7 { 8 } else { (k + 1) as u32 })
}

/// Left and right channel from a unit mid shape, a side shape and the gain of
/// the mid channel.
pub open spec fn stereo_merged(x: Seq<i16>, y: Seq<i16>, mid: i32) -> (Seq<i16>, Seq<i16>) {
    let cross = mult32_32_q31(mid, inner_product(y, x, x.len() as int));
    let both = shr32(mult32_32_q31(mid, mid), 3).wrapping_add(
        inner_product(y, y, x.len() as int),
    );
    let el = both.wrapping_sub(cross.wrapping_mul(2));
    let er = both.wrapping_add(cross.wrapping_mul(2));
    if er < MERGE_THRESHOLD || el < MERGE_THRESHOLD {
        (x, x)
    } else {
        let (lgain, lshift) = merge_gain(el);
        let (rgain, rshift) = merge_gain(er);
        (
            Seq::new(
                x.len(),
                |i: int|
                    extract16(
                        pshr32(
                            mult16_16(
                                lgain,
                                extract16(mult32_32_q31(mid, x[i] as i32)).wrapping_sub(y[i]),
                            ),
                            lshift,
                        ),
                    ),
            ),
            Seq::new(
                x.len(),
                |i: int|
                    extract16(
                        pshr32(
                            mult16_16(
                                rgain,
                                extract16(mult32_32_q31(mid, x[i] as i32)).wrapping_add(y[i]),
                            ),
                            rshift,
                        ),
                    ),
            ),
        )
    }
}

/// Replaces a mid and a side shape by the left and the right channel.
pub fn stereo_merge(x: &mut Vec<i16>, y: &mut Vec<i16>, mid: i32)
    requires
        old(x)@.len() == old(y)@.len(),
    ensures
        (final(x)@, final(y)@) == stereo_merged(old(x)@, old(y)@, mid),
        final(x)@.len() == old(x)@.len(),
        final(y)@.len() == old(y)@.len(),
{
    let ghost x0 = x@;
    let ghost y0 = y@;
    let n: usize = x.len();
    let cross: i32 = mult32_32_q31(mid, inner_prod(y, x));
    let both: i32 = shr32(mult32_32_q31(mid, mid), 3).wrapping_add(inner_prod(y, y));
    let el: i32 = both.wrapping_sub(cross.wrapping_mul(2));
    let er: i32 = both.wrapping_add(cross.wrapping_mul(2));
    if er < MERGE_THRESHOLD || el < MERGE_THRESHOLD {
        for i in 0..n
            invariant
                n == x@.len(),
                x@ == x0,
                y@.len() == n,
                forall|j: int| 0 <= j < i ==> y@[j] == x0[j],
        {
            y.set(i, x[i]);
        }
        assert(y@ =~= x0);
        return;
    }
    let (lgain, lshift) = channel_gain(el);
    let (rgain, rshift) = channel_gain(er);
    let ghost goal = stereo_merged(x0, y0, mid);
    for i in 0..n
        invariant
            n == x@.len(),
            y@.len() == n,
            x0.len() == n,
            y0.len() == n,
            8 <= lshift <= 16,
            8 <= rshift <= 16,
            goal == stereo_merged(x0, y0, mid),
            forall|j: int| 0 <= j < i ==> x@[j] == goal.0[j] && y@[j] == goal.1[j],
            forall|j: int| i <= j < n ==> x@[j] == x0[j] && y@[j] == y0[j],
            !(er < MERGE_THRESHOLD || el < MERGE_THRESHOLD),
            (lgain, lshift) == merge_gain(el),
            (rgain, rshift) == merge_gain(er),
            el == shr32(mult32_32_q31(mid, mid), 3).wrapping_add(
                inner_product(y0, y0, x0.len() as int),
            ).wrapping_sub(
                mult32_32_q31(mid, inner_product(y0, x0, x0.len() as int)).wrapping_mul(2),
            ),
            er == shr32(mult32_32_q31(mid, mid), 3).wrapping_add(
                inner_product(y0, y0, x0.len() as int),
            ).wrapping_add(
                mult32_32_q31(mid, inner_product(y0, x0, x0.len() as int)).wrapping_mul(2),
            ),
    {
        let l: i16 = extract16(mult32_32_q31(mid, x[i] as i32));
        let r: i16 = y[i];
        x.set(i, extract16(pshr32(mult16_16(lgain, l.wrapping_sub(r)), lshift)));
        y.set(i, extract16(pshr32(mult16_16(rgain, l.wrapping_add(r)), rshift)));
    }
    assert(x@ =~= goal.0);
    assert(y@ =~= goal.1);
}

/// Negation that maps the smallest value to itself.
#[verifier::allow_in_spec]
pub fn negated(v: i16) -> i16
    returns
        0i16.wrapping_sub(v),
{
    0i16.wrapping_sub(v)
}

/// A channel with the opposite sign.
pub open spec fn all_negated(y: Seq<i16>) -> Seq<i16> {
    Seq::new(y.len(), |i: int| negated(y[i]))
}

/// Applies [`all_negated`] where `inv` asks for it.
pub(crate) fn invert(y: &mut Vec<i16>, inv: bool)
    ensures
        final(y)@ == (if inv { all_negated(old(y)@) } else { old(y)@ }),
        final(y)@.len() == old(y)@.len(),
{
    if !inv {
        return;
    }
    let n: usize = y.len();
    for i in 0..n
        invariant
            n == y@.len(),
            n == old(y)@.len(),
            forall|j: int| 0 <= j < i ==> y@[j] == negated(old(y)@[j]),
            forall|j: int| i <= j < n ==> y@[j] == old(y)@[j],
    {
        let v: i16 = negated(y[i]);
        y.set(i, v);
    }
    assert(y@ =~= all_negated(old(y)@));
}

/// The shape of two coefficients at a right angle to another one.
pub open spec fn turned(main: Seq<i16>, sign: bool) -> Seq<i16> {
    if sign {
        seq![main[1], negated(main[0])]
    } else {
        seq![negated(main[1]), main[0]]
    }
}

/// A channel pair of two coefficients each, orthogonal shapes scaled by the
/// gains of mid and side and rotated.
pub open spec fn pair_merged(
    main: Seq<i16>,
    swapped: bool,
    sign: bool,
    mid: i32,
    side: i32,
) -> (Seq<i16>, Seq<i16>) {
    let other = turned(main, sign);
    let m = if swapped { other } else { main };
    let s = if swapped { main } else { other };
    let m0 = extract16(mult32_32_q31(mid, m[0] as i32));
    let m1 = extract16(mult32_32_q31(mid, m[1] as i32));
    let s0 = extract16(mult32_32_q31(side, s[0] as i32));
    let s1 = extract16(mult32_32_q31(side, s[1] as i32));
    (
        seq![m0.wrapping_sub(s0), m1.wrapping_sub(s1)],
        seq![s0.wrapping_add(m0), s1.wrapping_add(m1)],
    )
}

/// Outcome of decoding a band in stereo.
#[verifier::ext_equal]
pub struct StereoPart<'a> {
    pub dec: EcDec<'a>,
    pub remaining: i32,
    pub seed: u32,
    /// Left channel.
    pub x: Seq<i16>,
    /// Right channel.
    pub y: Seq<i16>,
    /// The decoded main shape, from which later bands are folded.
    pub main: Seq<i16>,
    /// Collapse mask.
    pub cm: u32,
}

/// A band of two coefficients per channel.
#[verifier::opaque]
pub open spec fn pair_decoded<'a>(
    dec: EcDec<'a>,
    ctx: BandCtx<'_>,
    x: Seq<i16>,
    y: Seq<i16>,
    b: i32,
    blocks: int,
    lowband: Option<Seq<i16>>,
    lm: int,
    fill: u32,
) -> StereoPart<'a> {
    let t = theta_decoded(dec, ctx, 2, b, blocks, blocks, lm, true, fill);
    let coded = t.split.itheta != 0 && t.split.itheta != 16384;
    let sbits: i32 = if coded { 8 } else { 0 };
    let swapped = t.split.itheta > 8192;
    let (d, bit) = if coded { t.dec.raw(1) } else { (t.dec, 0u32) };
    let p = band_decoded(
        d,
        BandCtx {
            remaining_bits: ctx.remaining_bits.wrapping_sub(t.split.qalloc.wrapping_add(sbits)),
            ..ctx
        },
        if swapped { y } else { x },
        2,
        t.b.wrapping_sub(sbits),
        blocks,
        lowband,
        lm,
        Q31_ONE,
        fill,
    );
    let (l, r) = pair_merged(
        p.x,
        swapped,
        bit != 0,
        shl32(t.split.imid, 16),
        shl32(t.split.iside, 16),
    );
    StereoPart {
        dec: p.dec,
        remaining: p.remaining,
        seed: p.seed,
        x: l,
        y: if t.split.inv { all_negated(r) } else { r },
        main: p.x,
        cm: p.cm,
    }
}

/// A band of more than two coefficients per channel.
#[verifier::opaque]
pub open spec fn wide_decoded<'a>(
    dec: EcDec<'a>,
    ctx: BandCtx<'_>,
    x: Seq<i16>,
    y: Seq<i16>,
    n: int,
    b: i32,
    blocks: int,
    lowband: Option<Seq<i16>>,
    lm: int,
    fill: u32,
) -> StereoPart<'a> {
    let t = theta_decoded(dec, ctx, n, b, blocks, blocks, lm, true, fill);
    let mid = shl32(t.split.imid, 16);
    let side = shl32(t.split.iside, 16);
    let mbits = mid_bits(t.b, t.split.delta);
    let sbits = t.b.wrapping_sub(mbits);
    let before = ctx.remaining_bits.wrapping_sub(t.split.qalloc);
    let entry = BandCtx { remaining_bits: before, ..ctx };
    let fill2 = t.fill >> (blocks as u32);
    let (p, r, last) = if mbits >= sbits {
        let p = band_decoded(t.dec, entry, x, n, mbits, blocks, lowband, lm, Q31_ONE, t.fill);
        let r = band_decoded(
            p.dec,
            BandCtx { remaining_bits: p.remaining, seed: p.seed, ..ctx },
            y,
            n,
            rebalanced(sbits, mbits, before, p.remaining, t.split.itheta != 0),
            blocks,
            None,
            lm,
            side,
            fill2,
        );
        (p, r, r)
    } else {
        let r = band_decoded(t.dec, entry, y, n, sbits, blocks, None, lm, side, fill2);
        let p = band_decoded(
            r.dec,
            BandCtx { remaining_bits: r.remaining, seed: r.seed, ..ctx },
            x,
            n,
            rebalanced(mbits, sbits, before, r.remaining, t.split.itheta != 16384),
            blocks,
            lowband,
            lm,
            Q31_ONE,
            t.fill,
        );
        (p, r, p)
    };
    let (left, right) = stereo_merged(p.x, r.x, mid);
    StereoPart {
        dec: last.dec,
        remaining: last.remaining,
        seed: last.seed,
        x: left,
        y: if t.split.inv { all_negated(right) } else { right },
        main: p.x,
        cm: p.cm | r.cm,
    }
}

/// Decodes both channels of a band.
pub open spec fn stereo_decoded<'a>(
    dec: EcDec<'a>,
    ctx: BandCtx<'_>,
    x: Seq<i16>,
    y: Seq<i16>,
    n: int,
    b: i32,
    blocks: int,
    lowband: Option<Seq<i16>>,
    lm: int,
    fill: u32,
) -> StereoPart<'a> {
    if n == 1 {
        let (d1, r1, v1) = sign_decoded(dec, ctx.remaining_bits);
        let (d2, r2, v2) = sign_decoded(d1, r1);
        StereoPart {
            dec: d2,
            remaining: r2,
            seed: ctx.seed,
            x: x.update(0, v1),
            y: y.update(0, v2),
            main: x.update(0, v1),
            cm: 1,
        }
    } else if n == 2 {
        pair_decoded(dec, ctx, x, y, b, blocks, lowband, lm, fill)
    } else {
        wide_decoded(dec, ctx, x, y, n, b, blocks, lowband, lm, fill)
    }
}

/// Computes [`pair_merged`] into the two channels; the main shape is returned.
pub(crate) fn merge_pair(
    x: &mut Vec<i16>,
    y: &mut Vec<i16>,
    swapped: bool,
    sign: bool,
    mid: i32,
    side: i32,
) -> (main: Vec<i16>)
    requires
        old(x)@.len() == 2,
        old(y)@.len() == 2,
    ensures
        main@ == (if swapped { old(y)@ } else { old(x)@ }),
        (final(x)@, final(y)@) == pair_merged(main@, swapped, sign, mid, side),
{
    let main: Vec<i16> = if swapped { copied(y.as_slice()) } else { copied(x.as_slice()) };
    let a: i16 = main[0];
    let b: i16 = main[1];
    let o0: i16 = if sign { b } else { negated(b) };
    let o1: i16 = if sign { negated(a) } else { a };
    let m0: i16 = extract16(mult32_32_q31(mid, (if swapped { o0 } else { a }) as i32));
    let m1: i16 = extract16(mult32_32_q31(mid, (if swapped { o1 } else { b }) as i32));
    let s0: i16 = extract16(mult32_32_q31(side, (if swapped { a } else { o0 }) as i32));
    let s1: i16 = extract16(mult32_32_q31(side, (if swapped { b } else { o1 }) as i32));
    x.set(0, m0.wrapping_sub(s0));
    x.set(1, m1.wrapping_sub(s1));
    y.set(0, s0.wrapping_add(m0));
    y.set(1, s1.wrapping_add(m1));
    proof {
        let goal = pair_merged(main@, swapped, sign, mid, side);
        assert(x@ =~= goal.0);
        assert(y@ =~= goal.1);
    }
    main
}

/// Computes [`pair_decoded`].
#[verifier::rlimit(40)]
fn quant_pair_decode(
    dec: &mut EcDec<'_>,
    ctx: &mut BandCtx<'_>,
    x: &mut Vec<i16>,
    y: &mut Vec<i16>,
    b: i32,
    blocks: i32,
    lowband: Option<Vec<i16>>,
    lm: i32,
    fill: u32,
) -> (r: (u32, Vec<i16>))
    requires
        old(dec).wf(),
        band_ready(*old(ctx), 2, lm as int),
        0 <= lm <= 3,
        old(x)@.len() == 2,
        old(y)@.len() == 2,
        opt_len(opt_view(lowband), 2),
        tf_valid(blocks as int, old(ctx).tf_change as int),
    ensures
        ({
            let p = pair_decoded(
                *old(dec),
                *old(ctx),
                old(x)@,
                old(y)@,
                b,
                blocks as int,
                opt_view(lowband),
                lm as int,
                fill,
            );
            &&& *final(dec) == p.dec
            &&& *final(ctx) == (BandCtx { remaining_bits: p.remaining, seed: p.seed, ..*old(ctx) })
            &&& final(x)@ == p.x
            &&& final(y)@ == p.y
            &&& r.1@ == p.main
            &&& r.0 == p.cm
        }),
        final(dec).wf(),
        final(dec).buf@ == old(dec).buf@,
        final(x)@.len() == 2,
        final(y)@.len() == 2,
        r.1@.len() == 2,
{
    proof {
        reveal(pair_decoded);
        crate::band_decode::lemma_band_ready(*ctx, 2, lm as int);
    }
    let (s, rest, _kept) = compute_theta_decode(dec, ctx, 2, b, blocks, blocks, lm, true, fill);
    let coded: bool = s.itheta != 0 && s.itheta != 16384;
    let sbits: i32 = if coded { 8 } else { 0 };
    let swapped: bool = s.itheta > 8192;
    ctx.remaining_bits = ctx.remaining_bits.wrapping_sub(s.qalloc.wrapping_add(sbits));
    let bit: u32 = if coded { dec.dec_bits(1) } else { 0 };
    let cm: u32 = if swapped {
        quant_band_decode(
            dec,
            ctx,
            y,
            2,
            rest.wrapping_sub(sbits),
            blocks,
            lowband,
            lm,
            Q31_ONE,
            fill,
        )
    } else {
        quant_band_decode(
            dec,
            ctx,
            x,
            2,
            rest.wrapping_sub(sbits),
            blocks,
            lowband,
            lm,
            Q31_ONE,
            fill,
        )
    };
    let main: Vec<i16> = merge_pair(
        x,
        y,
        swapped,
        bit != 0,
        shl32(s.imid, 16),
        shl32(s.iside, 16),
    );
    invert(y, s.inv);
    (cm, main)
}

/// Computes [`wide_decoded`].
#[verifier::rlimit(40)]
fn quant_wide_decode(
    dec: &mut EcDec<'_>,
    ctx: &mut BandCtx<'_>,
    x: &mut Vec<i16>,
    y: &mut Vec<i16>,
    n: usize,
    b: i32,
    blocks: i32,
    lowband: Option<Vec<i16>>,
    lm: i32,
    fill: u32,
) -> (r: (u32, Vec<i16>))
    requires
        old(dec).wf(),
        band_ready(*old(ctx), n as int, lm as int),
        0 <= lm <= 3,
        old(x)@.len() == n,
        old(y)@.len() == n,
        opt_len(opt_view(lowband), n as int),
        tf_valid(blocks as int, old(ctx).tf_change as int),
    ensures
        ({
            let p = wide_decoded(
                *old(dec),
                *old(ctx),
                old(x)@,
                old(y)@,
                n as int,
                b,
                blocks as int,
                opt_view(lowband),
                lm as int,
                fill,
            );
            &&& *final(dec) == p.dec
            &&& *final(ctx) == (BandCtx { remaining_bits: p.remaining, seed: p.seed, ..*old(ctx) })
            &&& final(x)@ == p.x
            &&& final(y)@ == p.y
            &&& r.1@ == p.main
            &&& r.0 == p.cm
        }),
        final(dec).wf(),
        final(dec).buf@ == old(dec).buf@,
        final(x)@.len() == n,
        final(y)@.len() == n,
        r.1@.len() == n,
{
    proof {
        reveal(wide_decoded);
        crate::band_decode::lemma_band_ready(*ctx, n as int, lm as int);
    }
    let (s, rest, kept) = compute_theta_decode(dec, ctx, n, b, blocks, blocks, lm, true, fill);
    let mid: i32 = shl32(s.imid, 16);
    let side: i32 = shl32(s.iside, 16);
    let mbits: i32 = first_share(rest, s.delta);
    let sbits: i32 = rest.wrapping_sub(mbits);
    ctx.remaining_bits = ctx.remaining_bits.wrapping_sub(s.qalloc);
    let before: i32 = ctx.remaining_bits;
    let fill2: u32 = kept >> (blocks as u32);
    let cm: u32 = if mbits >= sbits {
        let c1: u32 = quant_band_decode(
            dec,
            ctx,
            x,
            n,
            mbits,
            blocks,
            lowband,
            lm,
            Q31_ONE,
            kept,
        );
        let more: i32 = rebalance(sbits, mbits, before, ctx.remaining_bits, s.itheta != 0);
        let c2: u32 = quant_band_decode(dec, ctx, y, n, more, blocks, None, lm, side, fill2);
        c1 | c2
    } else {
        let c2: u32 = quant_band_decode(dec, ctx, y, n, sbits, blocks, None, lm, side, fill2);
        let more: i32 = rebalance(mbits, sbits, before, ctx.remaining_bits, s.itheta != 16384);
        let c1: u32 = quant_band_decode(
            dec,
            ctx,
            x,
            n,
            more,
            blocks,
            lowband,
            lm,
            Q31_ONE,
            kept,
        );
        c1 | c2
    };
    let main: Vec<i16> = copied(x.as_slice());
    stereo_merge(x, y, mid);
    invert(y, s.inv);
    (cm, main)
}

/// Decodes both channels of a band; the collapse mask and the main shape are
/// returned.
pub fn quant_band_stereo_decode(
    dec: &mut EcDec<'_>,
    ctx: &mut BandCtx<'_>,
    x: &mut Vec<i16>,
    y: &mut Vec<i16>,
    n: usize,
    b: i32,
    blocks: i32,
    lowband: Option<Vec<i16>>,
    lm: i32,
    fill: u32,
) -> (r: (u32, Vec<i16>))
    requires
        old(dec).wf(),
        band_ready(*old(ctx), n as int, lm as int),
        0 <= lm <= 3,
        old(x)@.len() == n,
        old(y)@.len() == n,
        opt_len(opt_view(lowband), n as int),
        tf_valid(blocks as int, old(ctx).tf_change as int),
    ensures
        ({
            let p = stereo_decoded(
                *old(dec),
                *old(ctx),
                old(x)@,
                old(y)@,
                n as int,
                b,
                blocks as int,
                opt_view(lowband),
                lm as int,
                fill,
            );
            &&& *final(dec) == p.dec
            &&& *final(ctx) == (BandCtx { remaining_bits: p.remaining, seed: p.seed, ..*old(ctx) })
            &&& final(x)@ == p.x
            &&& final(y)@ == p.y
            &&& r.1@ == p.main
            &&& r.0 == p.cm
        }),
        final(dec).wf(),
        final(dec).buf@ == old(dec).buf@,
        final(x)@.len() == n,
        final(y)@.len() == n,
        r.1@.len() == n,
{
    if n == 1 {
        let v1: i16 = decode_sign(dec, ctx);
        x.set(0, v1);
        let v2: i16 = decode_sign(dec, ctx);
        y.set(0, v2);
        (1, copied(x.as_slice()))
    } else if n == 2 {
        quant_pair_decode(dec, ctx, x, y, b, blocks, lowband, lm, fill)
    } else {
        quant_wide_decode(dec, ctx, x, y, n, b, blocks, lowband, lm, fill)
    }
}

} // verus!
