//! The decoder follows an encoder that does not reconstruct what it writes.

use vstd::prelude::*;
use crate::all_bands::{
    at_or_zero, band_context, band_planned, band_shaped, band_step, bands_decoded, bands_started,
    lemma_edges, window_read, BandPlan, BandsInput, BandsState,
};
use crate::band_decode::{band_ready, mid_bits, opt_skip, opt_take, rebalanced, split_bias, splits};
use crate::band_encode::{angles_coded, leaf_encoded, partition_encoded};
use crate::band_laws::{
    even_bands, lemma_band, lemma_band_sticky, lemma_stereo, lemma_stereo_sticky, reading,
};
use crate::band_tf::{
    at_least_one, band_decoded, band_encoded, opt_haar, recombinations, recombined, scale_of,
    tf_prepared, time_divided, fill_merged, TfState,
};
use crate::analysis::split_angle;
use crate::bands_encode::{band_coded, band_written, bands_encoded, best_tried};
use crate::coder_laws::{
    all_read, all_written, enc_ok, holds, lemma_all_sticky, lemma_beginning, lemma_follow,
    lemma_holds, lemma_reads, lemma_tell, read_back, synced, Symbol,
};
use crate::fixed::{mult32_32_q31, shl32, Q31_ONE};
use crate::range_decoder::EcDec;
use crate::range_encoder::EncState;
use crate::stereo_encode::{
    channels_turned, pair_encoded, silence_covered, stereo_encoded, turns_left, wide_encoded,
};
use crate::theta::{theta_encoded, BandCtx};

verus! {

/// Two contexts that differ in the noise and in whether coefficients are reconstructed.
spec fn same_job(a: BandCtx<'_>, b: BandCtx<'_>) -> bool {
    b == (BandCtx { seed: b.seed, resynth: b.resynth, ..a })
}

/// What is written for a split does not depend on the blocks to be filled.
proof fn lemma_theta_alone(
    e: EncState,
    a: BandCtx<'_>,
    c: BandCtx<'_>,
    itheta: int,
    n: int,
    b: i32,
    blocks: int,
    b0: int,
    lm: int,
    stereo: bool,
    f: u32,
    g: u32,
)
    requires
        same_job(a, c),
    ensures
        ({
            let t = theta_encoded(e, a, itheta, n, b, blocks, b0, lm, stereo, f);
            let u = theta_encoded(e, c, itheta, n, b, blocks, b0, lm, stereo, g);
            t.enc == u.enc && t.split == u.split && t.b == u.b
        }),
{
    reveal(theta_encoded);
}

/// What is written for a part does not depend on what it is folded from, on its gain or on
/// the noise, nor on whether it is reconstructed.
#[verifier::spinoff_prover]
proof fn lemma_part_alone(
    e: EncState,
    a: BandCtx<'_>,
    c: BandCtx<'_>,
    x: Seq<i16>,
    n: int,
    b: i32,
    blocks: int,
    l1: Option<Seq<i16>>,
    l2: Option<Seq<i16>>,
    lm: int,
    g1: i32,
    g2: i32,
    f1: u32,
    f2: u32,
)
    requires
        same_job(a, c),
    ensures
        ({
            let p = partition_encoded(e, a, x, n, b, blocks, l1, lm, g1, f1);
            let q = partition_encoded(e, c, x, n, b, blocks, l2, lm, g2, f2);
            p.enc == q.enc && p.remaining == q.remaining
        }),
    decreases (if lm < 0 { 0 } else { lm + 1 }),
{
    if !splits(a, n, b, lm) {
        reveal(leaf_encoded);
    } else {
        let half = n / 2;
        let d1 = if blocks == 1 { (f1 & 1) | (f1 << 1u32) } else { f1 };
        let d2 = if blocks == 1 { (f2 & 1) | (f2 << 1u32) } else { f2 };
        let parts = (blocks + 1) / 2;
        let angle = split_angle(x.take(half), x.skip(half).take(half), false);
        let t = theta_encoded(e, a, angle, half, b, parts, blocks, lm - 1, false, d1);
        let u = theta_encoded(e, c, angle, half, b, parts, blocks, lm - 1, false, d2);
        lemma_theta_alone(e, a, c, angle, half, b, parts, blocks, lm - 1, false, d1, d2);
        let m1 = mult32_32_q31(g1, shl32(t.split.imid, 16));
        let m2 = mult32_32_q31(g2, shl32(t.split.imid, 16));
        let s1 = mult32_32_q31(g1, shl32(t.split.iside, 16));
        let s2 = mult32_32_q31(g2, shl32(t.split.iside, 16));
        let delta = split_bias(t.split.delta, t.split.itheta, half, blocks, lm - 1);
        let mbits = mid_bits(t.b, delta);
        let sbits = t.b.wrapping_sub(mbits);
        let before = a.remaining_bits.wrapping_sub(t.split.qalloc);
        let ea = BandCtx { remaining_bits: before, ..a };
        let ec = BandCtx { remaining_bits: before, ..c };
        let r1 = t.fill >> (parts as u32);
        let r2 = u.fill >> (parts as u32);
        let xl = x.take(half);
        let xr = x.skip(half);
        if mbits >= sbits {
            lemma_part_alone(
                t.enc,
                ea,
                ec,
                xl,
                half,
                mbits,
                parts,
                opt_take(l1, half),
                opt_take(l2, half),
                lm - 1,
                m1,
                m2,
                t.fill,
                u.fill,
            );
            let p = partition_encoded(
                t.enc,
                ea,
                xl,
                half,
                mbits,
                parts,
                opt_take(l1, half),
                lm - 1,
                m1,
                t.fill,
            );
            let q = partition_encoded(
                t.enc,
                ec,
                xl,
                half,
                mbits,
                parts,
                opt_take(l2, half),
                lm - 1,
                m2,
                u.fill,
            );
            lemma_part_alone(
                p.enc,
                BandCtx { remaining_bits: p.remaining, seed: p.seed, ..a },
                BandCtx { remaining_bits: p.remaining, seed: q.seed, ..c },
                xr,
                half,
                rebalanced(sbits, mbits, before, p.remaining, t.split.itheta != 0),
                parts,
                opt_skip(l1, half),
                opt_skip(l2, half),
                lm - 1,
                s1,
                s2,
                r1,
                r2,
            );
        } else {
            lemma_part_alone(
                t.enc,
                ea,
                ec,
                xr,
                half,
                sbits,
                parts,
                opt_skip(l1, half),
                opt_skip(l2, half),
                lm - 1,
                s1,
                s2,
                r1,
                r2,
            );
            let p = partition_encoded(
                t.enc,
                ea,
                xr,
                half,
                sbits,
                parts,
                opt_skip(l1, half),
                lm - 1,
                s1,
                r1,
            );
            let q = partition_encoded(
                t.enc,
                ec,
                xr,
                half,
                sbits,
                parts,
                opt_skip(l2, half),
                lm - 1,
                s2,
                r2,
            );
            lemma_part_alone(
                p.enc,
                BandCtx { remaining_bits: p.remaining, seed: p.seed, ..a },
                BandCtx { remaining_bits: p.remaining, seed: q.seed, ..c },
                xl,
                half,
                rebalanced(mbits, sbits, before, p.remaining, t.split.itheta != 16384),
                parts,
                opt_take(l1, half),
                opt_take(l2, half),
                lm - 1,
                m1,
                m2,
                t.fill,
                u.fill,
            );
        }
    }
}

/// Recombining does not look at the mask.
proof fn lemma_recombined_alone(low: Option<Seq<i16>>, f: u32, g: u32, n: int, k: int, upto: int)
    ensures
        recombined(low, f, n, k, upto).0 == recombined(low, g, n, k, upto).0,
    decreases upto - k,
{
    if k < upto {
        lemma_recombined_alone(
            opt_haar(low, n / scale_of(k), scale_of(k)),
            fill_merged(f),
            fill_merged(g),
            n,
            k + 1,
            upto,
        );
    }
}

/// Dividing in time does not look at the mask, and divides every sequence alike.
proof fn lemma_divided_alone(s: TfState, t: TfState, tf: int)
    requires
        s.blocks == t.blocks,
        s.per_block == t.per_block,
        s.divisions == t.divisions,
    ensures
        time_divided(s, tf).blocks == time_divided(t, tf).blocks,
        time_divided(s, tf).per_block == time_divided(t, tf).per_block,
        time_divided(s, tf).divisions == time_divided(t, tf).divisions,
        s.low == t.low ==> time_divided(s, tf).low == time_divided(t, tf).low,
    decreases (if tf + s.divisions < 0 { -(tf + s.divisions) } else { 0 }),
{
    if s.per_block % 2 == 0 && tf + s.divisions < 0 {
        lemma_divided_alone(
            TfState {
                low: opt_haar(s.low, s.per_block, at_least_one(s.blocks)),
                fill: s.fill | (s.fill << (at_least_one(s.blocks) as u32)),
                blocks: s.blocks * 2,
                per_block: s.per_block / 2,
                divisions: s.divisions + 1,
            },
            TfState {
                low: opt_haar(t.low, t.per_block, at_least_one(t.blocks)),
                fill: t.fill | (t.fill << (at_least_one(t.blocks) as u32)),
                blocks: t.blocks * 2,
                per_block: t.per_block / 2,
                divisions: t.divisions + 1,
            },
            tf,
        );
    }
}

/// The resolution of a band does not depend on the mask or on what it is folded from.
proof fn lemma_prepared_alone(
    l1: Option<Seq<i16>>,
    l2: Option<Seq<i16>>,
    f: u32,
    g: u32,
    n: int,
    blocks: int,
    tf: int,
)
    ensures
        tf_prepared(l1, f, n, blocks, tf).blocks == tf_prepared(l2, g, n, blocks, tf).blocks,
        l1 == l2 ==> tf_prepared(l1, f, n, blocks, tf).low == tf_prepared(l2, g, n, blocks, tf).low,
{
    let rec = recombinations(tf);
    lemma_recombined_alone(l1, f, g, n, 0, rec);
    let (a, fa) = recombined(l1, f, n, 0, rec);
    let (b, fb) = recombined(l2, g, n, 0, rec);
    lemma_divided_alone(
        TfState {
            low: a,
            fill: fa,
            blocks: blocks / scale_of(rec),
            per_block: n / blocks * scale_of(rec),
            divisions: 0,
        },
        TfState {
            low: b,
            fill: fb,
            blocks: blocks / scale_of(rec),
            per_block: n / blocks * scale_of(rec),
            divisions: 0,
        },
        tf,
    );
}

/// What is written for one channel of a band depends on the channel alone.
proof fn lemma_band_alone(
    e: EncState,
    a: BandCtx<'_>,
    c: BandCtx<'_>,
    x: Seq<i16>,
    n: int,
    b: i32,
    blocks: int,
    l1: Option<Seq<i16>>,
    l2: Option<Seq<i16>>,
    lm: int,
    g1: i32,
    g2: i32,
    f1: u32,
    f2: u32,
)
    requires
        same_job(a, c),
    ensures
        ({
            let p = band_encoded(e, a, x, n, b, blocks, l1, lm, g1, f1);
            let q = band_encoded(e, c, x, n, b, blocks, l2, lm, g2, f2);
            p.enc == q.enc && p.remaining == q.remaining
        }),
{
    let tf = a.tf_change as int;
    if n != 1 {
        lemma_prepared_alone(l1, l2, f1, f2, n, blocks, tf);
        lemma_prepared_alone(Some(x), Some(x), f1, f2, n, blocks, tf);
        let s = tf_prepared(l1, f1, n, blocks, tf);
        let t = tf_prepared(l2, f2, n, blocks, tf);
        let turned = tf_prepared(Some(x), f1, n, blocks, tf).low->0;
        lemma_part_alone(
            e,
            a,
            c,
            turned,
            n,
            b,
            s.blocks,
            s.low,
            t.low,
            lm,
            g1,
            g2,
            s.fill,
            t.fill,
        );
    }
}

/// What is written for both channels of a band depends on the channels alone.
#[verifier::spinoff_prover]
proof fn lemma_stereo_alone(
    e: EncState,
    a: BandCtx<'_>,
    c: BandCtx<'_>,
    x: Seq<i16>,
    y: Seq<i16>,
    n: int,
    b: i32,
    blocks: int,
    l1: Option<Seq<i16>>,
    l2: Option<Seq<i16>>,
    lm: int,
    left: i32,
    right: i32,
    f1: u32,
    f2: u32,
)
    requires
        same_job(a, c),
    ensures
        stereo_encoded(e, a, x, y, n, b, blocks, l1, lm, left, right, f1).enc == stereo_encoded(
            e,
            c,
            x,
            y,
            n,
            b,
            blocks,
            l2,
            lm,
            left,
            right,
            f2,
        ).enc,
{
    if n != 1 {
        let (l, r) = silence_covered(x, y, left, right);
        reveal(channels_turned);
        let w = channels_turned(e, a, l, r, n, b, blocks, lm, left, right, f1);
        let v = channels_turned(e, c, l, r, n, b, blocks, lm, left, right, f2);
        lemma_theta_alone(
            e,
            a,
            c,
            split_angle(l, r, true),
            n,
            b,
            blocks,
            blocks,
            lm,
            true,
            f1,
            f2,
        );
        assert(w.x == v.x && w.y == v.y);
        let t = w.t;
        if n == 2 {
            reveal(pair_encoded);
            let coded = t.split.itheta != 0 && t.split.itheta != 16384;
            let sbits: i32 = if coded { 8 } else { 0 };
            let swapped = t.split.itheta > 8192;
            let main = if swapped { w.y } else { w.x };
            let other = if swapped { w.x } else { w.y };
            let sign = coded && turns_left(main, other);
            let f = if coded {
                t.enc.raw_coded(if sign { 1 } else { 0 }, 1)
            } else {
                t.enc
            };
            let left_bits = a.remaining_bits.wrapping_sub(t.split.qalloc.wrapping_add(sbits));
            lemma_band_alone(
                f,
                BandCtx { remaining_bits: left_bits, ..a },
                BandCtx { remaining_bits: left_bits, ..c },
                main,
                2,
                t.b.wrapping_sub(sbits),
                blocks,
                l1,
                l2,
                lm,
                Q31_ONE,
                Q31_ONE,
                f1,
                f2,
            );
        } else {
            reveal(wide_encoded);
            let side = shl32(t.split.iside, 16);
            let mbits = mid_bits(t.b, t.split.delta);
            let sbits = t.b.wrapping_sub(mbits);
            let before = a.remaining_bits.wrapping_sub(t.split.qalloc);
            let ea = BandCtx { remaining_bits: before, ..a };
            let ec = BandCtx { remaining_bits: before, ..c };
            let r1 = t.fill >> (blocks as u32);
            let r2 = v.t.fill >> (blocks as u32);
            if mbits >= sbits {
                lemma_band_alone(
                    t.enc,
                    ea,
                    ec,
                    w.x,
                    n,
                    mbits,
                    blocks,
                    l1,
                    l2,
                    lm,
                    Q31_ONE,
                    Q31_ONE,
                    t.fill,
                    v.t.fill,
                );
                let p = band_encoded(t.enc, ea, w.x, n, mbits, blocks, l1, lm, Q31_ONE, t.fill);
                let q = band_encoded(t.enc, ec, w.x, n, mbits, blocks, l2, lm, Q31_ONE, v.t.fill);
                lemma_band_alone(
                    p.enc,
                    BandCtx { remaining_bits: p.remaining, seed: p.seed, ..a },
                    BandCtx { remaining_bits: p.remaining, seed: q.seed, ..c },
                    w.y,
                    n,
                    rebalanced(sbits, mbits, before, p.remaining, t.split.itheta != 0),
                    blocks,
                    None,
                    None,
                    lm,
                    side,
                    side,
                    r1,
                    r2,
                );
            } else {
                lemma_band_alone(
                    t.enc,
                    ea,
                    ec,
                    w.y,
                    n,
                    sbits,
                    blocks,
                    None,
                    None,
                    lm,
                    side,
                    side,
                    r1,
                    r2,
                );
                let p = band_encoded(t.enc, ea, w.y, n, sbits, blocks, None, lm, side, r1);
                let q = band_encoded(t.enc, ec, w.y, n, sbits, blocks, None, lm, side, r2);
                lemma_band_alone(
                    p.enc,
                    BandCtx { remaining_bits: p.remaining, seed: p.seed, ..a },
                    BandCtx { remaining_bits: p.remaining, seed: q.seed, ..c },
                    w.x,
                    n,
                    rebalanced(mbits, sbits, before, p.remaining, t.split.itheta != 16384),
                    blocks,
                    l1,
                    l2,
                    lm,
                    Q31_ONE,
                    Q31_ONE,
                    t.fill,
                    v.t.fill,
                );
            }
        }
    }
}

/// What an encoder writes for one channel of a band depends on the channel alone: not on
/// what the band is folded from, its gain, the blocks to be filled or the noise, nor on
/// whether the encoder reconstructs it.
pub proof fn law_writing_depends_on_the_band_alone(
    e: EncState,
    a: BandCtx<'_>,
    c: BandCtx<'_>,
    x: Seq<i16>,
    n: int,
    b: i32,
    blocks: int,
    l1: Option<Seq<i16>>,
    l2: Option<Seq<i16>>,
    lm: int,
    g1: i32,
    g2: i32,
    f1: u32,
    f2: u32,
)
    requires
        c == (BandCtx { seed: c.seed, resynth: c.resynth, ..a }),
    ensures
        ({
            let p = band_encoded(e, a, x, n, b, blocks, l1, lm, g1, f1);
            let q = band_encoded(e, c, x, n, b, blocks, l2, lm, g2, f2);
            p.enc == q.enc && p.remaining == q.remaining
        }),
{
    lemma_band_alone(e, a, c, x, n, b, blocks, l1, l2, lm, g1, g2, f1, f2);
}

/// What is asked of a frame that is followed.
pub open spec fn followable(cfg: BandsInput) -> bool {
    &&& cfg.wf()
    &&& angles_coded(cfg.mode)
    &&& even_bands(cfg.mode)
}

/// The decoder follows over the shape of a band.
#[verifier::spinoff_prover]
#[verifier::rlimit(40)]
proof fn lemma_shape_followed(
    cfg: BandsInput,
    e: EncState,
    d: EcDec<'_>,
    ce: BandCtx<'_>,
    cd: BandCtx<'_>,
    qe: BandPlan,
    qd: BandPlan,
    x: Seq<i16>,
    y: Seq<i16>,
    dx: Seq<i16>,
    dy: Seq<i16>,
    left: i32,
    right: i32,
    p: Seq<u8>,
)
    requires
        followable(cfg),
        enc_ok(e),
        e.ext <= u64::MAX - 192,
        same_job(ce, cd),
        cd.resynth,
        ce.theta_round == 0,
        *ce.mode == cfg.mode,
        band_ready(cd, x.len() as int, cfg.lm as int),
        qe.b == qd.b,
        qe.dual == qd.dual,
        dx.len() == x.len(),
        cfg.stereo ==> y.len() == x.len() && dy.len() == x.len(),
        !band_coded(cfg, e, ce, qe, x, y, left, right, false).enc.error,
    ensures
        ({
            let c = band_coded(cfg, e, ce, qe, x, y, left, right, false);
            let r = band_shaped(cfg, d, cd, qd, dx, dy);
            &&& enc_ok(c.enc)
            &&& c.enc.ext <= e.ext + 192
            &&& holds(c.enc, p) ==> holds(e, p)
            &&& holds(c.enc, p) && synced(e, d, p) ==> synced(c.enc, r.dec, p)
        }),
{
    reveal(band_coded);
    reveal(band_shaped);
    reveal(best_tried);
    let n = x.len() as int;
    let lm = cfg.lm as int;
    let blocks = cfg.blocks();
    let le = window_read(qe.norm, qe.effective, qe.output, n);
    let ld = window_read(qd.norm, qd.effective, qd.output, n);
    assert(reading(cd) == cd);
    if qe.dual {
        let half = (qe.b / 2) as i32;
        let l = band_encoded(e, ce, x, n, half, blocks, le, lm, Q31_ONE, qe.x_fill);
        let g = band_encoded(e, cd, x, n, half, blocks, ld, lm, Q31_ONE, qd.x_fill);
        lemma_band_alone(
            e,
            ce,
            cd,
            x,
            n,
            half,
            blocks,
            le,
            ld,
            lm,
            Q31_ONE,
            Q31_ONE,
            qe.x_fill,
            qd.x_fill,
        );
        let first = band_decoded(d, cd, dx, n, half, blocks, ld, lm, Q31_ONE, qd.x_fill);
        if cfg.stereo {
            let le2 = window_read(qe.norm2, qe.effective, qe.output, n);
            let ld2 = window_read(qd.norm2, qd.effective, qd.output, n);
            let ne = BandCtx { remaining_bits: l.remaining, seed: l.seed, ..ce };
            let nd = BandCtx { remaining_bits: g.remaining, seed: g.seed, ..cd };
            if l.enc.error {
                lemma_band_sticky(l.enc, ne, y, n, half, blocks, le2, lm, Q31_ONE, qe.y_fill);
            }
            lemma_band(e, d, cd, x, dx, n, half, blocks, ld, lm, Q31_ONE, qd.x_fill, p);
            lemma_band_alone(
                l.enc,
                ne,
                nd,
                y,
                n,
                half,
                blocks,
                le2,
                ld2,
                lm,
                Q31_ONE,
                Q31_ONE,
                qe.y_fill,
                qd.y_fill,
            );
            assert(reading(nd) == nd);
            lemma_band(
                l.enc,
                first.dec,
                nd,
                y,
                dy,
                n,
                half,
                blocks,
                ld2,
                lm,
                Q31_ONE,
                qd.y_fill,
                p,
            );
        } else {
            lemma_band(e, d, cd, x, dx, n, half, blocks, ld, lm, Q31_ONE, qd.x_fill, p);
        }
    } else if cfg.stereo {
        let turning = BandCtx { theta_round: 0, ..ce };
        assert(turning == ce);
        let fe = qe.x_fill | qe.y_fill;
        let fd = qd.x_fill | qd.y_fill;
        lemma_stereo_alone(e, ce, cd, x, y, n, qe.b, blocks, le, ld, lm, left, right, fe, fd);
        lemma_stereo(e, d, cd, x, y, dx, dy, n, qe.b, blocks, ld, lm, left, right, fd, p);
    } else {
        let fe = qe.x_fill | qe.y_fill;
        let fd = qd.x_fill | qd.y_fill;
        lemma_band_alone(
            e,
            ce,
            cd,
            x,
            n,
            qe.b,
            blocks,
            le,
            ld,
            lm,
            Q31_ONE,
            Q31_ONE,
            fe,
            fd,
        );
        lemma_band(e, d, cd, x, dx, n, qe.b, blocks, ld, lm, Q31_ONE, fd, p);
    }
}

/// An overflow is never forgotten by the shape of a band.
proof fn lemma_shape_sticky(
    cfg: BandsInput,
    e: EncState,
    ctx: BandCtx<'_>,
    q: BandPlan,
    x: Seq<i16>,
    y: Seq<i16>,
    left: i32,
    right: i32,
)
    requires
        e.error,
    ensures
        band_coded(cfg, e, ctx, q, x, y, left, right, false).enc.error,
{
    reveal(band_coded);
    reveal(best_tried);
    let n = x.len() as int;
    let lm = cfg.lm as int;
    let blocks = cfg.blocks();
    let low = window_read(q.norm, q.effective, q.output, n);
    if q.dual {
        let half = (q.b / 2) as i32;
        let l = band_encoded(e, ctx, x, n, half, blocks, low, lm, Q31_ONE, q.x_fill);
        lemma_band_sticky(e, ctx, x, n, half, blocks, low, lm, Q31_ONE, q.x_fill);
        lemma_band_sticky(
            l.enc,
            BandCtx { remaining_bits: l.remaining, seed: l.seed, ..ctx },
            y,
            n,
            half,
            blocks,
            window_read(q.norm2, q.effective, q.output, n),
            lm,
            Q31_ONE,
            q.y_fill,
        );
    } else if cfg.stereo {
        lemma_stereo_sticky(
            e,
            BandCtx { theta_round: 0, ..ctx },
            x,
            y,
            n,
            q.b,
            blocks,
            low,
            lm,
            left,
            right,
            q.x_fill | q.y_fill,
        );
    } else {
        lemma_band_sticky(
            e,
            ctx,
            x,
            n,
            q.b,
            blocks,
            low,
            lm,
            Q31_ONE,
            q.x_fill | q.y_fill,
        );
    }
}

/// The spectra have room for the bands.
spec fn roomy<C>(cfg: BandsInput, s: BandsState<C>) -> bool {
    &&& cfg.at(cfg.end as int) <= s.x.len()
    &&& cfg.stereo ==> cfg.at(cfg.end as int) <= s.y.len()
}

/// What the plans of an encoder and a decoder depend on is the same.
spec fn same_account<C, D>(s: BandsState<C>, t: BandsState<D>) -> bool {
    &&& s.balance == t.balance
    &&& s.dual == t.dual
    &&& s.avoid_split_noise == t.avoid_split_noise
}

/// The plan of a band in what does not depend on reconstruction.
proof fn lemma_same_plan<C, D>(
    cfg: BandsInput,
    s: BandsState<C>,
    t: BandsState<D>,
    band: int,
    tell: i32,
)
    requires
        same_account(s, t),
    ensures
        ({
            let q = band_planned(cfg, s, band, tell, false);
            let r = band_planned(cfg, t, band, tell, true);
            &&& q.b == r.b
            &&& q.dual == r.dual
            &&& q.remaining == r.remaining
            &&& q.balance == r.balance
            &&& q.tell == tell
            &&& r.tell == tell
        }),
{
    reveal(band_planned);
}

/// The decoder follows over one band; what holds of the encoder holds in any case.
#[verifier::spinoff_prover]
#[verifier::rlimit(40)]
proof fn lemma_band_followed(
    cfg: BandsInput,
    band_e: Seq<i32>,
    s: BandsState<EncState>,
    t: BandsState<EcDec<'_>>,
    band: usize,
    p: Seq<u8>,
)
    requires
        followable(cfg),
        cfg.start <= band < cfg.end,
        enc_ok(s.coder),
        s.coder.ext <= u64::MAX - 192,
        roomy(cfg, s),
        roomy(cfg, t),
        same_account(s, t),
        !band_written(cfg, band_e, false, s, band).coder.error,
    ensures
        ({
            let f = band_written(cfg, band_e, false, s, band);
            let g = band_step(cfg, t, band);
            &&& enc_ok(f.coder)
            &&& f.coder.ext <= s.coder.ext + 192
            &&& roomy(cfg, f)
            &&& roomy(cfg, g)
            &&& holds(f.coder, p) ==> holds(s.coder, p)
            &&& holds(f.coder, p) && synced(s.coder, t.coder, p) ==> synced(f.coder, g.coder, p)
                && same_account(f, g)
        }),
{
    let from = cfg.at(band as int);
    let to = cfg.at(band + 1);
    lemma_edges(cfg, cfg.start as int, band as int);
    lemma_edges(cfg, band as int, band + 1);
    lemma_edges(cfg, band + 1, cfg.end as int);
    if from != to {
        let width = cfg.mode.width(band as int);
        assert(width >= 1) by (nonlinear_arith)
            requires
                cfg.m() * width == to - from,
                to > from,
                cfg.m() >= 1,
        ;
        assert(to - from == cfg.mode.band_size(cfg.lm as int, band as int));
        let tell = s.coder.tell_eighths();
        let qe = band_planned(cfg, s, band as int, tell, false);
        let qd = band_planned(cfg, t, band as int, tell, true);
        lemma_same_plan(cfg, s, t, band as int, tell);
        let ce = BandCtx {
            resynth: false,
            ..band_context(cfg, band, qe.remaining, s.seed, s.avoid_split_noise)
        };
        let cd = band_context(cfg, band, qd.remaining, t.seed, t.avoid_split_noise);
        let x = s.x.subrange(from, to);
        let y = if cfg.stereo { s.y.subrange(from, to) } else { Seq::empty() };
        let dx = t.x.subrange(from, to);
        let dy = if cfg.stereo { t.y.subrange(from, to) } else { Seq::empty() };
        let left = at_or_zero(band_e, band as int);
        let right = at_or_zero(band_e, band + cfg.mode.num_ebands);
        lemma_shape_followed(
            cfg,
            s.coder,
            t.coder,
            ce,
            cd,
            qe,
            qd,
            x,
            y,
            dx,
            dy,
            left,
            right,
            p,
        );
        let f = band_written(cfg, band_e, false, s, band);
        let g = band_step(cfg, t, band);
        let c = band_coded(cfg, s.coder, ce, qe, x, y, left, right, false);
        assert(f.coder == c.enc);
        if holds(f.coder, p) && synced(s.coder, t.coder, p) {
            lemma_tell(s.coder, t.coder, p);
            let r = band_shaped(cfg, t.coder, cd, qd, dx, dy);
            assert(g.coder == r.dec);
        }
        assert(f.x.len() == s.x.len() && f.y.len() == s.y.len());
        assert(g.x.len() == t.x.len() && g.y.len() == t.y.len());
    }
}

/// An overflow is never forgotten by the bands.
proof fn lemma_followed_sticky(
    cfg: BandsInput,
    band_e: Seq<i32>,
    s: BandsState<EncState>,
    band: int,
)
    requires
        s.coder.error,
        0 <= band <= usize::MAX,
    ensures
        bands_encoded(cfg, band_e, false, s, band).coder.error,
    decreases cfg.end - band,
{
    if band < cfg.end {
        let k = band as usize;
        let from = cfg.at(band);
        let to = cfg.at(band + 1);
        if from != to {
            let q = band_planned(cfg, s, band, s.coder.tell_eighths(), false);
            lemma_shape_sticky(
                cfg,
                s.coder,
                BandCtx {
                    resynth: false,
                    ..band_context(cfg, k, q.remaining, s.seed, s.avoid_split_noise)
                },
                q,
                s.x.subrange(from, to),
                if cfg.stereo { s.y.subrange(from, to) } else { Seq::empty() },
                at_or_zero(band_e, band),
                at_or_zero(band_e, band + cfg.mode.num_ebands),
            );
        }
        lemma_followed_sticky(
            cfg,
            band_e,
            band_written(cfg, band_e, false, s, k),
            band + 1,
        );
    }
}

/// What holds of the encoder over all bands.
proof fn lemma_bands_sound(
    cfg: BandsInput,
    band_e: Seq<i32>,
    s: BandsState<EncState>,
    d: EcDec<'_>,
    band: int,
    p: Seq<u8>,
)
    requires
        followable(cfg),
        cfg.start <= band <= cfg.end,
        enc_ok(s.coder),
        s.coder.ext + 192 * (cfg.end - band) <= u64::MAX,
        roomy(cfg, s),
        !bands_encoded(cfg, band_e, false, s, band).coder.error,
    ensures
        ({
            let f = bands_encoded(cfg, band_e, false, s, band);
            &&& enc_ok(f.coder)
            &&& f.coder.ext <= s.coder.ext + 192 * (cfg.end - band)
            &&& holds(f.coder, p) ==> holds(s.coder, p)
        }),
    decreases cfg.end - band,
{
    if band < cfg.end {
        let f = band_written(cfg, band_e, false, s, band as usize);
        if f.coder.error {
            lemma_followed_sticky(cfg, band_e, f, band + 1);
        }
        let t = BandsState {
            coder: d,
            x: s.x,
            y: s.y,
            norm: s.norm,
            norm2: s.norm2,
            masks: s.masks,
            seed: s.seed,
            balance: s.balance,
            dual: s.dual,
            lowband: s.lowband,
            update: s.update,
            avoid_split_noise: s.avoid_split_noise,
        };
        lemma_band_followed(cfg, band_e, s, t, band as usize, p);
        lemma_bands_sound(cfg, band_e, f, d, band + 1, p);
    }
}

/// The decoder follows over all bands.
proof fn lemma_bands_followed(
    cfg: BandsInput,
    band_e: Seq<i32>,
    s: BandsState<EncState>,
    t: BandsState<EcDec<'_>>,
    band: int,
    p: Seq<u8>,
)
    requires
        followable(cfg),
        cfg.start <= band <= cfg.end,
        enc_ok(s.coder),
        s.coder.ext + 192 * (cfg.end - band) <= u64::MAX,
        roomy(cfg, s),
        roomy(cfg, t),
        same_account(s, t),
        synced(s.coder, t.coder, p),
        !bands_encoded(cfg, band_e, false, s, band).coder.error,
        holds(bands_encoded(cfg, band_e, false, s, band).coder, p),
    ensures
        synced(
            bands_encoded(cfg, band_e, false, s, band).coder,
            bands_decoded(cfg, t, band).coder,
            p,
        ),
    decreases cfg.end - band,
{
    if band < cfg.end {
        let f = band_written(cfg, band_e, false, s, band as usize);
        let g = band_step(cfg, t, band as usize);
        if f.coder.error {
            lemma_followed_sticky(cfg, band_e, f, band + 1);
        }
        lemma_band_followed(cfg, band_e, s, t, band as usize, p);
        lemma_bands_sound(cfg, band_e, f, t.coder, band + 1, p);
        lemma_bands_followed(cfg, band_e, f, g, band + 1, p);
    }
}

/// An encoder that does not reconstruct what it writes is followed too, in mono, in dual
/// and in joint stereo: behind the bands the decoder has counted as many bits, and it
/// reads back whatever was written behind them. The bands may stand anywhere in a packet,
/// behind the symbols `before` and in front of the symbols `after`.
pub proof fn law_decoder_follows_over_the_bands(
    cfg: BandsInput,
    band_e: Seq<i32>,
    size: nat,
    before: Seq<Symbol>,
    after: Seq<Symbol>,
    x: Seq<i16>,
    y: Seq<i16>,
    dx: Seq<i16>,
    dy: Seq<i16>,
    masks: Seq<u8>,
    dmasks: Seq<u8>,
    seed: u32,
    dseed: u32,
    balance: i32,
    dual: bool,
    packet: &[u8],
)
    requires
        followable(cfg),
        forall|i: int| 0 <= i < before.len() ==> (#[trigger] before[i]).valid(),
        forall|i: int| 0 <= i < after.len() ==> (#[trigger] after[i]).valid(),
        before.len() + after.len() <= u32::MAX,
        cfg.at(cfg.end as int) <= x.len(),
        cfg.at(cfg.end as int) <= dx.len(),
        cfg.stereo ==> cfg.at(cfg.end as int) <= y.len(),
        cfg.stereo ==> cfg.at(cfg.end as int) <= dy.len(),
        ({
            let e = all_written(EncState::started(size), before);
            let s = bands_started(cfg, e, x, y, masks, seed, balance, dual);
            let f = bands_encoded(cfg, band_e, false, s, cfg.start as int);
            let done = all_written(f.coder, after).finished();
            &&& !done.error
            &&& packet@ == done.buf
        }),
    ensures
        ({
            let e = all_written(EncState::started(size), before);
            let s = bands_started(cfg, e, x, y, masks, seed, balance, dual);
            let f = bands_encoded(cfg, band_e, false, s, cfg.start as int);
            let d = all_read(EcDec::started(packet), before);
            let t = bands_started(cfg, d, dx, dy, dmasks, dseed, balance, dual);
            let g = bands_decoded(cfg, t, cfg.start as int);
            read_back(f.coder, g.coder, after)
        }),
{
    let p = packet@;
    let e0 = EncState::started(size);
    let d0 = EcDec::started(packet);
    let e = all_written(e0, before);
    let s = bands_started(cfg, e, x, y, masks, seed, balance, dual);
    let f = bands_encoded(cfg, band_e, false, s, cfg.start as int);
    let d = all_read(d0, before);
    let t = bands_started(cfg, d, dx, dy, dmasks, dseed, balance, dual);
    lemma_beginning(size, packet);
    if f.coder.error {
        lemma_all_sticky(f.coder, after);
    }
    if e.error {
        lemma_followed_sticky(cfg, band_e, s, cfg.start as int);
    }
    lemma_follow(e0, d0, before, p);
    assert(cfg.end - cfg.start <= 1000);
    lemma_bands_sound(cfg, band_e, s, d, cfg.start as int, p);
    lemma_holds(f.coder, after);
    lemma_bands_followed(cfg, band_e, s, t, cfg.start as int, p);
    let g = bands_decoded(cfg, t, cfg.start as int);
    lemma_reads(f.coder, g.coder, after);
}

} // verus!
