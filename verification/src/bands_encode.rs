//! Encoding of the shapes of all bands of a frame, with a choice between two
//! roundings of the stereo angles where there is time for it.

use vstd::prelude::*;
use crate::all_bands::{
    at_or_zero, band_context, band_planned, bands_started, get_or_zero, lemma_edges,
    lemma_plan_ignores_coder, mask_set, plan_band, read_window, set_mask,
    window_read, window_written, write_window, BandPlan, BandsConfig, BandsInput, BandsState,
    BandsWork, PlanWork,
};
use crate::analysis::{weights_of, word_weights};
use crate::band_decode::band_ready;
use crate::band_encode::angles_coded;
use crate::band_stereo::{inner_prod, inner_product};
use crate::band_tf::{band_encoded, quant_band, tf_valid};
use crate::fixed::{mult16_32_q15, Q31_ONE};
use crate::mdct::copied;
use crate::range_encoder::{EcEnc, EncState};
use crate::spectrum::{write_at, written};
use crate::stereo_encode::{quant_band_stereo, stereo_encoded, CodedPair};
use crate::synthesis::copy_range;
use crate::theta::BandCtx;

verus! {

/// Complexity from which on two roundings of the stereo angles are tried.
pub const RDO_COMPLEXITY: i32 = 8;

/// Outcome of writing the shape of a band.
#[verifier::ext_equal]
pub struct CodedShape {
    pub enc: EncState,
    pub seed: u32,
    pub x: Seq<i16>,
    pub y: Seq<i16>,
    pub norm: Seq<i16>,
    pub norm2: Seq<i16>,
    pub x_cm: u32,
    pub y_cm: u32,
}

/// Both channels of a band written with the stereo angle rounded as `round`
/// says.
pub open spec fn tried(
    cfg: BandsInput,
    enc: EncState,
    ctx: BandCtx<'_>,
    p: BandPlan,
    x: Seq<i16>,
    y: Seq<i16>,
    left: i32,
    right: i32,
    round: i32,
) -> CodedPair {
    let n = x.len() as int;
    stereo_encoded(
        enc,
        BandCtx { theta_round: round, ..ctx },
        x,
        y,
        n,
        p.b,
        cfg.blocks(),
        window_read(p.norm, p.effective, p.output, n),
        cfg.lm as int,
        left,
        right,
        p.x_fill | p.y_fill,
    )
}

/// How much the reconstruction of a band is like the band.
pub open spec fn likeness(x: Seq<i16>, y: Seq<i16>, c: CodedPair, w: (i16, i16)) -> i32 {
    mult16_32_q15(w.0, inner_product(x, c.x, x.len() as int)).wrapping_add(
        mult16_32_q15(w.1, inner_product(y, c.y, x.len() as int)),
    )
}

/// Both channels of a band, with the better of two roundings if both are to be
/// tried.
#[verifier::opaque]
pub open spec fn best_tried(
    cfg: BandsInput,
    enc: EncState,
    ctx: BandCtx<'_>,
    p: BandPlan,
    x: Seq<i16>,
    y: Seq<i16>,
    left: i32,
    right: i32,
    both: bool,
) -> CodedPair {
    if both {
        let down = tried(cfg, enc, ctx, p, x, y, left, right, (-1) as i32);
        let up = tried(cfg, enc, ctx, p, x, y, left, right, 1);
        let w = weights_of(left, right);
        if likeness(x, y, down, w) >= likeness(x, y, up, w) {
            down
        } else {
            up
        }
    } else {
        tried(cfg, enc, ctx, p, x, y, left, right, 0)
    }
}

/// A folding buffer after a band, where there is one to be kept.
pub open spec fn shape_kept(norm: Seq<i16>, p: BandPlan, shape: Seq<i16>, resynth: bool) -> Seq<
    i16,
> {
    if resynth {
        window_written(norm, p.effective, p.output, shape)
    } else {
        norm
    }
}

/// Writes the shape of a band according to its plan.
#[verifier::opaque]
pub open spec fn band_coded(
    cfg: BandsInput,
    enc: EncState,
    ctx: BandCtx<'_>,
    p: BandPlan,
    x: Seq<i16>,
    y: Seq<i16>,
    left: i32,
    right: i32,
    both: bool,
) -> CodedShape {
    let n = x.len() as int;
    let lm = cfg.lm as int;
    let low = window_read(p.norm, p.effective, p.output, n);
    if p.dual {
        let half = p.b / 2;
        let l = band_encoded(
            enc,
            ctx,
            x,
            n,
            half as i32,
            cfg.blocks(),
            low,
            lm,
            Q31_ONE,
            p.x_fill,
        );
        let norm = shape_kept(p.norm, p, l.x, ctx.resynth);
        if cfg.stereo {
            let r = band_encoded(
                l.enc,
                BandCtx { remaining_bits: l.remaining, seed: l.seed, ..ctx },
                y,
                n,
                half as i32,
                cfg.blocks(),
                window_read(p.norm2, p.effective, p.output, n),
                lm,
                Q31_ONE,
                p.y_fill,
            );
            CodedShape {
                enc: r.enc,
                seed: r.seed,
                x: l.x,
                y: r.x,
                norm,
                norm2: shape_kept(p.norm2, p, r.x, ctx.resynth),
                x_cm: l.cm,
                y_cm: r.cm,
            }
        } else {
            CodedShape {
                enc: l.enc,
                seed: l.seed,
                x: l.x,
                y,
                norm,
                norm2: p.norm2,
                x_cm: l.cm,
                y_cm: p.y_fill,
            }
        }
    } else if cfg.stereo {
        let r = best_tried(cfg, enc, ctx, p, x, y, left, right, both);
        CodedShape {
            enc: r.enc,
            seed: r.seed,
            x: r.x,
            y: r.y,
            norm: shape_kept(p.norm, p, r.main, ctx.resynth),
            norm2: p.norm2,
            x_cm: r.cm,
            y_cm: r.cm,
        }
    } else {
        let r = band_encoded(
            enc,
            ctx,
            x,
            n,
            p.b,
            cfg.blocks(),
            low,
            lm,
            Q31_ONE,
            p.x_fill | p.y_fill,
        );
        CodedShape {
            enc: r.enc,
            seed: r.seed,
            x: r.x,
            y,
            norm: shape_kept(p.norm, p, r.x, ctx.resynth),
            norm2: p.norm2,
            x_cm: r.cm,
            y_cm: r.cm,
        }
    }
}

/// State after one band; `rdo` says whether two roundings of the stereo angles
/// are tried.
pub open spec fn band_written(
    cfg: BandsInput,
    band_e: Seq<i32>,
    rdo: bool,
    s: BandsState<EncState>,
    band: usize,
) -> BandsState<EncState> {
    let from = cfg.at(band as int);
    let to = cfg.at(band + 1);
    if from == to {
        s
    } else {
        let p = band_planned(cfg, s, band as int, s.coder.tell_eighths(), rdo);
        let ctx = BandCtx {
            resynth: rdo,
            ..band_context(cfg, band, p.remaining, s.seed, s.avoid_split_noise)
        };
        let r = band_coded(
            cfg,
            s.coder,
            ctx,
            p,
            s.x.subrange(from, to),
            if cfg.stereo { s.y.subrange(from, to) } else { Seq::empty() },
            at_or_zero(band_e, band as int),
            at_or_zero(band_e, band + cfg.mode.num_ebands),
            rdo && band < cfg.intensity,
        );
        BandsState {
            coder: r.enc,
            x: written(s.x, from, r.x),
            y: if cfg.stereo { written(s.y, from, r.y) } else { s.y },
            norm: r.norm,
            norm2: r.norm2,
            masks: mask_set(
                mask_set(s.masks, band * cfg.channels(), r.x_cm),
                band * cfg.channels() + cfg.last_channel(),
                r.y_cm,
            ),
            seed: r.seed,
            balance: p.balance.wrapping_add(
                at_or_zero(cfg.pulses, band as int).wrapping_add(p.tell),
            ),
            dual: p.dual,
            lowband: p.lowband,
            update: p.b > (to - from) * 8,
            avoid_split_noise: false,
        }
    }
}

/// State after the bands from `band` on.
pub open spec fn bands_encoded(
    cfg: BandsInput,
    band_e: Seq<i32>,
    rdo: bool,
    s: BandsState<EncState>,
    band: int,
) -> BandsState<EncState>
    decreases cfg.end - band,
{
    if band < 0 || band >= cfg.end {
        s
    } else {
        bands_encoded(cfg, band_e, rdo, band_written(cfg, band_e, rdo, s, band as usize), band + 1)
    }
}

/// Writes both channels of a band with one rounding of the angle; the collapse
/// mask and the main shape are returned.
fn try_rounding(
    cfg: &BandsConfig<'_>,
    enc: &mut EcEnc,
    ctx: &mut BandCtx<'_>,
    q: &PlanWork,
    norm: &Vec<i16>,
    x: &mut Vec<i16>,
    y: &mut Vec<i16>,
    left: i32,
    right: i32,
    round: i32,
    Ghost(p): Ghost<BandPlan>,
) -> (r: (u32, Vec<i16>))
    requires
        old(enc)@.wf(),
        cfg.mode == old(ctx).mode,
        band_ready(*old(ctx), old(x)@.len() as int, cfg.lm as int),
        angles_coded(*cfg.mode),
        0 <= cfg.lm <= 3,
        tf_valid(cfg@.blocks(), old(ctx).tf_change as int),
        old(y)@.len() == old(x)@.len(),
        old(x)@.len() <= 2048,
        q.effective matches Some(e) ==> e <= 2048,
        q.output matches Some(o) ==> o <= 2048,
        p.b == q.b,
        p.norm == norm@,
        p.effective == q.effective,
        p.x_fill == q.x_fill,
        p.y_fill == q.y_fill,
        p.output == q.output,
    ensures
        ({
            let c = tried(
                cfg@,
                old(enc)@,
                *old(ctx),
                p,
                old(x)@,
                old(y)@,
                left,
                right,
                round,
            );
            &&& final(enc)@ == c.enc
            &&& final(ctx).seed == c.seed
            &&& final(x)@ == c.x
            &&& final(y)@ == c.y
            &&& r.0 == c.cm
            &&& r.1@ == c.main
        }),
        final(enc)@.wf(),
        final(x)@.len() == old(x)@.len(),
        final(y)@.len() == old(y)@.len(),
        r.1@.len() == old(x)@.len(),
{
    let n: usize = x.len();
    let low: Option<Vec<i16>> = read_window(norm, q.effective, q.output, n);
    ctx.theta_round = round;
    quant_band_stereo(
        enc,
        ctx,
        x,
        y,
        n,
        q.b,
        cfg.block_count(),
        low,
        cfg.lm,
        left,
        right,
        q.x_fill | q.y_fill,
    )
}

/// Computes [`best_tried`]; the collapse mask and the main shape are returned.
#[verifier::rlimit(40)]
fn try_best(
    cfg: &BandsConfig<'_>,
    enc: &mut EcEnc,
    ctx: &mut BandCtx<'_>,
    q: &PlanWork,
    norm: &Vec<i16>,
    x: &mut Vec<i16>,
    y: &mut Vec<i16>,
    left: i32,
    right: i32,
    both: bool,
    Ghost(p): Ghost<BandPlan>,
) -> (r: (u32, Vec<i16>))
    requires
        old(enc)@.wf(),
        cfg.mode == old(ctx).mode,
        band_ready(*old(ctx), old(x)@.len() as int, cfg.lm as int),
        angles_coded(*cfg.mode),
        0 <= cfg.lm <= 3,
        tf_valid(cfg@.blocks(), old(ctx).tf_change as int),
        old(y)@.len() == old(x)@.len(),
        old(x)@.len() <= 2048,
        q.effective matches Some(e) ==> e <= 2048,
        q.output matches Some(o) ==> o <= 2048,
        p.b == q.b,
        p.norm == norm@,
        p.effective == q.effective,
        p.x_fill == q.x_fill,
        p.y_fill == q.y_fill,
        p.output == q.output,
    ensures
        ({
            let c = best_tried(
                cfg@,
                old(enc)@,
                *old(ctx),
                p,
                old(x)@,
                old(y)@,
                left,
                right,
                both,
            );
            &&& final(enc)@ == c.enc
            &&& final(ctx).seed == c.seed
            &&& final(x)@ == c.x
            &&& final(y)@ == c.y
            &&& r.0 == c.cm
            &&& r.1@ == c.main
        }),
        final(enc)@.wf(),
        final(x)@.len() == old(x)@.len(),
        final(y)@.len() == old(y)@.len(),
        r.1@.len() == old(x)@.len(),
{
    proof {
        reveal(best_tried);
    }
    if !both {
        return try_rounding(cfg, enc, ctx, q, norm, x, y, left, right, 0, Ghost(p));
    }
    let (w0, w1) = word_weights(left, right);
    let mut enc_up: EcEnc = enc.snapshot();
    let mut ctx_up: BandCtx = *ctx;
    let mut x_up: Vec<i16> = copied(x.as_slice());
    let mut y_up: Vec<i16> = copied(y.as_slice());
    let x_given: Vec<i16> = copied(x.as_slice());
    let y_given: Vec<i16> = copied(y.as_slice());
    let down: (u32, Vec<i16>) = try_rounding(
        cfg,
        enc,
        ctx,
        q,
        norm,
        x,
        y,
        left,
        right,
        -1,
        Ghost(p),
    );
    let up: (u32, Vec<i16>) = try_rounding(
        cfg,
        &mut enc_up,
        &mut ctx_up,
        q,
        norm,
        &mut x_up,
        &mut y_up,
        left,
        right,
        1,
        Ghost(p),
    );
    let like_down: i32 = mult16_32_q15(w0, inner_prod(&x_given, x)).wrapping_add(
        mult16_32_q15(w1, inner_prod(&y_given, y)),
    );
    let like_up: i32 = mult16_32_q15(w0, inner_prod(&x_given, &x_up)).wrapping_add(
        mult16_32_q15(w1, inner_prod(&y_given, &y_up)),
    );
    if like_down >= like_up {
        down
    } else {
        *enc = enc_up;
        *ctx = ctx_up;
        *x = x_up;
        *y = y_up;
        up
    }
}

/// Applies [`shape_kept`].
fn keep_shape(norm: &mut Vec<i16>, q: &PlanWork, shape: &Vec<i16>, resynth: bool)
    requires
        shape@.len() <= 2048,
        q.effective matches Some(i) ==> i <= 2048,
        q.output matches Some(o) ==> o <= 2048,
    ensures
        final(norm)@ == (if resynth {
            window_written(old(norm)@, q.effective, q.output, shape@)
        } else {
            old(norm)@
        }),
        final(norm)@.len() == old(norm)@.len(),
{
    if resynth {
        write_window(norm, q.effective, q.output, shape);
    }
}

/// Computes [`band_coded`]; the collapse masks are returned.
#[verifier::rlimit(40)]
fn code_band(
    cfg: &BandsConfig<'_>,
    enc: &mut EcEnc,
    ctx: &mut BandCtx<'_>,
    q: &PlanWork,
    dual: bool,
    norm: &mut Vec<i16>,
    norm2: &mut Vec<i16>,
    x: &mut Vec<i16>,
    y: &mut Vec<i16>,
    left: i32,
    right: i32,
    both: bool,
    Ghost(p): Ghost<BandPlan>,
) -> (r: (u32, u32))
    requires
        old(enc)@.wf(),
        cfg.mode == old(ctx).mode,
        band_ready(*old(ctx), old(x)@.len() as int, cfg.lm as int),
        angles_coded(*cfg.mode),
        0 <= cfg.lm <= 3,
        tf_valid(cfg@.blocks(), old(ctx).tf_change as int),
        cfg.stereo ==> old(y)@.len() == old(x)@.len(),
        old(x)@.len() <= 2048,
        q.effective matches Some(e) ==> e <= 2048,
        q.output matches Some(o) ==> o <= 2048,
        0 <= q.b <= 16383,
        p == (BandPlan {
            b: q.b,
            norm: old(norm)@,
            norm2: old(norm2)@,
            effective: q.effective,
            x_fill: q.x_fill,
            y_fill: q.y_fill,
            dual,
            output: q.output,
            ..p
        }),
    ensures
        ({
            let s = band_coded(
                cfg@,
                old(enc)@,
                *old(ctx),
                p,
                old(x)@,
                old(y)@,
                left,
                right,
                both,
            );
            &&& final(enc)@ == s.enc
            &&& final(ctx).seed == s.seed
            &&& final(x)@ == s.x
            &&& final(y)@ == s.y
            &&& final(norm)@ == s.norm
            &&& final(norm2)@ == s.norm2
            &&& r == (s.x_cm, s.y_cm)
        }),
        final(enc)@.wf(),
        final(x)@.len() == old(x)@.len(),
        final(y)@.len() == old(y)@.len(),
        final(norm)@.len() == old(norm)@.len(),
        final(norm2)@.len() == old(norm2)@.len(),
{
    proof {
        reveal(band_coded);
    }
    let n: usize = x.len();
    let blocks: i32 = cfg.block_count();
    let resynth: bool = ctx.resynth;
    if dual {
        let low: Option<Vec<i16>> = read_window(norm, q.effective, q.output, n);
        let half: i32 = q.b / 2;
        let x_cm: u32 = quant_band(
            enc,
            ctx,
            x,
            n,
            half,
            blocks,
            low,
            cfg.lm,
            Q31_ONE,
            q.x_fill,
        );
        keep_shape(norm, q, x, resynth);
        if cfg.stereo {
            let low2: Option<Vec<i16>> = read_window(norm2, q.effective, q.output, n);
            let y_cm: u32 = quant_band(
                enc,
                ctx,
                y,
                n,
                half,
                blocks,
                low2,
                cfg.lm,
                Q31_ONE,
                q.y_fill,
            );
            keep_shape(norm2, q, y, resynth);
            (x_cm, y_cm)
        } else {
            (x_cm, q.y_fill)
        }
    } else if cfg.stereo {
        let (cm, main) = try_best(cfg, enc, ctx, q, norm, x, y, left, right, both, Ghost(p));
        keep_shape(norm, q, &main, resynth);
        (cm, cm)
    } else {
        let low: Option<Vec<i16>> = read_window(norm, q.effective, q.output, n);
        let cm: u32 = quant_band(
            enc,
            ctx,
            x,
            n,
            q.b,
            blocks,
            low,
            cfg.lm,
            Q31_ONE,
            q.x_fill | q.y_fill,
        );
        keep_shape(norm, q, x, resynth);
        (cm, cm)
    }
}

/// Encodes one band.
#[verifier::rlimit(60)]
#[verifier::spinoff_prover]
fn write_band(
    cfg: &BandsConfig<'_>,
    band_e: &[i32],
    rdo: bool,
    enc: &mut EcEnc,
    w: &mut BandsWork,
    band: usize,
)
    requires
        old(enc)@.wf(),
        cfg@.wf(),
        angles_coded(*cfg.mode),
        cfg.start <= band < cfg.end,
        old(w).fits(cfg@, band as int),
    ensures
        final(w).state(final(enc)@) == band_written(
            cfg@,
            band_e@,
            rdo,
            old(w).state(old(enc)@),
            band,
        ),
        final(w).fits(cfg@, band + 1),
        final(enc)@.wf(),
{
    let ghost s = w.state(enc@);
    proof {
        lemma_edges(cfg@, band as int, band + 1);
        lemma_edges(cfg@, band + 1, cfg.end as int);
    }
    let from: usize = cfg.offset(band);
    let to: usize = cfg.offset(band + 1);
    if from == to {
        return;
    }
    let tell: i32 = enc.tell_frac();
    let ghost p = band_planned(cfg@, s, band as int, tell, rdo);
    proof {
        lemma_plan_ignores_coder(cfg@, s, w.state(()), band as int, tell, rdo);
    }
    let q: PlanWork = plan_band(cfg, w, band, tell, rdo);
    let mut ctx: BandCtx = BandCtx {
        mode: cfg.mode,
        band,
        intensity: cfg.intensity,
        spread: cfg.spread,
        tf_change: get_or_zero(cfg.tf_res, band),
        remaining_bits: q.remaining,
        seed: w.seed,
        theta_round: 0,
        disable_inv: cfg.disable_inv,
        avoid_split_noise: w.avoid_split_noise,
        resynth: rdo,
    };
    let mut x: Vec<i16> = copy_range(&w.x, from, to);
    let mut y: Vec<i16> = if cfg.stereo { copy_range(&w.y, from, to) } else { Vec::new() };
    proof {
        let width = cfg.mode.width(band as int);
        assert(width >= 1) by (nonlinear_arith)
            requires
                cfg@.m() * width == to - from,
                to > from,
                cfg@.m() >= 1,
        ;
        assert(x@.len() == cfg.mode.band_size(cfg.lm as int, band as int));
        assert(s.x.subrange(from as int, to as int) =~= x@);
        assert(y@ =~= (if cfg.stereo {
            s.y.subrange(from as int, to as int)
        } else {
            Seq::empty()
        }));
        assert(tf_valid(cfg@.blocks(), at_or_zero(cfg.tf_res@, band as int) as int));
    }
    let dual: bool = w.dual;
    let left: i32 = get_or_zero(band_e, band);
    let right: i32 = get_or_zero(band_e, band + cfg.mode.num_ebands);
    let (x_cm, y_cm) = code_band(
        cfg,
        enc,
        &mut ctx,
        &q,
        dual,
        &mut w.norm,
        &mut w.norm2,
        &mut x,
        &mut y,
        left,
        right,
        rdo && band < cfg.intensity,
        Ghost(p),
    );
    write_at(&mut w.x, from, &x);
    if cfg.stereo {
        write_at(&mut w.y, from, &y);
    }
    let channels: usize = if cfg.stereo { 2 } else { 1 };
    assert(band * channels <= 2 * band) by (nonlinear_arith)
        requires
            channels <= 2,
    ;
    set_mask(&mut w.masks, band * channels, x_cm);
    set_mask(&mut w.masks, band * channels + (channels - 1), y_cm);
    w.seed = ctx.seed;
    w.balance = w.balance.wrapping_add(get_or_zero(cfg.pulses, band).wrapping_add(tell));
    w.update = q.b > ((to - from) * 8) as i32;
    w.avoid_split_noise = false;
}

/// Encodes the shapes of the bands of a frame, whose amplitudes are `band_e`.
///
/// The collapse masks of the bands are filled in, and the spectra hold what was
/// coded; with two channels, joint stereo and a complexity of at least
/// [`RDO_COMPLEXITY`] they hold what the decoder will reconstruct. The new
/// state of the noise generator is returned. Nothing happens when the range of
/// bands is empty or does not belong to the mode.
pub fn quant_all_bands(
    cfg: &BandsConfig<'_>,
    enc: &mut EcEnc,
    x: &mut Vec<i16>,
    y: &mut Vec<i16>,
    masks: &mut Vec<u8>,
    band_e: &[i32],
    seed: u32,
    balance: i32,
    dual_stereo: bool,
    complexity: i32,
) -> (new_seed: u32)
    requires
        old(enc)@.wf(),
        cfg.start < cfg.end <= cfg.mode.num_ebands ==> {
            &&& cfg@.wf()
            &&& angles_coded(*cfg.mode)
            &&& cfg@.at(cfg.end as int) <= old(x)@.len()
            &&& cfg.stereo ==> cfg@.at(cfg.end as int) <= old(y)@.len()
            &&& cfg.stereo ==> band_e@.len() >= 2 * cfg.mode.num_ebands
        },
    ensures
        cfg.start < cfg.end <= cfg.mode.num_ebands ==> {
            let s = bands_encoded(
                cfg@,
                band_e@,
                cfg.stereo && !dual_stereo && complexity >= RDO_COMPLEXITY,
                bands_started(
                    cfg@,
                    old(enc)@,
                    old(x)@,
                    old(y)@,
                    old(masks)@,
                    seed,
                    balance,
                    dual_stereo,
                ),
                cfg.start as int,
            );
            &&& final(enc)@ == s.coder
            &&& final(x)@ == s.x
            &&& final(y)@ == s.y
            &&& final(masks)@ == s.masks
            &&& new_seed == s.seed
        },
        !(cfg.start < cfg.end <= cfg.mode.num_ebands) ==> {
            &&& final(enc)@ == old(enc)@
            &&& *final(x) == *old(x)
            &&& *final(y) == *old(y)
            &&& *final(masks) == *old(masks)
            &&& new_seed == seed
        },
        final(enc)@.wf(),
        final(x)@.len() == old(x)@.len(),
        final(y)@.len() == old(y)@.len(),
        final(masks)@.len() == old(masks)@.len(),
{
    if cfg.start >= cfg.end || cfg.end > cfg.mode.num_ebands {
        return seed;
    }
    proof {
        lemma_edges(cfg@, cfg.start as int, cfg.mode.num_ebands - 1);
    }
    let len: usize = cfg.offset(cfg.mode.num_ebands - 1) - cfg.offset(cfg.start);
    let norm: Vec<i16> = vec![0i16; len];
    let norm2: Vec<i16> = if cfg.stereo { vec![0i16; len] } else { Vec::new() };
    let blocks: i32 = cfg.block_count();
    let rdo: bool = cfg.stereo && !dual_stereo && complexity >= RDO_COMPLEXITY;
    let mut w: BandsWork = BandsWork {
        x: Vec::new(),
        y: Vec::new(),
        norm,
        norm2,
        masks: Vec::new(),
        seed,
        balance,
        dual: dual_stereo,
        lowband: None,
        update: true,
        avoid_split_noise: blocks > 1,
    };
    core::mem::swap(&mut w.x, x);
    core::mem::swap(&mut w.y, y);
    core::mem::swap(&mut w.masks, masks);
    let ghost first = bands_started(
        cfg@,
        old(enc)@,
        old(x)@,
        old(y)@,
        old(masks)@,
        seed,
        balance,
        dual_stereo,
    );
    assert(w.state(enc@) =~= first);
    let mut band: usize = cfg.start;
    while band < cfg.end
        invariant
            cfg@.wf(),
            angles_coded(*cfg.mode),
            cfg.start <= band <= cfg.end,
            enc@.wf(),
            w.fits(cfg@, band as int),
            w.x@.len() == old(x)@.len(),
            w.y@.len() == old(y)@.len(),
            w.masks@.len() == old(masks)@.len(),
            bands_encoded(cfg@, band_e@, rdo, w.state(enc@), band as int) == bands_encoded(
                cfg@,
                band_e@,
                rdo,
                first,
                cfg.start as int,
            ),
        decreases cfg.end - band,
    {
        write_band(cfg, band_e, rdo, enc, &mut w, band);
        band = band + 1;
    }
    core::mem::swap(&mut w.x, x);
    core::mem::swap(&mut w.y, y);
    core::mem::swap(&mut w.masks, masks);
    w.seed
}

} // verus!
