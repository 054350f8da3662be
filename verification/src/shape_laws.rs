//! What the decoder reconstructs of the bands of a frame is what the encoder
//! reconstructed.

use vstd::prelude::*;
use crate::all_bands::{
    at_or_zero, band_context, band_planned, band_shaped, band_step, bands_decoded, bands_started,
    lemma_edges, lemma_plan_ignores_coder, BandPlan, BandsInput, BandsState,
};
use crate::analysis::weights_of;
use crate::band_decode::band_ready;
use crate::band_encode::angles_coded;
use crate::band_laws::{even_bands, lemma_stereo, lemma_stereo_sticky, reading};
use crate::bands_encode::{band_coded, band_written, bands_encoded, best_tried, likeness, tried};
use crate::coder_laws::{
    all_read, all_written, enc_ok, holds, lemma_all_sticky, lemma_beginning, lemma_follow,
    lemma_holds, lemma_tell, synced, Symbol,
};
use crate::range_decoder::EcDec;
use crate::range_encoder::EncState;
use crate::spectrum::written;
use crate::theta::BandCtx;

verus! {

/// The states of an encoder and a decoder have the same bookkeeping.
pub open spec fn same_books(s: BandsState<EncState>, t: BandsState<EcDec<'_>>) -> bool {
    &&& t.norm == s.norm
    &&& t.norm2 == s.norm2
    &&& t.masks == s.masks
    &&& t.seed == s.seed
    &&& t.balance == s.balance
    &&& t.dual == s.dual
    &&& t.lowband == s.lowband
    &&& t.update == s.update
    &&& t.avoid_split_noise == s.avoid_split_noise
}

/// Two spectra are the same from `from` to `to`.
#[verifier::opaque]
pub open spec fn same_part(a: Seq<i16>, b: Seq<i16>, from: int, to: int) -> bool {
    forall|i: int| from <= i < to ==> #[trigger] a[i] == b[i]
}

/// A part that is the same grows with what is written behind it.
proof fn lemma_part_grows(
    a: Seq<i16>,
    b: Seq<i16>,
    from: int,
    to: int,
    next: int,
    c: Seq<i16>,
)
    requires
        same_part(a, b, from, to),
        0 <= from <= to <= next,
        next <= a.len(),
        next <= b.len(),
        c.len() == next - to,
    ensures
        same_part(written(a, to, c), written(b, to, c), from, next),
{
    reveal(same_part);
    assert forall|i: int| from <= i < next implies #[trigger] written(a, to, c)[i] == written(
        b,
        to,
        c,
    )[i] by {
        if i < to {
            assert(a[i] == b[i]);
        }
    }
}

/// An encoder and a decoder have come to the same point before band `band`.
pub open spec fn alike(
    cfg: BandsInput,
    s: BandsState<EncState>,
    t: BandsState<EcDec<'_>>,
    band: int,
) -> bool {
    &&& same_books(s, t)
    &&& same_part(t.x, s.x, cfg.at(cfg.start as int), cfg.at(band))
    &&& same_part(t.y, s.y, cfg.at(cfg.start as int), cfg.at(band))
}

/// The spectra have room for the bands.
pub open spec fn spacious<C>(cfg: BandsInput, s: BandsState<C>) -> bool {
    &&& cfg.at(cfg.end as int) <= s.x.len()
    &&& cfg.at(cfg.end as int) <= s.y.len()
}

/// What is asked of the frame.
pub open spec fn joint(cfg: BandsInput) -> bool {
    &&& cfg.wf()
    &&& cfg.stereo
    &&& angles_coded(cfg.mode)
    &&& even_bands(cfg.mode)
}

/// The decoder rebuilds the shape of a band.
#[verifier::spinoff_prover]
proof fn lemma_shape(
    cfg: BandsInput,
    e: EncState,
    d: EcDec<'_>,
    ctx: BandCtx<'_>,
    q: BandPlan,
    x: Seq<i16>,
    y: Seq<i16>,
    dx: Seq<i16>,
    dy: Seq<i16>,
    left: i32,
    right: i32,
    both: bool,
    p: Seq<u8>,
)
    requires
        joint(cfg),
        enc_ok(e),
        e.ext <= u64::MAX - 192,
        ctx.resynth,
        ctx.theta_round == 0,
        *ctx.mode == cfg.mode,
        band_ready(ctx, x.len() as int, cfg.lm as int),
        !q.dual,
        y.len() == x.len(),
        dx.len() == x.len(),
        dy.len() == x.len(),
        !band_coded(cfg, e, ctx, q, x, y, left, right, both).enc.error,
    ensures
        ({
            let c = band_coded(cfg, e, ctx, q, x, y, left, right, both);
            let r = band_shaped(cfg, d, ctx, q, dx, dy);
            &&& enc_ok(c.enc)
            &&& c.enc.ext <= e.ext + 192
            &&& c.x.len() == x.len() && c.y.len() == x.len()
            &&& holds(c.enc, p) ==> holds(e, p)
            &&& holds(c.enc, p) && synced(e, d, p) ==> {
                &&& synced(c.enc, r.dec, p)
                &&& r.x == c.x && r.y == c.y
                &&& r.norm == c.norm && r.norm2 == c.norm2
                &&& r.seed == c.seed
                &&& r.x_cm == c.x_cm && r.y_cm == c.y_cm
            }
        }),
{
    reveal(band_coded);
    reveal(band_shaped);
    reveal(best_tried);
    let n = x.len() as int;
    let w = weights_of(left, right);
    let down = tried(cfg, e, ctx, q, x, y, left, right, (-1) as i32);
    let up = tried(cfg, e, ctx, q, x, y, left, right, 1);
    let round: i32 = if !both {
        0
    } else if likeness(x, y, down, w) >= likeness(x, y, up, w) {
        (-1) as i32
    } else {
        1
    };
    let turning = BandCtx { theta_round: round, ..ctx };
    assert(best_tried(cfg, e, ctx, q, x, y, left, right, both) == tried(
        cfg,
        e,
        ctx,
        q,
        x,
        y,
        left,
        right,
        round,
    ));
    assert(reading(turning) == ctx);
    lemma_stereo(
        e,
        d,
        turning,
        x,
        y,
        dx,
        dy,
        n,
        q.b,
        cfg.blocks(),
        crate::all_bands::window_read(q.norm, q.effective, q.output, n),
        cfg.lm as int,
        left,
        right,
        q.x_fill | q.y_fill,
        p,
    );
}

/// The decoder follows over one band.
#[verifier::rlimit(60)]
#[verifier::spinoff_prover]
proof fn lemma_band_follows(
    cfg: BandsInput,
    band_e: Seq<i32>,
    s: BandsState<EncState>,
    t: BandsState<EcDec<'_>>,
    band: usize,
    p: Seq<u8>,
)
    requires
        joint(cfg),
        cfg.start <= band < cfg.end,
        enc_ok(s.coder),
        s.coder.ext <= u64::MAX - 192,
        !s.dual,
        spacious(cfg, s),
        spacious(cfg, t),
        !band_written(cfg, band_e, true, s, band).coder.error,
    ensures
        ({
            let f = band_written(cfg, band_e, true, s, band);
            let g = band_step(cfg, t, band);
            &&& enc_ok(f.coder)
            &&& f.coder.ext <= s.coder.ext + 192
            &&& !f.dual
            &&& spacious(cfg, f)
            &&& spacious(cfg, g)
            &&& holds(f.coder, p) ==> holds(s.coder, p)
            &&& holds(f.coder, p) && synced(s.coder, t.coder, p) && alike(cfg, s, t, band as int)
                ==> {
                &&& synced(f.coder, g.coder, p)
                &&& alike(cfg, f, g, band + 1)
            }
        }),
{
    let from = cfg.at(band as int);
    let to = cfg.at(band + 1);
    lemma_edges(cfg, cfg.start as int, band as int);
    lemma_edges(cfg, band as int, band + 1);
    lemma_edges(cfg, band + 1, cfg.end as int);
    if from != to {
        let width = cfg.mode.width(band as int);
        assert(width >= 1) by (nonlinear_arith)
            requires
                cfg.m() * width == to - from,
                to > from,
                cfg.m() >= 1,
        ;
        assert(to - from == cfg.mode.band_size(cfg.lm as int, band as int));
        let tell = s.coder.tell_eighths();
        let q = band_planned(cfg, s, band as int, tell, true);
        lemma_planned_dual(cfg, s, band as int, tell);
        let ctx = band_context(cfg, band, q.remaining, s.seed, s.avoid_split_noise);
        assert(ctx == (BandCtx { resynth: true, ..ctx }));
        let x = s.x.subrange(from, to);
        let y = s.y.subrange(from, to);
        let dx = t.x.subrange(from, to);
        let dy = t.y.subrange(from, to);
        let left = at_or_zero(band_e, band as int);
        let right = at_or_zero(band_e, band + cfg.mode.num_ebands);
        let both = band < cfg.intensity;
        lemma_shape(cfg, s.coder, t.coder, ctx, q, x, y, dx, dy, left, right, both, p);
        let f = band_written(cfg, band_e, true, s, band);
        let g = band_step(cfg, t, band);
        if holds(f.coder, p) && synced(s.coder, t.coder, p) && alike(cfg, s, t, band as int) {
            lemma_tell(s.coder, t.coder, p);
            lemma_plan_ignores_coder(cfg, s, t, band as int, tell, true);
            assert(band_planned(cfg, t, band as int, t.coder.tell_eighths(), true) == q);
            let c = band_coded(cfg, s.coder, ctx, q, x, y, left, right, both);
            let r = band_shaped(cfg, t.coder, ctx, q, dx, dy);
            assert(f.coder == c.enc && g.coder == r.dec);
            assert(same_books(f, g));
            let first = cfg.at(cfg.start as int);
            lemma_part_grows(t.x, s.x, first, from, to, c.x);
            lemma_part_grows(t.y, s.y, first, from, to, c.y);
            assert(alike(cfg, f, g, band + 1));
        }
        assert(f.x.len() == s.x.len() && f.y.len() == s.y.len());
        assert(g.x.len() == t.x.len() && g.y.len() == t.y.len());
    }
}

/// Channels that are coded together stay so.
proof fn lemma_planned_dual(cfg: BandsInput, s: BandsState<EncState>, band: int, tell: i32)
    requires
        !s.dual,
    ensures
        !band_planned(cfg, s, band, tell, true).dual,
{
    reveal(band_planned);
}

/// An overflow is never forgotten by a band.
proof fn lemma_band_written_sticky(
    cfg: BandsInput,
    band_e: Seq<i32>,
    s: BandsState<EncState>,
    band: usize,
)
    requires
        cfg.stereo,
        !s.dual,
        s.coder.error,
    ensures
        band_written(cfg, band_e, true, s, band).coder.error,
        !band_written(cfg, band_e, true, s, band).dual,
{
    reveal(band_coded);
    reveal(best_tried);
    let from = cfg.at(band as int);
    let to = cfg.at(band + 1);
    if from != to {
        let tell = s.coder.tell_eighths();
        let q = band_planned(cfg, s, band as int, tell, true);
        lemma_planned_dual(cfg, s, band as int, tell);
        let ctx = BandCtx {
            resynth: true,
            ..band_context(cfg, band, q.remaining, s.seed, s.avoid_split_noise)
        };
        let x = s.x.subrange(from, to);
        let n = x.len() as int;
        let low = crate::all_bands::window_read(q.norm, q.effective, q.output, n);
        assert forall|round: i32| #[trigger]
            tried(
                cfg,
                s.coder,
                ctx,
                q,
                x,
                s.y.subrange(from, to),
                at_or_zero(band_e, band as int),
                at_or_zero(band_e, band + cfg.mode.num_ebands),
                round,
            ).enc.error by {
            lemma_stereo_sticky(
                s.coder,
                BandCtx { theta_round: round, ..ctx },
                x,
                s.y.subrange(from, to),
                n,
                q.b,
                cfg.blocks(),
                low,
                cfg.lm as int,
                at_or_zero(band_e, band as int),
                at_or_zero(band_e, band + cfg.mode.num_ebands),
                q.x_fill | q.y_fill,
            );
        }
    }
}

/// An overflow is never forgotten by the bands.
proof fn lemma_bands_sticky(
    cfg: BandsInput,
    band_e: Seq<i32>,
    s: BandsState<EncState>,
    band: int,
)
    requires
        cfg.stereo,
        !s.dual,
        s.coder.error,
        0 <= band <= usize::MAX,
    ensures
        bands_encoded(cfg, band_e, true, s, band).coder.error,
    decreases cfg.end - band,
{
    if band < cfg.end {
        lemma_band_written_sticky(cfg, band_e, s, band as usize);
        lemma_bands_sticky(
            cfg,
            band_e,
            band_written(cfg, band_e, true, s, band as usize),
            band + 1,
        );
    }
}

/// The decoder follows over all bands.
proof fn lemma_bands_follow(
    cfg: BandsInput,
    band_e: Seq<i32>,
    s: BandsState<EncState>,
    t: BandsState<EcDec<'_>>,
    band: int,
    p: Seq<u8>,
)
    requires
        joint(cfg),
        cfg.start <= band <= cfg.end,
        enc_ok(s.coder),
        s.coder.ext + 192 * (cfg.end - band) <= u64::MAX,
        !s.dual,
        spacious(cfg, s),
        spacious(cfg, t),
        !bands_encoded(cfg, band_e, true, s, band).coder.error,
    ensures
        ({
            let f = bands_encoded(cfg, band_e, true, s, band);
            let g = bands_decoded(cfg, t, band);
            &&& enc_ok(f.coder)
            &&& f.coder.ext <= s.coder.ext + 192 * (cfg.end - band)
            &&& holds(f.coder, p) ==> holds(s.coder, p)
            &&& holds(f.coder, p) && synced(s.coder, t.coder, p) && alike(cfg, s, t, band) ==> {
                &&& synced(f.coder, g.coder, p)
                &&& alike(cfg, f, g, cfg.end as int)
            }
        }),
    decreases cfg.end - band,
{
    if band < cfg.end {
        let f = band_written(cfg, band_e, true, s, band as usize);
        let g = band_step(cfg, t, band as usize);
        if f.coder.error {
            assert(!f.dual) by {
                lemma_step_dual(cfg, band_e, s, band as usize);
            }
            lemma_bands_sticky(cfg, band_e, f, band + 1);
        }
        lemma_band_follows(cfg, band_e, s, t, band as usize, p);
        lemma_bands_follow(cfg, band_e, f, g, band + 1, p);
    }
}

/// Channels that are coded together stay so over a band.
proof fn lemma_step_dual(
    cfg: BandsInput,
    band_e: Seq<i32>,
    s: BandsState<EncState>,
    band: usize,
)
    requires
        !s.dual,
    ensures
        !band_written(cfg, band_e, true, s, band).dual,
{
    lemma_planned_dual(cfg, s, band as int, s.coder.tell_eighths());
}

/// Where an encoder reconstructs what it writes, the decoder reconstructs the
/// same: the bands of both channels, the collapse masks and the state of the
/// noise generator. The bands may stand anywhere in a packet, behind the
/// symbols `before` and in front of the symbols `after`.
#[verifier::rlimit(60)]
#[verifier::spinoff_prover]
pub proof fn law_decoder_sees_the_reconstruction(
    cfg: BandsInput,
    band_e: Seq<i32>,
    size: nat,
    before: Seq<Symbol>,
    after: Seq<Symbol>,
    x: Seq<i16>,
    y: Seq<i16>,
    dx: Seq<i16>,
    dy: Seq<i16>,
    masks: Seq<u8>,
    seed: u32,
    balance: i32,
    packet: &[u8],
)
    requires
        joint(cfg),
        forall|i: int| 0 <= i < before.len() ==> (#[trigger] before[i]).valid(),
        forall|i: int| 0 <= i < after.len() ==> (#[trigger] after[i]).valid(),
        before.len() + after.len() <= u32::MAX,
        cfg.at(cfg.end as int) <= x.len(),
        cfg.at(cfg.end as int) <= y.len(),
        cfg.at(cfg.end as int) <= dx.len(),
        cfg.at(cfg.end as int) <= dy.len(),
        ({
            let e = all_written(EncState::started(size), before);
            let s = bands_started(cfg, e, x, y, masks, seed, balance, false);
            let f = bands_encoded(cfg, band_e, true, s, cfg.start as int);
            let done = all_written(f.coder, after).finished();
            &&& !done.error
            &&& packet@ == done.buf
        }),
    ensures
        ({
            let e = all_written(EncState::started(size), before);
            let s = bands_started(cfg, e, x, y, masks, seed, balance, false);
            let f = bands_encoded(cfg, band_e, true, s, cfg.start as int);
            let d = all_read(EcDec::started(packet), before);
            let t = bands_started(cfg, d, dx, dy, masks, seed, balance, false);
            let g = bands_decoded(cfg, t, cfg.start as int);
            &&& g.masks == f.masks
            &&& g.seed == f.seed
            &&& g.coder.tell_eighths() == f.coder.tell_eighths()
            &&& same_part(g.x, f.x, cfg.at(cfg.start as int), cfg.at(cfg.end as int))
            &&& same_part(g.y, f.y, cfg.at(cfg.start as int), cfg.at(cfg.end as int))
        }),
{
    let p = packet@;
    let e0 = EncState::started(size);
    let d0 = EcDec::started(packet);
    let e = all_written(e0, before);
    let s = bands_started(cfg, e, x, y, masks, seed, balance, false);
    let f = bands_encoded(cfg, band_e, true, s, cfg.start as int);
    let d = all_read(d0, before);
    let t = bands_started(cfg, d, dx, dy, masks, seed, balance, false);
    lemma_beginning(size, packet);
    if f.coder.error {
        lemma_all_sticky(f.coder, after);
    }
    if e.error {
        lemma_bands_sticky(cfg, band_e, s, cfg.start as int);
    }
    lemma_follow(e0, d0, before, p);
    assert(cfg.end - cfg.start <= 1000);
    lemma_bands_follow(cfg, band_e, s, t, cfg.start as int, p);
    lemma_holds(f.coder, after);
    let g = bands_decoded(cfg, t, cfg.start as int);
    assert(alike(cfg, s, t, cfg.start as int)) by {
        reveal(same_part);
    }
    lemma_tell(f.coder, g.coder, p);
}

} // verus!
