//! Decoding of the shapes of all bands of a frame: bit balancing, choice of the
//! folding source and collapse masks.

use vstd::prelude::*;
use crate::band_decode::{band_ready, opt_view};
use crate::band_stereo::{quant_band_stereo_decode, stereo_decoded};
use crate::band_tf::{
    band_decoded, copy_for_folding, fold_copy, opt_len, quant_band_decode, scale, scale_of,
    tf_valid,
};
use crate::bands::{low_mask, mask_from_bits};
use crate::fixed::Q31_ONE;
use crate::hadamard::{hybrid_folded, special_hybrid_folding};
use crate::math::{celt_sudiv, trunc_div};
use crate::mode::OpusCustomMode;
use crate::pvq::SPREAD_AGGRESSIVE;
use crate::range_decoder::EcDec;
use crate::spectrum::{write_at, written};
use crate::synthesis::copy_range;
use crate::theta::BandCtx;

verus! {

/// What the frame header says about the band shapes.
#[derive(Clone, Copy)]
pub struct BandsConfig<'a> {
    pub mode: &'a OpusCustomMode,
    /// First coded band.
    pub start: usize,
    /// End of the coded bands.
    pub end: usize,
    /// Whether there are two channels.
    pub stereo: bool,
    /// Allocation of each band in 1/8 bits.
    pub pulses: &'a [i32],
    /// Whether the frame is made of short blocks.
    pub short_blocks: bool,
    /// Spreading decision.
    pub spread: i32,
    /// First band coded with intensity stereo.
    pub intensity: usize,
    /// Time-frequency change of each band.
    pub tf_res: &'a [i32],
    /// Size of the frame in 1/8 bits.
    pub total_bits: i32,
    /// Block size exponent.
    pub lm: i32,
    /// End of the bands that were given bits.
    pub coded_bands: usize,
    /// Whether channel inversion is disabled.
    pub disable_inv: bool,
}

/// Element of a slice, or zero behind its end.
pub open spec fn at_or_zero(s: Seq<i32>, i: int) -> i32 {
    if 0 <= i < s.len() {
        s[i]
    } else {
        0
    }
}

/// Computes [`at_or_zero`].
pub fn get_or_zero(s: &[i32], i: usize) -> (v: i32)
    ensures
        v == at_or_zero(s@, i as int),
{
    if i < s.len() {
        s[i]
    } else {
        0
    }
}

/// What a [`BandsConfig`] says.
#[verifier::ext_equal]
pub struct BandsInput {
    pub mode: OpusCustomMode,
    pub start: usize,
    pub end: usize,
    pub stereo: bool,
    pub pulses: Seq<i32>,
    pub short_blocks: bool,
    pub spread: i32,
    pub intensity: usize,
    pub tf_res: Seq<i32>,
    pub total_bits: i32,
    pub lm: i32,
    pub coded_bands: usize,
    pub disable_inv: bool,
}

impl<'a> View for BandsConfig<'a> {
    type V = BandsInput;

    open spec fn view(&self) -> BandsInput {
        BandsInput {
            mode: *self.mode,
            start: self.start,
            end: self.end,
            stereo: self.stereo,
            pulses: self.pulses@,
            short_blocks: self.short_blocks,
            spread: self.spread,
            intensity: self.intensity,
            tf_res: self.tf_res@,
            total_bits: self.total_bits,
            lm: self.lm,
            coded_bands: self.coded_bands,
            disable_inv: self.disable_inv,
        }
    }
}

impl BandsInput {
    /// Short-block bins to coefficients.
    pub open spec fn m(self) -> int {
        scale_of(self.lm as int)
    }

    /// Number of time blocks.
    pub open spec fn blocks(self) -> int {
        if self.short_blocks {
            self.m()
        } else {
            1
        }
    }

    /// First coefficient of a band.
    pub open spec fn at(self, band: int) -> int {
        self.m() * self.mode.edge(band)
    }

    /// Length of the folding buffer of one channel.
    pub open spec fn norm_len(self) -> int {
        self.at(self.mode.num_ebands - 1) - self.at(self.start as int)
    }

    /// What decoding relies on.
    pub open spec fn wf(self) -> bool {
        &&& self.mode.wf()
        &&& self.start < self.end <= self.mode.num_ebands
        &&& 0 <= self.lm <= self.mode.max_lm
        &&& self.mode.foldable(self.start as int, self.end as int)
        &&& forall|band: int|
            #![trigger at_or_zero(self.tf_res, band)]
            self.start <= band < self.end ==> tf_valid(
                self.blocks(),
                at_or_zero(self.tf_res, band) as int,
            )
    }

    /// Allocation of a band from its share of the balance.
    pub open spec fn allotted(self, band: int, remaining: i32, balance: i32) -> i32 {
        if band < self.coded_bands {
            let share = if self.coded_bands - band < 3 { self.coded_bands - band } else { 3 };
            let target = at_or_zero(self.pulses, band).wrapping_add(
                trunc_div(balance as int, share) as i32,
            );
            let most = remaining.wrapping_add(1);
            let b = if most < target { most } else { target };
            if b < 0 {
                0
            } else if b > 16383 {
                16383
            } else {
                b
            }
        } else {
            0
        }
    }

    /// First band whose coefficients lie at or before `threshold`, looking down
    /// from band `i`.
    pub open spec fn fold_from(self, i: int, threshold: int) -> int
        decreases i,
    {
        if i <= 0 {
            0
        } else if self.at(i - 1) <= threshold {
            i - 1
        } else {
            self.fold_from(i - 1, threshold)
        }
    }

    /// First band from `i` on that starts at or behind `threshold`, up to `band`.
    pub open spec fn fold_to(self, i: int, band: int, threshold: int) -> int
        decreases band - i,
    {
        if i < band && self.at(i) < threshold {
            self.fold_to(i + 1, band, threshold)
        } else {
            i
        }
    }

    /// Collapse masks of the bands from `i` to `to`, joined to `acc`; `side` is
    /// the position of the channel.
    pub open spec fn masks_joined(
        self,
        masks: Seq<u8>,
        side: int,
        i: int,
        to: int,
        acc: u32,
    ) -> u32
        decreases to - i,
    {
        if i < to {
            let at = i * self.channels() + side;
            self.masks_joined(
                masks,
                side,
                i + 1,
                to,
                acc | (if at < masks.len() { masks[at] as u32 } else { 0 }),
            )
        } else {
            acc
        }
    }

    /// Number of channels.
    pub open spec fn channels(self) -> int {
        if self.stereo {
            2
        } else {
            1
        }
    }

    /// Position of the last channel.
    pub open spec fn last_channel(self) -> int {
        self.channels() - 1
    }
}

/// Whether windows of `n` elements at the two offsets lie in a buffer of `len`
/// elements without overlap.
pub open spec fn windows_fit(len: int, input: Option<usize>, output: Option<usize>, n: int) -> bool {
    match (input, output) {
        (None, None) => true,
        (Some(i), None) => i + n <= len,
        (None, Some(o)) => o + n <= len,
        (Some(i), Some(o)) => i + n <= len && o + n <= len && (i + n <= o || o + n <= i),
    }
}

/// Folding source at the input offset, if the windows fit.
pub open spec fn window_read(
    norm: Seq<i16>,
    input: Option<usize>,
    output: Option<usize>,
    n: int,
) -> Option<Seq<i16>> {
    match input {
        Some(i) if windows_fit(norm.len() as int, input, output, n) => Some(
            norm.subrange(i as int, i + n),
        ),
        _ => None,
    }
}

/// Folding buffer with the decoded shape written at the output offset, if the
/// windows fit.
pub open spec fn window_written(
    norm: Seq<i16>,
    input: Option<usize>,
    output: Option<usize>,
    shape: Seq<i16>,
) -> Seq<i16> {
    match output {
        Some(o) if windows_fit(norm.len() as int, input, output, shape.len() as int) => written(
            norm,
            o as int,
            fold_copy(shape),
        ),
        _ => norm,
    }
}

/// Mean of two folding buffers.
pub open spec fn averaged(a: Seq<i16>, b: Seq<i16>) -> Seq<i16> {
    Seq::new(a.len(), |i: int| ((((a[i] as i32) + (b[i] as i32)) as i32) >> 1u32) as i16)
}

/// State of the loop over the bands.
#[verifier::ext_equal]
pub struct BandsState<C> {
    /// The range coder.
    pub coder: C,
    /// Spectrum of the first channel.
    pub x: Seq<i16>,
    /// Spectrum of the second channel.
    pub y: Seq<i16>,
    /// Folding buffers.
    pub norm: Seq<i16>,
    pub norm2: Seq<i16>,
    /// Collapse masks, interleaved by channel.
    pub masks: Seq<u8>,
    pub seed: u32,
    /// Bits saved by earlier bands, in 1/8 bits.
    pub balance: i32,
    /// Whether the channels are coded separately.
    pub dual: bool,
    /// Band up to which the folding buffer is usable.
    pub lowband: Option<usize>,
    /// Whether the previous band was coded well enough to be folded.
    pub update: bool,
    pub avoid_split_noise: bool,
}

/// Everything about a band that is settled before its shape is read.
#[verifier::ext_equal]
pub struct BandPlan {
    /// Bits used so far, in 1/8 bits.
    pub tell: i32,
    pub remaining: i32,
    /// Balance before the band.
    pub balance: i32,
    /// Allocation of the band.
    pub b: i32,
    pub lowband: Option<usize>,
    pub norm: Seq<i16>,
    pub norm2: Seq<i16>,
    /// Offset of the folding source.
    pub effective: Option<usize>,
    pub x_fill: u32,
    pub y_fill: u32,
    pub dual: bool,
    /// Offset at which the band is kept for later folding.
    pub output: Option<usize>,
}

/// Offset of the folding source of a band of `n` coefficients.
pub open spec fn fold_offset(cfg: BandsInput, lowband: int, n: int) -> int {
    let d = cfg.at(lowband) - cfg.at(cfg.start as int) - n;
    if d < 0 {
        0
    } else {
        d
    }
}

/// Folding limit after looking at a band.
pub open spec fn lowband_after(
    cfg: BandsInput,
    band: int,
    lowband: Option<usize>,
    update: bool,
) -> Option<usize> {
    let n = cfg.at(band + 1) - cfg.at(band);
    if (cfg.at(band) >= cfg.at(cfg.start as int) + n || band == cfg.start + 1) && (update
        || lowband is None) {
        Some(band as usize)
    } else {
        lowband
    }
}

/// Offset of the folding source of a band, if it is folded from one.
pub open spec fn fold_source(cfg: BandsInput, band: int, lowband: Option<usize>) -> Option<
    usize,
> {
    let n = cfg.at(band + 1) - cfg.at(band);
    match lowband {
        Some(l) if cfg.spread != SPREAD_AGGRESSIVE || cfg.blocks() > 1 || at_or_zero(
            cfg.tf_res,
            band,
        ) < 0 => Some(fold_offset(cfg, l as int, n) as usize),
        _ => None,
    }
}

/// Collapse mask that a band inherits from the bands it is folded from.
pub open spec fn inherited_mask(
    cfg: BandsInput,
    band: int,
    lowband: Option<usize>,
    masks: Seq<u8>,
    side: int,
) -> u32 {
    match fold_source(cfg, band, lowband) {
        Some(e) => {
            let n = cfg.at(band + 1) - cfg.at(band);
            let l = lowband->0 as int;
            let first = e + cfg.at(cfg.start as int);
            let from = cfg.fold_from(l, first);
            let to = cfg.fold_to((if l > 0 { l - 1 } else { 0 }) + 1, band, first + n);
            cfg.masks_joined(masks, side, from, to, 0)
        },
        None => low_mask(cfg.blocks()),
    }
}

/// Folding buffer with the hybrid start filled in at the second band.
pub open spec fn start_folded(cfg: BandsInput, band: int, norm: Seq<i16>) -> Seq<i16> {
    let n1 = cfg.m() * cfg.mode.width(cfg.start as int);
    let n2 = cfg.m() * cfg.mode.width(cfg.start + 1);
    if band == cfg.start + 1 && n2 > n1 {
        hybrid_folded(norm, n1, n2)
    } else {
        norm
    }
}

/// Plan of a band before which `tell` eighths of a bit are used; without
/// reconstruction there is nothing to fold from.
#[verifier::opaque]
pub open spec fn band_planned<C>(
    cfg: BandsInput,
    s: BandsState<C>,
    band: int,
    tell: i32,
    resynth: bool,
) -> BandPlan {
    let balance = if band != cfg.start { s.balance.wrapping_sub(tell) } else { s.balance };
    let remaining = cfg.total_bits.wrapping_sub(tell).wrapping_sub(1);
    let lowband = if resynth {
        lowband_after(cfg, band, s.lowband, s.update)
    } else {
        s.lowband
    };
    let norm = start_folded(cfg, band, s.norm);
    let norm2 = if cfg.stereo && s.dual { start_folded(cfg, band, s.norm2) } else { s.norm2 };
    let joins = s.dual && band == cfg.intensity;
    BandPlan {
        tell,
        remaining,
        balance,
        b: cfg.allotted(band, remaining, balance),
        lowband,
        norm: if joins && cfg.stereo && resynth { averaged(norm, norm2) } else { norm },
        norm2,
        effective: fold_source(cfg, band, lowband),
        x_fill: inherited_mask(cfg, band, lowband, s.masks, 0),
        y_fill: inherited_mask(cfg, band, lowband, s.masks, cfg.last_channel()),
        dual: s.dual && !joins,
        output: if band + 1 < cfg.end {
            Some((cfg.at(band) - cfg.at(cfg.start as int)) as usize)
        } else {
            None
        },
    }
}

/// Outcome of reading the shape of a band.
#[verifier::ext_equal]
pub struct BandShape<'a> {
    pub dec: EcDec<'a>,
    pub seed: u32,
    pub x: Seq<i16>,
    pub y: Seq<i16>,
    pub norm: Seq<i16>,
    pub norm2: Seq<i16>,
    pub x_cm: u32,
    pub y_cm: u32,
}

/// Context in which the shape of a band is read.
pub open spec fn band_context<'m>(
    cfg: BandsInput,
    band: usize,
    remaining_bits: i32,
    seed: u32,
    avoid_split_noise: bool,
) -> BandCtx<'m> {
    BandCtx {
        mode: &cfg.mode,
        band,
        intensity: cfg.intensity,
        spread: cfg.spread,
        tf_change: at_or_zero(cfg.tf_res, band as int),
        remaining_bits,
        seed,
        theta_round: 0,
        disable_inv: cfg.disable_inv,
        avoid_split_noise,
        resynth: true,
    }
}

/// Reads the shape of a band according to its plan.
#[verifier::opaque]
pub open spec fn band_shaped<'a>(
    cfg: BandsInput,
    dec: EcDec<'a>,
    ctx: BandCtx<'_>,
    p: BandPlan,
    x: Seq<i16>,
    y: Seq<i16>,
) -> BandShape<'a> {
    let n = x.len() as int;
    let lm = cfg.lm as int;
    let low = window_read(p.norm, p.effective, p.output, n);
    if p.dual {
        let half = p.b / 2;
        let l = band_decoded(
            dec,
            ctx,
            x,
            n,
            half as i32,
            cfg.blocks(),
            low,
            lm,
            Q31_ONE,
            p.x_fill,
        );
        let norm = window_written(p.norm, p.effective, p.output, l.x);
        if cfg.stereo {
            let r = band_decoded(
                l.dec,
                BandCtx { remaining_bits: l.remaining, seed: l.seed, ..ctx },
                y,
                n,
                half as i32,
                cfg.blocks(),
                window_read(p.norm2, p.effective, p.output, n),
                lm,
                Q31_ONE,
                p.y_fill,
            );
            BandShape {
                dec: r.dec,
                seed: r.seed,
                x: l.x,
                y: r.x,
                norm,
                norm2: window_written(p.norm2, p.effective, p.output, r.x),
                x_cm: l.cm,
                y_cm: r.cm,
            }
        } else {
            BandShape {
                dec: l.dec,
                seed: l.seed,
                x: l.x,
                y,
                norm,
                norm2: p.norm2,
                x_cm: l.cm,
                y_cm: p.y_fill,
            }
        }
    } else if cfg.stereo {
        let r = stereo_decoded(
            dec,
            ctx,
            x,
            y,
            n,
            p.b,
            cfg.blocks(),
            low,
            lm,
            p.x_fill | p.y_fill,
        );
        BandShape {
            dec: r.dec,
            seed: r.seed,
            x: r.x,
            y: r.y,
            norm: window_written(p.norm, p.effective, p.output, r.main),
            norm2: p.norm2,
            x_cm: r.cm,
            y_cm: r.cm,
        }
    } else {
        let r = band_decoded(
            dec,
            ctx,
            x,
            n,
            p.b,
            cfg.blocks(),
            low,
            lm,
            Q31_ONE,
            p.x_fill | p.y_fill,
        );
        BandShape {
            dec: r.dec,
            seed: r.seed,
            x: r.x,
            y,
            norm: window_written(p.norm, p.effective, p.output, r.x),
            norm2: p.norm2,
            x_cm: r.cm,
            y_cm: r.cm,
        }
    }
}

/// A mask written at `at`, if the position exists.
pub open spec fn mask_set(masks: Seq<u8>, at: int, cm: u32) -> Seq<u8> {
    if 0 <= at < masks.len() {
        masks.update(at, cm as u8)
    } else {
        masks
    }
}

/// State after one band.
pub open spec fn band_step<'a>(
    cfg: BandsInput,
    s: BandsState<EcDec<'a>>,
    band: usize,
) -> BandsState<EcDec<'a>> {
    let from = cfg.at(band as int);
    let to = cfg.at(band + 1);
    if from == to {
        s
    } else {
        let p = band_planned(cfg, s, band as int, s.coder.tell_eighths(), true);
        let ctx = band_context(cfg, band, p.remaining, s.seed, s.avoid_split_noise);
        let r = band_shaped(
            cfg,
            s.coder,
            ctx,
            p,
            s.x.subrange(from, to),
            if cfg.stereo { s.y.subrange(from, to) } else { Seq::empty() },
        );
        BandsState {
            coder: r.dec,
            x: written(s.x, from, r.x),
            y: if cfg.stereo { written(s.y, from, r.y) } else { s.y },
            norm: r.norm,
            norm2: r.norm2,
            masks: mask_set(
                mask_set(s.masks, band * cfg.channels(), r.x_cm),
                band * cfg.channels() + cfg.last_channel(),
                r.y_cm,
            ),
            seed: r.seed,
            balance: p.balance.wrapping_add(
                at_or_zero(cfg.pulses, band as int).wrapping_add(p.tell),
            ),
            dual: p.dual,
            lowband: p.lowband,
            update: p.b > (to - from) * 8,
            avoid_split_noise: false,
        }
    }
}

/// State after the bands from `band` on.
pub open spec fn bands_decoded<'a>(
    cfg: BandsInput,
    s: BandsState<EcDec<'a>>,
    band: int,
) -> BandsState<EcDec<'a>>
    decreases cfg.end - band,
{
    if band < 0 || band >= cfg.end {
        s
    } else {
        bands_decoded(cfg, band_step(cfg, s, band as usize), band + 1)
    }
}

/// State before the first band.
pub open spec fn bands_started<C>(
    cfg: BandsInput,
    coder: C,
    x: Seq<i16>,
    y: Seq<i16>,
    masks: Seq<u8>,
    seed: u32,
    balance: i32,
    dual: bool,
) -> BandsState<C> {
    let len = cfg.norm_len() as nat;
    BandsState {
        coder,
        x,
        y,
        norm: Seq::new(len, |i: int| 0i16),
        norm2: if cfg.stereo { Seq::new(len, |i: int| 0i16) } else { Seq::empty() },
        masks,
        seed,
        balance,
        dual,
        lowband: None,
        update: true,
        avoid_split_noise: cfg.blocks() > 1,
    }
}

/// The band edges, scaled to coefficients, are ordered and bounded.
pub proof fn lemma_edges(cfg: BandsInput, i: int, j: int)
    requires
        cfg.mode.bands_wf(),
        cfg.mode.sizes_wf(),
        0 <= i <= j <= cfg.mode.num_ebands,
    ensures
        0 <= cfg.at(i) <= cfg.at(j) <= 2048,
        cfg.at(j) - cfg.at(i) == cfg.m() * (cfg.mode.edge(j) - cfg.mode.edge(i)),
{
    let m = cfg.m();
    let a = cfg.mode.edge(i);
    let b = cfg.mode.edge(j);
    let last = cfg.mode.edge(cfg.mode.num_ebands as int);
    assert(cfg.mode.edge(0) <= a <= b <= last <= 256);
    assert(0 <= m * a <= m * b <= 2048 && m * b - m * a == m * (b - a)) by (nonlinear_arith)
        requires
            0 <= a <= b <= 256,
            1 <= m <= 8,
    ;
}

impl<'a> BandsConfig<'a> {
    /// Computes [`BandsInput::at`].
    pub fn offset(&self, band: usize) -> (r: usize)
        requires
            self.mode.bands_wf(),
            self.mode.sizes_wf(),
            band <= self.mode.num_ebands,
        ensures
            r == self@.at(band as int),
            r <= 2048,
    {
        proof {
            lemma_edges(self@, band as int, band as int);
            assert(self.mode.e_bands@[0] <= self.mode.e_bands@[band as int]);
        }
        scale(self.lm) * self.mode.e_bands[band] as usize
    }

    /// Computes [`BandsInput::blocks`].
    pub fn block_count(&self) -> (r: i32)
        ensures
            r == self@.blocks(),
            1 <= r <= 8,
    {
        if self.short_blocks {
            scale(self.lm) as i32
        } else {
            1
        }
    }

    /// Computes [`BandsInput::allotted`].
    fn allot(&self, band: usize, remaining: i32, balance: i32) -> (b: i32)
        ensures
            b == self@.allotted(band as int, remaining, balance),
            0 <= b <= 16383,
    {
        if band >= self.coded_bands {
            return 0;
        }
        let share: i32 = if self.coded_bands - band < 3 { (self.coded_bands - band) as i32 } else { 3 };
        let target: i32 = get_or_zero(self.pulses, band).wrapping_add(celt_sudiv(balance, share));
        let most: i32 = remaining.wrapping_add(1);
        let b: i32 = if most < target { most } else { target };
        if b < 0 {
            0
        } else if b > 16383 {
            16383
        } else {
            b
        }
    }

    /// Computes [`BandsInput::masks_joined`] for both channels.
    fn join_masks(&self, masks: &Vec<u8>, from: usize, to: usize) -> (r: (u32, u32))
        requires
            to <= 1000,
        ensures
            r.0 == self@.masks_joined(masks@, 0, from as int, to as int, 0),
            r.1 == self@.masks_joined(masks@, self@.last_channel(), from as int, to as int, 0),
    {
        let channels: usize = if self.stereo { 2 } else { 1 };
        let mut left: u32 = 0;
        let mut right: u32 = 0;
        let mut i: usize = from;
        while i < to
            invariant
                to <= 1000,
                from <= i,
                channels == self@.channels(),
                self@.masks_joined(masks@, 0, i as int, to as int, left) == self@.masks_joined(
                    masks@,
                    0,
                    from as int,
                    to as int,
                    0,
                ),
                self@.masks_joined(masks@, self@.last_channel(), i as int, to as int, right)
                    == self@.masks_joined(masks@, self@.last_channel(), from as int, to as int, 0),
            decreases to - i,
        {
            let at: usize = i * channels;
            left = left | (if at < masks.len() { masks[at] as u32 } else { 0 });
            let beside: usize = at + (channels - 1);
            right = right | (if beside < masks.len() { masks[beside] as u32 } else { 0 });
            i = i + 1;
        }
        (left, right)
    }

    /// Computes [`BandsInput::fold_from`].
    fn find_fold_start(&self, lowband: usize, threshold: usize) -> (r: usize)
        requires
            self.mode.bands_wf(),
            self.mode.sizes_wf(),
            lowband <= self.mode.num_ebands,
        ensures
            r == self@.fold_from(lowband as int, threshold as int),
            r <= lowband,
    {
        let mut i: usize = lowband;
        while i > 0
            invariant
                self.mode.bands_wf(),
                self.mode.sizes_wf(),
                i <= lowband <= self.mode.num_ebands,
                self@.fold_from(i as int, threshold as int) == self@.fold_from(
                    lowband as int,
                    threshold as int,
                ),
            decreases i,
        {
            if self.offset(i - 1) <= threshold {
                return i - 1;
            }
            i = i - 1;
        }
        0
    }

    /// Computes [`BandsInput::fold_to`].
    fn find_fold_end(&self, first: usize, band: usize, threshold: usize) -> (r: usize)
        requires
            self.mode.bands_wf(),
            self.mode.sizes_wf(),
            band <= self.mode.num_ebands,
            first <= 1000,
        ensures
            r == self@.fold_to(first as int, band as int, threshold as int),
            r <= 1000,
    {
        let mut i: usize = first;
        while i < band && self.offset(i) < threshold
            invariant
                self.mode.bands_wf(),
                self.mode.sizes_wf(),
                band <= self.mode.num_ebands,
                first <= i <= 1000,
                self@.fold_to(i as int, band as int, threshold as int) == self@.fold_to(
                    first as int,
                    band as int,
                    threshold as int,
                ),
            decreases band - i,
        {
            i = i + 1;
        }
        i
    }

    /// Folding source of a band and the collapse masks it inherits.
    fn find_source(&self, band: usize, lowband: Option<usize>, masks: &Vec<u8>) -> (r: (
        Option<usize>,
        u32,
        u32,
    ))
        requires
            self.mode.bands_wf(),
            self.mode.sizes_wf(),
            self.start <= band < self.mode.num_ebands,
            lowband matches Some(l) ==> self.start <= l <= band,
        ensures
            r.0 == fold_source(self@, band as int, lowband),
            r.1 == inherited_mask(self@, band as int, lowband, masks@, 0),
            r.2 == inherited_mask(self@, band as int, lowband, masks@, self@.last_channel()),
            r.0 matches Some(e) ==> e <= 2048,
    {
        let blocks: i32 = self.block_count();
        let folds: bool = self.spread != SPREAD_AGGRESSIVE || blocks > 1 || get_or_zero(
            self.tf_res,
            band,
        ) < 0;
        match lowband {
            Some(l) if folds => {
                proof {
                    lemma_edges(self@, self.start as int, l as int);
                    lemma_edges(self@, band as int, band + 1);
                }
                let n: usize = self.offset(band + 1) - self.offset(band);
                let base: usize = self.offset(self.start);
                let reach: usize = self.offset(l) - base;
                let e: usize = if reach < n { 0 } else { reach - n };
                let from: usize = self.find_fold_start(l, e + base);
                let first: usize = if l > 0 { l } else { 1 };
                let to: usize = self.find_fold_end(first, band, e + base + n);
                let (left, right) = self.join_masks(masks, from, to);
                (Some(e), left, right)
            },
            _ => {
                let mask: u32 = mask_from_bits(blocks);
                (None, mask, mask)
            },
        }
    }
}

/// Computes [`window_read`].
pub(crate) fn read_window(norm: &Vec<i16>, input: Option<usize>, output: Option<usize>, n: usize) -> (r: Option<
    Vec<i16>,
>)
    requires
        n <= 2048,
        input matches Some(i) ==> i <= 2048,
        output matches Some(o) ==> o <= 2048,
    ensures
        opt_view(r) == window_read(norm@, input, output, n as int),
        opt_len(opt_view(r), n as int),
{
    let len: usize = norm.len();
    let fits: bool = match (input, output) {
        (None, None) => true,
        (Some(i), None) => i + n <= len,
        (None, Some(o)) => o + n <= len,
        (Some(i), Some(o)) => i + n <= len && o + n <= len && (i + n <= o || o + n <= i),
    };
    match input {
        Some(i) if fits => {
            let window: Vec<i16> = copy_range(norm, i, i + n);
            Some(window)
        },
        _ => None,
    }
}

/// Applies [`window_written`].
pub(crate) fn write_window(norm: &mut Vec<i16>, input: Option<usize>, output: Option<usize>, shape: &Vec<i16>)
    requires
        shape@.len() <= 2048,
        input matches Some(i) ==> i <= 2048,
        output matches Some(o) ==> o <= 2048,
    ensures
        final(norm)@ == window_written(old(norm)@, input, output, shape@),
        final(norm)@.len() == old(norm)@.len(),
{
    let len: usize = norm.len();
    let n: usize = shape.len();
    let fits: bool = match (input, output) {
        (None, None) => true,
        (Some(i), None) => i + n <= len,
        (None, Some(o)) => o + n <= len,
        (Some(i), Some(o)) => i + n <= len && o + n <= len && (i + n <= o || o + n <= i),
    };
    if !fits {
        return;
    }
    if let Some(o) = output {
        let copy: Vec<i16> = copy_for_folding(shape);
        write_at(norm, o, &copy);
    }
}

/// Applies [`averaged`].
fn average(a: &mut Vec<i16>, b: &Vec<i16>)
    requires
        old(a)@.len() == b@.len(),
    ensures
        final(a)@ == averaged(old(a)@, b@),
{
    let ghost a0 = a@;
    let n: usize = a.len();
    for i in 0..n
        invariant
            n == a@.len(),
            n == b@.len(),
            n == a0.len(),
            forall|k: int| 0 <= k < i ==> a@[k] == averaged(a0, b@)[k],
            forall|k: int| i <= k < n ==> a@[k] == a0[k],
    {
        let mean: i16 = ((a[i] as i32 + b[i] as i32) >> 1u32) as i16;
        a.set(i, mean);
    }
    assert(a@ =~= averaged(a0, b@));
}

/// Buffers and counters of the loop over the bands.
pub struct BandsWork {
    pub x: Vec<i16>,
    pub y: Vec<i16>,
    pub norm: Vec<i16>,
    pub norm2: Vec<i16>,
    pub masks: Vec<u8>,
    pub seed: u32,
    pub balance: i32,
    pub dual: bool,
    pub lowband: Option<usize>,
    pub update: bool,
    pub avoid_split_noise: bool,
}

impl BandsWork {
    /// The state that the buffers hold.
    pub open spec fn state<C>(self, coder: C) -> BandsState<C> {
        BandsState {
            coder,
            x: self.x@,
            y: self.y@,
            norm: self.norm@,
            norm2: self.norm2@,
            masks: self.masks@,
            seed: self.seed,
            balance: self.balance,
            dual: self.dual,
            lowband: self.lowband,
            update: self.update,
            avoid_split_noise: self.avoid_split_noise,
        }
    }

    /// The buffers fit the frame before band `band`.
    pub open spec fn fits(self, cfg: BandsInput, band: int) -> bool {
        &&& cfg.at(cfg.end as int) <= self.x@.len()
        &&& cfg.stereo ==> cfg.at(cfg.end as int) <= self.y@.len()
        &&& self.norm@.len() == cfg.norm_len()
        &&& cfg.stereo ==> self.norm2@.len() == cfg.norm_len()
        &&& self.lowband matches Some(l) ==> cfg.start <= l < band
    }
}

/// A plan does not depend on what the coder is.
pub proof fn lemma_plan_ignores_coder<C, D>(
    cfg: BandsInput,
    s: BandsState<C>,
    t: BandsState<D>,
    band: int,
    tell: i32,
    resynth: bool,
)
    requires
        s.norm == t.norm,
        s.norm2 == t.norm2,
        s.masks == t.masks,
        s.balance == t.balance,
        s.dual == t.dual,
        s.lowband == t.lowband,
        s.update == t.update,
    ensures
        band_planned(cfg, s, band, tell, resynth) == band_planned(cfg, t, band, tell, resynth),
        band_planned(cfg, s, band, tell, resynth).tell == tell,
{
    reveal(band_planned);
}

/// The part of [`BandPlan`] that is not kept in the buffers.
pub(crate) struct PlanWork {
    pub remaining: i32,
    pub b: i32,
    pub effective: Option<usize>,
    pub x_fill: u32,
    pub y_fill: u32,
    pub output: Option<usize>,
}

/// Settles everything about a band before its shape is read.
pub(crate) fn plan_band(
    cfg: &BandsConfig<'_>,
    w: &mut BandsWork,
    band: usize,
    tell: i32,
    resynth: bool,
) -> (q: PlanWork)
    requires
        cfg@.wf(),
        cfg.start <= band < cfg.end,
        old(w).fits(cfg@, band as int),
    ensures
        ({
            let p = band_planned(cfg@, old(w).state(()), band as int, tell, resynth);
            &&& final(w).state(()) == (BandsState {
                norm: p.norm,
                norm2: p.norm2,
                balance: p.balance,
                dual: p.dual,
                lowband: p.lowband,
                ..old(w).state(())
            })
            &&& q.remaining == p.remaining
            &&& q.b == p.b
            &&& q.effective == p.effective
            &&& q.x_fill == p.x_fill
            &&& q.y_fill == p.y_fill
            &&& q.output == p.output
        }),
        final(w).fits(cfg@, band + 1),
        q.effective matches Some(e) ==> e <= 2048,
        q.output matches Some(o) ==> o <= 2048,
        0 <= q.b <= 16383,
{
    proof {
        reveal(band_planned);
        lemma_edges(cfg@, cfg.start as int, band as int);
        lemma_edges(cfg@, band as int, band + 1);
        lemma_edges(cfg@, cfg.start as int, cfg.mode.num_ebands - 1);
    }
    if band != cfg.start {
        w.balance = w.balance.wrapping_sub(tell);
    }
    let remaining: i32 = cfg.total_bits.wrapping_sub(tell).wrapping_sub(1);
    let b: i32 = cfg.allot(band, remaining, w.balance);
    let base: usize = cfg.offset(cfg.start);
    let from: usize = cfg.offset(band);
    let n: usize = cfg.offset(band + 1) - from;
    if resynth && (from >= base + n || band == cfg.start + 1) && (w.update || w.lowband.is_none()) {
        w.lowband = Some(band);
    }
    if band == cfg.start + 1 {
        let m: usize = scale(cfg.lm);
        proof {
            lemma_edges(cfg@, cfg.start as int, cfg.start + 1);
            lemma_edges(cfg@, cfg.start + 1, cfg.start + 2);
            let w1 = cfg.mode.width(cfg.start as int);
            let w2 = cfg.mode.width(cfg.start + 1);
            let span = cfg.mode.edge(cfg.mode.num_ebands - 1) - cfg.mode.edge(cfg.start as int);
            assert(w2 <= 2 * w1 && w2 <= span ==> m * w2 <= m * span && m * w2 <= 2 * (m * w1))
                by (nonlinear_arith)
                requires
                    m >= 0,
            ;
        }
        if cfg.stereo {
            special_hybrid_folding(cfg.mode, &mut w.norm, Some(&mut w.norm2), cfg.start, m, w.dual);
        } else {
            special_hybrid_folding(cfg.mode, &mut w.norm, None, cfg.start, m, w.dual);
        }
    }
    let (effective, x_fill, y_fill) = cfg.find_source(band, w.lowband, &w.masks);
    if w.dual && band == cfg.intensity {
        w.dual = false;
        if cfg.stereo && resynth {
            average(&mut w.norm, &w.norm2);
        }
    }
    let output: Option<usize> = if band + 1 < cfg.end { Some(from - base) } else { None };
    PlanWork { remaining, b, effective, x_fill, y_fill, output }
}

/// Reads the shape of a band; the collapse masks are returned.
#[verifier::rlimit(40)]
fn shape_band(
    cfg: &BandsConfig<'_>,
    dec: &mut EcDec<'_>,
    ctx: &mut BandCtx<'_>,
    q: &PlanWork,
    dual: bool,
    norm: &mut Vec<i16>,
    norm2: &mut Vec<i16>,
    x: &mut Vec<i16>,
    y: &mut Vec<i16>,
    Ghost(p): Ghost<BandPlan>,
) -> (r: (u32, u32))
    requires
        old(dec).wf(),
        cfg.mode == old(ctx).mode,
        band_ready(*old(ctx), old(x)@.len() as int, cfg.lm as int),
        0 <= cfg.lm <= 3,
        tf_valid(cfg@.blocks(), old(ctx).tf_change as int),
        cfg.stereo ==> old(y)@.len() == old(x)@.len(),
        old(x)@.len() <= 2048,
        q.effective matches Some(e) ==> e <= 2048,
        q.output matches Some(o) ==> o <= 2048,
        0 <= q.b <= 16383,
        p == (BandPlan {
            b: q.b,
            norm: old(norm)@,
            norm2: old(norm2)@,
            effective: q.effective,
            x_fill: q.x_fill,
            y_fill: q.y_fill,
            dual,
            output: q.output,
            ..p
        }),
    ensures
        ({
            let s = band_shaped(cfg@, *old(dec), *old(ctx), p, old(x)@, old(y)@);
            &&& *final(dec) == s.dec
            &&& final(ctx).seed == s.seed
            &&& final(x)@ == s.x
            &&& final(y)@ == s.y
            &&& final(norm)@ == s.norm
            &&& final(norm2)@ == s.norm2
            &&& r == (s.x_cm, s.y_cm)
        }),
        final(dec).wf(),
        final(dec).buf@ == old(dec).buf@,
        final(x)@.len() == old(x)@.len(),
        final(y)@.len() == old(y)@.len(),
        final(norm)@.len() == old(norm)@.len(),
        final(norm2)@.len() == old(norm2)@.len(),
{
    proof {
        reveal(band_shaped);
    }
    let n: usize = x.len();
    let blocks: i32 = cfg.block_count();
    let low: Option<Vec<i16>> = read_window(norm, q.effective, q.output, n);
    if dual {
        let half: i32 = q.b / 2;
        let x_cm: u32 = quant_band_decode(
            dec,
            ctx,
            x,
            n,
            half,
            blocks,
            low,
            cfg.lm,
            Q31_ONE,
            q.x_fill,
        );
        write_window(norm, q.effective, q.output, x);
        if cfg.stereo {
            let low2: Option<Vec<i16>> = read_window(norm2, q.effective, q.output, n);
            let y_cm: u32 = quant_band_decode(
                dec,
                ctx,
                y,
                n,
                half,
                blocks,
                low2,
                cfg.lm,
                Q31_ONE,
                q.y_fill,
            );
            write_window(norm2, q.effective, q.output, y);
            (x_cm, y_cm)
        } else {
            (x_cm, q.y_fill)
        }
    } else if cfg.stereo {
        let (cm, main) = quant_band_stereo_decode(
            dec,
            ctx,
            x,
            y,
            n,
            q.b,
            blocks,
            low,
            cfg.lm,
            q.x_fill | q.y_fill,
        );
        write_window(norm, q.effective, q.output, &main);
        (cm, cm)
    } else {
        let cm: u32 = quant_band_decode(
            dec,
            ctx,
            x,
            n,
            q.b,
            blocks,
            low,
            cfg.lm,
            Q31_ONE,
            q.x_fill | q.y_fill,
        );
        write_window(norm, q.effective, q.output, x);
        (cm, cm)
    }
}

/// Applies [`mask_set`].
pub(crate) fn set_mask(masks: &mut Vec<u8>, at: usize, cm: u32)
    ensures
        final(masks)@ == mask_set(old(masks)@, at as int, cm),
{
    if at < masks.len() {
        masks.set(at, cm as u8);
    }
}

/// Decodes one band.
#[verifier::rlimit(60)]
#[verifier::spinoff_prover]
fn step_band(cfg: &BandsConfig<'_>, dec: &mut EcDec<'_>, w: &mut BandsWork, band: usize)
    requires
        old(dec).wf(),
        cfg@.wf(),
        cfg.start <= band < cfg.end,
        old(w).fits(cfg@, band as int),
    ensures
        final(w).state(*final(dec)) == band_step(cfg@, old(w).state(*old(dec)), band),
        final(w).fits(cfg@, band + 1),
        final(dec).wf(),
        final(dec).buf@ == old(dec).buf@,
{
    let ghost s = w.state(*dec);
    proof {
        lemma_edges(cfg@, band as int, band + 1);
        lemma_edges(cfg@, band + 1, cfg.end as int);
    }
    let from: usize = cfg.offset(band);
    let to: usize = cfg.offset(band + 1);
    if from == to {
        return;
    }
    let tell: i32 = dec.tell_frac();
    let ghost p = band_planned(cfg@, s, band as int, tell, true);
    proof {
        lemma_plan_ignores_coder(cfg@, s, w.state(()), band as int, tell, true);
    }
    let q: PlanWork = plan_band(cfg, w, band, tell, true);
    let mut ctx: BandCtx = BandCtx {
        mode: cfg.mode,
        band,
        intensity: cfg.intensity,
        spread: cfg.spread,
        tf_change: get_or_zero(cfg.tf_res, band),
        remaining_bits: q.remaining,
        seed: w.seed,
        theta_round: 0,
        disable_inv: cfg.disable_inv,
        avoid_split_noise: w.avoid_split_noise,
        resynth: true,
    };
    let mut x: Vec<i16> = copy_range(&w.x, from, to);
    let mut y: Vec<i16> = if cfg.stereo { copy_range(&w.y, from, to) } else { Vec::new() };
    proof {
        let width = cfg.mode.width(band as int);
        assert(width >= 1) by (nonlinear_arith)
            requires
                cfg@.m() * width == to - from,
                to > from,
                cfg@.m() >= 1,
        ;
        assert(x@.len() == cfg.mode.band_size(cfg.lm as int, band as int));
        assert(s.x.subrange(from as int, to as int) =~= x@);
        assert(y@ =~= (if cfg.stereo {
            s.y.subrange(from as int, to as int)
        } else {
            Seq::empty()
        }));
        assert(tf_valid(cfg@.blocks(), at_or_zero(cfg.tf_res@, band as int) as int));
    }
    let dual: bool = w.dual;
    let (x_cm, y_cm) = shape_band(
        cfg,
        dec,
        &mut ctx,
        &q,
        dual,
        &mut w.norm,
        &mut w.norm2,
        &mut x,
        &mut y,
        Ghost(p),
    );
    write_at(&mut w.x, from, &x);
    if cfg.stereo {
        write_at(&mut w.y, from, &y);
    }
    let channels: usize = if cfg.stereo { 2 } else { 1 };
    assert(band * channels <= 2 * band) by (nonlinear_arith)
        requires
            channels <= 2,
    ;
    set_mask(&mut w.masks, band * channels, x_cm);
    set_mask(&mut w.masks, band * channels + (channels - 1), y_cm);
    w.seed = ctx.seed;
    w.balance = w.balance.wrapping_add(get_or_zero(cfg.pulses, band).wrapping_add(tell));
    w.update = q.b > ((to - from) * 8) as i32;
    w.avoid_split_noise = false;
}

/// Decodes the shapes of the bands of a frame.
///
/// The spectra and the collapse masks of the bands are filled in; the new state
/// of the noise generator is returned. Nothing happens when the range of bands
/// is empty or does not belong to the mode.
pub fn quant_all_bands_decode(
    cfg: &BandsConfig<'_>,
    dec: &mut EcDec<'_>,
    x: &mut Vec<i16>,
    y: &mut Vec<i16>,
    masks: &mut Vec<u8>,
    seed: u32,
    balance: i32,
    dual_stereo: bool,
) -> (new_seed: u32)
    requires
        old(dec).wf(),
        cfg.start < cfg.end <= cfg.mode.num_ebands ==> {
            &&& cfg@.wf()
            &&& cfg@.at(cfg.end as int) <= old(x)@.len()
            &&& cfg.stereo ==> cfg@.at(cfg.end as int) <= old(y)@.len()
        },
    ensures
        cfg.start < cfg.end <= cfg.mode.num_ebands ==> {
            let s = bands_decoded(
                cfg@,
                bands_started(
                    cfg@,
                    *old(dec),
                    old(x)@,
                    old(y)@,
                    old(masks)@,
                    seed,
                    balance,
                    dual_stereo,
                ),
                cfg.start as int,
            );
            &&& *final(dec) == s.coder
            &&& final(x)@ == s.x
            &&& final(y)@ == s.y
            &&& final(masks)@ == s.masks
            &&& new_seed == s.seed
        },
        !(cfg.start < cfg.end <= cfg.mode.num_ebands) ==> {
            &&& *final(dec) == *old(dec)
            &&& *final(x) == *old(x)
            &&& *final(y) == *old(y)
            &&& *final(masks) == *old(masks)
            &&& new_seed == seed
        },
        final(dec).wf(),
        final(dec).buf@ == old(dec).buf@,
        final(x)@.len() == old(x)@.len(),
        final(y)@.len() == old(y)@.len(),
        final(masks)@.len() == old(masks)@.len(),
{
    if cfg.start >= cfg.end || cfg.end > cfg.mode.num_ebands {
        return seed;
    }
    proof {
        lemma_edges(cfg@, cfg.start as int, cfg.mode.num_ebands - 1);
    }
    let len: usize = cfg.offset(cfg.mode.num_ebands - 1) - cfg.offset(cfg.start);
    let norm: Vec<i16> = vec![0i16; len];
    let norm2: Vec<i16> = if cfg.stereo { vec![0i16; len] } else { Vec::new() };
    let blocks: i32 = cfg.block_count();
    let mut w: BandsWork = BandsWork {
        x: Vec::new(),
        y: Vec::new(),
        norm,
        norm2,
        masks: Vec::new(),
        seed,
        balance,
        dual: dual_stereo,
        lowband: None,
        update: true,
        avoid_split_noise: blocks > 1,
    };
    core::mem::swap(&mut w.x, x);
    core::mem::swap(&mut w.y, y);
    core::mem::swap(&mut w.masks, masks);
    let ghost first = bands_started(
        cfg@,
        *old(dec),
        old(x)@,
        old(y)@,
        old(masks)@,
        seed,
        balance,
        dual_stereo,
    );
    assert(w.state(*dec) =~= first);
    let mut band: usize = cfg.start;
    while band < cfg.end
        invariant
            cfg@.wf(),
            cfg.start <= band <= cfg.end,
            dec.wf(),
            dec.buf@ == old(dec).buf@,
            w.fits(cfg@, band as int),
            w.x@.len() == old(x)@.len(),
            w.y@.len() == old(y)@.len(),
            w.masks@.len() == old(masks)@.len(),
            bands_decoded(cfg@, w.state(*dec), band as int) == bands_decoded(
                cfg@,
                first,
                cfg.start as int,
            ),
        decreases cfg.end - band,
    {
        step_band(cfg, dec, &mut w, band);
        band = band + 1;
    }
    core::mem::swap(&mut w.x, x);
    core::mem::swap(&mut w.y, y);
    core::mem::swap(&mut w.masks, masks);
    w.seed
}

} // verus!
