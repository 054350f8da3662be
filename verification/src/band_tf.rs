//! Coding of one channel of a band: time-frequency resolution changes around
//! the recursive shape coders.

use vstd::prelude::*;
use crate::band_decode::{band_ready, opt_view, partition, quant_partition_decode, Part};
use crate::band_encode::{angles_coded, partition_encoded, quant_partition, CodedPart};
use crate::bands::{low_mask, mask_from_bits};
use crate::fixed::{extract16, mult16_16_q15, shl32, NORM_SCALING};
use crate::hadamard::{
    deinterleave_hadamard, deinterleaved, haar, haar1, hadamard_stride, interleave_hadamard,
    interleaved,
};
use crate::math::{celt_sqrt, sqrt_approx};
use crate::range_decoder::EcDec;
use crate::range_encoder::{EcEnc, EncState};
use crate::theta::BandCtx;

verus! {

/// Two to the power `k`, for `k` up to three.
pub open spec fn scale_of(k: int) -> int {
    if k <= 0 {
        1
    } else if k == 1 {
        2
    } else if k == 2 {
        4
    } else {
        8
    }
}

/// Computes [`scale_of`].
pub fn scale(k: i32) -> (r: usize)
    ensures
        r == scale_of(k as int),
        1 <= r <= 8,
{
    if k <= 0 {
        1
    } else if k == 1 {
        2
    } else if k == 2 {
        4
    } else {
        8
    }
}

/// Collapse bits of pairs of blocks merged, four bits at a time.
pub open spec fn bits_merged(nibble: int) -> u32 {
    seq![0u32, 1, 1, 1, 2, 3, 3, 3, 2, 3, 3, 3, 2, 3, 3, 3][nibble]
}

/// Collapse bits of merged blocks spread over the pairs again.
pub open spec fn bits_spread(nibble: int) -> u32 {
    seq![
        0x00u32,
        0x03,
        0x0C,
        0x0F,
        0x30,
        0x33,
        0x3C,
        0x3F,
        0xC0,
        0xC3,
        0xCC,
        0xCF,
        0xF0,
        0xF3,
        0xFC,
        0xFF,
    ][nibble]
}

/// Fill mask after one recombination of block pairs.
pub open spec fn fill_merged(fill: u32) -> u32 {
    bits_merged((fill & 0xF) as int) | (bits_merged(((fill >> 4u32) & 0xF) as int) << 2u32)
}

/// Computes [`fill_merged`].
fn merge_fill(fill: u32) -> (merged: u32)
    ensures
        merged == fill_merged(fill),
{
    let table: [u32; 16] = [0, 1, 1, 1, 2, 3, 3, 3, 2, 3, 3, 3, 2, 3, 3, 3];
    assert(fill & 0xF < 16) by (bit_vector);
    assert((fill >> 4u32) & 0xF < 16) by (bit_vector);
    let low: usize = (fill & 0xF) as usize;
    let high: usize = ((fill >> 4u32) & 0xF) as usize;
    assert(table@[low as int] == bits_merged(low as int));
    assert(table@[high as int] == bits_merged(high as int));
    table[low] | (table[high] << 2u32)
}

/// Computes [`bits_spread`] of the low four bits.
fn spread_mask(cm: u32) -> (spread: u32)
    ensures
        spread == bits_spread((cm & 0xF) as int),
{
    let table: [u32; 16] = [
        0x00, 0x03, 0x0C, 0x0F, 0x30, 0x33, 0x3C, 0x3F, 0xC0, 0xC3, 0xCC, 0xCF, 0xF0, 0xF3, 0xFC,
        0xFF,
    ];
    assert(cm & 0xF < 16) by (bit_vector);
    let low: usize = (cm & 0xF) as usize;
    assert(table@[low as int] == bits_spread(low as int));
    table[low]
}

/// [`haar`] of an optional sequence.
pub open spec fn opt_haar(s: Option<Seq<i16>>, n0: int, stride: int) -> Option<Seq<i16>> {
    match s {
        Some(v) => Some(haar(v, n0, stride)),
        None => None,
    }
}

/// Whether an optional sequence, if there is one, has `n` elements.
pub open spec fn opt_len(s: Option<Seq<i16>>, n: int) -> bool {
    s matches Some(v) ==> v.len() == n
}

/// Applies [`opt_haar`].
fn haar_optional(v: Option<Vec<i16>>, n0: usize, stride: usize) -> (r: Option<Vec<i16>>)
    requires
        opt_view(v) matches Some(s) ==> n0 * stride <= s.len(),
    ensures
        opt_view(r) == opt_haar(opt_view(v), n0 as int, stride as int),
        r is Some == v is Some,
{
    match v {
        Some(mut s) => {
            haar1(&mut s, n0, stride);
            Some(s)
        },
        None => None,
    }
}

/// The folding source and the fill mask while the resolution of a band changes.
#[verifier::ext_equal]
pub struct TfState {
    /// Folding source.
    pub low: Option<Seq<i16>>,
    /// Fill mask.
    pub fill: u32,
    /// Number of time blocks.
    pub blocks: int,
    /// Coefficients per block.
    pub per_block: int,
    /// How often blocks were divided.
    pub divisions: int,
}

/// Block pairs recombined from step `k` up to `upto`.
pub open spec fn recombined(
    low: Option<Seq<i16>>,
    fill: u32,
    n: int,
    k: int,
    upto: int,
) -> (Option<Seq<i16>>, u32)
    decreases upto - k,
{
    if k >= upto {
        (low, fill)
    } else {
        recombined(
            opt_haar(low, n / scale_of(k), scale_of(k)),
            fill_merged(fill),
            n,
            k + 1,
            upto,
        )
    }
}

/// At least one block.
pub open spec fn at_least_one(blocks: int) -> int {
    if blocks < 1 {
        1
    } else {
        blocks
    }
}

/// Blocks divided in time as far as the change `tf` asks for.
pub open spec fn time_divided(s: TfState, tf: int) -> TfState
    decreases (if tf + s.divisions < 0 { -(tf + s.divisions) } else { 0 }),
{
    if s.per_block % 2 == 0 && tf + s.divisions < 0 {
        time_divided(
            TfState {
                low: opt_haar(s.low, s.per_block, at_least_one(s.blocks)),
                fill: s.fill | (s.fill << (at_least_one(s.blocks) as u32)),
                blocks: s.blocks * 2,
                per_block: s.per_block / 2,
                divisions: s.divisions + 1,
            },
            tf,
        )
    } else {
        s
    }
}

/// Number of recombinations that a change `tf` asks for.
pub open spec fn recombinations(tf: int) -> int {
    if tf > 0 {
        tf
    } else {
        0
    }
}

/// Folding source and masks at the resolution in which the band is coded.
pub open spec fn tf_prepared(
    low: Option<Seq<i16>>,
    fill: u32,
    n: int,
    blocks: int,
    tf: int,
) -> TfState {
    let rec = recombinations(tf);
    let (low1, fill1) = recombined(low, fill, n, 0, rec);
    let s = time_divided(
        TfState {
            low: low1,
            fill: fill1,
            blocks: blocks / scale_of(rec),
            per_block: n / blocks * scale_of(rec),
            divisions: 0,
        },
        tf,
    );
    if s.blocks > 1 {
        let sorted = match s.low {
            Some(v) => Some(
                deinterleaved(v, s.per_block / scale_of(rec), s.blocks * scale_of(rec), blocks == 1),
            ),
            None => None,
        };
        TfState { low: sorted, ..s }
    } else {
        s
    }
}

/// Divided blocks merged again, `times` times.
pub open spec fn time_merged(
    x: Seq<i16>,
    cm: u32,
    blocks: int,
    per_block: int,
    times: int,
) -> (Seq<i16>, u32)
    decreases times,
{
    if times <= 0 {
        (x, cm)
    } else {
        let b = blocks / 2;
        time_merged(
            haar(x, per_block * 2, at_least_one(b)),
            if b > 0 { cm | (cm >> (b as u32)) } else { cm },
            b,
            per_block * 2,
            times - 1,
        )
    }
}

/// Recombined pairs taken apart again from step `k` up to `upto`.
pub open spec fn uncombined(x: Seq<i16>, cm: u32, n: int, k: int, upto: int) -> (Seq<i16>, u32)
    decreases upto - k,
{
    if k >= upto {
        (x, cm)
    } else {
        uncombined(
            haar(x, n / scale_of(k), scale_of(k)),
            bits_spread((cm & 0xF) as int),
            n,
            k + 1,
            upto,
        )
    }
}

/// Coefficients and collapse mask back at the resolution of the frame.
pub open spec fn tf_restored(
    x: Seq<i16>,
    cm: u32,
    n: int,
    blocks: int,
    tf: int,
    s: TfState,
) -> (Seq<i16>, u32) {
    let rec = recombinations(tf);
    let natural = if s.blocks > 1 {
        interleaved(x, s.per_block / scale_of(rec), s.blocks * scale_of(rec), blocks == 1)
    } else {
        x
    };
    let (x1, cm1) = time_merged(natural, cm, s.blocks, s.per_block, s.divisions);
    let (x2, cm2) = uncombined(x1, cm1, n, 0, rec);
    (x2, cm2 & low_mask(blocks / scale_of(rec) * scale_of(rec)))
}

/// Sign of a single-coefficient band, if there are bits for it.
pub open spec fn sign_decoded<'a>(dec: EcDec<'a>, remaining: i32) -> (EcDec<'a>, i32, i16) {
    if remaining >= 8 {
        let (d, bit) = dec.raw(1);
        (d, (remaining - 8) as i32, if bit != 0 { (-16384) as i16 } else { 16384 })
    } else {
        (dec, remaining, 16384)
    }
}

/// Decodes one channel of a band.
pub open spec fn band_decoded<'a>(
    dec: EcDec<'a>,
    ctx: BandCtx<'_>,
    x: Seq<i16>,
    n: int,
    b: i32,
    blocks: int,
    lowband: Option<Seq<i16>>,
    lm: int,
    gain: i32,
    fill: u32,
) -> Part<'a> {
    if n == 1 {
        let (d, remaining, value) = sign_decoded(dec, ctx.remaining_bits);
        Part { dec: d, remaining, seed: ctx.seed, x: x.update(0, value), cm: 1 }
    } else {
        let s = tf_prepared(lowband, fill, n, blocks, ctx.tf_change as int);
        let p = partition(dec, ctx, x, n, b, s.blocks, s.low, lm, gain, s.fill);
        let (y, cm) = tf_restored(p.x, p.cm, n, blocks, ctx.tf_change as int, s);
        Part { x: y, cm, ..p }
    }
}

/// What a band contributes to the folding of later bands.
pub open spec fn fold_copy(x: Seq<i16>) -> Seq<i16> {
    if x.len() == 1 {
        seq![x[0] >> 4u32]
    } else {
        let scale = extract16(sqrt_approx(shl32(x.len() as i32, 22)));
        Seq::new(x.len(), |i: int| mult16_16_q15(scale, x[i]))
    }
}

/// Computes [`fold_copy`].
pub fn copy_for_folding(x: &Vec<i16>) -> (copy: Vec<i16>)
    requires
        x@.len() <= 0x7fff,
    ensures
        copy@ == fold_copy(x@),
        copy@.len() == x@.len(),
{
    let mut copy: Vec<i16> = Vec::new();
    if x.len() == 1 {
        copy.push(x[0] >> 4u32);
        assert(copy@ =~= fold_copy(x@));
        return copy;
    }
    let scale: i16 = extract16(celt_sqrt(shl32(x.len() as i32, 22)));
    for i in 0..x.len()
        invariant
            copy@.len() == i,
            scale == extract16(sqrt_approx(shl32(x@.len() as i32, 22))),
            forall|j: int| 0 <= j < i ==> copy@[j] == mult16_16_q15(scale, x@[j]),
    {
        copy.push(mult16_16_q15(scale, x[i]));
    }
    assert(copy@ =~= fold_copy(x@));
    copy
}

/// Decodes the sign of a single-coefficient band.
pub fn decode_sign(dec: &mut EcDec<'_>, ctx: &mut BandCtx<'_>) -> (value: i16)
    requires
        old(dec).wf(),
    ensures
        (*final(dec), final(ctx).remaining_bits, value) == sign_decoded(
            *old(dec),
            old(ctx).remaining_bits,
        ),
        *final(ctx) == (BandCtx { remaining_bits: final(ctx).remaining_bits, ..*old(ctx) }),
        final(dec).wf(),
        final(dec).buf@ == old(dec).buf@,
{
    if ctx.remaining_bits >= 8 {
        let bit: u32 = dec.dec_bits(1);
        ctx.remaining_bits = ctx.remaining_bits - 8;
        if bit != 0 {
            return -NORM_SCALING;
        }
    }
    NORM_SCALING
}

/// The block counts and changes that a frame can ask for.
pub open spec fn tf_valid(blocks: int, tf: int) -> bool {
    &&& blocks == 1 || blocks == 2 || blocks == 4 || blocks == 8
    &&& -3 <= tf <= 3
    &&& blocks == 8 ==> tf >= -2
}

/// Exec-side counterpart of [`TfState`].
struct TfWork {
    low: Option<Vec<i16>>,
    fill: u32,
    blocks: i32,
    per_block: usize,
    divisions: i32,
}

impl TfWork {
    spec fn state(self) -> TfState {
        TfState {
            low: opt_view(self.low),
            fill: self.fill,
            blocks: self.blocks as int,
            per_block: self.per_block as int,
            divisions: self.divisions as int,
        }
    }
}

/// Facts about a prepared resolution change that the decoders rely on.
pub open spec fn tf_fits(s: TfState, n: int, blocks: int, tf: int) -> bool {
    let rec = recombinations(tf);
    &&& 0 <= s.blocks <= 32
    &&& 0 <= s.per_block
    &&& 0 <= s.divisions <= 3
    &&& s.per_block * at_least_one(s.blocks) <= 8 * n
    &&& rec > 0 ==> s.divisions == 0
    &&& rec == 0 ==> s.blocks * s.per_block <= n && s.blocks == blocks * scale_of(s.divisions)
    &&& s.blocks > 1 ==> (s.per_block / scale_of(rec)) * (s.blocks * scale_of(rec)) <= n
    &&& s.blocks > 1 && blocks == 1 ==> rec == 0 && hadamard_stride(s.blocks)
}

/// Computes [`tf_prepared`].
#[verifier::rlimit(60)]
fn prepare_tf(lowband: Option<Vec<i16>>, fill: u32, n: usize, blocks: i32, tf: i32) -> (w: TfWork)
    requires
        2 <= n <= 0x7fff,
        tf_valid(blocks as int, tf as int),
        opt_len(opt_view(lowband), n as int),
    ensures
        w.state() == tf_prepared(opt_view(lowband), fill, n as int, blocks as int, tf as int),
        opt_len(opt_view(w.low), n as int),
        w.low is Some == lowband is Some,
        tf_fits(w.state(), n as int, blocks as int, tf as int),
{
    let rec: i32 = if tf > 0 { tf } else { 0 };
    let ghost low0 = opt_view(lowband);
    let mut low: Option<Vec<i16>> = lowband;
    let mut mask: u32 = fill;
    let mut k: i32 = 0;
    while k < rec
        invariant
            0 <= k <= rec <= 3,
            2 <= n <= 0x7fff,
            opt_len(opt_view(low), n as int),
            low is Some == low0 is Some,
            recombined(opt_view(low), mask, n as int, k as int, rec as int) == recombined(
                low0,
                fill,
                n as int,
                0,
                rec as int,
            ),
        decreases rec - k,
    {
        let step: usize = scale(k);
        low = haar_optional(low, n / step, step);
        mask = merge_fill(mask);
        k = k + 1;
    }
    let step: usize = scale(rec);
    let per: usize = n / blocks as usize;
    proof {
        vstd::arithmetic::div_mod::lemma_fundamental_div_mod(n as int, blocks as int);
        vstd::arithmetic::div_mod::lemma_mod_bound(n as int, blocks as int);
        assert(per <= n) by {
            vstd::arithmetic::div_mod::lemma_div_is_ordered_by_denominator(
                n as int,
                1,
                blocks as int,
            );
            vstd::arithmetic::div_mod::lemma_div_basics(n as int);
        }
        assert(per * step <= 8 * n) by (nonlinear_arith)
            requires
                per <= n,
                1 <= step <= 8,
        ;
    }
    let mut b: i32 = blocks / step as i32;
    let mut per_block: usize = per * step;
    let mut divisions: i32 = 0;
    let ghost first = TfState {
        low: opt_view(low),
        fill: mask,
        blocks: b as int,
        per_block: per_block as int,
        divisions: 0,
    };
    while per_block % 2 == 0 && tf + divisions < 0
        invariant
            tf_valid(blocks as int, tf as int),
            2 <= n <= 0x7fff,
            0 <= divisions,
            tf < 0 ==> divisions <= -tf,
            tf >= 0 ==> divisions == 0,
            rec == recombinations(tf as int),
            rec > 0 ==> b == blocks as int / scale_of(rec as int) && per_block == per * scale_of(
                rec as int,
            ),
            rec == 0 ==> b * per_block == blocks * per && b == blocks * scale_of(
                divisions as int,
            ),
            blocks * per <= n,
            per_block <= 8 * n,
            opt_len(opt_view(low), n as int),
            low is Some == low0 is Some,
            time_divided(
                TfState {
                    low: opt_view(low),
                    fill: mask,
                    blocks: b as int,
                    per_block: per_block as int,
                    divisions: divisions as int,
                },
                tf as int,
            ) == time_divided(first, tf as int),
        decreases -(tf + divisions),
    {
        proof {
            assert(b >= 1 && b <= 16);
            let q = per_block as int / 2;
            assert(b * per_block == (b * 2) * q) by (nonlinear_arith)
                requires
                    per_block == 2 * q,
            ;
            assert(per_block * b == b * per_block) by (nonlinear_arith);
        }
        low = haar_optional(low, per_block, b as usize);
        mask = mask | (mask << (b as u32));
        b = b * 2;
        per_block = per_block / 2;
        divisions = divisions + 1;
    }
    let ghost settled = TfState {
        low: opt_view(low),
        fill: mask,
        blocks: b as int,
        per_block: per_block as int,
        divisions: divisions as int,
    };
    assert(settled == time_divided(first, tf as int));
    proof {
        let sc = scale_of(rec as int);
        if rec > 0 {
            vstd::arithmetic::div_mod::lemma_div_by_multiple(per as int, sc);
            assert(per_block as int / sc == per);
            assert(b * sc <= blocks);
            assert(per * (b * sc) <= per * blocks) by (nonlinear_arith)
                requires
                    0 <= b * sc <= blocks,
                    0 <= per,
            ;
            assert(per * blocks == blocks * per) by (nonlinear_arith);
            let one = at_least_one(b as int);
            assert(one * sc <= 8) by {
                if b < 1 {
                    assert(one * sc <= 8) by (nonlinear_arith)
                        requires
                            one == 1,
                            sc <= 8,
                    ;
                } else {
                    assert(one == b);
                }
            }
            assert((per * sc) * one <= 8 * n) by (nonlinear_arith)
                requires
                    0 <= per,
                    one * sc <= 8,
                    per * 8 <= 8 * n,
                    1 <= one,
                    1 <= sc,
            ;
        } else {
            assert(per_block * (b * 1) == b * per_block) by (nonlinear_arith);
            assert(per_block * b == b * per_block) by (nonlinear_arith);
        }
    }
    if b > 1 {
        let stride: usize = b as usize * step;
        let rows: usize = per_block / step;
        proof {
            if blocks == 1 {
                assert(rec == 0);
                assert(hadamard_stride(b as int));
            }
        }
        low = match low {
            Some(mut v) => {
                deinterleave_hadamard(&mut v, rows, stride, blocks == 1);
                Some(v)
            },
            None => None,
        };
    }
    TfWork { low, fill: mask, blocks: b, per_block, divisions }
}

/// Computes [`tf_restored`] for a band coded in `b` blocks of `per_block`
/// coefficients after `divisions` divisions.
#[verifier::rlimit(60)]
fn restore_tf(
    x: &mut Vec<i16>,
    cm: u32,
    n: usize,
    blocks: i32,
    tf: i32,
    b: i32,
    per_block: usize,
    divisions: i32,
) -> (mask: u32)
    requires
        2 <= n <= 0x7fff,
        old(x)@.len() == n,
        tf_valid(blocks as int, tf as int),
        tf_fits(
            (TfState {
                low: None,
                fill: 0,
                blocks: b as int,
                per_block: per_block as int,
                divisions: divisions as int,
            }),
            n as int,
            blocks as int,
            tf as int,
        ),
    ensures
        (final(x)@, mask) == tf_restored(
            old(x)@,
            cm,
            n as int,
            blocks as int,
            tf as int,
            (TfState {
                low: None,
                fill: 0,
                blocks: b as int,
                per_block: per_block as int,
                divisions: divisions as int,
            }),
        ),
        final(x)@.len() == n,
{
    let rec: i32 = if tf > 0 { tf } else { 0 };
    let step: usize = scale(rec);
    if b > 1 {
        interleave_hadamard(x, per_block / step, b as usize * step, blocks == 1);
    }
    let ghost natural = x@;
    let mut mask: u32 = cm;
    let mut k: i32 = b;
    let mut per: usize = per_block;
    let mut left: i32 = divisions;
    while left > 0
        invariant
            0 <= left <= 3,
            2 <= n <= 0x7fff,
            x@.len() == n,
            tf_valid(blocks as int, tf as int),
            0 <= k <= 32,
            left > 0 ==> k == blocks * scale_of(left as int),
            left > 0 ==> k * per <= n,
            time_merged(x@, mask, k as int, per as int, left as int) == time_merged(
                natural,
                cm,
                b as int,
                per_block as int,
                divisions as int,
            ),
        decreases left,
    {
        let half: i32 = k / 2;
        proof {
            assert(half >= 1 && half * 2 == k);
            assert(half * (per * 2) == k * per) by (nonlinear_arith)
                requires
                    half * 2 == k,
            ;
            assert((per * 2) * half == half * (per * 2)) by (nonlinear_arith);
            assert(per * 2 <= half * (per * 2)) by (nonlinear_arith)
                requires
                    half >= 1,
                    per >= 0,
            ;
        }
        mask = mask | (mask >> (half as u32));
        haar1(x, per * 2, half as usize);
        k = half;
        per = per * 2;
        left = left - 1;
    }
    let ghost merged = x@;
    let ghost merged_mask = mask;
    let mut i: i32 = 0;
    while i < rec
        invariant
            0 <= i <= rec <= 3,
            2 <= n <= 0x7fff,
            x@.len() == n,
            uncombined(x@, mask, n as int, i as int, rec as int) == uncombined(
                merged,
                merged_mask,
                n as int,
                0,
                rec as int,
            ),
        decreases rec - i,
    {
        let s: usize = scale(i);
        mask = spread_mask(mask);
        haar1(x, n / s, s);
        i = i + 1;
    }
    mask & mask_from_bits(blocks / step as i32 * step as i32)
}

/// Decodes one channel of a band of `n` coefficients with `b` eighths of a bit.
pub fn quant_band_decode(
    dec: &mut EcDec<'_>,
    ctx: &mut BandCtx<'_>,
    x: &mut Vec<i16>,
    n: usize,
    b: i32,
    blocks: i32,
    lowband: Option<Vec<i16>>,
    lm: i32,
    gain: i32,
    fill: u32,
) -> (cm: u32)
    requires
        old(dec).wf(),
        band_ready(*old(ctx), n as int, lm as int),
        old(x)@.len() == n,
        opt_len(opt_view(lowband), n as int),
        tf_valid(blocks as int, old(ctx).tf_change as int),
    ensures
        ({
            let p = band_decoded(
                *old(dec),
                *old(ctx),
                old(x)@,
                n as int,
                b,
                blocks as int,
                opt_view(lowband),
                lm as int,
                gain,
                fill,
            );
            &&& *final(dec) == p.dec
            &&& *final(ctx) == (BandCtx { remaining_bits: p.remaining, seed: p.seed, ..*old(ctx) })
            &&& final(x)@ == p.x
            &&& cm == p.cm
        }),
        final(dec).wf(),
        final(dec).buf@ == old(dec).buf@,
        final(x)@.len() == n,
{
    if n == 1 {
        let value: i16 = decode_sign(dec, ctx);
        x.set(0, value);
        return 1;
    }
    proof {
        crate::band_decode::lemma_band_ready(*ctx, n as int, lm as int);
    }
    let w: TfWork = prepare_tf(lowband, fill, n, blocks, ctx.tf_change);
    let ghost s = w.state();
    let tf: i32 = ctx.tf_change;
    let cm: u32 = quant_partition_decode(
        dec,
        ctx,
        x,
        n,
        b,
        w.blocks,
        w.low,
        lm,
        gain,
        w.fill,
    );
    restore_tf(x, cm, n, blocks, tf, w.blocks, w.per_block, w.divisions)
}

/// Sign of a single-coefficient band, if there are bits for it.
pub open spec fn sign_encoded(enc: EncState, remaining: i32, value: i16, resynth: bool) -> (
    EncState,
    i32,
    i16,
) {
    let coded = remaining >= 8;
    (
        if coded {
            enc.raw_coded(
                if value < 0 {
                    1
                } else {
                    0
                },
                1,
            )
        } else {
            enc
        },
        if coded {
            (remaining - 8) as i32
        } else {
            remaining
        },
        if !resynth {
            value
        } else if coded && value < 0 {
            (-16384) as i16
        } else {
            16384
        },
    )
}

/// Encodes the sign of a single-coefficient band.
pub fn encode_sign(enc: &mut EcEnc, ctx: &mut BandCtx<'_>, value: i16) -> (kept: i16)
    requires
        old(enc)@.wf(),
    ensures
        (final(enc)@, final(ctx).remaining_bits, kept) == sign_encoded(
            old(enc)@,
            old(ctx).remaining_bits,
            value,
            old(ctx).resynth,
        ),
        *final(ctx) == (BandCtx { remaining_bits: final(ctx).remaining_bits, ..*old(ctx) }),
        final(enc)@.wf(),
{
    let mut negative: bool = false;
    if ctx.remaining_bits >= 8 {
        negative = value < 0;
        enc.enc_bits(if negative { 1 } else { 0 }, 1);
        ctx.remaining_bits = ctx.remaining_bits - 8;
    }
    if !ctx.resynth {
        value
    } else if negative {
        -NORM_SCALING
    } else {
        NORM_SCALING
    }
}

/// Encodes one channel of a band. Where the coefficients are not reconstructed
/// they stay at the resolution in which they were coded.
pub open spec fn band_encoded(
    enc: EncState,
    ctx: BandCtx<'_>,
    x: Seq<i16>,
    n: int,
    b: i32,
    blocks: int,
    lowband: Option<Seq<i16>>,
    lm: int,
    gain: i32,
    fill: u32,
) -> CodedPart {
    let tf = ctx.tf_change as int;
    if n == 1 {
        let (e, remaining, value) = sign_encoded(enc, ctx.remaining_bits, x[0], ctx.resynth);
        CodedPart { enc: e, remaining, seed: ctx.seed, x: x.update(0, value), cm: 1 }
    } else {
        let s = tf_prepared(lowband, fill, n, blocks, tf);
        let turned = tf_prepared(Some(x), fill, n, blocks, tf).low->0;
        let p = partition_encoded(enc, ctx, turned, n, b, s.blocks, s.low, lm, gain, s.fill);
        if ctx.resynth {
            let (y, cm) = tf_restored(p.x, p.cm, n, blocks, tf, s);
            CodedPart { x: y, cm, ..p }
        } else {
            p
        }
    }
}

/// Encodes one channel of a band of `n` coefficients with `b` eighths of a bit.
pub fn quant_band(
    enc: &mut EcEnc,
    ctx: &mut BandCtx<'_>,
    x: &mut Vec<i16>,
    n: usize,
    b: i32,
    blocks: i32,
    lowband: Option<Vec<i16>>,
    lm: i32,
    gain: i32,
    fill: u32,
) -> (cm: u32)
    requires
        old(enc)@.wf(),
        band_ready(*old(ctx), n as int, lm as int),
        angles_coded(*old(ctx).mode),
        old(x)@.len() == n,
        opt_len(opt_view(lowband), n as int),
        tf_valid(blocks as int, old(ctx).tf_change as int),
    ensures
        ({
            let p = band_encoded(
                old(enc)@,
                *old(ctx),
                old(x)@,
                n as int,
                b,
                blocks as int,
                opt_view(lowband),
                lm as int,
                gain,
                fill,
            );
            &&& final(enc)@ == p.enc
            &&& *final(ctx) == (BandCtx { remaining_bits: p.remaining, seed: p.seed, ..*old(ctx) })
            &&& final(x)@ == p.x
            &&& cm == p.cm
        }),
        final(enc)@.wf(),
        final(x)@.len() == n,
{
    if n == 1 {
        let value: i16 = encode_sign(enc, ctx, x[0]);
        x.set(0, value);
        return 1;
    }
    proof {
        crate::band_decode::lemma_band_ready(*ctx, n as int, lm as int);
    }
    let tf: i32 = ctx.tf_change;
    let given: Vec<i16> = crate::mdct::copied(x.as_slice());
    let turned: TfWork = prepare_tf(Some(given), fill, n, blocks, tf);
    match turned.low {
        Some(v) => {
            *x = v;
        },
        None => {},
    }
    let w: TfWork = prepare_tf(lowband, fill, n, blocks, tf);
    let cm: u32 = quant_partition(enc, ctx, x, n, b, w.blocks, w.low, lm, gain, w.fill);
    if ctx.resynth {
        restore_tf(x, cm, n, blocks, tf, w.blocks, w.per_block, w.divisions)
    } else {
        cm
    }
}

} // verus!
