//! Decoding of the band energies: Laplace-coded coarse steps, raw fine bits and
//! the bits left over at the end of a frame.

use vstd::prelude::*;
use crate::fixed::{mult16_32_q15, shl32, shr32};
use crate::range_decoder::{EcDec, MAX_STORAGE};

verus! {

/// Probability model of the coarse energies: for each block size, inter and
/// intra coding and band, the probability of zero and the decay.
pub const E_PROB_MODEL: [[[u8; 42]; 2]; 4] = [
    [
        [
            72, 127, 65, 129, 66, 128, 65, 128, 64, 128, 62, 128, 64, 128, 64, 128, 92, 78, 92, 79,
            92, 78, 90, 79, 116, 41, 115, 40, 114, 40, 132, 26, 132, 26, 145, 17, 161, 12, 176, 10,
            177, 11,
        ],
        [
            24, 179, 48, 138, 54, 135, 54, 132, 53, 134, 56, 133, 55, 132, 55, 132, 61, 114, 70, 96,
            74, 88, 75, 88, 87, 74, 89, 66, 91, 67, 100, 59, 108, 50, 120, 40, 122, 37, 97, 43, 78,
            50,
        ],
    ],
    [
        [
            83, 78, 84, 81, 88, 75, 86, 74, 87, 71, 90, 73, 93, 74, 93, 74, 109, 40, 114, 36, 117,
            34, 117, 34, 143, 17, 145, 18, 146, 19, 162, 12, 165, 10, 178, 7, 189, 6, 190, 8, 177,
            9,
        ],
        [
            23, 178, 54, 115, 63, 102, 66, 98, 69, 99, 74, 89, 71, 91, 73, 91, 78, 89, 86, 80, 92,
            66, 93, 64, 102, 59, 103, 60, 104, 60, 117, 52, 123, 44, 138, 35, 133, 31, 97, 38, 77,
            45,
        ],
    ],
    [
        [
            61, 90, 93, 60, 105, 42, 107, 41, 110, 45, 116, 38, 113, 38, 112, 38, 124, 26, 132, 27,
            136, 19, 140, 20, 155, 14, 159, 16, 158, 18, 170, 13, 177, 10, 187, 8, 192, 6, 175, 9,
            159, 10,
        ],
        [
            21, 178, 59, 110, 71, 86, 75, 85, 84, 83, 91, 66, 88, 73, 87, 72, 92, 75, 98, 72, 105,
            58, 107, 54, 115, 52, 114, 55, 112, 56, 129, 51, 132, 40, 150, 33, 140, 29, 98, 35, 77,
            42,
        ],
    ],
    [
        [
            42, 121, 96, 66, 108, 43, 111, 40, 117, 44, 123, 32, 120, 36, 119, 33, 127, 33, 134, 34,
            139, 21, 147, 23, 152, 20, 158, 25, 154, 26, 166, 21, 173, 16, 184, 13, 184, 10, 150,
            13, 139, 15,
        ],
        [
            22, 178, 63, 114, 74, 82, 84, 83, 92, 82, 103, 62, 96, 72, 96, 67, 101, 73, 107, 72,
            113, 55, 118, 52, 125, 52, 118, 52, 117, 55, 135, 49, 137, 39, 157, 32, 145, 29, 97, 33,
            77, 40,
        ],
    ],
];

/// A place in the Laplace distribution: cumulative frequency, frequency and
/// value.
pub struct LaplaceSlot {
    pub fl: int,
    pub fs: int,
    pub val: int,
}

/// Walks down the decaying part of the distribution to the pair of values that
/// `fm` lies in.
pub open spec fn laplace_walk(fm: int, fl: int, fs: int, val: int, decay: int) -> LaplaceSlot
    decreases fs,
    when 0 <= decay < 16384
{
    if fs > 1 && fm >= fl + 2 * fs {
        proof {
            assert(0 <= (2 * fs - 2) * decay <= (2 * fs - 2) * 16383) by (nonlinear_arith)
                requires
                    fs > 1,
                    0 <= decay <= 16383,
            ;
        }
        laplace_walk(fm, fl + 2 * fs, (2 * fs - 2) * decay / 32768 + 1, val + 1, decay)
    } else {
        LaplaceSlot { fl, fs, val }
    }
}

/// The slot of the Laplace distribution that `fm` lies in; zero has frequency
/// `fs0` out of 32768.
pub open spec fn laplace_slot(fm: int, fs0: int, decay: int) -> LaplaceSlot {
    if fm < fs0 {
        LaplaceSlot { fl: 0, fs: fs0, val: 0 }
    } else {
        let first = (32768 - 32 - fs0) * (16384 - decay) / 32768 + 1;
        let p = laplace_walk(fm, fs0, first, 1, decay);
        let di = if p.fs <= 1 { (fm - p.fl) / 2 } else { 0 };
        let fl = p.fl + 2 * di;
        if fm < fl + p.fs {
            LaplaceSlot { fl, fs: p.fs, val: -(p.val + di) }
        } else {
            LaplaceSlot { fl: fl + p.fs, fs: p.fs, val: p.val + di }
        }
    }
}

/// A Laplace-distributed value.
pub open spec fn laplace_decoded<'a>(dec: EcDec<'a>, fs0: int, decay: int) -> (EcDec<'a>, int) {
    let p = laplace_slot(dec.slot(32768), fs0, decay);
    let fh = if p.fl + p.fs < 32768 { p.fl + p.fs } else { 32768 };
    (
        EcDec { ext: (dec.rng as int / 32768) as u32, ..dec }.consumed(p.fl, fh, 32768),
        p.val,
    )
}

/// Decodes a Laplace-distributed value.
pub fn ec_laplace_decode(dec: &mut EcDec<'_>, fs0: u32, decay: u32) -> (val: i32)
    requires
        old(dec).wf(),
        0 < fs0 <= 32640,
        decay < 16384,
    ensures
        (*final(dec), val as int) == laplace_decoded(*old(dec), fs0 as int, decay as int),
        final(dec).wf(),
        final(dec).buf@ == old(dec).buf@,
{
    let fm: u32 = dec.decode(32768);
    let mut fl: u32 = 0;
    let mut fs: u32 = fs0;
    let mut val: i32 = 0;
    if fm >= fs {
        fl = fs;
        let rest: u32 = 32768 - 32 - fs;
        assert(rest * (16384 - decay) <= 32736 * 16384) by (nonlinear_arith)
            requires
                rest <= 32736,
                0 <= 16384 - decay <= 16384,
        ;
        fs = rest * (16384 - decay) / 32768 + 1;
        val = 1;
        let ghost first = fs as int;
        assert(first <= 16384);
        while fs > 1 && fm >= fl + 2 * fs
            invariant
                decay < 16384,
                fm < 32768,
                1 <= fs <= first <= 16384,
                fl <= fm,
                1 <= val,
                val + fs <= 1 + first,
                laplace_walk(fm as int, fl as int, fs as int, val as int, decay as int)
                    == laplace_walk(fm as int, fs0 as int, first, 1, decay as int),
            decreases fs,
        {
            let twice: u32 = 2 * fs - 2;
            assert(twice * decay <= 32768 * 16384) by (nonlinear_arith)
                requires
                    twice <= 32768,
                    decay < 16384,
            ;
            assert(twice * decay <= twice * 16383) by (nonlinear_arith)
                requires
                    0 <= twice,
                    decay <= 16383,
            ;
            fl = fl + 2 * fs;
            fs = twice * decay / 32768 + 1;
            val = val + 1;
        }
        if fs <= 1 {
            let di: u32 = (fm - fl) / 2;
            val = val + di as i32;
            fl = fl + 2 * di;
        }
        if fm < fl + fs {
            val = -val;
        } else {
            fl = fl + fs;
        }
    }
    let fh: u32 = if fl + fs < 32768 { fl + fs } else { 32768 };
    dec.update(fl, fh, 32768);
    val
}

/// Inter-frame prediction of the coarse energies, in Q15.
pub open spec fn prediction(lm: int, intra: bool) -> i16 {
    if intra {
        0
    } else {
        seq![29440i16, 26112, 21248, 16384][lm]
    }
}

/// Leak of the inter-band prediction, in Q15.
pub open spec fn leak(lm: int, intra: bool) -> i16 {
    if intra {
        4915
    } else {
        seq![30147i16, 22282, 12124, 6554][lm]
    }
}

/// Computes [`prediction`] and [`leak`].
fn predictors(lm: usize, intra: bool) -> (r: (i16, i16))
    requires
        lm <= 3,
    ensures
        r == (prediction(lm as int, intra), leak(lm as int, intra)),
{
    if intra {
        (0, 4915)
    } else {
        let p: [i16; 4] = [29440, 26112, 21248, 16384];
        let l: [i16; 4] = [30147, 22282, 12124, 6554];
        (p[lm], l[lm])
    }
}

/// Place of a band in the probability model.
pub open spec fn model_band(band: int) -> int {
    if band < 20 {
        2 * band
    } else {
        40
    }
}

/// The steps that three-valued symbols stand for.
pub open spec fn small_step(k: int) -> i32 {
    if k == 0 {
        0
    } else if k == 1 {
        (-1) as i32
    } else {
        1
    }
}

/// A coarse energy step; the code depends on how many bits are left.
pub open spec fn step_decoded<'a>(
    dec: EcDec<'a>,
    band: int,
    lm: int,
    intra: bool,
    budget: i32,
) -> (EcDec<'a>, i32) {
    let left = budget.wrapping_sub(dec.tell_bits());
    if left >= 15 {
        let model = E_PROB_MODEL@[lm]@[if intra { 1 } else { 0 }]@;
        let at = model_band(band);
        let (d, v) = laplace_decoded(dec, model[at] * 128, model[at + 1] * 64);
        (d, v as i32)
    } else if left >= 2 {
        let (d, k) = dec.symbol(seq![2u8, 1, 0], 2);
        (d, small_step(k))
    } else if left >= 1 {
        let (d, bit) = dec.bit(1);
        (d, if bit { (-1) as i32 } else { 0 })
    } else {
        (dec, (-1) as i32)
    }
}

/// The bounds of a coarse energy, -28 to 28 in Q24.
pub open spec fn energy_clamped(e: i32) -> i32 {
    if e > 469762048 {
        469762048
    } else if e < -469762048 {
        (-469762048) as i32
    } else {
        e
    }
}

/// Energy of a band and new inter-band prediction after a step.
pub open spec fn energy_stepped(e: i32, prev: i32, step: i32, lm: int, intra: bool) -> (i32, i32) {
    let q = shl32(step, 24);
    let floor = if e < -150994944 { (-150994944) as i32 } else { e };
    (
        energy_clamped(
            mult16_32_q15(prediction(lm, intra), floor).wrapping_add(prev).wrapping_add(q),
        ),
        prev.wrapping_add(q).wrapping_sub(mult16_32_q15(leak(lm, intra), q)),
    )
}

/// State of the coarse energy decoder.
#[verifier::ext_equal]
pub struct CoarseState<'a> {
    pub dec: EcDec<'a>,
    /// Energies of all bands, one row per channel.
    pub e: Seq<i32>,
    /// Inter-band predictions of the channels.
    pub prev: Seq<i32>,
}

/// The channels of a band from `c` on.
pub open spec fn coarse_band<'a>(
    s: CoarseState<'a>,
    bands: int,
    band: int,
    lm: int,
    intra: bool,
    channels: int,
    c: int,
) -> CoarseState<'a>
    decreases channels - c,
{
    if c >= channels {
        s
    } else {
        let (d, step) = step_decoded(s.dec, band, lm, intra, (s.dec.buf@.len() * 8) as i32);
        let (e, prev) = energy_stepped(s.e[c * bands + band], s.prev[c], step, lm, intra);
        coarse_band(
            CoarseState {
                dec: d,
                e: s.e.update(c * bands + band, e),
                prev: s.prev.update(c, prev),
            },
            bands,
            band,
            lm,
            intra,
            channels,
            c + 1,
        )
    }
}

/// The bands from `band` up to `end`.
pub open spec fn coarse_decoded<'a>(
    s: CoarseState<'a>,
    bands: int,
    band: int,
    end: int,
    lm: int,
    intra: bool,
    channels: int,
) -> CoarseState<'a>
    decreases end - band,
{
    if band >= end {
        s
    } else {
        coarse_decoded(
            coarse_band(s, bands, band, lm, intra, channels, 0),
            bands,
            band + 1,
            end,
            lm,
            intra,
            channels,
        )
    }
}

/// Decodes a coarse energy step.
fn decode_step(dec: &mut EcDec<'_>, band: usize, lm: usize, intra: bool, budget: i32) -> (step: i32)
    requires
        old(dec).wf(),
        lm <= 3,
    ensures
        (*final(dec), step) == step_decoded(*old(dec), band as int, lm as int, intra, budget),
        final(dec).wf(),
        final(dec).buf@ == old(dec).buf@,
{
    let left: i32 = budget.wrapping_sub(dec.tell());
    if left >= 15 {
        let at: usize = if band < 20 { 2 * band } else { 40 };
        let row: usize = if intra { 1 } else { 0 };
        let zero: u8 = E_PROB_MODEL[lm][row][at];
        let decay: u8 = E_PROB_MODEL[lm][row][at + 1];
        proof {
            lemma_model(lm as int, row as int, at as int);
        }
        ec_laplace_decode(dec, zero as u32 * 128, decay as u32 * 64)
    } else if left >= 2 {
        let table: [u8; 3] = [2, 1, 0];
        proof {
            vstd::arithmetic::power2::lemma2_to64();
            assert(table@ =~= seq![2u8, 1, 0]);
        }
        let k: usize = dec.dec_icdf(&table, 2);
        if k == 0 {
            0
        } else if k == 1 {
            -1
        } else {
            1
        }
    } else if left >= 1 {
        if dec.dec_bit_logp(1) {
            -1
        } else {
            0
        }
    } else {
        -1
    }
}

/// The probability model has usable frequencies and decays.
proof fn lemma_model(lm: int, row: int, at: int)
    requires
        0 <= lm <= 3,
        0 <= row <= 1,
        0 <= at <= 40,
        at % 2 == 0,
    ensures
        0 < E_PROB_MODEL@[lm]@[row]@[at] <= 192,
        E_PROB_MODEL@[lm]@[row]@[at + 1] <= 179,
{
}

/// Decodes the coarse energies of the bands from `start` up to `end`.
///
/// The energies are held in one row of `bands` values per channel.
pub fn unquant_coarse_energy(
    bands: usize,
    start: usize,
    end: usize,
    old_ebands: &mut Vec<i32>,
    intra: bool,
    dec: &mut EcDec<'_>,
    channels: usize,
    lm: usize,
)
    requires
        old(dec).wf(),
        old(dec).buf@.len() <= MAX_STORAGE,
        end <= bands,
        bands <= 0xff,
        1 <= channels <= 2,
        channels * bands <= old(old_ebands)@.len(),
        lm <= 3,
    ensures
        ({
            let s = coarse_decoded(
                CoarseState { dec: *old(dec), e: old(old_ebands)@, prev: seq![0i32, 0] },
                bands as int,
                start as int,
                end as int,
                lm as int,
                intra,
                channels as int,
            );
            &&& *final(dec) == s.dec
            &&& final(old_ebands)@ == s.e
        }),
        final(dec).wf(),
        final(dec).buf@ == old(dec).buf@,
        final(old_ebands)@.len() == old(old_ebands)@.len(),
{
    let budget: i32 = (dec.buf.len() * 8) as i32;
    let (coef, beta) = predictors(lm, intra);
    let mut prev: [i32; 2] = [0, 0];
    let ghost first = CoarseState { dec: *dec, e: old_ebands@, prev: seq![0i32, 0] };
    assert(prev@ =~= seq![0i32, 0]);
    let mut i: usize = start;
    while i < end
        invariant
            dec.wf(),
            dec.buf@ == old(dec).buf@,
            dec.buf@.len() <= MAX_STORAGE,
            budget == (dec.buf@.len() * 8) as i32,
            end <= bands <= 0xff,
            1 <= channels <= 2,
            channels * bands <= old_ebands@.len(),
            old_ebands@.len() == old(old_ebands)@.len(),
            lm <= 3,
            (coef, beta) == (prediction(lm as int, intra), leak(lm as int, intra)),
            coarse_decoded(
                CoarseState { dec: *dec, e: old_ebands@, prev: prev@ },
                bands as int,
                i as int,
                end as int,
                lm as int,
                intra,
                channels as int,
            ) == coarse_decoded(
                first,
                bands as int,
                start as int,
                end as int,
                lm as int,
                intra,
                channels as int,
            ),
        decreases end - i,
    {
        let ghost inner = CoarseState { dec: *dec, e: old_ebands@, prev: prev@ };
        let mut c: usize = 0;
        while c < channels
            invariant
                dec.wf(),
                dec.buf@ == old(dec).buf@,
                budget == (dec.buf@.len() * 8) as i32,
                i < end,
                end <= bands <= 0xff,
                c <= channels,
                1 <= channels <= 2,
                channels * bands <= old_ebands@.len(),
                old_ebands@.len() == old(old_ebands)@.len(),
                lm <= 3,
                (coef, beta) == (prediction(lm as int, intra), leak(lm as int, intra)),
                coarse_band(
                    CoarseState { dec: *dec, e: old_ebands@, prev: prev@ },
                    bands as int,
                    i as int,
                    lm as int,
                    intra,
                    channels as int,
                    c as int,
                ) == coarse_band(
                    inner,
                    bands as int,
                    i as int,
                    lm as int,
                    intra,
                    channels as int,
                    0,
                ),
            decreases channels - c,
        {
            proof {
                crate::spectrum::lemma_row(c as int, channels as int, bands as int);
            }
            let step: i32 = decode_step(dec, i, lm, intra, budget);
            let q: i32 = shl32(step, 24);
            assert(0 <= c * bands <= 510) by (nonlinear_arith)
                requires
                    0 <= c <= 2,
                    0 <= bands <= 255,
            ;
            let at: usize = c * bands + i;
            let e: i32 = old_ebands[at];
            let floor: i32 = if e < -150994944 { -150994944 } else { e };
            let sum: i32 = mult16_32_q15(coef, floor).wrapping_add(prev[c]).wrapping_add(q);
            let bounded: i32 = if sum > 469762048 {
                469762048
            } else if sum < -469762048 {
                -469762048
            } else {
                sum
            };
            old_ebands.set(at, bounded);
            prev[c] = prev[c].wrapping_add(q).wrapping_sub(mult16_32_q15(beta, q));
            c = c + 1;
        }
        i = i + 1;
    }
}

/// Correction that `bits` fine bits of value `q` make, in Q24.
pub open spec fn fine_offset(q: u32, bits: i32) -> i32 {
    shl32((2 * q + 1) as i32, (23 - bits) as u32).wrapping_sub(8388608)
}

/// The channels of a band from `c` on, refined by `bits` raw bits each.
pub open spec fn fine_band<'a>(
    dec: EcDec<'a>,
    e: Seq<i32>,
    bands: int,
    band: int,
    bits: i32,
    channels: int,
    c: int,
) -> (EcDec<'a>, Seq<i32>)
    decreases channels - c,
{
    if c >= channels {
        (dec, e)
    } else {
        let (d, q) = dec.raw(bits as u32);
        let at = c * bands + band;
        fine_band(
            d,
            e.update(at, e[at].wrapping_add(fine_offset(q, bits))),
            bands,
            band,
            bits,
            channels,
            c + 1,
        )
    }
}

/// The bands from `band` up to `end` refined.
pub open spec fn fine_decoded<'a>(
    dec: EcDec<'a>,
    e: Seq<i32>,
    bands: int,
    band: int,
    end: int,
    fine_quant: Seq<i32>,
    channels: int,
) -> (EcDec<'a>, Seq<i32>)
    decreases end - band,
{
    if band >= end {
        (dec, e)
    } else if fine_quant[band] <= 0 {
        fine_decoded(dec, e, bands, band + 1, end, fine_quant, channels)
    } else {
        let (d, f) = fine_band(dec, e, bands, band, fine_quant[band], channels, 0);
        fine_decoded(d, f, bands, band + 1, end, fine_quant, channels)
    }
}

/// Refines the energies of the bands by their fine bits.
pub fn unquant_fine_energy(
    bands: usize,
    start: usize,
    end: usize,
    old_ebands: &mut Vec<i32>,
    fine_quant: &Vec<i32>,
    dec: &mut EcDec<'_>,
    channels: usize,
)
    requires
        old(dec).wf(),
        end <= bands <= 0xff,
        1 <= channels <= 2,
        channels * bands <= old(old_ebands)@.len(),
        end <= fine_quant@.len(),
        forall|i: int| start <= i < end ==> #[trigger] fine_quant@[i] <= 8,
    ensures
        (*final(dec), final(old_ebands)@) == fine_decoded(
            *old(dec),
            old(old_ebands)@,
            bands as int,
            start as int,
            end as int,
            fine_quant@,
            channels as int,
        ),
        final(dec).wf(),
        final(dec).buf@ == old(dec).buf@,
        final(old_ebands)@.len() == old(old_ebands)@.len(),
{
    let ghost e0 = old_ebands@;
    let ghost d0 = *dec;
    let mut i: usize = start;
    while i < end
        invariant
            dec.wf(),
            dec.buf@ == old(dec).buf@,
            start <= i,
            end <= bands <= 0xff,
            1 <= channels <= 2,
            channels * bands <= old_ebands@.len(),
            old_ebands@.len() == e0.len(),
            end <= fine_quant@.len(),
            forall|k: int| start <= k < end ==> #[trigger] fine_quant@[k] <= 8,
            fine_decoded(
                *dec,
                old_ebands@,
                bands as int,
                i as int,
                end as int,
                fine_quant@,
                channels as int,
            ) == fine_decoded(
                d0,
                e0,
                bands as int,
                start as int,
                end as int,
                fine_quant@,
                channels as int,
            ),
        decreases end - i,
    {
        let bits: i32 = fine_quant[i];
        if bits > 0 {
            let ghost d1 = *dec;
            let ghost e1 = old_ebands@;
            let mut c: usize = 0;
            while c < channels
                invariant
                    dec.wf(),
                    dec.buf@ == old(dec).buf@,
                    i < end,
                    end <= bands <= 0xff,
                    c <= channels,
                    1 <= channels <= 2,
                    channels * bands <= old_ebands@.len(),
                    old_ebands@.len() == e0.len(),
                    1 <= bits <= 8,
                    fine_band(
                        *dec,
                        old_ebands@,
                        bands as int,
                        i as int,
                        bits,
                        channels as int,
                        c as int,
                    ) == fine_band(d1, e1, bands as int, i as int, bits, channels as int, 0),
                decreases channels - c,
            {
                proof {
                    crate::spectrum::lemma_row(c as int, channels as int, bands as int);
                    vstd::arithmetic::power2::lemma2_to64();
                    vstd::arithmetic::power2::lemma_pow2_strictly_increases(bits as nat, 9);
                }
                let q: u32 = dec.dec_bits(bits as u32);
                let offset: i32 = shl32((2 * q + 1) as i32, (23 - bits) as u32).wrapping_sub(
                    8388608,
                );
                assert(0 <= c * bands <= 510) by (nonlinear_arith)
                    requires
                        0 <= c <= 2,
                        0 <= bands <= 255,
                ;
                let at: usize = c * bands + i;
                let e: i32 = old_ebands[at].wrapping_add(offset);
                old_ebands.set(at, e);
                c = c + 1;
            }
        }
        i = i + 1;
    }
}

/// Correction that one left-over bit makes to a band with `bits` fine bits.
pub open spec fn final_offset(q: u32, bits: i32) -> i32 {
    shr32(shl32(q as i32, 24).wrapping_sub(8388608), (bits + 1) as u32)
}

/// The channels of a band from `c` on, each refined by one left-over bit.
pub open spec fn final_band<'a>(
    dec: EcDec<'a>,
    e: Seq<i32>,
    bands: int,
    band: int,
    bits: i32,
    channels: int,
    c: int,
) -> (EcDec<'a>, Seq<i32>)
    decreases channels - c,
{
    if c >= channels {
        (dec, e)
    } else {
        let (d, q) = dec.raw(1);
        let at = c * bands + band;
        final_band(
            d,
            e.update(at, e[at].wrapping_add(final_offset(q, bits))),
            bands,
            band,
            bits,
            channels,
            c + 1,
        )
    }
}

/// The bands of one priority from `band` on, as long as bits are left.
pub open spec fn final_pass<'a>(
    dec: EcDec<'a>,
    e: Seq<i32>,
    bands: int,
    band: int,
    end: int,
    fine_quant: Seq<i32>,
    fine_priority: Seq<i32>,
    priority: int,
    bits_left: int,
    channels: int,
) -> (EcDec<'a>, Seq<i32>, int)
    decreases end - band,
{
    if band >= end || bits_left < channels {
        (dec, e, bits_left)
    } else if fine_quant[band] >= 8 || fine_priority[band] != priority {
        final_pass(
            dec,
            e,
            bands,
            band + 1,
            end,
            fine_quant,
            fine_priority,
            priority,
            bits_left,
            channels,
        )
    } else {
        let (d, f) = final_band(dec, e, bands, band, fine_quant[band], channels, 0);
        final_pass(
            d,
            f,
            bands,
            band + 1,
            end,
            fine_quant,
            fine_priority,
            priority,
            bits_left - channels,
            channels,
        )
    }
}

/// Both passes over the bands.
pub open spec fn final_decoded<'a>(
    dec: EcDec<'a>,
    e: Seq<i32>,
    bands: int,
    start: int,
    end: int,
    fine_quant: Seq<i32>,
    fine_priority: Seq<i32>,
    bits_left: int,
    channels: int,
) -> (EcDec<'a>, Seq<i32>) {
    let (d, f, left) = final_pass(
        dec,
        e,
        bands,
        start,
        end,
        fine_quant,
        fine_priority,
        0,
        bits_left,
        channels,
    );
    let (d2, f2, _) = final_pass(
        d,
        f,
        bands,
        start,
        end,
        fine_quant,
        fine_priority,
        1,
        left,
        channels,
    );
    (d2, f2)
}

/// Computes [`final_pass`]; the bits left are returned.
fn refine_pass(
    bands: usize,
    start: usize,
    end: usize,
    old_ebands: &mut Vec<i32>,
    fine_quant: &Vec<i32>,
    fine_priority: &Vec<i32>,
    priority: i32,
    bits_left: i32,
    dec: &mut EcDec<'_>,
    channels: usize,
) -> (left: i32)
    requires
        old(dec).wf(),
        end <= bands <= 0xff,
        1 <= channels <= 2,
        channels * bands <= old(old_ebands)@.len(),
        end <= fine_quant@.len(),
        end <= fine_priority@.len(),
        forall|i: int| start <= i < end ==> 0 <= #[trigger] fine_quant@[i],
    ensures
        (*final(dec), final(old_ebands)@, left as int) == final_pass(
            *old(dec),
            old(old_ebands)@,
            bands as int,
            start as int,
            end as int,
            fine_quant@,
            fine_priority@,
            priority as int,
            bits_left as int,
            channels as int,
        ),
        final(dec).wf(),
        final(dec).buf@ == old(dec).buf@,
        final(old_ebands)@.len() == old(old_ebands)@.len(),
{
    let ghost e0 = old_ebands@;
    let ghost d0 = *dec;
    let mut left: i32 = bits_left;
    let mut i: usize = start;
    while i < end && left >= channels as i32
        invariant
            dec.wf(),
            dec.buf@ == old(dec).buf@,
            start <= i,
            end <= bands <= 0xff,
            1 <= channels <= 2,
            channels * bands <= old_ebands@.len(),
            old_ebands@.len() == e0.len(),
            end <= fine_quant@.len(),
            end <= fine_priority@.len(),
            forall|k: int| start <= k < end ==> 0 <= #[trigger] fine_quant@[k],
            final_pass(
                *dec,
                old_ebands@,
                bands as int,
                i as int,
                end as int,
                fine_quant@,
                fine_priority@,
                priority as int,
                left as int,
                channels as int,
            ) == final_pass(
                d0,
                e0,
                bands as int,
                start as int,
                end as int,
                fine_quant@,
                fine_priority@,
                priority as int,
                bits_left as int,
                channels as int,
            ),
        decreases end - i,
    {
        let bits: i32 = fine_quant[i];
        if bits < 8 && fine_priority[i] == priority {
            let ghost d1 = *dec;
            let ghost e1 = old_ebands@;
            let mut c: usize = 0;
            while c < channels
                invariant
                    dec.wf(),
                    dec.buf@ == old(dec).buf@,
                    i < end,
                    end <= bands <= 0xff,
                    c <= channels,
                    1 <= channels <= 2,
                    channels * bands <= old_ebands@.len(),
                    old_ebands@.len() == e0.len(),
                    0 <= bits < 8,
                    final_band(
                        *dec,
                        old_ebands@,
                        bands as int,
                        i as int,
                        bits,
                        channels as int,
                        c as int,
                    ) == final_band(d1, e1, bands as int, i as int, bits, channels as int, 0),
                decreases channels - c,
            {
                proof {
                    crate::spectrum::lemma_row(c as int, channels as int, bands as int);
                }
                let q: u32 = dec.dec_bits(1);
                let offset: i32 = shr32(
                    shl32(q as i32, 24).wrapping_sub(8388608),
                    (bits + 1) as u32,
                );
                assert(0 <= c * bands <= 510) by (nonlinear_arith)
                    requires
                        0 <= c <= 2,
                        0 <= bands <= 255,
                ;
                let at: usize = c * bands + i;
                let e: i32 = old_ebands[at].wrapping_add(offset);
                old_ebands.set(at, e);
                c = c + 1;
            }
            left = left - channels as i32;
        }
        i = i + 1;
    }
    left
}

/// Spends the bits left at the end of a frame on the energies, bands of the
/// first priority first.
pub fn unquant_energy_finalise(
    bands: usize,
    start: usize,
    end: usize,
    old_ebands: &mut Vec<i32>,
    fine_quant: &Vec<i32>,
    fine_priority: &Vec<i32>,
    bits_left: i32,
    dec: &mut EcDec<'_>,
    channels: usize,
)
    requires
        old(dec).wf(),
        end <= bands <= 0xff,
        1 <= channels <= 2,
        channels * bands <= old(old_ebands)@.len(),
        end <= fine_quant@.len(),
        end <= fine_priority@.len(),
        forall|i: int| start <= i < end ==> 0 <= #[trigger] fine_quant@[i],
    ensures
        (*final(dec), final(old_ebands)@) == final_decoded(
            *old(dec),
            old(old_ebands)@,
            bands as int,
            start as int,
            end as int,
            fine_quant@,
            fine_priority@,
            bits_left as int,
            channels as int,
        ),
        final(dec).wf(),
        final(dec).buf@ == old(dec).buf@,
        final(old_ebands)@.len() == old(old_ebands)@.len(),
{
    let left: i32 = refine_pass(
        bands,
        start,
        end,
        old_ebands,
        fine_quant,
        fine_priority,
        0,
        bits_left,
        dec,
        channels,
    );
    let _rest: i32 = refine_pass(
        bands,
        start,
        end,
        old_ebands,
        fine_quant,
        fine_priority,
        1,
        left,
        dec,
        channels,
    );
}

} // verus!
