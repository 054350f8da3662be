//! The head of a frame: flags, energies, time-frequency changes, boosts and the
//! bit allocation, up to the band shapes.

use vstd::prelude::*;
use crate::allocation::{
    band_cap, clt_compute_allocation, init_caps, AllocInput, AllocRequest, Allocation,
    AllocationState,
};
use crate::band_tf::{scale, scale_of, tf_valid};
use crate::decoder::{CeltDecodeError, DecoderState, OpusCustomDecoder};
use crate::energy::{
    coarse_decoded, fine_decoded, unquant_coarse_energy, unquant_fine_energy, CoarseState,
};
use crate::header::{frame_length, header_applied, header_found, header_ready, read_header, FrameHeader};
use crate::mode::OpusCustomMode;
use crate::pvq::SPREAD_NORMAL;
use crate::range_decoder::{EcDec, MAX_STORAGE};

verus! {

/// Inverse cumulative distribution of the allocation tilt.
pub const TRIM_ICDF: [u8; 11] = [126, 124, 119, 109, 87, 41, 19, 9, 4, 2, 0];

/// Inverse cumulative distribution of the spreading decision.
pub const SPREAD_ICDF: [u8; 4] = [25, 23, 2, 0];

/// Inverse cumulative distribution of the post-filter tap set.
pub const TAPSET_ICDF: [u8; 3] = [2, 1, 0];

/// Time-frequency changes for each block size: two choices of a pair without and
/// with a transient.
pub const TF_SELECT_TABLE: [[i8; 8]; 4] = [
    [0, -1, 0, -1, 0, -1, 0, -1],
    [0, -1, 0, -2, 1, 0, 1, -1],
    [0, -2, 0, -3, 2, 0, 1, -1],
    [0, -2, 0, -3, 3, 0, 1, -1],
];

/// The silence flag; a silent frame counts as read to its end.
pub open spec fn silence_read<'a>(dec: EcDec<'a>, len_bits: i32) -> (EcDec<'a>, bool) {
    let (d, silence) = if dec.tell_bits() >= len_bits {
        (dec, true)
    } else if dec.tell_bits() == 1 {
        dec.bit(15)
    } else {
        (dec, false)
    };
    if silence {
        (
            EcDec {
                nbits_total: d.nbits_total.wrapping_add(len_bits.wrapping_sub(d.tell_bits())),
                ..d
            },
            true,
        )
    } else {
        (d, false)
    }
}

/// Reads the silence flag.
fn read_silence(dec: &mut EcDec<'_>, len_bits: i32) -> (silence: bool)
    requires
        old(dec).wf(),
    ensures
        (*final(dec), silence) == silence_read(*old(dec), len_bits),
        final(dec).wf(),
        final(dec).buf@ == old(dec).buf@,
{
    let tell: i32 = dec.tell();
    let silence: bool = if tell >= len_bits {
        true
    } else if tell == 1 {
        dec.dec_bit_logp(15)
    } else {
        false
    };
    if silence {
        let consumed: i32 = dec.tell();
        dec.nbits_total = dec.nbits_total.wrapping_add(len_bits.wrapping_sub(consumed));
    }
    silence
}

/// Parameters of the post-filter.
#[derive(Clone, Copy)]
pub struct Postfilter {
    pub pitch: i32,
    /// Gain in Q15.
    pub gain: i16,
    pub tapset: i32,
}

/// The post-filter parameters of a frame.
pub open spec fn postfilter_read<'a>(dec: EcDec<'a>, start: int, len_bits: i32) -> (
    EcDec<'a>,
    Postfilter,
) {
    let none = Postfilter { pitch: 0, gain: 0, tapset: 0 };
    if start == 0 && dec.tell_bits().wrapping_add(16) <= len_bits {
        let (d1, on) = dec.bit(1);
        if on {
            let (d2, octave) = d1.uint(6);
            let (d3, low) = d2.raw((4 + octave) as u32);
            let (d4, qg) = d3.raw(3);
            let (d5, tapset) = if d4.tell_bits().wrapping_add(2) <= len_bits {
                d4.symbol(TAPSET_ICDF@, 2)
            } else {
                (d4, 0)
            };
            (
                d5,
                Postfilter {
                    pitch: (scale16(octave as int) + low - 1) as i32,
                    gain: (3072 * (qg + 1)) as i16,
                    tapset: tapset as i32,
                },
            )
        } else {
            (d1, none)
        }
    } else {
        (dec, none)
    }
}

/// Sixteen times two to the power `octave`.
pub open spec fn scale16(octave: int) -> int {
    if octave <= 0 {
        16
    } else if octave == 1 {
        32
    } else if octave == 2 {
        64
    } else if octave == 3 {
        128
    } else if octave == 4 {
        256
    } else {
        512
    }
}

/// The parameters that a frame can carry.
pub open spec fn postfilter_valid(p: Postfilter) -> bool {
    &&& p.pitch == 0 || 15 <= p.pitch <= 1022
    &&& 0 <= p.gain <= 24576
    &&& 0 <= p.tapset <= 2
}

/// Reads the post-filter parameters.
fn read_postfilter(dec: &mut EcDec<'_>, start: usize, len_bits: i32) -> (p: Postfilter)
    requires
        old(dec).wf(),
    ensures
        (*final(dec), p) == postfilter_read(*old(dec), start as int, len_bits),
        postfilter_valid(p),
        final(dec).wf(),
        final(dec).buf@ == old(dec).buf@,
{
    if start == 0 && dec.tell().wrapping_add(16) <= len_bits {
        if dec.dec_bit_logp(1) {
            let octave: u32 = dec.dec_uint(6);
            let low: u32 = dec.dec_bits(4 + octave);
            let qg: u32 = dec.dec_bits(3);
            proof {
                vstd::arithmetic::power2::lemma2_to64();
            }
            let mut tapset: usize = 0;
            if dec.tell().wrapping_add(2) <= len_bits {
                tapset = dec.dec_icdf(&TAPSET_ICDF, 2);
            }
            let base: u32 = if octave == 0 {
                16
            } else if octave == 1 {
                32
            } else if octave == 2 {
                64
            } else if octave == 3 {
                128
            } else if octave == 4 {
                256
            } else {
                512
            };
            return Postfilter {
                pitch: (base + low) as i32 - 1,
                gain: (3072 * (qg + 1)) as i16,
                tapset: tapset as i32,
            };
        }
    }
    Postfilter { pitch: 0, gain: 0, tapset: 0 }
}

/// A flag of probability one eighth, if three bits are left.
pub open spec fn flag_read<'a>(dec: EcDec<'a>, wanted: bool, len_bits: i32) -> (EcDec<'a>, bool) {
    if wanted && dec.tell_bits().wrapping_add(3) <= len_bits {
        dec.bit(3)
    } else {
        (dec, false)
    }
}

/// Reads a flag of probability one eighth.
fn read_flag(dec: &mut EcDec<'_>, wanted: bool, len_bits: i32) -> (flag: bool)
    requires
        old(dec).wf(),
    ensures
        (*final(dec), flag) == flag_read(*old(dec), wanted, len_bits),
        final(dec).wf(),
        final(dec).buf@ == old(dec).buf@,
{
    if wanted && dec.tell().wrapping_add(3) <= len_bits {
        dec.dec_bit_logp(3)
    } else {
        false
    }
}

/// State of the time-frequency flags.
#[verifier::ext_equal]
pub struct TfFlags<'a> {
    pub dec: EcDec<'a>,
    /// Flags of the bands.
    pub res: Seq<i32>,
    /// Bits used when the last flag was read.
    pub tell: i32,
    pub current: bool,
    pub changed: bool,
}

/// Probability of a change, by position in the frame.
pub open spec fn tf_logp(first: bool, transient: bool) -> u32 {
    if first {
        if transient {
            2
        } else {
            4
        }
    } else if transient {
        4
    } else {
        5
    }
}

/// The flags of the bands from `band` up to `end`; each says whether the choice
/// changes.
pub open spec fn tf_flags<'a>(
    s: TfFlags<'a>,
    start: int,
    end: int,
    transient: bool,
    budget: i32,
    band: int,
) -> TfFlags<'a>
    decreases end - band,
{
    if band >= end {
        s
    } else {
        let logp = tf_logp(band == start, transient);
        let t = if s.tell.wrapping_add(logp as i32) <= budget {
            let (d, bit) = s.dec.bit(logp);
            let current = s.current != bit;
            TfFlags {
                dec: d,
                tell: d.tell_bits(),
                current,
                changed: s.changed || current,
                ..s
            }
        } else {
            s
        };
        tf_flags(
            TfFlags { res: t.res.update(band, if t.current { 1 } else { 0 }), ..t },
            start,
            end,
            transient,
            budget,
            band + 1,
        )
    }
}

/// The change that a flag stands for.
pub open spec fn tf_change(lm: int, transient: bool, select: bool, flag: i32) -> i32 {
    TF_SELECT_TABLE@[lm]@[(if transient { 4int } else { 0 }) + (if select { 2int } else { 0 }) + flag] as i32
}

/// Time-frequency changes of the bands from `start` up to `end`.
pub open spec fn tf_decoded<'a>(
    dec: EcDec<'a>,
    start: int,
    end: int,
    transient: bool,
    res: Seq<i32>,
    lm: int,
) -> (EcDec<'a>, Seq<i32>) {
    let bits = (dec.buf@.len() * 8) as i32;
    let tell = dec.tell_bits();
    let reserved = lm > 0 && tell.wrapping_add(tf_logp(true, transient) as i32) < bits;
    let budget = if reserved { (bits - 1) as i32 } else { bits };
    let s = tf_flags(
        TfFlags { dec, res, tell, current: false, changed: false },
        start,
        end,
        transient,
        budget,
        start,
    );
    let flag: i32 = if s.changed { 1 } else { 0 };
    let (d, select) = if reserved && tf_change(lm, transient, false, flag) != tf_change(
        lm,
        transient,
        true,
        flag,
    ) {
        s.dec.bit(1)
    } else {
        (s.dec, false)
    };
    (
        d,
        Seq::new(
            res.len(),
            |i: int|
                if start <= i < end {
                    tf_change(lm, transient, select, s.res[i])
                } else {
                    s.res[i]
                },
        ),
    )
}

/// Reads one entry of the table of changes.
fn tf_entry(lm: usize, transient: bool, select: bool, flag: bool) -> (v: i32)
    requires
        lm <= 3,
    ensures
        v == tf_change(lm as int, transient, select, if flag { 1 } else { 0 }),
        -3 <= v <= 3,
        transient && lm == 3 ==> v >= -1,
{
    let at: usize = (if transient { 4usize } else { 0 }) + (if select { 2usize } else { 0 }) + (
    if flag { 1usize } else { 0 });
    TF_SELECT_TABLE[lm][at] as i32
}

/// Decodes the time-frequency changes of the bands from `start` up to `end`.
pub fn tf_decode(
    start: usize,
    end: usize,
    is_transient: bool,
    tf_res: &mut Vec<i32>,
    lm: usize,
    dec: &mut EcDec<'_>,
)
    requires
        old(dec).wf(),
        old(dec).buf@.len() <= MAX_STORAGE,
        end <= old(tf_res)@.len(),
        lm <= 3,
    ensures
        (*final(dec), final(tf_res)@) == tf_decoded(
            *old(dec),
            start as int,
            end as int,
            is_transient,
            old(tf_res)@,
            lm as int,
        ),
        final(dec).wf(),
        final(dec).buf@ == old(dec).buf@,
        final(tf_res)@.len() == old(tf_res)@.len(),
        forall|i: int|
            start <= i < end ==> tf_valid(
                if is_transient { scale_of(lm as int) } else { 1 },
                #[trigger] final(tf_res)@[i] as int,
            ),
{
    let ghost res0 = tf_res@;
    let ghost first_tell = dec.tell_bits();
    let bits: i32 = (dec.buf.len() * 8) as i32;
    let mut tell: i32 = dec.tell();
    let first: i32 = if is_transient { 2 } else { 4 };
    let reserved: bool = lm > 0 && tell.wrapping_add(first) < bits;
    let budget: i32 = if reserved { bits - 1 } else { bits };
    let mut current: bool = false;
    let mut changed: bool = false;
    let ghost begun = TfFlags {
        dec: *dec,
        res: tf_res@,
        tell,
        current: false,
        changed: false,
    };
    let mut band: usize = start;
    while band < end
        invariant
            dec.wf(),
            dec.buf@ == old(dec).buf@,
            start <= band,
            end <= tf_res@.len(),
            tf_res@.len() == res0.len(),
            forall|i: int|
                start <= i < band && i < end ==> #[trigger] tf_res@[i] == 0 || tf_res@[i] == 1,
            tf_flags(
                TfFlags { dec: *dec, res: tf_res@, tell, current, changed },
                start as int,
                end as int,
                is_transient,
                budget,
                band as int,
            ) == tf_flags(begun, start as int, end as int, is_transient, budget, start as int),
        decreases end - band,
    {
        let logp: u32 = if band == start {
            if is_transient {
                2
            } else {
                4
            }
        } else if is_transient {
            4
        } else {
            5
        };
        if tell.wrapping_add(logp as i32) <= budget {
            let bit: bool = dec.dec_bit_logp(logp);
            current = current != bit;
            tell = dec.tell();
            changed = changed || current;
        }
        tf_res.set(band, if current { 1 } else { 0 });
        band = band + 1;
    }
    let ghost flags = tf_res@;
    let mut select: bool = false;
    if reserved {
        if tf_entry(lm, is_transient, false, changed) != tf_entry(
            lm,
            is_transient,
            true,
            changed,
        ) {
            select = dec.dec_bit_logp(1);
        }
    }
    let mut i: usize = start;
    while i < end
        invariant
            start <= i,
            end <= tf_res@.len(),
            tf_res@.len() == res0.len(),
            flags.len() == res0.len(),
            lm <= 3,
            forall|k: int|
                start <= k < end ==> #[trigger] flags[k] == 0 || flags[k] == 1,
            forall|k: int|
                0 <= k < res0.len() ==> #[trigger] tf_res@[k] == (if start <= k < i && k < end {
                    tf_change(lm as int, is_transient, select, flags[k])
                } else {
                    flags[k]
                }),
            forall|k: int|
                start <= k < i && k < end ==> tf_valid(
                    if is_transient { scale_of(lm as int) } else { 1 },
                    #[trigger] tf_res@[k] as int,
                ),
        decreases end - i,
    {
        assert(flags[i as int] == tf_res@[i as int]);
        let v: i32 = tf_entry(lm, is_transient, select, tf_res[i] == 1);
        tf_res.set(i, v);
        i = i + 1;
    }
    proof {
        let goal = tf_decoded(
            *old(dec),
            start as int,
            end as int,
            is_transient,
            res0,
            lm as int,
        );
        assert(tf_res@ =~= goal.1);
    }
}

/// State while the boosts of the bands are read.
#[verifier::ext_equal]
pub struct BoostState<'a> {
    pub dec: EcDec<'a>,
    /// Bits used, in 1/8 bits.
    pub tell: i32,
    /// Bits available, in 1/8 bits.
    pub total: i32,
    /// Boost of the band.
    pub boost: int,
}

/// Flags of one band read until one is clear, the bits run out or the band is
/// full; each set flag is worth `quanta`.
pub open spec fn boost_read<'a>(s: BoostState<'a>, logp: u32, quanta: int, cap: int) -> BoostState<'a>
    decreases (if s.boost < cap { cap - s.boost } else { 0 }),
    when quanta > 0
{
    if s.tell.wrapping_add((logp * 8) as i32) < s.total && s.boost < cap {
        let (d, flag) = s.dec.bit(logp);
        let t = BoostState { dec: d, tell: d.tell_eighths(), ..s };
        if flag {
            boost_read(
                BoostState {
                    total: s.total.wrapping_sub(quanta as i32),
                    boost: s.boost + quanta,
                    ..t
                },
                1,
                quanta,
                cap,
            )
        } else {
            t
        }
    } else {
        s
    }
}

/// What one boost flag of a band of `n` coefficients is worth.
pub open spec fn boost_quanta(n: int) -> int {
    let floor = if n > 48 { n } else { 48 };
    if n * 8 < floor {
        n * 8
    } else {
        floor
    }
}

/// Boosts of the bands from `band` up to `end`.
pub open spec fn boosts_read<'a>(
    mode: OpusCustomMode,
    dec: EcDec<'a>,
    tell: i32,
    total: i32,
    logp: u32,
    offsets: Seq<i32>,
    caps: Seq<i32>,
    channels: int,
    lm: int,
    end: int,
    band: int,
) -> (EcDec<'a>, i32, i32, Seq<i32>)
    decreases end - band,
{
    if band >= end {
        (dec, tell, total, offsets)
    } else {
        let s = boost_read(
            BoostState { dec, tell, total, boost: 0 },
            logp,
            boost_quanta(channels * mode.band_size(lm, band)),
            caps[band] as int,
        );
        boosts_read(
            mode,
            s.dec,
            s.tell,
            s.total,
            if s.boost > 0 && logp > 2 { (logp - 1) as u32 } else { logp },
            offsets.update(band, s.boost as i32),
            caps,
            channels,
            lm,
            end,
            band + 1,
        )
    }
}

/// Reads the boost of one band; the bits used, the bits available and the boost
/// are returned.
fn read_boost(dec: &mut EcDec<'_>, tell0: i32, total0: i32, logp0: u32, quanta: i32, cap: i32) -> (r: (
    i32,
    i32,
    i32,
))
    requires
        old(dec).wf(),
        1 <= logp0 <= 6,
        1 <= quanta <= 0x10000,
        0 <= cap <= 0x100000,
    ensures
        (BoostState { dec: *final(dec), tell: r.0, total: r.1, boost: r.2 as int }) == boost_read(
            BoostState { dec: *old(dec), tell: tell0, total: total0, boost: 0 },
            logp0,
            quanta as int,
            cap as int,
        ),
        0 <= r.2 <= 0x200000,
        final(dec).wf(),
        final(dec).buf@ == old(dec).buf@,
{
    let mut tell: i32 = tell0;
    let mut total: i32 = total0;
    let mut logp: u32 = logp0;
    let mut boost: i32 = 0;
    let ghost first = BoostState { dec: *dec, tell: tell0, total: total0, boost: 0 };
    while tell.wrapping_add((logp * 8) as i32) < total && boost < cap
        invariant
            dec.wf(),
            dec.buf@ == old(dec).buf@,
            1 <= logp <= 6,
            1 <= quanta <= 0x10000,
            0 <= cap <= 0x100000,
            0 <= boost <= cap + quanta,
            first == (BoostState { dec: *old(dec), tell: tell0, total: total0, boost: 0 }),
            boost_read(
                BoostState { dec: *dec, tell, total, boost: boost as int },
                logp,
                quanta as int,
                cap as int,
            ) == boost_read(first, logp0, quanta as int, cap as int),
        decreases cap + quanta - boost,
    {
        let flag: bool = dec.dec_bit_logp(logp);
        tell = dec.tell_frac();
        if !flag {
            return (tell, total, boost);
        }
        boost = boost + quanta;
        total = total.wrapping_sub(quanta);
        logp = 1;
    }
    (tell, total, boost)
}

/// Reads the boosts of the bands; the bits used, the bits available and the
/// boosts are returned.
fn read_boosts(
    mode: &OpusCustomMode,
    dec: &mut EcDec<'_>,
    total0: i32,
    caps: &Vec<i32>,
    channels: usize,
    lm: usize,
    start: usize,
    end: usize,
) -> (r: (i32, i32, Vec<i32>))
    requires
        old(dec).wf(),
        mode.wf(),
        lm <= mode.max_lm,
        1 <= channels <= 2,
        end <= mode.num_ebands,
        caps@.len() == mode.num_ebands,
        forall|i: int| 0 <= i < mode.num_ebands ==> 0 <= #[trigger] caps@[i] <= 0x100000,
        forall|i: int| start <= i < end ==> #[trigger] mode.width(i) >= 1,
    ensures
        (*final(dec), r.0, r.1, r.2@) == boosts_read(
            *mode,
            *old(dec),
            old(dec).tell_eighths(),
            total0,
            6,
            Seq::new(mode.num_ebands as nat, |i: int| 0i32),
            caps@,
            channels as int,
            lm as int,
            end as int,
            start as int,
        ),
        r.2@.len() == mode.num_ebands,
        forall|i: int| 0 <= i < mode.num_ebands ==> 0 <= #[trigger] r.2@[i] <= 0x200000,
        final(dec).wf(),
        final(dec).buf@ == old(dec).buf@,
{
    let bands: usize = mode.num_ebands;
    let m: usize = scale(lm as i32);
    let mut offsets: Vec<i32> = vec![0i32; bands];
    let ghost zeros = Seq::new(mode.num_ebands as nat, |i: int| 0i32);
    assert(offsets@ =~= zeros);
    let mut tell: i32 = dec.tell_frac();
    let ghost tell0 = tell;
    let mut total: i32 = total0;
    let mut logp: u32 = 6;
    let mut band: usize = start;
    while band < end
        invariant
            dec.wf(),
            dec.buf@ == old(dec).buf@,
            mode.wf(),
            lm <= mode.max_lm,
            m == scale_of(lm as int),
            1 <= channels <= 2,
            start <= band,
            end <= mode.num_ebands,
            bands == mode.num_ebands,
            caps@.len() == bands,
            offsets@.len() == bands,
            2 <= logp <= 6,
            forall|i: int| 0 <= i < bands ==> 0 <= #[trigger] caps@[i] <= 0x100000,
            forall|i: int| 0 <= i < bands ==> 0 <= #[trigger] offsets@[i] <= 0x200000,
            forall|i: int| start <= i < end ==> #[trigger] mode.width(i) >= 1,
            boosts_read(
                *mode,
                *dec,
                tell,
                total,
                logp,
                offsets@,
                caps@,
                channels as int,
                lm as int,
                end as int,
                band as int,
            ) == boosts_read(
                *mode,
                *old(dec),
                tell0,
                total0,
                6,
                zeros,
                caps@,
                channels as int,
                lm as int,
                end as int,
                start as int,
            ),
        decreases end - band,
    {
        proof {
            crate::spectrum::lemma_scaled_edges(*mode, m as int, band as int, band + 1);
            assert(mode.width(band as int) >= 1);
        }
        let width: usize = (mode.e_bands[band + 1] as i32 - mode.e_bands[band] as i32) as usize;
        assert(width * m == m * width) by (nonlinear_arith);
        assert(width * m >= 1) by (nonlinear_arith)
            requires
                width >= 1,
                m >= 1,
        ;
        let size: usize = width * m;
        assert(size == mode.band_size(lm as int, band as int));
        assert(1 <= channels * size <= 4096) by (nonlinear_arith)
            requires
                1 <= channels <= 2,
                1 <= size <= 2048,
        ;
        let n: i32 = (channels * size) as i32;
        let floor: i32 = if n > 48 { n } else { 48 };
        let quanta: i32 = if n * 8 < floor { n * 8 } else { floor };
        let (t, left, boost) = read_boost(dec, tell, total, logp, quanta, caps[band]);
        tell = t;
        total = left;
        offsets.set(band, boost);
        if boost > 0 && logp > 2 {
            logp = logp - 1;
        }
        band = band + 1;
    }
    (tell, total, offsets)
}

/// Energy of a band that follows lost frames: it continues the fall of the last
/// frames, or is limited by them.
pub open spec fn energy_recovered(e0: i32, e1: i32, e2: i32, missing: i32, safety: i32) -> i32 {
    let high = if e1 > e2 { e1 } else { e2 };
    let low = if e1 < e2 { e1 } else { e2 };
    (if e0 < high {
        let a = e1.wrapping_sub(e0);
        let b = e2.wrapping_sub(e0) >> 1u32;
        let steep = if a > b { a } else { b };
        let slope: i32 = if steep > 33554432 { 33554432 } else { steep };
        let fall = missing.wrapping_add(1).wrapping_mul(slope);
        let e = e0.wrapping_sub(if fall > 0 { fall } else { 0 });
        if e > -335544320 { e } else { (-335544320) as i32 }
    } else if e0 < low {
        e0
    } else {
        low
    }).wrapping_sub(safety)
}

/// Margin left below recovered energies.
pub open spec fn recovery_margin(lm: int) -> i32 {
    if lm == 0 {
        25165824
    } else if lm == 1 {
        8388608
    } else {
        0
    }
}

/// How many frames were missed, at most ten.
pub open spec fn frames_missed(loss_duration: i32, lm: int) -> i32 {
    let n = loss_duration >> (lm as u32);
    if n < 10 {
        n
    } else {
        10
    }
}

/// Energies of both channels recovered for the bands from `start` up to `end`.
pub open spec fn energies_recovered(
    e: Seq<i32>,
    log_e: Seq<i32>,
    log_e2: Seq<i32>,
    bands: int,
    start: int,
    end: int,
    missing: i32,
    margin: i32,
) -> Seq<i32> {
    Seq::new(
        e.len(),
        |i: int|
            if i < 2 * bands && start <= i % bands < end {
                energy_recovered(e[i], log_e[i], log_e2[i], missing, margin)
            } else {
                e[i]
            },
    )
}

/// Computes [`energy_recovered`].
fn recover_energy(e0: i32, e1: i32, e2: i32, missing: i32, safety: i32) -> (r: i32)
    ensures
        r == energy_recovered(e0, e1, e2, missing, safety),
{
    let high: i32 = if e1 > e2 { e1 } else { e2 };
    let low: i32 = if e1 < e2 { e1 } else { e2 };
    let e: i32 = if e0 < high {
        let a: i32 = e1.wrapping_sub(e0);
        let b: i32 = e2.wrapping_sub(e0) >> 1u32;
        let steep: i32 = if a > b { a } else { b };
        let slope: i32 = if steep > 33554432 { 33554432 } else { steep };
        let fall: i32 = missing.wrapping_add(1).wrapping_mul(slope);
        let e: i32 = e0.wrapping_sub(if fall > 0 { fall } else { 0 });
        if e > -335544320 {
            e
        } else {
            -335544320
        }
    } else if e0 < low {
        e0
    } else {
        low
    };
    e.wrapping_sub(safety)
}

/// Computes [`energies_recovered`].
fn recover_energies(
    e: &mut Vec<i32>,
    log_e: &Vec<i32>,
    log_e2: &Vec<i32>,
    bands: usize,
    start: usize,
    end: usize,
    loss_duration: i32,
    lm: usize,
)
    requires
        1 <= bands <= 0xff,
        old(e)@.len() == 2 * bands,
        log_e@.len() == 2 * bands,
        log_e2@.len() == 2 * bands,
        lm <= 3,
    ensures
        final(e)@ == energies_recovered(
            old(e)@,
            log_e@,
            log_e2@,
            bands as int,
            start as int,
            end as int,
            frames_missed(loss_duration, lm as int),
            recovery_margin(lm as int),
        ),
{
    let n: i32 = loss_duration >> (lm as u32);
    let missing: i32 = if n < 10 { n } else { 10 };
    let margin: i32 = if lm == 0 {
        25165824
    } else if lm == 1 {
        8388608
    } else {
        0
    };
    let ghost e0 = e@;
    let ghost goal = energies_recovered(
        e0,
        log_e@,
        log_e2@,
        bands as int,
        start as int,
        end as int,
        missing,
        margin,
    );
    for i in 0..2 * bands
        invariant
            1 <= bands <= 0xff,
            e@.len() == 2 * bands,
            e0.len() == 2 * bands,
            log_e@.len() == 2 * bands,
            log_e2@.len() == 2 * bands,
            goal == energies_recovered(
                e0,
                log_e@,
                log_e2@,
                bands as int,
                start as int,
                end as int,
                missing,
                margin,
            ),
            forall|k: int| 0 <= k < i ==> #[trigger] e@[k] == goal[k],
            forall|k: int| i <= k < 2 * bands ==> #[trigger] e@[k] == e0[k],
    {
        let band: usize = i % bands;
        if start <= band && band < end {
            let r: i32 = recover_energy(e[i], log_e[i], log_e2[i], missing, margin);
            e.set(i, r);
        }
    }
    assert(e@ =~= goal);
}

/// Energies of a stream with one channel: the larger of both rows.
pub open spec fn energies_joined(e: Seq<i32>, bands: int) -> Seq<i32> {
    Seq::new(
        e.len(),
        |i: int|
            if i < bands && e[bands + i] > e[i] {
                e[bands + i]
            } else {
                e[i]
            },
    )
}

/// Computes [`energies_joined`].
fn join_energies(e: &mut Vec<i32>, bands: usize)
    requires
        bands <= 0xff,
        old(e)@.len() == 2 * bands,
    ensures
        final(e)@ == energies_joined(old(e)@, bands as int),
{
    let ghost e0 = e@;
    for i in 0..bands
        invariant
            bands <= 0xff,
            e@.len() == 2 * bands,
            e0.len() == 2 * bands,
            forall|k: int| 0 <= k < i ==> #[trigger] e@[k] == energies_joined(e0, bands as int)[k],
            forall|k: int| i <= k < 2 * bands ==> #[trigger] e@[k] == e0[k],
    {
        let other: i32 = e[bands + i];
        if other > e[i] {
            e.set(i, other);
        }
    }
    assert(e@ =~= energies_joined(e0, bands as int));
}

/// Everything that the head of a frame says.
#[verifier::ext_equal]
pub struct FrameState<'a> {
    pub dec: EcDec<'a>,
    /// Band energies up to the fine bits.
    pub e: Seq<i32>,
    pub silence: bool,
    pub postfilter: Postfilter,
    pub transient: bool,
    pub intra: bool,
    pub tf_res: Seq<i32>,
    pub spread: i32,
    pub trim: i32,
    /// Bits reserved for the anti-collapse flag, in 1/8 bits.
    pub anti_collapse_rsv: i32,
    /// Bits that were shared between the bands.
    pub bits: i32,
    pub allocation: AllocationState<'a>,
}

/// A symbol of a distribution, if there is room for it; else a default.
pub open spec fn choice_read<'a>(
    dec: EcDec<'a>,
    room: bool,
    table: Seq<u8>,
    ftb: u32,
    default: i32,
) -> (EcDec<'a>, i32) {
    if room {
        let (d, k) = dec.symbol(table, ftb);
        (d, k as i32)
    } else {
        (dec, default)
    }
}

/// Bits reserved for the anti-collapse flag.
pub open spec fn collapse_reserve(transient: bool, lm: int, bits: i32) -> i32 {
    if transient && lm >= 2 && bits >= (lm + 2) * 8 {
        8
    } else {
        0
    }
}

/// The first half of the head of a frame: flags and coarse energies.
pub struct FrameStart<'a> {
    pub dec: EcDec<'a>,
    pub e: Seq<i32>,
    pub silence: bool,
    pub postfilter: Postfilter,
    pub transient: bool,
    pub intra: bool,
}

/// Reads the flags and the coarse energies.
#[verifier::opaque]
pub open spec fn start_read<'a>(s: DecoderState, h: FrameHeader, dec: EcDec<'a>) -> FrameStart<'a> {
    let bands = s.mode.num_ebands as int;
    let start = s.start_band as int;
    let lm = h.lm as int;
    let len_bits = (h.len * 8) as i32;
    let e0 = if h.c == 1 { energies_joined(s.old_ebands, bands) } else { s.old_ebands };
    let (d1, silence) = silence_read(dec, len_bits);
    let (d2, postfilter) = postfilter_read(d1, start, len_bits);
    let (d3, transient) = flag_read(d2, lm > 0, len_bits);
    let (d4, intra) = flag_read(d3, true, len_bits);
    let e1 = if !intra && s.loss_duration != 0 {
        energies_recovered(
            e0,
            s.old_log_e,
            s.old_log_e2,
            bands,
            start,
            h.end as int,
            frames_missed(s.loss_duration, lm),
            recovery_margin(lm),
        )
    } else {
        e0
    };
    let c = coarse_decoded(
        CoarseState { dec: d4, e: e1, prev: seq![0i32, 0] },
        bands,
        start,
        h.end as int,
        lm,
        intra,
        h.c as int,
    );
    FrameStart { dec: c.dec, e: c.e, silence, postfilter, transient, intra }
}

/// Caps of all bands.
pub open spec fn caps_of(mode: OpusCustomMode, lm: int, channels: int) -> Seq<i32> {
    Seq::new(mode.num_ebands as nat, |i: int| band_cap(mode, lm, channels, i) as i32)
}

/// Reads the head of a frame.
#[verifier::opaque]
pub open spec fn frame_read<'a>(s: DecoderState, h: FrameHeader, dec: EcDec<'a>) -> FrameState<'a> {
    let mode = s.mode;
    let bands = mode.num_ebands as int;
    let start = s.start_band as int;
    let end = h.end as int;
    let lm = h.lm as int;
    let len_bits = (h.len * 8) as i32;
    let total = (h.len * 64) as i32;
    let zeros = Seq::new(bands as nat, |i: int| 0i32);
    let f = start_read(s, h, dec);
    let (d1, tf_res) = tf_decoded(f.dec, start, end, f.transient, zeros, lm);
    let (d2, spread) = choice_read(
        d1,
        d1.tell_bits().wrapping_add(4) <= len_bits,
        SPREAD_ICDF@,
        5,
        SPREAD_NORMAL,
    );
    let caps = caps_of(mode, lm, h.c as int);
    let (d3, tell, room, offsets) = boosts_read(
        mode,
        d2,
        d2.tell_eighths(),
        total,
        6,
        zeros,
        caps,
        h.c as int,
        lm,
        end,
        start,
    );
    let (d4, trim) = choice_read(d3, tell.wrapping_add(48) <= room, TRIM_ICDF@, 7, 5);
    let bits0 = total.wrapping_sub(d4.tell_eighths()).wrapping_sub(1);
    let rsv = collapse_reserve(f.transient, lm, bits0);
    let bits = bits0.wrapping_sub(rsv);
    let a = (AllocInput {
        mode,
        start: s.start_band as usize,
        end: h.end,
        offsets,
        caps,
        trim,
        total: bits,
        channels: h.c as i32,
        lm: h.lm as i32,
    }).allocated(d4);
    let (d5, e) = fine_decoded(a.dec, f.e, bands, start, end, a.fine, h.c as int);
    FrameState {
        dec: d5,
        e,
        silence: f.silence,
        postfilter: f.postfilter,
        transient: f.transient,
        intra: f.intra,
        tf_res,
        spread,
        trim,
        anti_collapse_rsv: rsv,
        bits,
        allocation: a,
    }
}

/// What reading the head of a frame relies on.
pub open spec fn frame_ready(s: DecoderState, h: FrameHeader) -> bool {
    &&& s.mode.wf()
    &&& 0 <= s.start_band < h.end <= s.mode.num_ebands
    &&& h.end - s.start_band <= 23
    &&& forall|band: int| s.start_band <= band < h.end ==> #[trigger] s.mode.width(band) >= 1
    &&& s.old_ebands.len() == 2 * s.mode.num_ebands
    &&& s.old_log_e.len() == 2 * s.mode.num_ebands
    &&& s.old_log_e2.len() == 2 * s.mode.num_ebands
    &&& 1 <= h.c <= 2
    &&& h.lm <= s.mode.max_lm
    &&& h.len <= 1275
}

/// A packet that holds a frame finds the decoder ready for it.
pub open spec fn packet_readable(s: DecoderState, packet: Seq<u8>, frame_size: int) -> bool {
    match header_found(s, packet, frame_size) {
        Ok(h) => h.len > 1 ==> frame_ready(header_applied(s, packet, frame_size), h),
        Err(_) => true,
    }
}

/// The part of a frame that a lost packet does not have.
pub struct FrameBody<'p> {
    pub range_decoder: EcDec<'p>,
    pub spread_decision: i32,
    pub is_transient: bool,
    pub intra_ener: bool,
    pub silence: bool,
    pub alloc_trim: i32,
    pub anti_collapse_rsv: i32,
    pub bits: i32,
    pub postfilter: Postfilter,
    pub tf_res: Vec<i32>,
    pub allocation: Allocation,
}

impl<'p> FrameBody<'p> {
    /// Whether the body holds what the head of the frame said.
    pub open spec fn holds(self, f: FrameState<'p>) -> bool {
        &&& self.range_decoder == f.dec
        &&& self.spread_decision == f.spread
        &&& self.is_transient == f.transient
        &&& self.intra_ener == f.intra
        &&& self.silence == f.silence
        &&& self.alloc_trim == f.trim
        &&& self.anti_collapse_rsv == f.anti_collapse_rsv
        &&& self.bits == f.bits
        &&& self.postfilter == f.postfilter
        &&& self.tf_res@ == f.tf_res
        &&& self.allocation.holds(f.allocation)
    }

    /// What the decoding of the band shapes relies on.
    pub open spec fn usable(self, mode: OpusCustomMode, start: int, end: int, lm: int) -> bool {
        &&& self.range_decoder.wf()
        &&& postfilter_valid(self.postfilter)
        &&& self.tf_res@.len() == mode.num_ebands
        &&& forall|i: int|
            start <= i < end ==> tf_valid(
                if self.is_transient { scale_of(lm) } else { 1 },
                #[trigger] self.tf_res@[i] as int,
            )
        &&& self.allocation.pulses@.len() == mode.num_ebands
        &&& self.allocation.fine@.len() == mode.num_ebands
        &&& self.allocation.priority@.len() == mode.num_ebands
        &&& forall|k: int| start <= k < end ==> 0 <= #[trigger] self.allocation.fine@[k] <= 8
        &&& forall|k: int| start <= k < end ==> #[trigger] self.allocation.pulses@[k] >= 0
    }
}

/// Reads the flags and the coarse energies of a frame.
fn read_start(
    mode: &OpusCustomMode,
    e: &mut Vec<i32>,
    log_e: &Vec<i32>,
    log_e2: &Vec<i32>,
    loss_duration: i32,
    start: usize,
    h: &FrameHeader,
    dec: &mut EcDec<'_>,
    Ghost(s): Ghost<DecoderState>,
) -> (r: (bool, Postfilter, bool, bool))
    requires
        old(dec).wf(),
        old(dec).buf@.len() <= MAX_STORAGE,
        frame_ready(s, *h),
        s.mode == *mode,
        s.start_band == start,
        s.old_ebands == old(e)@,
        s.old_log_e == log_e@,
        s.old_log_e2 == log_e2@,
        s.loss_duration == loss_duration,
    ensures
        (FrameStart {
            dec: *final(dec),
            e: final(e)@,
            silence: r.0,
            postfilter: r.1,
            transient: r.2,
            intra: r.3,
        }) == start_read(s, *h, *old(dec)),
        postfilter_valid(r.1),
        final(dec).wf(),
        final(dec).buf@ == old(dec).buf@,
        final(e)@.len() == old(e)@.len(),
{
    proof {
        reveal(start_read);
    }
    let bands: usize = mode.num_ebands;
    let len_bits: i32 = (h.len * 8) as i32;
    if h.c == 1 {
        join_energies(e, bands);
    }
    let silence: bool = read_silence(dec, len_bits);
    let postfilter: Postfilter = read_postfilter(dec, start, len_bits);
    let transient: bool = read_flag(dec, h.lm > 0, len_bits);
    let intra: bool = read_flag(dec, true, len_bits);
    if !intra && loss_duration != 0 {
        recover_energies(e, log_e, log_e2, bands, start, h.end, loss_duration, h.lm);
    }
    assert(h.c * bands <= 2 * bands) by (nonlinear_arith)
        requires
            h.c <= 2,
            bands >= 0,
    ;
    unquant_coarse_energy(bands, start, h.end, e, intra, dec, h.c, h.lm);
    (silence, postfilter, transient, intra)
}

/// Reads the head of a frame.
#[verifier::rlimit(60)]
fn read_frame<'p>(
    mode: &OpusCustomMode,
    e: &mut Vec<i32>,
    log_e: &Vec<i32>,
    log_e2: &Vec<i32>,
    loss_duration: i32,
    start: usize,
    h: &FrameHeader,
    dec0: EcDec<'p>,
    Ghost(s): Ghost<DecoderState>,
) -> (body: FrameBody<'p>)
    requires
        dec0.wf(),
        dec0.buf@.len() <= MAX_STORAGE,
        frame_ready(s, *h),
        s.mode == *mode,
        s.start_band == start,
        s.old_ebands == old(e)@,
        s.old_log_e == log_e@,
        s.old_log_e2 == log_e2@,
        s.loss_duration == loss_duration,
    ensures
        body.holds(frame_read(s, *h, dec0)),
        final(e)@ == frame_read(s, *h, dec0).e,
        body.usable(*mode, start as int, h.end as int, h.lm as int),
        body.range_decoder.buf@ == dec0.buf@,
        final(e)@.len() == old(e)@.len(),
{
    proof {
        reveal(frame_read);
    }
    let bands: usize = mode.num_ebands;
    let len_bits: i32 = (h.len * 8) as i32;
    let total: i32 = (h.len * 64) as i32;
    let ghost zeros = Seq::new(bands as nat, |i: int| 0i32);
    let mut dec: EcDec<'p> = dec0;
    let (silence, postfilter, transient, intra) = read_start(
        mode,
        e,
        log_e,
        log_e2,
        loss_duration,
        start,
        h,
        &mut dec,
        Ghost(s),
    );
    let mut tf_res: Vec<i32> = vec![0i32; bands];
    assert(tf_res@ =~= zeros);
    tf_decode(start, h.end, transient, &mut tf_res, h.lm, &mut dec);
    proof {
        vstd::arithmetic::power2::lemma2_to64();
    }
    let spread: i32 = if dec.tell().wrapping_add(4) <= len_bits {
        dec.dec_icdf(&SPREAD_ICDF, 5) as i32
    } else {
        SPREAD_NORMAL
    };
    let caps: Vec<i32> = init_caps(mode, h.lm, h.c);
    assert(caps@ =~= caps_of(*mode, h.lm as int, h.c as int));
    let (tell, room, offsets) = read_boosts(
        mode,
        &mut dec,
        total,
        &caps,
        h.c,
        h.lm,
        start,
        h.end,
    );
    let trim: i32 = if tell.wrapping_add(48) <= room {
        dec.dec_icdf(&TRIM_ICDF, 7) as i32
    } else {
        5
    };
    let bits0: i32 = total.wrapping_sub(dec.tell_frac()).wrapping_sub(1);
    let rsv: i32 = if transient && h.lm >= 2 && bits0 >= (h.lm as i32 + 2) * 8 { 8 } else { 0 };
    let bits: i32 = bits0.wrapping_sub(rsv);
    let request: AllocRequest<'_> = AllocRequest {
        mode,
        start,
        end: h.end,
        offsets: &offsets,
        caps: &caps,
        trim,
        total: bits,
        channels: h.c as i32,
        lm: h.lm as i32,
    };
    let allocation: Allocation = clt_compute_allocation(&request, &mut dec);
    assert(h.c * bands <= 2 * bands) by (nonlinear_arith)
        requires
            h.c <= 2,
            bands >= 0,
    ;
    unquant_fine_energy(bands, start, h.end, e, &allocation.fine, &mut dec, h.c);
    FrameBody {
        range_decoder: dec,
        spread_decision: spread,
        is_transient: transient,
        intra_ener: intra,
        silence,
        alloc_trim: trim,
        anti_collapse_rsv: rsv,
        bits,
        postfilter,
        tf_res,
        allocation,
    }
}

/// A frame that is ready for its band shapes to be decoded, or lost.
pub struct FramePreparation<'p> {
    /// Payload of the packet.
    pub payload: &'p [u8],
    /// Where the payload starts in the packet.
    pub from: usize,
    pub start: usize,
    pub end: usize,
    /// End of the bands that are synthesised.
    pub eff_end: usize,
    pub lm: usize,
    /// Coefficients per short-block bin.
    pub m: usize,
    /// Samples per channel.
    pub n: usize,
    /// Channels in the stream.
    pub c: usize,
    /// Output channels.
    pub cc: usize,
    pub packet_loss: bool,
    /// What was read, unless the packet is lost.
    pub body: Option<FrameBody<'p>>,
}

/// The range decoder that a frame is read with: an external one, or one for the
/// payload.
pub open spec fn frame_decoder<'p>(payload: &'p [u8], external: Option<EcDec<'p>>) -> EcDec<'p> {
    match external {
        Some(dec) => dec,
        None => EcDec::started(payload),
    }
}

impl<'p> FramePreparation<'p> {
    /// Whether the preparation says what the header and the mode say.
    pub open spec fn fits(self, s: DecoderState, h: FrameHeader, packet: Seq<u8>) -> bool {
        &&& self.payload@ == packet.subrange(h.from as int, h.from + h.len)
        &&& self.payload@.len() == h.len
        &&& self.from == h.from
        &&& self.start == s.start_band
        &&& self.end == h.end
        &&& self.eff_end == (if h.end < s.mode.effective_ebands {
            h.end
        } else {
            s.mode.effective_ebands
        })
        &&& self.lm == h.lm
        &&& h.lm <= s.mode.max_lm
        &&& self.m == scale_of(h.lm as int)
        &&& self.n == scale_of(h.lm as int) * s.mode.short_mdct_size
        &&& self.c == h.c
        &&& self.cc == s.channels
        &&& self.packet_loss == (h.len <= 1)
        &&& self.body is None <==> h.len <= 1
    }
}

/// Reads the head of a frame into the decoder.
///
/// A payload of at most one byte counts as a lost packet. The energies of the
/// decoder follow the frame; a refused packet can still have changed the end
/// band.
pub fn prepare_frame<'p>(
    decoder: &mut OpusCustomDecoder<'_>,
    packet: &'p [u8],
    frame_size: usize,
    range_decoder: Option<EcDec<'p>>,
) -> (r: Result<FramePreparation<'p>, CeltDecodeError>)
    requires
        header_ready(old(decoder)@),
        old(decoder).start_band >= 0,
        packet@.len() <= 0x7fffffff,
        packet_readable(old(decoder)@, packet@, frame_size as int),
        range_decoder matches Some(dec) ==> dec.wf() && dec.buf@.len() <= MAX_STORAGE,
    ensures
        ({
            let s = header_applied(old(decoder)@, packet@, frame_size as int);
            match header_found(old(decoder)@, packet@, frame_size as int) {
                Err(e) => r == Err::<FramePreparation<'p>, CeltDecodeError>(e) && final(decoder)@
                    == s,
                Ok(h) => r matches Ok(frame) && frame.fits(s, h, packet@) && (match frame.body {
                    None => final(decoder)@ == s,
                    Some(body) => {
                        let f = frame_read(
                            s,
                            h,
                            frame_decoder(frame.payload, range_decoder),
                        );
                        &&& body.holds(f)
                        &&& body.usable(s.mode, s.start_band as int, h.end as int, h.lm as int)
                        &&& body.range_decoder.buf@ == frame_decoder(
                            frame.payload,
                            range_decoder,
                        ).buf@
                        &&& body.range_decoder.buf@.len() <= MAX_STORAGE
                        &&& final(decoder)@ == (DecoderState {
                            skip_plc: s.skip_plc && s.loss_duration != 0,
                            old_ebands: f.e,
                            ..s
                        })
                        &&& f.e.len() == s.old_ebands.len()
                    },
                }),
            }
        }),
        final(decoder).mode == old(decoder).mode,
{
    let mode: &OpusCustomMode = decoder.mode;
    let h: FrameHeader = match read_header(decoder, packet, frame_size) {
        Err(e) => {
            return Err(e);
        },
        Ok(h) => h,
    };
    let ghost s = decoder@;
    let payload: &'p [u8] = vstd::slice::slice_subrange(packet, h.from, h.from + h.len);
    let start: usize = decoder.start_band as usize;
    let eff_end: usize = if h.end < mode.effective_ebands { h.end } else { mode.effective_ebands };
    let m: usize = scale(h.lm as i32);
    let n: usize = frame_length(mode, h.lm);
    let cc: usize = decoder.channels;
    if h.len <= 1 {
        return Ok(
            FramePreparation {
                payload,
                from: h.from,
                start,
                end: h.end,
                eff_end,
                lm: h.lm,
                m,
                n,
                c: h.c,
                cc,
                packet_loss: true,
                body: None,
            },
        );
    }
    if decoder.loss_duration == 0 {
        decoder.skip_plc = false;
    }
    let dec: EcDec<'p> = match range_decoder {
        Some(dec) => dec,
        None => EcDec::new(payload),
    };
    let body: FrameBody<'p> = read_frame(
        mode,
        &mut decoder.old_ebands,
        &decoder.old_log_e,
        &decoder.old_log_e2,
        decoder.loss_duration,
        start,
        &h,
        dec,
        Ghost(s),
    );
    Ok(
        FramePreparation {
            payload,
            from: h.from,
            start,
            end: h.end,
            eff_end,
            lm: h.lm,
            m,
            n,
            c: h.c,
            cc,
            packet_loss: false,
            body: Some(body),
        },
    )
}

} // verus!
