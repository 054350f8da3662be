//! What the head of a frame says about energies, and how the decoder keeps them.

use vstd::arithmetic::power2::{
    lemma2_to64, lemma_pow2_adds, lemma_pow2_pos, lemma_pow2_unfold, pow2,
};
use vstd::prelude::*;
use crate::decode::{energies_settled, first_filter, postfilter_shifted, second_filter};
use crate::decoder::{DecoderState, SILENCE_LOG_E};
use crate::division_laws::{lemma_q15_wide, lemma_shr};
use crate::energy::{energy_stepped, final_offset, fine_offset, leak, prediction};
use crate::fixed::shl32;
use crate::frame::{
    boost_quanta, boost_read, collapse_reserve, energies_joined, energies_recovered,
    energy_recovered, flag_read, frames_missed, postfilter_read, recovery_margin, silence_read,
    tf_change, BoostState, Postfilter,
};
use crate::header::FrameHeader;
use crate::range_decoder::EcDec;

verus! {

/// A step of the coarse energies in Q24.
proof fn lemma_step_q24(step: i32)
    requires
        -128 <= step <= 127,
    ensures
        shl32(step, 24) == step * 0x100_0000,
{
    assert(-128 <= step <= 127 ==> (((step as u32) << 24u32) as i32) == step * 0x100_0000)
        by (bit_vector);
}

/// One step more of a coarse energy is one unit more, up to the bounds of 28 units. The
/// energy of the last frame only matters in frames that are not coded on their own, where
/// more energy then never means less now. What a band adds to the prediction of the next
/// one has the sign of its step and is not larger.
pub proof fn law_coarse_energies(e: i32, other: i32, prev: i32, step: i32, lm: int, intra: bool)
    requires
        0 <= lm <= 3,
        -0x2000_0000 <= prev <= 0x2000_0000,
        -0x2000_0000 <= e <= other <= 0x2000_0000,
        -32 <= step <= 30,
    ensures
        ({
            let bound = 28 * 0x100_0000;
            let (now, next) = energy_stepped(e, prev, step, lm, intra);
            let (more, _) = energy_stepped(e, prev, (step + 1) as i32, lm, intra);
            let (louder, _) = energy_stepped(other, prev, step, lm, intra);
            &&& -bound <= now <= bound
            &&& now <= more
            &&& -bound < now && more < bound ==> more - now == 0x100_0000
            &&& intra ==> louder == now
            &&& intra && -bound < now < bound ==> now == prev + step * 0x100_0000
            &&& now <= louder <= now + (other - e) + 1
            &&& step >= 0 ==> prev <= next <= prev + step * 0x100_0000
            &&& step <= 0 ==> prev + step * 0x100_0000 <= next <= prev
        }),
{
    lemma_step_q24(step);
    lemma_step_q24((step + 1) as i32);
    let q = shl32(step, 24);
    let p = prediction(lm, intra);
    let l = leak(lm, intra);
    assert(0 <= p <= 29440 && 0 <= l <= 30147);
    let a = if e < -150994944 { (-150994944) as i32 } else { e };
    let b = if other < -150994944 { (-150994944) as i32 } else { other };
    assert(a <= b && b - a <= other - e);
    assert(-0x2000_0000 * 29440 <= p * a <= p * b && p * b <= 0x2000_0000 * 29440) by (nonlinear_arith)
        requires
            0 <= p <= 29440,
            -0x2000_0000 <= a <= b <= 0x2000_0000,
    ;
    assert(p * b - p * a <= 32768 * (b - a)) by (nonlinear_arith)
        requires
            0 <= p <= 29440,
            a <= b,
    ;
    if intra {
        assert(p == 0);
        assert(p * a == 0 && p * b == 0) by (nonlinear_arith)
            requires
                p == 0,
        ;
    }
    lemma_q15_wide(p, a);
    lemma_q15_wide(p, b);
    if q >= 0 {
        assert(0 <= l * q <= 32768 * q) by (nonlinear_arith)
            requires
                0 <= l <= 30147,
                0 <= q,
        ;
    } else {
        assert(32768 * q <= l * q <= 0) by (nonlinear_arith)
            requires
                0 <= l <= 30147,
                q <= 0,
        ;
    }
    lemma_q15_wide(l, q);
}

/// Fine bits divide the unit around a coarse energy evenly: each value is one step above
/// the one before it, and the values lie symmetrically.
pub proof fn law_fine_energies(q: u32, bits: i32)
    requires
        1 <= bits <= 8,
        q < pow2(bits as nat),
    ensures
        ({
            let unit = 0x100_0000int;
            let off = fine_offset(q, bits);
            let mirror = fine_offset((pow2(bits as nat) - 1 - q) as u32, bits);
            &&& -unit < 2 * off < unit
            &&& off + mirror == 0
            &&& q + 1 < pow2(bits as nat) ==> (fine_offset((q + 1) as u32, bits) - off) * pow2(
                bits as nat,
            ) == unit
        }),
{
    lemma2_to64();
    let n = pow2(bits as nat) as int;
    let s = (23 - bits) as nat;
    let p = pow2(s) as int;
    lemma_pow2_pos(s);
    lemma_pow2_adds(bits as nat, s);
    assert(n * p == 8388608);
    vstd::arithmetic::power2::lemma_pow2_strictly_increases(bits as nat, 9);
    lemma_fine(q as int, bits, n, p);
    lemma_fine(n - 1 - q, bits, n, p);
    assert((2 * q + 1) * p + (2 * (n - 1 - q) + 1) * p == 2 * (n * p)) by (nonlinear_arith);
    if q + 1 < n {
        lemma_fine(q + 1, bits, n, p);
        assert((2 * (q + 1) + 1) * p - (2 * q + 1) * p == 2 * p) by (nonlinear_arith);
        assert((2 * p) * n == 2 * (n * p)) by (nonlinear_arith);
    }
}

/// The correction of a value of fine bits.
proof fn lemma_fine(q: int, bits: i32, n: int, p: int)
    requires
        1 <= bits <= 8,
        0 <= q < n,
        n <= 256,
        p == pow2((23 - bits) as nat),
        n * p == 8388608,
        p >= 1,
    ensures
        fine_offset(q as u32, bits) == (2 * q + 1) * p - 8388608,
        0 < (2 * q + 1) * p < 2 * 8388608,
{
    lemma2_to64();
    assert(0 < (2 * q + 1) * p < 2 * (n * p)) by (nonlinear_arith)
        requires
            0 <= q < n,
            p >= 1,
    ;
    vstd::bits::lemma_u32_shl_is_mul((2 * q + 1) as u32, (23 - bits) as u32);
}

/// A left-over bit halves the last step of a band once more: up if it is set, down by as
/// much if it is not.
pub proof fn law_last_energy_bits(bits: i32)
    requires
        0 <= bits <= 7,
    ensures
        final_offset(1, bits) + final_offset(0, bits) == 0,
        final_offset(1, bits) * pow2((bits + 2) as nat) == 0x100_0000,
{
    lemma2_to64();
    vstd::bits::lemma_u32_shl_is_mul(1, 24);
    vstd::bits::lemma_u32_shl_is_mul(0, 24);
    let s = (bits + 1) as nat;
    let p = pow2(s) as int;
    lemma_pow2_pos(s);
    lemma_pow2_unfold((bits + 2) as nat);
    let r = pow2((23 - s) as nat) as int;
    lemma_pow2_adds(s, (23 - s) as nat);
    lemma_shr(8388608, s);
    lemma_shr((-8388608) as i32, s);
    let a = 8388608i32 >> (s as u32);
    let b = ((-8388608) as i32) >> (s as u32);
    assert(a == r) by (nonlinear_arith)
        requires
            p * a <= 8388608 < p * a + p,
            p * r == 8388608,
            p > 0,
    ;
    assert(b == -r) by (nonlinear_arith)
        requires
            p * b <= -8388608 < p * b + p,
            p * r == 8388608,
            p > 0,
    ;
    assert(a * (2 * p) == 2 * (p * r)) by (nonlinear_arith)
        requires
            a == r,
    ;
}

/// The energy that is assumed after lost frames is never above the last one, unless that
/// lay below the floor of -20; the longer the loss, the lower it is, by two units a
/// frame at most. An energy that had risen falls back to the lowest of the last three.
pub proof fn law_energy_after_a_loss(e0: i32, e1: i32, e2: i32, missing: i32, longer: i32, safety: i32)
    requires
        -0x1c00_0000 <= e0 <= 0x1c00_0000,
        -0x1c00_0000 <= e1 <= 0x1c00_0000,
        -0x1c00_0000 <= e2 <= 0x1c00_0000,
        0 <= missing <= longer <= 10,
        0 <= safety <= 0x200_0000,
    ensures
        ({
            let floor = -20 * 0x100_0000;
            let r = energy_recovered(e0, e1, e2, missing, safety) + safety;
            let later = energy_recovered(e0, e1, e2, longer, safety) + safety;
            &&& r <= e0 || r == floor
            &&& later <= r
            &&& e0 < e1 || e0 < e2 ==> r >= floor && e0 - r <= (missing + 1) * 0x200_0000
            &&& e0 < e1 && e0 >= floor ==> e0 - r >= e1 - e0 || e0 - r >= 0x200_0000 || r == floor
            &&& e0 >= e1 && e0 >= e2 ==> r == (if e1 < e2 { e1 } else { e2 })
        }),
{
    lemma2_to64();
    let a = e1.wrapping_sub(e0);
    let b = e2.wrapping_sub(e0) >> 1u32;
    lemma_shr(e2.wrapping_sub(e0), 1);
    let steep = if a > b { a } else { b };
    let slope: i32 = if steep > 33554432 { 33554432 } else { steep };
    let m = (missing + 1) as int;
    let l = (longer + 1) as int;
    if e0 < e1 || e0 < e2 {
        assert(slope >= 0);
        assert(slope <= m * slope <= l * slope <= 11 * 33554432) by (nonlinear_arith)
            requires
                0 <= slope <= 33554432,
                1 <= m <= l <= 11,
        ;
        assert(m * slope <= m * 33554432) by (nonlinear_arith)
            requires
                0 <= slope <= 33554432,
                1 <= m,
        ;
        assert(missing.wrapping_add(1).wrapping_mul(slope) == m * slope);
        assert(longer.wrapping_add(1).wrapping_mul(slope) == l * slope);
    }
}

/// A loss counts as many missed frames as frames of the next length fit into it, ten at
/// most.
pub proof fn law_missed_frames(loss_duration: i32, lm: int)
    requires
        0 <= loss_duration <= 10000,
        0 <= lm <= 3,
    ensures
        ({
            let n = frames_missed(loss_duration, lm);
            let m = pow2(lm as nat);
            &&& 0 <= n <= 10
            &&& m * n <= loss_duration
            &&& n < 10 ==> loss_duration < m * n + m
        }),
{
    lemma2_to64();
    lemma_shr(loss_duration, lm as nat);
    let p = pow2(lm as nat) as int;
    lemma_pow2_pos(lm as nat);
    let n = loss_duration >> (lm as u32);
    assert(n >= 0) by (nonlinear_arith)
        requires
            loss_duration < p * n + p,
            loss_duration >= 0,
            p > 0,
    ;
    if n >= 10 {
        assert(p * 10 <= p * n) by (nonlinear_arith)
            requires
                n >= 10,
                p > 0,
        ;
    }
}

/// Only the coded bands of the two rows are corrected after a loss.
pub proof fn law_recovery_stays_in_the_bands(
    e: Seq<i32>,
    log_e: Seq<i32>,
    log_e2: Seq<i32>,
    bands: int,
    start: int,
    end: int,
    missing: i32,
    margin: i32,
    i: int,
)
    requires
        bands >= 1,
        0 <= i < e.len(),
    ensures
        ({
            let r = energies_recovered(e, log_e, log_e2, bands, start, end, missing, margin);
            &&& r.len() == e.len()
            &&& i >= 2 * bands || i % bands < start || i % bands >= end ==> r[i] == e[i]
            &&& i < 2 * bands && start <= i % bands < end ==> r[i] == energy_recovered(
                e[i],
                log_e[i],
                log_e2[i],
                missing,
                margin,
            )
        }),
        recovery_margin(0) == 3 * recovery_margin(1),
        2 * recovery_margin(1) == 0x100_0000,
        recovery_margin(2) == 0,
        recovery_margin(3) == 0,
{
}

/// A stream with one channel goes on from the larger energy of both rows.
pub proof fn law_joined_energies_are_the_larger(e: Seq<i32>, bands: int, i: int)
    requires
        e.len() == 2 * bands,
        0 <= i < bands,
    ensures
        ({
            let r = energies_joined(e, bands);
            &&& r.len() == e.len()
            &&& r[i] >= e[i]
            &&& r[i] >= e[bands + i]
            &&& r[i] == e[i] || r[i] == e[bands + i]
            &&& r[bands + i] == e[bands + i]
        }),
{
}

/// Boosts are paid for: what a band is boosted by is taken from the bits that are left, in
/// whole portions, and a boost stops at the cap of the band.
pub proof fn law_boosts_are_paid_for(s: BoostState<'_>, logp: u32, quanta: int, cap: int)
    requires
        0 < quanta <= 0x1_0000,
        cap <= 0x10_0000,
        0 <= s.boost <= 0x20_0000,
    ensures
        ({
            let r = boost_read(s, logp, quanta, cap);
            &&& r.total == s.total.wrapping_sub((r.boost - s.boost) as i32)
            &&& s.boost <= r.boost <= 0x20_0000
            &&& r.boost > s.boost ==> r.boost < cap + quanta
            &&& (r.boost - s.boost) % quanta == 0
        }),
    decreases (if s.boost < cap { cap - s.boost } else { 0 }),
{
    if s.tell.wrapping_add((logp * 8) as i32) < s.total && s.boost < cap {
        let (d, flag) = s.dec.bit(logp);
        if flag {
            let t = BoostState {
                dec: d,
                tell: d.tell_eighths(),
                total: s.total.wrapping_sub(quanta as i32),
                boost: s.boost + quanta,
            };
            law_boosts_are_paid_for(t, 1, quanta, cap);
            let r = boost_read(t, 1, quanta, cap);
            assert(r == boost_read(s, logp, quanta, cap));
            vstd::arithmetic::div_mod::lemma_mod_add_multiples_vanish(r.boost - t.boost, quanta);
        } else {
            vstd::arithmetic::div_mod::lemma_small_mod(0, quanta as nat);
        }
    } else {
        vstd::arithmetic::div_mod::lemma_small_mod(0, quanta as nat);
    }
}

/// A portion of a boost is six bits, or one bit for each eight coefficients of wide bands,
/// but never more than one bit for each coefficient.
pub proof fn law_boost_portions(n: int)
    requires
        n >= 1,
    ensures
        boost_quanta(n) <= 8 * n,
        n <= 6 ==> boost_quanta(n) == 8 * n,
        6 <= n <= 48 ==> boost_quanta(n) == 6 * 8,
        n >= 48 ==> boost_quanta(n) == n,
{
}

/// A packet that has no bits left is silent, and a silent frame counts as read to its end.
pub proof fn law_silence(dec: EcDec<'_>, len_bits: i32)
    ensures
        ({
            let (d, silence) = silence_read(dec, len_bits);
            &&& dec.tell_bits() >= len_bits ==> silence
            &&& silence ==> d.tell_bits() == len_bits
            &&& dec.tell_bits() != 1 && dec.tell_bits() < len_bits ==> !silence && d == dec
        }),
{
}

/// A flag is only read where three bits are left, and is clear otherwise.
pub proof fn law_flags_need_room(dec: EcDec<'_>, len_bits: i32)
    requires
        dec.tell_bits() <= 0x1000_0000,
    ensures
        flag_read(dec, false, len_bits) == (dec, false),
        dec.tell_bits() + 3 > len_bits ==> flag_read(dec, true, len_bits) == (dec, false),
        dec.tell_bits() + 3 <= len_bits ==> flag_read(dec, true, len_bits) == dec.bit(3),
{
}

/// Time-frequency changes: frames without a transient only gain resolution in time, frames
/// with one never lose more than they have blocks for. A band that does not change keeps
/// its resolution in frames without a transient.
pub proof fn law_tf_changes(lm: int, transient: bool, select: bool, flag: i32)
    requires
        0 <= lm <= 3,
        0 <= flag <= 1,
    ensures
        ({
            let c = tf_change(lm, transient, select, flag);
            &&& !transient ==> -3 <= c <= 0
            &&& !transient && flag == 0 ==> c == 0
            &&& !transient && flag == 1 ==> c < 0
            &&& transient && lm > 0 ==> -1 <= c <= lm
            &&& transient && lm > 0 && !select ==> c == (if flag == 0 { lm } else { 0 })
            &&& transient && lm > 0 && select ==> c == 1 - 2 * flag
            &&& lm == 0 ==> c == -flag
        }),
{
    assert(lm == 0 || lm == 1 || lm == 2 || lm == 3);
}

/// The bits of the anti-collapse flag are only reserved after transients in long frames
/// that can afford them.
pub proof fn law_collapse_flag_is_reserved(transient: bool, lm: int, bits: i32)
    requires
        0 <= lm <= 3,
    ensures
        collapse_reserve(transient, lm, bits) == 0 || collapse_reserve(transient, lm, bits) == 8,
        collapse_reserve(transient, lm, bits) == 8 ==> transient && lm >= 2 && bits >= 32,
        transient && lm >= 2 && bits >= 40 ==> collapse_reserve(transient, lm, bits) == 8,
{
}

/// After a frame the background is never above the energies, and never rises by more than
/// a thousandth for each short block since the last frame. Energies of bands that are not
/// coded are forgotten. The logs of the last two frames move on, but for transients, which
/// can only lower the last one.
pub proof fn law_energies_after_a_frame(s: DecoderState, h: FrameHeader, transient: bool, i: int)
    requires
        s.valid(),
        s.mode.num_ebands >= 1,
        0 <= s.loss_duration <= 10000,
        0 <= i < 2 * s.mode.num_ebands,
        -0x4000_0000 <= s.background_log_e[i] <= 0x4000_0000,
    ensures
        ({
            let t = energies_settled(s, h, transient);
            let bands = s.mode.num_ebands as int;
            let coded = s.start_band <= i % bands < h.end;
            let e = if h.c == 1 && i >= bands { s.old_ebands[i - bands] } else { s.old_ebands[i] };
            let blocks = s.loss_duration + crate::band_tf::scale_of(h.lm as int);
            &&& t.old_ebands.len() == s.old_ebands.len()
            &&& coded ==> t.old_ebands[i] == e
            &&& !coded ==> t.old_ebands[i] == 0 && t.old_log_e[i] == SILENCE_LOG_E
                && t.old_log_e2[i] == SILENCE_LOG_E
            &&& coded && !transient ==> t.old_log_e[i] == e && t.old_log_e2[i] == s.old_log_e[i]
            &&& coded && transient ==> {
                &&& t.old_log_e[i] <= e
                &&& t.old_log_e[i] <= s.old_log_e[i]
                &&& t.old_log_e[i] == e || t.old_log_e[i] == s.old_log_e[i]
                &&& t.old_log_e2[i] == s.old_log_e2[i]
            }
            &&& t.background_log_e[i] <= e
            &&& 1000 * (t.background_log_e[i] - s.background_log_e[i]) <= 0x100_0000 * blocks
            &&& t.background_log_e[i] < e && blocks < 160 ==> 1000 * (t.background_log_e[i]
                - s.background_log_e[i] + blocks) >= 0x100_0000 * blocks
            &&& 1000 * (t.background_log_e[i] - s.background_log_e[i]) <= 0x100_0000 * 160
        }),
{
}

/// The post-filter never jumps: each stretch fades from the setting that the stretch before
/// it faded to. In long frames the new setting is reached within the frame, in frames of a
/// single block within the next one.
pub proof fn law_postfilter_goes_on(s: DecoderState, lm: int, p: Postfilter, next: Postfilter)
    requires
        0 <= lm <= 3,
    ensures
        ({
            let t = postfilter_shifted(s, lm, p);
            let one = first_filter(s);
            let two = second_filter(s, p);
            let three = first_filter(t);
            &&& two.gain_from == one.gain_to
            &&& two.tapset_from == one.tapset_to
            &&& two.period_from == one.period_to
            &&& two.gain_to == p.gain && two.tapset_to == p.tapset && two.period_to == p.pitch
            &&& three.gain_to == p.gain && three.tapset_to == p.tapset
            &&& p.pitch >= 15 ==> three.period_to == p.pitch
            &&& lm != 0 ==> three.gain_from == p.gain && three.tapset_from == p.tapset
                && three.period_from == three.period_to
            &&& lm == 0 ==> three.gain_from == one.gain_to && three.tapset_from == one.tapset_to
                && three.period_from == one.period_to
        }),
{
}

/// The post-filter of a packet: its gain is one to eight times three thirty-seconds, its
/// period lies in the octave that was read, and the octaves follow each other from 15 on.
pub proof fn law_postfilter_of_a_packet(dec: EcDec<'_>, start: int, len_bits: i32)
    requires
        dec.wf(),
    ensures
        ({
            let (d, p) = postfilter_read(dec, start, len_bits);
            let (d1, on) = dec.bit(1);
            let (d2, octave) = d1.uint(6);
            let (d3, low) = d2.raw((4 + octave) as u32);
            let (d4, gain) = d3.raw(3);
            let read = start == 0 && dec.tell_bits().wrapping_add(16) <= len_bits;
            &&& !read ==> d == dec
            &&& !read || !on ==> p.gain == 0 && p.pitch == 0 && p.tapset == 0
            &&& read && on && octave < 6 && low < pow2((4 + octave) as nat) && gain < 8 ==> {
                &&& p.pitch + 1 == pow2((4 + octave) as nat) + low
                &&& 32 * p.gain == 3 * (32768 * (gain + 1))
            }
        }),
{
    lemma2_to64();
    let (d1, on) = dec.bit(1);
    let (d2, octave) = d1.uint(6);
    let (d3, low) = d2.raw((4 + octave) as u32);
    let (d4, gain) = d3.raw(3);
    assert(pow2(4) == 16 && pow2(5) == 32 && pow2(6) == 64 && pow2(7) == 128 && pow2(8) == 256
        && pow2(9) == 512);
    assert(octave == 0 || octave == 1 || octave == 2 || octave == 3 || octave == 4 || octave == 5
        || octave >= 6);
}

} // verus!
