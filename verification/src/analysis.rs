//! What an encoder measures of the channels of a band: the angle between two
//! parts, the weights of the channels, and their mixes.

use vstd::prelude::*;
use crate::fixed::{
    extract16, mult16_16, mult16_16_p15, mult16_16_q15, mult32_32_q31, shl32, vshr32,
};
use crate::math::{
    celt_rcp, celt_sqrt, celt_sudiv, celt_zlog2, rcp, sqrt_approx, trunc_div, zlog2,
};
use crate::pvq::{find_norm_energy, norm_energy};

verus! {

/// Arc tangent of a Q15 value between zero and one.
#[verifier::allow_in_spec]
pub fn atan01(x: i16) -> i16
    returns
        mult16_16_p15(
            x,
            32767i16.wrapping_add(
                mult16_16_p15(
                    x,
                    ((-21) as i16).wrapping_add(
                        mult16_16_p15(
                            x,
                            ((-11943) as i16).wrapping_add(mult16_16_p15(4936, x)),
                        ),
                    ),
                ),
            ),
        ),
{
    mult16_16_p15(
        x,
        32767i16.wrapping_add(
            mult16_16_p15(
                x,
                (-21i16).wrapping_add(
                    mult16_16_p15(x, (-11943i16).wrapping_add(mult16_16_p15(4936, x))),
                ),
            ),
        ),
    )
}

/// Ratio of two amplitudes, `a` being the smaller one, in Q15.
pub open spec fn ratio_q15(a: i16, b: i16) -> i16 {
    let q = mult32_32_q31(shl32(a as i32, 15), rcp(b as i32));
    if q >= 32767 {
        32767
    } else {
        extract16(q)
    }
}

/// Computes [`ratio_q15`].
fn find_ratio(a: i16, b: i16) -> (q: i16)
    requires
        b > 0,
    ensures
        q == ratio_q15(a, b),
{
    let q: i32 = mult32_32_q31(shl32(a as i32, 15), celt_rcp(b as i32));
    if q >= 32767 {
        32767
    } else {
        extract16(q)
    }
}

/// Angle of a pair of amplitudes in Q14 quarter turns: zero where there is
/// nothing but `mid`.
pub open spec fn angle_of(mid: i16, side: i16) -> int {
    if mid <= 0 && side <= 0 {
        0
    } else {
        let radians = if side < mid {
            atan01(ratio_q15(side, mid)) >> 1u32
        } else {
            25736i16.wrapping_sub(atan01(ratio_q15(mid, side)) >> 1u32)
        };
        let turns = mult16_16_q15(20861, radians) as int;
        if turns < 0 {
            0
        } else if turns > 16384 {
            16384
        } else {
            turns
        }
    }
}

/// Computes [`angle_of`].
fn find_angle(mid: i16, side: i16) -> (itheta: i32)
    ensures
        itheta == angle_of(mid, side),
        0 <= itheta <= 16384,
{
    if mid <= 0 && side <= 0 {
        return 0;
    }
    let radians: i16 = if side < mid {
        atan01(find_ratio(side, mid)) >> 1u32
    } else {
        25736i16.wrapping_sub(atan01(find_ratio(mid, side)) >> 1u32)
    };
    let turns: i32 = mult16_16_q15(20861, radians) as i32;
    if turns < 0 {
        0
    } else if turns > 16384 {
        16384
    } else {
        turns
    }
}

/// Amplitude that goes with an energy.
pub open spec fn amplitude_of(e: int) -> i16 {
    extract16(sqrt_approx((if e > i32::MAX { i32::MAX as int } else { e }) as i32))
}

/// Computes [`amplitude_of`].
fn find_amplitude(e: u64) -> (a: i16)
    ensures
        a == amplitude_of(e as int),
{
    extract16(celt_sqrt(if e > 0x7fff_ffff { 0x7fff_ffff } else { e as i32 }))
}

/// Half the sum of the channels.
pub open spec fn half_sum(x: Seq<i16>, y: Seq<i16>) -> Seq<i16> {
    Seq::new(x.len(), |i: int| (x[i] >> 1u32).wrapping_add(y[i] >> 1u32))
}

/// Half the difference of the channels.
pub open spec fn half_difference(x: Seq<i16>, y: Seq<i16>) -> Seq<i16> {
    Seq::new(x.len(), |i: int| (x[i] >> 1u32).wrapping_sub(y[i] >> 1u32))
}

/// Angle between two parts of a band, or between the mid and the side of two
/// channels.
pub open spec fn split_angle(x: Seq<i16>, y: Seq<i16>, stereo: bool) -> int {
    let (mid, side) = if stereo {
        (half_sum(x, y), half_difference(x, y))
    } else {
        (x, y)
    };
    angle_of(amplitude_of(norm_energy(mid)), amplitude_of(norm_energy(side)))
}

/// Computes [`split_angle`].
pub fn stereo_itheta(x: &Vec<i16>, y: &Vec<i16>, stereo: bool) -> (itheta: i32)
    requires
        x@.len() <= 0x7fff,
        y@.len() == x@.len(),
    ensures
        itheta == split_angle(x@, y@, stereo),
        0 <= itheta <= 16384,
{
    if !stereo {
        return find_angle(
            find_amplitude(find_norm_energy(x)),
            find_amplitude(find_norm_energy(y)),
        );
    }
    let mut mid: Vec<i16> = Vec::new();
    let mut side: Vec<i16> = Vec::new();
    for i in 0..x.len()
        invariant
            y@.len() == x@.len(),
            mid@ == half_sum(x@, y@).take(i as int),
            side@ == half_difference(x@, y@).take(i as int),
    {
        mid.push((x[i] >> 1u32).wrapping_add(y[i] >> 1u32));
        side.push((x[i] >> 1u32).wrapping_sub(y[i] >> 1u32));
        assert(mid@ =~= half_sum(x@, y@).take(i + 1));
        assert(side@ =~= half_difference(x@, y@).take(i + 1));
    }
    assert(mid@ =~= half_sum(x@, y@));
    assert(side@ =~= half_difference(x@, y@));
    find_angle(find_amplitude(find_norm_energy(&mid)), find_amplitude(find_norm_energy(&side)))
}

/// The channels rotated into mid and side.
pub open spec fn channels_split(x: Seq<i16>, y: Seq<i16>) -> (Seq<i16>, Seq<i16>) {
    (
        Seq::new(
            x.len(),
            |i: int|
                extract16(mult16_16(23170, x[i]).wrapping_add(mult16_16(23170, y[i])) >> 15u32),
        ),
        Seq::new(
            x.len(),
            |i: int|
                extract16(mult16_16(23170, y[i]).wrapping_sub(mult16_16(23170, x[i])) >> 15u32),
        ),
    )
}

/// Rotates the channels into mid and side, keeping their energy.
pub fn stereo_split(x: &mut Vec<i16>, y: &mut Vec<i16>)
    requires
        old(x)@.len() == old(y)@.len(),
    ensures
        (final(x)@, final(y)@) == channels_split(old(x)@, old(y)@),
        final(x)@.len() == old(x)@.len(),
        final(y)@.len() == old(y)@.len(),
{
    let ghost x0 = x@;
    let ghost y0 = y@;
    let ghost goal = channels_split(x0, y0);
    let n: usize = x.len();
    for i in 0..n
        invariant
            n == x@.len(),
            n == y@.len(),
            n == x0.len(),
            n == y0.len(),
            goal == channels_split(x0, y0),
            forall|j: int| 0 <= j < i ==> x@[j] == goal.0[j] && y@[j] == goal.1[j],
            forall|j: int| i <= j < n ==> x@[j] == x0[j] && y@[j] == y0[j],
    {
        let l: i32 = mult16_16(23170, x[i]);
        let r: i32 = mult16_16(23170, y[i]);
        x.set(i, extract16(l.wrapping_add(r) >> 15u32));
        y.set(i, extract16(r.wrapping_sub(l) >> 15u32));
    }
    assert(x@ =~= goal.0);
    assert(y@ =~= goal.1);
}

/// Q14 weights of two channels with the given amplitudes.
pub open spec fn mix_weights(left: i32, right: i32) -> (i16, i16) {
    let shift = (zlog2((if left > right { left } else { right }) as int) - 13) as i32;
    let l = extract16(vshr32(left, shift));
    let r = extract16(vshr32(right, shift));
    let root = sqrt_approx(1i32.wrapping_add(mult16_16(l, l)).wrapping_add(mult16_16(r, r)));
    let norm = extract16(1i32.wrapping_add(root));
    let d = (if norm < 1 { 1 } else { norm }) as int;
    (
        extract16(trunc_div(shl32(l as i32, 14) as int, d) as i32),
        extract16(trunc_div(shl32(r as i32, 14) as int, d) as i32),
    )
}

/// Computes [`mix_weights`].
fn find_weights(left: i32, right: i32) -> (w: (i16, i16))
    ensures
        w == mix_weights(left, right),
{
    let shift: i32 = celt_zlog2(if left > right { left } else { right }) - 13;
    let l: i16 = extract16(vshr32(left, shift));
    let r: i16 = extract16(vshr32(right, shift));
    let root: i32 = celt_sqrt(1i32.wrapping_add(mult16_16(l, l)).wrapping_add(mult16_16(r, r)));
    let norm: i16 = extract16(1i32.wrapping_add(root));
    let d: i32 = if norm < 1 { 1 } else { norm as i32 };
    (
        extract16(celt_sudiv(shl32(l as i32, 14), d)),
        extract16(celt_sudiv(shl32(r as i32, 14), d)),
    )
}

/// Both channels mixed into one, weighted by their amplitudes.
pub open spec fn channels_mixed(x: Seq<i16>, y: Seq<i16>, left: i32, right: i32) -> Seq<i16> {
    let (a1, a2) = mix_weights(left, right);
    Seq::new(
        x.len(),
        |i: int| extract16(mult16_16(a1, x[i]).wrapping_add(mult16_16(a2, y[i])) >> 14u32),
    )
}

/// Mixes the second channel of a band into the first; `left` and `right` are
/// the amplitudes of the band.
pub fn intensity_stereo(x: &mut Vec<i16>, y: &Vec<i16>, left: i32, right: i32)
    requires
        old(x)@.len() == y@.len(),
    ensures
        final(x)@ == channels_mixed(old(x)@, y@, left, right),
        final(x)@.len() == old(x)@.len(),
{
    let ghost x0 = x@;
    let ghost goal = channels_mixed(x0, y@, left, right);
    let (a1, a2) = find_weights(left, right);
    let n: usize = x.len();
    for i in 0..n
        invariant
            n == x@.len(),
            n == y@.len(),
            n == x0.len(),
            (a1, a2) == mix_weights(left, right),
            goal == channels_mixed(x0, y@, left, right),
            forall|j: int| 0 <= j < i ==> x@[j] == goal[j],
            forall|j: int| i <= j < n ==> x@[j] == x0[j],
    {
        let v: i16 = extract16(mult16_16(a1, x[i]).wrapping_add(mult16_16(a2, y[i])) >> 14u32);
        x.set(i, v);
    }
    assert(x@ =~= goal);
}

/// Energies of two channels, each raised by a third of the smaller one.
pub open spec fn raised(ex: i32, ey: i32) -> (i32, i32) {
    let third = trunc_div((if ex < ey { ex } else { ey }) as int, 3) as i32;
    (ex.wrapping_add(third), ey.wrapping_add(third))
}

/// Weights of the channels in a comparison of distortions: their energies, a
/// bit more conservative than in proportion.
pub fn compute_channel_weights(ex: i32, ey: i32) -> (w: [i32; 2])
    ensures
        (w@[0], w@[1]) == raised(ex, ey),
{
    let third: i32 = celt_sudiv(if ex < ey { ex } else { ey }, 3);
    [ex.wrapping_add(third), ey.wrapping_add(third)]
}

/// Channel weights as 16-bit words of the same proportion.
pub open spec fn weights_of(ex: i32, ey: i32) -> (i16, i16) {
    let (rx, ry) = raised(ex, ey);
    let most = 1i32.wrapping_add(if rx > ry { rx } else { ry });
    let shift = (zlog2(most as int) - 14) as i32;
    (extract16(vshr32(rx, shift)), extract16(vshr32(ry, shift)))
}

/// Computes [`weights_of`].
pub fn word_weights(ex: i32, ey: i32) -> (w: (i16, i16))
    ensures
        w == weights_of(ex, ey),
{
    let w: [i32; 2] = compute_channel_weights(ex, ey);
    let most: i32 = 1i32.wrapping_add(if w[0] > w[1] { w[0] } else { w[1] });
    let shift: i32 = celt_zlog2(most) - 14;
    (extract16(vshr32(w[0], shift)), extract16(vshr32(w[1], shift)))
}

} // verus!
