//! Coding of the angle that splits a band, or a pair of channels, in two.

use vstd::prelude::*;
use crate::bands::{
    bitexact_cos, bitexact_log2tan, cos_q15, frac_mul, frac_mul16, lemma_cos_range, log2tan,
    low_mask, mask_from_bits,
};
use crate::math::{half_floor, isqrt32, trunc_div};
use crate::mode::OpusCustomMode;
use crate::range_decoder::EcDec;
use crate::range_encoder::{EcEnc, EncState};

verus! {

/// Subtracted from half the band's pulse cap when angle bits are allocated.
pub const QTHETA_OFFSET: i32 = 4;

/// Like [`QTHETA_OFFSET`], for two-coefficient stereo bands.
pub const QTHETA_OFFSET_TWOPHASE: i32 = 16;

/// Upper bound on the resolution of an angle.
pub const MAX_QN: i32 = 256;

/// The outcome of splitting a band.
#[derive(Clone, Copy, Debug, PartialEq, Eq, Structural)]
pub struct SplitCtx {
    /// Whether the side channel is inverted.
    pub inv: bool,
    /// Gain of the first part, Q15.
    pub imid: i32,
    /// Gain of the second part, Q15.
    pub iside: i32,
    /// Bias of the bit allocation towards the first part, in 1/8 bits.
    pub delta: i32,
    /// Angle, Q14.
    pub itheta: i32,
    /// Cost of the angle, in 1/8 bits.
    pub qalloc: i32,
}

/// Eighth roots of two, Q14.
pub open spec fn exp2_eighth(i: int) -> int {
    if i == 0 {
        16384
    } else if i == 1 {
        17866
    } else if i == 2 {
        19483
    } else if i == 3 {
        21247
    } else if i == 4 {
        23170
    } else if i == 5 {
        25267
    } else if i == 6 {
        27554
    } else {
        30048
    }
}

/// Degrees of freedom that share the bits of a split.
pub open spec fn split_dof(n: int, stereo: bool) -> int {
    if stereo && n == 2 {
        2 * n - 2
    } else {
        2 * n - 1
    }
}

/// Bits given to the angle, in 1/8 bits.
pub open spec fn angle_bits(n: int, b: int, offset: int, pulse_cap: int, stereo: bool) -> int {
    let dof = split_dof(n, stereo);
    let share = trunc_div(b + dof * offset, dof);
    let guard = b - pulse_cap - 32;
    let least = if share < guard { share } else { guard };
    if least < 64 { least } else { 64 }
}

/// Number of steps that `qb` eighths of a bit pay for: one, or an even number.
pub open spec fn steps_for(qb: int) -> int {
    if qb < 4 {
        1
    } else {
        (exp2_eighth(qb % 8) / vstd::arithmetic::power2::pow2((14 - qb / 8) as nat) as int + 1) / 2
            * 2
    }
}

/// Resolution of the angle of a band of `n` coefficients with `b` eighths of a
/// bit to spend.
pub open spec fn angle_steps(n: int, b: int, offset: int, pulse_cap: int, stereo: bool) -> int {
    steps_for(angle_bits(n, b, offset, pulse_cap, stereo))
}

/// The resolution is one, or an even number up to [`MAX_QN`].
pub proof fn lemma_steps_range(qb: int)
    requires
        qb <= 64,
    ensures
        steps_for(qb) == 1 || (2 <= steps_for(qb) <= MAX_QN && steps_for(qb) % 2 == 0),
{
    vstd::arithmetic::power2::lemma2_to64();
    if qb >= 4 {
        let k = qb / 8;
        assert(0 <= k <= 8);
        let e = exp2_eighth(qb % 8);
        assert(16384 <= e <= 30048);
        if k == 0 {
            assert(qb % 8 >= 4);
            assert(e / 16384 == 1);
        } else if k == 1 {
            assert(e / 8192 >= 2);
        } else if k == 2 {
            assert(4 <= e / 4096 <= 7);
        } else if k == 3 {
            assert(8 <= e / 2048 <= 14);
        } else if k == 4 {
            assert(16 <= e / 1024 <= 29);
        } else if k == 5 {
            assert(32 <= e / 512 <= 58);
        } else if k == 6 {
            assert(64 <= e / 256 <= 117);
        } else if k == 7 {
            assert(128 <= e / 128 <= 234);
        } else {
            assert(qb % 8 == 0);
            assert(e / 64 == 256);
        }
    }
}

/// Computes [`angle_steps`].
pub fn compute_qn(n: i32, b: i32, offset: i32, pulse_cap: i32, stereo: bool) -> (qn: i32)
    requires
        n >= 1,
    ensures
        qn == angle_steps(n as int, b as int, offset as int, pulse_cap as int, stereo),
        qn == 1 || (2 <= qn <= MAX_QN && qn % 2 == 0),
{
    let dof: i64 = if stereo && n == 2 { 2 } else { 2 * (n as i64) - 1 };
    proof {
        assert(-0x7fff_ffff_8000_0000 + 0x8000_0000 <= dof * offset <= 0x7fff_ffff_8000_0000
            - 0x8000_0000) by (nonlinear_arith)
            requires
                1 <= dof <= 0xffff_fffd,
                -0x8000_0000 <= offset <= 0x7fff_ffff,
        ;
    }
    let total: i64 = b as i64 + dof * offset as i64;
    let magnitude: i64 = if total >= 0 { total } else { -total };
    let quotient: i64 = magnitude / dof;
    proof {
        vstd::arithmetic::div_mod::lemma_div_pos_is_pos(magnitude as int, dof as int);
        vstd::arithmetic::div_mod::lemma_div_is_ordered_by_denominator(
            magnitude as int,
            1,
            dof as int,
        );
    }
    let share: i64 = if total >= 0 { quotient } else { -quotient };
    let guard: i64 = b as i64 - pulse_cap as i64 - 32;
    let least: i64 = if share < guard { share } else { guard };
    let qb: i64 = if least < 64 { least } else { 64 };
    proof {
        lemma_steps_range(qb as int);
        assert(qb == angle_bits(n as int, b as int, offset as int, pulse_cap as int, stereo));
    }
    if qb < 4 {
        return 1;
    }
    let index: i64 = qb % 8;
    let root: u32 = match index {
        0 => 16384,
        1 => 17866,
        2 => 19483,
        3 => 21247,
        4 => 23170,
        5 => 25267,
        6 => 27554,
        _ => 30048,
    };
    let shift: u32 = (14 - qb / 8) as u32;
    proof {
        vstd::bits::lemma_u32_shr_is_div(root, shift);
        vstd::arithmetic::power2::lemma_pow2_pos(shift as nat);
        vstd::arithmetic::div_mod::lemma_div_is_ordered_by_denominator(
            root as int,
            1,
            vstd::arithmetic::power2::pow2(shift as nat) as int,
        );
    }
    let value: u32 = root >> shift;
    ((value + 1) / 2 * 2) as i32
}

/// Number of slots of the step-shaped angle distribution.
pub open spec fn step_total(qn: int) -> int {
    3 * (qn / 2 + 1) + qn / 2
}

/// First slot of an angle in the step-shaped distribution, in which the first
/// half of the angles is three times as likely as the rest.
pub open spec fn step_low(i: int, qn: int) -> int {
    if i <= qn / 2 {
        3 * i
    } else {
        3 * (qn / 2 + 1) + (i - 1 - qn / 2)
    }
}

/// Number of slots of the triangular angle distribution.
pub open spec fn triangle_total(qn: int) -> int {
    (qn / 2 + 1) * (qn / 2 + 1)
}

/// Sum of the first `k` positive integers.
pub open spec fn triangular(k: int) -> int {
    k * (k + 1) / 2
}

/// First slot of an angle in the triangular distribution, which peaks in the
/// middle.
pub open spec fn triangle_low(i: int, qn: int) -> int {
    if i <= qn / 2 {
        triangular(i)
    } else {
        triangle_total(qn) - triangular(qn + 1 - i)
    }
}

/// Ordering facts about triangular numbers.
proof fn lemma_triangular(k: int)
    requires
        k >= 0,
    ensures
        triangular(k) >= 0,
        triangular(k + 1) == triangular(k) + k + 1,
        2 * triangular(k) == k * (k + 1),
{
    assert((k * (k + 1)) % 2 == 0) by {
        let m = k / 2;
        if k % 2 == 0 {
            assert(k * (k + 1) == 2 * (m * (k + 1))) by (nonlinear_arith)
                requires
                    k == 2 * m,
            ;
        } else {
            assert(k * (k + 1) == 2 * (k * (m + 1))) by (nonlinear_arith)
                requires
                    k == 2 * m + 1,
            ;
        }
    }
    assert((k + 1) * (k + 2) == k * (k + 1) + 2 * (k + 1)) by (nonlinear_arith);
    assert(k * (k + 1) >= 0) by (nonlinear_arith)
        requires
            k >= 0,
    ;
}

/// Triangular numbers grow.
proof fn lemma_triangular_monotonic(j: int, k: int)
    requires
        0 <= j <= k,
    ensures
        triangular(j) <= triangular(k),
    decreases k - j,
{
    if j < k {
        lemma_triangular(j);
        lemma_triangular_monotonic(j + 1, k);
    }
}

/// The intervals of the triangular distribution are consecutive: they start at
/// zero, each begins where its predecessor ends, and the last one ends at the
/// total.
pub proof fn law_triangle_intervals(i: int, qn: int)
    requires
        2 <= qn,
        qn % 2 == 0,
        0 <= i <= qn,
    ensures
        triangle_low(0, qn) == 0,
        triangle_low(i, qn) < triangle_low(i + 1, qn),
        triangle_low(qn + 1, qn) == triangle_total(qn),
        i <= qn / 2 ==> triangle_low(i + 1, qn) == triangle_low(i, qn) + i + 1,
        i > qn / 2 ==> triangle_low(i + 1, qn) == triangle_low(i, qn) + qn + 1 - i,
{
    let h = qn / 2;
    lemma_triangular(i);
    lemma_triangular(h);
    assert(triangular(0) == 0);
    if i < h {
    } else if i == h {
        lemma_triangular(h);
        assert((h + 1) * (h + 1) == h * (h + 1) + (h + 1)) by (nonlinear_arith);
    } else {
        lemma_triangular(qn - i);
    }
}

/// The intervals of the step-shaped distribution are consecutive.
pub proof fn law_step_intervals(i: int, qn: int)
    requires
        2 <= qn,
        qn % 2 == 0,
        0 <= i <= qn,
    ensures
        step_low(0, qn) == 0,
        step_low(i, qn) < step_low(i + 1, qn),
        step_low(qn + 1, qn) == step_total(qn),
{
}

/// Later angles start later in the triangular distribution.
pub proof fn lemma_triangle_ordered(i: int, j: int, qn: int)
    requires
        2 <= qn,
        qn % 2 == 0,
        0 <= i <= j <= qn + 1,
    ensures
        triangle_low(i, qn) <= triangle_low(j, qn),
    decreases j - i,
{
    if i < j {
        law_triangle_intervals(i, qn);
        lemma_triangle_ordered(i + 1, j, qn);
    }
}

/// The angle whose triangular interval contains the slot `fm`.
pub open spec fn triangle_angle(fm: int, qn: int) -> int {
    choose|i: int|
        0 <= i <= qn && #[trigger] triangle_low(i, qn) <= fm < triangle_low(i + 1, qn)
}

/// The angle whose step-shaped interval contains the slot `fs`.
pub open spec fn step_angle(fs: int, qn: int) -> int {
    choose|i: int| 0 <= i <= qn && #[trigger] step_low(i, qn) <= fs < step_low(i + 1, qn)
}

/// Decoding any slot of an angle's interval gives back that angle, for both
/// distributions.
pub proof fn law_angle_round_trip(i: int, fm: int, qn: int)
    requires
        2 <= qn,
        qn % 2 == 0,
        0 <= i <= qn,
    ensures
        triangle_low(i, qn) <= fm < triangle_low(i + 1, qn) ==> triangle_angle(fm, qn) == i,
        step_low(i, qn) <= fm < step_low(i + 1, qn) ==> step_angle(fm, qn) == i,
{
    if triangle_low(i, qn) <= fm < triangle_low(i + 1, qn) {
        let k = triangle_angle(fm, qn);
        assert(0 <= k <= qn && triangle_low(k, qn) <= fm < triangle_low(k + 1, qn));
        if k < i {
            lemma_triangle_ordered(k + 1, i, qn);
        } else if k > i {
            lemma_triangle_ordered(i + 1, k, qn);
        }
    }
    if step_low(i, qn) <= fm < step_low(i + 1, qn) {
        let k = step_angle(fm, qn);
        assert(0 <= k <= qn && step_low(k, qn) <= fm < step_low(k + 1, qn));
    }
}

/// Finds the angle whose triangular interval contains `fm`, and its interval.
pub fn triangle_search(fm: u32, qn: i32) -> (found: (i32, u32, u32))
    requires
        2 <= qn <= MAX_QN,
        qn % 2 == 0,
        fm < triangle_total(qn as int),
    ensures
        found.0 == triangle_angle(fm as int, qn as int),
        0 <= found.0 <= qn,
        found.1 == triangle_low(found.0 as int, qn as int),
        found.2 == triangle_low(found.0 + 1, qn as int),
        found.1 <= fm < found.2 <= triangle_total(qn as int),
{
    let half: i32 = qn / 2;
    let ghost h = half as int;
    assert(half * (half + 1) <= 128 * 129 && (half + 1) * (half + 1) <= 129 * 129) by (
    nonlinear_arith)
        requires
            1 <= half <= 128,
    ;
    let ft: i32 = (half + 1) * (half + 1);
    let slot: i32 = fm as i32;
    if slot < half * (half + 1) / 2 {
        let root: i32 = isqrt32((8 * slot + 1) as u32) as i32;
        proof {
            let r = root as int;
            assert(r >= 1) by (nonlinear_arith)
                requires
                    8 * slot + 1 < (r + 1) * (r + 1),
                    slot >= 0,
                    r >= 0,
            ;
        }
        let i: i32 = (root - 1) / 2;
        proof {
            let r = root as int;
            let k = i as int;
            assert(2 * k + 1 <= r <= 2 * k + 2);
            assert((2 * k + 1) * (2 * k + 1) <= r * r) by (nonlinear_arith)
                requires
                    0 <= 2 * k + 1 <= r,
            ;
            assert((r + 1) * (r + 1) <= (2 * k + 3) * (2 * k + 3)) by (nonlinear_arith)
                requires
                    0 <= r + 1 <= 2 * k + 3,
            ;
            assert((2 * k + 1) * (2 * k + 1) == 4 * (k * (k + 1)) + 1) by (nonlinear_arith);
            assert((2 * k + 3) * (2 * k + 3) == 4 * (k * (k + 1)) + 8 * (k + 1) + 1) by (
            nonlinear_arith);
            lemma_triangular(k);
            lemma_triangular(h);
            if k >= h {
                lemma_triangular_monotonic(h, k);
                assert(false);
            }
            assert(triangle_low(k, qn as int) <= fm < triangle_low(k + 1, qn as int));
            law_angle_round_trip(k, fm as int, qn as int);
            lemma_triangle_ordered(k + 1, qn + 1, qn as int);
            law_triangle_intervals(k, qn as int);
            law_triangle_intervals(qn as int, qn as int);
            assert(k * (k + 1) <= 128 * 129) by (nonlinear_arith)
                requires
                    0 <= k <= 128,
            ;
        }
        let fl: i32 = i * (i + 1) / 2;
        (i, fl as u32, (fl + i + 1) as u32)
    } else {
        let gap: i32 = ft - slot - 1;
        let root: i32 = isqrt32((8 * gap + 1) as u32) as i32;
        proof {
            let r = root as int;
            let g = gap as int;
            assert(r >= 1) by (nonlinear_arith)
                requires
                    8 * g + 1 < (r + 1) * (r + 1),
                    g >= 0,
                    r >= 0,
            ;
            let k = (r + 1) / 2;
            assert(2 * k - 1 <= r <= 2 * k);
            assert((2 * k - 1) * (2 * k - 1) <= r * r) by (nonlinear_arith)
                requires
                    0 <= 2 * k - 1 <= r,
            ;
            assert((r + 1) * (r + 1) <= (2 * k + 1) * (2 * k + 1)) by (nonlinear_arith)
                requires
                    0 <= r + 1 <= 2 * k + 1,
            ;
            assert((2 * k - 1) * (2 * k - 1) == 4 * ((k - 1) * k) + 1) by (nonlinear_arith);
            assert((2 * k + 1) * (2 * k + 1) == 4 * (k * (k + 1)) + 1) by (nonlinear_arith);
            lemma_triangular(k - 1);
            lemma_triangular(k);
            lemma_triangular(h);
            lemma_triangular(h + 1);
            assert(triangular(k - 1) <= g < triangular(k));
            assert((h + 1) * (h + 1) == h * (h + 1) + (h + 1)) by (nonlinear_arith);
            assert(g < triangular(h + 1));
            if k > h + 1 {
                lemma_triangular_monotonic(h + 1, k - 1);
                assert(false);
            }
        }
        let i: i32 = qn + 1 - (root + 1) / 2;
        let fs: i32 = qn + 1 - i;
        proof {
            let k = fs as int;
            let q = qn as int;
            assert(1 <= k <= h + 1);
            if i == h {
                assert(triangle_low(i as int, q) == triangle_total(q) - triangular(k)) by {
                    assert((h + 1) * (h + 1) == h * (h + 1) + (h + 1)) by (nonlinear_arith);
                    lemma_triangular(h);
                }
            }
            law_triangle_intervals(i as int, q);
            assert(triangle_low(i as int, q) <= fm < triangle_low(i + 1, q));
            law_angle_round_trip(i as int, fm as int, q);
            lemma_triangle_ordered(i + 1, q + 1, q);
            law_triangle_intervals(q, q);
            assert(k * (k + 1) <= 129 * 130) by (nonlinear_arith)
                requires
                    0 <= k <= 129,
            ;
            lemma_triangle_ordered(0, i as int, q);
        }
        let fl: i32 = ft - fs * (fs + 1) / 2;
        (i, fl as u32, (fl + fs) as u32)
    }
}

/// Interval of an angle in the triangular distribution.
pub fn triangle_interval(i: i32, qn: i32) -> (interval: (u32, u32, u32))
    requires
        2 <= qn <= MAX_QN,
        qn % 2 == 0,
        0 <= i <= qn,
    ensures
        interval.0 == triangle_low(i as int, qn as int),
        interval.1 == triangle_low(i + 1, qn as int),
        interval.2 == triangle_total(qn as int),
        interval.0 < interval.1 <= interval.2 <= 16641,
{
    let half: i32 = qn / 2;
    proof {
        let q = qn as int;
        law_triangle_intervals(i as int, q);
        law_triangle_intervals(q, q);
        lemma_triangle_ordered(i + 1, q + 1, q);
        lemma_triangle_ordered(0, i as int, q);
        assert((half + 1) * (half + 1) <= 129 * 129) by (nonlinear_arith)
            requires
                1 <= half <= 128,
        ;
        assert(i * (i + 1) <= 256 * 257) by (nonlinear_arith)
            requires
                0 <= i <= 256,
        ;
        assert((qn + 1 - i) * (qn + 2 - i) <= 257 * 258) by (nonlinear_arith)
            requires
                0 <= qn + 1 - i <= 257,
        ;
    }
    let ft: i32 = (half + 1) * (half + 1);
    if i <= half {
        let fl: i32 = i * (i + 1) / 2;
        (fl as u32, (fl + i + 1) as u32, ft as u32)
    } else {
        let fs: i32 = qn + 1 - i;
        let fl: i32 = ft - fs * (fs + 1) / 2;
        (fl as u32, (fl + fs) as u32, ft as u32)
    }
}

/// Finds the angle whose step-shaped interval contains `fs`, and its interval.
pub fn step_search(fs: u32, qn: i32) -> (found: (i32, u32, u32))
    requires
        2 <= qn <= MAX_QN,
        qn % 2 == 0,
        fs < step_total(qn as int),
    ensures
        found.0 == step_angle(fs as int, qn as int),
        0 <= found.0 <= qn,
        found.1 == step_low(found.0 as int, qn as int),
        found.2 == step_low(found.0 + 1, qn as int),
        found.1 <= fs < found.2 <= step_total(qn as int),
{
    let x0: i32 = qn / 2;
    let slot: i32 = fs as i32;
    let i: i32 = if slot < 3 * (x0 + 1) { slot / 3 } else { x0 + 1 + (slot - 3 * (x0 + 1)) };
    proof {
        assert(step_low(i as int, qn as int) <= fs < step_low(i + 1, qn as int));
        law_angle_round_trip(i as int, fs as int, qn as int);
    }
    let (fl, fh, _) = step_interval(i, qn);
    (i, fl, fh)
}

/// Interval of an angle in the step-shaped distribution.
pub fn step_interval(i: i32, qn: i32) -> (interval: (u32, u32, u32))
    requires
        2 <= qn <= MAX_QN,
        qn % 2 == 0,
        0 <= i <= qn,
    ensures
        interval.0 == step_low(i as int, qn as int),
        interval.1 == step_low(i + 1, qn as int),
        interval.2 == step_total(qn as int),
        interval.0 < interval.1 <= interval.2 <= 515,
{
    let x0: i32 = qn / 2;
    let ft: i32 = 3 * (x0 + 1) + x0;
    if i <= x0 {
        ((3 * i) as u32, (3 * (i + 1)) as u32, ft as u32)
    } else {
        let base: i32 = 3 * (x0 + 1);
        ((base + (i - 1 - x0)) as u32, (base + (i - x0)) as u32, ft as u32)
    }
}

/// What the band coders share while they work on one band.
#[derive(Clone, Copy)]
pub struct BandCtx<'a> {
    pub mode: &'a OpusCustomMode,
    /// Band being coded.
    pub band: usize,
    /// First band coded with intensity stereo.
    pub intensity: usize,
    /// Spreading decision of the frame.
    pub spread: i32,
    /// Time-frequency change of the band.
    pub tf_change: i32,
    /// Bits left for this and the following bands, in 1/8 bits.
    pub remaining_bits: i32,
    /// State of the noise generator.
    pub seed: u32,
    /// Rounding direction of stereo angles; zero rounds to nearest.
    pub theta_round: i32,
    /// Whether channel inversion is disabled.
    pub disable_inv: bool,
    /// Whether splits that would starve one half are avoided.
    pub avoid_split_noise: bool,
    /// Whether coefficients are reconstructed.
    pub resynth: bool,
}

impl<'a> BandCtx<'a> {
    /// The band exists in the mode.
    pub open spec fn wf(self) -> bool {
        &&& self.band < self.mode.num_ebands
        &&& self.mode.log_n@.len() == self.mode.num_ebands
    }

    /// Pulse cap of the band at block size `lm`, in 1/8 bits.
    pub open spec fn pulse_cap(self, lm: int) -> int {
        self.mode.log_n@[self.band as int] + lm * 8
    }

    /// Resolution of the angle of a split.
    pub open spec fn resolution(self, n: int, b: int, lm: int, stereo: bool) -> int {
        let cap = self.pulse_cap(lm);
        let offset = cap / 2 - if stereo && n == 2 { 16int } else { 4 };
        if stereo && self.band >= self.intensity {
            1
        } else {
            angle_steps(n, b, offset, cap, stereo)
        }
    }

    /// Computes [`BandCtx::resolution`].
    pub(crate) fn angle_resolution(&self, n: usize, b: i32, lm: i32, stereo: bool) -> (qn: i32)
        requires
            self.wf(),
            1 <= n <= 0x7fff,
            -1 <= lm <= 3,
        ensures
            qn == self.resolution(n as int, b as int, lm as int, stereo),
            qn == 1 || (2 <= qn <= MAX_QN && qn % 2 == 0),
    {
        let cap: i32 = self.mode.log_n[self.band] as i32 + lm * 8;
        let offset: i32 = half_floor(cap) - if stereo && n == 2 {
            QTHETA_OFFSET_TWOPHASE
        } else {
            QTHETA_OFFSET
        };
        let qn: i32 = compute_qn(n as i32, b, offset, cap, stereo);
        if stereo && self.band >= self.intensity {
            1
        } else {
            qn
        }
    }
}

/// An angle of `i` steps out of `qn`, in Q14.
pub open spec fn angle_q14(i: int, qn: int) -> int {
    i * 16384 / qn
}

/// Angles for which the bit-exact trigonometry is defined.
pub open spec fn usable_angle(itheta: int) -> bool {
    itheta == 0 || 64 <= itheta <= 16320 || itheta == 16384
}

/// Every quantised angle is usable.
pub proof fn lemma_angle_range(i: int, qn: int)
    requires
        2 <= qn <= MAX_QN,
        0 <= i <= qn,
    ensures
        usable_angle(angle_q14(i, qn)),
        i == 0 ==> angle_q14(i, qn) == 0,
        i == qn ==> angle_q14(i, qn) == 16384,
        0 < i < qn ==> 64 <= angle_q14(i, qn) <= 16320,
{
    let q = angle_q14(i, qn);
    vstd::arithmetic::div_mod::lemma_fundamental_div_mod(i * 16384, qn);
    vstd::arithmetic::div_mod::lemma_mod_bound(i * 16384, qn);
    if i == 0 {
        vstd::arithmetic::div_mod::lemma_div_basics(qn);
    } else if i == qn {
        vstd::arithmetic::div_mod::lemma_div_by_multiple(16384, qn);
    } else {
        assert(q >= 64) by (nonlinear_arith)
            requires
                qn * q + qn > i * 16384,
                i >= 1,
                qn <= 256,
                qn >= 2,
        ;
        assert(q <= 16320) by (nonlinear_arith)
            requires
                qn * q <= i * 16384,
                i <= qn - 1,
                2 <= qn <= 256,
        ;
    }
}

/// Gains and allocation bias that follow from an angle.
pub open spec fn split_of(itheta: int, inv: bool, n: int, qalloc: i32) -> SplitCtx {
    if itheta == 0 {
        SplitCtx { inv, imid: 32767, iside: 0, delta: (-16384) as i32, itheta: 0, qalloc }
    } else if itheta == 16384 {
        SplitCtx { inv, imid: 0, iside: 32767, delta: 16384, itheta: 16384, qalloc }
    } else {
        let imid = cos_q15(itheta as i16);
        let iside = cos_q15((16384 - itheta) as i16);
        SplitCtx {
            inv,
            imid: imid as i32,
            iside: iside as i32,
            delta: frac_mul((n - 1) * 128, log2tan(iside as int, imid as int)) as i32,
            itheta: itheta as i32,
            qalloc,
        }
    }
}

/// Collapse mask that remains useful after a split.
pub open spec fn fill_after(itheta: int, blocks: int, fill: u32) -> u32 {
    if itheta == 0 {
        fill & low_mask(blocks)
    } else if itheta == 16384 {
        fill & if blocks <= 0 {
            0u32
        } else if blocks >= 32 {
            u32::MAX
        } else {
            low_mask(blocks) << (blocks as u32)
        }
    } else {
        fill
    }
}

/// Computes [`split_of`] and [`fill_after`].
fn finish_split(itheta: i32, inv: bool, n: usize, qalloc: i32, blocks: i32, fill: u32) -> (r: (
    SplitCtx,
    u32,
))
    requires
        usable_angle(itheta as int),
        1 <= n <= 0x7fff,
    ensures
        r.0 == split_of(itheta as int, inv, n as int, qalloc),
        r.1 == fill_after(itheta as int, blocks as int, fill),
{
    if itheta == 0 {
        (
            SplitCtx { inv, imid: 32767, iside: 0, delta: -16384, itheta: 0, qalloc },
            fill & mask_from_bits(blocks),
        )
    } else if itheta == 16384 {
        let shifted: u32 = if blocks <= 0 {
            0
        } else if blocks >= 32 {
            u32::MAX
        } else {
            mask_from_bits(blocks) << (blocks as u32)
        };
        (SplitCtx { inv, imid: 0, iside: 32767, delta: 16384, itheta: 16384, qalloc }, fill & shifted)
    } else {
        proof {
            lemma_cos_range(itheta as i16);
            lemma_cos_range((16384 - itheta) as i16);
        }
        let imid: i32 = bitexact_cos(itheta as i16) as i32;
        let iside: i32 = bitexact_cos((16384 - itheta) as i16) as i32;
        let delta: i32 = frac_mul16((n as i32 - 1) * 128, bitexact_log2tan(iside, imid));
        (SplitCtx { inv, imid, iside, delta, itheta, qalloc }, fill)
    }
}

/// Outcome of decoding a split.
pub struct ThetaDecoded<'a> {
    pub dec: EcDec<'a>,
    pub split: SplitCtx,
    /// Bits left for the band.
    pub b: i32,
    pub fill: u32,
}

/// Reads an angle of `qn` steps, or the inversion flag of an intensity band.
pub open spec fn angle_read<'a>(
    dec: EcDec<'a>,
    ctx: BandCtx<'_>,
    n: int,
    qn: int,
    b: int,
    b0: int,
    stereo: bool,
) -> (EcDec<'a>, int, bool) {
    if qn != 1 {
        if stereo && n > 2 {
            let ft = step_total(qn);
            let i = step_angle(dec.slot(ft), qn);
            let scaled = EcDec { ext: (dec.rng as int / ft) as u32, ..dec };
            (scaled.consumed(step_low(i, qn), step_low(i + 1, qn), ft), angle_q14(i, qn), false)
        } else if b0 > 1 || stereo {
            let (d, i) = dec.uint((qn + 1) as u32);
            (d, angle_q14(i as int, qn), false)
        } else {
            let ft = triangle_total(qn);
            let i = triangle_angle(dec.slot(ft), qn);
            let scaled = EcDec { ext: (dec.rng as int / ft) as u32, ..dec };
            (
                scaled.consumed(triangle_low(i, qn), triangle_low(i + 1, qn), ft),
                angle_q14(i, qn),
                false,
            )
        }
    } else if stereo && b > 16 && ctx.remaining_bits > 16 {
        let (d, bit) = dec.bit(2);
        (d, 0, bit && !ctx.disable_inv)
    } else {
        (dec, 0, false)
    }
}

/// Decodes the split of a band of `n` coefficients with `b` eighths of a bit.
#[verifier::opaque]
pub open spec fn theta_decoded<'a>(
    dec: EcDec<'a>,
    ctx: BandCtx<'_>,
    n: int,
    b: i32,
    blocks: int,
    b0: int,
    lm: int,
    stereo: bool,
    fill: u32,
) -> ThetaDecoded<'a> {
    let qn = ctx.resolution(n, b as int, lm, stereo);
    let (d, itheta, inv) = angle_read(dec, ctx, n, qn, b as int, b0, stereo);
    let qalloc = d.tell_eighths().wrapping_sub(dec.tell_eighths());
    ThetaDecoded {
        dec: d,
        split: split_of(itheta, inv, n, qalloc),
        b: b.wrapping_sub(qalloc),
        fill: fill_after(itheta, blocks, fill),
    }
}

/// Reads what [`angle_read`] describes.
#[verifier::spinoff_prover]
#[verifier::rlimit(40)]
fn read_angle(
    dec: &mut EcDec<'_>,
    ctx: &BandCtx<'_>,
    n: usize,
    qn: i32,
    b: i32,
    b0: i32,
    stereo: bool,
) -> (r: (i32, bool))
    requires
        old(dec).wf(),
        qn == 1 || (2 <= qn <= MAX_QN && qn % 2 == 0),
    ensures
        (*final(dec), r.0 as int, r.1) == angle_read(
            *old(dec),
            *ctx,
            n as int,
            qn as int,
            b as int,
            b0 as int,
            stereo,
        ),
        final(dec).wf(),
        final(dec).buf@ == old(dec).buf@,
        usable_angle(r.0 as int),
{
    if qn == 1 {
        if stereo && b > 16 && ctx.remaining_bits > 16 {
            let bit: bool = dec.dec_bit_logp(2);
            return (0, bit && !ctx.disable_inv);
        }
        return (0, false);
    }
    let i: i32 = if stereo && n > 2 {
        let ft: u32 = (3 * (qn / 2 + 1) + qn / 2) as u32;
        let fs: u32 = dec.decode(ft);
        let (i, fl, fh) = step_search(fs, qn);
        dec.update(fl, fh, ft);
        i
    } else if b0 > 1 || stereo {
        dec.dec_uint((qn + 1) as u32) as i32
    } else {
        let half: i32 = qn / 2;
        assert((half + 1) * (half + 1) <= 129 * 129 && (half + 1) * (half + 1) >= 1) by (
        nonlinear_arith)
            requires
                1 <= half <= 128,
        ;
        let ft: u32 = ((half + 1) * (half + 1)) as u32;
        let fm: u32 = dec.decode(ft);
        let (i, fl, fh) = triangle_search(fm, qn);
        dec.update(fl, fh, ft);
        i
    };
    proof {
        lemma_angle_range(i as int, qn as int);
    }
    (((i as u32) * 16384 / (qn as u32)) as i32, false)
}

/// Decodes the split of a band and accounts for its cost.
pub fn compute_theta_decode(
    dec: &mut EcDec<'_>,
    ctx: &BandCtx<'_>,
    n: usize,
    b: i32,
    blocks: i32,
    b0: i32,
    lm: i32,
    stereo: bool,
    fill: u32,
) -> (r: (SplitCtx, i32, u32))
    requires
        old(dec).wf(),
        ctx.wf(),
        1 <= n <= 0x7fff,
        -1 <= lm <= 3,
    ensures
        ({
            let t = theta_decoded(
                *old(dec),
                *ctx,
                n as int,
                b,
                blocks as int,
                b0 as int,
                lm as int,
                stereo,
                fill,
            );
            &&& *final(dec) == t.dec
            &&& r == (t.split, t.b, t.fill)
        }),
        final(dec).wf(),
        final(dec).buf@ == old(dec).buf@,
        usable_angle(r.0.itheta as int),
{
    proof {
        reveal(theta_decoded);
    }
    let qn: i32 = ctx.angle_resolution(n, b, lm, stereo);
    let before: i32 = dec.tell_frac();
    let (itheta, inv) = read_angle(dec, ctx, n, qn, b, b0, stereo);
    let qalloc: i32 = dec.tell_frac().wrapping_sub(before);
    let (split, kept) = finish_split(itheta, inv, n, qalloc, blocks, fill);
    (split, b.wrapping_sub(qalloc), kept)
}

/// Quantises an analysed angle to one of `qn` steps.
pub open spec fn quantised_angle(
    ctx: BandCtx<'_>,
    itheta: int,
    n: int,
    qn: int,
    b: int,
    stereo: bool,
) -> int {
    if !stereo || ctx.theta_round == 0 {
        let i = (itheta * qn + 8192) / 16384;
        if !stereo && ctx.avoid_split_noise && 0 < i < qn {
            let q = angle_q14(i, qn);
            let bias = frac_mul(
                (n - 1) * 128,
                log2tan(cos_q15((16384 - q) as i16) as int, cos_q15(q as i16) as int),
            );
            if bias > b {
                qn
            } else if bias < -b {
                0
            } else {
                i
            }
        } else {
            i
        }
    } else {
        let bias = if itheta > 8192 { 32767int / qn } else { -(32767int / qn) };
        let d = (itheta * qn + bias) / 16384;
        let down = if d < 0 {
            0
        } else if d > qn - 1 {
            qn - 1
        } else {
            d
        };
        if ctx.theta_round < 0 { down } else { down + 1 }
    }
}

/// Computes [`quantised_angle`].
fn quantise_angle(ctx: &BandCtx<'_>, itheta: i32, n: usize, qn: i32, b: i32, stereo: bool) -> (i:
    i32)
    requires
        0 <= itheta <= 16384,
        2 <= qn <= MAX_QN,
        1 <= n <= 0x7fff,
    ensures
        i == quantised_angle(*ctx, itheta as int, n as int, qn as int, b as int, stereo),
        0 <= i <= qn,
{
    assert(0 <= itheta * qn <= 16384 * qn) by (nonlinear_arith)
        requires
            0 <= itheta <= 16384,
            2 <= qn <= 256,
    ;
    if !stereo || ctx.theta_round == 0 {
        let i: i32 = (itheta * qn + 8192) / 16384;
        if !stereo && ctx.avoid_split_noise && i > 0 && i < qn {
            proof {
                lemma_angle_range(i as int, qn as int);
                lemma_cos_range(angle_q14(i as int, qn as int) as i16);
                lemma_cos_range((16384 - angle_q14(i as int, qn as int)) as i16);
            }
            let q: i32 = ((i as u32) * 16384 / (qn as u32)) as i32;
            let mid: i32 = bitexact_cos(q as i16) as i32;
            let side: i32 = bitexact_cos((16384 - q) as i16) as i32;
            let bias: i32 = frac_mul16((n as i32 - 1) * 128, bitexact_log2tan(side, mid));
            if bias > b {
                return qn;
            }
            if (bias as i64) < -(b as i64) {
                return 0;
            }
        }
        i
    } else {
        let step: i32 = 32767 / qn;
        let d: i32 = if itheta > 8192 {
            (itheta * qn + step) / 16384
        } else if itheta * qn >= step {
            (itheta * qn - step) / 16384
        } else {
            -1
        };
        let down: i32 = if d < 0 {
            0
        } else if d > qn - 1 {
            qn - 1
        } else {
            d
        };
        if ctx.theta_round < 0 {
            down
        } else {
            down + 1
        }
    }
}

/// Writes an angle of `qn` steps, or the inversion flag of an intensity band.
pub open spec fn angle_written(
    enc: EncState,
    ctx: BandCtx<'_>,
    itheta: int,
    n: int,
    qn: int,
    b: int,
    b0: int,
    stereo: bool,
) -> (EncState, int, bool) {
    if qn != 1 {
        let i = quantised_angle(ctx, itheta, n, qn, b, stereo);
        if stereo && n > 2 {
            (
                enc.coded(step_low(i, qn), step_low(i + 1, qn), step_total(qn)),
                angle_q14(i, qn),
                false,
            )
        } else if b0 > 1 || stereo {
            (enc.uint_coded(i as u32, (qn + 1) as u32), angle_q14(i, qn), false)
        } else {
            (
                enc.coded(triangle_low(i, qn), triangle_low(i + 1, qn), triangle_total(qn)),
                angle_q14(i, qn),
                false,
            )
        }
    } else if stereo {
        if b > 16 && ctx.remaining_bits > 16 {
            let inv = itheta > 8192 && !ctx.disable_inv;
            (enc.bit_coded(inv, 2), 0, inv)
        } else {
            (enc, 0, false)
        }
    } else {
        (enc, itheta, false)
    }
}

/// Outcome of encoding a split.
#[verifier::ext_equal]
pub struct ThetaEncoded {
    pub enc: EncState,
    pub split: SplitCtx,
    /// Bits left for the band.
    pub b: i32,
    pub fill: u32,
}

/// Encodes the split of a band of `n` coefficients with `b` eighths of a bit,
/// whose analysed angle is `itheta`.
#[verifier::opaque]
pub open spec fn theta_encoded(
    enc: EncState,
    ctx: BandCtx<'_>,
    itheta: int,
    n: int,
    b: i32,
    blocks: int,
    b0: int,
    lm: int,
    stereo: bool,
    fill: u32,
) -> ThetaEncoded {
    let qn = ctx.resolution(n, b as int, lm, stereo);
    let (e, angle, inv) = angle_written(enc, ctx, itheta, n, qn, b as int, b0, stereo);
    let qalloc = e.tell_eighths().wrapping_sub(enc.tell_eighths());
    ThetaEncoded {
        enc: e,
        split: split_of(angle, inv, n, qalloc),
        b: b.wrapping_sub(qalloc),
        fill: fill_after(angle, blocks, fill),
    }
}

/// More bits never take the angle away.
pub proof fn lemma_angle_kept(n: int, b: int, more: int, offset: int, cap: int, stereo: bool)
    requires
        n >= 1,
        b <= more,
        angle_steps(n, b, offset, cap, stereo) != 1,
    ensures
        angle_steps(n, more, offset, cap, stereo) != 1,
{
    let dof = split_dof(n, stereo);
    let p = b + dof * offset;
    let q = more + dof * offset;
    assert(dof >= 1);
    if p >= 0 {
        vstd::arithmetic::div_mod::lemma_div_is_ordered(p, q, dof);
    } else if q >= 0 {
        vstd::arithmetic::div_mod::lemma_div_pos_is_pos(q, dof);
        vstd::arithmetic::div_mod::lemma_div_pos_is_pos(-p, dof);
    } else {
        vstd::arithmetic::div_mod::lemma_div_is_ordered(-q, -p, dof);
    }
    let qb = angle_bits(n, more, offset, cap, stereo);
    assert(angle_bits(n, b, offset, cap, stereo) <= qb);
    lemma_steps_range(qb);
    assert(qb >= 4);
    assert(steps_for(qb) % 2 == 0);
}

/// Encodes the split of a band whose analysed angle is `itheta`.
///
/// The caller mixes the channels down when the returned angle is zero, and
/// rotates them into mid and side otherwise.
pub fn compute_theta(
    enc: &mut EcEnc,
    ctx: &BandCtx<'_>,
    itheta: i32,
    n: usize,
    b: i32,
    blocks: i32,
    b0: i32,
    lm: i32,
    stereo: bool,
    fill: u32,
) -> (r: (SplitCtx, i32, u32))
    requires
        old(enc)@.wf(),
        ctx.wf(),
        0 <= itheta <= 16384,
        1 <= n <= 0x7fff,
        -1 <= lm <= 3,
        stereo || usable_angle(itheta as int) || ctx.resolution(
            n as int,
            b as int,
            lm as int,
            stereo,
        ) != 1,
    ensures
        ({
            let t = theta_encoded(
                old(enc)@,
                *ctx,
                itheta as int,
                n as int,
                b,
                blocks as int,
                b0 as int,
                lm as int,
                stereo,
                fill,
            );
            &&& final(enc)@ == t.enc
            &&& r == (t.split, t.b, t.fill)
        }),
        final(enc)@.wf(),
        stereo ==> usable_angle(r.0.itheta as int),
{
    proof {
        reveal(theta_encoded);
    }
    let qn: i32 = ctx.angle_resolution(n, b, lm, stereo);
    let before: i32 = enc.tell_frac();
    let mut angle: i32 = itheta;
    let mut inv: bool = false;
    if qn != 1 {
        let i: i32 = quantise_angle(ctx, itheta, n, qn, b, stereo);
        if stereo && n > 2 {
            let (fl, fh, ft) = step_interval(i, qn);
            enc.encode(fl, fh, ft);
        } else if b0 > 1 || stereo {
            enc.enc_uint(i as u32, (qn + 1) as u32);
        } else {
            let (fl, fh, ft) = triangle_interval(i, qn);
            enc.encode(fl, fh, ft);
        }
        proof {
            lemma_angle_range(i as int, qn as int);
        }
        angle = ((i as u32) * 16384 / (qn as u32)) as i32;
    } else if stereo {
        if b > 16 && ctx.remaining_bits > 16 {
            inv = itheta > 8192 && !ctx.disable_inv;
            enc.enc_bit_logp(inv, 2);
        }
        angle = 0;
    }
    let qalloc: i32 = enc.tell_frac().wrapping_sub(before);
    let (split, kept) = finish_split(angle, inv, n, qalloc, blocks, fill);
    (split, b.wrapping_sub(qalloc), kept)
}

} // verus!
