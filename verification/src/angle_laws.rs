//! What a coded split keeps of the angle that was measured.

use vstd::arithmetic::power2::{lemma2_to64, lemma_pow2_adds, lemma_pow2_pos, pow2};
use vstd::prelude::*;
use crate::bands::{
    cos_q15, frac_mul, law_cosine_falls, law_cosine_stays_positive, log2tan, low_mask, mantissa,
    mantissa_log,
};
use crate::math::{bit_length, lemma_bit_length, lemma_bit_length_bound};
use crate::range_encoder::EncState;
use crate::theta::{
    angle_bits, angle_q14, angle_steps, exp2_eighth, fill_after, lemma_angle_range, split_dof,
    split_of, steps_for, theta_encoded, quantised_angle, BandCtx, MAX_QN,
};

verus! {

/// The step whose angle is nearest to a measured one.
proof fn lemma_nearest(itheta: int, qn: int, i: int)
    requires
        0 <= itheta <= 16384,
        2 <= qn <= MAX_QN,
        -8192 <= 16384 * i - itheta * qn <= 8192,
    ensures
        0 <= i <= qn,
        -8192 - qn < qn * (angle_q14(i, qn) - itheta) <= 8192,
        itheta == 0 ==> i == 0,
        itheta == 16384 ==> i == qn,
{
    assert(0 <= itheta * qn <= 16384 * qn) by (nonlinear_arith)
        requires
            0 <= itheta <= 16384,
            2 <= qn,
    ;
    let a = angle_q14(i, qn);
    vstd::arithmetic::div_mod::lemma_fundamental_div_mod(i * 16384, qn);
    vstd::arithmetic::div_mod::lemma_mod_bound(i * 16384, qn);
    assert(qn * (a - itheta) == qn * a - itheta * qn) by (nonlinear_arith);
    if itheta == 0 {
        assert(itheta * qn == 0) by (nonlinear_arith)
            requires
                itheta == 0,
        ;
    }
    if itheta == 16384 {
        assert(itheta * qn == 16384 * qn) by (nonlinear_arith)
            requires
                itheta == 16384,
        ;
    }
}

/// Whether an angle is coded as the nearest step: no rounding is forced, and splits
/// that would starve one half are not avoided.
pub open spec fn coded_freely(ctx: BandCtx<'_>, stereo: bool) -> bool {
    if stereo {
        ctx.theta_round == 0
    } else {
        !ctx.avoid_split_noise
    }
}

/// The coded angle is the nearest that the resolution `qn` has: it is off by half a
/// step at most, up to the rounding to Q14, so that a band without a second part
/// stays one and a band without a first part stays one.
pub proof fn law_coded_angle_is_nearest(
    ctx: BandCtx<'_>,
    itheta: int,
    n: int,
    qn: int,
    b: int,
    stereo: bool,
)
    requires
        0 <= itheta <= 16384,
        2 <= qn <= MAX_QN,
        coded_freely(ctx, stereo),
    ensures
        ({
            let i = quantised_angle(ctx, itheta, n, qn, b, stereo);
            &&& 0 <= i <= qn
            &&& -8192 - qn < qn * (angle_q14(i, qn) - itheta) <= 8192
            &&& itheta == 0 ==> i == 0
            &&& itheta == 16384 ==> i == qn
        }),
{
    let i = quantised_angle(ctx, itheta, n, qn, b, stereo);
    lemma_nearest(itheta, qn, i);
}

/// Two angles are never coded in the opposite order.
pub proof fn law_coded_angles_keep_their_order(
    ctx: BandCtx<'_>,
    a: int,
    c: int,
    n: int,
    qn: int,
    b: int,
    stereo: bool,
)
    requires
        0 <= a <= c <= 16384,
        2 <= qn <= MAX_QN,
        stereo || !ctx.avoid_split_noise,
    ensures
        quantised_angle(ctx, a, n, qn, b, stereo) <= quantised_angle(ctx, c, n, qn, b, stereo),
{
    assert(a * qn <= c * qn) by (nonlinear_arith)
        requires
            a <= c,
            2 <= qn,
    ;
    vstd::arithmetic::div_mod::lemma_div_pos_is_pos(32767, qn);
}

/// A forced rounding picks one of the two steps around the measured angle, which is
/// biased away from the middle first, and the two directions are one step apart.
pub proof fn law_forced_rounding_picks_a_neighbour(
    down: BandCtx<'_>,
    up: BandCtx<'_>,
    itheta: int,
    n: int,
    qn: int,
    b: int,
)
    requires
        0 <= itheta <= 16384,
        2 <= qn <= MAX_QN,
        down.theta_round < 0,
        up.theta_round > 0,
    ensures
        ({
            let i = quantised_angle(down, itheta, n, qn, b, true);
            let j = quantised_angle(up, itheta, n, qn, b, true);
            let bias = 32767int / qn;
            &&& 0 <= i
            &&& j == i + 1
            &&& j <= qn
            &&& 16384 * i <= itheta * qn + bias
            &&& itheta * qn - bias <= 16384 * j
            &&& itheta > 8192 && j < qn ==> 16384 * i <= itheta * qn + bias < 16384 * j
            &&& itheta <= 8192 && i > 0 ==> 16384 * i <= itheta * qn - bias < 16384 * j
        }),
{
    assert(0 <= itheta * qn <= 16384 * qn) by (nonlinear_arith)
        requires
            0 <= itheta <= 16384,
            2 <= qn,
    ;
    if itheta <= 8192 {
        assert(itheta * qn <= 8192 * qn) by (nonlinear_arith)
            requires
                itheta <= 8192,
                2 <= qn,
        ;
    }
    vstd::arithmetic::div_mod::lemma_div_pos_is_pos(32767, qn);
}

/// Bounds of the logarithm of a mantissa: less than one octave apart.
proof fn lemma_mantissa_log(m: int)
    requires
        16384 <= m <= 32767,
    ensures
        3316 <= mantissa_log(m) <= 5336,
{
    assert((m as i32 as i16) as int == m);
    assert(((-2597int) as i32 as i16) as int == -2597);
    assert(m * -2597 == -2597 * m) by (nonlinear_arith);
    let inner = (16384 - 2597 * m) / 32768;
    assert(frac_mul(m, -2597) == inner);
    let c = inner + 7932;
    assert(5335 <= c <= 6634);
    assert((c as i32 as i16) as int == c);
    assert(mantissa_log(m) == (16384 + m * c) / 32768);
    assert(32768 * c <= 259932160 - 2597 * m);
    assert(32768 * c >= 259899392 - 2597 * m);
    assert(m * (32768 * c) <= m * (259932160 - 2597 * m)) by (nonlinear_arith)
        requires
            32768 * c <= 259932160 - 2597 * m,
            m >= 0,
    ;
    assert(m * (32768 * c) >= m * (259899392 - 2597 * m)) by (nonlinear_arith)
        requires
            32768 * c >= 259899392 - 2597 * m,
            m >= 0,
    ;
    assert(m * (32768 * c) == 32768 * (m * c)) by (nonlinear_arith);
    assert(m * (259932160 - 2597 * m) <= 32767 * (259932160 - 2597 * 32767)) by (nonlinear_arith)
        requires
            16384 <= m <= 32767,
    ;
    assert(m * (259899392 - 2597 * m) >= 16384 * (259899392 - 2597 * 16384)) by (nonlinear_arith)
        requires
            16384 <= m <= 32767,
    ;
}

/// The mantissa of a positive magnitude has its highest bit set.
proof fn lemma_mantissa_high(x: int)
    requires
        1 <= x <= 32767,
    ensures
        1 <= bit_length(x as nat) <= 15,
        16384 <= mantissa(x) <= 32767,
{
    lemma2_to64();
    lemma_bit_length_bound(x as nat, 15);
    lemma_bit_length(x as nat);
    let l = bit_length(x as nat);
    let s = (15 - l) as nat;
    lemma_pow2_adds(l, s);
    lemma_pow2_adds((l - 1) as nat, s);
    lemma_pow2_pos(s);
    let p = pow2(s) as int;
    let q = pow2(l) as int;
    let h = pow2((l - 1) as nat) as int;
    assert(h * p <= x * p < q * p) by (nonlinear_arith)
        requires
            h <= x < q,
            p > 0,
    ;
}

/// The logarithm of a tangent changes its sign when sine and cosine are exchanged,
/// and a sine of half the cosine or less has a negative one.
pub proof fn law_log_of_tangent(isin: int, icos: int)
    requires
        1 <= isin <= 32767,
        1 <= icos <= 32767,
    ensures
        log2tan(isin, icos) == -log2tan(icos, isin),
        -32768 < log2tan(isin, icos) < 32768,
        2 * isin <= icos ==> log2tan(isin, icos) < 0,
{
    lemma_mantissa_high(isin);
    lemma_mantissa_high(icos);
    lemma_mantissa_log(mantissa(isin));
    lemma_mantissa_log(mantissa(icos));
    if 2 * isin <= icos {
        lemma2_to64();
        lemma_bit_length(isin as nat);
        lemma_bit_length(icos as nat);
        let a = bit_length(isin as nat);
        let c = bit_length(icos as nat);
        if a >= c {
            vstd::arithmetic::power2::lemma_pow2_unfold(a);
            if a > c {
                vstd::arithmetic::power2::lemma_pow2_strictly_increases(c, a);
            }
        }
    }
}

/// The cosine never rises between the angles of splits.
proof fn lemma_cosine_order(x: i16, y: i16)
    requires
        64 <= x <= y <= 16320,
    ensures
        cos_q15(x) >= cos_q15(y),
    decreases y - x,
{
    if x < y {
        law_cosine_falls(x);
        lemma_cosine_order((x + 1) as i16, y);
    }
}

/// The gains of a split: turned the other way round, the parts of a split change
/// places and the bias of the allocation changes its sign, up to rounding. Where the
/// angle grows the first part gets weaker and the second one stronger; they are the
/// same in the middle. A part that is less than half as strong as the other one
/// never gets more bits than it.
pub proof fn law_split_gains(itheta: int, inv: bool, n: int, qalloc: i32)
    requires
        itheta == 0 || 64 <= itheta <= 16320 || itheta == 16384,
        1 <= n <= 256,
    ensures
        ({
            let s = split_of(itheta, inv, n, qalloc);
            let t = split_of(16384 - itheta, inv, n, qalloc);
            &&& s.inv == inv
            &&& s.itheta == itheta
            &&& s.qalloc == qalloc
            &&& t.imid == s.iside
            &&& t.iside == s.imid
            &&& 0 <= s.delta + t.delta <= 1
            &&& 0 <= s.imid <= 32767
            &&& itheta <= 8192 ==> s.imid >= s.iside
            &&& itheta >= 8192 ==> s.imid <= s.iside
            &&& 2 * s.iside <= s.imid ==> s.delta <= 0
            &&& 2 * s.imid <= s.iside ==> s.delta >= 0
            &&& itheta == 0 ==> s.iside == 0 && s.imid == 32767 && s.delta < 0
        }),
{
    if 64 <= itheta <= 16320 {
        let x = itheta as i16;
        let y = (16384 - itheta) as i16;
        law_cosine_stays_positive(x);
        law_cosine_stays_positive(y);
        let c = cos_q15(x) as int;
        let d = cos_q15(y) as int;
        law_log_of_tangent(c, d);
        law_log_of_tangent(d, c);
        let a = (n - 1) * 128;
        assert((a as i32 as i16) as int == a);
        let l = log2tan(d, c);
        assert((l as i32 as i16) as int == l);
        assert(((-l) as i32 as i16) as int == -l);
        assert(a * (-l) == -(a * l)) by (nonlinear_arith);
        if l <= 0 {
            assert(a * l <= 0) by (nonlinear_arith)
                requires
                    a >= 0,
                    l <= 0,
            ;
        } else {
            assert(a * l >= 0) by (nonlinear_arith)
                requires
                    a >= 0,
                    l >= 0,
            ;
        }
        assert(-32640 * 32768 <= a * l <= 32640 * 32768) by (nonlinear_arith)
            requires
                0 <= a <= 32640,
                -32768 <= l <= 32768,
        ;
        if itheta <= 8192 {
            lemma_cosine_order(x, y);
        }
        if itheta >= 8192 {
            lemma_cosine_order(y, x);
        }
    }
}

/// Splits that would starve one half may be given up, but only towards the stronger
/// half: all other angles are coded as the nearest step.
pub proof fn law_starving_splits_go_to_the_stronger_half(
    ctx: BandCtx<'_>,
    itheta: int,
    n: int,
    qn: int,
    b: int,
)
    requires
        0 <= itheta <= 16384,
        2 <= qn <= MAX_QN,
        1 <= n <= 256,
        0 <= b,
    ensures
        ({
            let i = quantised_angle(ctx, itheta, n, qn, b, false);
            let near = quantised_angle(
                BandCtx { avoid_split_noise: false, ..ctx },
                itheta,
                n,
                qn,
                b,
                false,
            );
            let s = split_of(angle_q14(near, qn), false, n, 0);
            &&& i == near || i == 0 || i == qn
            &&& i == 0 ==> near == 0 || 2 * s.imid > s.iside
            &&& i == qn ==> near == qn || 2 * s.iside > s.imid
            &&& -b <= s.delta <= b ==> i == near
        }),
{
    let near = quantised_angle(
        BandCtx { avoid_split_noise: false, ..ctx },
        itheta,
        n,
        qn,
        b,
        false,
    );
    lemma_nearest(itheta, qn, near);
    lemma_angle_range(near, qn);
    let q = angle_q14(near, qn);
    law_split_gains(q, false, n, 0);
    if 0 < near < qn {
        let x = q as i16;
        let y = (16384 - q) as i16;
        law_cosine_stays_positive(x);
        law_cosine_stays_positive(y);
        law_log_of_tangent(cos_q15(y) as int, cos_q15(x) as int);
        let a = (n - 1) * 128;
        assert((a as i32 as i16) as int == a);
        let l = log2tan(cos_q15(y) as int, cos_q15(x) as int);
        assert((l as i32 as i16) as int == l);
        assert(-32640 * 32768 <= a * l <= 32640 * 32768) by (nonlinear_arith)
            requires
                0 <= a <= 32640,
                -32768 <= l <= 32768,
        ;
    }
}

/// The split that an encoder goes on with has the angle that was measured, up to the
/// resolution that the bits of the band pay for; what the angle costs is taken from
/// the bits of the band. Without an angle a stereo band is coded as one signal, which
/// is inverted in the second channel only where the measured angle lies beyond the
/// middle and inversion is not disabled.
pub proof fn law_split_follows_the_measured_angle(
    enc: EncState,
    ctx: BandCtx<'_>,
    itheta: int,
    n: int,
    b: i32,
    blocks: int,
    b0: int,
    lm: int,
    stereo: bool,
    fill: u32,
)
    requires
        0 <= itheta <= 16384,
        1 <= n <= 256,
    ensures
        ({
            let t = theta_encoded(enc, ctx, itheta, n, b, blocks, b0, lm, stereo, fill);
            let qn = ctx.resolution(n, b as int, lm, stereo);
            &&& t.split.qalloc == t.enc.tell_eighths().wrapping_sub(enc.tell_eighths())
            &&& t.b == b.wrapping_sub(t.split.qalloc)
            &&& 2 <= qn <= MAX_QN && coded_freely(ctx, stereo) ==> {
                &&& -8192 - qn < qn * (t.split.itheta - itheta) <= 8192
                &&& itheta == 0 ==> t.split.imid == 32767 && t.split.iside == 0
                &&& itheta == 16384 ==> t.split.imid == 0 && t.split.iside == 32767
            }
            &&& 2 <= qn <= MAX_QN ==> !t.split.inv
            &&& qn == 1 && stereo ==> {
                &&& t.split.itheta == 0
                &&& t.split.inv ==> itheta > 8192 && !ctx.disable_inv
                &&& b > 16 && ctx.remaining_bits > 16 && itheta > 8192 && !ctx.disable_inv
                    ==> t.split.inv
            }
        }),
{
    reveal(theta_encoded);
    let qn = ctx.resolution(n, b as int, lm, stereo);
    if 2 <= qn <= MAX_QN {
        let i = quantised_angle(ctx, itheta, n, qn, b as int, stereo);
        if coded_freely(ctx, stereo) {
            law_coded_angle_is_nearest(ctx, itheta, n, qn, b as int, stereo);
            lemma_angle_range(i, qn);
        }
    }
}

/// One more eighth of a bit never makes the resolution coarser.
proof fn lemma_steps_step(q: int)
    requires
        0 <= q < 64,
    ensures
        steps_for(q) <= steps_for(q + 1),
{
    lemma2_to64();
    let k = q / 8;
    let e = exp2_eighth(q % 8);
    let f = exp2_eighth((q + 1) % 8);
    let d = pow2((14 - k) as nat) as int;
    lemma_pow2_pos((14 - k) as nat);
    if q >= 4 {
        if q % 8 < 7 {
            assert((q + 1) / 8 == k && e <= f);
            vstd::arithmetic::div_mod::lemma_div_is_ordered(e, f, d);
        } else {
            let h = pow2((13 - k) as nat) as int;
            assert((q + 1) / 8 == k + 1);
            vstd::arithmetic::power2::lemma_pow2_unfold((14 - k) as nat);
            lemma_pow2_pos((13 - k) as nat);
            vstd::arithmetic::div_mod::lemma_div_is_ordered(e, 32768, d);
            vstd::arithmetic::div_mod::lemma_div_denominator(32768, 2, h);
            assert(32768int / 2 == 16384);
        }
    } else if q == 3 {
        crate::theta::lemma_steps_range(4);
    }
}

/// More eighths of a bit never make the resolution coarser.
proof fn lemma_steps_order(p: int, q: int)
    requires
        0 <= p <= q <= 64,
    ensures
        steps_for(p) <= steps_for(q),
    decreases q - p,
{
    if p < q {
        lemma_steps_order(p, q - 1);
        lemma_steps_step(q - 1);
    }
}

/// More bits never make an angle coarser.
pub proof fn law_more_bits_make_finer_angles(
    n: int,
    b: int,
    more: int,
    offset: int,
    cap: int,
    stereo: bool,
)
    requires
        n >= 1,
        b <= more,
    ensures
        1 <= angle_steps(n, b, offset, cap, stereo) <= angle_steps(n, more, offset, cap, stereo)
            <= MAX_QN,
{
    let dof = split_dof(n, stereo);
    let p = b + dof * offset;
    let q = more + dof * offset;
    assert(dof >= 1);
    if p >= 0 {
        vstd::arithmetic::div_mod::lemma_div_is_ordered(p, q, dof);
    } else if q >= 0 {
        vstd::arithmetic::div_mod::lemma_div_pos_is_pos(q, dof);
        vstd::arithmetic::div_mod::lemma_div_pos_is_pos(-p, dof);
    } else {
        vstd::arithmetic::div_mod::lemma_div_is_ordered(-q, -p, dof);
    }
    let x = angle_bits(n, b, offset, cap, stereo);
    let y = angle_bits(n, more, offset, cap, stereo);
    assert(x <= y <= 64);
    crate::theta::lemma_steps_range(x);
    crate::theta::lemma_steps_range(y);
    if x >= 0 {
        lemma_steps_order(x, y);
    }
}

/// A split keeps the blocks of the parts that are left: the first part has the
/// `blocks` lowest flags, the second part the `blocks` flags above them.
pub proof fn law_fill_follows_the_split(itheta: int, blocks: u32, fill: u32)
    requires
        1 <= blocks <= 16,
    ensures
        ({
            let unit = 1u32 << blocks;
            let kept = fill_after(itheta, blocks as int, fill);
            &&& itheta == 0 ==> kept == fill % unit
            &&& itheta == 16384 ==> kept == ((fill >> blocks) % unit) << blocks
            &&& 0 < itheta < 16384 ==> kept == fill
        }),
{
    lemma_low_flags(fill, blocks);
    lemma_low_flags(fill >> blocks, blocks);
    let m = low_mask(blocks as int);
    assert(1 <= blocks <= 16 ==> (fill & (m << blocks)) == ((fill >> blocks) & m) << blocks)
        by (bit_vector);
}

/// The lowest flags are a remainder.
proof fn lemma_low_flags(fill: u32, blocks: u32)
    requires
        1 <= blocks <= 16,
    ensures
        (fill & low_mask(blocks as int)) == fill % (1u32 << blocks),
{
    lemma2_to64();
    let k = blocks as nat;
    vstd::arithmetic::power2::lemma_pow2_strictly_increases(k, 17);
    lemma_pow2_pos(k);
    vstd::bits::lemma_u32_shl_is_mul(1, blocks);
    vstd::bits::lemma_u32_low_bits_mask_is_mod(fill, k);
    assert(low_mask(blocks as int) == vstd::bits::low_bits_mask(k));
}

} // verus!
