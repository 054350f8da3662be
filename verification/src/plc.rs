//! Packet loss concealment by pitch extrapolation.

use vstd::arithmetic::power2::pow2;
use vstd::prelude::*;
use crate::decoder::{DECODE_BUFFER_SIZE, LPC_ORDER};
use crate::fixed::{mult16_16, mult16_16_q15, mult16_32_q15, pshr32, shl32, Q15_ONE};
use crate::math::{celt_sqrt, celt_zlog2, frac_div, frac_div32, sqrt_approx, zlog2};
use crate::spectrum::{abs32, write_at, written};

verus! {

/// Largest magnitude of a synthesised sample.
pub const SIG_SAT: i32 = 536870911;

/// A sample limited to [`SIG_SAT`].
#[verifier::allow_in_spec]
pub fn sig_clamped(v: i32) -> i32
    returns
        (if v > SIG_SAT {
            SIG_SAT
        } else if v < -SIG_SAT {
            (-SIG_SAT) as i32
        } else {
            v
        }),
{
    if v > SIG_SAT {
        SIG_SAT
    } else if v < -SIG_SAT {
        -SIG_SAT
    } else {
        v
    }
}

/// A word limited to sixteen bits.
#[verifier::allow_in_spec]
pub fn sat16(v: i32) -> i16
    returns
        (if v > 32767 {
            32767i16
        } else if v < -32768 {
            (-32768) as i16
        } else {
            v as i16
        }),
{
    if v > 32767 {
        32767
    } else if v < -32768 {
        -32768
    } else {
        v as i16
    }
}

/// A synthesised sample as a sixteen-bit word.
#[verifier::allow_in_spec]
pub fn sig2word16(v: i32) -> i16
    returns
        sat16(pshr32(v, 12)),
{
    sat16(pshr32(v, 12))
}

/// A sixteen-bit word as a synthesised sample.
#[verifier::allow_in_spec]
pub fn int16tosig(v: i16) -> i32
    returns
        shl32(v as i32, 12),
{
    shl32(v as i32, 12)
}

/// Largest magnitude of the elements from `at` on.
pub open spec fn maxabs16(x: Seq<i16>, at: int) -> int
    decreases x.len() - at,
{
    if at < 0 || at >= x.len() {
        0
    } else {
        let rest = maxabs16(x, at + 1);
        let v = abs32(x[at] as i32) as int;
        if v > rest {
            v
        } else {
            rest
        }
    }
}

/// Computes [`maxabs16`].
pub fn find_maxabs(x: &Vec<i16>, at: usize) -> (m: i32)
    requires
        at <= x@.len(),
    ensures
        m == maxabs16(x@, at as int),
        0 <= m <= 32768,
{
    let mut m: i32 = 0;
    let mut i: usize = x.len();
    while i > at
        invariant
            at <= i <= x@.len(),
            m == maxabs16(x@, i as int),
            0 <= m <= 32768,
        decreases i,
    {
        i = i - 1;
        let v: i32 = abs32(x[i] as i32);
        if v > m {
            m = v;
        }
    }
    m
}

/// One plus the sum of the scaled squares of `n` elements behind `at`.
pub open spec fn energy16(x: Seq<i16>, at: int, n: int, shift: u32) -> i32
    decreases n,
{
    if n <= 0 {
        1
    } else {
        energy16(x, at, n - 1, shift).wrapping_add(
            mult16_16(x[at + n - 1], x[at + n - 1]) >> shift,
        )
    }
}

/// Shift that keeps the energies of an excitation in range.
pub open spec fn energy_scale(exc: Seq<i16>, exc_length: int) -> int {
    let s = 2 * zlog2(maxabs16(exc, exc.len() - exc_length)) - 20;
    if s > 0 {
        s
    } else {
        0
    }
}

/// Energies of the last two halves of an excitation, the later one limited by
/// the earlier one, and the decay between them.
pub open spec fn decay_terms(exc: Seq<i16>, exc_length: int) -> (i32, i32, i16) {
    let n = exc.len() as int;
    let shift = energy_scale(exc, exc_length) as u32;
    let half = exc_length / 2;
    let later = energy16(exc, n - half, half, shift);
    let e2 = energy16(exc, n - 2 * half, half, shift);
    let e1 = if later < e2 { later } else { e2 };
    (e1, e2, sqrt_approx(frac_div(e1 >> 1u32, e2)) as i16)
}

/// Computes [`energy16`].
fn find_energy(x: &Vec<i16>, at: usize, n: usize, shift: u32) -> (e: i32)
    requires
        at + n <= x@.len(),
        shift < 32,
    ensures
        e == energy16(x@, at as int, n as int, shift),
{
    assert(x@.len() == x.len());
    let mut e: i32 = 1;
    for i in 0..n
        invariant
            at + n <= x@.len(),
            x@.len() == x.len(),
            shift < 32,
            e == energy16(x@, at as int, i as int, shift),
    {
        e = e.wrapping_add(mult16_16(x[at + i], x[at + i]) >> shift);
    }
    e
}

/// Sums of scaled squares of at most 512 elements do not overflow.
proof fn lemma_energy_positive(x: Seq<i16>, at: int, n: int, shift: u32)
    requires
        0 <= n <= 512,
        0 <= at,
        at + n <= x.len(),
        shift < 32,
        forall|i: int|
            at <= i < at + n ==> 0 <= #[trigger] (mult16_16(x[i], x[i]) >> shift) < 0x400000,
    ensures
        1 <= energy16(x, at, n, shift) <= 1 + n * 0x3fffff,
    decreases n,
{
    if n > 0 {
        lemma_energy_positive(x, at, n - 1, shift);
        let term = mult16_16(x[at + n - 1], x[at + n - 1]) >> shift;
        assert(0 <= term < 0x400000);
    }
}

/// Squares scaled for their peak have at most twenty-one bits.
proof fn lemma_scaled_square(v: i16, m: int, shift: u32)
    requires
        abs32(v as i32) <= m <= 32768,
        shift == (if 2 * zlog2(m) - 20 > 0 { 2 * zlog2(m) - 20 } else { 0 }),
    ensures
        0 <= (mult16_16(v, v) >> shift) < 0x400000,
        shift <= 10,
{
    vstd::arithmetic::power2::lemma2_to64();
    if m > 0 {
        crate::math::lemma_bit_length(m as nat);
        crate::math::lemma_bit_length_bound(m as nat, 16);
    }
    let z = zlog2(m);
    let sq = mult16_16(v, v);
    let a = abs32(v as i32) as int;
    assert(v * v == a * a) by (nonlinear_arith)
        requires
            a == v || a == -v,
    ;
    assert(0 <= a * a <= m * m) by (nonlinear_arith)
        requires
            0 <= a <= m,
    ;
    assert(m * m <= 0x40000000) by (nonlinear_arith)
        requires
            0 <= m <= 32768,
    ;
    let top = pow2((z + 1) as nat) as int;
    assert(m < top);
    assert(m * m <= (top - 1) * (top - 1)) by (nonlinear_arith)
        requires
            0 <= m <= top - 1,
    ;
    assert((top - 1) * (top - 1) < top * top) by (nonlinear_arith)
        requires
            top >= 1,
    ;
    vstd::arithmetic::power2::lemma_pow2_adds((z + 1) as nat, (z + 1) as nat);
    assert(sq < pow2((2 * z + 2) as nat));
    assert(sq >= 0);
    let u = sq as u32;
    vstd::bits::lemma_u32_shr_is_div(u, shift);
    assert(0 <= sq && shift < 32 ==> (sq >> shift) == ((sq as u32) >> shift) as i32 && ((sq as u32)
        >> shift) < 0x80000000) by (bit_vector);
    if 2 * z - 20 > 0 {
        vstd::arithmetic::power2::lemma_pow2_adds(shift as nat, 22);
        vstd::arithmetic::power2::lemma_pow2_pos(shift as nat);
        vstd::arithmetic::div_mod::lemma_multiply_divide_lt(
            u as int,
            pow2(shift as nat) as int,
            pow2(22) as int,
        );
    } else {
        if 2 * z + 2 < 22 {
            vstd::arithmetic::power2::lemma_pow2_strictly_increases((2 * z + 2) as nat, 22);
        }
    }
}

/// The peak of a sequence bounds its elements.
proof fn lemma_maxabs(x: Seq<i16>, at: int, i: int)
    requires
        0 <= at <= i < x.len(),
    ensures
        abs32(x[i] as i32) <= maxabs16(x, at) <= 32768,
    decreases i - at,
{
    lemma_maxabs_bound(x, at);
    if at < i {
        lemma_maxabs(x, at + 1, i);
    }
}

/// Peaks of sixteen-bit words.
proof fn lemma_maxabs_bound(x: Seq<i16>, at: int)
    requires
        0 <= at <= x.len(),
    ensures
        0 <= maxabs16(x, at) <= 32768,
    decreases x.len() - at,
{
    if at < x.len() {
        lemma_maxabs_bound(x, at + 1);
    }
}

/// The energies of an excitation are positive.
proof fn lemma_decay_positive(exc: Seq<i16>, exc_length: int)
    requires
        0 <= exc_length <= exc.len(),
        exc_length <= 1024,
    ensures
        decay_terms(exc, exc_length).0 >= 1,
        decay_terms(exc, exc_length).1 >= 1,
        0 <= energy_scale(exc, exc_length) <= 10,
{
    let from = exc.len() - exc_length;
    let m = maxabs16(exc, from);
    let shift = energy_scale(exc, exc_length) as u32;
    let half = exc_length / 2;
    lemma_maxabs_bound(exc, from);
    vstd::arithmetic::power2::lemma2_to64();
    if m > 0 {
        crate::math::lemma_bit_length(m as nat);
        crate::math::lemma_bit_length_bound(m as nat, 16);
    }
    assert forall|i: int| from <= i < exc.len() implies 0 <= #[trigger] (mult16_16(exc[i], exc[i])
        >> shift) < 0x400000 by {
        lemma_maxabs(exc, from, i);
        lemma_scaled_square(exc[i], m, shift);
    }
    lemma_energy_positive(exc, exc.len() - half, half, shift);
    lemma_energy_positive(exc, exc.len() - 2 * half, half, shift);
}

/// Computes [`decay_terms`].
pub fn plc_decay_terms(exc: &Vec<i16>, exc_length: usize) -> (r: (i32, i32, i16))
    requires
        exc_length <= exc@.len(),
        exc_length <= 1024,
    ensures
        r == decay_terms(exc@, exc_length as int),
{
    proof {
        lemma_decay_positive(exc@, exc_length as int);
    }
    let n: usize = exc.len();
    let peak: i32 = find_maxabs(exc, n - exc_length);
    let wide: i32 = 2 * celt_zlog2(peak) - 20;
    let shift: u32 = if wide > 0 { wide as u32 } else { 0 };
    let half: usize = exc_length / 2;
    let later: i32 = find_energy(exc, n - half, half, shift);
    let e2: i32 = find_energy(exc, n - 2 * half, half, shift);
    let e1: i32 = if later < e2 { later } else { e2 };
    (e1, e2, celt_sqrt(frac_div32(e1 >> 1u32, e2)) as i16)
}

/// Ratio of two energies as a gain.
pub open spec fn energy_ratio(s1: i32, s2: i32) -> i16 {
    sqrt_approx(frac_div((s1 >> 1u32).wrapping_add(1), s2.wrapping_add(1))) as i16
}

/// Sum of the scaled squares of the first `n` samples behind `at`.
pub open spec fn sig_energy(x: Seq<i32>, at: int, n: int) -> i32
    decreases n,
{
    if n <= 0 {
        0
    } else {
        let w = sig2word16(x[at + n - 1]);
        sig_energy(x, at, n - 1).wrapping_add(mult16_16(w, w) >> 10u32)
    }
}

/// Computes [`sig_energy`].
fn find_sig_energy(x: &Vec<i32>, at: usize, n: usize) -> (e: i32)
    requires
        at + n <= x@.len(),
    ensures
        e == sig_energy(x@, at as int, n as int),
{
    assert(x@.len() == x.len());
    let mut e: i32 = 0;
    for i in 0..n
        invariant
            at + n <= x@.len(),
            x@.len() == x.len(),
            e == sig_energy(x@, at as int, i as int),
    {
        let w: i16 = sig2word16(x[at + i]);
        e = e.wrapping_add(mult16_16(w, w) >> 10u32);
    }
    e
}

/// Computes [`energy_ratio`].
pub fn plc_ratio_from_energies(s1: i32, s2: i32) -> (ratio: i16)
    requires
        0 <= s2 < i32::MAX,
    ensures
        ratio == energy_ratio(s1, s2),
{
    celt_sqrt(frac_div32((s1 >> 1u32).wrapping_add(1), s2.wrapping_add(1))) as i16
}

/// Energies of two windows of samples and the gain from the second to the first.
pub fn plc_ratio_terms(old_sig: &Vec<i32>, new_sig: &Vec<i32>) -> (r: (i32, i32, i16))
    requires
        old_sig@.len() == new_sig@.len(),
        0 <= sig_energy(new_sig@, 0, new_sig@.len() as int) < i32::MAX,
    ensures
        r.0 == sig_energy(old_sig@, 0, old_sig@.len() as int),
        r.1 == sig_energy(new_sig@, 0, new_sig@.len() as int),
        r.2 == energy_ratio(r.0, r.1),
{
    let s1: i32 = find_sig_energy(old_sig, 0, old_sig.len());
    let s2: i32 = find_sig_energy(new_sig, 0, new_sig.len());
    (s1, s2, plc_ratio_from_energies(s1, s2))
}

/// Sum of the magnitudes of the coefficients from `at` on.
pub open spec fn magnitude_sum(lpc: Seq<i16>, at: int) -> int
    decreases lpc.len() - at,
{
    if at < 0 || at >= lpc.len() {
        0
    } else {
        abs32(lpc[at] as i32) + magnitude_sum(lpc, at + 1)
    }
}

/// Coefficients from `at` on, each scaled by a further power of 0.99.
pub open spec fn chirped(lpc: Seq<i16>, factor: i16, at: int) -> Seq<i16>
    decreases lpc.len() - at,
{
    if at < 0 || at >= lpc.len() {
        lpc
    } else {
        let f = mult16_16_q15(32440, factor);
        chirped(lpc.update(at, mult16_16_q15(lpc[at], f)), f, at + 1)
    }
}

/// The filter stays stable with sixteen-bit arithmetic.
pub open spec fn iir_safe(lpc: Seq<i16>) -> bool {
    4096 + magnitude_sum(lpc, 0) < 65535
}

/// Coefficients chirped until the filter is safe.
pub open spec fn bandwidth_expanded(lpc: Seq<i16>) -> Seq<i16>
    decreases magnitude_sum(lpc, 0),
    when lpc.len() <= 24
{
    if iir_safe(lpc) {
        lpc
    } else {
        proof {
            lemma_chirp_shrinks(lpc, Q15_ONE, 0);
        }
        bandwidth_expanded(chirped(lpc, Q15_ONE, 0))
    }
}

/// A Q15 product with a factor below one, as a floor.
proof fn lemma_scaled_down(c: i16, f: i16)
    requires
        0 <= f,
    ensures
        32768 * mult16_16_q15(c, f) <= c * f < 32768 * mult16_16_q15(c, f) + 32768,
{
    let p = mult16_16(c, f);
    assert(-32768 * 32767 <= c * f <= 32768 * 32767) by (nonlinear_arith)
        requires
            -32768 <= c <= 32767,
            0 <= f <= 32767,
    ;
    assert(-0x40000000 <= p <= 0x40000000 && p < 0x40000000 ==> {
        &&& 32768 * (p >> 15u32) <= p
        &&& p < 32768 * (p >> 15u32) + 32768
        &&& ((p >> 15u32) as i16) == (p >> 15u32)
    }) by (bit_vector);
}

/// Chirping shrinks the coefficients.
pub proof fn lemma_chirp_shrinks(lpc: Seq<i16>, factor: i16, at: int)
    requires
        0 <= at <= lpc.len() <= 24,
        0 <= factor,
    ensures
        chirped(lpc, factor, at).len() == lpc.len(),
        forall|k: int| 0 <= k < at ==> #[trigger] chirped(lpc, factor, at)[k] == lpc[k],
        0 <= magnitude_sum(chirped(lpc, factor, at), at),
        32768 * magnitude_sum(chirped(lpc, factor, at), at) <= 32440 * magnitude_sum(lpc, at)
            + 32768 * (lpc.len() - at),
        at == 0 && !iir_safe(lpc) ==> magnitude_sum(chirped(lpc, factor, 0), 0) < magnitude_sum(
            lpc,
            0,
        ),
    decreases lpc.len() - at,
{
    if at < lpc.len() {
        let f = mult16_16_q15(32440, factor);
        let c = lpc[at];
        let d = mult16_16_q15(c, f);
        lemma_scaled_down(32440, factor);
        lemma_scaled_down(c, f);
        assert(0 <= f <= 32440);
        let next = lpc.update(at, d);
        lemma_chirp_shrinks(next, f, at + 1);
        lemma_sum_behind(next, lpc, at + 1);
        let done = chirped(next, f, at + 1);
        assert(done[at] == d);
        assert(c * f <= 32440 * c || c <= 0) by (nonlinear_arith)
            requires
                0 <= f <= 32440,
        ;
        assert(c * f >= 32440 * c || c >= 0) by (nonlinear_arith)
            requires
                0 <= f <= 32440,
        ;
        assert(c >= 0 ==> c * f >= 0) by (nonlinear_arith)
            requires
                0 <= f,
        ;
        assert(c <= 0 ==> c * f <= 0) by (nonlinear_arith)
            requires
                0 <= f,
        ;
        assert(32768 * abs32(d as i32) <= 32440 * abs32(c as i32) + 32768);
    }
}

/// Sums from `at` on depend on the elements from there on only.
proof fn lemma_sum_behind(a: Seq<i16>, b: Seq<i16>, at: int)
    requires
        a.len() == b.len(),
        0 <= at,
        forall|k: int| at <= k < a.len() ==> a[k] == b[k],
    ensures
        magnitude_sum(a, at) == magnitude_sum(b, at),
    decreases a.len() - at,
{
    if at < a.len() {
        lemma_sum_behind(a, b, at + 1);
    }
}

/// Computes [`magnitude_sum`] of all coefficients.
fn sum_magnitudes(lpc: &Vec<i16>) -> (sum: i32)
    requires
        lpc@.len() <= 24,
    ensures
        sum == magnitude_sum(lpc@, 0),
        0 <= sum <= 24 * 32768,
{
    let mut sum: i32 = 0;
    let mut i: usize = lpc.len();
    while i > 0
        invariant
            i <= lpc@.len() <= 24,
            sum == magnitude_sum(lpc@, i as int),
            0 <= sum <= (lpc@.len() - i) * 32768,
        decreases i,
    {
        i = i - 1;
        sum = sum + abs32(lpc[i] as i32);
    }
    sum
}

/// Computes [`bandwidth_expanded`].
pub fn plc_bandwidth_expand_for_iir(lpc: &mut Vec<i16>)
    requires
        old(lpc)@.len() <= 24,
    ensures
        final(lpc)@ == bandwidth_expanded(old(lpc)@),
        final(lpc)@.len() == old(lpc)@.len(),
        iir_safe(final(lpc)@),
{
    let ghost lpc0 = lpc@;
    let mut sum: i32 = sum_magnitudes(lpc);
    while 4096 + sum >= 65535
        invariant
            lpc@.len() == lpc0.len(),
            lpc0.len() <= 24,
            sum == magnitude_sum(lpc@, 0),
            0 <= sum <= 24 * 32768,
            bandwidth_expanded(lpc@) == bandwidth_expanded(lpc0),
        decreases sum,
    {
        let ghost now = lpc@;
        proof {
            lemma_chirp_shrinks(now, Q15_ONE, 0);
        }
        let mut factor: i16 = Q15_ONE;
        let mut i: usize = 0;
        let n: usize = lpc.len();
        while i < n
            invariant
                n == lpc@.len(),
                i <= n <= 24,
                n == now.len(),
                chirped(lpc@, factor, i as int) == chirped(now, Q15_ONE, 0),
            decreases n - i,
        {
            factor = mult16_16_q15(32440, factor);
            let c: i16 = mult16_16_q15(lpc[i], factor);
            lpc.set(i, c);
            i = i + 1;
        }
        sum = sum_magnitudes(lpc);
    }
}

/// Prediction error of the element at `i`: itself and `n` taps, in Q12.
pub open spec fn fir_sum(x: Seq<i16>, lpc: Seq<i16>, i: int, n: int) -> i32
    decreases n,
{
    if n <= 0 {
        shl32(x[i] as i32, 12)
    } else {
        fir_sum(x, lpc, i, n - 1).wrapping_add(mult16_16(lpc[n - 1], x[i - n]))
    }
}

/// A Q12 sum rounded to sixteen bits.
#[verifier::allow_in_spec]
pub fn round12(sum: i32) -> i16
    returns
        sat16(pshr32(sum, 12)),
{
    sat16(pshr32(sum, 12))
}

/// Prediction errors of `n` elements behind `at`.
pub open spec fn fir(x: Seq<i16>, lpc: Seq<i16>, at: int, n: int) -> Seq<i16> {
    Seq::new(n as nat, |i: int| round12(fir_sum(x, lpc, at + i, lpc.len() as int)))
}

/// Computes [`fir`].
pub fn celt_fir(x: &Vec<i16>, lpc: &Vec<i16>, at: usize, n: usize) -> (y: Vec<i16>)
    requires
        lpc@.len() <= at,
        at + n <= x@.len(),
    ensures
        y@ == fir(x@, lpc@, at as int, n as int),
        y@.len() == n,
{
    assert(x@.len() == x.len());
    let order: usize = lpc.len();
    let mut y: Vec<i16> = Vec::new();
    for i in 0..n
        invariant
            order == lpc@.len(),
            order <= at,
            at + n <= x@.len(),
            x@.len() == x.len(),
            y@.len() == i,
            forall|k: int|
                0 <= k < i ==> #[trigger] y@[k] == round12(
                    fir_sum(x@, lpc@, at + k, lpc@.len() as int),
                ),
    {
        let mut sum: i32 = shl32(x[at + i] as i32, 12);
        for j in 0..order
            invariant
                order == lpc@.len(),
                order <= at,
                i < n,
                at + n <= x@.len(),
                x@.len() == x.len(),
                sum == fir_sum(x@, lpc@, at + i, j as int),
        {
            sum = sum.wrapping_add(mult16_16(lpc[j], x[at + i - (j + 1)]));
        }
        y.push(round12(sum));
    }
    assert(y@ =~= fir(x@, lpc@, at as int, n as int));
    y
}

/// Input minus the prediction from the last outputs, with `n` taps, in Q12.
pub open spec fn iir_sum(v: i32, lpc: Seq<i16>, mem: Seq<i16>, n: int) -> i32
    decreases n,
{
    if n <= 0 {
        v
    } else {
        iir_sum(v, lpc, mem, n - 1).wrapping_sub(mult16_16(lpc[n - 1], mem[n - 1]))
    }
}

/// The last outputs after one more, latest first.
pub open spec fn pushed(mem: Seq<i16>, v: i16) -> Seq<i16> {
    Seq::new(mem.len(), |k: int| if k == 0 { v } else { mem[k - 1] })
}

/// Samples from `i` on replaced by the outputs of the recursive filter.
pub open spec fn iir(x: Seq<i32>, lpc: Seq<i16>, mem: Seq<i16>, i: int) -> Seq<i32>
    decreases x.len() - i,
{
    if i < 0 || i >= x.len() {
        x
    } else {
        let sum = iir_sum(x[i], lpc, mem, lpc.len() as int);
        iir(x.update(i, sum), lpc, pushed(mem, round12(sum)), i + 1)
    }
}

/// Computes [`iir`] in place.
pub fn celt_iir(x: &mut Vec<i32>, lpc: &Vec<i16>, mem0: Vec<i16>)
    requires
        mem0@.len() == lpc@.len(),
    ensures
        final(x)@ == iir(old(x)@, lpc@, mem0@, 0),
        final(x)@.len() == old(x)@.len(),
{
    let order: usize = lpc.len();
    let n: usize = x.len();
    let mut mem: Vec<i16> = mem0;
    let mut i: usize = 0;
    while i < n
        invariant
            n == x@.len(),
            n == old(x)@.len(),
            i <= n,
            order == lpc@.len(),
            mem@.len() == order,
            iir(x@, lpc@, mem@, i as int) == iir(old(x)@, lpc@, mem0@, 0),
        decreases n - i,
    {
        let mut sum: i32 = x[i];
        let ghost v = sum;
        for j in 0..order
            invariant
                order == lpc@.len(),
                mem@.len() == order,
                sum == iir_sum(v, lpc@, mem@, j as int),
        {
            sum = sum.wrapping_sub(mult16_16(lpc[j], mem[j]));
        }
        let ghost before = mem@;
        let mut k: usize = order;
        while k > 1
            invariant
                mem@.len() == order,
                before.len() == order,
                k <= order,
                forall|j: int| 0 <= j < order && j < k ==> #[trigger] mem@[j] == before[j],
                forall|j: int| k <= j < order && j > 0 ==> #[trigger] mem@[j] == before[j - 1],
            decreases k,
        {
            let moved: i16 = mem[k - 2];
            mem.set(k - 1, moved);
            k = k - 1;
        }
        if order > 0 {
            mem.set(0, round12(sum));
        }
        assert(mem@ =~= pushed(before, round12(sum)));
        x.set(i, sum);
        i = i + 1;
    }
}

/// Parameters of an extrapolation.
pub struct Extrapolation {
    /// Samples of the frame.
    pub n: int,
    pub overlap: int,
    /// Pitch lag.
    pub pitch: int,
    /// Gain of the first period, in Q15.
    pub fade: i16,
}

impl Extrapolation {
    /// What extrapolation relies on.
    pub open spec fn wf(self) -> bool {
        &&& 1 <= self.pitch <= 1024
        &&& 0 <= self.n
        &&& self.n + self.pitch <= 2048
        &&& self.n + 24 <= 2048
        &&& 0 <= self.overlap
        &&& self.n + self.overlap <= 2047
    }

    /// Samples of excitation that are analysed.
    pub open spec fn exc_length(self) -> int {
        if 2 * self.pitch < 1024 {
            2 * self.pitch
        } else {
            1024
        }
    }

    /// First sample of the frame.
    pub open spec fn start(self) -> int {
        DECODE_BUFFER_SIZE - self.n
    }

    /// The last samples of the history as words.
    pub open spec fn history(self, mem: Seq<i32>) -> Seq<i16> {
        Seq::new(1048, |i: int| sig2word16(mem[1000 + i]))
    }

    /// The history with its end replaced by the prediction errors.
    pub open spec fn excitation(self, mem: Seq<i32>, lpc: Seq<i16>) -> Seq<i16> {
        let h = self.history(mem);
        let at = 1048 - self.exc_length();
        written(h, at, fir(h, lpc, at, self.exc_length()))
    }

    /// Decay of the excitation from one period to the next.
    pub open spec fn decay(self, mem: Seq<i32>, lpc: Seq<i16>) -> i16 {
        decay_terms(self.excitation(mem, lpc).subrange(24, 1048), self.exc_length()).2
    }

    /// Gain of the period that sample `i` lies in.
    pub open spec fn attenuation(self, decay: i16, i: int) -> i16
        decreases i,
    {
        if i < self.pitch || self.pitch <= 0 {
            mult16_16_q15(self.fade, decay)
        } else {
            mult16_16_q15(self.attenuation(decay, i - self.pitch), decay)
        }
    }

    /// The excitation continued over the frame and the overlap.
    pub open spec fn continued(self, mem: Seq<i32>, lpc: Seq<i16>) -> Seq<i32> {
        let exc = self.excitation(mem, lpc);
        let decay = self.decay(mem, lpc);
        Seq::new(
            (self.n + self.overlap) as nat,
            |i: int|
                int16tosig(
                    mult16_16_q15(
                        self.attenuation(decay, i),
                        exc[1048 - self.pitch + i % self.pitch],
                    ),
                ),
        )
    }

    /// Energy of the last period, repeated over `k` samples.
    pub open spec fn reference_energy(self, mem: Seq<i32>, k: int) -> i32
        decreases k,
    {
        if k <= 0 {
            0
        } else {
            let w = sig2word16(mem[2048 - self.pitch + (k - 1) % self.pitch]);
            self.reference_energy(mem, k - 1).wrapping_add(mult16_16(w, w) >> 10u32)
        }
    }

    /// The last samples of the history, latest first.
    pub open spec fn filter_memory(self, mem: Seq<i32>) -> Seq<i16> {
        Seq::new(24, |k: int| sig2word16(mem[2047 - k]))
    }

    /// The frame before its energy is checked.
    pub open spec fn filtered(self, mem: Seq<i32>, lpc: Seq<i16>) -> Seq<i32> {
        let y = iir(self.continued(mem, lpc), lpc, self.filter_memory(mem), 0);
        Seq::new(y.len(), |i: int| sig_clamped(y[i]))
    }

    /// The frame scaled so that it is not louder than the last period: cleared
    /// when it is much louder, faded down over the overlap otherwise.
    pub open spec fn tamed(self, y: Seq<i32>, s1: i32, s2: i32, window: Seq<i16>) -> Seq<i32> {
        if s1 <= (s2 >> 2u32) {
            Seq::new(y.len(), |i: int| 0i32)
        } else if s1 < s2 {
            let ratio = energy_ratio(s1, s2);
            Seq::new(
                y.len(),
                |i: int|
                    if i < self.overlap {
                        mult16_32_q15(
                            Q15_ONE.wrapping_sub(
                                mult16_16_q15(window[i], Q15_ONE.wrapping_sub(ratio)),
                            ),
                            y[i],
                        )
                    } else {
                        mult16_32_q15(ratio, y[i])
                    },
            )
        } else {
            y
        }
    }

    /// The history moved up by a frame, with the extrapolated frame behind it.
    pub open spec fn extrapolated(self, mem: Seq<i32>, lpc: Seq<i16>, window: Seq<i16>) -> Seq<i32> {
        let y = self.filtered(mem, lpc);
        let s1 = self.reference_energy(mem, self.n + self.overlap);
        let s2 = sig_energy(y, 0, y.len() as int);
        let out = self.tamed(y, s1, s2, window);
        Seq::new(
            mem.len(),
            |i: int|
                if i < self.start() {
                    mem[i + self.n]
                } else {
                    out[i - self.start()]
                },
        )
    }
}

/// Energies of up to 2047 samples do not overflow.
proof fn lemma_sig_energy(x: Seq<i32>, at: int, n: int)
    requires
        0 <= at,
        0 <= n <= 2047,
        at + n <= x.len(),
    ensures
        0 <= sig_energy(x, at, n) <= n * 0x100000,
    decreases n,
{
    if n > 0 {
        lemma_sig_energy(x, at, n - 1);
        lemma_word_square(sig2word16(x[at + n - 1]));
    }
}

/// Squares of words, scaled down by ten bits.
proof fn lemma_word_square(w: i16)
    ensures
        0 <= (mult16_16(w, w) >> 10u32) <= 0x100000,
{
    let p = mult16_16(w, w);
    assert(0 <= w * w <= 0x40000000) by (nonlinear_arith)
        requires
            -32768 <= w <= 32767,
    ;
    assert(0 <= p <= 0x40000000 ==> 0 <= (p >> 10u32) <= 0x100000) by (bit_vector);
}

/// Continues the excitation; the last argument is the decay.
fn continue_excitation(
    exc: &Vec<i16>,
    n: usize,
    overlap: usize,
    pitch: usize,
    fade: i16,
    decay: i16,
    Ghost(e): Ghost<Extrapolation>,
) -> (y: Vec<i32>)
    requires
        e.wf(),
        e.n == n,
        e.overlap == overlap,
        e.pitch == pitch,
        e.fade == fade,
        exc@.len() == 1048,
    ensures
        y@ == Seq::new(
            (n + overlap) as nat,
            |i: int|
                int16tosig(
                    mult16_16_q15(e.attenuation(decay, i), exc@[1048 - pitch + i % (pitch as int)]),
                ),
        ),
{
    let total: usize = n + overlap;
    let mut y: Vec<i32> = Vec::new();
    let mut attenuation: i16 = mult16_16_q15(fade, decay);
    let mut j: usize = 0;
    let mut base: usize = 0;
    let mut i: usize = 0;
    while i < total
        invariant
            e.wf(),
            e.pitch == pitch,
            e.fade == fade,
            exc@.len() == 1048,
            total == n + overlap,
            i <= total <= 2047,
            i == base + j,
            j <= pitch,
            base as int % pitch as int == 0,
            1 <= pitch <= 1024,
            attenuation == e.attenuation(decay, base as int),
            y@.len() == i,
            forall|k: int|
                0 <= k < i ==> #[trigger] y@[k] == int16tosig(
                    mult16_16_q15(e.attenuation(decay, k), exc@[1048 - pitch + k % (pitch as int)]),
                ),
        decreases total - i,
    {
        if j >= pitch {
            j = 0;
            base = i;
            proof {
                vstd::arithmetic::div_mod::lemma_mod_add_multiples_vanish(
                    (base - pitch) as int,
                    pitch as int,
                );
            }
            attenuation = mult16_16_q15(attenuation, decay);
        }
        proof {
            lemma_period(e, decay, base as int, j as int);
        }
        let sample: i16 = mult16_16_q15(attenuation, exc[1048 - pitch + j]);
        y.push(int16tosig(sample));
        j = j + 1;
        i = i + 1;
    }
    assert(y@ =~= Seq::new(
        (n + overlap) as nat,
        |i: int|
            int16tosig(
                mult16_16_q15(e.attenuation(decay, i), exc@[1048 - pitch + i % (pitch as int)]),
            ),
    ));
    y
}

/// All samples of a period have the same gain.
proof fn lemma_period(e: Extrapolation, decay: i16, base: int, j: int)
    requires
        e.pitch >= 1,
        0 <= base,
        base % e.pitch == 0,
        0 <= j < e.pitch,
    ensures
        (base + j) % e.pitch == j,
        e.attenuation(decay, base + j) == e.attenuation(decay, base),
    decreases base,
{
    let p = e.pitch;
    vstd::arithmetic::div_mod::lemma_fundamental_div_mod(base, p);
    vstd::arithmetic::mul::lemma_mul_is_commutative(p, base / p);
    vstd::arithmetic::div_mod::lemma_fundamental_div_mod_converse(base + j, p, base / p, j);
    if base > 0 {
        assert(base >= p) by {
            if base < p {
                vstd::arithmetic::div_mod::lemma_small_mod(base as nat, p as nat);
            }
        }
        vstd::arithmetic::div_mod::lemma_mod_sub_multiples_vanish(base, p);
        lemma_period(e, decay, base - p, j);
    }
}

/// Computes [`Extrapolation::reference_energy`] over the frame and the overlap.
fn find_reference_energy(
    mem: &Vec<i32>,
    total: usize,
    pitch: usize,
    Ghost(e): Ghost<Extrapolation>,
) -> (s1: i32)
    requires
        e.wf(),
        e.pitch == pitch,
        mem@.len() >= 2048,
        total <= 2047,
    ensures
        s1 == e.reference_energy(mem@, total as int),
{
    let mut s1: i32 = 0;
    for k in 0..total
        invariant
            e.wf(),
            e.pitch == pitch,
            1 <= pitch <= 1024,
            mem@.len() >= 2048,
            s1 == e.reference_energy(mem@, k as int),
    {
        let w: i16 = sig2word16(mem[2048 - pitch + k % pitch]);
        s1 = s1.wrapping_add(mult16_16(w, w) >> 10u32);
    }
    s1
}

/// Computes [`Extrapolation::tamed`] in place.
fn tame(
    y: &mut Vec<i32>,
    s1: i32,
    s2: i32,
    overlap: usize,
    window: &Vec<i16>,
    Ghost(e): Ghost<Extrapolation>,
)
    requires
        e.overlap == overlap,
        overlap <= window@.len(),
        0 <= s2 < i32::MAX,
    ensures
        final(y)@ == e.tamed(old(y)@, s1, s2, window@),
        final(y)@.len() == old(y)@.len(),
{
    let ghost y0 = y@;
    let n: usize = y.len();
    let quiet: bool = s1 <= (s2 >> 2u32);
    if !quiet && s1 >= s2 {
        return;
    }
    let ratio: i16 = if quiet { 0 } else { plc_ratio_from_energies(s1, s2) };
    let ghost goal = e.tamed(y0, s1, s2, window@);
    for i in 0..n
        invariant
            n == y@.len(),
            n == y0.len(),
            e.overlap == overlap,
            overlap <= window@.len(),
            quiet == (s1 <= (s2 >> 2u32)),
            quiet || s1 < s2,
            !quiet ==> ratio == energy_ratio(s1, s2),
            goal == e.tamed(y0, s1, s2, window@),
            forall|k: int| 0 <= k < i ==> #[trigger] y@[k] == goal[k],
            forall|k: int| i <= k < n ==> #[trigger] y@[k] == y0[k],
    {
        let v: i32 = if quiet {
            0
        } else if i < overlap {
            let gain: i16 = Q15_ONE.wrapping_sub(
                mult16_16_q15(window[i], Q15_ONE.wrapping_sub(ratio)),
            );
            mult16_32_q15(gain, y[i])
        } else {
            mult16_32_q15(ratio, y[i])
        };
        y.set(i, v);
    }
    assert(y@ =~= goal);
}

/// Extrapolates one channel by a frame: the excitation of the last pitch period
/// is continued with the measured decay, filtered again and kept from growing
/// louder than the history.
#[verifier::rlimit(40)]
pub fn extrapolate_channel(
    mem: &mut Vec<i32>,
    n: usize,
    overlap: usize,
    pitch: usize,
    fade: i16,
    lpc: &Vec<i16>,
    window: &Vec<i16>,
)
    requires
        (Extrapolation { n: n as int, overlap: overlap as int, pitch: pitch as int, fade }).wf(),
        old(mem)@.len() == DECODE_BUFFER_SIZE + overlap,
        lpc@.len() == LPC_ORDER,
        overlap <= window@.len(),
    ensures
        final(mem)@ == (Extrapolation {
            n: n as int,
            overlap: overlap as int,
            pitch: pitch as int,
            fade,
        }).extrapolated(old(mem)@, lpc@, window@),
        final(mem)@.len() == old(mem)@.len(),
{
    let ghost e = Extrapolation {
        n: n as int,
        overlap: overlap as int,
        pitch: pitch as int,
        fade,
    };
    let ghost mem0 = mem@;
    let exc_length: usize = if 2 * pitch < 1024 { 2 * pitch } else { 1024 };
    let mut exc: Vec<i16> = Vec::new();
    for i in 0..1048
        invariant
            mem@ == mem0,
            mem0.len() == DECODE_BUFFER_SIZE + overlap,
            exc@.len() == i,
            forall|k: int| 0 <= k < i ==> #[trigger] exc@[k] == sig2word16(mem0[1000 + k]),
    {
        exc.push(sig2word16(mem[1000 + i]));
    }
    assert(exc@ =~= e.history(mem0));
    let at: usize = 1048 - exc_length;
    let errors: Vec<i16> = celt_fir(&exc, lpc, at, exc_length);
    write_at(&mut exc, at, &errors);
    assert(exc@ == e.excitation(mem0, lpc@));
    let mut recent: Vec<i16> = Vec::new();
    for i in 24..1048
        invariant
            exc@.len() == 1048,
            recent@.len() == i - 24,
            forall|k: int| 0 <= k < i - 24 ==> #[trigger] recent@[k] == exc@[24 + k],
    {
        recent.push(exc[i]);
    }
    assert(recent@ =~= exc@.subrange(24, 1048));
    let (_e1, _e2, decay) = plc_decay_terms(&recent, exc_length);
    assert(decay == e.decay(mem0, lpc@));
    let total: usize = n + overlap;
    let s1: i32 = find_reference_energy(mem, total, pitch, Ghost(e));
    let mut y: Vec<i32> = continue_excitation(
        &exc,
        n,
        overlap,
        pitch,
        fade,
        decay,
        Ghost(e),
    );
    assert(y@ =~= e.continued(mem0, lpc@));
    let mut last: Vec<i16> = Vec::new();
    for k in 0..24
        invariant
            mem@ == mem0,
            mem0.len() == DECODE_BUFFER_SIZE + overlap,
            last@.len() == k,
            forall|j: int| 0 <= j < k ==> #[trigger] last@[j] == sig2word16(mem0[2047 - j]),
    {
        last.push(sig2word16(mem[2047 - k]));
    }
    assert(last@ =~= e.filter_memory(mem0));
    celt_iir(&mut y, lpc, last);
    let ghost raw = y@;
    for i in 0..total
        invariant
            total == y@.len(),
            total == raw.len(),
            forall|k: int| 0 <= k < i ==> #[trigger] y@[k] == sig_clamped(raw[k]),
            forall|k: int| i <= k < total ==> #[trigger] y@[k] == raw[k],
    {
        let v: i32 = sig_clamped(y[i]);
        y.set(i, v);
    }
    assert(y@ =~= e.filtered(mem0, lpc@));
    let s2: i32 = find_sig_energy(&y, 0, total);
    proof {
        lemma_sig_energy(y@, 0, total as int);
    }
    tame(&mut y, s1, s2, overlap, window, Ghost(e));
    let start: usize = DECODE_BUFFER_SIZE - n;
    let ghost out = y@;
    let ghost goal = e.extrapolated(mem0, lpc@, window@);
    for i in 0..start
        invariant
            start == DECODE_BUFFER_SIZE - n,
            start + n <= mem0.len(),
            mem@.len() == mem0.len(),
            forall|k: int| 0 <= k < i ==> #[trigger] mem@[k] == mem0[k + n],
            forall|k: int| i <= k < mem0.len() ==> #[trigger] mem@[k] == mem0[k],
    {
        let v: i32 = mem[i + n];
        mem.set(i, v);
    }
    write_at(mem, start, &y);
    assert(mem@ =~= goal);
}

} // verus!
