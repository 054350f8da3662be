//! Linear prediction: autocorrelation and predictor coefficients.

use vstd::prelude::*;
use crate::fixed::{
    extract16, mult16_16, mult16_16_q15, mult16_32_q15, mult32_32, mult32_32_q31, pshr32, shl32,
};
use crate::math::{
    bit_length, celt_zlog2, ec_ilog, frac_div, frac_div32, zlog2,
};
use crate::mdct::positive;
use crate::spectrum::abs32;

verus! {

/// A signal faded in and out over `overlap` samples.
pub open spec fn windowed(x: Seq<i16>, window: Seq<i16>, overlap: int) -> Seq<i16> {
    let n = x.len() as int;
    Seq::new(
        x.len(),
        |k: int|
            if k < overlap {
                mult16_16_q15(x[k], window[k])
            } else if k >= n - overlap {
                mult16_16_q15(x[k], window[n - 1 - k])
            } else {
                x[k]
            },
    )
}

/// Computes [`windowed`].
fn apply_window(x: &Vec<i16>, window: &Vec<i16>, overlap: usize) -> (y: Vec<i16>)
    requires
        overlap <= window@.len(),
        2 * overlap <= x@.len(),
    ensures
        y@ == windowed(x@, window@, overlap as int),
{
    let n: usize = x.len();
    let mut y: Vec<i16> = Vec::new();
    for k in 0..n
        invariant
            n == x@.len(),
            overlap <= window@.len(),
            2 * overlap <= n,
            y@.len() == k,
            forall|i: int|
                0 <= i < k ==> #[trigger] y@[i] == windowed(x@, window@, overlap as int)[i],
    {
        let v: i16 = if k < overlap {
            mult16_16_q15(x[k], window[k])
        } else if k >= n - overlap {
            mult16_16_q15(x[k], window[n - 1 - k])
        } else {
            x[k]
        };
        y.push(v);
    }
    assert(y@ =~= windowed(x@, window@, overlap as int));
    y
}

/// Bits by which a signal of `n` samples is scaled down while its energy is
/// estimated.
pub open spec fn energy_bits(n: int) -> int {
    zlog2(n + n / 16)
}

/// Estimate of the energy of the first `n` samples.
pub open spec fn energy_estimate(x: Seq<i16>, bits: int, n: int) -> i32
    decreases n,
{
    if n <= 0 {
        (1 + x.len() * 128) as i32
    } else {
        energy_estimate(x, bits, n - 1).wrapping_add(mult16_16(x[n - 1], x[n - 1]) >> (bits as u32))
    }
}

/// Bits by which a signal is scaled down so that its correlations fit a word.
pub open spec fn signal_bits(x: Seq<i16>) -> int {
    let bits = energy_bits(x.len() as int);
    let e = energy_estimate(x, bits, x.len() as int);
    positive(zlog2(e.wrapping_add(e >> 7u32) as int) - 30 + bits + 1) / 2
}

/// A signal scaled down.
pub open spec fn signal_scaled(x: Seq<i16>, bits: int) -> Seq<i16> {
    Seq::new(x.len(), |k: int| extract16(pshr32(x[k] as i32, bits as u32)))
}

/// Scales a signal down by [`signal_bits`], which are returned.
fn scale_signal(x: &mut Vec<i16>) -> (bits: u32)
    requires
        1 <= old(x)@.len() <= 2048,
    ensures
        bits == signal_bits(old(x)@),
        final(x)@ == signal_scaled(old(x)@, bits as int),
        bits <= 16,
{
    let ghost x0 = x@;
    let n: usize = x.len();
    let s: i32 = celt_zlog2((n + n / 16) as i32);
    let mut e: i32 = (1 + n * 128) as i32;
    for i in 0..n
        invariant
            n == x@.len(),
            x@ == x0,
            s == energy_bits(n as int),
            0 <= s <= 30,
            e == energy_estimate(x0, s as int, i as int),
    {
        e = e.wrapping_add(mult16_16(x[i], x[i]) >> (s as u32));
    }
    let excess: i32 = celt_zlog2(e.wrapping_add(e >> 7u32)) - 30 + s + 1;
    let bits: u32 = if excess > 0 { (excess / 2) as u32 } else { 0 };
    for k in 0..n
        invariant
            n == x@.len(),
            x@.len() == x0.len(),
            bits < 32,
            forall|i: int|
                0 <= i < n ==> #[trigger] x@[i] == (if i < k {
                    signal_scaled(x0, bits as int)[i]
                } else {
                    x0[i]
                }),
    {
        let v: i16 = extract16(pshr32(x[k] as i32, bits));
        x.set(k, v);
    }
    assert(x@ =~= signal_scaled(x0, bits as int));
    bits
}

/// Correlation of the first `n` samples with those `lag` in front of them.
pub open spec fn correlation(x: Seq<i16>, lag: int, n: int) -> i32
    decreases n - lag,
{
    if n <= lag {
        0
    } else {
        correlation(x, lag, n - 1).wrapping_add(mult16_16(x[n - 1], x[n - 1 - lag]))
    }
}

/// Computes [`correlation`] over all samples.
fn correlate(x: &Vec<i16>, lag: usize) -> (sum: i32)
    requires
        lag <= x@.len(),
    ensures
        sum == correlation(x@, lag as int, x@.len() as int),
{
    let n: usize = x.len();
    let mut sum: i32 = 0;
    for i in lag..n
        invariant
            n == x@.len(),
            lag <= n,
            sum == correlation(x@, lag as int, i as int),
    {
        sum = sum.wrapping_add(mult16_16(x[i], x[i - lag]));
    }
    sum
}

/// Correlations brought to a first one of about 29 bits.
pub open spec fn levelled(ac: Seq<i32>) -> Seq<i32> {
    if ac[0] < 268435456 {
        let s = positive(29 - bit_length((ac[0] as u32) as nat));
        Seq::new(ac.len(), |k: int| shl32(ac[k], s as u32))
    } else if ac[0] >= 1073741824 {
        Seq::new(ac.len(), |k: int| ac[k] >> 2u32)
    } else if ac[0] >= 536870912 {
        Seq::new(ac.len(), |k: int| ac[k] >> 1u32)
    } else {
        ac
    }
}

/// Computes [`levelled`].
fn level(ac: &mut Vec<i32>)
    requires
        old(ac)@.len() >= 1,
    ensures
        final(ac)@ == levelled(old(ac)@),
        final(ac)@.len() == old(ac)@.len(),
{
    let ghost ac0 = ac@;
    let first: i32 = ac[0];
    let left: u32;
    let right: u32;
    if first < 268435456 {
        let bits: u32 = ec_ilog(first as u32);
        left = if bits < 29 { 29 - bits } else { 0 };
        right = 0;
    } else {
        left = 0;
        right = if first >= 1073741824 {
            2
        } else if first >= 536870912 {
            1
        } else {
            0
        };
    }
    let n: usize = ac.len();
    for k in 0..n
        invariant
            n == ac@.len(),
            ac@.len() == ac0.len(),
            n >= 1,
            left < 32,
            right <= 2,
            first == ac0[0],
            first < 268435456 ==> left == positive(29 - bit_length((first as u32) as nat)),
            first >= 1073741824 ==> right == 2,
            536870912 <= first < 1073741824 ==> right == 1,
            268435456 <= first < 536870912 ==> right == 0,
            forall|i: int|
                0 <= i < n ==> #[trigger] ac@[i] == (if i < k { levelled(ac0)[i] } else { ac0[i] }),
    {
        let v: i32 = ac[k];
        if first < 268435456 {
            ac.set(k, shl32(v, left));
        } else if right == 2 {
            ac.set(k, v >> 2u32);
        } else if right == 1 {
            ac.set(k, v >> 1u32);
        }
    }
    assert(ac@ =~= levelled(ac0));
}

/// Scaled autocorrelation of a signal for the lags up to `lag`.
pub open spec fn autocorrelated(x: Seq<i16>, window: Seq<i16>, overlap: int, lag: int) -> Seq<i32> {
    let w = windowed(x, window, overlap);
    let bits = signal_bits(w);
    let y = signal_scaled(w, bits);
    levelled(
        Seq::new(
            (lag + 1) as nat,
            |k: int|
                if k == 0 && bits == 0 {
                    correlation(y, 0, y.len() as int).wrapping_add(1)
                } else {
                    correlation(y, k, y.len() as int)
                },
        ),
    )
}

/// Computes [`autocorrelated`].
pub fn celt_autocorr(x: &Vec<i16>, window: &Vec<i16>, overlap: usize, lag: usize) -> (ac: Vec<i32>)
    requires
        1 <= x@.len() <= 2048,
        overlap <= window@.len(),
        2 * overlap <= x@.len(),
        lag <= x@.len(),
    ensures
        ac@ == autocorrelated(x@, window@, overlap as int, lag as int),
        ac@.len() == lag + 1,
{
    let mut y: Vec<i16> = apply_window(x, window, overlap);
    let bits: u32 = scale_signal(&mut y);
    let ghost raw = Seq::new(
        (lag + 1) as nat,
        |k: int|
            if k == 0 && bits == 0 {
                correlation(y@, 0, y@.len() as int).wrapping_add(1)
            } else {
                correlation(y@, k, y@.len() as int)
            },
    );
    let mut ac: Vec<i32> = Vec::new();
    for k in 0..lag + 1
        invariant
            lag <= y@.len(),
            lag <= 2048,
            ac@.len() == k,
            raw == Seq::new(
                (lag + 1) as nat,
                |k: int|
                    if k == 0 && bits == 0 {
                        correlation(y@, 0, y@.len() as int).wrapping_add(1)
                    } else {
                        correlation(y@, k, y@.len() as int)
                    },
            ),
            forall|i: int| 0 <= i < k ==> #[trigger] ac@[i] == raw[i],
    {
        let c: i32 = correlate(&y, k);
        ac.push(if k == 0 && bits == 0 { c.wrapping_add(1) } else { c });
    }
    assert(ac@ =~= raw);
    level(&mut ac);
    ac
}

/// Autocorrelation with a raised floor and damped longer lags.
pub open spec fn lag_windowed(ac: Seq<i32>) -> Seq<i32> {
    Seq::new(
        ac.len(),
        |i: int|
            if i == 0 {
                ac[0].wrapping_add(ac[0] >> 13u32)
            } else {
                ac[i].wrapping_sub(mult16_32_q15((2 * i * i) as i16, ac[i]))
            },
    )
}

/// Computes [`lag_windowed`].
pub fn window_lags(ac: &mut Vec<i32>)
    requires
        old(ac)@.len() <= 25,
    ensures
        final(ac)@ == lag_windowed(old(ac)@),
        final(ac)@.len() == old(ac)@.len(),
{
    let ghost ac0 = ac@;
    let len: usize = ac.len();
    for i in 0..len
        invariant
            len == ac@.len(),
            len == ac0.len(),
            len <= 25,
            forall|k: int|
                0 <= k < len ==> #[trigger] ac@[k] == (if k < i {
                    lag_windowed(ac0)[k]
                } else {
                    ac0[k]
                }),
    {
        let v: i32 = ac[i];
        if i == 0 {
            ac.set(i, v.wrapping_add(v >> 13u32));
        } else {
            assert(2 * i * i <= 2 * 24 * 24) by (nonlinear_arith)
                requires
                    0 <= i <= 24,
            ;
            ac.set(i, v.wrapping_sub(mult16_32_q15((2 * i * i) as i16, v)));
        }
    }
    assert(ac@ =~= lag_windowed(ac0));
}

/// Sum of products of the first `n` predictor coefficients with the correlations
/// in front of lag `i`.
pub open spec fn predicted(lpc: Seq<i32>, ac: Seq<i32>, i: int, n: int) -> i64
    decreases n,
{
    if n <= 0 {
        0
    } else {
        predicted(lpc, ac, i, n - 1).wrapping_add(mult32_32(lpc[n - 1], ac[i - (n - 1)]))
    }
}

/// Reflection coefficient `i`, in Q31.
pub open spec fn reflection(lpc: Seq<i32>, ac: Seq<i32>, error: i32, i: int) -> i32 {
    let rr = ((predicted(lpc, ac, i, i) >> 31u32) as i32).wrapping_add(ac[i + 1] >> 6u32);
    0i32.wrapping_sub(frac_div(shl32(rr, 6), error))
}

/// Coefficients after the reflection coefficient `r` of index `i`.
pub open spec fn reflected(lpc: Seq<i32>, r: i32, i: int) -> Seq<i32> {
    Seq::new(
        lpc.len(),
        |j: int|
            if j < i {
                lpc[j].wrapping_add(mult32_32_q31(r, lpc[i - 1 - j]))
            } else if j == i {
                r >> 6u32
            } else {
                lpc[j]
            },
    )
}

/// The coefficients, in Q25, found from index `i` on; the search ends early once
/// little is left to predict.
pub open spec fn solved(lpc: Seq<i32>, ac: Seq<i32>, error: i32, i: int) -> Seq<i32>
    decreases lpc.len() - i,
{
    if i >= lpc.len() {
        lpc
    } else {
        let r = reflection(lpc, ac, error, i);
        let next = reflected(lpc, r, i);
        let left = error.wrapping_sub(mult32_32_q31(mult32_32_q31(r, r), error));
        if left <= (ac[0] >> 10u32) {
            next
        } else {
            solved(next, ac, left, i + 1)
        }
    }
}

/// Computes [`reflection`].
fn find_reflection(lpc: &Vec<i32>, ac: &Vec<i32>, error: i32, i: usize) -> (r: i32)
    requires
        i < lpc@.len(),
        lpc@.len() < ac@.len(),
        error > 0,
    ensures
        r == reflection(lpc@, ac@, error, i as int),
{
    let mut acc: i64 = 0;
    for j in 0..i
        invariant
            i < lpc@.len(),
            lpc@.len() < ac@.len(),
            acc == predicted(lpc@, ac@, i as int, j as int),
    {
        acc = acc.wrapping_add(mult32_32(lpc[j], ac[i - j]));
    }
    assert(ac@.len() == ac.len());
    let rr: i32 = ((acc >> 31u32) as i32).wrapping_add(ac[i + 1] >> 6u32);
    0i32.wrapping_sub(frac_div32(shl32(rr, 6), error))
}

/// Computes [`solved`] for an autocorrelation, starting from nothing.
fn solve(ac: &Vec<i32>, p: usize) -> (lpc: Vec<i32>)
    requires
        p < ac@.len(),
        ac@[0] > 0,
    ensures
        lpc@ == solved(Seq::new(p as nat, |k: int| 0i32), ac@, ac@[0], 0),
        lpc@.len() == p,
{
    let mut lpc: Vec<i32> = vec![0i32; p];
    let ghost zero = Seq::new(p as nat, |k: int| 0i32);
    assert(lpc@ =~= zero);
    let mut error: i32 = ac[0];
    let mut i: usize = 0;
    proof {
        let first = ac@[0];
        assert(first > 0 ==> (first >> 10u32) >= 0) by (bit_vector);
    }
    while i < p
        invariant
            i <= p,
            p < ac@.len(),
            lpc@.len() == p,
            zero == Seq::new(p as nat, |k: int| 0i32),
            error > 0,
            (ac@[0] >> 10u32) >= 0,
            solved(lpc@, ac@, error, i as int) == solved(zero, ac@, ac@[0], 0),
        decreases p - i,
    {
        let r: i32 = find_reflection(&lpc, ac, error, i);
        let ghost before = lpc@;
        let ghost error0 = error;
        let mut next: Vec<i32> = Vec::new();
        for j in 0..p
            invariant
                i < p,
                lpc@.len() == p,
                before == lpc@,
                next@.len() == j,
                forall|k: int| 0 <= k < j ==> #[trigger] next@[k] == reflected(before, r, i as int)[k],
        {
            let v: i32 = if j < i {
                lpc[j].wrapping_add(mult32_32_q31(r, lpc[i - 1 - j]))
            } else if j == i {
                r >> 6u32
            } else {
                lpc[j]
            };
            next.push(v);
        }
        assert(next@ =~= reflected(before, r, i as int));
        lpc = next;
        error = error.wrapping_sub(mult32_32_q31(mult32_32_q31(r, r), error));
        if error <= (ac[0] >> 10u32) {
            assert(lpc@ == solved(before, ac@, error0, i as int));
            return lpc;
        }
        i = i + 1;
    }
    lpc
}

/// Index of the first coefficient of largest magnitude among the first `n`, and
/// that magnitude.
pub open spec fn largest(lpc: Seq<i32>, n: int) -> (int, i32)
    decreases n,
{
    if n <= 0 {
        (0, 0)
    } else {
        let (idx, m) = largest(lpc, n - 1);
        let v = abs32(lpc[n - 1]);
        if v > m {
            (n - 1, v)
        } else {
            (idx, m)
        }
    }
}

/// Chirp, in Q16, that brings a magnitude of `m` in Q12 at index `idx` closer to
/// sixteen bits.
pub open spec fn chirp_for(m: i32, idx: int) -> int {
    let limited = if m > 163838 { 163838 } else { m as int };
    65470 - (limited - 32767) * 16384 / ((limited * (idx + 1)) / 4)
}

/// Coefficients from `at` on, scaled by falling powers of a chirp.
pub open spec fn bandwidth_widened(lpc: Seq<i32>, chirp: i32, less_one: i32, at: int) -> Seq<i32>
    decreases lpc.len() - at,
{
    if at < 0 || at >= lpc.len() {
        lpc
    } else {
        bandwidth_widened(
            lpc.update(at, (mult32_32(chirp, lpc[at]) >> 16u32) as i32),
            chirp.wrapping_add(pshr32(chirp.wrapping_mul(less_one), 16)),
            less_one,
            at + 1,
        )
    }
}

/// Coefficients in Q12, widened at most `tries` times until they fit; the
/// trivial predictor where they do not.
pub open spec fn fitted(lpc: Seq<i32>, tries: int) -> Seq<i16>
    decreases tries,
{
    let (idx, m) = largest(lpc, lpc.len() as int);
    if tries <= 0 {
        Seq::new(lpc.len(), |k: int| if k == 0 { 4096i16 } else { 0 })
    } else if pshr32(m, 13) <= 32767 {
        Seq::new(lpc.len(), |k: int| extract16(pshr32(lpc[k], 13)))
    } else {
        let chirp = chirp_for(pshr32(m, 13), idx) as i32;
        fitted(bandwidth_widened(lpc, chirp, chirp.wrapping_sub(65536), 0), tries - 1)
    }
}

/// Computes [`largest`] over all coefficients.
fn find_largest(lpc: &Vec<i32>) -> (r: (usize, i32))
    requires
        lpc@.len() <= 24,
    ensures
        (r.0 as int, r.1) == largest(lpc@, lpc@.len() as int),
        r.0 <= 24,
{
    let n: usize = lpc.len();
    let mut idx: usize = 0;
    let mut m: i32 = 0;
    for i in 0..n
        invariant
            n == lpc@.len(),
            n <= 24,
            (idx as int, m) == largest(lpc@, i as int),
            idx <= 24,
    {
        let v: i32 = abs32(lpc[i]);
        if v > m {
            m = v;
            idx = i;
        }
    }
    (idx, m)
}

/// Computes [`chirp_for`].
fn find_chirp(m: i32, idx: usize) -> (chirp: i32)
    requires
        m > 32767,
        idx <= 24,
    ensures
        chirp == chirp_for(m, idx as int),
{
    let limited: i32 = if m > 163838 { 163838 } else { m };
    assert(32768 <= limited * (idx + 1) <= 163838 * 25) by (nonlinear_arith)
        requires
            32768 <= limited <= 163838,
            0 <= idx <= 24,
    ;
    let num: i32 = (limited - 32767) * 16384;
    let den: i32 = limited * (idx as i32 + 1) / 4;
    proof {
        let q = num as int / den as int;
        vstd::arithmetic::div_mod::lemma_div_pos_is_pos(num as int, den as int);
        vstd::arithmetic::div_mod::lemma_div_is_ordered_by_denominator(
            num as int,
            1,
            den as int,
        );
        vstd::arithmetic::div_mod::lemma_div_by_self(1);
        assert(num as int / 1 == num as int) by (nonlinear_arith);
    }
    65470 - num / den
}

/// Computes [`fitted`] with ten tries.
fn fit(lpc: &mut Vec<i32>) -> (r: Vec<i16>)
    requires
        old(lpc)@.len() <= 24,
    ensures
        r@ == fitted(old(lpc)@, 10),
        r@.len() == old(lpc)@.len(),
{
    let ghost first = lpc@;
    let n: usize = lpc.len();
    let mut tries: usize = 10;
    while tries > 0
        invariant
            n == lpc@.len(),
            n == first.len(),
            first == old(lpc)@,
            n <= 24,
            tries <= 10,
            fitted(lpc@, tries as int) == fitted(first, 10),
        decreases tries,
    {
        let (idx, peak) = find_largest(lpc);
        let m: i32 = pshr32(peak, 13);
        if m <= 32767 {
            let mut r: Vec<i16> = Vec::new();
            for k in 0..n
                invariant
                    n == lpc@.len(),
                    r@.len() == k,
                    forall|i: int| 0 <= i < k ==> #[trigger] r@[i] == extract16(pshr32(lpc@[i], 13)),
            {
                r.push(extract16(pshr32(lpc[k], 13)));
            }
            assert(r@ =~= fitted(lpc@, tries as int));
            return r;
        }
        let chirp0: i32 = find_chirp(m, idx);
        let less_one: i32 = chirp0.wrapping_sub(65536);
        let mut chirp: i32 = chirp0;
        let ghost before = lpc@;
        for at in 0..n
            invariant
                n == lpc@.len(),
                bandwidth_widened(lpc@, chirp, less_one, at as int) == bandwidth_widened(
                    before,
                    chirp0,
                    less_one,
                    0,
                ),
        {
            let v: i32 = (mult32_32(chirp, lpc[at]) >> 16u32) as i32;
            lpc.set(at, v);
            chirp = chirp.wrapping_add(pshr32(chirp.wrapping_mul(less_one), 16));
        }
        tries = tries - 1;
    }
    let mut r: Vec<i16> = Vec::new();
    for k in 0..n
        invariant
            r@.len() == k,
            forall|i: int| 0 <= i < k ==> #[trigger] r@[i] == (if i == 0 { 4096i16 } else { 0 }),
    {
        r.push(if k == 0 { 4096 } else { 0 });
    }
    assert(r@ =~= fitted(lpc@, 0));
    r
}

/// Predictor of order `p` for an autocorrelation, in Q12.
pub open spec fn predictor(ac: Seq<i32>, p: int) -> Seq<i16> {
    let zero = Seq::new(p as nat, |k: int| 0i32);
    fitted(if ac[0] > 0 { solved(zero, ac, ac[0], 0) } else { zero }, 10)
}

/// Computes [`predictor`].
pub fn celt_lpc(ac: &Vec<i32>, p: usize) -> (lpc: Vec<i16>)
    requires
        p < ac@.len(),
        p <= 24,
    ensures
        lpc@ == predictor(ac@, p as int),
        lpc@.len() == p,
{
    let mut coefficients: Vec<i32> = if ac[0] > 0 { solve(ac, p) } else { vec![0i32; p] };
    assert(ac@[0] <= 0 ==> coefficients@ =~= Seq::new(p as nat, |k: int| 0i32));
    fit(&mut coefficients)
}

} // verus!
