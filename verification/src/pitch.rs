//! Search for the pitch of a decoded signal.

use vstd::prelude::*;
use crate::fixed::{
    extract16, mult16_16, mult16_16_q15, mult16_32_q15, pshr32, shl32, vshr32,
};
use crate::lpc::{
    autocorrelated, celt_autocorr, celt_lpc, lag_windowed, predictor, window_lags,
};
use crate::math::{celt_zlog2, zlog2};
use crate::mdct::positive;
use crate::plc::{find_maxabs, maxabs16};
use crate::spectrum::abs32;

verus! {

/// Factor, 0.9 in Q15, of successive predictor coefficients.
pub const CHIRP: i16 = 29491;

/// Zero of the whitening filter, 0.8 in Q15.
pub const ZERO: i16 = 26214;

/// The zero's own contribution to the first coefficient, 0.8 in Q12.
pub const ZERO_Q12: i32 = 3277;

/// How much of a neighbour's rise moves the lag by half a step, 0.7 in Q15.
pub const NEIGHBOUR: i16 = 22938;

/// The contents of a list of rows.
pub open spec fn contents(rows: Seq<Vec<i32>>) -> Seq<Seq<i32>> {
    Seq::new(rows.len(), |c: int| rows[c]@)
}

/// Largest magnitude in the rows from `at` on, at least one.
pub open spec fn rows_peak(rows: Seq<Seq<i32>>, at: int) -> i32
    decreases rows.len() - at,
{
    if at < 0 || at >= rows.len() {
        1
    } else {
        row_peak(rows[at], 0, rows_peak(rows, at + 1))
    }
}

/// The larger of `least` and the largest magnitude from `at` on.
pub open spec fn row_peak(x: Seq<i32>, at: int, least: i32) -> i32
    decreases x.len() - at,
{
    if at < 0 || at >= x.len() {
        least
    } else {
        let rest = row_peak(x, at + 1, least);
        if abs32(x[at]) > rest {
            abs32(x[at])
        } else {
            rest
        }
    }
}

/// Bits by which the rows are scaled down before they are summed.
pub open spec fn rows_bits(rows: Seq<Seq<i32>>) -> int {
    positive(zlog2(rows_peak(rows, 0) as int) - 10) + if rows.len() == 2 {
        1int
    } else {
        0
    }
}

/// Computes [`rows_bits`].
fn find_rows_bits(rows: &Vec<Vec<i32>>) -> (bits: u32)
    ensures
        bits == rows_bits(contents(rows@)),
        bits <= 21,
{
    let mut peak: i32 = 1;
    let mut c: usize = rows.len();
    while c > 0
        invariant
            c <= rows@.len(),
            peak == rows_peak(contents(rows@), c as int),
            peak >= 1,
        decreases c,
    {
        c = c - 1;
        let ghost least = peak;
        let mut i: usize = rows[c].len();
        while i > 0
            invariant
                c < rows@.len(),
                i <= rows@[c as int]@.len(),
                peak == row_peak(rows@[c as int]@, i as int, least),
                peak >= 1,
            decreases i,
        {
            i = i - 1;
            let v: i32 = abs32(rows[c][i]);
            if v > peak {
                peak = v;
            }
        }
    }
    let excess: i32 = celt_zlog2(peak) - 10;
    let bits: u32 = if excess > 0 { excess as u32 } else { 0 };
    if rows.len() == 2 { bits + 1 } else { bits }
}

/// Sample `i` of a row at half the rate.
pub open spec fn halved(x: Seq<i32>, i: int) -> i32 {
    let sides = if i == 0 { x[1] >> 1u32 } else { x[2 * i - 1].wrapping_add(x[2 * i + 1]) >> 1u32 };
    sides.wrapping_add(x[2 * i]) >> 1u32
}

/// Sample `i` of the sum of the first `c` rows at half the rate.
pub open spec fn mixed(rows: Seq<Seq<i32>>, bits: u32, i: int, c: int) -> i16
    decreases c,
{
    if c <= 0 {
        0
    } else {
        extract16(
            (mixed(rows, bits, i, c - 1) as i32).wrapping_add(halved(rows[c - 1], i) >> bits),
        )
    }
}

/// The sum of the rows at half the rate.
pub open spec fn half_rate(rows: Seq<Seq<i32>>, n: int) -> Seq<i16> {
    Seq::new(n as nat, |i: int| mixed(rows, rows_bits(rows) as u32, i, rows.len() as int))
}

/// Computes [`half_rate`].
fn mix_half_rate(rows: &Vec<Vec<i32>>, n: usize) -> (lp: Vec<i16>)
    requires
        n <= 1024,
        forall|c: int| 0 <= c < rows@.len() ==> (#[trigger] rows@[c])@.len() >= 2 * n,
    ensures
        lp@ == half_rate(contents(rows@), n as int),
        lp@.len() == n,
{
    let bits: u32 = find_rows_bits(rows);
    let channels: usize = rows.len();
    let mut lp: Vec<i16> = Vec::new();
    for i in 0..n
        invariant
            n <= 1024,
            forall|c: int| 0 <= c < rows@.len() ==> (#[trigger] rows@[c])@.len() >= 2 * n,
            channels == rows@.len(),
            bits == rows_bits(contents(rows@)),
            bits <= 21,
            lp@.len() == i,
            forall|k: int| 0 <= k < i ==> #[trigger] lp@[k] == half_rate(contents(rows@), n as int)[k],
    {
        let mut sum: i16 = 0;
        for c in 0..channels
            invariant
                i < n,
                n <= 1024,
                forall|c: int| 0 <= c < rows@.len() ==> (#[trigger] rows@[c])@.len() >= 2 * n,
                channels == rows@.len(),
                bits <= 21,
                sum == mixed(contents(rows@), bits, i as int, c as int),
        {
            let x: &Vec<i32> = &rows[c];
            let sides: i32 = if i == 0 {
                x[1] >> 1u32
            } else {
                x[2 * i - 1].wrapping_add(x[2 * i + 1]) >> 1u32
            };
            let half: i32 = sides.wrapping_add(x[2 * i]) >> 1u32;
            sum = extract16((sum as i32).wrapping_add(half >> bits));
        }
        lp.push(sum);
    }
    assert(lp@ =~= half_rate(contents(rows@), n as int));
    lp
}

/// The whitening filter for a predictor of order four, in Q12.
pub open spec fn whitening(lpc: Seq<i16>) -> Seq<i16> {
    let t0 = mult16_16_q15(CHIRP, 32767);
    let t1 = mult16_16_q15(CHIRP, t0);
    let t2 = mult16_16_q15(CHIRP, t1);
    let t3 = mult16_16_q15(CHIRP, t2);
    let a = mult16_16_q15(lpc[0], t0);
    let b = mult16_16_q15(lpc[1], t1);
    let c = mult16_16_q15(lpc[2], t2);
    let d = mult16_16_q15(lpc[3], t3);
    seq![
        extract16((a as i32).wrapping_add(ZERO_Q12)),
        extract16((b as i32).wrapping_add(mult16_16_q15(ZERO, a) as i32)),
        extract16((c as i32).wrapping_add(mult16_16_q15(ZERO, b) as i32)),
        extract16((d as i32).wrapping_add(mult16_16_q15(ZERO, c) as i32)),
        mult16_16_q15(ZERO, d),
    ]
}

/// Computes [`whitening`].
fn make_whitening(lpc: &Vec<i16>) -> (num: Vec<i16>)
    requires
        lpc@.len() == 4,
    ensures
        num@ == whitening(lpc@),
        num@.len() == 5,
{
    let t0: i16 = mult16_16_q15(CHIRP, 32767);
    let t1: i16 = mult16_16_q15(CHIRP, t0);
    let t2: i16 = mult16_16_q15(CHIRP, t1);
    let t3: i16 = mult16_16_q15(CHIRP, t2);
    let a: i16 = mult16_16_q15(lpc[0], t0);
    let b: i16 = mult16_16_q15(lpc[1], t1);
    let c: i16 = mult16_16_q15(lpc[2], t2);
    let d: i16 = mult16_16_q15(lpc[3], t3);
    let mut num: Vec<i16> = Vec::new();
    num.push(extract16((a as i32).wrapping_add(ZERO_Q12)));
    num.push(extract16((b as i32).wrapping_add(mult16_16_q15(ZERO, a) as i32)));
    num.push(extract16((c as i32).wrapping_add(mult16_16_q15(ZERO, b) as i32)));
    num.push(extract16((d as i32).wrapping_add(mult16_16_q15(ZERO, c) as i32)));
    num.push(mult16_16_q15(ZERO, d));
    assert(num@ =~= whitening(lpc@));
    num
}

/// Sample `i` under the first `n` taps of a filter that starts from silence.
pub open spec fn tapped(x: Seq<i16>, num: Seq<i16>, i: int, n: int) -> i32
    decreases n,
{
    if n <= 0 {
        shl32(x[i] as i32, 12)
    } else {
        let rest = tapped(x, num, i, n - 1);
        if i - n >= 0 {
            rest.wrapping_add(mult16_16(num[n - 1], x[i - n]))
        } else {
            rest
        }
    }
}

/// A filtered signal.
pub open spec fn whitened(x: Seq<i16>, num: Seq<i16>) -> Seq<i16> {
    Seq::new(
        x.len(),
        |i: int| extract16(pshr32(tapped(x, num, i, num.len() as int), 12)),
    )
}

/// Computes [`whitened`].
fn whiten(x: &Vec<i16>, num: &Vec<i16>) -> (y: Vec<i16>)
    ensures
        y@ == whitened(x@, num@),
        y@.len() == x@.len(),
{
    let n: usize = x.len();
    let taps: usize = num.len();
    let mut y: Vec<i16> = Vec::new();
    for i in 0..n
        invariant
            n == x@.len(),
            taps == num@.len(),
            y@.len() == i,
            forall|k: int| 0 <= k < i ==> #[trigger] y@[k] == whitened(x@, num@)[k],
    {
        let mut sum: i32 = shl32(x[i] as i32, 12);
        for k in 0..taps
            invariant
                i < n,
                n == x@.len(),
                taps == num@.len(),
                sum == tapped(x@, num@, i as int, k as int),
        {
            if k < i {
                sum = sum.wrapping_add(mult16_16(num[k], x[i - k - 1]));
            }
        }
        y.push(extract16(pshr32(sum, 12)));
    }
    assert(y@ =~= whitened(x@, num@));
    y
}

/// The whitened sum of the rows at half the rate.
pub open spec fn downsampled(rows: Seq<Seq<i32>>, n: int) -> Seq<i16> {
    let lp = half_rate(rows, n);
    let ac = lag_windowed(autocorrelated(lp, Seq::empty(), 0, 4));
    whitened(lp, whitening(predictor(ac, 4)))
}

/// Computes [`downsampled`].
pub fn pitch_downsample(rows: &Vec<Vec<i32>>, n: usize) -> (y: Vec<i16>)
    requires
        4 <= n <= 1024,
        forall|c: int| 0 <= c < rows@.len() ==> (#[trigger] rows@[c])@.len() >= 2 * n,
    ensures
        y@ == downsampled(contents(rows@), n as int),
        y@.len() == n,
{
    let lp: Vec<i16> = mix_half_rate(rows, n);
    let none: Vec<i16> = Vec::new();
    assert(none@ =~= Seq::<i16>::empty());
    let mut ac: Vec<i32> = celt_autocorr(&lp, &none, 0, 4);
    window_lags(&mut ac);
    let lpc: Vec<i16> = celt_lpc(&ac, 4);
    let num: Vec<i16> = make_whitening(&lpc);
    whiten(&lp, &num)
}

/// Every other sample, scaled down.
pub open spec fn decimated(x: Seq<i16>, n: int, bits: int) -> Seq<i16> {
    Seq::new(n as nat, |j: int| x[2 * j] >> (bits as u32))
}

/// Computes [`decimated`].
fn decimate(x: &Vec<i16>, n: usize, bits: u32) -> (y: Vec<i16>)
    requires
        2 * n <= x@.len() + 1,
        n <= 0xffff,
        bits < 16,
    ensures
        y@ == decimated(x@, n as int, bits as int),
        y@.len() == n,
{
    let mut y: Vec<i16> = Vec::new();
    for j in 0..n
        invariant
            2 * n <= x@.len() + 1,
            n <= 0xffff,
            bits < 16,
            y@.len() == j,
            forall|k: int| 0 <= k < j ==> #[trigger] y@[k] == decimated(x@, n as int, bits as int)[k],
    {
        y.push(x[2 * j] >> bits);
    }
    assert(y@ =~= decimated(x@, n as int, bits as int));
    y
}

/// Correlation of the first `n` samples of `x` with those of `y` behind `at`,
/// each product scaled down.
pub open spec fn crossed(x: Seq<i16>, y: Seq<i16>, at: int, n: int, bits: int) -> i32
    decreases n,
{
    if n <= 0 {
        0
    } else {
        crossed(x, y, at, n - 1, bits).wrapping_add(
            mult16_16(x[n - 1], y[at + n - 1]) >> (bits as u32),
        )
    }
}

/// Computes [`crossed`].
fn cross(x: &Vec<i16>, y: &Vec<i16>, at: usize, n: usize, bits: u32) -> (sum: i32)
    requires
        n <= x@.len(),
        at + n <= y@.len(),
        bits < 32,
    ensures
        sum == crossed(x@, y@, at as int, n as int, bits as int),
{
    assert(y@.len() == y.len());
    let mut sum: i32 = 0;
    for j in 0..n
        invariant
            n <= x@.len(),
            at + n <= y@.len(),
            y@.len() <= usize::MAX,
            bits < 32,
            sum == crossed(x@, y@, at as int, j as int, bits as int),
    {
        sum = sum.wrapping_add(mult16_16(x[j], y[at + j]) >> bits);
    }
    sum
}

/// The larger of one and the largest of the first `n` correlations.
pub open spec fn top(corr: Seq<i32>, n: int) -> i32
    decreases n,
{
    if n <= 0 {
        1
    } else if corr[n - 1] > top(corr, n - 1) {
        corr[n - 1]
    } else {
        top(corr, n - 1)
    }
}

/// Computes [`top`].
fn find_top(corr: &Vec<i32>) -> (m: i32)
    ensures
        m == top(corr@, corr@.len() as int),
        m >= 1,
{
    let n: usize = corr.len();
    let mut m: i32 = 1;
    for i in 0..n
        invariant
            n == corr@.len(),
            m == top(corr@, i as int),
            m >= 1,
    {
        if corr[i] > m {
            m = corr[i];
        }
    }
    m
}

/// The two best lags so far: squared correlations over energies, and the energy
/// of the window at the next lag.
#[derive(Clone, Copy)]
pub struct Candidates {
    pub first_num: i16,
    pub first_den: i32,
    pub first: usize,
    pub second_num: i16,
    pub second_den: i32,
    pub second: usize,
    pub energy: i32,
}

/// A square, scaled down.
#[verifier::allow_in_spec]
fn square(v: i16, bits: u32) -> i32
    requires
        bits < 32,
    returns
        mult16_16(v, v) >> bits,
{
    mult16_16(v, v) >> bits
}

/// Energy of the first `n` samples, starting from one.
pub open spec fn window_energy(y: Seq<i16>, n: int, bits: int) -> i32
    decreases n,
{
    if n <= 0 {
        1
    } else {
        window_energy(y, n - 1, bits).wrapping_add(mult16_16(y[n - 1], y[n - 1]) >> (bits as u32))
    }
}

impl Candidates {
    /// Before any lag has been looked at.
    pub open spec fn none(energy: i32) -> Candidates {
        Candidates {
            first_num: (-1) as i16,
            first_den: 0,
            first: 0,
            second_num: (-1) as i16,
            second_den: 0,
            second: 1,
            energy,
        }
    }

    /// After the lag `i` of correlation `corr` has been looked at.
    pub open spec fn ranked(self, corr: i32, down: int, i: int) -> Candidates {
        let v = extract16(vshr32(corr, down as i32));
        let num = mult16_16_q15(v, v);
        if corr <= 0 || mult16_32_q15(num, self.second_den) <= mult16_32_q15(
            self.second_num,
            self.energy,
        ) {
            self
        } else if mult16_32_q15(num, self.first_den) > mult16_32_q15(self.first_num, self.energy) {
            Candidates {
                first_num: num,
                first_den: self.energy,
                first: i as usize,
                second_num: self.first_num,
                second_den: self.first_den,
                second: self.first,
                energy: self.energy,
            }
        } else {
            Candidates {
                second_num: num,
                second_den: self.energy,
                second: i as usize,
                ..self
            }
        }
    }

    /// With the window moved from the lag `i` to the next.
    pub open spec fn slid(self, y: Seq<i16>, n: int, bits: int, i: int) -> Candidates {
        let e = self.energy.wrapping_add(
            (mult16_16(y[i + n], y[i + n]) >> (bits as u32)).wrapping_sub(
                mult16_16(y[i], y[i]) >> (bits as u32),
            ),
        );
        Candidates { energy: if e < 1 { 1 } else { e }, ..self }
    }

    /// Ranks one lag.
    fn rank(&mut self, corr: i32, down: i32, i: usize)
        requires
            -32 < down < 32,
        ensures
            *final(self) == old(self).ranked(corr, down as int, i as int),
    {
        if corr > 0 {
            let v: i16 = extract16(vshr32(corr, down));
            let num: i16 = mult16_16_q15(v, v);
            if mult16_32_q15(num, self.second_den) > mult16_32_q15(self.second_num, self.energy) {
                if mult16_32_q15(num, self.first_den) > mult16_32_q15(self.first_num, self.energy) {
                    self.second_num = self.first_num;
                    self.second_den = self.first_den;
                    self.second = self.first;
                    self.first_num = num;
                    self.first_den = self.energy;
                    self.first = i;
                } else {
                    self.second_num = num;
                    self.second_den = self.energy;
                    self.second = i;
                }
            }
        }
    }
}

/// The candidates once the first `i` lags have been looked at.
pub open spec fn candidates(
    corr: Seq<i32>,
    y: Seq<i16>,
    n: int,
    bits: int,
    down: int,
    i: int,
) -> Candidates
    decreases i,
{
    if i <= 0 {
        Candidates::none(window_energy(y, n, bits))
    } else {
        candidates(corr, y, n, bits, down, i - 1).ranked(corr[i - 1], down, i - 1).slid(
            y,
            n,
            bits,
            i - 1,
        )
    }
}

/// The two lags whose windows of `n` samples match best.
pub open spec fn best_lags(corr: Seq<i32>, y: Seq<i16>, n: int, bits: int, most: i32) -> (int, int) {
    let c = candidates(corr, y, n, bits, zlog2(most as int) - 14, corr.len() as int);
    (c.first as int, c.second as int)
}

/// Computes [`best_lags`].
fn find_best_pitch(corr: &Vec<i32>, y: &Vec<i16>, n: usize, bits: u32, most: i32) -> (r: (
    usize,
    usize,
))
    requires
        corr@.len() + n <= y@.len(),
        bits < 32,
    ensures
        (r.0 as int, r.1 as int) == best_lags(corr@, y@, n as int, bits as int, most),
        r.0 < corr@.len() || r.0 == 0,
        r.1 < corr@.len() || r.1 <= 1,
{
    assert(y@.len() == y.len());
    let down: i32 = celt_zlog2(most) - 14;
    let mut energy: i32 = 1;
    for j in 0..n
        invariant
            n <= y@.len(),
            bits < 32,
            energy == window_energy(y@, j as int, bits as int),
    {
        energy = energy.wrapping_add(square(y[j], bits));
    }
    let mut c: Candidates = Candidates {
        first_num: -1,
        first_den: 0,
        first: 0,
        second_num: -1,
        second_den: 0,
        second: 1,
        energy,
    };
    let lags: usize = corr.len();
    for i in 0..lags
        invariant
            lags == corr@.len(),
            lags + n <= y@.len(),
            y@.len() <= usize::MAX,
            bits < 32,
            -32 < down < 32,
            c == candidates(corr@, y@, n as int, bits as int, down as int, i as int),
            c.first < i || c.first == 0,
            c.second < i || c.second <= 1,
    {
        c.rank(corr[i], down, i);
        let e: i32 = c.energy.wrapping_add(
            square(y[i + n], bits).wrapping_sub(square(y[i], bits)),
        );
        c.energy = if e < 1 { 1 } else { e };
    }
    (c.first, c.second)
}

/// Bits by which the coarse search scales its signals down.
pub open spec fn coarse_bits(x: Seq<i16>, y: Seq<i16>, len: int) -> int {
    let a = maxabs16(x, 0);
    let b = maxabs16(y, 0);
    positive(
        zlog2(if a >= b { a } else { b }) - 14 + zlog2(len) / 2,
    )
}

/// The correlations of the coarse search, at a quarter of the rate.
pub open spec fn coarse_correlations(x: Seq<i16>, y: Seq<i16>, len: int, lags: int) -> Seq<i32> {
    Seq::new((lags / 4) as nat, |i: int| crossed(x, y, i, len / 4, 0))
}

/// Whether the fine search looks at the lag `i`.
pub open spec fn near(i: int, lag: int) -> bool {
    -2 <= i - 2 * lag <= 2
}

/// The correlation of the fine search at the lag `i`, before it is limited.
pub open spec fn fine_correlation(
    x: Seq<i16>,
    y: Seq<i16>,
    len: int,
    bits: int,
    coarse: (int, int),
    i: int,
) -> i32 {
    if near(i, coarse.0) || near(i, coarse.1) {
        crossed(x, y, i, len / 2, bits)
    } else {
        0
    }
}

/// The correlations of the fine search, none below minus one.
pub open spec fn fine_correlations(
    x: Seq<i16>,
    y: Seq<i16>,
    len: int,
    lags: int,
    bits: int,
    coarse: (int, int),
) -> Seq<i32> {
    Seq::new(
        (lags / 2) as nat,
        |i: int|
            {
                let v = fine_correlation(x, y, len, bits, coarse, i);
                if v < -1 {
                    (-1) as i32
                } else {
                    v
                }
            },
    )
}

/// Half a step towards the neighbour that matches nearly as well.
pub open spec fn half_step(corr: Seq<i32>, at: int) -> int {
    if at <= 0 || at >= corr.len() - 1 {
        0
    } else {
        let a = corr[at - 1];
        let b = corr[at];
        let c = corr[at + 1];
        if c.wrapping_sub(a) > mult16_32_q15(NEIGHBOUR, b.wrapping_sub(a)) {
            1
        } else if a.wrapping_sub(c) > mult16_32_q15(NEIGHBOUR, b.wrapping_sub(c)) {
            -1
        } else {
            0
        }
    }
}

/// Computes [`half_step`].
fn find_half_step(corr: &Vec<i32>, at: usize) -> (s: i32)
    ensures
        s == half_step(corr@, at as int),
        -1 <= s <= 1,
        at == 0 ==> s == 0,
{
    if at == 0 || at >= corr.len() || at == corr.len() - 1 {
        return 0;
    }
    assert(corr@.len() == corr.len());
    let a: i32 = corr[at - 1];
    let b: i32 = corr[at];
    let c: i32 = corr[at + 1];
    if c.wrapping_sub(a) > mult16_32_q15(NEIGHBOUR, b.wrapping_sub(a)) {
        1
    } else if a.wrapping_sub(c) > mult16_32_q15(NEIGHBOUR, b.wrapping_sub(c)) {
        -1
    } else {
        0
    }
}

/// The lag, out of `lags` at the full rate, at which `len` samples of `x` match
/// `y` best; the signals are given at half the rate.
pub open spec fn searched(x: Seq<i16>, y: Seq<i16>, len: int, lags: int) -> int {
    let x4 = decimated(x, len / 4, 0);
    let y4 = decimated(y, (len + lags) / 4, 0);
    let bits = coarse_bits(x4, y4, len);
    let xs = decimated(x, len / 4, bits);
    let ys = decimated(y, (len + lags) / 4, bits);
    let coarse_corr = coarse_correlations(xs, ys, len, lags);
    let coarse = best_lags(coarse_corr, ys, len / 4, 0, top(coarse_corr, lags / 4));
    let fine_corr = fine_correlations(x, y, len, lags, 2 * bits, coarse);
    let best = best_lags(fine_corr, y, len / 2, 2 * bits + 1, top(fine_corr, lags / 2)).0;
    2 * best - half_step(fine_corr, best)
}

/// Computes [`coarse_correlations`].
fn correlate_coarsely(x: &Vec<i16>, y: &Vec<i16>, len: usize, lags: usize) -> (corr: Vec<i32>)
    requires
        len / 4 <= x@.len(),
        len / 4 + lags / 4 <= y@.len(),
        len <= 0xffff,
        lags <= 0xffff,
    ensures
        corr@ == coarse_correlations(x@, y@, len as int, lags as int),
        corr@.len() == lags / 4,
{
    let mut corr: Vec<i32> = Vec::new();
    for i in 0..lags / 4
        invariant
            len / 4 <= x@.len(),
            len / 4 + lags / 4 <= y@.len(),
            corr@.len() == i,
            forall|k: int|
                0 <= k < i ==> #[trigger] corr@[k] == coarse_correlations(
                    x@,
                    y@,
                    len as int,
                    lags as int,
                )[k],
    {
        corr.push(cross(x, y, i, len / 4, 0));
    }
    assert(corr@ =~= coarse_correlations(x@, y@, len as int, lags as int));
    corr
}

/// Computes [`near`].
fn is_near(i: usize, lag: usize) -> (b: bool)
    requires
        i <= 0xffff,
        lag <= 0xffff,
    ensures
        b == near(i as int, lag as int),
{
    i + 2 >= 2 * lag && i <= 2 * lag + 2
}

/// Computes [`fine_correlations`].
fn correlate_finely(
    x: &Vec<i16>,
    y: &Vec<i16>,
    len: usize,
    lags: usize,
    bits: u32,
    first: usize,
    second: usize,
) -> (corr: Vec<i32>)
    requires
        len / 2 <= x@.len(),
        len / 2 + lags / 2 <= y@.len(),
        len <= 0xffff,
        lags <= 0xffff,
        bits < 32,
        first <= 0xffff,
        second <= 0xffff,
    ensures
        corr@ == fine_correlations(
            x@,
            y@,
            len as int,
            lags as int,
            bits as int,
            (first as int, second as int),
        ),
        corr@.len() == lags / 2,
{
    let ghost want = fine_correlations(
        x@,
        y@,
        len as int,
        lags as int,
        bits as int,
        (first as int, second as int),
    );
    let mut corr: Vec<i32> = Vec::new();
    for i in 0..lags / 2
        invariant
            len / 2 <= x@.len(),
            len / 2 + lags / 2 <= y@.len(),
            lags <= 0xffff,
            bits < 32,
            first <= 0xffff,
            second <= 0xffff,
            want == fine_correlations(
                x@,
                y@,
                len as int,
                lags as int,
                bits as int,
                (first as int, second as int),
            ),
            corr@.len() == i,
            forall|k: int| 0 <= k < i ==> #[trigger] corr@[k] == want[k],
    {
        let v: i32 = if is_near(i, first) || is_near(i, second) {
            cross(x, y, i, len / 2, bits)
        } else {
            0
        };
        corr.push(if v < -1 { -1 } else { v });
    }
    assert(corr@ =~= want);
    corr
}

/// Computes [`searched`].
pub fn pitch_search(x: &Vec<i16>, y: &Vec<i16>, len: usize, lags: usize) -> (lag: i32)
    requires
        4 <= len <= 0xffff,
        4 <= lags <= 0xffff,
        len / 2 <= x@.len(),
        (len + lags) / 2 <= y@.len(),
    ensures
        lag == searched(x@, y@, len as int, lags as int),
        0 <= lag <= lags,
{
    let x4: Vec<i16> = decimate(x, len / 4, 0);
    let y4: Vec<i16> = decimate(y, (len + lags) / 4, 0);
    let a: i32 = find_maxabs(&x4, 0);
    let b: i32 = find_maxabs(&y4, 0);
    let excess: i32 = celt_zlog2(if a >= b { a } else { b }) - 14 + celt_zlog2(len as i32) / 2;
    let bits: u32 = if excess > 0 { excess as u32 } else { 0 };
    proof {
        vstd::arithmetic::power2::lemma2_to64();
        crate::math::lemma_bit_length_bound((if a >= b { a } else { b }) as nat, 16);
        crate::math::lemma_bit_length_bound(len as nat, 16);
    }
    let xs: Vec<i16> = decimate(x, len / 4, bits);
    let ys: Vec<i16> = decimate(y, (len + lags) / 4, bits);
    let coarse_corr: Vec<i32> = correlate_coarsely(&xs, &ys, len, lags);
    let coarse_top: i32 = find_top(&coarse_corr);
    let (first, second) = find_best_pitch(&coarse_corr, &ys, len / 4, 0, coarse_top);
    let fine_corr: Vec<i32> = correlate_finely(x, y, len, lags, 2 * bits, first, second);
    let fine_top: i32 = find_top(&fine_corr);
    let (best, _) = find_best_pitch(&fine_corr, y, len / 2, 2 * bits + 1, fine_top);
    2 * (best as i32) - find_half_step(&fine_corr, best)
}

} // verus!
