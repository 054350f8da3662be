//! Band-wise operations on spectra: energies, normalisation and its inverse.

use vstd::arithmetic::power2::pow2;
use vstd::prelude::*;
use crate::band_tf::{scale, scale_of};
use crate::fixed::{
    extract16, mult16_16, mult16_16_q15, mult16_32_q15, pshr32, shl32, shr32, vshr32,
};
use crate::math::{celt_ilog2, celt_rcp, celt_sqrt, celt_zlog2, ilog2, rcp, sqrt_approx, zlog2};
use crate::mode::OpusCustomMode;

verus! {

/// Band edges scaled by `m` are ordered and lie in the spectrum.
pub proof fn lemma_scaled_edges(mode: OpusCustomMode, m: int, i: int, j: int)
    requires
        mode.spectrum_wf(),
        0 <= i <= j <= mode.num_ebands,
        1 <= m <= 8,
    ensures
        0 <= m * mode.edge(i) <= m * mode.edge(j) <= m * mode.short_mdct_size <= 2048,
        m * mode.edge(j) - m * mode.edge(i) == m * (mode.edge(j) - mode.edge(i)),
{
    let a = mode.edge(i);
    let b = mode.edge(j);
    let s = mode.short_mdct_size as int;
    assert(mode.edge(0) <= a <= b <= mode.edge(mode.num_ebands as int));
    assert(0 <= m * a <= m * b <= m * s <= 2048 && m * b - m * a == m * (b - a))
        by (nonlinear_arith)
        requires
            0 <= a <= b <= s <= 256,
            1 <= m <= 8,
    ;
}

/// First coefficient of a band when a short-block bin has `m` coefficients.
pub fn band_edge(mode: &OpusCustomMode, m: usize, band: usize) -> (r: usize)
    requires
        mode.spectrum_wf(),
        band <= mode.num_ebands,
        1 <= m <= 8,
    ensures
        r == m * mode.edge(band as int),
        r <= m * mode.short_mdct_size,
        r <= 2048,
{
    proof {
        lemma_scaled_edges(*mode, m as int, band as int, band as int);
        assert(mode.e_bands@[0] <= mode.e_bands@[band as int]);
    }
    m * mode.e_bands[band] as usize
}

/// Rows of a table with `channels` rows lie in it.
pub proof fn lemma_row(c: int, channels: int, n: int)
    requires
        0 <= c < channels,
        0 <= n,
    ensures
        0 <= c * n,
        c * n + n <= channels * n,
{
    assert(0 <= c * n && c * n + n <= channels * n) by (nonlinear_arith)
        requires
            0 <= c < channels,
            0 <= n,
    ;
}

/// A sequence with `part` written at `at`.
pub open spec fn written<T>(s: Seq<T>, at: int, part: Seq<T>) -> Seq<T> {
    Seq::new(s.len(), |k: int| if at <= k < at + part.len() { part[k - at] } else { s[k] })
}

/// Applies [`written`].
pub fn write_at<T: Copy>(x: &mut Vec<T>, at: usize, part: &Vec<T>)
    requires
        at + part@.len() <= old(x)@.len(),
    ensures
        final(x)@ == written(old(x)@, at as int, part@),
{
    let ghost x0 = x@;
    for i in 0..part.len()
        invariant
            at + part@.len() <= x@.len(),
            x@.len() == x0.len(),
            forall|k: int|
                0 <= k < x0.len() ==> #[trigger] x@[k] == (if at <= k < at + i {
                    part@[k - at]
                } else {
                    x0[k]
                }),
    {
        assert(at + i < x@.len());
        assert(x@.len() == x.len());
        x.set(at + i, part[i]);
    }
    assert(x@ =~= written(x0, at as int, part@));
}

/// Fraction polynomial of the base-two exponential, in Q14; the argument is in
/// Q14.
pub open spec fn exp2_poly(frac: i16) -> i16 {
    16383i16.wrapping_add(
        mult16_16_q15(
            frac,
            22804i16.wrapping_add(
                mult16_16_q15(frac, 14819i16.wrapping_add(mult16_16_q15(10204, frac))),
            ),
        ),
    )
}

/// Computes [`exp2_poly`].
fn exp2_fraction(frac: i16) -> (r: i16)
    ensures
        r == exp2_poly(frac),
{
    16383i16.wrapping_add(
        mult16_16_q15(
            frac,
            22804i16.wrapping_add(
                mult16_16_q15(frac, 14819i16.wrapping_add(mult16_16_q15(10204, frac))),
            ),
        ),
    )
}

/// Base-two exponential of a Q10 value, in Q16.
pub open spec fn exp2_q10(x: i16) -> i32 {
    let integer = x >> 10u32;
    if integer > 14 {
        0x7f000000
    } else if integer < -15 {
        0
    } else {
        vshr32(
            exp2_poly(x.wrapping_sub(integer << 10u32) << 4u32) as i32,
            (-integer - 2) as i32,
        )
    }
}

/// Computes [`exp2_q10`].
pub fn celt_exp2_q10(x: i16) -> (r: i32)
    ensures
        r == exp2_q10(x),
{
    let integer: i16 = x >> 10u32;
    if integer > 14 {
        return 0x7f000000;
    }
    if integer < -15 {
        return 0;
    }
    vshr32(
        exp2_fraction(x.wrapping_sub(integer << 10u32) << 4u32) as i32,
        -(integer as i32) - 2,
    )
}

/// Base-two exponential of a log energy, in Q16.
pub open spec fn exp2_db(x: i32) -> i32 {
    exp2_q10(pshr32(x, 14) as i16)
}

/// Computes [`exp2_db`].
pub fn celt_exp2_db(x: i32) -> (r: i32)
    ensures
        r == exp2_db(x),
{
    celt_exp2_q10(pshr32(x, 14) as i16)
}

/// Magnitude of a word; the smallest word is its own magnitude.
#[verifier::allow_in_spec]
pub fn abs32(v: i32) -> i32
    returns
        if v < 0 { 0i32.wrapping_sub(v) } else { v },
{
    if v < 0 {
        0i32.wrapping_sub(v)
    } else {
        v
    }
}

/// Largest magnitude of the first `n` elements behind `at`.
pub open spec fn peak(x: Seq<i32>, at: int, n: int) -> i32
    decreases n,
{
    if n <= 0 {
        0
    } else {
        let before = peak(x, at, n - 1);
        let v = abs32(x[at + n - 1]);
        if v > before {
            v
        } else {
            before
        }
    }
}

/// A coefficient scaled so that the peak of its band has fifteen bits.
pub open spec fn scaled_sample(v: i32, shift: int) -> i16 {
    if shift > 0 {
        extract16(shr32(v, shift as u32))
    } else {
        extract16(shl32(v, (-shift) as u32))
    }
}

/// Sum of the scaled squares of `n` coefficients behind `at`.
pub open spec fn energy_sum(x: Seq<i32>, at: int, n: int, shift: int, down: int) -> i32
    decreases n,
{
    if n <= 0 {
        0
    } else {
        let v = scaled_sample(x[at + n - 1], shift);
        energy_sum(x, at, n - 1, shift, down).wrapping_add(
            shr32(mult16_16(v, v), (2 * down) as u32),
        )
    }
}

/// A positive sum brought to at least 2^28 by quadrupling, with its exponent.
pub open spec fn quadrupled(sum: i32, shift: int) -> (i32, int)
    decreases (if 0 < sum < 0x10000000 { 0x10000000 - sum } else { 0 }),
{
    if 0 < sum < 0x10000000 {
        quadrupled((sum * 4) as i32, shift - 1)
    } else {
        (sum, shift)
    }
}

/// Half the bits by which squares are scaled down so that their sum fits.
pub open spec fn energy_shift(log_n: i16, lm: int) -> int {
    (log_n / 8 + lm + 1) / 2
}

/// Amplitude of a band of `n` coefficients behind `at`.
pub open spec fn band_energy(x: Seq<i32>, at: int, n: int, log_n: i16, lm: int) -> i32 {
    let top = peak(x, at, n);
    if top > 0 {
        let shift = ilog2(top as int) - 14;
        let down = energy_shift(log_n, lm);
        let (sum, exponent) = quadrupled(energy_sum(x, at, n, shift, down), shift + down);
        1i32.wrapping_add(vshr32(sqrt_approx(sum), (-exponent) as i32))
    } else {
        1
    }
}

/// The sum of squares of a band is positive unless the band is silent.
pub open spec fn energy_fits(x: Seq<i32>, at: int, n: int, log_n: i16, lm: int) -> bool {
    let top = peak(x, at, n);
    top > 0 ==> energy_sum(x, at, n, ilog2(top as int) - 14, energy_shift(log_n, lm)) > 0
}

/// Computes [`band_energy`].
fn measure_band(x: &Vec<i32>, at: usize, n: usize, log_n: i16, lm: usize) -> (e: i32)
    requires
        at + n <= x@.len(),
        lm <= 3,
        0 <= log_n < 208,
        energy_fits(x@, at as int, n as int, log_n, lm as int),
    ensures
        e == band_energy(x@, at as int, n as int, log_n, lm as int),
{
    assert(x@.len() == x.len());
    let mut top: i32 = 0;
    for i in 0..n
        invariant
            at + n <= x@.len(),
            x@.len() == x.len(),
            top == peak(x@, at as int, i as int),
            top >= 0,
    {
        let v: i32 = abs32(x[at + i]);
        if v > top {
            top = v;
        }
    }
    if top <= 0 {
        return 1;
    }
    let mut shift: i32 = celt_ilog2(top) - 14;
    let down: i32 = (log_n as i32 / 8 + lm as i32 + 1) / 2;
    let ghost first = shift as int;
    let mut sum: i32 = 0;
    for i in 0..n
        invariant
            at + n <= x@.len(),
            x@.len() == x.len(),
            -14 <= shift <= 16,
            0 <= down <= 15,
            sum == energy_sum(x@, at as int, i as int, shift as int, down as int),
    {
        let v: i16 = if shift > 0 {
            extract16(shr32(x[at + i], shift as u32))
        } else {
            extract16(shl32(x[at + i], (-shift) as u32))
        };
        sum = sum.wrapping_add(shr32(mult16_16(v, v), (2 * down) as u32));
    }
    let ghost total = sum;
    shift = shift + down;
    let ghost begin = shift as int;
    let ghost mut steps: int = 0;
    while sum < 0x10000000
        invariant
            sum > 0,
            0 <= steps <= 14,
            shift == begin - steps,
            -14 <= begin <= 31,
            quad(steps) <= sum,
            quadrupled(sum, shift as int) == quadrupled(total, begin),
        decreases (if sum < 0x10000000 { 0x10000000 - sum } else { 0 }),
    {
        assert(quad(14) == 0x10000000) by {
            reveal_with_fuel(quad, 15);
        }
        sum = sum * 4;
        shift = shift - 1;
        proof {
            steps = steps + 1;
        }
    }
    1i32.wrapping_add(vshr32(celt_sqrt(sum), -shift))
}

/// Four to the power `k`.
pub open spec fn quad(k: int) -> int
    decreases k,
{
    if k <= 0 {
        1
    } else {
        4 * quad(k - 1)
    }
}

/// Energies of the bands of channel `c` from `band` up to `end` filled in.
pub open spec fn channel_measured(
    mode: OpusCustomMode,
    x: Seq<i32>,
    e: Seq<i32>,
    end: int,
    lm: int,
    c: int,
    band: int,
) -> Seq<i32>
    decreases end - band,
{
    if band >= end {
        e
    } else {
        let m = scale_of(lm);
        channel_measured(
            mode,
            x,
            e.update(
                c * mode.num_ebands + band,
                band_energy(
                    x,
                    c * (m * mode.short_mdct_size) + m * mode.edge(band),
                    m * mode.width(band),
                    mode.log_n@[band],
                    lm,
                ),
            ),
            end,
            lm,
            c,
            band + 1,
        )
    }
}

/// Energies of the bands of all channels from `c` on filled in.
pub open spec fn bands_measured(
    mode: OpusCustomMode,
    x: Seq<i32>,
    e: Seq<i32>,
    end: int,
    channels: int,
    lm: int,
    c: int,
) -> Seq<i32>
    decreases channels - c,
{
    if c >= channels {
        e
    } else {
        bands_measured(
            mode,
            x,
            channel_measured(mode, x, e, end, lm, c, 0),
            end,
            channels,
            lm,
            c + 1,
        )
    }
}

/// [`energy_fits`] for one band of a mode.
pub open spec fn band_fits(mode: OpusCustomMode, x: Seq<i32>, lm: int, c: int, band: int) -> bool {
    let m = scale_of(lm);
    energy_fits(
        x,
        c * (m * mode.short_mdct_size) + m * mode.edge(band),
        m * mode.width(band),
        mode.log_n@[band],
        lm,
    )
}

/// [`energy_fits`] for all bands that are measured.
pub open spec fn energies_fit(
    mode: OpusCustomMode,
    x: Seq<i32>,
    end: int,
    channels: int,
    lm: int,
) -> bool {
    forall|c: int, band: int|
        0 <= c < channels && 0 <= band < end ==> #[trigger] band_fits(mode, x, lm, c, band)
}

/// Measures the amplitude of each band of each channel.
pub fn compute_band_energies(
    mode: &OpusCustomMode,
    x: &Vec<i32>,
    band_e: &mut Vec<i32>,
    end: usize,
    channels: usize,
    lm: usize,
)
    requires
        mode.spectrum_wf(),
        mode.log_n@.len() == mode.num_ebands,
        end <= mode.num_ebands,
        lm <= 3,
        channels * (scale_of(lm as int) * mode.short_mdct_size) <= x@.len(),
        channels * mode.num_ebands <= old(band_e)@.len(),
        forall|band: int|
            0 <= band < end ==> 0 <= #[trigger] mode.log_n@[band] < 208,
        energies_fit(*mode, x@, end as int, channels as int, lm as int),
    ensures
        final(band_e)@ == bands_measured(
            *mode,
            x@,
            old(band_e)@,
            end as int,
            channels as int,
            lm as int,
            0,
        ),
        final(band_e)@.len() == old(band_e)@.len(),
{
    let m: usize = scale(lm as i32);
    let ghost e0 = band_e@;
    assert(x@.len() == x.len() && band_e@.len() == band_e.len());
    proof {
        lemma_scaled_edges(*mode, m as int, 0, 0);
    }
    let n: usize = m * mode.short_mdct_size;
    let mut c: usize = 0;
    while c < channels
        invariant
            mode.spectrum_wf(),
            mode.log_n@.len() == mode.num_ebands,
            end <= mode.num_ebands,
            lm <= 3,
            m == scale_of(lm as int),
            n == m * mode.short_mdct_size,
            channels * n <= x@.len(),
            x@.len() == x.len(),
            channels * mode.num_ebands <= band_e@.len(),
            band_e@.len() == e0.len(),
            band_e@.len() <= usize::MAX,
            c <= channels,
            forall|band: int| 0 <= band < end ==> 0 <= #[trigger] mode.log_n@[band] < 208,
            energies_fit(*mode, x@, end as int, channels as int, lm as int),
            bands_measured(
                *mode,
                x@,
                band_e@,
                end as int,
                channels as int,
                lm as int,
                c as int,
            ) == bands_measured(*mode, x@, e0, end as int, channels as int, lm as int, 0),
        decreases channels - c,
    {
        proof {
            lemma_row(c as int, channels as int, n as int);
            lemma_row(c as int, channels as int, mode.num_ebands as int);
        }
        let base: usize = c * n;
        let row: usize = c * mode.num_ebands;
        let ghost e1 = band_e@;
        let mut band: usize = 0;
        while band < end
            invariant
                mode.spectrum_wf(),
                mode.log_n@.len() == mode.num_ebands,
                end <= mode.num_ebands,
                lm <= 3,
                m == scale_of(lm as int),
                n == m * mode.short_mdct_size,
                c < channels,
                base == c * n,
                row == c * mode.num_ebands,
                base + n <= x@.len(),
                x@.len() == x.len(),
                row + mode.num_ebands <= band_e@.len(),
                band_e@.len() == e0.len(),
                band <= end,
                forall|b: int| 0 <= b < end ==> 0 <= #[trigger] mode.log_n@[b] < 208,
                energies_fit(*mode, x@, end as int, channels as int, lm as int),
                channel_measured(
                    *mode,
                    x@,
                    band_e@,
                    end as int,
                    lm as int,
                    c as int,
                    band as int,
                ) == channel_measured(*mode, x@, e1, end as int, lm as int, c as int, 0),
            decreases end - band,
        {
            proof {
                lemma_scaled_edges(*mode, m as int, band as int, band + 1);
                assert(band_fits(*mode, x@, lm as int, c as int, band as int));
            }
            let from: usize = band_edge(mode, m, band);
            let to: usize = band_edge(mode, m, band + 1);
            let e: i32 = measure_band(x, base + from, to - from, mode.log_n[band], lm);
            assert(band_e@.len() == band_e.len());
            band_e.set(row + band, e);
            band = band + 1;
        }
        c = c + 1;
    }
}

/// A coefficient divided by the amplitude of its band.
pub open spec fn normal_value(v: i32, e: i32) -> i16 {
    let shift = zlog2(e as int) - 14;
    let g = extract16(rcp(vshr32(e, (shift - 2) as i32)));
    let scaled = mult16_32_q15(g, v);
    if shift > 0 {
        extract16(pshr32(scaled, shift as u32))
    } else {
        extract16(shl32(scaled, (-shift) as u32))
    }
}

/// Bands of channel `c` from `band` up to `end` normalised.
pub open spec fn channel_normalised(
    mode: OpusCustomMode,
    freq: Seq<i32>,
    x: Seq<i16>,
    e: Seq<i32>,
    end: int,
    m: int,
    c: int,
    band: int,
) -> Seq<i16>
    decreases end - band,
{
    if band >= end {
        x
    } else {
        let at = c * (m * mode.short_mdct_size) + m * mode.edge(band);
        channel_normalised(
            mode,
            freq,
            written(
                x,
                at,
                Seq::new(
                    (m * mode.width(band)) as nat,
                    |j: int| normal_value(freq[at + j], e[c * mode.num_ebands + band]),
                ),
            ),
            e,
            end,
            m,
            c,
            band + 1,
        )
    }
}

/// Bands of all channels from `c` on normalised.
pub open spec fn bands_normalised(
    mode: OpusCustomMode,
    freq: Seq<i32>,
    x: Seq<i16>,
    e: Seq<i32>,
    end: int,
    channels: int,
    m: int,
    c: int,
) -> Seq<i16>
    decreases channels - c,
{
    if c >= channels {
        x
    } else {
        bands_normalised(
            mode,
            freq,
            channel_normalised(mode, freq, x, e, end, m, c, 0),
            e,
            end,
            channels,
            m,
            c + 1,
        )
    }
}

/// Normalised coefficients of one band.
fn normal_band(freq: &Vec<i32>, at: usize, n: usize, e: i32) -> (r: Vec<i16>)
    requires
        at + n <= freq@.len(),
        e > 0,
    ensures
        r@ == Seq::new(n as nat, |j: int| normal_value(freq@[at + j], e)),
        r@.len() == n,
{
    assert(freq@.len() == freq.len());
    let shift: i32 = celt_zlog2(e) - 14;
    proof {
        lemma_normal_divisor(e);
    }
    let g: i16 = extract16(celt_rcp(vshr32(e, shift - 2)));
    let mut r: Vec<i16> = Vec::new();
    for j in 0..n
        invariant
            at + n <= freq@.len(),
            freq@.len() == freq.len(),
            shift == zlog2(e as int) - 14,
            -14 <= shift <= 16,
            g == extract16(rcp(vshr32(e, (shift - 2) as i32))),
            r@.len() == j,
            forall|k: int| 0 <= k < j ==> r@[k] == normal_value(freq@[at + k], e),
    {
        let scaled: i32 = mult16_32_q15(g, freq[at + j]);
        let v: i16 = if shift > 0 {
            extract16(pshr32(scaled, shift as u32))
        } else {
            extract16(shl32(scaled, (-shift) as u32))
        };
        r.push(v);
    }
    assert(r@ =~= Seq::new(n as nat, |j: int| normal_value(freq@[at + j], e)));
    r
}

/// A positive amplitude, brought to seventeen bits, stays positive.
proof fn lemma_normal_divisor(e: i32)
    requires
        e > 0,
    ensures
        vshr32(e, (zlog2(e as int) - 16) as i32) > 0,
        0 <= zlog2(e as int) <= 30,
{
    vstd::arithmetic::power2::lemma2_to64();
    let k = zlog2(e as int);
    crate::math::lemma_bit_length(e as nat);
    crate::math::lemma_bit_length_bound(e as nat, 31);
    let s = (k - 16) as i32;
    if s > 0 {
        vstd::arithmetic::power2::lemma_pow2_adds(16, s as nat);
        vstd::bits::lemma_u32_shr_is_div(e as u32, s as u32);
        let u = s as u32;
        assert(0 < e && u < 32 ==> (e >> u) == ((e as u32) >> u) as i32 && ((e as u32) >> u)
            < 0x80000000) by (bit_vector);
        vstd::arithmetic::div_mod::lemma_div_is_ordered(
            pow2(k as nat) as int,
            e as int,
            pow2(s as nat) as int,
        );
        vstd::arithmetic::div_mod::lemma_div_multiples_vanish(
            pow2(16) as int,
            pow2(s as nat) as int,
        );
        vstd::arithmetic::mul::lemma_mul_is_commutative(
            pow2(16) as int,
            pow2(s as nat) as int,
        );
        vstd::arithmetic::power2::lemma_pow2_pos(s as nat);
    } else {
        let t = (-s) as u32;
        let room = (1u32 << ((17 - t) as u32)) as u32;
        assert(t <= 16);
        vstd::arithmetic::power2::lemma_pow2_strictly_increases(
            (k + 1) as nat,
            (17 - t + 1) as nat,
        );
        assert(e < 0x20000);
        vstd::bits::lemma_u32_shl_is_mul(1, (17 - t) as u32);
        assert(e as u32 <= (1u32 << ((17 - t) as u32)) && 0 < e && t <= 16 ==> ((e as u32) << t)
            <= 0x20000 && ((e as u32) << t) > 0) by (bit_vector);
    }
}

/// Scales each band of each channel to unit energy.
pub fn normalise_bands(
    mode: &OpusCustomMode,
    freq: &Vec<i32>,
    x: &mut Vec<i16>,
    band_e: &Vec<i32>,
    end: usize,
    channels: usize,
    m: usize,
)
    requires
        mode.spectrum_wf(),
        end <= mode.num_ebands,
        1 <= m <= 8,
        channels * (m * mode.short_mdct_size) <= freq@.len(),
        channels * (m * mode.short_mdct_size) <= old(x)@.len(),
        channels * mode.num_ebands <= band_e@.len(),
        forall|k: int| 0 <= k < channels * mode.num_ebands ==> #[trigger] band_e@[k] > 0,
    ensures
        final(x)@ == bands_normalised(
            *mode,
            freq@,
            old(x)@,
            band_e@,
            end as int,
            channels as int,
            m as int,
            0,
        ),
        final(x)@.len() == old(x)@.len(),
{
    let ghost x0 = x@;
    assert(freq@.len() == freq.len() && x@.len() == x.len() && band_e@.len() == band_e.len());
    proof {
        lemma_scaled_edges(*mode, m as int, 0, 0);
    }
    let n: usize = m * mode.short_mdct_size;
    let mut c: usize = 0;
    while c < channels
        invariant
            mode.spectrum_wf(),
            end <= mode.num_ebands,
            1 <= m <= 8,
            n == m * mode.short_mdct_size,
            channels * n <= freq@.len(),
            channels * n <= x@.len(),
            channels * mode.num_ebands <= band_e@.len(),
            freq@.len() == freq.len(),
            band_e@.len() == band_e.len(),
            x@.len() == x0.len(),
            c <= channels,
            forall|k: int| 0 <= k < channels * mode.num_ebands ==> #[trigger] band_e@[k] > 0,
            bands_normalised(
                *mode,
                freq@,
                x@,
                band_e@,
                end as int,
                channels as int,
                m as int,
                c as int,
            ) == bands_normalised(
                *mode,
                freq@,
                x0,
                band_e@,
                end as int,
                channels as int,
                m as int,
                0,
            ),
        decreases channels - c,
    {
        proof {
            lemma_row(c as int, channels as int, n as int);
            lemma_row(c as int, channels as int, mode.num_ebands as int);
        }
        let base: usize = c * n;
        let row: usize = c * mode.num_ebands;
        let ghost x1 = x@;
        let mut band: usize = 0;
        while band < end
            invariant
                mode.spectrum_wf(),
                end <= mode.num_ebands,
                1 <= m <= 8,
                n == m * mode.short_mdct_size,
                c < channels,
                base == c * n,
                row == c * mode.num_ebands,
                base + n <= freq@.len(),
                base + n <= x@.len(),
                row + mode.num_ebands <= channels * mode.num_ebands,
                channels * mode.num_ebands <= band_e@.len(),
                freq@.len() == freq.len(),
                band_e@.len() == band_e.len(),
                x@.len() == x0.len(),
                band <= end,
                forall|k: int| 0 <= k < channels * mode.num_ebands ==> #[trigger] band_e@[k] > 0,
                channel_normalised(
                    *mode,
                    freq@,
                    x@,
                    band_e@,
                    end as int,
                    m as int,
                    c as int,
                    band as int,
                ) == channel_normalised(
                    *mode,
                    freq@,
                    x1,
                    band_e@,
                    end as int,
                    m as int,
                    c as int,
                    0,
                ),
            decreases end - band,
        {
            proof {
                lemma_scaled_edges(*mode, m as int, band as int, band + 1);
                lemma_scaled_edges(*mode, m as int, band + 1, mode.num_ebands as int);
            }
            let from: usize = band_edge(mode, m, band);
            let to: usize = band_edge(mode, m, band + 1);
            let part: Vec<i16> = normal_band(freq, base + from, to - from, band_e[row + band]);
            write_at(x, base + from, &part);
            band = band + 1;
        }
        c = c + 1;
    }
}

/// Mean log energy of each band, in Q4.
pub open spec fn e_mean_q4(band: int) -> int {
    seq![
        103int,
        100,
        92,
        85,
        81,
        77,
        72,
        70,
        78,
        75,
        73,
        71,
        78,
        74,
        69,
        72,
        70,
        74,
        76,
        71,
        60,
        60,
        60,
        60,
        60,
    ][band]
}

/// Computes [`e_mean_q4`].
fn mean_energy(band: usize) -> (e: i32)
    requires
        band < 25,
    ensures
        e == e_mean_q4(band as int),
        0 <= e <= 103,
{
    let table: [i32; 25] = [
        103, 100, 92, 85, 81, 77, 72, 70, 78, 75, 73, 71, 78, 74, 69, 72, 70, 74, 76, 71, 60, 60,
        60, 60, 60,
    ];
    table[band]
}

/// Gain of a band and the shift that follows it.
pub open spec fn denormal_gain(log_e: i32, band: int) -> (i32, int) {
    let lg = log_e.wrapping_add(shl32(e_mean_q4(band) as i32, 20));
    let shift = 15 - (lg >> 24u32);
    if shift > 31 {
        (0, 0)
    } else if shift <= -2 {
        (536870912, -2)
    } else {
        let frac = (pshr32(lg & 0xffffff, 14) as i16) << 4u32;
        (shl32(exp2_poly(frac) as i32, 14), shift)
    }
}

/// A coefficient of unit scale brought back to the energy of its band.
pub open spec fn denormal_value(v: i16, gain: (i32, int)) -> i32 {
    let scaled = mult16_32_q15(v, gain.0);
    if gain.1 < 0 {
        shl32(scaled, (-gain.1) as u32)
    } else {
        shr32(scaled, gain.1 as u32)
    }
}

/// Computes [`denormal_gain`].
fn band_gain(log_e: i32, band: usize) -> (g: (i32, i32))
    requires
        band < 25,
    ensures
        (g.0, g.1 as int) == denormal_gain(log_e, band as int),
        -2 <= g.1 <= 31,
{
    let lg: i32 = log_e.wrapping_add(shl32(mean_energy(band), 20));
    assert(-128 <= (lg >> 24u32) <= 127) by (bit_vector);
    let shift: i32 = 15 - (lg >> 24u32);
    if shift > 31 {
        (0, 0)
    } else if shift <= -2 {
        (536870912, -2)
    } else {
        let frac: i16 = (pshr32(lg & 0xffffff, 14) as i16) << 4u32;
        (shl32(exp2_fraction(frac) as i32, 14), shift)
    }
}

/// Bands from `band` up to `end` written with their energies.
pub open spec fn bands_written(
    mode: OpusCustomMode,
    x: Seq<i16>,
    freq: Seq<i32>,
    log_e: Seq<i32>,
    end: int,
    m: int,
    band: int,
) -> Seq<i32>
    decreases end - band,
{
    if band >= end {
        freq
    } else {
        let at = m * mode.edge(band);
        let gain = denormal_gain(log_e[band], band);
        bands_written(
            mode,
            x,
            written(
                freq,
                at,
                Seq::new((m * mode.width(band)) as nat, |j: int| denormal_value(x[at + j], gain)),
            ),
            log_e,
            end,
            m,
            band + 1,
        )
    }
}

/// Elements from `from` to `to` cleared.
pub open spec fn cleared(s: Seq<i32>, from: int, to: int) -> Seq<i32> {
    Seq::new(s.len(), |k: int| if from <= k < to { 0 } else { s[k] })
}

/// Applies [`cleared`].
fn clear(s: &mut Vec<i32>, from: usize, to: usize)
    requires
        to <= old(s)@.len(),
    ensures
        final(s)@ == cleared(old(s)@, from as int, to as int),
{
    let ghost s0 = s@;
    let mut k: usize = from;
    while k < to
        invariant
            from <= k,
            from <= to ==> k <= to,
            to <= s@.len(),
            s@.len() == s0.len(),
            forall|j: int|
                0 <= j < s0.len() ==> #[trigger] s@[j] == (if from <= j < k && j < to {
                    0
                } else {
                    s0[j]
                }),
        decreases to - k,
    {
        s.set(k, 0);
        k = k + 1;
    }
    assert(s@ =~= cleared(s0, from as int, to as int));
}

/// End of the part of the spectrum that is kept.
pub open spec fn spectrum_bound(
    mode: OpusCustomMode,
    end: int,
    m: int,
    downsample: int,
    silence: bool,
) -> int {
    let edge = m * mode.edge(end);
    let limit = (m * mode.short_mdct_size) / downsample;
    if silence {
        0
    } else if downsample != 1 && limit < edge {
        limit
    } else {
        edge
    }
}

/// A spectrum with the coded bands at their energies and zeros around them.
pub open spec fn denormalised(
    mode: OpusCustomMode,
    x: Seq<i16>,
    freq: Seq<i32>,
    log_e: Seq<i32>,
    start: int,
    end: int,
    m: int,
    downsample: int,
    silence: bool,
) -> Seq<i32> {
    let first = if silence { 0 } else { start };
    let last = if silence { 0 } else { end };
    cleared(
        bands_written(
            mode,
            x,
            cleared(freq, 0, m * mode.edge(first)),
            log_e,
            last,
            m,
            first,
        ),
        spectrum_bound(mode, end, m, downsample, silence),
        m * mode.short_mdct_size,
    )
}

/// Coefficients of one band at their energy.
fn denormal_band(x: &Vec<i16>, at: usize, n: usize, gain: (i32, i32)) -> (r: Vec<i32>)
    requires
        at + n <= x@.len(),
        -2 <= gain.1 <= 31,
    ensures
        r@ == Seq::new(n as nat, |j: int| denormal_value(x@[at + j], (gain.0, gain.1 as int))),
        r@.len() == n,
{
    assert(x@.len() == x.len());
    let (g, shift) = gain;
    let mut r: Vec<i32> = Vec::new();
    for j in 0..n
        invariant
            at + n <= x@.len(),
            x@.len() == x.len(),
            -2 <= shift <= 31,
            r@.len() == j,
            forall|k: int| 0 <= k < j ==> r@[k] == denormal_value(x@[at + k], (g, shift as int)),
    {
        let scaled: i32 = mult16_32_q15(x[at + j], g);
        let v: i32 = if shift < 0 {
            shl32(scaled, (-shift) as u32)
        } else {
            shr32(scaled, shift as u32)
        };
        r.push(v);
    }
    assert(r@ =~= Seq::new(
        n as nat,
        |j: int| denormal_value(x@[at + j], (gain.0, gain.1 as int)),
    ));
    r
}

/// Brings the normalised bands of one channel back to their energies.
pub fn denormalise_bands(
    mode: &OpusCustomMode,
    x: &Vec<i16>,
    freq: &mut Vec<i32>,
    band_log_e: &Vec<i32>,
    start: usize,
    end: usize,
    m: usize,
    downsample: usize,
    silence: bool,
)
    requires
        mode.spectrum_wf(),
        start <= mode.num_ebands,
        end <= mode.num_ebands,
        1 <= m <= 8,
        downsample > 0,
        end <= band_log_e@.len(),
        m * mode.short_mdct_size <= x@.len(),
        m * mode.short_mdct_size <= old(freq)@.len(),
    ensures
        final(freq)@ == denormalised(
            *mode,
            x@,
            old(freq)@,
            band_log_e@,
            start as int,
            end as int,
            m as int,
            downsample as int,
            silence,
        ),
        final(freq)@.len() == old(freq)@.len(),
{
    proof {
        lemma_scaled_edges(*mode, m as int, 0, 0);
        lemma_scaled_edges(*mode, m as int, end as int, end as int);
    }
    let n: usize = m * mode.short_mdct_size;
    let edge: usize = band_edge(mode, m, end);
    let limit: usize = n / downsample;
    let bound: usize = if silence {
        0
    } else if downsample != 1 && limit < edge {
        limit
    } else {
        edge
    };
    let first: usize = if silence { 0 } else { start };
    let last: usize = if silence { 0 } else { end };
    let from: usize = band_edge(mode, m, first);
    clear(freq, 0, from);
    let ghost f1 = freq@;
    let mut band: usize = first;
    while band < last
        invariant
            mode.spectrum_wf(),
            last <= mode.num_ebands,
            last <= band_log_e@.len(),
            1 <= m <= 8,
            n == m * mode.short_mdct_size,
            n <= x@.len(),
            n <= freq@.len(),
            freq@.len() == old(freq)@.len(),
            bands_written(
                *mode,
                x@,
                freq@,
                band_log_e@,
                last as int,
                m as int,
                band as int,
            ) == bands_written(
                *mode,
                x@,
                f1,
                band_log_e@,
                last as int,
                m as int,
                first as int,
            ),
        decreases last - band,
    {
        proof {
            lemma_scaled_edges(*mode, m as int, band as int, band + 1);
            assert(mode.num_ebands <= 25);
        }
        let at: usize = band_edge(mode, m, band);
        let to: usize = band_edge(mode, m, band + 1);
        let gain: (i32, i32) = band_gain(band_log_e[band], band);
        let part: Vec<i32> = denormal_band(x, at, to - at, gain);
        write_at(freq, at, &part);
        band = band + 1;
    }
    clear(freq, bound, n);
}

} // verus!
