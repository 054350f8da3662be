//! What the output channels play, and how spectra and samples are laid out.

use vstd::arithmetic::power2::lemma2_to64;
use vstd::prelude::*;
use crate::decode::{delivered, sig2word24, signal};
use crate::decoder::DecoderState;
use crate::division_laws::{lemma_pshr, lemma_q15_wide};
use crate::fixed::mult16_32_q15;
use crate::memory::{block_layout, row_moved};
use crate::plc::{sig2word16, sig_clamped, SIG_SAT};
use crate::spectrum::{
    bands_written, cleared, denormal_gain, denormal_value, denormalised, lemma_scaled_edges,
    written,
};
use crate::synthesis::{block_of, limited, Deemphasis, Spectra};

verus! {

/// A mono decoder plays the mean of two stream channels, rounded to nearest: where both
/// have the same spectrum it plays that spectrum, and it does not matter which of the
/// channels is the first.
pub proof fn law_mono_output_is_the_mean(s: Spectra, swapped: Spectra, i: int)
    requires
        s.coded_channels == 2,
        swapped.coded_channels == 2,
        s.channel(0).len() == s.channel(1).len(),
        swapped.channel(0) == s.channel(1),
        swapped.channel(1) == s.channel(0),
        0 <= i < s.channel(0).len(),
    ensures
        ({
            let a = s.channel(0)[i];
            let b = s.channel(1)[i];
            let out = s.output(1, 0);
            &&& out.len() == s.channel(0).len()
            &&& i32::MIN <= a + b < i32::MAX ==> a + b <= 2 * out[i] <= a + b + 1
            &&& a == b && i32::MIN <= a + b < i32::MAX ==> out[i] == a
            &&& swapped.output(1, 0)[i] == out[i]
        }),
{
    lemma2_to64();
    let a = s.channel(0)[i];
    let b = s.channel(1)[i];
    let sum = a.wrapping_add(b);
    assert(b.wrapping_add(a) == sum);
    if i32::MIN <= a + b < i32::MAX {
        lemma_pshr(sum, 1);
    }
}

/// A single stream channel is played by all outputs alike; two stream channels are
/// played by the output of their own.
pub proof fn law_outputs_play_their_channels(s: Spectra)
    ensures
        s.coded_channels == 1 ==> {
            &&& s.output(2, 0) == s.channel(0)
            &&& s.output(2, 1) == s.channel(0)
            &&& s.output(1, 0) == s.channel(0)
        },
        s.coded_channels == 2 ==> {
            &&& s.output(2, 0) == s.channel(0)
            &&& s.output(2, 1) == s.channel(1)
        },
{
}

/// The spectrum of a stream channel is made from its own coefficients and energies: the
/// second channel follows the first one in both.
pub proof fn law_channels_do_not_mix(s: Spectra, t: Spectra, c: int)
    requires
        t == (Spectra { x: t.x, old_band_e: t.old_band_e, ..s }),
        0 <= c,
        0 <= s.n(),
        (c + 1) * s.n() <= s.x.len(),
        (c + 1) * s.n() <= t.x.len(),
        (c + 1) * s.mode.num_ebands <= s.old_band_e.len(),
        (c + 1) * s.mode.num_ebands <= t.old_band_e.len(),
        forall|k: int| c * s.n() <= k < (c + 1) * s.n() ==> #[trigger] s.x[k] == t.x[k],
        forall|k: int|
            c * s.mode.num_ebands <= k < (c + 1) * s.mode.num_ebands
                ==> #[trigger] s.old_band_e[k] == t.old_band_e[k],
    ensures
        s.channel(c) == t.channel(c),
{
    let n = s.n();
    let bands = s.mode.num_ebands as int;
    assert((c + 1) * n == c * n + n && (c + 1) * bands == c * bands + bands) by (nonlinear_arith);
    assert(0 <= c * n && 0 <= c * bands) by (nonlinear_arith)
        requires
            0 <= c,
            0 <= n,
            0 <= bands,
    ;
    assert(s.x.subrange(c * n, c * n + n) =~= t.x.subrange(c * n, c * n + n));
    assert(s.old_band_e.subrange(c * bands, c * bands + bands) =~= t.old_band_e.subrange(
        c * bands,
        c * bands + bands,
    ));
}

/// What a band holds after bands were written.
proof fn lemma_bands_written(
    mode: crate::mode::OpusCustomMode,
    x: Seq<i16>,
    freq: Seq<i32>,
    log_e: Seq<i32>,
    end: int,
    m: int,
    from: int,
    band: int,
    k: int,
)
    requires
        mode.spectrum_wf(),
        1 <= m <= 8,
        0 <= from,
        end <= mode.num_ebands,
        0 <= band < mode.num_ebands,
        0 <= k < freq.len(),
        m * mode.edge(band) <= k < m * mode.edge(band + 1) || k < m * mode.edge(from) || k >= m
            * mode.edge(if end > from { end } else { from }),
        from <= mode.num_ebands,
    ensures
        ({
            let r = bands_written(mode, x, freq, log_e, end, m, from);
            let inside = m * mode.edge(band) <= k < m * mode.edge(band + 1);
            &&& r.len() == freq.len()
            &&& inside && from <= band < end ==> r[k] == denormal_value(
                x[k],
                denormal_gain(log_e[band], band),
            )
            &&& !(m * mode.edge(from) <= k < m * mode.edge(if end > from { end } else { from }))
                ==> r[k] == freq[k]
        }),
    decreases end - from,
{
    if from < end {
        let at = m * mode.edge(from);
        let gain = denormal_gain(log_e[from], from);
        let part = Seq::new((m * mode.width(from)) as nat, |j: int| denormal_value(x[at + j], gain));
        let y = written(freq, at, part);
        lemma_scaled_edges(mode, m, from, from + 1);
        lemma_scaled_edges(mode, m, from + 1, end);
        assert(m * mode.width(from) == m * mode.edge(from + 1) - at) by (nonlinear_arith)
            requires
                mode.width(from) == mode.edge(from + 1) - mode.edge(from),
                at == m * mode.edge(from),
        ;
        lemma_bands_written(mode, x, y, log_e, end, m, from + 1, band, k);
        if from < band {
            lemma_scaled_edges(mode, m, from + 1, band);
        } else if band < from {
            lemma_scaled_edges(mode, m, band + 1, from);
        }
    }
}

/// Each coefficient of a coded band is brought to the energy of its own band; nothing is
/// left below the first coded band, above the last one, above what the output rate can
/// carry, or anywhere in a silent frame.
pub proof fn law_bands_get_their_energies(
    mode: crate::mode::OpusCustomMode,
    x: Seq<i16>,
    freq: Seq<i32>,
    log_e: Seq<i32>,
    start: int,
    end: int,
    m: int,
    downsample: int,
    band: int,
    k: int,
)
    requires
        mode.spectrum_wf(),
        1 <= m <= 8,
        0 <= start <= mode.num_ebands,
        0 <= end <= mode.num_ebands,
        downsample >= 1,
        freq.len() == m * mode.short_mdct_size,
        0 <= band < mode.num_ebands,
        m * mode.edge(band) <= k < m * mode.edge(band + 1),
    ensures
        ({
            let r = denormalised(mode, x, freq, log_e, start, end, m, downsample, false);
            let limit = m * mode.short_mdct_size / downsample;
            let silent = denormalised(mode, x, freq, log_e, start, end, m, downsample, true);
            &&& r.len() == freq.len()
            &&& start <= band < end && (downsample == 1 || k < limit) ==> r[k] == denormal_value(
                x[k],
                denormal_gain(log_e[band], band),
            )
            &&& band >= end ==> r[k] == 0
            &&& band < start && start <= end ==> r[k] == 0
            &&& downsample != 1 && k >= limit ==> r[k] == 0
            &&& silent[k] == 0
        }),
{
    lemma_scaled_edges(mode, m, band, band + 1);
    lemma_scaled_edges(mode, m, 0, band);
    lemma_scaled_edges(mode, m, band + 1, mode.num_ebands as int);
    lemma_scaled_edges(mode, m, 0, start);
    lemma_scaled_edges(mode, m, 0, end);
    if start <= end {
        lemma_scaled_edges(mode, m, start, end);
    }
    if band < start {
        lemma_scaled_edges(mode, m, band + 1, start);
    } else {
        lemma_scaled_edges(mode, m, start, band);
    }
    if band < end {
        lemma_scaled_edges(mode, m, band + 1, end);
    } else {
        lemma_scaled_edges(mode, m, end, band);
    }
    let first = cleared(freq, 0, m * mode.edge(start));
    lemma_written_len(mode, x, first, log_e, end, m, start);
    lemma_written_len(mode, x, cleared(freq, 0, m * mode.edge(0)), log_e, 0, m, 0);
    if start <= end || band >= start {
        lemma_bands_written(mode, x, first, log_e, end, m, start, band, k);
    }
}

/// Writing bands keeps the length.
proof fn lemma_written_len(
    mode: crate::mode::OpusCustomMode,
    x: Seq<i16>,
    freq: Seq<i32>,
    log_e: Seq<i32>,
    end: int,
    m: int,
    from: int,
)
    ensures
        bands_written(mode, x, freq, log_e, end, m, from).len() == freq.len(),
    decreases end - from,
{
    if from < end {
        let at = m * mode.edge(from);
        let gain = denormal_gain(log_e[from], from);
        let part = Seq::new((m * mode.width(from)) as nat, |j: int| denormal_value(x[at + j], gain));
        lemma_written_len(mode, x, written(freq, at, part), log_e, end, m, from + 1);
    }
}

/// The blocks of a transient share out the coefficients of a frame: coefficient `k` is
/// coefficient `k / blocks` of block `k % blocks`.
pub proof fn law_blocks_share_the_coefficients(freq: Seq<i32>, blocks: int, nb: int, k: int)
    requires
        blocks >= 1,
        0 <= k < nb * blocks,
    ensures
        block_of(freq, blocks, k % blocks, nb).len() == nb,
        block_of(freq, blocks, k % blocks, nb)[k / blocks] == freq[k],
{
    vstd::arithmetic::div_mod::lemma_fundamental_div_mod(k, blocks);
    vstd::arithmetic::div_mod::lemma_mod_bound(k, blocks);
    vstd::arithmetic::div_mod::lemma_div_pos_is_pos(k, blocks);
    vstd::arithmetic::mul::lemma_mul_is_commutative(blocks, k / blocks);
    assert(k / blocks < nb) by (nonlinear_arith)
        requires
            blocks * (k / blocks) <= k,
            k < nb * blocks,
            blocks >= 1,
    ;
}

/// A frame is transformed in one long block, or in short blocks of the mode after a
/// transient; both have as many samples.
pub proof fn law_blocks_make_up_a_frame(mode: crate::mode::OpusCustomMode, lm: int)
    requires
        0 <= lm <= mode.max_lm <= 3,
    ensures
        ({
            let (one, long, shift) = block_layout(mode, lm, false);
            let (blocks, short, deepest) = block_layout(mode, lm, true);
            &&& one == 1
            &&& short == mode.short_mdct_size
            &&& long == blocks * short
            &&& lm == 0 ==> blocks == 1
            &&& lm == 3 ==> blocks == 8
            &&& shift + lm == mode.max_lm
            &&& deepest == mode.max_lm
        }),
{
}

/// A frame moves the history to the front by its samples; nothing of what is kept
/// changes.
pub proof fn law_history_moves_by_a_frame(r: Seq<i32>, n: int, i: int)
    requires
        0 <= n <= i < r.len(),
    ensures
        row_moved(r, n).len() == r.len(),
        row_moved(r, n)[i - n] == r[i],
{
}

/// Limiting keeps samples that are in range, and nothing outside of a frame changes.
pub proof fn law_limited(mem: Seq<i32>, start: int, n: int, k: int)
    requires
        0 <= k < mem.len(),
    ensures
        limited(mem, start, n).len() == mem.len(),
        -536870911 <= mem[k] <= 536870911 || k < start || k >= start + n ==> limited(
            mem,
            start,
            n,
        )[k] == mem[k],
        start <= k < start + n ==> -536870911 <= limited(mem, start, n)[k] <= 536870911,
        start <= k < start + n && mem[k] > 536870911 ==> limited(mem, start, n)[k] == 536870911,
        start <= k < start + n && mem[k] < -536870911 ==> limited(mem, start, n)[k] == -536870911,
{
}

/// De-emphasis feeds back the last output: what it gives out is the new sample and the
/// fraction `coef0` of the output before it, so that pre-emphasis would take it back to
/// the samples, up to rounding.
pub proof fn law_deemphasis_feeds_back(d: Deemphasis, x: Seq<i32>, mem: i32, i: int)
    requires
        d.coef1 == 0,
        1 <= i < x.len(),
        -0x1000_0000 <= x[i] <= 0x1000_0000,
        -SIG_SAT < d.sample(x, mem, i) < SIG_SAT,
    ensures
        ({
            let before = d.sample(x, mem, i - 1);
            let now = d.sample(x, mem, i);
            32768 * (now - x[i]) <= d.coef0 * before < 32768 * (now - x[i]) + 32768
        }),
{
    let before = d.sample(x, mem, i - 1);
    assert(-0x2000_0000 <= before <= 0x2000_0000);
    assert(-0x2000_0000 * 32768 <= d.coef0 * before <= 0x2000_0000 * 32768) by (nonlinear_arith)
        requires
            -32768 <= d.coef0 <= 32767,
            -0x2000_0000 <= before <= 0x2000_0000,
    ;
    lemma_q15_wide(d.coef0, before);
    let back = mult16_32_q15(d.coef0, before);
    assert(d.memory(x, mem, i) == back);
}

/// The filter starts from the memory that the last frame left, which is the fraction
/// `coef0` of its last output.
pub proof fn law_deemphasis_goes_on(d: Deemphasis, x: Seq<i32>, y: Seq<i32>, mem: i32, i: int)
    requires
        0 <= i < y.len(),
    ensures
        d.sample(x + y, mem, x.len() + i) == d.sample(y, d.memory(x, mem, x.len() as int), i),
{
    lemma_memory_goes_on(d, x, y, mem, i);
}

/// The memory behind two frames.
proof fn lemma_memory_goes_on(d: Deemphasis, x: Seq<i32>, y: Seq<i32>, mem: i32, n: int)
    requires
        0 <= n <= y.len(),
    ensures
        d.memory(x + y, mem, x.len() + n) == d.memory(y, d.memory(x, mem, x.len() as int), n),
    decreases n,
{
    if n > 0 {
        lemma_memory_goes_on(d, x, y, mem, n - 1);
    } else {
        lemma_memory_front(d, x, y, mem, x.len() as int);
    }
}

/// The memory inside of the first frame.
proof fn lemma_memory_front(d: Deemphasis, x: Seq<i32>, y: Seq<i32>, mem: i32, n: int)
    requires
        0 <= n <= x.len(),
    ensures
        d.memory(x + y, mem, n) == d.memory(x, mem, n),
    decreases n,
{
    if n > 0 {
        lemma_memory_front(d, x, y, mem, n - 1);
    }
}

/// Words of sixteen and of 24 bits are the samples without the fraction, rounded to
/// nearest; what does not fit is limited.
pub proof fn law_words_are_rounded_samples(v: i32)
    requires
        v <= i32::MAX - 2048,
    ensures
        -0x800_0000 <= v < 0x7ff_f800 ==> -2048 <= 4096 * sig2word16(v) - v <= 2048,
        v >= 0x7ff_f800 ==> sig2word16(v) == 32767,
        v < -0x800_0800 ==> sig2word16(v) == -32768,
        -0x800_0000 <= v < 0x7ff_fff8 ==> -8 <= 16 * sig2word24(v) - v <= 8,
        v >= 0x7ff_fff8 ==> sig2word24(v) == 8388607,
        v < -0x800_0008 ==> sig2word24(v) == -8388608,
{
    lemma2_to64();
    lemma_pshr(v, 12);
    lemma_pshr(v, 4);
}

/// Output is interleaved, one sample of each channel after the other, and an output at a
/// lower rate has every `downsample`-th sample of the full rate.
pub proof fn law_output_is_interleaved(s: DecoderState, full: DecoderState, n: int, j: int, c: int)
    requires
        s.downsample >= 1,
        1 <= s.channels <= 2,
        0 <= c < s.channels,
        0 <= j < n / s.downsample as int,
        full == (DecoderState { downsample: 1, ..s }),
        s.mode.pre_emphasis@[1] == 0,
    ensures
        signal(s, n, false).len() == n / s.downsample as int * s.channels,
        signal(full, n, false).len() == n * s.channels,
        signal(s, n, false)[j * s.channels + c] == signal(full, n, false)[j * s.downsample
            * s.channels + c],
{
    let channels = s.channels as int;
    let d = s.downsample as int;
    let k = j * channels + c;
    let wide = j * d;
    let l = wide * channels + c;
    vstd::arithmetic::div_mod::lemma_fundamental_div_mod_converse(k, channels, j, c);
    vstd::arithmetic::div_mod::lemma_fundamental_div_mod_converse(l, channels, wide, c);
    vstd::arithmetic::div_mod::lemma_fundamental_div_mod(n, d);
    vstd::arithmetic::div_mod::lemma_mod_bound(n, d);
    let q = n / d;
    assert(k < q * channels) by (nonlinear_arith)
        requires
            k == j * channels + c,
            j + 1 <= q,
            c < channels,
            channels >= 1,
    ;
    assert(0 <= k) by (nonlinear_arith)
        requires
            k == j * channels + c,
            j >= 0,
            c >= 0,
            channels >= 1,
    ;
    assert(0 <= wide < n) by (nonlinear_arith)
        requires
            wide == j * d,
            0 <= j,
            j + 1 <= n / d,
            d * (n / d) <= n,
            d >= 1,
    ;
    assert(0 <= l < n * channels) by (nonlinear_arith)
        requires
            l == wide * channels + c,
            0 <= wide < n,
            0 <= c < channels,
    ;
    assert(0 <= n / d * channels) by (nonlinear_arith)
        requires
            0 <= n / d,
            channels >= 1,
    ;
    assert(n / 1 == n);
    assert(wide * 1 == wide);
}

/// Output replaces the buffer or is added to it, and leaves alone what lies behind it.
pub proof fn law_output_is_delivered(pcm: Seq<i32>, samples: Seq<i32>, i: int)
    requires
        0 <= i < pcm.len(),
    ensures
        delivered(pcm, samples, true).len() == pcm.len(),
        delivered(pcm, samples, false).len() == pcm.len(),
        i >= samples.len() ==> delivered(pcm, samples, true)[i] == pcm[i] && delivered(
            pcm,
            samples,
            false,
        )[i] == pcm[i],
        i < samples.len() ==> delivered(pcm, samples, false)[i] == samples[i],
        i < samples.len() && i32::MIN <= pcm[i] + samples[i] <= i32::MAX ==> delivered(
            pcm,
            samples,
            true,
        )[i] == pcm[i] + samples[i],
{
}

/// The full de-emphasis filter: its memory is the fraction `coef0` of the sum of sample and
/// memory, less the fraction `coef1` of the sample; its output is four times the fraction
/// `coef3` of the sum.
pub proof fn law_full_deemphasis(d: Deemphasis, v: i32, mem: i32)
    requires
        d.coef1 != 0,
        -0x1000_0000 <= v <= 0x1000_0000,
        -0xfff_ffff <= mem <= 0xfff_ffff,
        -8192 <= d.coef3 <= 8192,
    ensures
        ({
            let (out, next) = d.step(v, mem);
            let sum = v + mem;
            &&& -32768 < 32768 * next - (d.coef0 * sum - d.coef1 * v) < 32768
            &&& -32768 * 4 < 32768 * out - 4 * (d.coef3 * sum) <= 0
        }),
{
    lemma2_to64();
    let sum = (v + mem) as i32;
    assert(v.wrapping_add(mem) == sum);
    assert(sig_clamped(sum) == sum);
    assert(-0x2000_0000 * 32768 <= d.coef0 * sum <= 0x2000_0000 * 32768) by (nonlinear_arith)
        requires
            -32768 <= d.coef0 <= 32767,
            -0x2000_0000 <= sum <= 0x1fff_ffff,
    ;
    assert(-0x1000_0000 * 32768 <= d.coef1 * v <= 0x1000_0000 * 32768) by (nonlinear_arith)
        requires
            -32768 <= d.coef1 <= 32767,
            -0x1000_0000 <= v <= 0x1000_0000,
    ;
    assert(-0x2000_0000 * 8192 <= d.coef3 * sum <= 0x2000_0000 * 8192) by (nonlinear_arith)
        requires
            -8192 <= d.coef3 <= 8192,
            -0x2000_0000 <= sum <= 0x1fff_ffff,
    ;
    lemma_q15_wide(d.coef0, sum);
    lemma_q15_wide(d.coef1, v);
    lemma_q15_wide(d.coef3, sum);
    let r = mult16_32_q15(d.coef3, sum);
    assert(-0x0800_0001 <= r <= 0x0800_0000);
    lemma_quadrupled(r);
}

/// Four times a word.
proof fn lemma_quadrupled(r: i32)
    requires
        -0x1000_0000 <= r <= 0x1000_0000,
    ensures
        crate::fixed::shl32(r, 2) == 4 * r,
{
    assert(-0x1000_0000 <= r <= 0x1000_0000 ==> (((r as u32) << 2u32) as i32) == 4 * r)
        by (bit_vector);
}

/// One unit of log energy doubles a coefficient, up to rounding: the gain keeps its mantissa
/// and its exponent moves by one. Silence stays silence.
pub proof fn law_energy_doubles(log_e: i32, band: int, v: i16)
    requires
        0 <= band < 25,
        0 <= denormal_gain(log_e, band).1 - 1,
        denormal_gain(log_e, band).0 != 0,
        log_e <= 0x1c00_0000,
        log_e >= -0x1c00_0000,
    ensures
        ({
            let (g, shift) = denormal_gain(log_e, band);
            let (h, higher) = denormal_gain((log_e + 0x100_0000) as i32, band);
            let a = denormal_value(v, (g, shift));
            let b = denormal_value(v, (h, higher));
            &&& h == g
            &&& higher == shift - 1
            &&& 2 * a <= b <= 2 * a + 1
            &&& denormal_value(0, (g, shift)) == 0
        }),
{
    lemma2_to64();
    let mean = crate::fixed::shl32(crate::spectrum::e_mean_q4(band) as i32, 20);
    vstd::bits::lemma_u32_shl_is_mul(crate::spectrum::e_mean_q4(band) as u32, 20);
    assert(0 <= mean <= 103 * 0x10_0000);
    let lg = log_e.wrapping_add(mean);
    let up = ((log_e + 0x100_0000) as i32).wrapping_add(mean);
    assert(lg == log_e + mean && up == lg + 0x100_0000);
    assert(up == lg + 0x100_0000 && lg < 0x6000_0000 && lg > -0x6000_0000 ==> (up >> 24u32) == (lg
        >> 24u32) + 1 && (up & 0xff_ffff) == (lg & 0xff_ffff)) by (bit_vector);
    let (g, shift) = denormal_gain(log_e, band);
    let r = mult16_32_q15(v, g);
    let s = shift as nat;
    crate::division_laws::lemma_shr(r, s);
    crate::division_laws::lemma_shr(r, (s - 1) as nat);
    vstd::arithmetic::power2::lemma_pow2_unfold(s);
    vstd::arithmetic::power2::lemma_pow2_pos((s - 1) as nat);
    let p = vstd::arithmetic::power2::pow2((s - 1) as nat) as int;
    let a = r >> (s as u32);
    let b = r >> ((s - 1) as u32);
    assert(2 * a <= b <= 2 * a + 1) by (nonlinear_arith)
        requires
            (2 * p) * a <= r < (2 * p) * a + 2 * p,
            p * b <= r < p * b + p,
            p > 0,
    ;
    assert(0 * g == 0);
    lemma_q15_wide(0, g);
    crate::division_laws::lemma_shr(0, s);
    let z = 0i32 >> (s as u32);
    assert(z == 0) by (nonlinear_arith)
        requires
            (2 * p) * z <= 0 < (2 * p) * z + 2 * p,
            p > 0,
    ;
}

} // verus!
