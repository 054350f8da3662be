//! Noise for the blocks of a transient that received no pulses.

use vstd::prelude::*;
use crate::band_decode::drawn;
use crate::band_stereo::negated;
use crate::band_tf::{scale, scale_of};
use crate::bands::celt_lcg_rand;
use crate::fixed::{mult16_16_q14, mult16_16_q15, mult16_32_q15, shl32, shr32, Q31_ONE};
use crate::math::{celt_ilog2, celt_rsqrt_norm, ilog2, rsqrt_norm};
use crate::mode::OpusCustomMode;
use crate::pvq::{renormalise_vector, renormalised};
use crate::spectrum::{
    band_edge, celt_exp2_db, celt_exp2_q10, exp2_db, exp2_q10, lemma_row, lemma_scaled_edges,
    write_at, written,
};

verus! {

/// The larger of two words.
pub open spec fn larger(a: i32, b: i32) -> i32 {
    if a > b {
        a
    } else {
        b
    }
}

/// Log energy of a band in an earlier frame; a single decoded channel also
/// looks at the second row of the history, if there is one.
pub open spec fn earlier_energy(
    prev: Seq<i32>,
    bands: int,
    band: int,
    channel: int,
    both: bool,
) -> i32 {
    let own = prev[channel * bands + band];
    if both && bands + band < prev.len() {
        larger(own, prev[bands + band])
    } else {
        own
    }
}

/// Largest noise amplitude that the bit depth of a band allows, in Q15.
pub open spec fn depth_threshold(pulses: i32, width: int, lm: int) -> i16 {
    let depth = ((((pulses as u32).wrapping_add(1) as int / width) as u32) >> (lm as u32)) as i32;
    let level = shr32(exp2_q10(0i32.wrapping_sub(depth << 7u32) as i16), 1);
    mult16_32_q15(16384, if level > 32767 { 32767 } else { level }) as i16
}

/// Amplitude of the noise that fills a collapsed block.
pub open spec fn noise_amplitude(
    log_e: i32,
    prev1: i32,
    prev2: i32,
    threshold: i16,
    width: int,
    lm: int,
) -> i16 {
    let t = (width * scale_of(lm)) as i32;
    let shift = ilog2(t as int) / 2;
    let sqrt_1 = rsqrt_norm(shl32(t, (2 * (7 - shift)) as u32));
    let fall = log_e.wrapping_sub(if prev1 < prev2 { prev1 } else { prev2 });
    let ediff = if fall > 0 { fall } else { 0 };
    let r0: i16 = if ediff < 268435456 {
        let level = shr32(exp2_db((-ediff) as i32), 1);
        ((if level > 16383 { 16383 } else { level }).wrapping_mul(2)) as i16
    } else {
        0
    };
    let r1: i16 = if lm == 3 {
        mult16_16_q14(23170, if r0 > 23169 { 23169 } else { r0 })
    } else {
        r0
    };
    let r2 = shr32((if threshold < r1 { threshold } else { r1 }) as i32, 1) as i16;
    shr32(mult16_16_q15(sqrt_1, r2) as i32, shift as u32) as i16
}

/// Noise of amplitude `r` in block `k` of a band behind `at`.
pub open spec fn block_filled(
    x: Seq<i16>,
    at: int,
    m: int,
    k: int,
    width: int,
    r: i16,
    seed: u32,
    j: int,
) -> Seq<i16>
    decreases width - j,
{
    if j >= width {
        x
    } else {
        let next = celt_lcg_rand(seed);
        block_filled(
            x.update(at + j * m + k, if next & 0x8000 != 0 { r } else { negated(r) }),
            at,
            m,
            k,
            width,
            r,
            next,
            j + 1,
        )
    }
}

/// Whether bit `k` of a collapse mask is clear.
pub open spec fn collapsed(mask: u8, k: int) -> bool {
    (mask as u32) & (1u32 << (k as u32)) == 0
}

/// Noise in the collapsed blocks of a band from block `k` on, and the new state
/// of the generator.
pub open spec fn blocks_filled(
    x: Seq<i16>,
    at: int,
    m: int,
    mask: u8,
    width: int,
    r: i16,
    seed: u32,
    k: int,
) -> (Seq<i16>, u32)
    decreases m - k,
{
    if k >= m {
        (x, seed)
    } else if collapsed(mask, k) {
        blocks_filled(
            block_filled(x, at, m, k, width, r, seed, 0),
            at,
            m,
            mask,
            width,
            r,
            drawn(seed, width as nat),
            k + 1,
        )
    } else {
        blocks_filled(x, at, m, mask, width, r, seed, k + 1)
    }
}

/// Whether any block from `k` on is collapsed.
pub open spec fn any_collapsed(mask: u8, m: int, k: int) -> bool
    decreases m - k,
{
    if k >= m {
        false
    } else {
        collapsed(mask, k) || any_collapsed(mask, m, k + 1)
    }
}

/// What anti-collapse reads besides the spectrum.
pub struct CollapseInfo<'a> {
    pub mode: &'a OpusCustomMode,
    pub masks: &'a Vec<u8>,
    pub lm: usize,
    pub channels: usize,
    pub start: usize,
    pub end: usize,
    pub log_e: &'a Vec<i32>,
    pub prev1_log_e: &'a Vec<i32>,
    pub prev2_log_e: &'a Vec<i32>,
    pub pulses: &'a Vec<i32>,
    /// Whether the encoder asks.
    pub encode: bool,
}

/// What a [`CollapseInfo`] says.
#[verifier::ext_equal]
pub struct CollapseInput {
    pub mode: OpusCustomMode,
    pub masks: Seq<u8>,
    pub lm: usize,
    pub channels: usize,
    pub start: usize,
    pub end: usize,
    pub log_e: Seq<i32>,
    pub prev1_log_e: Seq<i32>,
    pub prev2_log_e: Seq<i32>,
    pub pulses: Seq<i32>,
    pub encode: bool,
}

impl<'a> View for CollapseInfo<'a> {
    type V = CollapseInput;

    open spec fn view(&self) -> CollapseInput {
        CollapseInput {
            mode: *self.mode,
            masks: self.masks@,
            lm: self.lm,
            channels: self.channels,
            start: self.start,
            end: self.end,
            log_e: self.log_e@,
            prev1_log_e: self.prev1_log_e@,
            prev2_log_e: self.prev2_log_e@,
            pulses: self.pulses@,
            encode: self.encode,
        }
    }
}

impl CollapseInput {
    /// The tables cover the bands.
    pub open spec fn wf(self) -> bool {
        &&& self.mode.spectrum_wf()
        &&& self.lm <= 3
        &&& 1 <= self.channels
        &&& self.start <= self.end <= self.mode.num_ebands
        &&& self.channels * self.end <= self.masks.len()
        &&& self.channels * self.mode.num_ebands <= self.log_e.len()
        &&& self.channels * self.mode.num_ebands <= self.prev1_log_e.len()
        &&& self.channels * self.mode.num_ebands <= self.prev2_log_e.len()
        &&& self.end <= self.pulses.len()
        &&& forall|band: int|
            self.start <= band < self.end ==> #[trigger] self.pulses[band] >= 0
    }

    /// Coefficients per channel.
    pub open spec fn size(self) -> int {
        scale_of(self.lm as int) * self.mode.short_mdct_size
    }

    /// Amplitude of the noise for a band of a channel.
    pub open spec fn amplitude(self, band: int, channel: int) -> i16 {
        let bands = self.mode.num_ebands as int;
        let both = !self.encode && self.channels == 1;
        noise_amplitude(
            self.log_e[channel * bands + band],
            earlier_energy(self.prev1_log_e, bands, band, channel, both),
            earlier_energy(self.prev2_log_e, bands, band, channel, both),
            depth_threshold(self.pulses[band], self.mode.width(band), self.lm as int),
            self.mode.width(band),
            self.lm as int,
        )
    }

    /// One band of one channel with its collapsed blocks filled.
    pub open spec fn band_filled(self, x: Seq<i16>, seed: u32, band: int, channel: int) -> (
        Seq<i16>,
        u32,
    ) {
        let m = scale_of(self.lm as int);
        let at = channel * self.size() + m * self.mode.edge(band);
        let width = self.mode.width(band);
        let mask = self.masks[band * self.channels + channel];
        let (y, next) = blocks_filled(
            x,
            at,
            m,
            mask,
            width,
            self.amplitude(band, channel),
            seed,
            0,
        );
        if any_collapsed(mask, m, 0) {
            (
                written(y, at, renormalised(y.subrange(at, at + m * width), Q31_ONE)),
                next,
            )
        } else {
            (y, next)
        }
    }

    /// The channels of a band from `channel` on.
    pub open spec fn channels_filled(self, x: Seq<i16>, seed: u32, band: int, channel: int) -> (
        Seq<i16>,
        u32,
    )
        decreases self.channels - channel,
    {
        if channel >= self.channels {
            (x, seed)
        } else {
            let (y, next) = self.band_filled(x, seed, band, channel);
            self.channels_filled(y, next, band, channel + 1)
        }
    }

    /// The bands from `band` on.
    pub open spec fn bands_filled(self, x: Seq<i16>, seed: u32, band: int) -> (Seq<i16>, u32)
        decreases self.end - band,
    {
        if band >= self.end {
            (x, seed)
        } else if self.mode.width(band) == 0 {
            self.bands_filled(x, seed, band + 1)
        } else {
            let (y, next) = self.channels_filled(x, seed, band, 0);
            self.bands_filled(y, next, band + 1)
        }
    }
}

impl<'a> CollapseInfo<'a> {
    /// Computes [`depth_threshold`] of a band.
    fn threshold(&self, band: usize, width: usize) -> (t: i16)
        requires
            self@.wf(),
            self.start <= band < self.end,
            1 <= width <= 256,
        ensures
            t == depth_threshold(self.pulses@[band as int], width as int, self.lm as int),
    {
        let pulses: i32 = self.pulses[band];
        let depth: i32 = (((pulses as u32).wrapping_add(1) / width as u32) >> (self.lm as u32)) as i32;
        let level: i32 = shr32(celt_exp2_q10(0i32.wrapping_sub(depth << 7u32) as i16), 1);
        mult16_32_q15(16384, if level > 32767 { 32767 } else { level }) as i16
    }

    /// Computes [`earlier_energy`].
    fn earlier(&self, prev: &Vec<i32>, band: usize, channel: usize) -> (e: i32)
        requires
            self@.wf(),
            band < self.mode.num_ebands,
            channel < self.channels,
            self.channels * self.mode.num_ebands <= prev@.len(),
        ensures
            e == earlier_energy(
                prev@,
                self.mode.num_ebands as int,
                band as int,
                channel as int,
                !self.encode && self.channels == 1,
            ),
    {
        let bands: usize = self.mode.num_ebands;
        proof {
            lemma_row(channel as int, self.channels as int, bands as int);
        }
        assert(prev@.len() == prev.len());
        let own: i32 = prev[channel * bands + band];
        if !self.encode && self.channels == 1 && bands + band < prev.len() {
            let other: i32 = prev[bands + band];
            if own > other {
                own
            } else {
                other
            }
        } else {
            own
        }
    }

    /// Computes [`CollapseInput::amplitude`].
    fn find_amplitude(&self, band: usize, channel: usize, width: usize, threshold: i16) -> (r: i16)
        requires
            self@.wf(),
            self.start <= band < self.end,
            channel < self.channels,
            width == self.mode.width(band as int),
            1 <= width <= 256,
            threshold == depth_threshold(self.pulses@[band as int], width as int, self.lm as int),
        ensures
            r == self@.amplitude(band as int, channel as int),
    {
        let bands: usize = self.mode.num_ebands;
        proof {
            lemma_row(channel as int, self.channels as int, bands as int);
        }
        assert(self.log_e@.len() == self.log_e.len());
        let prev1: i32 = self.earlier(self.prev1_log_e, band, channel);
        let prev2: i32 = self.earlier(self.prev2_log_e, band, channel);
        let m: usize = scale(self.lm as i32);
        assert(1 <= width * m <= 2048) by (nonlinear_arith)
            requires
                1 <= width <= 256,
                1 <= m <= 8,
        ;
        let t: i32 = (width * m) as i32;
        proof {
            vstd::arithmetic::power2::lemma2_to64();
            crate::math::lemma_bit_length_bound(t as nat, 12);
        }
        let shift: i32 = celt_ilog2(t) / 2;
        let sqrt_1: i16 = celt_rsqrt_norm(shl32(t, (2 * (7 - shift)) as u32));
        let fall: i32 = self.log_e[channel * bands + band].wrapping_sub(
            if prev1 < prev2 { prev1 } else { prev2 },
        );
        let ediff: i32 = if fall > 0 { fall } else { 0 };
        let r0: i16 = if ediff < 268435456 {
            let level: i32 = shr32(celt_exp2_db(-ediff), 1);
            ((if level > 16383 { 16383 } else { level }).wrapping_mul(2)) as i16
        } else {
            0
        };
        let r1: i16 = if self.lm == 3 {
            mult16_16_q14(23170, if r0 > 23169 { 23169 } else { r0 })
        } else {
            r0
        };
        let r2: i16 = shr32((if threshold < r1 { threshold } else { r1 }) as i32, 1) as i16;
        shr32(mult16_16_q15(sqrt_1, r2) as i32, shift as u32) as i16
    }
}

/// Computes [`block_filled`]; the new state of the generator is returned.
fn fill_block(x: &mut Vec<i16>, at: usize, m: usize, k: usize, width: usize, r: i16, seed: u32) -> (
    next: u32)
    requires
        1 <= m <= 8,
        k < m,
        width <= 256,
        at + m * width <= old(x)@.len(),
    ensures
        final(x)@ == block_filled(
            old(x)@,
            at as int,
            m as int,
            k as int,
            width as int,
            r,
            seed,
            0,
        ),
        next == drawn(seed, width as nat),
        final(x)@.len() == old(x)@.len(),
{
    let mut s: u32 = seed;
    let mut j: usize = 0;
    while j < width
        invariant
            1 <= m <= 8,
            k < m,
            j <= width <= 256,
            at + m * width <= x@.len(),
            x@.len() == old(x)@.len(),
            s == drawn(seed, j as nat),
            block_filled(x@, at as int, m as int, k as int, width as int, r, s, j as int)
                == block_filled(
                old(x)@,
                at as int,
                m as int,
                k as int,
                width as int,
                r,
                seed,
                0,
            ),
        decreases width - j,
    {
        assert(x@.len() == x.len());
        assert(0 <= j * m && j * m + k < m * width) by (nonlinear_arith)
            requires
                0 <= k < m,
                0 <= j < width,
        ;
        s = celt_lcg_rand(s);
        let v: i16 = if s & 0x8000 != 0 { r } else { negated(r) };
        x.set(at + j * m + k, v);
        j = j + 1;
    }
    s
}

/// Fills the collapsed blocks of one band of one channel.
fn fill_band(info: &CollapseInfo<'_>, x: &mut Vec<i16>, seed: u32, band: usize, channel: usize) -> (
    next: u32)
    requires
        info@.wf(),
        info.start <= band < info.end,
        channel < info.channels,
        info.mode.width(band as int) >= 1,
        info.channels * info@.size() <= old(x)@.len(),
    ensures
        (final(x)@, next) == info@.band_filled(old(x)@, seed, band as int, channel as int),
        final(x)@.len() == old(x)@.len(),
{
    let m: usize = scale(info.lm as i32);
    let ghost x0 = x@;
    proof {
        lemma_scaled_edges(*info.mode, m as int, band as int, band + 1);
        lemma_row(channel as int, info.channels as int, info@.size());
        lemma_row(band as int, info.end as int, info.channels as int);
        assert(info.channels * info.end == info.end * info.channels) by (nonlinear_arith);
        assert(info.mode.edge(0) <= info.mode.edge(band as int) <= info.mode.edge(band + 1)
            <= info.mode.edge(info.mode.num_ebands as int));
    }
    assert(x@.len() == x.len());
    assert(info.masks@.len() == info.masks.len());
    let from: usize = band_edge(info.mode, m, band);
    let to: usize = band_edge(info.mode, m, band + 1);
    let width: usize = (info.mode.e_bands[band + 1] as i32 - info.mode.e_bands[band] as i32) as usize;
    let at: usize = channel * (m * info.mode.short_mdct_size) + from;
    let threshold: i16 = info.threshold(band, width);
    let r: i16 = info.find_amplitude(band, channel, width, threshold);
    let mask: u8 = info.masks[band * info.channels + channel];
    let mut s: u32 = seed;
    let mut any: bool = false;
    let mut k: usize = 0;
    while k < m
        invariant
            1 <= m <= 8,
            k <= m,
            1 <= width <= 256,
            at + m * width <= x@.len(),
            x@.len() == x0.len(),
            blocks_filled(
                x@,
                at as int,
                m as int,
                mask,
                width as int,
                r,
                s,
                k as int,
            ) == blocks_filled(x0, at as int, m as int, mask, width as int, r, seed, 0),
            (any || any_collapsed(mask, m as int, k as int)) == any_collapsed(mask, m as int, 0),
        decreases m - k,
    {
        if (mask as u32) & (1u32 << (k as u32)) == 0 {
            s = fill_block(x, at, m, k, width, r, s);
            any = true;
        }
        k = k + 1;
    }
    if any {
        let n: usize = to - from;
        let mut part: Vec<i16> = Vec::new();
        for j in 0..n
            invariant
                at + n <= x@.len(),
                x@.len() == x0.len(),
                x@.len() == x.len(),
                part@.len() == j,
                forall|i: int| 0 <= i < j ==> part@[i] == x@[at + i],
        {
            part.push(x[at + j]);
        }
        assert(part@ =~= x@.subrange(at as int, at + m * width));
        renormalise_vector(&mut part, Q31_ONE);
        write_at(x, at, &part);
    }
    s
}

/// Fills the blocks of the bands of a transient that received no pulses with
/// noise and restores the unit energy of the bands.
pub fn anti_collapse(info: &CollapseInfo<'_>, x: &mut Vec<i16>, seed: u32) -> (next: u32)
    requires
        info@.wf(),
        info.channels * info@.size() <= old(x)@.len(),
    ensures
        (final(x)@, next) == info@.bands_filled(old(x)@, seed, info.start as int),
        final(x)@.len() == old(x)@.len(),
{
    let ghost x0 = x@;
    let mut s: u32 = seed;
    let mut band: usize = info.start;
    while band < info.end
        invariant
            info@.wf(),
            info.start <= band <= info.end,
            info.channels * info@.size() <= x@.len(),
            x@.len() == x0.len(),
            info@.bands_filled(x@, s, band as int) == info@.bands_filled(x0, seed, info.start as int),
        decreases info.end - band,
    {
        proof {
            lemma_scaled_edges(*info.mode, 1, band as int, band + 1);
        }
        if info.mode.e_bands[band + 1] != info.mode.e_bands[band] {
            let ghost x1 = x@;
            let ghost s1 = s;
            let mut channel: usize = 0;
            while channel < info.channels
                invariant
                    info@.wf(),
                    info.start <= band < info.end,
                    channel <= info.channels,
                    info.mode.width(band as int) >= 1,
                    info.channels * info@.size() <= x@.len(),
                    x@.len() == x0.len(),
                    info@.channels_filled(x@, s, band as int, channel as int)
                        == info@.channels_filled(x1, s1, band as int, 0),
                decreases info.channels - channel,
            {
                s = fill_band(info, x, s, band, channel);
                channel = channel + 1;
            }
        }
        band = band + 1;
    }
    s
}

} // verus!
