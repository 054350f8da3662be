//! Description of a CELT mode: band layout, allocation tables and pulse costs.

use vstd::prelude::*;
use crate::band_tf::{scale, scale_of};
use crate::mdct::MdctLookup;
use crate::pvq::{get_pulses, lemma_fits_fewer, pulses_fit, pulses_of, vector_fits};

verus! {

/// Largest number of bands that a mode may have.
pub const MAX_BANDS: usize = 25;

/// Largest number of samples per frame and channel.
pub const MAX_FRAME: usize = 2048;

/// Costs of coding pulses, shared between bands of equal size.
pub struct PulseCache {
    /// Start of the run used by each block size and band, or -1.
    pub index: Vec<i16>,
    /// The runs: a length followed by one cost per pulse count.
    pub bits: Vec<u8>,
    /// Limits of the useful allocation.
    pub caps: Vec<u8>,
}

/// A CELT mode.
pub struct OpusCustomMode {
    pub sample_rate: i32,
    pub overlap: usize,
    pub num_ebands: usize,
    pub effective_ebands: usize,
    /// Pre-emphasis coefficients in Q15, Q15, Q12 and Q13.
    pub pre_emphasis: [i16; 4],
    pub e_bands: Vec<i16>,
    pub max_lm: usize,
    pub num_short_mdcts: usize,
    pub short_mdct_size: usize,
    pub num_alloc_vectors: usize,
    pub alloc_vectors: Vec<u8>,
    pub log_n: Vec<i16>,
    /// Rising half of the synthesis window, in Q15.
    pub window: Vec<i16>,
    pub mdct: MdctLookup,
    pub cache: PulseCache,
}

impl OpusCustomMode {
    /// Lower edge of a band in short-block bins.
    pub open spec fn edge(self, band: int) -> int {
        self.e_bands@[band] as int
    }

    /// Width of a band in short-block bins.
    pub open spec fn width(self, band: int) -> int {
        self.edge(band + 1) - self.edge(band)
    }

    /// The band edges are ordered and belong to the number of bands.
    pub open spec fn bands_wf(self) -> bool {
        &&& 1 <= self.num_ebands <= MAX_BANDS
        &&& self.e_bands@.len() == self.num_ebands + 1
        &&& self.effective_ebands <= self.num_ebands
        &&& self.e_bands@[0] >= 0
        &&& forall|i: int, j: int|
            0 <= i <= j < self.e_bands@.len() ==> self.e_bands@[i] <= self.e_bands@[j]
    }

    /// The block sizes fit the history buffer and cover the bands.
    pub open spec fn sizes_wf(self) -> bool {
        &&& self.max_lm <= 3
        &&& 1 <= self.short_mdct_size
        &&& self.short_mdct_size <= MAX_FRAME / 8
        &&& self.edge(self.num_ebands as int) <= self.short_mdct_size
        &&& self.overlap <= self.short_mdct_size
        &&& self.overlap % 4 == 0
        &&& self.window@.len() == self.overlap
    }

    /// The band edges lie in the short block.
    pub open spec fn spectrum_wf(self) -> bool {
        &&& self.bands_wf()
        &&& 1 <= self.short_mdct_size
        &&& self.short_mdct_size <= MAX_FRAME / 8
        &&& self.edge(self.num_ebands as int) <= self.short_mdct_size
    }

    /// Start of the pulse-cost run of a band for blocks of `2^lm` bins per
    /// short-block bin; `lm` may be -1.
    pub open spec fn cache_start(self, lm: int, band: int) -> int {
        self.cache.index@[(lm + 1) * self.num_ebands + band] as int
    }

    /// Whether a complete pulse-cost run starts at `at`.
    pub open spec fn cache_run(self, at: int) -> bool {
        &&& 0 <= at < self.cache.bits@.len()
        &&& 1 <= self.cache.bits@[at] <= 40
        &&& at + self.cache.bits@[at] < self.cache.bits@.len()
    }

    /// Coefficients of a band in blocks of `2^lm` bins per short-block bin,
    /// halved once more when `lm` is -1.
    pub open spec fn band_size(self, lm: int, band: int) -> int {
        let w = self.width(band);
        if lm < 0 {
            w / 2
        } else if lm == 0 {
            w
        } else if lm == 1 {
            w * 2
        } else if lm == 2 {
            w * 4
        } else {
            w * 8
        }
    }

    /// The vectors priced by the run at `at` can be numbered with 32 bits.
    pub open spec fn run_fits(self, at: int, n: int) -> bool {
        forall|q: int| 1 <= q <= self.cache.bits@[at] ==> #[trigger] vector_fits(n, q)
    }

    /// Every band that can hold a pulse has a usable pulse-cost run.
    pub open spec fn cache_wf(self) -> bool {
        &&& self.log_n@.len() == self.num_ebands
        &&& self.cache.index@.len() == (self.max_lm + 2) * self.num_ebands
        &&& self.cache.caps@.len() == 2 * (self.max_lm + 1) * self.num_ebands
        &&& forall|row: int, band: int|
            #![trigger self.cache_start(row - 1, band)]
            0 <= row < self.max_lm + 2 && 0 <= band < self.num_ebands && (row >= 1 || self.width(
                band,
            ) >= 2) && self.width(band) >= 1 ==> self.run_usable(row - 1, band)
    }

    /// A band and block size have a pulse-cost run with numberable vectors.
    pub open spec fn run_usable(self, lm: int, band: int) -> bool {
        let at = self.cache_start(lm, band);
        self.cache_run(at) && self.run_fits(at, self.band_size(lm, band))
    }

    /// The second band of a range can be folded from the first one.
    pub open spec fn foldable(self, start: int, end: int) -> bool {
        start + 1 < end && self.width(start + 1) > self.width(start) ==> {
            &&& self.width(start + 1) <= 2 * self.width(start)
            &&& self.width(start + 1) <= self.edge(self.num_ebands - 1) - self.edge(start)
        }
    }

    /// The allocation table has one row of bands per vector.
    pub open spec fn alloc_wf(self) -> bool {
        &&& 1 <= self.num_alloc_vectors <= 64
        &&& self.alloc_vectors@.len() == self.num_alloc_vectors * self.num_ebands
    }

    /// The transform tables serve all block lengths.
    pub open spec fn mdct_wf(self) -> bool {
        forall|shift: int|
            0 <= shift <= self.max_lm ==> #[trigger] self.mdct.serves(
                shift,
                scale_of(self.max_lm - shift) * self.short_mdct_size,
            )
    }

    /// Everything that decoding relies on.
    pub open spec fn wf(self) -> bool {
        &&& self.bands_wf()
        &&& self.sizes_wf()
        &&& self.mdct_wf()
        &&& self.cache_wf()
        &&& self.alloc_wf()
    }

    /// Checks [`OpusCustomMode::bands_wf`].
    fn has_valid_bands(&self) -> (ok: bool)
        ensures
            ok == self.bands_wf(),
    {
        if self.num_ebands < 1 || self.num_ebands > MAX_BANDS || self.e_bands.len()
            != self.num_ebands + 1 || self.effective_ebands > self.num_ebands || self.e_bands[0]
            < 0 {
            return false;
        }
        let mut i: usize = 1;
        while i < self.e_bands.len()
            invariant
                1 <= i <= self.e_bands@.len(),
                forall|a: int, b: int| 0 <= a <= b < i ==> self.e_bands@[a] <= self.e_bands@[b],
            decreases self.e_bands@.len() - i,
        {
            if self.e_bands[i - 1] > self.e_bands[i] {
                return false;
            }
            i = i + 1;
        }
        true
    }

    /// Checks [`OpusCustomMode::cache_run`].
    fn has_cache_run(&self, at: i16) -> (ok: bool)
        ensures
            ok == self.cache_run(at as int),
    {
        if at < 0 || at as usize >= self.cache.bits.len() {
            return false;
        }
        let len: u8 = self.cache.bits[at as usize];
        1 <= len && len <= 40 && (at as usize + len as usize) < self.cache.bits.len()
    }

    /// Checks [`OpusCustomMode::run_usable`] where a band can hold a pulse.
    fn has_usable_run(&self, row: usize, band: usize) -> (ok: bool)
        requires
            self.bands_wf(),
            self.max_lm <= 3,
            row < self.max_lm + 2,
            band < self.num_ebands,
            self.cache.index@.len() == (self.max_lm + 2) * self.num_ebands,
            row * self.num_ebands + band < self.cache.index@.len() <= 125,
        ensures
            ok == ((row >= 1 || self.width(band as int) >= 2) && self.width(band as int) >= 1
                ==> self.run_usable(row - 1, band as int)),
    {
        let width: i32 = self.e_bands[band + 1] as i32 - self.e_bands[band] as i32;
        if width < 1 || (row == 0 && width < 2) {
            return true;
        }
        proof {
            assert(0 <= row * self.num_ebands) by (nonlinear_arith)
                requires
                    0 <= row,
                    0 <= self.num_ebands,
            ;
        }
        let at: i16 = self.cache.index[row * self.num_ebands + band];
        assert(at == self.cache_start(row - 1, band as int));
        if !self.has_cache_run(at) {
            return false;
        }
        let size: usize = if row == 0 {
            width as usize / 2
        } else if row == 1 {
            width as usize
        } else if row == 2 {
            width as usize * 2
        } else if row == 3 {
            width as usize * 4
        } else {
            width as usize * 8
        };
        let longest: i32 = self.cache.bits[at as usize] as i32;
        let most: i32 = get_pulses(longest);
        let fits: bool = pulses_fit(size, most as usize);
        proof {
            assert(size == self.band_size(row - 1, band as int));
            if fits {
                assert forall|q: int| 1 <= q <= longest implies #[trigger] vector_fits(
                    size as int,
                    q,
                ) by {
                    lemma_fits_fewer(size as nat, pulses_of(q) as nat, most as nat);
                }
            } else {
                assert(!vector_fits(size as int, longest as int));
            }
        }
        fits
    }

    /// Checks [`OpusCustomMode::cache_wf`].
    fn has_valid_cache(&self) -> (ok: bool)
        requires
            self.bands_wf(),
            self.max_lm <= 3,
        ensures
            ok == self.cache_wf(),
    {
        proof {
            assert((self.max_lm + 2) * self.num_ebands <= 125) by (nonlinear_arith)
                requires
                    self.max_lm <= 3,
                    self.num_ebands <= 25,
            ;
            assert(2 * (self.max_lm + 1) * self.num_ebands <= 200) by (nonlinear_arith)
                requires
                    self.max_lm <= 3,
                    self.num_ebands <= 25,
            ;
        }
        if self.log_n.len() != self.num_ebands || self.cache.index.len() != (self.max_lm + 2)
            * self.num_ebands || self.cache.caps.len() != 2 * (self.max_lm + 1) * self.num_ebands {
            return false;
        }
        let mut row: usize = 0;
        while row < self.max_lm + 2
            invariant
                self.bands_wf(),
                self.max_lm <= 3,
                row <= self.max_lm + 2,
                self.cache.index@.len() == (self.max_lm + 2) * self.num_ebands,
                forall|r: int, b: int|
                    #![trigger self.cache_start(r - 1, b)]
                    0 <= r < row && 0 <= b < self.num_ebands && (r >= 1 || self.width(b) >= 2)
                        && self.width(b) >= 1 ==> self.run_usable(r - 1, b),
            decreases self.max_lm + 2 - row,
        {
            let mut band: usize = 0;
            while band < self.num_ebands
                invariant
                    self.bands_wf(),
                    self.max_lm <= 3,
                    row < self.max_lm + 2,
                    band <= self.num_ebands,
                    self.cache.index@.len() == (self.max_lm + 2) * self.num_ebands,
                    forall|r: int, b: int|
                        #![trigger self.cache_start(r - 1, b)]
                        0 <= r <= row && 0 <= b < (if r < row { self.num_ebands } else { band })
                            && (r >= 1 || self.width(b) >= 2) && self.width(b) >= 1
                            ==> self.run_usable(r - 1, b),
                decreases self.num_ebands - band,
            {
                proof {
                    assert(row * self.num_ebands + band < (self.max_lm + 2) * self.num_ebands)
                        by (nonlinear_arith)
                        requires
                            row <= self.max_lm + 1,
                            band < self.num_ebands,
                    ;
                    assert(0 <= row * self.num_ebands) by (nonlinear_arith)
                        requires
                            0 <= row,
                            0 <= self.num_ebands,
                    ;
                    assert((self.max_lm + 2) * self.num_ebands <= 125) by (nonlinear_arith)
                        requires
                            self.max_lm <= 3,
                            self.num_ebands <= 25,
                    ;
                }
                if !self.has_usable_run(row, band) {
                    return false;
                }
                band = band + 1;
            }
            row = row + 1;
        }
        true
    }

    /// Checks [`OpusCustomMode::wf`].
    pub fn is_valid(&self) -> (ok: bool)
        ensures
            ok == self.wf(),
    {
        if !self.has_valid_bands() {
            return false;
        }
        if self.max_lm > 3 || self.short_mdct_size < 1 || self.short_mdct_size > MAX_FRAME / 8
            || self.e_bands[self.num_ebands] as usize > self.short_mdct_size || self.overlap
            > self.short_mdct_size || self.overlap % 4 != 0 || self.window.len() != self.overlap {
            return false;
        }
        let mut shift: usize = 0;
        while shift <= self.max_lm
            invariant
                self.max_lm <= 3,
                shift <= self.max_lm + 1,
                1 <= self.short_mdct_size <= MAX_FRAME / 8,
                forall|s: int|
                    0 <= s < shift ==> #[trigger] self.mdct.serves(
                        s,
                        scale_of(self.max_lm - s) * self.short_mdct_size,
                    ),
            decreases self.max_lm + 1 - shift,
        {
            let m: usize = scale((self.max_lm - shift) as i32);
            assert(1 <= m * self.short_mdct_size <= 2048) by (nonlinear_arith)
                requires
                    1 <= m <= 8,
                    1 <= self.short_mdct_size <= 256,
            ;
            if !self.mdct.is_serving(shift, m * self.short_mdct_size) {
                return false;
            }
            shift = shift + 1;
        }
        if self.num_alloc_vectors < 1 || self.num_alloc_vectors > 64 {
            return false;
        }
        proof {
            assert(self.num_alloc_vectors * self.num_ebands <= 1600) by (nonlinear_arith)
                requires
                    self.num_alloc_vectors <= 64,
                    self.num_ebands <= 25,
            ;
        }
        if self.alloc_vectors.len() != self.num_alloc_vectors * self.num_ebands {
            return false;
        }
        self.has_valid_cache()
    }
}

/// Ratio of 48 kHz to `rate`; zero for rates that are not supported.
pub open spec fn resampling(rate: i32) -> int {
    if rate == 48000 {
        1
    } else if rate == 24000 {
        2
    } else if rate == 16000 {
        3
    } else if rate == 12000 {
        4
    } else if rate == 8000 {
        6
    } else {
        0
    }
}

/// Computes [`resampling`].
pub fn resampling_factor(rate: i32) -> (factor: i32)
    ensures
        factor == resampling(rate),
{
    match rate {
        48000 => 1,
        24000 => 2,
        16000 => 3,
        12000 => 4,
        8000 => 6,
        _ => 0,
    }
}

} // verus!
