//! Bit allocation: how the bits of a frame are shared between the bands, and
//! between fine energy and shape within a band.

use vstd::prelude::*;
use crate::band_tf::{scale, scale_of};
use crate::mode::OpusCustomMode;
use crate::range_decoder::EcDec;

verus! {

/// Logarithm of small numbers, rounded up, in 1/8 bits.
pub const LOG2_FRAC_TABLE: [u8; 24] = [
    0, 8, 13, 16, 19, 21, 23, 24, 26, 27, 28, 29, 30, 31, 32, 32, 33, 34, 34, 35, 36, 36, 37, 37,
];

/// Most bits that a band can use, in 1/8 bits.
pub open spec fn band_cap(mode: OpusCustomMode, lm: int, channels: int, band: int) -> int {
    (mode.cache.caps@[mode.num_ebands * (2 * lm + channels - 1) + band] + 64) * channels
        * mode.band_size(lm, band) / 4
}

/// Computes [`band_cap`] of all bands.
pub fn init_caps(mode: &OpusCustomMode, lm: usize, channels: usize) -> (caps: Vec<i32>)
    requires
        mode.wf(),
        lm <= mode.max_lm,
        1 <= channels <= 2,
    ensures
        caps@.len() == mode.num_ebands,
        forall|i: int|
            0 <= i < mode.num_ebands ==> #[trigger] caps@[i] == band_cap(
                *mode,
                lm as int,
                channels as int,
                i,
            ),
        forall|i: int| 0 <= i < mode.num_ebands ==> 0 <= #[trigger] caps@[i] <= 0x100000,
{
    let bands: usize = mode.num_ebands;
    let m: usize = scale(lm as i32);
    let mut caps: Vec<i32> = Vec::new();
    let row: usize = 2 * lm + channels - 1;
    assert(bands * row + bands <= 2 * (mode.max_lm + 1) * bands) by (nonlinear_arith)
        requires
            row + 1 <= 2 * (mode.max_lm + 1),
            bands >= 0,
    ;
    assert(2 * (mode.max_lm + 1) * bands <= 8 * 25) by (nonlinear_arith)
        requires
            mode.max_lm <= 3,
            0 <= bands <= 25,
    ;
    for i in 0..bands
        invariant
            mode.wf(),
            bands == mode.num_ebands,
            lm <= mode.max_lm,
            1 <= channels <= 2,
            m == scale_of(lm as int),
            row == 2 * lm + channels - 1,
            bands * row + bands <= mode.cache.caps@.len(),
            bands * row + bands <= 200,
            caps@.len() == i,
            forall|k: int|
                0 <= k < i ==> #[trigger] caps@[k] == band_cap(
                    *mode,
                    lm as int,
                    channels as int,
                    k,
                ),
            forall|k: int| 0 <= k < i ==> 0 <= #[trigger] caps@[k] <= 0x100000,
    {
        proof {
            crate::spectrum::lemma_scaled_edges(*mode, m as int, i as int, i + 1);
        }
        let width: usize = (mode.e_bands[i + 1] as i32 - mode.e_bands[i] as i32) as usize;
        assert(0 <= m * width <= 2048);
        assert(m * width == width * m) by (nonlinear_arith);
        let n: i32 = (width * m) as i32;
        assert(n == mode.band_size(lm as int, i as int));
        let base: i32 = mode.cache.caps[bands * row + i] as i32 + 64;
        let count: i32 = channels as i32;
        assert(0 <= base * count <= 638) by (nonlinear_arith)
            requires
                0 <= base <= 319,
                1 <= count <= 2,
        ;
        let unit: i32 = base * count;
        assert(0 <= unit * n <= 638 * 2048) by (nonlinear_arith)
            requires
                0 <= unit <= 638,
                0 <= n <= 2048,
        ;
        caps.push(unit * n / 4);
    }
    caps
}

/// What the allocation of a frame is computed from.
pub struct AllocRequest<'a> {
    pub mode: &'a OpusCustomMode,
    pub start: usize,
    pub end: usize,
    /// Boosts signalled for the bands, in 1/8 bits.
    pub offsets: &'a Vec<i32>,
    /// Most bits that the bands can use.
    pub caps: &'a Vec<i32>,
    /// Tilt of the allocation.
    pub trim: i32,
    /// Bits to share, in 1/8 bits.
    pub total: i32,
    pub channels: i32,
    pub lm: i32,
}

/// What the allocation of a frame is a function of.
#[verifier::ext_equal]
pub struct AllocInput {
    pub mode: OpusCustomMode,
    pub start: usize,
    pub end: usize,
    pub offsets: Seq<i32>,
    pub caps: Seq<i32>,
    pub trim: i32,
    pub total: i32,
    pub channels: i32,
    pub lm: i32,
}

impl<'a> View for AllocRequest<'a> {
    type V = AllocInput;

    open spec fn view(&self) -> AllocInput {
        AllocInput {
            mode: *self.mode,
            start: self.start,
            end: self.end,
            offsets: self.offsets@,
            caps: self.caps@,
            trim: self.trim,
            total: self.total,
            channels: self.channels,
            lm: self.lm,
        }
    }
}

impl AllocInput {
    pub open spec fn wf(self) -> bool {
        &&& self.mode.wf()
        &&& self.start < self.end <= self.mode.num_ebands
        &&& self.end - self.start <= 23
        &&& self.mode.width(self.start as int) >= 1
        &&& self.offsets.len() == self.mode.num_ebands
        &&& self.caps.len() == self.mode.num_ebands
        &&& forall|j: int|
            self.start <= j < self.end ==> 0 <= #[trigger] self.offsets[j] <= 0x200000
        &&& forall|j: int| self.start <= j < self.end ==> 0 <= #[trigger] self.caps[j] <= 0x100000
        &&& 0 <= self.trim <= 10
        &&& 1 <= self.channels <= 2
        &&& 0 <= self.lm <= self.mode.max_lm
    }

    /// Coefficients per short-block bin.
    pub open spec fn m(self) -> int {
        scale_of(self.lm as int)
    }

    /// Cost of one bit per channel.
    pub open spec fn unit(self) -> int {
        self.channels * 8
    }

    /// Below this a band gets no shape bits.
    pub open spec fn threshold(self, j: int) -> int {
        let t = 3 * (self.mode.width(j) * self.m()) * 8 / 16;
        if t > self.unit() {
            t
        } else {
            self.unit()
        }
    }

    /// Tilt of the allocation at a band.
    pub open spec fn trim_offset(self, j: int) -> int {
        let tilt = (self.mode.width(j) * self.m()) * (self.channels * (self.trim - 5 - self.lm) * (
        self.end - j - 1)) * 8 / 64;
        if self.mode.width(j) * self.m() == 1 {
            tilt - self.unit()
        } else {
            tilt
        }
    }

    /// An allocation tilted, unless it is empty.
    pub open spec fn tilted(self, bits: int, j: int) -> int {
        if bits > 0 {
            if bits + self.trim_offset(j) > 0 {
                bits + self.trim_offset(j)
            } else {
                0
            }
        } else {
            bits
        }
    }

    /// Allocation of a band in row `v` of the allocation table.
    pub open spec fn row_bits(self, v: int, j: int) -> int {
        self.tilted(
            (self.mode.width(j) * self.m()) * (self.channels * self.mode.alloc_vectors@[v
                * self.mode.num_ebands + j]) / 4,
            j,
        )
    }

    /// Sum of the bits that the bands in front of `j` would use, looking down;
    /// `done` says whether a band above was worth coding.
    pub open spec fn bits_sum(self, bits: spec_fn(int) -> int, j: int, done: bool) -> int
        decreases j - self.start,
    {
        if j <= self.start {
            0
        } else {
            let b = bits(j - 1);
            let cap = self.caps[j - 1] as int;
            if done || b >= self.threshold(j - 1) {
                (if b < cap { b } else { cap }) + self.bits_sum(bits, j - 1, true)
            } else {
                (if b >= self.unit() { self.unit() } else { 0 }) + self.bits_sum(bits, j - 1, false)
            }
        }
    }

    /// Bits used by row `v` of the allocation table with the boosts.
    pub open spec fn row_sum(self, v: int) -> int {
        self.bits_sum(|j: int| self.row_bits(v, j) + self.offsets[j], self.end as int, false)
    }

    /// First row between `lo` and `hi` that takes more than `total`.
    pub open spec fn row_search(self, total: int, lo: int, hi: int) -> int
        decreases hi - lo + 1,
    {
        if lo > hi {
            lo
        } else {
            let mid = (lo + hi) / 2;
            if self.row_sum(mid) > total {
                self.row_search(total, lo, mid - 1)
            } else {
                self.row_search(total, mid + 1, hi)
            }
        }
    }

    /// Allocation of a band in the last row that fits.
    pub open spec fn lower_bits(self, row: int, j: int) -> int {
        self.row_bits(row - 1, j) + if row > 1 { self.offsets[j] as int } else { 0 }
    }

    /// How much more a band gets in the first row that does not fit.
    pub open spec fn extra_bits(self, row: int, j: int) -> int {
        let upper = (if row >= self.mode.num_alloc_vectors {
            self.tilted(self.caps[j] as int, j)
        } else {
            self.row_bits(row, j)
        }) + self.offsets[j];
        let d = upper - self.lower_bits(row, j);
        if d > 0 {
            d
        } else {
            0
        }
    }

    /// Allocation of a band `mid` sixty-fourths between the two rows.
    pub open spec fn mixed_bits(self, row: int, mid: int, j: int) -> int {
        self.lower_bits(row, j) + mid * self.extra_bits(row, j) / 64
    }

    /// Bits used between the two rows.
    pub open spec fn mixed_sum(self, row: int, mid: int) -> int {
        self.bits_sum(|j: int| self.mixed_bits(row, mid, j), self.end as int, false)
    }

    /// Largest mixture that fits, found by halving.
    pub open spec fn mix_search(self, row: int, total: int, lo: int, hi: int, steps: int) -> int
        decreases steps,
    {
        if steps <= 0 {
            lo
        } else {
            let mid = (lo + hi) / 2;
            if self.mixed_sum(row, mid) > total {
                self.mix_search(row, total, lo, mid, steps - 1)
            } else {
                self.mix_search(row, total, mid, hi, steps - 1)
            }
        }
    }

    /// Whether band `j` or one above it reaches its threshold.
    pub open spec fn worth_coding(self, row: int, mix: int, j: int) -> bool
        decreases self.end - j,
    {
        if j >= self.end {
            false
        } else {
            self.mixed_bits(row, mix, j) >= self.threshold(j) || self.worth_coding(row, mix, j + 1)
        }
    }

    /// Initial allocation of a band.
    pub open spec fn initial_bits(self, row: int, mix: int, j: int) -> int {
        let b = self.mixed_bits(row, mix, j);
        let kept = if self.worth_coding(row, mix, j) {
            b
        } else if b >= self.unit() {
            self.unit()
        } else {
            0
        };
        if kept < self.caps[j] {
            kept
        } else {
            self.caps[j] as int
        }
    }

    /// Initial allocations of all bands; bands outside the coded range get none.
    pub open spec fn initial(self, row: int, mix: int) -> Seq<i32> {
        Seq::new(
            self.mode.num_ebands as nat,
            |j: int|
                if self.start <= j < self.end {
                    self.initial_bits(row, mix, j) as i32
                } else {
                    0
                },
        )
    }

    /// Sum of the initial allocations from `j` on.
    pub open spec fn initial_sum(self, row: int, mix: int, j: int) -> int
        decreases self.end - j,
    {
        if j >= self.end {
            0
        } else {
            self.initial_bits(row, mix, j) + self.initial_sum(row, mix, j + 1)
        }
    }

    /// Last boosted band, or the first band; it is never skipped.
    pub open spec fn skip_start(self, j: int) -> int
        decreases j - self.start,
    {
        if j <= self.start {
            self.start as int
        } else if self.offsets[j - 1] > 0 {
            j - 1
        } else {
            self.skip_start(j - 1)
        }
    }

    /// Bits reserved for the skip flag, the intensity band and the dual-stereo
    /// flag.
    pub open spec fn reserved(self) -> (int, int, int) {
        let total = if self.total > 0 { self.total as int } else { 0 };
        let skip = if total >= 8 { 8int } else { 0 };
        if self.channels == 2 {
            let wanted = LOG2_FRAC_TABLE@[self.end - self.start] as int;
            if wanted > total - skip {
                (skip, 0, 0)
            } else {
                (skip, wanted, if total - skip - wanted >= 8 { 8 } else { 0 })
            }
        } else {
            (skip, 0, 0)
        }
    }

    /// Bits to share once the flags are paid for.
    pub open spec fn shared_total(self) -> int {
        let (skip, intensity, dual) = self.reserved();
        (if self.total > 0 { self.total as int } else { 0 }) - skip - intensity - dual
    }

    /// Bins from the first coded band to the end of band `j - 1`.
    pub open spec fn span(self, j: int) -> int {
        self.mode.edge(j) - self.mode.edge(self.start as int)
    }
}

/// Bounds of the products that the allocation computes.
proof fn lemma_products(a: AllocInput, j: int)
    requires
        a.wf(),
        a.start <= j < a.end,
    ensures
        0 <= a.mode.width(j) * a.m() <= 2048,
        -0x1000000 <= a.trim_offset(j) <= 0x1000000,
        0 <= a.threshold(j) <= 4096,
        1 <= a.m() <= 8,
        0 <= a.mode.width(j) <= 256,
{
    crate::spectrum::lemma_scaled_edges(a.mode, a.m(), j, j + 1);
    crate::spectrum::lemma_scaled_edges(a.mode, 1, j, j + 1);
    let n = a.mode.width(j) * a.m();
    let k = a.trim - 5 - a.lm;
    let rest = a.end - j - 1;
    assert(a.m() * a.mode.width(j) == n) by (nonlinear_arith)
        requires
            n == a.mode.width(j) * a.m(),
    ;
    assert(-400 <= a.channels * k * rest <= 400) by (nonlinear_arith)
        requires
            1 <= a.channels <= 2,
            -8 <= k <= 5,
            0 <= rest <= 23,
    ;
    let t = a.channels * k * rest;
    assert(-2048 * 400 <= n * t <= 2048 * 400) by (nonlinear_arith)
        requires
            0 <= n <= 2048,
            -400 <= t <= 400,
    ;
}

impl<'a> AllocRequest<'a> {
    /// Coefficients of a band.
    fn size(&self, j: usize) -> (n: i32)
        requires
            self@.wf(),
            self.start <= j < self.end,
        ensures
            n == self.mode.width(j as int) * self@.m(),
            0 <= n <= 2048,
    {
        proof {
            lemma_products(self@, j as int);
        }
        let width: i32 = self.mode.e_bands[j + 1] as i32 - self.mode.e_bands[j] as i32;
        width * scale(self.lm) as i32
    }

    /// Computes [`AllocInput::threshold`].
    fn find_threshold(&self, j: usize) -> (t: i32)
        requires
            self@.wf(),
            self.start <= j < self.end,
        ensures
            t == self@.threshold(j as int),
            0 <= t <= 4096,
    {
        let n: i32 = self.size(j);
        let t: i32 = 3 * n * 8 / 16;
        let unit: i32 = self.channels * 8;
        if t > unit {
            t
        } else {
            unit
        }
    }

    /// Computes [`AllocInput::tilted`].
    fn tilt(&self, bits: i32, j: usize) -> (b: i32)
        requires
            self@.wf(),
            self.start <= j < self.end,
            0 <= bits <= 0x1000000,
        ensures
            b == self@.tilted(bits as int, j as int),
            0 <= b <= 0x2000000,
    {
        proof {
            lemma_products(self@, j as int);
        }
        if bits == 0 {
            return 0;
        }
        let n: i32 = self.size(j);
        let k: i32 = self.trim - 5 - self.lm;
        let rest: i32 = (self.end - j - 1) as i32;
        assert(-16 <= self.channels * k <= 10 && -400 <= self.channels * k * rest <= 400)
            by (nonlinear_arith)
            requires
                1 <= self.channels <= 2,
                -8 <= k <= 5,
                0 <= rest <= 23,
        ;
        let slope: i32 = self.channels * k * rest;
        assert(-2048 * 400 <= n * slope <= 2048 * 400) by (nonlinear_arith)
            requires
                0 <= n <= 2048,
                -400 <= slope <= 400,
        ;
        let product: i32 = n * slope * 8;
        let whole: i32 = if product >= 0 { product / 64 } else { -((63 - product) / 64) };
        let offset: i32 = if n == 1 { whole - self.channels * 8 } else { whole };
        assert(offset == self@.trim_offset(j as int));
        if bits + offset > 0 {
            bits + offset
        } else {
            0
        }
    }

    /// Computes [`AllocInput::row_bits`].
    fn find_row_bits(&self, v: usize, j: usize) -> (b: i32)
        requires
            self@.wf(),
            v < self.mode.num_alloc_vectors,
            self.start <= j < self.end,
        ensures
            b == self@.row_bits(v as int, j as int),
            0 <= b <= 0x2000000,
    {
        let n: i32 = self.size(j);
        let bands: usize = self.mode.num_ebands;
        assert(v * bands + bands <= self.mode.num_alloc_vectors * bands && v * bands + bands <= 64
            * 25) by (nonlinear_arith)
            requires
                0 <= v < self.mode.num_alloc_vectors,
                self.mode.num_alloc_vectors <= 64,
                0 <= bands <= 25,
        ;
        let entry: i32 = self.mode.alloc_vectors[v * bands + j] as i32;
        assert(0 <= self.channels * entry <= 510) by (nonlinear_arith)
            requires
                1 <= self.channels <= 2,
                0 <= entry <= 255,
        ;
        let level: i32 = self.channels * entry;
        assert(0 <= n * level <= 2048 * 510) by (nonlinear_arith)
            requires
                0 <= n <= 2048,
                0 <= level <= 510,
        ;
        self.tilt(n * level / 4, j)
    }

    /// Computes [`AllocInput::row_sum`].
    fn sum_row(&self, v: usize) -> (sum: i32)
        requires
            self@.wf(),
            v < self.mode.num_alloc_vectors,
        ensures
            sum == self@.row_sum(v as int),
            0 <= sum <= 0x2000000,
    {
        let ghost bits = |j: int| self@.row_bits(v as int, j) + self.offsets@[j];
        let unit: i32 = self.channels * 8;
        let mut sum: i32 = 0;
        let mut done: bool = false;
        let mut j: usize = self.end;
        while j > self.start
            invariant
                self@.wf(),
                v < self.mode.num_alloc_vectors,
                self.start <= j <= self.end,
                unit == self@.unit(),
                bits == (|j: int| self@.row_bits(v as int, j) + self.offsets@[j]),
                0 <= sum <= (self.end - j) * 0x100000,
                sum + self@.bits_sum(bits, j as int, done) == self@.bits_sum(
                    bits,
                    self.end as int,
                    false,
                ),
            decreases j,
        {
            j = j - 1;
            let b: i32 = self.find_row_bits(v, j) + self.offsets[j];
            assert(b == bits(j as int));
            if done || b >= self.find_threshold(j) {
                done = true;
                sum = sum + (if b < self.caps[j] { b } else { self.caps[j] });
            } else if b >= unit {
                sum = sum + unit;
            }
        }
        sum
    }

    /// Computes [`AllocInput::row_search`] over the whole table.
    fn find_row(&self, total: i32) -> (row: usize)
        requires
            self@.wf(),
        ensures
            row == self@.row_search(total as int, 1, self.mode.num_alloc_vectors - 1),
            1 <= row <= self.mode.num_alloc_vectors,
    {
        let mut lo: usize = 1;
        let mut above: usize = self.mode.num_alloc_vectors;
        while lo < above
            invariant
                self@.wf(),
                1 <= lo <= above <= self.mode.num_alloc_vectors,
                self@.row_search(total as int, lo as int, above - 1) == self@.row_search(
                    total as int,
                    1,
                    self.mode.num_alloc_vectors - 1,
                ),
            decreases above - lo,
        {
            let mid: usize = (lo + (above - 1)) / 2;
            if self.sum_row(mid) > total {
                above = mid;
            } else {
                lo = mid + 1;
            }
        }
        lo
    }

    /// Computes [`AllocInput::lower_bits`] and [`AllocInput::extra_bits`].
    fn find_rows(&self, row: usize, j: usize) -> (r: (i32, i32))
        requires
            self@.wf(),
            1 <= row <= self.mode.num_alloc_vectors,
            self.start <= j < self.end,
        ensures
            r.0 == self@.lower_bits(row as int, j as int),
            r.1 == self@.extra_bits(row as int, j as int),
            0 <= r.0 <= 0x2200000,
            0 <= r.1 <= 0x2200000,
    {
        let offset: i32 = self.offsets[j];
        let lower: i32 = self.find_row_bits(row - 1, j) + if row > 1 { offset } else { 0 };
        let top: i32 = if row >= self.mode.num_alloc_vectors {
            self.tilt(self.caps[j], j)
        } else {
            self.find_row_bits(row, j)
        };
        let upper: i32 = top + offset;
        (lower, if upper > lower { upper - lower } else { 0 })
    }

    /// Computes [`AllocInput::mixed_bits`].
    fn mix(&self, row: usize, mid: i32, j: usize) -> (b: i32)
        requires
            self@.wf(),
            1 <= row <= self.mode.num_alloc_vectors,
            self.start <= j < self.end,
            0 <= mid <= 64,
        ensures
            b == self@.mixed_bits(row as int, mid as int, j as int),
            0 <= b <= 0x4400000,
    {
        let (lower, extra) = self.find_rows(row, j);
        assert(0 <= mid * extra <= 64 * extra) by (nonlinear_arith)
            requires
                0 <= mid <= 64,
                0 <= extra,
        ;
        lower + (mid as i64 * extra as i64 / 64) as i32
    }

    /// Computes [`AllocInput::mixed_sum`].
    fn sum_mixed(&self, row: usize, mid: i32) -> (sum: i32)
        requires
            self@.wf(),
            1 <= row <= self.mode.num_alloc_vectors,
            0 <= mid <= 64,
        ensures
            sum == self@.mixed_sum(row as int, mid as int),
    {
        let ghost bits = |j: int| self@.mixed_bits(row as int, mid as int, j);
        let unit: i32 = self.channels * 8;
        let mut sum: i32 = 0;
        let mut done: bool = false;
        let mut j: usize = self.end;
        while j > self.start
            invariant
                self@.wf(),
                1 <= row <= self.mode.num_alloc_vectors,
                0 <= mid <= 64,
                self.start <= j <= self.end,
                unit == self@.unit(),
                bits == (|j: int| self@.mixed_bits(row as int, mid as int, j)),
                0 <= sum <= (self.end - j) * 0x100000,
                sum + self@.bits_sum(bits, j as int, done) == self@.bits_sum(
                    bits,
                    self.end as int,
                    false,
                ),
            decreases j,
        {
            j = j - 1;
            let b: i32 = self.mix(row, mid, j);
            assert(b == bits(j as int));
            if done || b >= self.find_threshold(j) {
                done = true;
                sum = sum + (if b < self.caps[j] { b } else { self.caps[j] });
            } else if b >= unit {
                sum = sum + unit;
            }
        }
        sum
    }

    /// Computes [`AllocInput::mix_search`] from the whole interval.
    fn find_mix(&self, row: usize, total: i32) -> (mix: i32)
        requires
            self@.wf(),
            1 <= row <= self.mode.num_alloc_vectors,
        ensures
            mix == self@.mix_search(row as int, total as int, 0, 64, 6),
            0 <= mix <= 64,
    {
        let mut lo: i32 = 0;
        let mut hi: i32 = 64;
        let mut steps: i32 = 6;
        while steps > 0
            invariant
                self@.wf(),
                1 <= row <= self.mode.num_alloc_vectors,
                0 <= lo <= hi <= 64,
                0 <= steps <= 6,
                self@.mix_search(row as int, total as int, lo as int, hi as int, steps as int)
                    == self@.mix_search(row as int, total as int, 0, 64, 6),
            decreases steps,
        {
            let mid: i32 = (lo + hi) / 2;
            if self.sum_mixed(row, mid) > total {
                hi = mid;
            } else {
                lo = mid;
            }
            steps = steps - 1;
        }
        lo
    }

    /// Computes [`AllocInput::initial`] and its sum.
    fn find_initial(&self, row: usize, mix: i32) -> (r: (Vec<i32>, i32))
        requires
            self@.wf(),
            1 <= row <= self.mode.num_alloc_vectors,
            0 <= mix <= 64,
        ensures
            r.0@ == self@.initial(row as int, mix as int),
            r.1 == self@.initial_sum(row as int, mix as int, self.start as int),
    {
        let unit: i32 = self.channels * 8;
        let bands: usize = self.mode.num_ebands;
        let mut bits: Vec<i32> = vec![0i32; bands];
        let mut sum: i32 = 0;
        let mut done: bool = false;
        let mut j: usize = self.end;
        while j > self.start
            invariant
                self@.wf(),
                1 <= row <= self.mode.num_alloc_vectors,
                0 <= mix <= 64,
                self.start <= j <= self.end,
                bands == self.mode.num_ebands,
                bits@.len() == bands,
                unit == self@.unit(),
                done == self@.worth_coding(row as int, mix as int, j as int),
                0 <= sum <= (self.end - j) * 0x100000,
                sum == self@.initial_sum(row as int, mix as int, j as int),
                forall|k: int|
                    0 <= k < bands ==> #[trigger] bits@[k] == (if j <= k < self.end {
                        self@.initial_bits(row as int, mix as int, k) as i32
                    } else {
                        0
                    }),
            decreases j,
        {
            j = j - 1;
            let b: i32 = self.mix(row, mix, j);
            let kept: i32 = if done || b >= self.find_threshold(j) {
                done = true;
                b
            } else if b >= unit {
                unit
            } else {
                0
            };
            let capped: i32 = if kept < self.caps[j] { kept } else { self.caps[j] };
            bits.set(j, capped);
            sum = sum + capped;
        }
        assert(bits@ =~= self@.initial(row as int, mix as int));
        (bits, sum)
    }

    /// Computes [`AllocInput::skip_start`].
    fn find_skip_start(&self) -> (r: usize)
        requires
            self@.wf(),
        ensures
            r == self@.skip_start(self.end as int),
            self.start <= r < self.end,
    {
        let mut j: usize = self.end;
        while j > self.start
            invariant
                self@.wf(),
                self.start <= j <= self.end,
                self@.skip_start(j as int) == self@.skip_start(self.end as int),
            decreases j,
        {
            if self.offsets[j - 1] > 0 {
                return j - 1;
            }
            j = j - 1;
        }
        self.start
    }

    /// Computes [`AllocInput::reserved`] and [`AllocInput::shared_total`].
    fn reserve(&self) -> (r: (i32, i32, i32, i32))
        requires
            self@.wf(),
        ensures
            (r.1 as int, r.2 as int, r.3 as int) == self@.reserved(),
            r.0 == self@.shared_total(),
            0 <= r.0,
            0 <= r.1 <= 8,
            0 <= r.2 <= 37,
            0 <= r.3 <= 8,
            r.2 > 0 ==> self.channels == 2,
            r.3 > 0 ==> r.2 > 0 || self.end == self.start,
    {
        let mut total: i32 = if self.total > 0 { self.total } else { 0 };
        let skip: i32 = if total >= 8 { 8 } else { 0 };
        total = total - skip;
        if self.channels == 2 {
            let wanted: i32 = LOG2_FRAC_TABLE[self.end - self.start] as i32;
            if wanted <= total {
                total = total - wanted;
                let dual: i32 = if total >= 8 { 8 } else { 0 };
                return (total - dual, skip, wanted, dual);
            }
        }
        (total, skip, 0, 0)
    }
}

/// State while bands at the end are skipped.
#[verifier::ext_equal]
pub struct SkipState<'a> {
    pub dec: EcDec<'a>,
    /// Allocations of the bands.
    pub bits: Seq<i32>,
    /// Bits allocated so far.
    pub psum: i32,
    /// Bits to share.
    pub total: i32,
    /// Bits reserved for the intensity band.
    pub intensity_rsv: i32,
    /// End of the bands that are coded.
    pub coded: int,
}

/// Bits per bin that `left` allows over `span` bins.
pub open spec fn per_bin(left: i32, span: int) -> i32 {
    ((left as u32) as int / span) as i32
}

impl AllocInput {
    /// Bits of the last coded band once the bits left over are spread.
    pub open spec fn last_band_bits(self, s: SkipState<'_>) -> i32 {
        let j = s.coded - 1;
        let left = s.total.wrapping_sub(s.psum);
        let each = per_bin(left, self.span(s.coded));
        let rest = left.wrapping_sub((self.span(s.coded) as i32).wrapping_mul(each)).wrapping_sub(
            self.span(j) as i32,
        );
        s.bits[j].wrapping_add(each.wrapping_mul(self.mode.width(j) as i32)).wrapping_add(
            if rest > 0 { rest } else { 0 },
        )
    }

    /// Fewest bits with which a band is worth a skip flag.
    pub open spec fn skip_threshold(self, j: int) -> int {
        if self.threshold(j) > self.unit() + 8 {
            self.threshold(j)
        } else {
            self.unit() + 8
        }
    }

    /// The state with the last band given up; `paid` says whether a flag was
    /// read for it.
    pub open spec fn band_dropped<'b>(self, s: SkipState<'b>, band_bits: i32, paid: bool) -> SkipState<
        'b,
    > {
        let j = s.coded - 1;
        let flag: i32 = if paid { 8 } else { 0 };
        let rsv: i32 = if s.intensity_rsv > 0 {
            LOG2_FRAC_TABLE@[j - self.start] as i32
        } else {
            s.intensity_rsv
        };
        let kept: i32 = if band_bits.wrapping_sub(flag) >= self.unit() {
            self.unit() as i32
        } else {
            0
        };
        SkipState {
            bits: s.bits.update(j, kept),
            psum: s.psum.wrapping_add(flag).wrapping_sub(
                s.bits[j].wrapping_add(s.intensity_rsv),
            ).wrapping_add(rsv).wrapping_add(kept),
            intensity_rsv: rsv,
            coded: j,
            ..s
        }
    }

    /// Bands skipped from the end as the flags say; the reserved flag is given
    /// back when only bands that are never skipped are left.
    pub open spec fn skipped<'b>(self, s: SkipState<'b>, skip_start: int, skip_rsv: i32) -> SkipState<
        'b,
    >
        decreases s.coded,
    {
        if s.coded - 1 <= skip_start || s.coded <= 0 {
            SkipState { total: s.total.wrapping_add(skip_rsv), ..s }
        } else {
            let band_bits = self.last_band_bits(s);
            if band_bits >= self.skip_threshold(s.coded - 1) {
                let (d, stop) = s.dec.bit(1);
                if stop {
                    SkipState { dec: d, ..s }
                } else {
                    self.skipped(
                        self.band_dropped(SkipState { dec: d, ..s }, band_bits, true),
                        skip_start,
                        skip_rsv,
                    )
                }
            } else {
                self.skipped(self.band_dropped(s, band_bits, false), skip_start, skip_rsv)
            }
        }
    }

    /// Bits left over spread over the bands from `j` up to `coded`: `each` per
    /// bin and the rest from the first band on.
    pub open spec fn spread(self, bits: Seq<i32>, each: i32, left: i32, coded: int, j: int) -> Seq<
        i32,
    >
        decreases coded - j,
    {
        if j >= coded {
            bits
        } else {
            let width = self.mode.width(j) as i32;
            let more = if left < width { left } else { width };
            self.spread(
                bits.update(
                    j,
                    bits[j].wrapping_add(each.wrapping_mul(width)).wrapping_add(more),
                ),
                each,
                left.wrapping_sub(more),
                coded,
                j + 1,
            )
        }
    }
}

/// How the bits of one band are divided.
pub struct Split {
    /// Bits for the shape, in 1/8 bits.
    pub bits: i32,
    /// Fine energy bits per channel.
    pub fine: i32,
    /// Whether the band comes last when left-over bits are spent.
    pub last: bool,
    /// Bits that the band cannot use.
    pub excess: i32,
}

/// The value limited to zero and eight.
pub open spec fn fine_limited(e: i32) -> i32 {
    if e > 8 {
        8
    } else if e < 0 {
        0
    } else {
        e
    }
}

/// The value, if it is not negative.
pub open spec fn not_negative(b: i32) -> i32 {
    if b < 0 {
        0
    } else {
        b
    }
}

impl AllocInput {
    /// Shift that divides by the number of channels.
    pub open spec fn channel_shift(self) -> u32 {
        if self.channels > 1 {
            1
        } else {
            0
        }
    }

    /// Degrees of freedom of a band.
    pub open spec fn freedom(self, j: int, dual: bool, intensity: int) -> i32 {
        let n = self.mode.width(j) * self.m();
        (self.channels * n + if self.channels == 2 && n > 2 && !dual && j < intensity {
            1int
        } else {
            0
        }) as i32
    }

    /// Offset of the fine energy from its fair share of the bits.
    pub open spec fn fine_offset(self, j: int, bits: i32, den: i32) -> i32 {
        let n = self.mode.width(j) * self.m();
        let logs = den.wrapping_mul((self.mode.log_n@[j] + self.lm * 8) as i32);
        let base = (logs >> 1u32).wrapping_sub(den.wrapping_mul(21)).wrapping_add(
            if n == 2 { den.wrapping_mul(2) } else { 0 },
        );
        if bits.wrapping_add(base) < den.wrapping_mul(16) {
            base.wrapping_add(logs >> 2u32)
        } else if bits.wrapping_add(base) < den.wrapping_mul(24) {
            base.wrapping_add(logs >> 3u32)
        } else {
            base
        }
    }

    /// Division of the bits of a band before the excess is used.
    pub open spec fn split_first(self, j: int, bit: i32, dual: bool, intensity: int) -> Split {
        let n = self.mode.width(j) * self.m();
        if n > 1 {
            let over = bit.wrapping_sub(self.caps[j]);
            let excess = if over > 0 { over } else { 0 };
            let bits = bit.wrapping_sub(excess);
            let den = self.freedom(j, dual, intensity);
            let offset = self.fine_offset(j, bits, den);
            let rounded = not_negative(bits.wrapping_add(offset).wrapping_add(den.wrapping_mul(4)));
            let wanted = (((rounded / den) as i32) >> 3u32) as i32;
            let paid = if self.channels.wrapping_mul(wanted) > (bits >> 3u32) {
                bits >> self.channel_shift() >> 3u32
            } else {
                wanted
            };
            let fine = fine_limited(paid);
            Split {
                bits: not_negative(bits.wrapping_sub(self.channels.wrapping_mul(fine).wrapping_mul(8))),
                fine,
                last: fine.wrapping_mul(den.wrapping_mul(8)) >= bits.wrapping_add(offset),
                excess,
            }
        } else {
            let over = bit.wrapping_sub(self.unit() as i32);
            let excess = if over > 0 { over } else { 0 };
            Split { bits: not_negative(bit.wrapping_sub(excess)), fine: 0, last: true, excess }
        }
    }

    /// Division of the bits of a band; the excess goes to fine energy first.
    pub open spec fn split(self, j: int, bit: i32, balance: i32, dual: bool, intensity: int) -> Split {
        let s = self.split_first(j, bit, dual, intensity);
        if s.excess > 0 {
            let room = (8 - s.fine) as i32;
            let share = s.excess >> ((self.channel_shift() + 3) as u32);
            let more = if share < room { share } else { room };
            let cost = more.wrapping_mul(self.channels).wrapping_mul(8);
            Split {
                fine: (s.fine + more) as i32,
                last: cost >= s.excess.wrapping_sub(balance),
                excess: s.excess.wrapping_sub(cost),
                ..s
            }
        } else {
            s
        }
    }

    /// Allocations divided for the bands from `j` on: shape bits, fine bits,
    /// priorities and the balance carried over.
    pub open spec fn divided(
        self,
        bits: Seq<i32>,
        fine: Seq<i32>,
        priority: Seq<i32>,
        balance: i32,
        dual: bool,
        intensity: int,
        coded: int,
        j: int,
    ) -> (Seq<i32>, Seq<i32>, Seq<i32>, i32)
        decreases self.end - j,
    {
        if j >= self.end {
            (bits, fine, priority, balance)
        } else if j < coded {
            let s = self.split(j, bits[j].wrapping_add(balance), balance, dual, intensity);
            self.divided(
                bits.update(j, s.bits),
                fine.update(j, s.fine),
                priority.update(j, if s.last { 1 } else { 0 }),
                s.excess,
                dual,
                intensity,
                coded,
                j + 1,
            )
        } else {
            let e = fine_limited(bits[j] >> self.channel_shift() >> 3u32);
            self.divided(
                bits.update(j, 0),
                fine.update(j, e),
                priority.update(j, if e < 1 { 1 } else { 0 }),
                balance,
                dual,
                intensity,
                coded,
                j + 1,
            )
        }
    }
}

/// A complete allocation.
#[verifier::ext_equal]
pub struct AllocationState<'a> {
    pub dec: EcDec<'a>,
    pub pulses: Seq<i32>,
    pub fine: Seq<i32>,
    pub priority: Seq<i32>,
    pub balance: i32,
    /// First band coded with intensity stereo.
    pub intensity: int,
    pub dual: bool,
    pub coded: int,
}

impl AllocInput {
    /// The state before bands are skipped.
    pub open spec fn skip_begun<'b>(self, dec: EcDec<'b>) -> SkipState<'b> {
        let total = self.shared_total();
        let row = self.row_search(total, 1, self.mode.num_alloc_vectors - 1);
        let mix = self.mix_search(row, total, 0, 64, 6);
        SkipState {
            dec,
            bits: self.initial(row, mix),
            psum: self.initial_sum(row, mix, self.start as int) as i32,
            total: total as i32,
            intensity_rsv: self.reserved().1 as i32,
            coded: self.end as int,
        }
    }

    /// The allocation after the bands to be coded are known.
    pub open spec fn finished<'b>(self, s: SkipState<'b>) -> AllocationState<'b> {
        let bands = self.mode.num_ebands as nat;
        let (d1, intensity) = if s.intensity_rsv > 0 {
            let (d, v) = s.dec.uint((s.coded + 1 - self.start) as u32);
            (d, self.start + v as int)
        } else {
            (s.dec, 0)
        };
        let dual_rsv = self.reserved().2 as i32;
        let alone = intensity <= self.start;
        let total = if alone { s.total.wrapping_add(dual_rsv) } else { s.total };
        let (d2, dual) = if !alone && dual_rsv > 0 { d1.bit(1) } else { (d1, false) };
        let left = total.wrapping_sub(s.psum);
        let each = per_bin(left, self.span(s.coded));
        let rest = left.wrapping_sub((self.span(s.coded) as i32).wrapping_mul(each));
        let bits = self.spread(s.bits, each, rest, s.coded, self.start as int);
        let zeros = Seq::new(bands, |i: int| 0i32);
        let (pulses, fine, priority, balance) = self.divided(
            bits,
            zeros,
            zeros,
            0,
            dual,
            intensity,
            s.coded,
            self.start as int,
        );
        AllocationState { dec: d2, pulses, fine, priority, balance, intensity, dual, coded: s.coded }
    }

    /// The allocation of a frame.
    #[verifier::opaque]
    pub open spec fn allocated<'b>(self, dec: EcDec<'b>) -> AllocationState<'b> {
        self.finished(
            self.skipped(
                self.skip_begun(dec),
                self.skip_start(self.end as int),
                self.reserved().0 as i32,
            ),
        )
    }
}

/// Buffers of an allocation.
pub struct Allocation {
    /// Shape bits of the bands, in 1/8 bits.
    pub pulses: Vec<i32>,
    /// Fine energy bits per channel.
    pub fine: Vec<i32>,
    /// One for the bands that come last when left-over bits are spent.
    pub priority: Vec<i32>,
    pub balance: i32,
    pub intensity: usize,
    pub dual: bool,
    /// End of the bands that are coded.
    pub coded: usize,
}

impl Allocation {
    /// Whether the buffers hold what the state says.
    pub open spec fn holds(self, s: AllocationState<'_>) -> bool {
        &&& self.pulses@ == s.pulses
        &&& self.fine@ == s.fine
        &&& self.priority@ == s.priority
        &&& self.balance == s.balance
        &&& self.intensity == s.intensity
        &&& self.dual == s.dual
        &&& self.coded == s.coded
    }
}

impl<'a> AllocRequest<'a> {
    /// Computes [`AllocInput::span`].
    fn find_span(&self, j: usize) -> (s: i32)
        requires
            self@.wf(),
            self.start <= j <= self.end,
        ensures
            s == self@.span(j as int),
            0 <= s <= 256,
            j > self.start ==> s >= 1,
    {
        proof {
            crate::spectrum::lemma_scaled_edges(*self.mode, 1, self.start as int, j as int);
            if j > self.start {
                crate::spectrum::lemma_scaled_edges(*self.mode, 1, self.start + 1, j as int);
            }
        }
        self.mode.e_bands[j] as i32 - self.mode.e_bands[self.start] as i32
    }

    /// Skips bands at the end; the bits that are shared, those allocated, those
    /// reserved for the intensity band and the end of the coded bands are
    /// returned.
    #[verifier::rlimit(40)]
    fn skip_bands(
        &self,
        dec: &mut EcDec<'_>,
        bits: &mut Vec<i32>,
        psum0: i32,
        total0: i32,
        rsv0: i32,
        skip_rsv: i32,
    ) -> (r: (i32, i32, i32, usize))
        requires
            self@.wf(),
            old(dec).wf(),
            old(bits)@.len() == self.mode.num_ebands,
        ensures
            (SkipState {
                dec: *final(dec),
                bits: final(bits)@,
                psum: r.1,
                total: r.0,
                intensity_rsv: r.2,
                coded: r.3 as int,
            }) == self@.skipped(
                SkipState {
                    dec: *old(dec),
                    bits: old(bits)@,
                    psum: psum0,
                    total: total0,
                    intensity_rsv: rsv0,
                    coded: self.end as int,
                },
                self@.skip_start(self.end as int),
                skip_rsv,
            ),
            final(bits)@.len() == self.mode.num_ebands,
            final(dec).wf(),
            final(dec).buf@ == old(dec).buf@,
            self.start < r.3 <= self.end,
    {
        let skip_start: usize = self.find_skip_start();
        let unit: i32 = self.channels * 8;
        let ghost first = SkipState {
            dec: *dec,
            bits: bits@,
            psum: psum0,
            total: total0,
            intensity_rsv: rsv0,
            coded: self.end as int,
        };
        let mut psum: i32 = psum0;
        let mut rsv: i32 = rsv0;
        let mut coded: usize = self.end;
        while coded - 1 > skip_start
            invariant
                self@.wf(),
                dec.wf(),
                dec.buf@ == old(dec).buf@,
                bits@.len() == self.mode.num_ebands,
                self.start <= skip_start < self.end,
                skip_start == self@.skip_start(self.end as int),
                unit == self@.unit(),
                skip_start < coded <= self.end,
                first == (SkipState {
                    dec: *old(dec),
                    bits: old(bits)@,
                    psum: psum0,
                    total: total0,
                    intensity_rsv: rsv0,
                    coded: self.end as int,
                }),
                self@.skipped(
                    SkipState {
                        dec: *dec,
                        bits: bits@,
                        psum,
                        total: total0,
                        intensity_rsv: rsv,
                        coded: coded as int,
                    },
                    skip_start as int,
                    skip_rsv,
                ) == self@.skipped(first, skip_start as int, skip_rsv),
            decreases coded,
        {
            let j: usize = coded - 1;
            let ghost now = SkipState {
                dec: *dec,
                bits: bits@,
                psum,
                total: total0,
                intensity_rsv: rsv,
                coded: coded as int,
            };
            let left: i32 = total0.wrapping_sub(psum);
            let span: i32 = self.find_span(coded);
            let before: i32 = self.find_span(j);
            let width: i32 = span - before;
            let each: i32 = (left as u32 / span as u32) as i32;
            let rest: i32 = left.wrapping_sub(span.wrapping_mul(each)).wrapping_sub(before);
            let band_bits: i32 = bits[j].wrapping_add(each.wrapping_mul(width)).wrapping_add(
                if rest > 0 { rest } else { 0 },
            );
            let threshold: i32 = self.find_threshold(j);
            let needed: i32 = if threshold > unit + 8 { threshold } else { unit + 8 };
            assert(band_bits == self@.last_band_bits(now));
            assert(needed == self@.skip_threshold(j as int));
            let mut flag: i32 = 0;
            if band_bits >= needed {
                if dec.dec_bit_logp(1) {
                    assert(self@.skipped(now, skip_start as int, skip_rsv) == (SkipState {
                        dec: *dec,
                        ..now
                    }));
                    return (total0, psum, rsv, coded);
                }
                flag = 8;
            }
            let new_rsv: i32 = if rsv > 0 { LOG2_FRAC_TABLE[j - self.start] as i32 } else { rsv };
            let kept: i32 = if band_bits.wrapping_sub(flag) >= unit { unit } else { 0 };
            psum = psum.wrapping_add(flag).wrapping_sub(bits[j].wrapping_add(rsv)).wrapping_add(
                new_rsv,
            ).wrapping_add(kept);
            rsv = new_rsv;
            bits.set(j, kept);
            coded = j;
        }
        (total0.wrapping_add(skip_rsv), psum, rsv, coded)
    }

    /// Computes [`AllocInput::spread`].
    fn spread_left(&self, bits: &mut Vec<i32>, each: i32, left0: i32, coded: usize)
        requires
            self@.wf(),
            old(bits)@.len() == self.mode.num_ebands,
            coded <= self.end,
        ensures
            final(bits)@ == self@.spread(
                old(bits)@,
                each,
                left0,
                coded as int,
                self.start as int,
            ),
            final(bits)@.len() == self.mode.num_ebands,
    {
        let mut left: i32 = left0;
        let mut j: usize = self.start;
        while j < coded
            invariant
                self@.wf(),
                bits@.len() == self.mode.num_ebands,
                self.start <= j,
                coded <= self.end,
                self@.spread(bits@, each, left, coded as int, j as int) == self@.spread(
                    old(bits)@,
                    each,
                    left0,
                    coded as int,
                    self.start as int,
                ),
            decreases coded - j,
        {
            let width: i32 = self.mode.e_bands[j + 1] as i32 - self.mode.e_bands[j] as i32;
            let more: i32 = if left < width { left } else { width };
            let b: i32 = bits[j].wrapping_add(each.wrapping_mul(width)).wrapping_add(more);
            bits.set(j, b);
            left = left.wrapping_sub(more);
            j = j + 1;
        }
    }

    /// Computes [`AllocInput::fine_offset`].
    fn find_fine_offset(&self, j: usize, bits: i32, den: i32, n: i32) -> (offset: i32)
        requires
            self@.wf(),
            self.start <= j < self.end,
            n == self.mode.width(j as int) * self@.m(),
        ensures
            offset == self@.fine_offset(j as int, bits, den),
    {
        let logs: i32 = den.wrapping_mul(self.mode.log_n[j] as i32 + self.lm * 8);
        let base: i32 = (logs >> 1u32).wrapping_sub(den.wrapping_mul(21)).wrapping_add(
            if n == 2 { den.wrapping_mul(2) } else { 0 },
        );
        if bits.wrapping_add(base) < den.wrapping_mul(16) {
            base.wrapping_add(logs >> 2u32)
        } else if bits.wrapping_add(base) < den.wrapping_mul(24) {
            base.wrapping_add(logs >> 3u32)
        } else {
            base
        }
    }

    /// Computes [`AllocInput::split_first`].
    fn divide_first(&self, j: usize, bit: i32, dual: bool, intensity: usize) -> (s: Split)
        requires
            self@.wf(),
            self.start <= j < self.end,
        ensures
            s == self@.split_first(j as int, bit, dual, intensity as int),
            0 <= s.fine <= 8,
            s.bits >= 0,
    {
        let n: i32 = self.size(j);
        if n > 1 {
            let over: i32 = bit.wrapping_sub(self.caps[j]);
            let excess: i32 = if over > 0 { over } else { 0 };
            let bits: i32 = bit.wrapping_sub(excess);
            assert(0 <= self.channels * n <= 4096) by (nonlinear_arith)
                requires
                    1 <= self.channels <= 2,
                    0 <= n <= 2048,
            ;
            let den: i32 = self.channels * n + if self.channels == 2 && n > 2 && !dual && j
                < intensity {
                1
            } else {
                0
            };
            assert(den >= 1) by (nonlinear_arith)
                requires
                    den >= self.channels * n,
                    self.channels >= 1,
                    n > 1,
            ;
            let offset: i32 = self.find_fine_offset(j, bits, den, n);
            let raised: i32 = bits.wrapping_add(offset).wrapping_add(den.wrapping_mul(4));
            let rounded: i32 = if raised < 0 { 0 } else { raised };
            proof {
                vstd::arithmetic::div_mod::lemma_div_is_ordered_by_denominator(
                    rounded as int,
                    1,
                    den as int,
                );
                vstd::arithmetic::div_mod::lemma_div_pos_is_pos(rounded as int, den as int);
            }
            let wanted: i32 = (rounded / den) >> 3u32;
            let shift: u32 = if self.channels > 1 { 1 } else { 0 };
            let paid: i32 = if self.channels.wrapping_mul(wanted) > (bits >> 3u32) {
                bits >> shift >> 3u32
            } else {
                wanted
            };
            let fine: i32 = if paid > 8 {
                8
            } else if paid < 0 {
                0
            } else {
                paid
            };
            let left: i32 = bits.wrapping_sub(self.channels.wrapping_mul(fine).wrapping_mul(8));
            Split {
                bits: if left < 0 { 0 } else { left },
                fine,
                last: fine.wrapping_mul(den.wrapping_mul(8)) >= bits.wrapping_add(offset),
                excess,
            }
        } else {
            let over: i32 = bit.wrapping_sub(self.channels * 8);
            let excess: i32 = if over > 0 { over } else { 0 };
            let left: i32 = bit.wrapping_sub(excess);
            Split { bits: if left < 0 { 0 } else { left }, fine: 0, last: true, excess }
        }
    }

    /// Computes [`AllocInput::split`].
    fn divide_band(&self, j: usize, bit: i32, balance: i32, dual: bool, intensity: usize) -> (s: Split)
        requires
            self@.wf(),
            self.start <= j < self.end,
        ensures
            s == self@.split(j as int, bit, balance, dual, intensity as int),
            0 <= s.fine <= 8,
            s.bits >= 0,
    {
        let s: Split = self.divide_first(j, bit, dual, intensity);
        if s.excess <= 0 {
            return s;
        }
        let room: i32 = 8 - s.fine;
        let shift: u32 = if self.channels > 1 { 4 } else { 3 };
        let share: i32 = s.excess >> shift;
        let positive: i32 = s.excess;
        assert(positive > 0 && shift < 32 ==> (positive >> shift) >= 0) by (bit_vector);
        let more: i32 = if share < room { share } else { room };
        let cost: i32 = more.wrapping_mul(self.channels).wrapping_mul(8);
        Split {
            bits: s.bits,
            fine: s.fine + more,
            last: cost >= s.excess.wrapping_sub(balance),
            excess: s.excess.wrapping_sub(cost),
        }
    }
}

impl<'a> AllocRequest<'a> {
    /// Computes [`AllocInput::divided`] for all bands; the balance is returned.
    fn divide_all(
        &self,
        bits: &mut Vec<i32>,
        fine: &mut Vec<i32>,
        priority: &mut Vec<i32>,
        dual: bool,
        intensity: usize,
        coded: usize,
    ) -> (balance: i32)
        requires
            self@.wf(),
            old(bits)@.len() == self.mode.num_ebands,
            old(fine)@.len() == self.mode.num_ebands,
            old(priority)@.len() == self.mode.num_ebands,
        ensures
            (final(bits)@, final(fine)@, final(priority)@, balance) == self@.divided(
                old(bits)@,
                old(fine)@,
                old(priority)@,
                0,
                dual,
                intensity as int,
                coded as int,
                self.start as int,
            ),
            final(bits)@.len() == self.mode.num_ebands,
            final(fine)@.len() == self.mode.num_ebands,
            final(priority)@.len() == self.mode.num_ebands,
            forall|k: int|
                self.start <= k < self.end ==> 0 <= #[trigger] final(fine)@[k] <= 8,
            forall|k: int| self.start <= k < self.end ==> #[trigger] final(bits)@[k] >= 0,
    {
        let shift: u32 = if self.channels > 1 { 1 } else { 0 };
        let mut balance: i32 = 0;
        let mut j: usize = self.start;
        while j < self.end
            invariant
                self@.wf(),
                self.start <= j <= self.end,
                shift == self@.channel_shift(),
                bits@.len() == self.mode.num_ebands,
                fine@.len() == self.mode.num_ebands,
                priority@.len() == self.mode.num_ebands,
                self@.divided(
                    bits@,
                    fine@,
                    priority@,
                    balance,
                    dual,
                    intensity as int,
                    coded as int,
                    j as int,
                ) == self@.divided(
                    old(bits)@,
                    old(fine)@,
                    old(priority)@,
                    0,
                    dual,
                    intensity as int,
                    coded as int,
                    self.start as int,
                ),
                forall|k: int| self.start <= k < j ==> 0 <= #[trigger] fine@[k] <= 8,
                forall|k: int| self.start <= k < j ==> #[trigger] bits@[k] >= 0,
            decreases self.end - j,
        {
            if j < coded {
                let s: Split = self.divide_band(
                    j,
                    bits[j].wrapping_add(balance),
                    balance,
                    dual,
                    intensity,
                );
                bits.set(j, s.bits);
                fine.set(j, s.fine);
                priority.set(j, if s.last { 1 } else { 0 });
                balance = s.excess;
            } else {
                let raw: i32 = bits[j] >> shift >> 3u32;
                let e: i32 = if raw > 8 {
                    8
                } else if raw < 0 {
                    0
                } else {
                    raw
                };
                bits.set(j, 0);
                fine.set(j, e);
                priority.set(j, if e < 1 { 1 } else { 0 });
            }
            j = j + 1;
        }
        balance
    }
}

/// Shares the bits of a frame between its bands.
#[verifier::rlimit(40)]
pub fn clt_compute_allocation(request: &AllocRequest<'_>, dec: &mut EcDec<'_>) -> (a: Allocation)
    requires
        request@.wf(),
        old(dec).wf(),
    ensures
        a.holds(request@.allocated(*old(dec))),
        *final(dec) == request@.allocated(*old(dec)).dec,
        final(dec).wf(),
        final(dec).buf@ == old(dec).buf@,
        a.pulses@.len() == request.mode.num_ebands,
        a.fine@.len() == request.mode.num_ebands,
        a.priority@.len() == request.mode.num_ebands,
        request.start < a.coded <= request.end,
        a.intensity <= request.end,
        forall|k: int| request.start <= k < request.end ==> 0 <= #[trigger] a.fine@[k] <= 8,
        forall|k: int| request.start <= k < request.end ==> #[trigger] a.pulses@[k] >= 0,
{
    proof {
        reveal(AllocInput::allocated);
    }
    let ghost d0 = *dec;
    let (total0, skip_rsv, rsv0, dual_rsv) = request.reserve();
    let row: usize = request.find_row(total0);
    let mix: i32 = request.find_mix(row, total0);
    let (first_bits, psum0) = request.find_initial(row, mix);
    let mut bits: Vec<i32> = first_bits;
    assert(request@.skip_begun(d0) == (SkipState {
        dec: d0,
        bits: bits@,
        psum: psum0,
        total: total0,
        intensity_rsv: rsv0,
        coded: request.end as int,
    }));
    let (shared, psum, rsv, coded) = request.skip_bands(
        dec,
        &mut bits,
        psum0,
        total0,
        rsv0,
        skip_rsv,
    );
    let intensity: usize = if rsv > 0 {
        request.start + dec.dec_uint((coded + 1 - request.start) as u32) as usize
    } else {
        0
    };
    let alone: bool = intensity <= request.start;
    let total: i32 = if alone { shared.wrapping_add(dual_rsv) } else { shared };
    let dual: bool = if !alone && dual_rsv > 0 { dec.dec_bit_logp(1) } else { false };
    let left: i32 = total.wrapping_sub(psum);
    let span: i32 = request.find_span(coded);
    let each: i32 = (left as u32 / span as u32) as i32;
    let rest: i32 = left.wrapping_sub(span.wrapping_mul(each));
    request.spread_left(&mut bits, each, rest, coded);
    let bands: usize = request.mode.num_ebands;
    let mut fine: Vec<i32> = vec![0i32; bands];
    let mut priority: Vec<i32> = vec![0i32; bands];
    assert(fine@ =~= Seq::new(bands as nat, |i: int| 0i32));
    assert(priority@ =~= Seq::new(bands as nat, |i: int| 0i32));
    let balance: i32 = request.divide_all(
        &mut bits,
        &mut fine,
        &mut priority,
        dual,
        intensity,
        coded,
    );
    Allocation { pulses: bits, fine, priority, balance, intensity, dual, coded }
}

} // verus!
