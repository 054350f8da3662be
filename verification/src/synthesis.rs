//! From spectra to samples: the spectra of the output channels, the inverse
//! transform, folding of the overlap and de-emphasis.

use vstd::prelude::*;
use crate::band_tf::{scale, scale_of};
use crate::fixed::{mult16_32_q15, pshr32, shl32};
use crate::mdct::{backward, clt_mdct_backward};
use crate::mode::OpusCustomMode;
use crate::plc::sig_clamped;
use crate::spectrum::{denormalise_bands, denormalised, lemma_row, write_at, written};

verus! {

/// Copy of the elements from `from` to `to`.
pub fn copy_range<T: Copy>(x: &Vec<T>, from: usize, to: usize) -> (r: Vec<T>)
    requires
        from <= to <= x@.len(),
    ensures
        r@ == x@.subrange(from as int, to as int),
{
    let mut r: Vec<T> = Vec::new();
    for i in from..to
        invariant
            from <= to <= x@.len(),
            r@.len() == i - from,
            forall|j: int| 0 <= j < i - from ==> #[trigger] r@[j] == x@[from + j],
    {
        r.push(x[i]);
    }
    assert(r@ =~= x@.subrange(from as int, to as int));
    r
}

/// What the spectra of a frame are made from.
pub struct SynthesisInput<'a> {
    pub mode: &'a OpusCustomMode,
    /// Normalised spectra of the stream channels.
    pub x: &'a Vec<i16>,
    /// Log energies, one row per channel.
    pub old_band_e: &'a Vec<i32>,
    pub start: usize,
    pub eff_end: usize,
    /// Channels in the stream.
    pub coded_channels: usize,
    pub lm: usize,
    pub downsample: usize,
    pub silence: bool,
}

/// The value of a [`SynthesisInput`].
pub struct Spectra {
    pub mode: OpusCustomMode,
    pub x: Seq<i16>,
    pub old_band_e: Seq<i32>,
    pub start: int,
    pub eff_end: int,
    pub coded_channels: int,
    pub lm: int,
    pub downsample: int,
    pub silence: bool,
}

impl<'a> View for SynthesisInput<'a> {
    type V = Spectra;

    open spec fn view(&self) -> Spectra {
        Spectra {
            mode: *self.mode,
            x: self.x@,
            old_band_e: self.old_band_e@,
            start: self.start as int,
            eff_end: self.eff_end as int,
            coded_channels: self.coded_channels as int,
            lm: self.lm as int,
            downsample: self.downsample as int,
            silence: self.silence,
        }
    }
}

impl Spectra {
    /// Samples of a frame.
    pub open spec fn n(self) -> int {
        scale_of(self.lm) * self.mode.short_mdct_size
    }

    pub open spec fn wf(self) -> bool {
        &&& self.mode.spectrum_wf()
        &&& 0 <= self.lm <= 3
        &&& 1 <= self.coded_channels <= 2
        &&& self.start <= self.mode.num_ebands
        &&& self.eff_end <= self.mode.num_ebands
        &&& self.downsample > 0
        &&& self.coded_channels * self.n() <= self.x.len()
        &&& self.coded_channels * self.mode.num_ebands <= self.old_band_e.len()
    }

    /// Spectrum of one stream channel at its energies.
    pub open spec fn channel(self, c: int) -> Seq<i32> {
        let bands = self.mode.num_ebands as int;
        denormalised(
            self.mode,
            self.x.subrange(c * self.n(), c * self.n() + self.n()),
            Seq::new(self.n() as nat, |i: int| 0i32),
            self.old_band_e.subrange(c * bands, c * bands + bands),
            self.start,
            self.eff_end,
            scale_of(self.lm),
            self.downsample,
            self.silence,
        )
    }

    /// Spectrum of one output channel: a single stream channel feeds both
    /// outputs, and two stream channels are averaged for a single output.
    pub open spec fn output(self, outputs: int, channel: int) -> Seq<i32> {
        if outputs == 2 && self.coded_channels == 1 {
            self.channel(0)
        } else if outputs == 1 && self.coded_channels == 2 {
            let a = self.channel(0);
            let b = self.channel(1);
            Seq::new(a.len(), |i: int| pshr32(a[i].wrapping_add(b[i]), 1))
        } else {
            self.channel(channel)
        }
    }
}

impl<'a> SynthesisInput<'a> {
    /// Computes [`Spectra::channel`].
    fn find_channel(&self, c: usize) -> (freq: Vec<i32>)
        requires
            self@.wf(),
            c < self.coded_channels,
        ensures
            freq@ == self@.channel(c as int),
            freq@.len() == self@.n(),
    {
        let m: usize = scale(self.lm as i32);
        let bands: usize = self.mode.num_ebands;
        proof {
            crate::spectrum::lemma_scaled_edges(*self.mode, m as int, 0, 0);
            lemma_row(c as int, self.coded_channels as int, self@.n());
            lemma_row(c as int, self.coded_channels as int, bands as int);
        }
        assert(self.x@.len() == self.x.len());
        assert(self.old_band_e@.len() == self.old_band_e.len());
        let n: usize = m * self.mode.short_mdct_size;
        let x: Vec<i16> = copy_range(self.x, c * n, c * n + n);
        let e: Vec<i32> = copy_range(self.old_band_e, c * bands, c * bands + bands);
        let mut freq: Vec<i32> = vec![0i32; n];
        assert(freq@ =~= Seq::new(n as nat, |i: int| 0i32));
        denormalise_bands(
            self.mode,
            &x,
            &mut freq,
            &e,
            self.start,
            self.eff_end,
            m,
            self.downsample,
            self.silence,
        );
        freq
    }

    /// Computes [`Spectra::output`].
    pub fn find_output(&self, outputs: usize, channel: usize) -> (freq: Vec<i32>)
        requires
            self@.wf(),
            1 <= outputs <= 2,
            channel < outputs,
        ensures
            freq@ == self@.output(outputs as int, channel as int),
            freq@.len() == self@.n(),
    {
        if outputs == 2 && self.coded_channels == 1 {
            self.find_channel(0)
        } else if outputs == 1 && self.coded_channels == 2 {
            let mut a: Vec<i32> = self.find_channel(0);
            let b: Vec<i32> = self.find_channel(1);
            let ghost a0 = a@;
            let n: usize = a.len();
            for i in 0..n
                invariant
                    n == a@.len(),
                    n == b@.len(),
                    n == a0.len(),
                    forall|k: int|
                        0 <= k < i ==> #[trigger] a@[k] == pshr32(a0[k].wrapping_add(b@[k]), 1),
                    forall|k: int| i <= k < n ==> #[trigger] a@[k] == a0[k],
            {
                let v: i32 = pshr32(a[i].wrapping_add(b[i]), 1);
                a.set(i, v);
            }
            assert(a@ =~= self@.output(outputs as int, channel as int));
            a
        } else {
            self.find_channel(channel)
        }
    }
}

/// Coefficients of block `b` out of `blocks` interleaved ones.
pub open spec fn block_of(freq: Seq<i32>, blocks: int, b: int, nb: int) -> Seq<i32> {
    Seq::new(nb as nat, |i: int| freq[b + i * blocks])
}

/// Computes [`block_of`].
pub fn block_coefficients(freq: &Vec<i32>, blocks: usize, b: usize, nb: usize) -> (r: Vec<i32>)
    requires
        b < blocks,
        nb * blocks <= freq@.len(),
    ensures
        r@ == block_of(freq@, blocks as int, b as int, nb as int),
{
    assert(freq@.len() == freq.len());
    let mut r: Vec<i32> = Vec::new();
    for i in 0..nb
        invariant
            b < blocks,
            nb * blocks <= freq@.len(),
            freq@.len() == freq.len(),
            r@.len() == i,
            forall|k: int| 0 <= k < i ==> #[trigger] r@[k] == freq@[b + k * blocks],
    {
        assert(0 <= i * blocks && i * blocks + blocks <= nb * blocks) by (nonlinear_arith)
            requires
                0 <= i < nb,
                0 <= blocks,
        ;
        r.push(freq[b + i * blocks]);
    }
    assert(r@ =~= block_of(freq@, blocks as int, b as int, nb as int));
    r
}

/// A history with the blocks from `b` on transformed into the frame behind
/// `start`, each added to the overlap of the one in front of it.
pub open spec fn blocks_transformed(
    mode: OpusCustomMode,
    freq: Seq<i32>,
    mem: Seq<i32>,
    start: int,
    blocks: int,
    nb: int,
    shift: int,
    b: int,
) -> Seq<i32>
    decreases blocks - b,
{
    if b >= blocks {
        mem
    } else {
        let at = start + b * nb;
        let region = backward(
            mem.subrange(at, mem.len() as int),
            block_of(freq, blocks, b, nb),
            mode.mdct,
            shift,
            mode.window@,
            mode.overlap as int,
        );
        blocks_transformed(
            mode,
            freq,
            written(mem, at, region),
            start,
            blocks,
            nb,
            shift,
            b + 1,
        )
    }
}

/// A history whose `n` samples behind `start` are limited.
pub open spec fn limited(mem: Seq<i32>, start: int, n: int) -> Seq<i32> {
    Seq::new(
        mem.len(),
        |k: int| if start <= k < start + n { sig_clamped(mem[k]) } else { mem[k] },
    )
}

/// Computes [`limited`].
fn limit(mem: &mut Vec<i32>, start: usize, n: usize)
    requires
        start + n <= old(mem)@.len(),
    ensures
        final(mem)@ == limited(old(mem)@, start as int, n as int),
        final(mem)@.len() == old(mem)@.len(),
{
    let ghost mem0 = mem@;
    assert(mem@.len() == mem.len());
    for i in 0..n
        invariant
            start + n <= mem@.len(),
            mem@.len() == mem0.len(),
            mem@.len() <= usize::MAX,
            forall|k: int|
                0 <= k < mem0.len() ==> #[trigger] mem@[k] == (if k < start + i {
                    limited(mem0, start as int, n as int)[k]
                } else {
                    mem0[k]
                }),
    {
        let v: i32 = sig_clamped(mem[start + i]);
        mem.set(start + i, v);
    }
    assert(mem@ =~= limited(mem0, start as int, n as int));
}

/// Transforms the spectrum of one channel into the frame behind `start`, block
/// by block, and limits the samples of the frame.
pub fn inverse_transform(
    mode: &OpusCustomMode,
    freq: &Vec<i32>,
    mem: &mut Vec<i32>,
    start: usize,
    blocks: usize,
    nb: usize,
    shift: usize,
)
    requires
        mode.sizes_wf(),
        mode.mdct.serves(shift as int, nb as int),
        nb * blocks <= freq@.len(),
        start + nb * blocks + mode.overlap <= old(mem)@.len(),
    ensures
        final(mem)@ == limited(
            blocks_transformed(
                *mode,
                freq@,
                old(mem)@,
                start as int,
                blocks as int,
                nb as int,
                shift as int,
                0,
            ),
            start as int,
            nb * blocks,
        ),
        final(mem)@.len() == old(mem)@.len(),
{
    let ghost mem0 = mem@;
    assert(mem@.len() == mem.len() && freq@.len() == freq.len());
    let len: usize = mem.len();
    let mut b: usize = 0;
    while b < blocks
        invariant
            b <= blocks,
            mode.sizes_wf(),
            mode.mdct.serves(shift as int, nb as int),
            nb * blocks <= freq@.len(),
            start + nb * blocks + mode.overlap <= len,
            len == mem@.len(),
            len == mem0.len(),
            blocks_transformed(
                *mode,
                freq@,
                mem@,
                start as int,
                blocks as int,
                nb as int,
                shift as int,
                b as int,
            ) == blocks_transformed(
                *mode,
                freq@,
                mem0,
                start as int,
                blocks as int,
                nb as int,
                shift as int,
                0,
            ),
        decreases blocks - b,
    {
        assert(0 <= b * nb && b * nb + nb <= nb * blocks) by (nonlinear_arith)
            requires
                0 <= b < blocks,
                0 <= nb,
        ;
        let coefficients: Vec<i32> = block_coefficients(freq, blocks, b, nb);
        let at: usize = start + b * nb;
        let mut region: Vec<i32> = copy_range(mem, at, len);
        clt_mdct_backward(
            &coefficients,
            &mut region,
            &mode.mdct,
            shift,
            &mode.window,
            mode.overlap,
        );
        write_at(mem, at, &region);
        b = b + 1;
    }
    assert(nb * blocks >= 0) by (nonlinear_arith)
        requires
            nb >= 0,
            blocks >= 0,
    ;
    limit(mem, start, nb * blocks);
}

/// The overlap behind `start` folded: the filtered overlap and its mirror image,
/// windowed and added.
pub open spec fn folded(
    mem: Seq<i32>,
    start: int,
    overlap: int,
    filtered: Seq<i32>,
    window: Seq<i16>,
) -> Seq<i32> {
    Seq::new(
        mem.len(),
        |k: int|
            if start <= k < start + overlap / 2 {
                mult16_32_q15(window[k - start], filtered[overlap - 1 - (k - start)]).wrapping_add(
                    mult16_32_q15(window[overlap - 1 - (k - start)], filtered[k - start]),
                )
            } else {
                mem[k]
            },
    )
}

/// Computes [`folded`].
pub fn fold_overlap(
    mem: &mut Vec<i32>,
    start: usize,
    overlap: usize,
    filtered: &Vec<i32>,
    window: &Vec<i16>,
)
    requires
        start + overlap <= old(mem)@.len(),
        filtered@.len() == overlap,
        overlap <= window@.len(),
    ensures
        final(mem)@ == folded(old(mem)@, start as int, overlap as int, filtered@, window@),
        final(mem)@.len() == old(mem)@.len(),
{
    let ghost mem0 = mem@;
    assert(mem@.len() == mem.len());
    let half: usize = overlap / 2;
    for i in 0..half
        invariant
            half == overlap / 2,
            start + overlap <= mem@.len(),
            mem@.len() == mem0.len(),
            mem@.len() <= usize::MAX,
            filtered@.len() == overlap,
            overlap <= window@.len(),
            forall|k: int|
                0 <= k < mem0.len() ==> #[trigger] mem@[k] == (if start <= k < start + i {
                    folded(mem0, start as int, overlap as int, filtered@, window@)[k]
                } else {
                    mem0[k]
                }),
    {
        let forward: i32 = mult16_32_q15(window[i], filtered[overlap - 1 - i]);
        let reverse: i32 = mult16_32_q15(window[overlap - 1 - i], filtered[i]);
        mem.set(start + i, forward.wrapping_add(reverse));
    }
    assert(mem@ =~= folded(mem0, start as int, overlap as int, filtered@, window@));
}

/// Coefficients of the de-emphasis filter.
#[derive(Clone, Copy)]
pub struct Deemphasis {
    /// Feedback, in Q15.
    pub coef0: i16,
    /// Feed-forward, in Q15; zero for the simple filter.
    pub coef1: i16,
    /// Output gain of the full filter, in Q13.
    pub coef3: i16,
}

impl Deemphasis {
    /// Output sample and new memory for one sample.
    pub open spec fn step(self, v: i32, mem: i32) -> (i32, i32) {
        let tmp = sig_clamped(v.wrapping_add(mem));
        if self.coef1 != 0 {
            (
                shl32(mult16_32_q15(self.coef3, tmp), 2),
                mult16_32_q15(self.coef0, tmp).wrapping_sub(mult16_32_q15(self.coef1, v)),
            )
        } else {
            (tmp, mult16_32_q15(self.coef0, tmp))
        }
    }

    /// Memory after `n` samples.
    pub open spec fn memory(self, x: Seq<i32>, mem: i32, n: int) -> i32
        decreases n,
    {
        if n <= 0 {
            mem
        } else {
            self.step(x[n - 1], self.memory(x, mem, n - 1)).1
        }
    }

    /// Output sample `i`.
    pub open spec fn sample(self, x: Seq<i32>, mem: i32, i: int) -> i32 {
        self.step(x[i], self.memory(x, mem, i)).0
    }
}

/// The filter of a mode for a channel layout: stereo output that replaces the
/// buffer at the full rate uses the simple filter.
pub open spec fn deemphasis_of(
    mode: OpusCustomMode,
    channels: int,
    downsample: int,
    accum: bool,
) -> Deemphasis {
    let p = mode.pre_emphasis@;
    Deemphasis {
        coef0: p[0],
        coef1: if channels == 2 && downsample == 1 && !accum { 0 } else { p[1] },
        coef3: p[3],
    }
}

/// Computes [`deemphasis_of`].
pub fn deemphasis_filter(
    mode: &OpusCustomMode,
    channels: usize,
    downsample: usize,
    accum: bool,
) -> (d: Deemphasis)
    ensures
        d == deemphasis_of(*mode, channels as int, downsample as int, accum),
{
    Deemphasis {
        coef0: mode.pre_emphasis[0],
        coef1: if channels == 2 && downsample == 1 && !accum { 0 } else { mode.pre_emphasis[1] },
        coef3: mode.pre_emphasis[3],
    }
}

/// De-emphasises one channel and keeps every `downsample`-th sample; the new
/// memory is returned.
pub fn deemphasise_channel(
    filter: &Deemphasis,
    x: &Vec<i32>,
    mem: i32,
    downsample: usize,
) -> (r: (Vec<i32>, i32))
    requires
        downsample > 0,
    ensures
        r.0@ == Seq::new(
            (x@.len() as int / downsample as int) as nat,
            |j: int| filter.sample(x@, mem, j * downsample),
        ),
        r.1 == filter.memory(x@, mem, x@.len() as int),
{
    let n: usize = x.len();
    let nd: usize = n / downsample;
    let mut out: Vec<i32> = Vec::new();
    let mut m: i32 = mem;
    let mut next: usize = 0;
    proof {
        vstd::arithmetic::div_mod::lemma_fundamental_div_mod(n as int, downsample as int);
        vstd::arithmetic::mul::lemma_mul_is_commutative(downsample as int, nd as int);
    }
    let mut i: usize = 0;
    while i < n
        invariant
            n == x@.len(),
            i <= n,
            downsample > 0,
            nd == n as int / downsample as int,
            nd * downsample <= n,
            n < nd * downsample + downsample,
            out@.len() <= nd,
            next == out@.len() * downsample,
            out@.len() < nd ==> i <= next < n,
            m == filter.memory(x@, mem, i as int),
            forall|j: int|
                0 <= j < out@.len() ==> #[trigger] out@[j] == filter.sample(x@, mem, j * downsample),
        decreases n - i,
    {
        let v: i32 = x[i];
        let tmp: i32 = sig_clamped(v.wrapping_add(m));
        let sample: i32;
        if filter.coef1 != 0 {
            sample = shl32(mult16_32_q15(filter.coef3, tmp), 2);
            m = mult16_32_q15(filter.coef0, tmp).wrapping_sub(mult16_32_q15(filter.coef1, v));
        } else {
            sample = tmp;
            m = mult16_32_q15(filter.coef0, tmp);
        }
        if i == next && out.len() < nd {
            proof {
                let k = out@.len() as int;
                assert((k + 1) * downsample == k * downsample + downsample) by (nonlinear_arith);
                assert(k + 1 < nd ==> (k + 1) * downsample < nd * downsample) by (nonlinear_arith)
                    requires
                        downsample > 0,
                ;
                assert(k + 1 <= nd ==> (k + 1) * downsample <= nd * downsample) by (nonlinear_arith)
                    requires
                        downsample > 0,
                ;
            }
            out.push(sample);
            next = next + downsample;
        }
        i = i + 1;
    }
    assert(out@ =~= Seq::new(
        (x@.len() as int / downsample as int) as nat,
        |j: int| filter.sample(x@, mem, j * downsample),
    ));
    (out, m)
}

} // verus!
