//! The signal history of a decoder, one row per channel, and the steps that
//! write a frame into it.

use vstd::prelude::*;
use crate::band_tf::{scale, scale_of};
use crate::comb::CombParameters;
use crate::mode::OpusCustomMode;
use crate::spectrum::{lemma_row, write_at, written};
use crate::synthesis::{
    blocks_transformed, copy_range, fold_overlap, folded, inverse_transform, limited,
    SynthesisInput,
};

verus! {

/// History of one channel.
pub open spec fn row<T>(mem: Seq<T>, stride: int, channel: int) -> Seq<T> {
    mem.subrange(channel * stride, channel * stride + stride)
}

/// Copy of one row.
pub fn read_row<T: Copy>(mem: &Vec<T>, stride: usize, channels: usize, channel: usize) -> (r: Vec<T>)
    requires
        channel < channels,
        mem@.len() == channels * stride,
    ensures
        r@ == row(mem@, stride as int, channel as int),
        r@.len() == stride,
{
    proof {
        lemma_row(channel as int, channels as int, stride as int);
    }
    assert(mem@.len() == mem.len());
    copy_range(mem, channel * stride, channel * stride + stride)
}

/// Rows do not overlap.
proof fn lemma_other_row<T>(
    mem: Seq<T>,
    stride: int,
    channels: int,
    channel: int,
    part: Seq<T>,
    other: int,
)
    requires
        0 <= stride,
        0 <= channel < channels,
        0 <= other < channels,
        mem.len() == channels * stride,
        part.len() == stride,
    ensures
        row(written(mem, channel * stride, part), stride, other) == (if other == channel {
            part
        } else {
            row(mem, stride, other)
        }),
{
    lemma_row(channel, channels, stride);
    lemma_row(other, channels, stride);
    assert(other < channel ==> other * stride + stride <= channel * stride) by (nonlinear_arith)
        requires
            0 <= stride,
    ;
    assert(channel < other ==> channel * stride + stride <= other * stride) by (nonlinear_arith)
        requires
            0 <= stride,
    ;
    let w = written(mem, channel * stride, part);
    if other == channel {
        assert(row(w, stride, other) =~= part);
    } else {
        assert(row(w, stride, other) =~= row(mem, stride, other));
    }
}

/// Writes one row.
pub fn write_row<T: Copy>(
    mem: &mut Vec<T>,
    stride: usize,
    channels: usize,
    channel: usize,
    part: &Vec<T>,
)
    requires
        channel < channels,
        old(mem)@.len() == channels * stride,
        part@.len() == stride,
    ensures
        final(mem)@.len() == old(mem)@.len(),
        forall|other: int|
            0 <= other < channels ==> #[trigger] row(final(mem)@, stride as int, other) == (if other
                == channel {
                part@
            } else {
                row(old(mem)@, stride as int, other)
            }),
{
    proof {
        lemma_row(channel as int, channels as int, stride as int);
    }
    assert(mem@.len() == mem.len());
    let ghost mem0 = mem@;
    write_at(mem, channel * stride, part);
    proof {
        assert forall|other: int| 0 <= other < channels implies #[trigger] row(
            mem@,
            stride as int,
            other,
        ) == (if other == channel {
            part@
        } else {
            row(mem0, stride as int, other)
        }) by {
            lemma_other_row(mem0, stride as int, channels as int, channel as int, part@, other);
        }
    }
}

/// A row moved to the front by `n` samples; the last `n` samples stay.
pub open spec fn row_moved(r: Seq<i32>, n: int) -> Seq<i32> {
    Seq::new(r.len(), |i: int| if i + n < r.len() { r[i + n] } else { r[i] })
}

/// Moves all rows by a frame.
pub fn move_rows(mem: &mut Vec<i32>, stride: usize, channels: usize, n: usize)
    requires
        old(mem)@.len() == channels * stride,
        n <= stride,
    ensures
        final(mem)@.len() == old(mem)@.len(),
        forall|channel: int|
            0 <= channel < channels ==> #[trigger] row(final(mem)@, stride as int, channel)
                == row_moved(row(old(mem)@, stride as int, channel), n as int),
{
    let ghost mem0 = mem@;
    for channel in 0..channels
        invariant
            mem@.len() == channels * stride,
            mem0.len() == channels * stride,
            n <= stride,
            forall|c: int|
                0 <= c < channels ==> #[trigger] row(mem@, stride as int, c) == (if c < channel {
                    row_moved(row(mem0, stride as int, c), n as int)
                } else {
                    row(mem0, stride as int, c)
                }),
    {
        let r: Vec<i32> = read_row(mem, stride, channels, channel);
        let mut moved: Vec<i32> = Vec::new();
        for i in 0..stride
            invariant
                r@.len() == stride,
                n <= stride,
                moved@.len() == i,
                forall|k: int| 0 <= k < i ==> #[trigger] moved@[k] == row_moved(r@, n as int)[k],
        {
            moved.push(if i < stride - n { r[i + n] } else { r[i] });
        }
        assert(moved@ =~= row_moved(r@, n as int));
        write_row(mem, stride, channels, channel, &moved);
    }
}

/// A row whose overlap behind `start` is filtered and folded.
pub open spec fn row_folded(
    r: Seq<i32>,
    start: int,
    overlap: int,
    parameters: CombParameters,
    window: Seq<i16>,
) -> Seq<i32> {
    folded(
        r,
        start,
        overlap,
        Seq::new(
            overlap as nat,
            |i: int| parameters.filtered_sample(r, start, i, Seq::empty(), 0),
        ),
        window,
    )
}

/// Filters the overlap behind `start` of each channel and folds it.
pub fn fold_rows(
    mem: &mut Vec<i32>,
    stride: usize,
    channels: usize,
    start: usize,
    overlap: usize,
    parameters: &CombParameters,
    window: &Vec<i16>,
)
    requires
        old(mem)@.len() == channels * stride,
        start + overlap <= stride <= 0xffff,
        overlap <= window@.len(),
        parameters.wf(),
    ensures
        final(mem)@.len() == old(mem)@.len(),
        forall|channel: int|
            0 <= channel < channels ==> #[trigger] row(final(mem)@, stride as int, channel)
                == row_folded(
                row(old(mem)@, stride as int, channel),
                start as int,
                overlap as int,
                *parameters,
                window@,
            ),
{
    let ghost mem0 = mem@;
    let none: Vec<i16> = Vec::new();
    assert(none@ =~= Seq::<i16>::empty());
    for channel in 0..channels
        invariant
            mem@.len() == channels * stride,
            start + overlap <= stride <= 0xffff,
            overlap <= window@.len(),
            parameters.wf(),
            none@ == Seq::<i16>::empty(),
            forall|c: int|
                0 <= c < channels ==> #[trigger] row(mem@, stride as int, c) == (if c < channel {
                    row_folded(
                        row(mem0, stride as int, c),
                        start as int,
                        overlap as int,
                        *parameters,
                        window@,
                    )
                } else {
                    row(mem0, stride as int, c)
                }),
    {
        let mut r: Vec<i32> = read_row(mem, stride, channels, channel);
        let filtered: Vec<i32> = parameters.comb_filter(&r, start, overlap, &none, 0);
        fold_overlap(&mut r, start, overlap, &filtered, window);
        write_row(mem, stride, channels, channel, &r);
    }
}

/// Blocks of a frame, samples of a block and the exponent by which it is shorter
/// than the longest one.
pub open spec fn block_layout(mode: OpusCustomMode, lm: int, transient: bool) -> (int, int, int) {
    if transient {
        (scale_of(lm), mode.short_mdct_size as int, mode.max_lm as int)
    } else {
        (1, scale_of(lm) * mode.short_mdct_size, mode.max_lm - lm)
    }
}

/// A row with a spectrum transformed into the frame behind `start`.
pub open spec fn row_synthesised(
    mode: OpusCustomMode,
    freq: Seq<i32>,
    r: Seq<i32>,
    start: int,
    lm: int,
    transient: bool,
) -> Seq<i32> {
    let (blocks, nb, shift) = block_layout(mode, lm, transient);
    limited(blocks_transformed(mode, freq, r, start, blocks, nb, shift, 0), start, nb * blocks)
}

/// Transforms the spectra of the output channels into the frame behind `start`.
pub fn synthesise_rows(
    input: &SynthesisInput<'_>,
    mem: &mut Vec<i32>,
    stride: usize,
    channels: usize,
    start: usize,
    transient: bool,
)
    requires
        input@.wf(),
        input.mode.sizes_wf(),
        input.mode.mdct_wf(),
        input.lm <= input.mode.max_lm,
        1 <= channels <= 2,
        old(mem)@.len() == channels * stride,
        start + input@.n() + input.mode.overlap <= stride,
    ensures
        final(mem)@.len() == old(mem)@.len(),
        forall|channel: int|
            0 <= channel < channels ==> #[trigger] row(final(mem)@, stride as int, channel)
                == row_synthesised(
                *input.mode,
                input@.output(channels as int, channel),
                row(old(mem)@, stride as int, channel),
                start as int,
                input.lm as int,
                transient,
            ),
{
    let ghost mem0 = mem@;
    let m: usize = scale(input.lm as i32);
    proof {
        crate::spectrum::lemma_scaled_edges(*input.mode, m as int, 0, 0);
        assert(m * input.mode.short_mdct_size == input.mode.short_mdct_size * m)
            by (nonlinear_arith);
    }
    let blocks: usize;
    let nb: usize;
    let shift: usize;
    if transient {
        blocks = m;
        nb = input.mode.short_mdct_size;
        shift = input.mode.max_lm;
    } else {
        blocks = 1;
        nb = m * input.mode.short_mdct_size;
        shift = input.mode.max_lm - input.lm;
    }
    proof {
        assert((blocks as int, nb as int, shift as int) == block_layout(
            *input.mode,
            input.lm as int,
            transient,
        ));
        assert(nb * blocks == input@.n());
        assert(input.mode.mdct.serves(
            shift as int,
            scale_of(input.mode.max_lm - shift) * input.mode.short_mdct_size,
        ));
    }
    for channel in 0..channels
        invariant
            input@.wf(),
            input.mode.sizes_wf(),
            input.mode.mdct.serves(shift as int, nb as int),
            1 <= channels <= 2,
            nb * blocks == input@.n(),
            (blocks as int, nb as int, shift as int) == block_layout(
                *input.mode,
                input.lm as int,
                transient,
            ),
            mem@.len() == channels * stride,
            start + input@.n() + input.mode.overlap <= stride,
            forall|c: int|
                0 <= c < channels ==> #[trigger] row(mem@, stride as int, c) == (if c < channel {
                    row_synthesised(
                        *input.mode,
                        input@.output(channels as int, c),
                        row(mem0, stride as int, c),
                        start as int,
                        input.lm as int,
                        transient,
                    )
                } else {
                    row(mem0, stride as int, c)
                }),
    {
        let freq: Vec<i32> = input.find_output(channels, channel);
        let mut r: Vec<i32> = read_row(mem, stride, channels, channel);
        inverse_transform(input.mode, &freq, &mut r, start, blocks, nb, shift);
        write_row(mem, stride, channels, channel, &r);
    }
}

/// Comb filters `n` samples behind `at` of each channel in place.
pub fn comb_rows(
    mem: &mut Vec<i32>,
    stride: usize,
    channels: usize,
    at: usize,
    n: usize,
    parameters: &CombParameters,
    window: &Vec<i16>,
    overlap: usize,
)
    requires
        old(mem)@.len() == channels * stride,
        at + n <= stride <= 0xffff,
        parameters.wf(),
        overlap <= window@.len(),
    ensures
        final(mem)@.len() == old(mem)@.len(),
        forall|channel: int|
            0 <= channel < channels ==> #[trigger] row(final(mem)@, stride as int, channel)
                == parameters.filtered_in_place(
                row(old(mem)@, stride as int, channel),
                at as int,
                n as int,
                window@,
                overlap as int,
                0,
            ),
{
    let ghost mem0 = mem@;
    for channel in 0..channels
        invariant
            mem@.len() == channels * stride,
            at + n <= stride <= 0xffff,
            parameters.wf(),
            overlap <= window@.len(),
            forall|c: int|
                0 <= c < channels ==> #[trigger] row(mem@, stride as int, c) == (if c < channel {
                    parameters.filtered_in_place(
                        row(mem0, stride as int, c),
                        at as int,
                        n as int,
                        window@,
                        overlap as int,
                        0,
                    )
                } else {
                    row(mem0, stride as int, c)
                }),
    {
        let mut r: Vec<i32> = read_row(mem, stride, channels, channel);
        parameters.comb_filter_in_place(&mut r, at, n, window, overlap);
        write_row(mem, stride, channels, channel, &r);
    }
}

} // verus!
