//! Reordering and Haar transforms that change the time-frequency resolution of
//! a band, and the copying that prepares spectral folding.

use vstd::arithmetic::div_mod::{lemma_fundamental_div_mod, lemma_mod_bound};
use vstd::prelude::*;
use crate::fixed::{extract16, mult16_16, pshr32};
use crate::mode::OpusCustomMode;

verus! {

/// Position of the `i`-th Hadamard coefficient in frequency order.
pub open spec fn ordery(stride: int, i: int) -> int {
    if stride == 2 {
        seq![1int, 0][i]
    } else if stride == 4 {
        seq![3int, 0, 2, 1][i]
    } else if stride == 8 {
        seq![7int, 0, 4, 3, 6, 1, 5, 2][i]
    } else {
        seq![15int, 0, 8, 7, 12, 3, 11, 4, 14, 1, 9, 6, 13, 2, 10, 5][i]
    }
}

/// Which Hadamard coefficient stands at position `p` in frequency order.
pub open spec fn ordery_inverse(stride: int, p: int) -> int {
    if stride == 2 {
        seq![1int, 0][p]
    } else if stride == 4 {
        seq![1int, 3, 2, 0][p]
    } else if stride == 8 {
        seq![1int, 5, 7, 3, 2, 6, 4, 0][p]
    } else {
        seq![1int, 9, 13, 5, 7, 15, 11, 3, 2, 10, 14, 6, 4, 12, 8, 0][p]
    }
}

/// Strides for which a Hadamard order exists.
pub open spec fn hadamard_stride(stride: int) -> bool {
    stride == 2 || stride == 4 || stride == 8 || stride == 16
}

/// The two orders are permutations of the blocks and undo each other.
pub proof fn law_ordery_permutation(stride: int, i: int)
    requires
        hadamard_stride(stride),
        0 <= i < stride,
    ensures
        0 <= ordery(stride, i) < stride,
        0 <= ordery_inverse(stride, i) < stride,
        ordery_inverse(stride, ordery(stride, i)) == i,
        ordery(stride, ordery_inverse(stride, i)) == i,
{
}

/// Block order of a (de)interleaving: natural, or Hadamard frequency order.
pub open spec fn block_of(stride: int, hadamard: bool, i: int) -> int {
    if hadamard {
        ordery(stride, i)
    } else {
        i
    }
}

/// Inverse of [`block_of`].
pub open spec fn block_inverse(stride: int, hadamard: bool, p: int) -> int {
    if hadamard {
        ordery_inverse(stride, p)
    } else {
        p
    }
}

/// Coefficients of `stride` consecutive blocks of `n0` merged into one
/// interleaved run; anything behind them is kept.
pub open spec fn interleaved<T>(x: Seq<T>, n0: int, stride: int, hadamard: bool) -> Seq<T> {
    Seq::new(
        x.len(),
        |k: int|
            if k < n0 * stride {
                x[block_of(stride, hadamard, k % stride) * n0 + k / stride]
            } else {
                x[k]
            },
    )
}

/// An interleaved run split into `stride` consecutive blocks of `n0`.
pub open spec fn deinterleaved<T>(x: Seq<T>, n0: int, stride: int, hadamard: bool) -> Seq<T> {
    Seq::new(
        x.len(),
        |k: int|
            if k < n0 * stride {
                x[(k % n0) * stride + block_inverse(stride, hadamard, k / n0)]
            } else {
                x[k]
            },
    )
}

/// Splitting an index of a `rows` by `cols` grid stays inside the grid.
proof fn lemma_grid(k: int, rows: int, cols: int)
    requires
        0 <= k < rows * cols,
        0 < rows,
        0 < cols,
    ensures
        0 <= k / cols < rows,
        0 <= k % cols < cols,
        k == (k / cols) * cols + k % cols,
{
    lemma_fundamental_div_mod(k, cols);
    lemma_mod_bound(k, cols);
    assert(cols * (k / cols) == (k / cols) * cols) by (nonlinear_arith);
    assert(k / cols < rows) by (nonlinear_arith)
        requires
            (k / cols) * cols <= k < rows * cols,
            0 < cols,
    ;
    assert(k / cols >= 0) by (nonlinear_arith)
        requires
            (k / cols) * cols + k % cols == k,
            0 <= k,
            0 <= k % cols < cols,
    ;
}

/// Joining a row and a column gives an index inside the grid.
proof fn lemma_grid_join(row: int, col: int, rows: int, cols: int)
    requires
        0 <= row < rows,
        0 <= col < cols,
    ensures
        0 <= row * cols + col < rows * cols,
        (row * cols + col) / cols == row,
        (row * cols + col) % cols == col,
{
    assert(0 <= row * cols) by (nonlinear_arith)
        requires
            0 <= row,
            0 <= cols,
    ;
    assert(row * cols + cols <= rows * cols) by (nonlinear_arith)
        requires
            row + 1 <= rows,
            0 <= cols,
    ;
    vstd::arithmetic::div_mod::lemma_fundamental_div_mod_converse(
        row * cols + col,
        cols,
        row,
        col,
    );
}

/// Deinterleaving undoes interleaving, and the other way round.
pub proof fn law_interleave_round_trip<T>(x: Seq<T>, n0: int, stride: int, hadamard: bool)
    requires
        0 < n0,
        0 < stride,
        n0 * stride <= x.len(),
        hadamard ==> hadamard_stride(stride),
    ensures
        deinterleaved(interleaved(x, n0, stride, hadamard), n0, stride, hadamard) == x,
        interleaved(deinterleaved(x, n0, stride, hadamard), n0, stride, hadamard) == x,
{
    let y = interleaved(x, n0, stride, hadamard);
    let back = deinterleaved(y, n0, stride, hadamard);
    assert(n0 * stride == stride * n0) by (nonlinear_arith);
    assert forall|k: int| 0 <= k < x.len() implies back[k] == x[k] by {
        if k < n0 * stride {
            lemma_grid(k, stride, n0);
            if hadamard {
                law_ordery_permutation(stride, k / n0);
            }
            let i = block_inverse(stride, hadamard, k / n0);
            lemma_grid_join(k % n0, i, n0, stride);
            assert(y[(k % n0) * stride + i] == x[block_of(stride, hadamard, i) * n0 + k % n0]);
        }
    }
    let z = deinterleaved(x, n0, stride, hadamard);
    let forth = interleaved(z, n0, stride, hadamard);
    assert forall|k: int| 0 <= k < x.len() implies forth[k] == x[k] by {
        if k < n0 * stride {
            lemma_grid(k, n0, stride);
            if hadamard {
                law_ordery_permutation(stride, k % stride);
            }
            let p = block_of(stride, hadamard, k % stride);
            lemma_grid_join(p, k / stride, stride, n0);
            assert(z[p * n0 + k / stride] == x[(k / stride) * stride + block_inverse(
                stride,
                hadamard,
                p,
            )]);
        }
    }
    assert(back =~= x);
    assert(forth =~= x);
}

/// Table lookup of [`ordery`].
pub fn hadamard_ordery(stride: usize, i: usize) -> (p: usize)
    requires
        hadamard_stride(stride as int),
        i < stride,
    ensures
        p == ordery(stride as int, i as int),
        p < stride,
{
    if stride == 2 {
        1 - i
    } else if stride == 4 {
        let table: [usize; 4] = [3, 0, 2, 1];
        table[i]
    } else if stride == 8 {
        let table: [usize; 8] = [7, 0, 4, 3, 6, 1, 5, 2];
        table[i]
    } else {
        let table: [usize; 16] = [15, 0, 8, 7, 12, 3, 11, 4, 14, 1, 9, 6, 13, 2, 10, 5];
        table[i]
    }
}

/// Table lookup of [`ordery_inverse`].
fn hadamard_ordery_inverse(stride: usize, p: usize) -> (i: usize)
    requires
        hadamard_stride(stride as int),
        p < stride,
    ensures
        i == ordery_inverse(stride as int, p as int),
        i < stride,
{
    if stride == 2 {
        1 - p
    } else if stride == 4 {
        let table: [usize; 4] = [1, 3, 2, 0];
        table[p]
    } else if stride == 8 {
        let table: [usize; 8] = [1, 5, 7, 3, 2, 6, 4, 0];
        table[p]
    } else {
        let table: [usize; 16] = [1, 9, 13, 5, 7, 15, 11, 3, 2, 10, 14, 6, 4, 12, 8, 0];
        table[p]
    }
}

/// Replaces the first `head.len()` elements of `x`.
fn overwrite_front<T: Copy>(x: &mut Vec<T>, head: &Vec<T>)
    requires
        head@.len() <= old(x)@.len(),
    ensures
        final(x)@.len() == old(x)@.len(),
        forall|k: int|
            0 <= k < final(x)@.len() ==> #[trigger] final(x)@[k] == (if k < head@.len() {
                head@[k]
            } else {
                old(x)@[k]
            }),
{
    for k in 0..head.len()
        invariant
            head@.len() <= x@.len(),
            x@.len() == old(x)@.len(),
            forall|j: int|
                0 <= j < x@.len() ==> #[trigger] x@[j] == (if j < k {
                    head@[j]
                } else {
                    old(x)@[j]
                }),
    {
        x.set(k, head[k]);
    }
}

/// Merges `stride` blocks of `n0` coefficients into one interleaved run.
pub fn interleave_hadamard<T: Copy>(x: &mut Vec<T>, n0: usize, stride: usize, hadamard: bool)
    requires
        n0 * stride <= old(x)@.len(),
        hadamard ==> hadamard_stride(stride as int),
    ensures
        final(x)@ == interleaved(old(x)@, n0 as int, stride as int, hadamard),
{
    assert(n0 * stride >= 0) by (nonlinear_arith)
        requires
            n0 >= 0,
            stride >= 0,
    ;
    assert(x@.len() == x.len());
    let n: usize = n0 * stride;
    let mut tmp: Vec<T> = Vec::new();
    for k in 0..n
        invariant
            n == n0 * stride,
            n <= x@.len(),
            x@ == old(x)@,
            hadamard ==> hadamard_stride(stride as int),
            tmp@.len() == k,
            forall|j: int|
                0 <= j < k ==> tmp@[j] == interleaved(
                    x@,
                    n0 as int,
                    stride as int,
                    hadamard,
                )[j],
    {
        proof {
            assert(n0 > 0 && stride > 0) by (nonlinear_arith)
                requires
                    0 <= k < n0 * stride,
                    n0 >= 0,
                    stride >= 0,
            ;
            lemma_grid(k as int, n0 as int, stride as int);
            if hadamard {
                law_ordery_permutation(stride as int, k as int % stride as int);
            }
            lemma_grid_join(
                block_of(stride as int, hadamard, k as int % stride as int),
                k as int / stride as int,
                stride as int,
                n0 as int,
            );
            assert(n0 * stride == stride * n0) by (nonlinear_arith);
            let block = block_of(stride as int, hadamard, k as int % stride as int);
            assert(0 <= block * n0) by (nonlinear_arith)
                requires
                    0 <= block,
                    0 <= n0,
            ;
        }
        let i: usize = k % stride;
        let block: usize = if hadamard { hadamard_ordery(stride, i) } else { i };
        tmp.push(x[block * n0 + k / stride]);
    }
    overwrite_front(x, &tmp);
    assert(x@ =~= interleaved(old(x)@, n0 as int, stride as int, hadamard));
}

/// Splits an interleaved run into `stride` blocks of `n0` coefficients.
pub fn deinterleave_hadamard<T: Copy>(x: &mut Vec<T>, n0: usize, stride: usize, hadamard: bool)
    requires
        n0 * stride <= old(x)@.len(),
        hadamard ==> hadamard_stride(stride as int),
    ensures
        final(x)@ == deinterleaved(old(x)@, n0 as int, stride as int, hadamard),
{
    assert(n0 * stride >= 0) by (nonlinear_arith)
        requires
            n0 >= 0,
            stride >= 0,
    ;
    assert(x@.len() == x.len());
    let n: usize = n0 * stride;
    let mut tmp: Vec<T> = Vec::new();
    for k in 0..n
        invariant
            n == n0 * stride,
            n <= x@.len(),
            x@ == old(x)@,
            hadamard ==> hadamard_stride(stride as int),
            tmp@.len() == k,
            forall|j: int|
                0 <= j < k ==> tmp@[j] == deinterleaved(
                    x@,
                    n0 as int,
                    stride as int,
                    hadamard,
                )[j],
    {
        proof {
            assert(n0 > 0 && stride > 0) by (nonlinear_arith)
                requires
                    0 <= k < n0 * stride,
                    n0 >= 0,
                    stride >= 0,
            ;
            assert(n0 * stride == stride * n0) by (nonlinear_arith);
            lemma_grid(k as int, stride as int, n0 as int);
            if hadamard {
                law_ordery_permutation(stride as int, k as int / n0 as int);
            }
            lemma_grid_join(
                k as int % n0 as int,
                block_inverse(stride as int, hadamard, k as int / n0 as int),
                n0 as int,
                stride as int,
            );
            let row = k as int % n0 as int;
            assert(0 <= row * stride) by (nonlinear_arith)
                requires
                    0 <= row,
                    0 <= stride,
            ;
        }
        let p: usize = k / n0;
        let i: usize = if hadamard { hadamard_ordery_inverse(stride, p) } else { p };
        tmp.push(x[(k % n0) * stride + i]);
    }
    overwrite_front(x, &tmp);
    assert(x@ =~= deinterleaved(old(x)@, n0 as int, stride as int, hadamard));
}

/// Scaled sum of two coefficients.
pub open spec fn haar_sum(a: i16, b: i16) -> i16 {
    extract16(pshr32(mult16_16(23170, a).wrapping_add(mult16_16(23170, b)), 15))
}

/// Scaled difference of two coefficients.
pub open spec fn haar_difference(a: i16, b: i16) -> i16 {
    extract16(pshr32(mult16_16(23170, a).wrapping_sub(mult16_16(23170, b)), 15))
}

/// Single-level Haar transform over `stride` interleaved groups: each pair of
/// neighbouring rows is replaced by its scaled sum and difference.
pub open spec fn haar(x: Seq<i16>, n0: int, stride: int) -> Seq<i16> {
    Seq::new(
        x.len(),
        |k: int|
            if k < 2 * (n0 / 2) * stride {
                if (k / stride) % 2 == 0 {
                    haar_sum(x[k], x[k + stride])
                } else {
                    haar_difference(x[k - stride], x[k])
                }
            } else {
                x[k]
            },
    )
}

/// Applies [`haar`].
pub fn haar1(x: &mut Vec<i16>, n0: usize, stride: usize)
    requires
        n0 * stride <= old(x)@.len(),
    ensures
        final(x)@ == haar(old(x)@, n0 as int, stride as int),
{
    let rows: usize = n0 / 2 * 2;
    proof {
        assert(0 <= rows * stride <= n0 * stride) by (nonlinear_arith)
            requires
                0 <= rows <= n0,
                0 <= stride,
        ;
        assert(2 * (n0 as int / 2) * stride == rows * stride);
    }
    assert(x@.len() == x.len());
    let n: usize = rows * stride;
    let mut tmp: Vec<i16> = Vec::new();
    for k in 0..n
        invariant
            n == rows * stride,
            n == 2 * (n0 as int / 2) * stride,
            rows % 2 == 0,
            n <= x@.len(),
            x@ == old(x)@,
            tmp@.len() == k,
            forall|j: int| 0 <= j < k ==> tmp@[j] == haar(x@, n0 as int, stride as int)[j],
    {
        proof {
            assert(rows > 0 && stride > 0) by (nonlinear_arith)
                requires
                    0 <= k < rows * stride,
                    rows >= 0,
                    stride >= 0,
            ;
            lemma_grid(k as int, rows as int, stride as int);
            let row = k as int / stride as int;
            if row % 2 == 0 {
                lemma_grid_join(row + 1, k as int % stride as int, rows as int, stride as int);
                assert((row + 1) * stride == row * stride + stride) by (nonlinear_arith);
            } else {
                lemma_grid_join(row - 1, k as int % stride as int, rows as int, stride as int);
                assert((row - 1) * stride == row * stride - stride) by (nonlinear_arith);
            }
        }
        if (k / stride) % 2 == 0 {
            let s: i32 = mult16_16(23170, x[k]).wrapping_add(mult16_16(23170, x[k + stride]));
            tmp.push(extract16(pshr32(s, 15)));
        } else {
            let d: i32 = mult16_16(23170, x[k - stride]).wrapping_sub(mult16_16(23170, x[k]));
            tmp.push(extract16(pshr32(d, 15)));
        }
    }
    overwrite_front(x, &tmp);
    assert(x@ =~= haar(old(x)@, n0 as int, stride as int));
}

/// The start of the second band filled up by repeating the end of the first
/// one, so that both folds have the same length.
pub open spec fn hybrid_folded<T>(norm: Seq<T>, n1: int, n2: int) -> Seq<T> {
    Seq::new(
        norm.len(),
        |k: int|
            if n1 <= k < n2 {
                norm[k - (n2 - n1)]
            } else {
                norm[k]
            },
    )
}

/// Copies `norm[2 * n1 - n2..n1]` behind itself.
fn fold_hybrid<T: Copy>(norm: &mut Vec<T>, n1: usize, n2: usize)
    requires
        n1 < n2 <= old(norm)@.len(),
        n2 <= 2 * n1,
    ensures
        final(norm)@ == hybrid_folded(old(norm)@, n1 as int, n2 as int),
{
    let gap: usize = n2 - n1;
    for k in n1..n2
        invariant
            n1 < n2 <= norm@.len(),
            n2 <= 2 * n1,
            gap == n2 - n1,
            norm@.len() == old(norm)@.len(),
            forall|j: int|
                0 <= j < norm@.len() ==> #[trigger] norm@[j] == (if n1 <= j < k {
                    old(norm)@[j - gap]
                } else {
                    old(norm)@[j]
                }),
    {
        let value: T = norm[k - gap];
        norm.set(k, value);
    }
    assert(norm@ =~= hybrid_folded(old(norm)@, n1 as int, n2 as int));
}

/// Prepares folding from the first coded band into a wider second one.
pub fn special_hybrid_folding<T: Copy>(
    mode: &OpusCustomMode,
    norm: &mut Vec<T>,
    norm2: Option<&mut Vec<T>>,
    start: usize,
    m: usize,
    dual_stereo: bool,
)
    requires
        mode.bands_wf(),
        start + 2 < mode.e_bands@.len(),
        m <= 16,
        mode.width(start + 1) > mode.width(start as int) ==> {
            &&& m * mode.width(start + 1) <= old(norm)@.len()
            &&& m * mode.width(start + 1) <= 2 * (m * mode.width(start as int))
            &&& dual_stereo ==> (norm2 matches Some(other) ==> m * mode.width(start + 1)
                <= other@.len())
        },
    ensures
        ({
            let n1 = m * mode.width(start as int);
            let n2 = m * mode.width(start + 1);
            &&& final(norm)@ == (if n2 > n1 {
                hybrid_folded(old(norm)@, n1, n2)
            } else {
                old(norm)@
            })
            &&& norm2 matches Some(other) ==> final(other)@ == (if n2 > n1 && dual_stereo {
                hybrid_folded(other@, n1, n2)
            } else {
                other@
            })
        }),
{
    let w1: usize = (mode.e_bands[start + 1] as i32 - mode.e_bands[start] as i32) as usize;
    let w2: usize = (mode.e_bands[start + 2] as i32 - mode.e_bands[start + 1] as i32) as usize;
    proof {
        assert(0 <= m * w1 <= 16 * 65535 && 0 <= m * w2 <= 16 * 65535) by (nonlinear_arith)
            requires
                0 <= m <= 16,
                0 <= w1 <= 65535,
                0 <= w2 <= 65535,
        ;
        assert(w2 > w1 && m > 0 ==> m * w2 > m * w1) by (nonlinear_arith);
        assert(w2 <= w1 ==> m * w2 <= m * w1) by (nonlinear_arith)
            requires
                m >= 0,
        ;
        if m == 0 {
            assert(0 * w1 == 0 && 0 * w2 == 0);
        }
    }
    let n1: usize = m * w1;
    let n2: usize = m * w2;
    if n2 <= n1 {
        return;
    }
    fold_hybrid(norm, n1, n2);
    if let Some(other) = norm2 {
        if dual_stereo {
            fold_hybrid(other, n1, n2);
        }
    }
}

} // verus!
