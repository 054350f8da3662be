//! Inverse modified discrete cosine transform in fixed point.
//!
//! The transform rotates its input into a complex sequence of half the length,
//! runs a mixed-radix Fourier transform over it, rotates back and mixes the
//! result with the overlap of the previous block.

use vstd::prelude::*;
use crate::fixed::{mult16_32_q15, pshr32, shl32};
use crate::math::{celt_zlog2, zlog2};
use crate::spectrum::{abs32, write_at, written};

verus! {

/// A complex number.
#[derive(Clone, Copy)]
pub struct Complex {
    pub r: i32,
    pub i: i32,
}

/// A point on the unit circle, in Q15.
#[derive(Clone, Copy)]
pub struct Twiddle {
    pub r: i16,
    pub i: i16,
}

/// Tables of the transform, one entry per halving of the block length.
pub struct MdctLookup {
    /// Cosines of the rotations, in Q15.
    pub trig: Vec<Vec<i16>>,
    /// Radices of the Fourier transforms, outermost first.
    pub factors: Vec<Vec<usize>>,
    /// Twiddle factors of the longest Fourier transform.
    pub twiddles: Vec<Twiddle>,
}

/// Product of the radices from `from` on.
pub open spec fn product(factors: Seq<usize>, from: int) -> int
    decreases factors.len() - from,
{
    if from < 0 || from >= factors.len() {
        1
    } else {
        factors[from] * product(factors, from + 1)
    }
}

/// Whether radices make up a transform of `n` points.
pub open spec fn plan_wf(factors: Seq<usize>, n: int) -> bool {
    &&& 1 <= factors.len() <= 16
    &&& forall|i: int| 0 <= i < factors.len() ==> 2 <= #[trigger] factors[i] <= 5
    &&& product(factors, 0) == n
    &&& forall|i: int|
        0 <= i < factors.len() && #[trigger] factors[i] == 2 ==> product(factors, i + 1) == 4
}

/// Copies a table into a vector.
pub fn copied<T: Copy>(table: &[T]) -> (v: Vec<T>)
    ensures
        v@ == table@,
{
    let mut v: Vec<T> = Vec::new();
    for i in 0..table.len()
        invariant
            v@ == table@.take(i as int),
    {
        v.push(table[i]);
        assert(table@.take(i + 1) =~= table@.take(i as int).push(table@[i as int]));
    }
    assert(table@.take(table@.len() as int) =~= table@);
    v
}

/// Roots of unity from their real and imaginary parts.
pub fn paired(r: &[i16], i: &[i16]) -> (v: Vec<Twiddle>)
    requires
        r@.len() == i@.len(),
    ensures
        v@.len() == r@.len(),
        forall|k: int| 0 <= k < r@.len() ==> #[trigger] v@[k] == (Twiddle { r: r@[k], i: i@[k] }),
{
    let mut v: Vec<Twiddle> = Vec::new();
    for k in 0..r.len()
        invariant
            r@.len() == i@.len(),
            v@.len() == k,
            forall|j: int| 0 <= j < k ==> #[trigger] v@[j] == (Twiddle { r: r@[j], i: i@[j] }),
    {
        v.push(Twiddle { r: r[k], i: i[k] });
    }
    v
}

impl MdctLookup {
    /// The tables serve blocks of `nb` coefficients, `shift` times halved.
    pub open spec fn serves(self, shift: int, nb: int) -> bool {
        &&& 0 <= shift < self.trig@.len()
        &&& shift < self.factors@.len()
        &&& nb % 2 == 0
        &&& 2 <= nb <= 2048
        &&& self.trig@[shift]@.len() == nb
        &&& plan_wf(self.factors@[shift]@, nb / 2)
        &&& nb / 2 <= self.twiddles@.len() <= 2048
    }
}

/// Sum of two complex numbers.
#[verifier::allow_in_spec]
pub fn c_add(a: Complex, b: Complex) -> Complex
    returns
        (Complex { r: a.r.wrapping_add(b.r), i: a.i.wrapping_add(b.i) }),
{
    Complex { r: a.r.wrapping_add(b.r), i: a.i.wrapping_add(b.i) }
}

/// Difference of two complex numbers.
#[verifier::allow_in_spec]
pub fn c_sub(a: Complex, b: Complex) -> Complex
    returns
        (Complex { r: a.r.wrapping_sub(b.r), i: a.i.wrapping_sub(b.i) }),
{
    Complex { r: a.r.wrapping_sub(b.r), i: a.i.wrapping_sub(b.i) }
}

/// A complex number turned by a twiddle factor.
#[verifier::allow_in_spec]
pub fn c_mul(a: Complex, t: Twiddle) -> Complex
    returns
        (Complex {
            r: mult16_32_q15(t.r, a.r).wrapping_sub(mult16_32_q15(t.i, a.i)),
            i: mult16_32_q15(t.i, a.r).wrapping_add(mult16_32_q15(t.r, a.i)),
        }),
{
    Complex {
        r: mult16_32_q15(t.r, a.r).wrapping_sub(mult16_32_q15(t.i, a.i)),
        i: mult16_32_q15(t.i, a.r).wrapping_add(mult16_32_q15(t.r, a.i)),
    }
}

/// `a` plus `b` turned by a quarter against the circle.
#[verifier::allow_in_spec]
pub fn c_add_turned(a: Complex, b: Complex) -> Complex
    returns
        (Complex { r: a.r.wrapping_add(b.i), i: a.i.wrapping_sub(b.r) }),
{
    Complex { r: a.r.wrapping_add(b.i), i: a.i.wrapping_sub(b.r) }
}

/// `a` minus `b` turned by a quarter against the circle.
#[verifier::allow_in_spec]
pub fn c_sub_turned(a: Complex, b: Complex) -> Complex
    returns
        (Complex { r: a.r.wrapping_sub(b.i), i: a.i.wrapping_add(b.r) }),
{
    Complex { r: a.r.wrapping_sub(b.i), i: a.i.wrapping_add(b.r) }
}

/// Second input of a radix-2 butterfly behind four radix-4 outputs: turned by
/// `j` eighths of a circle.
pub open spec fn eighth_turn(a: Complex, j: int) -> Complex {
    if j == 0 {
        a
    } else if j == 1 {
        Complex {
            r: mult16_32_q15(23170, a.r.wrapping_add(a.i)),
            i: mult16_32_q15(23170, a.i.wrapping_sub(a.r)),
        }
    } else if j == 2 {
        Complex { r: a.i, i: 0i32.wrapping_sub(a.r) }
    } else {
        Complex {
            r: mult16_32_q15(23170, a.i.wrapping_sub(a.r)),
            i: mult16_32_q15(23170, 0i32.wrapping_sub(a.i.wrapping_add(a.r))),
        }
    }
}

/// Computes [`eighth_turn`].
fn turn_eighths(a: Complex, j: usize) -> (r: Complex)
    ensures
        r == eighth_turn(a, j as int),
{
    if j == 0 {
        a
    } else if j == 1 {
        Complex {
            r: mult16_32_q15(23170, a.r.wrapping_add(a.i)),
            i: mult16_32_q15(23170, a.i.wrapping_sub(a.r)),
        }
    } else if j == 2 {
        Complex { r: a.i, i: 0i32.wrapping_sub(a.r) }
    } else {
        Complex {
            r: mult16_32_q15(23170, a.i.wrapping_sub(a.r)),
            i: mult16_32_q15(23170, 0i32.wrapping_sub(a.i.wrapping_add(a.r))),
        }
    }
}

/// Output `k` of a radix-2 butterfly.
pub open spec fn bfly2(k: int, a: Complex, t: Complex) -> Complex {
    if k == 0 {
        c_add(a, t)
    } else {
        c_sub(a, t)
    }
}

/// Output `k` of a radix-3 butterfly.
pub open spec fn bfly3(k: int, a: Complex, t1: Complex, t2: Complex) -> Complex {
    let sum = c_add(t1, t2);
    let diff = c_sub(t1, t2);
    let mid = Complex {
        r: a.r.wrapping_sub(sum.r >> 1u32),
        i: a.i.wrapping_sub(sum.i >> 1u32),
    };
    let turned = Complex {
        r: mult16_32_q15((-28378) as i16, diff.r),
        i: mult16_32_q15((-28378) as i16, diff.i),
    };
    if k == 0 {
        c_add(a, sum)
    } else if k == 1 {
        c_sub_turned(mid, turned)
    } else {
        c_add_turned(mid, turned)
    }
}

/// Computes [`bfly3`].
fn butterfly3(k: usize, a: Complex, t1: Complex, t2: Complex) -> (r: Complex)
    ensures
        r == bfly3(k as int, a, t1, t2),
{
    let sum: Complex = c_add(t1, t2);
    let diff: Complex = c_sub(t1, t2);
    let mid: Complex = Complex {
        r: a.r.wrapping_sub(sum.r >> 1u32),
        i: a.i.wrapping_sub(sum.i >> 1u32),
    };
    let turned: Complex = Complex {
        r: mult16_32_q15(-28378, diff.r),
        i: mult16_32_q15(-28378, diff.i),
    };
    if k == 0 {
        c_add(a, sum)
    } else if k == 1 {
        c_sub_turned(mid, turned)
    } else {
        c_add_turned(mid, turned)
    }
}

/// Output `k` of a radix-4 butterfly.
pub open spec fn bfly4(k: int, a: Complex, t1: Complex, t2: Complex, t3: Complex) -> Complex {
    let even = c_add(a, t2);
    let odd = c_sub(a, t2);
    let sum = c_add(t1, t3);
    let diff = c_sub(t1, t3);
    if k == 0 {
        c_add(even, sum)
    } else if k == 1 {
        c_add_turned(odd, diff)
    } else if k == 2 {
        c_sub(even, sum)
    } else {
        c_sub_turned(odd, diff)
    }
}

/// Computes [`bfly4`].
fn butterfly4(k: usize, a: Complex, t1: Complex, t2: Complex, t3: Complex) -> (r: Complex)
    ensures
        r == bfly4(k as int, a, t1, t2, t3),
{
    let even: Complex = c_add(a, t2);
    let odd: Complex = c_sub(a, t2);
    let sum: Complex = c_add(t1, t3);
    let diff: Complex = c_sub(t1, t3);
    if k == 0 {
        c_add(even, sum)
    } else if k == 1 {
        c_add_turned(odd, diff)
    } else if k == 2 {
        c_sub(even, sum)
    } else {
        c_sub_turned(odd, diff)
    }
}

/// `a` plus two real multiples.
#[verifier::allow_in_spec]
pub fn c_mix(a: Complex, b: Complex, x: i16, c: Complex, y: i16) -> Complex
    returns
        (Complex {
            r: a.r.wrapping_add(mult16_32_q15(x, b.r).wrapping_add(mult16_32_q15(y, c.r))),
            i: a.i.wrapping_add(mult16_32_q15(x, b.i).wrapping_add(mult16_32_q15(y, c.i))),
        }),
{
    Complex {
        r: a.r.wrapping_add(mult16_32_q15(x, b.r).wrapping_add(mult16_32_q15(y, c.r))),
        i: a.i.wrapping_add(mult16_32_q15(x, b.i).wrapping_add(mult16_32_q15(y, c.i))),
    }
}

/// Cosine of a fifth of a circle, in Q15.
pub const FIFTH_COS: i16 = 10126;

/// Sine of a fifth of a circle, turned against it.
pub const FIFTH_SIN: i16 = -31164;

/// Cosine of two fifths of a circle.
pub const TWO_FIFTHS_COS: i16 = -26510;

/// Sine of two fifths of a circle, turned against it.
pub const TWO_FIFTHS_SIN: i16 = -19261;

/// Output `k` of a radix-5 butterfly.
pub open spec fn bfly5(k: int, a: Complex, t1: Complex, t2: Complex, t3: Complex, t4: Complex) -> Complex {
    let outer = c_add(t1, t4);
    let outer_diff = c_sub(t1, t4);
    let inner = c_add(t2, t3);
    let inner_diff = c_sub(t2, t3);
    let near = c_mix(a, outer, FIFTH_COS, inner, TWO_FIFTHS_COS);
    let near_turn = Complex {
        r: mult16_32_q15(FIFTH_SIN, outer_diff.i).wrapping_add(
            mult16_32_q15(TWO_FIFTHS_SIN, inner_diff.i),
        ),
        i: 0i32.wrapping_sub(
            mult16_32_q15(FIFTH_SIN, outer_diff.r).wrapping_add(
                mult16_32_q15(TWO_FIFTHS_SIN, inner_diff.r),
            ),
        ),
    };
    let far = c_mix(a, outer, TWO_FIFTHS_COS, inner, FIFTH_COS);
    let far_turn = Complex {
        r: mult16_32_q15(FIFTH_SIN, inner_diff.i).wrapping_sub(
            mult16_32_q15(TWO_FIFTHS_SIN, outer_diff.i),
        ),
        i: mult16_32_q15(TWO_FIFTHS_SIN, outer_diff.r).wrapping_sub(
            mult16_32_q15(FIFTH_SIN, inner_diff.r),
        ),
    };
    if k == 0 {
        c_add(a, c_add(outer, inner))
    } else if k == 1 {
        c_sub(near, near_turn)
    } else if k == 2 {
        c_add(far, far_turn)
    } else if k == 3 {
        c_sub(far, far_turn)
    } else {
        c_add(near, near_turn)
    }
}

/// Computes [`bfly5`].
fn butterfly5(k: usize, a: Complex, t1: Complex, t2: Complex, t3: Complex, t4: Complex) -> (r:
    Complex)
    ensures
        r == bfly5(k as int, a, t1, t2, t3, t4),
{
    let outer: Complex = c_add(t1, t4);
    let outer_diff: Complex = c_sub(t1, t4);
    let inner: Complex = c_add(t2, t3);
    let inner_diff: Complex = c_sub(t2, t3);
    let near: Complex = c_mix(a, outer, FIFTH_COS, inner, TWO_FIFTHS_COS);
    let near_turn: Complex = Complex {
        r: mult16_32_q15(FIFTH_SIN, outer_diff.i).wrapping_add(
            mult16_32_q15(TWO_FIFTHS_SIN, inner_diff.i),
        ),
        i: 0i32.wrapping_sub(
            mult16_32_q15(FIFTH_SIN, outer_diff.r).wrapping_add(
                mult16_32_q15(TWO_FIFTHS_SIN, inner_diff.r),
            ),
        ),
    };
    let far: Complex = c_mix(a, outer, TWO_FIFTHS_COS, inner, FIFTH_COS);
    let far_turn: Complex = Complex {
        r: mult16_32_q15(FIFTH_SIN, inner_diff.i).wrapping_sub(
            mult16_32_q15(TWO_FIFTHS_SIN, outer_diff.i),
        ),
        i: mult16_32_q15(TWO_FIFTHS_SIN, outer_diff.r).wrapping_sub(
            mult16_32_q15(FIFTH_SIN, inner_diff.r),
        ),
    };
    if k == 0 {
        c_add(a, c_add(outer, inner))
    } else if k == 1 {
        c_sub(near, near_turn)
    } else if k == 2 {
        c_add(far, far_turn)
    } else if k == 3 {
        c_sub(far, far_turn)
    } else {
        c_add(near, near_turn)
    }
}

/// First input of the butterfly that output `idx` belongs to, when butterflies
/// of radix `p` join `p` runs of `m` points.
pub open spec fn butterfly_base(p: int, m: int, idx: int) -> int {
    idx - idx % (p * m) + idx % m
}

/// Input `i` of that butterfly.
pub open spec fn plain_input(x: Seq<Complex>, p: int, m: int, idx: int, i: int) -> Complex {
    x[butterfly_base(p, m, idx) + i * m]
}

/// Input `i` of that butterfly, turned by its twiddle factor.
pub open spec fn turned_input(
    x: Seq<Complex>,
    tw: Seq<Twiddle>,
    p: int,
    m: int,
    idx: int,
    i: int,
) -> Complex {
    c_mul(plain_input(x, p, m, idx, i), tw[i * (idx % m) * (tw.len() as int / (p * m))])
}

/// Output `idx` of a stage of butterflies of radix `p` over runs of `m` points.
pub open spec fn stage_output(x: Seq<Complex>, tw: Seq<Twiddle>, p: int, m: int, idx: int) -> Complex {
    let k = (idx % (p * m)) / m;
    let a = plain_input(x, p, m, idx, 0);
    if p == 2 {
        bfly2(k, a, eighth_turn(plain_input(x, p, m, idx, 1), idx % m))
    } else if p == 3 {
        bfly3(k, a, turned_input(x, tw, p, m, idx, 1), turned_input(x, tw, p, m, idx, 2))
    } else if p == 4 && m == 1 {
        bfly4(
            k,
            a,
            plain_input(x, p, m, idx, 1),
            plain_input(x, p, m, idx, 2),
            plain_input(x, p, m, idx, 3),
        )
    } else if p == 4 {
        bfly4(
            k,
            a,
            turned_input(x, tw, p, m, idx, 1),
            turned_input(x, tw, p, m, idx, 2),
            turned_input(x, tw, p, m, idx, 3),
        )
    } else {
        bfly5(
            k,
            a,
            turned_input(x, tw, p, m, idx, 1),
            turned_input(x, tw, p, m, idx, 2),
            turned_input(x, tw, p, m, idx, 3),
            turned_input(x, tw, p, m, idx, 4),
        )
    }
}

/// A stage of butterflies.
pub open spec fn stage(x: Seq<Complex>, tw: Seq<Twiddle>, p: int, m: int) -> Seq<Complex> {
    Seq::new(x.len(), |idx: int| stage_output(x, tw, p, m, idx))
}

/// The inputs of a butterfly lie in the sequence.
proof fn lemma_inputs(n: int, p: int, m: int, idx: int, i: int)
    requires
        1 <= m,
        2 <= p <= 5,
        0 <= idx < n,
        n % (p * m) == 0,
        0 <= i < p,
    ensures
        0 <= butterfly_base(p, m, idx) + i * m < n,
        0 <= butterfly_base(p, m, idx),
        0 <= idx % m < m,
        0 <= idx % (p * m) < p * m,
        idx % (p * m) <= idx,
        0 <= i * m <= 4 * m,
        m <= p * m,
{
    let w = p * m;
    assert(w >= 1) by (nonlinear_arith)
        requires
            1 <= m,
            2 <= p,
            w == p * m,
    ;
    let q = idx / w;
    vstd::arithmetic::div_mod::lemma_fundamental_div_mod(idx, w);
    vstd::arithmetic::div_mod::lemma_fundamental_div_mod(n, w);
    let blocks = n / w;
    assert(q < blocks) by (nonlinear_arith)
        requires
            w >= 1,
            idx == w * q + idx % w,
            idx % w >= 0,
            n == w * blocks,
            idx < n,
    ;
    assert(w * q + w <= n) by (nonlinear_arith)
        requires
            q < blocks,
            n == w * blocks,
            w >= 1,
    ;
    assert(0 <= i * m && i * m + m <= w && i * m <= 4 * m) by (nonlinear_arith)
        requires
            0 <= i < p,
            p <= 5,
            1 <= m,
            w == p * m,
    ;
    assert(w * q >= 0) by (nonlinear_arith)
        requires
            w >= 1,
            idx == w * q + idx % w,
            0 <= idx,
            idx % w < w,
    ;
    assert(idx - idx % w == w * q);
    assert(m <= w) by (nonlinear_arith)
        requires
            1 <= m,
            2 <= p,
            w == p * m,
    ;
}

/// The twiddle factor of an input lies in the table.
proof fn lemma_twiddle(len: int, p: int, m: int, j: int, i: int)
    requires
        1 <= m,
        2 <= p <= 5,
        p * m <= len,
        0 <= j < m,
        0 <= i < p,
    ensures
        1 <= p * m,
        0 <= i * j,
        0 <= i * j * (len / (p * m)) < len,
{
    let w = p * m;
    assert(w >= 1) by (nonlinear_arith)
        requires
            1 <= m,
            2 <= p,
            w == p * m,
    ;
    let fs = len / w;
    vstd::arithmetic::div_mod::lemma_fundamental_div_mod(len, w);
    assert(fs >= 1) by (nonlinear_arith)
        requires
            len == w * fs + len % w,
            len % w < w,
            w <= len,
            w >= 1,
    ;
    assert(0 <= i * j && i * j < w) by (nonlinear_arith)
        requires
            0 <= i < p,
            0 <= j < m,
            w == p * m,
    ;
    let ij = i * j;
    assert(0 <= ij * fs && ij * fs < w * fs) by (nonlinear_arith)
        requires
            0 <= ij < w,
            fs >= 1,
    ;
}

/// Computes [`plain_input`].
fn read_plain(x: &Vec<Complex>, p: usize, m: usize, idx: usize, i: usize) -> (r: Complex)
    requires
        x@.len() <= 2048,
        1 <= m,
        2 <= p <= 5,
        p * m <= x@.len(),
        idx < x@.len(),
        x@.len() as int % (p * m) == 0,
        i < p,
    ensures
        r == plain_input(x@, p as int, m as int, idx as int, i as int),
{
    proof {
        lemma_inputs(x@.len() as int, p as int, m as int, idx as int, i as int);
    }
    x[idx - idx % (p * m) + idx % m + i * m]
}

/// Computes [`turned_input`].
fn read_turned(
    x: &Vec<Complex>,
    tw: &Vec<Twiddle>,
    p: usize,
    m: usize,
    idx: usize,
    i: usize,
) -> (r: Complex)
    requires
        x@.len() <= tw@.len() <= 2048,
        1 <= m,
        2 <= p <= 5,
        p * m <= x@.len(),
        idx < x@.len(),
        x@.len() as int % (p * m) == 0,
        i < p,
    ensures
        r == turned_input(x@, tw@, p as int, m as int, idx as int, i as int),
{
    let a: Complex = read_plain(x, p, m, idx, i);
    proof {
        lemma_inputs(x@.len() as int, p as int, m as int, idx as int, i as int);
        lemma_twiddle(
            tw@.len() as int,
            p as int,
            m as int,
            idx as int % m as int,
            i as int,
        );
        assert(i * (idx as int % m as int) <= 4 * 2048) by (nonlinear_arith)
            requires
                0 <= i < 5,
                0 <= idx as int % m as int <= 2048,
        ;
    }
    let step: usize = tw.len() / (p * m);
    c_mul(a, tw[i * (idx % m) * step])
}

/// Computes [`stage`].
fn run_stage(x: &Vec<Complex>, tw: &Vec<Twiddle>, p: usize, m: usize) -> (y: Vec<Complex>)
    requires
        x@.len() <= tw@.len() <= 2048,
        1 <= m,
        2 <= p <= 5,
        p * m <= x@.len(),
        x@.len() as int % (p * m) == 0,
    ensures
        y@ == stage(x@, tw@, p as int, m as int),
        y@.len() == x@.len(),
{
    let n: usize = x.len();
    let mut y: Vec<Complex> = Vec::new();
    for idx in 0..n
        invariant
            n == x@.len(),
            x@.len() <= tw@.len() <= 2048,
            1 <= m,
            2 <= p <= 5,
            p * m <= x@.len(),
            x@.len() as int % (p * m) == 0,
            y@.len() == idx,
            forall|k: int|
                0 <= k < idx ==> #[trigger] y@[k] == stage(x@, tw@, p as int, m as int)[k],
    {
        proof {
            lemma_inputs(n as int, p as int, m as int, idx as int, 0);
        }
        let k: usize = (idx % (p * m)) / m;
        let a: Complex = read_plain(x, p, m, idx, 0);
        let v: Complex = if p == 2 {
            let t: Complex = turn_eighths(read_plain(x, p, m, idx, 1), idx % m);
            if k == 0 {
                c_add(a, t)
            } else {
                c_sub(a, t)
            }
        } else if p == 3 {
            butterfly3(k, a, read_turned(x, tw, p, m, idx, 1), read_turned(x, tw, p, m, idx, 2))
        } else if p == 4 && m == 1 {
            butterfly4(
                k,
                a,
                read_plain(x, p, m, idx, 1),
                read_plain(x, p, m, idx, 2),
                read_plain(x, p, m, idx, 3),
            )
        } else if p == 4 {
            butterfly4(
                k,
                a,
                read_turned(x, tw, p, m, idx, 1),
                read_turned(x, tw, p, m, idx, 2),
                read_turned(x, tw, p, m, idx, 3),
            )
        } else {
            butterfly5(
                k,
                a,
                read_turned(x, tw, p, m, idx, 1),
                read_turned(x, tw, p, m, idx, 2),
                read_turned(x, tw, p, m, idx, 3),
                read_turned(x, tw, p, m, idx, 4),
            )
        };
        y.push(v);
    }
    assert(y@ =~= stage(x@, tw@, p as int, m as int));
    y
}

/// A sequence scaled down by `2^s`.
pub open spec fn scaled_down(x: Seq<Complex>, s: int) -> Seq<Complex> {
    Seq::new(
        x.len(),
        |k: int|
            if s <= 0 {
                x[k]
            } else if s == 1 {
                Complex { r: x[k].r >> 1u32, i: x[k].i >> 1u32 }
            } else {
                Complex { r: pshr32(x[k].r, s as u32), i: pshr32(x[k].i, s as u32) }
            },
    )
}

/// Computes [`scaled_down`].
fn scale_down(x: &mut Vec<Complex>, s: u32)
    requires
        s < 32,
    ensures
        final(x)@ == scaled_down(old(x)@, s as int),
        final(x)@.len() == old(x)@.len(),
{
    let ghost x0 = x@;
    let n: usize = x.len();
    for k in 0..n
        invariant
            n == x@.len(),
            x@.len() == x0.len(),
            s < 32,
            forall|i: int|
                0 <= i < n ==> #[trigger] x@[i] == (if i < k {
                    scaled_down(x0, s as int)[i]
                } else {
                    x0[i]
                }),
    {
        let v: Complex = x[k];
        if s == 1 {
            x.set(k, Complex { r: v.r >> 1u32, i: v.i >> 1u32 });
        } else if s > 1 {
            x.set(k, Complex { r: pshr32(v.r, s), i: pshr32(v.i, s) });
        }
    }
    assert(x@ =~= scaled_down(x0, s as int));
}

/// Bits by which the input of a butterfly is scaled down, if so many are left.
pub open spec fn radix_bits(p: int) -> int {
    if p == 2 {
        1
    } else if p == 5 {
        3
    } else {
        2
    }
}

/// The smaller of two integers.
pub open spec fn least(a: int, b: int) -> int {
    if a < b {
        a
    } else {
        b
    }
}

/// The stages from stage `i` outwards, with `down` bits left to scale by.
pub open spec fn stages(
    x: Seq<Complex>,
    tw: Seq<Twiddle>,
    factors: Seq<usize>,
    i: int,
    down: int,
) -> Seq<Complex>
    decreases i + 1,
{
    if i < 0 {
        scaled_down(x, down)
    } else {
        let p = factors[i] as int;
        let s = least(radix_bits(p), down);
        stages(
            stage(scaled_down(x, s), tw, p, product(factors, i + 1)),
            tw,
            factors,
            i - 1,
            down - s,
        )
    }
}

/// Products of radices are positive.
proof fn lemma_product_positive(factors: Seq<usize>, from: int)
    requires
        0 <= from <= factors.len(),
        forall|i: int| 0 <= i < factors.len() ==> 2 <= #[trigger] factors[i] <= 5,
    ensures
        1 <= product(factors, from),
    decreases factors.len() - from,
{
    if from < factors.len() {
        lemma_product_positive(factors, from + 1);
        let p = factors[from] as int;
        let rest = product(factors, from + 1);
        assert(p * rest >= 1) by (nonlinear_arith)
            requires
                p >= 1,
                rest >= 1,
        ;
    }
}

/// Every tail of the radices divides the whole.
proof fn lemma_product(factors: Seq<usize>, from: int, to: int)
    requires
        0 <= from <= to <= factors.len(),
        forall|i: int| 0 <= i < factors.len() ==> 2 <= #[trigger] factors[i] <= 5,
    ensures
        1 <= product(factors, to) <= product(factors, from),
        product(factors, from) % product(factors, to) == 0,
    decreases to - from,
{
    lemma_product_positive(factors, to);
    if from < to {
        lemma_product(factors, from + 1, to);
        let p = factors[from] as int;
        let a = product(factors, from + 1);
        let b = product(factors, to);
        vstd::arithmetic::div_mod::lemma_mul_mod_noop_right(p, a, b);
        assert(p * (a % b) == 0) by (nonlinear_arith)
            requires
                a % b == 0,
        ;
        vstd::arithmetic::div_mod::lemma_small_mod(0, b as nat);
        assert(a <= p * a) by (nonlinear_arith)
            requires
                p >= 1,
                a >= 1,
        ;
    } else {
        vstd::arithmetic::div_mod::lemma_mod_self_0(product(factors, from));
    }
}

/// Computes [`stages`] from the innermost stage on.
fn run_stages(x: Vec<Complex>, tw: &Vec<Twiddle>, factors: &Vec<usize>, down: u32) -> (y: Vec<Complex>)
    requires
        x@.len() <= tw@.len() <= 2048,
        plan_wf(factors@, x@.len() as int),
        down < 32,
    ensures
        y@ == stages(x@, tw@, factors@, factors@.len() - 1, down as int),
        y@.len() == x@.len(),
{
    let ghost first = x@;
    let mut y: Vec<Complex> = x;
    let mut i: usize = factors.len();
    let mut m: usize = 1;
    let mut left: u32 = down;
    while i > 0
        invariant
            y@.len() == first.len(),
            first.len() <= tw@.len() <= 2048,
            plan_wf(factors@, first.len() as int),
            i <= factors@.len(),
            m == product(factors@, i as int),
            left < 32,
            stages(y@, tw@, factors@, i - 1, left as int) == stages(
                first,
                tw@,
                factors@,
                factors@.len() - 1,
                down as int,
            ),
        decreases i,
    {
        let p: usize = factors[i - 1];
        proof {
            lemma_product(factors@, 0, i - 1);
            lemma_product(factors@, i as int, factors@.len() as int);
            lemma_product(factors@, i - 1, i as int);
            assert(product(factors@, i - 1) == p * m);
        }
        let bits: u32 = if p == 2 {
            1
        } else if p == 5 {
            3
        } else {
            2
        };
        let s: u32 = if bits < left { bits } else { left };
        scale_down(&mut y, s);
        y = run_stage(&y, tw, p, m);
        m = p * m;
        left = left - s;
        i = i - 1;
    }
    scale_down(&mut y, left);
    y
}

/// Input that is sorted to position `r` in front of the first stage: the digits
/// of `r` in the mixed radix, read backwards.
pub open spec fn source(factors: Seq<usize>, k: int, r: int) -> int
    decreases factors.len() - k,
{
    if k < 0 || k + 1 >= factors.len() {
        r
    } else {
        let m = product(factors, k + 1);
        r / m + factors[k] * source(factors, k + 1, r % m)
    }
}

/// Sorting keeps positions inside the sequence.
proof fn lemma_source(factors: Seq<usize>, k: int, r: int)
    requires
        0 <= k < factors.len(),
        forall|i: int| 0 <= i < factors.len() ==> 2 <= #[trigger] factors[i] <= 5,
        0 <= r < product(factors, k),
    ensures
        0 <= source(factors, k, r) < product(factors, k),
    decreases factors.len() - k,
{
    if k + 1 < factors.len() {
        let m = product(factors, k + 1);
        let p = factors[k] as int;
        lemma_product_positive(factors, k + 1);
        vstd::arithmetic::div_mod::lemma_fundamental_div_mod(r, m);
        let q = r / m;
        let rest = r % m;
        lemma_source(factors, k + 1, rest);
        let inner = source(factors, k + 1, rest);
        assert(0 <= q < p) by (nonlinear_arith)
            requires
                r == m * q + rest,
                0 <= rest < m,
                0 <= r < p * m,
                m >= 1,
        ;
        assert(0 <= q + p * inner < p * m) by (nonlinear_arith)
            requires
                0 <= q < p,
                0 <= inner < m,
        ;
    } else {
        assert(product(factors, k + 1) == 1);
    }
}

/// Computes [`source`].
fn find_source(factors: &Vec<usize>, k: usize, m: usize, r: usize) -> (i: usize)
    requires
        k < factors@.len(),
        forall|i: int| 0 <= i < factors@.len() ==> 2 <= #[trigger] factors@[i] <= 5,
        m == product(factors@, k as int),
        m <= 2048,
        r < m,
    ensures
        i == source(factors@, k as int, r as int),
        i < m,
    decreases factors@.len() - k,
{
    proof {
        lemma_source(factors@, k as int, r as int);
        lemma_product_positive(factors@, k + 1);
    }
    assert(factors@.len() == factors.len());
    if k + 1 >= factors.len() {
        return r;
    }
    let p: usize = factors[k];
    let ghost rest = product(factors@, k + 1);
    proof {
        assert(m == p * rest);
        vstd::arithmetic::div_mod::lemma_div_multiples_vanish(rest, p as int);
        assert(rest <= m) by (nonlinear_arith)
            requires
                m == p * rest,
                p >= 2,
                rest >= 1,
        ;
    }
    let inner_m: usize = m / p;
    assert(inner_m == rest);
    let inner: usize = find_source(factors, k + 1, inner_m, r % inner_m);
    r / inner_m + p * inner
}

/// Largest magnitude of the coefficients, and the sum of their magnitudes in
/// units of 2048 plus their number.
pub open spec fn levels(x: Seq<i32>, n: int) -> (i32, i32)
    decreases n,
{
    if n <= 0 {
        (0, x.len() as i32)
    } else {
        let (peak, sum) = levels(x, n - 1);
        let v = abs32(x[n - 1]);
        (if v > peak { v } else { peak }, sum.wrapping_add(abs32(x[n - 1] >> 11u32)))
    }
}

/// The larger of an integer and zero.
pub open spec fn positive(a: int) -> int {
    if a < 0 {
        0
    } else {
        a
    }
}

/// Bits by which the input is scaled up, and by which the output is scaled down.
pub open spec fn shifts(x: Seq<i32>) -> (int, int) {
    let (peak, sum) = levels(x, x.len() as int);
    let pre = positive(29 - zlog2(peak.wrapping_add(1) as int));
    (pre, least(positive(19 - zlog2(abs32(sum) as int)), pre))
}

/// Computes [`shifts`].
fn find_shifts(x: &Vec<i32>) -> (r: (u32, u32))
    requires
        x@.len() <= 2048,
    ensures
        (r.0 as int, r.1 as int) == shifts(x@),
        r.1 <= r.0 <= 29,
{
    let n: usize = x.len();
    let mut peak: i32 = 0;
    let mut sum: i32 = n as i32;
    for i in 0..n
        invariant
            n == x@.len(),
            (peak, sum) == levels(x@, i as int),
    {
        let v: i32 = abs32(x[i]);
        if v > peak {
            peak = v;
        }
        sum = sum.wrapping_add(abs32(x[i] >> 11u32));
    }
    let room: i32 = 29 - celt_zlog2(peak.wrapping_add(1));
    let pre: i32 = if room < 0 { 0 } else { room };
    let spare: i32 = 19 - celt_zlog2(abs32(sum));
    let post: i32 = if spare < 0 { 0 } else { spare };
    (pre as u32, if post < pre { post as u32 } else { pre as u32 })
}

/// Element `i` of the rotated input.
pub open spec fn rotated_in(x: Seq<i32>, trig: Seq<i16>, pre: int, i: int) -> Complex {
    let n2 = x.len() as int;
    let n4 = n2 / 2;
    let x1 = shl32(x[2 * i], pre as u32);
    let x2 = shl32(x[n2 - 1 - 2 * i], pre as u32);
    Complex {
        r: mult16_32_q15(trig[i], x1).wrapping_sub(mult16_32_q15(trig[n4 + i], x2)),
        i: mult16_32_q15(trig[i], x2).wrapping_add(mult16_32_q15(trig[n4 + i], x1)),
    }
}

/// The rotated input in the order of the first stage.
pub open spec fn sorted_in(x: Seq<i32>, trig: Seq<i16>, factors: Seq<usize>, pre: int) -> Seq<Complex> {
    Seq::new(
        (x.len() as int / 2) as nat,
        |r: int| rotated_in(x, trig, pre, source(factors, 0, r)),
    )
}

/// Computes [`sorted_in`].
fn sort_in(x: &Vec<i32>, trig: &Vec<i16>, factors: &Vec<usize>, pre: u32) -> (y: Vec<Complex>)
    requires
        2 <= x@.len() <= 2048,
        x@.len() as int % 2 == 0,
        trig@.len() == x@.len(),
        plan_wf(factors@, x@.len() as int / 2),
        pre < 32,
    ensures
        y@ == sorted_in(x@, trig@, factors@, pre as int),
        y@.len() == x@.len() as int / 2,
{
    let n2: usize = x.len();
    let n4: usize = n2 / 2;
    let mut y: Vec<Complex> = Vec::new();
    for r in 0..n4
        invariant
            n2 == x@.len(),
            n4 == n2 / 2,
            2 * n4 == n2,
            n2 <= 2048,
            trig@.len() == n2,
            plan_wf(factors@, n4 as int),
            pre < 32,
            y@.len() == r,
            forall|k: int|
                0 <= k < r ==> #[trigger] y@[k] == sorted_in(x@, trig@, factors@, pre as int)[k],
    {
        let i: usize = find_source(factors, 0, n4, r);
        let x1: i32 = shl32(x[2 * i], pre);
        let x2: i32 = shl32(x[n2 - 1 - 2 * i], pre);
        y.push(
            Complex {
                r: mult16_32_q15(trig[i], x1).wrapping_sub(mult16_32_q15(trig[n4 + i], x2)),
                i: mult16_32_q15(trig[i], x2).wrapping_add(mult16_32_q15(trig[n4 + i], x1)),
            },
        );
    }
    assert(y@ =~= sorted_in(x@, trig@, factors@, pre as int));
    y
}

/// Output `k` of the rotation back.
pub open spec fn rotated_out(y: Seq<Complex>, trig: Seq<i16>, post: int, k: int) -> i32 {
    let n4 = y.len() as int;
    let i = if k % 2 == 0 { k / 2 } else { (2 * n4 - 1 - k) / 2 };
    if k % 2 == 0 {
        pshr32(
            mult16_32_q15(trig[i], y[i].i).wrapping_add(mult16_32_q15(trig[n4 + i], y[i].r)),
            post as u32,
        )
    } else {
        pshr32(
            mult16_32_q15(trig[n4 + i], y[i].i).wrapping_sub(mult16_32_q15(trig[i], y[i].r)),
            post as u32,
        )
    }
}

/// Computes [`rotated_out`] for all outputs.
fn rotate_out(y: &Vec<Complex>, trig: &Vec<i16>, post: u32) -> (r: Vec<i32>)
    requires
        y@.len() <= 1024,
        trig@.len() == 2 * y@.len(),
        post < 32,
    ensures
        r@ == Seq::new(
            (2 * y@.len()) as nat,
            |k: int| rotated_out(y@, trig@, post as int, k),
        ),
{
    let n4: usize = y.len();
    let mut r: Vec<i32> = Vec::new();
    for k in 0..2 * n4
        invariant
            n4 == y@.len(),
            n4 <= 1024,
            trig@.len() == 2 * n4,
            post < 32,
            r@.len() == k,
            forall|j: int| 0 <= j < k ==> #[trigger] r@[j] == rotated_out(y@, trig@, post as int, j),
    {
        let v: i32 = if k % 2 == 0 {
            let i: usize = k / 2;
            pshr32(
                mult16_32_q15(trig[i], y[i].i).wrapping_add(mult16_32_q15(trig[n4 + i], y[i].r)),
                post,
            )
        } else {
            let i: usize = (2 * n4 - 1 - k) / 2;
            pshr32(
                mult16_32_q15(trig[n4 + i], y[i].i).wrapping_sub(mult16_32_q15(trig[i], y[i].r)),
                post,
            )
        };
        r.push(v);
    }
    assert(r@ =~= Seq::new((2 * n4) as nat, |k: int| rotated_out(y@, trig@, post as int, k)));
    r
}

/// Samples of a block before they are mixed with the overlap.
pub open spec fn block_samples(x: Seq<i32>, lookup: MdctLookup, shift: int) -> Seq<i32> {
    let (pre, post) = shifts(x);
    let trig = lookup.trig@[shift]@;
    let factors = lookup.factors@[shift]@;
    let y = stages(
        sorted_in(x, trig, factors, pre),
        lookup.twiddles@,
        factors,
        factors.len() - 1,
        pre - post,
    );
    Seq::new(x.len(), |k: int| rotated_out(y, trig, post, k))
}

/// Computes [`block_samples`].
fn make_samples(x: &Vec<i32>, lookup: &MdctLookup, shift: usize) -> (r: Vec<i32>)
    requires
        lookup.serves(shift as int, x@.len() as int),
    ensures
        r@ == block_samples(x@, *lookup, shift as int),
        r@.len() == x@.len(),
{
    let (pre, post) = find_shifts(x);
    let sorted: Vec<Complex> = sort_in(x, &lookup.trig[shift], &lookup.factors[shift], pre);
    let y: Vec<Complex> = run_stages(
        sorted,
        &lookup.twiddles,
        &lookup.factors[shift],
        pre - post,
    );
    let r: Vec<i32> = rotate_out(&y, &lookup.trig[shift], post);
    assert(r@ =~= block_samples(x@, *lookup, shift as int));
    r
}

/// The first `overlap` samples of a region mixed with their mirror image.
pub open spec fn mirror_mixed(r: Seq<i32>, window: Seq<i16>, overlap: int) -> Seq<i32> {
    Seq::new(
        r.len(),
        |k: int|
            if k < overlap / 2 {
                mult16_32_q15(window[overlap - 1 - k], r[k]).wrapping_sub(
                    mult16_32_q15(window[k], r[overlap - 1 - k]),
                )
            } else if k < overlap {
                mult16_32_q15(window[overlap - 1 - k], r[overlap - 1 - k]).wrapping_add(
                    mult16_32_q15(window[k], r[k]),
                )
            } else {
                r[k]
            },
    )
}

/// A region behind the transform of a block: its samples are written behind half
/// of the overlap, and the overlap is mixed.
pub open spec fn backward(
    region: Seq<i32>,
    x: Seq<i32>,
    lookup: MdctLookup,
    shift: int,
    window: Seq<i16>,
    overlap: int,
) -> Seq<i32> {
    mirror_mixed(
        written(region, overlap / 2, block_samples(x, lookup, shift)),
        window,
        overlap,
    )
}

/// Transforms the coefficients of one block into a region.
pub fn clt_mdct_backward(
    x: &Vec<i32>,
    region: &mut Vec<i32>,
    lookup: &MdctLookup,
    shift: usize,
    window: &Vec<i16>,
    overlap: usize,
)
    requires
        lookup.serves(shift as int, x@.len() as int),
        overlap % 2 == 0,
        overlap <= window@.len(),
        overlap / 2 + x@.len() <= old(region)@.len(),
        overlap <= old(region)@.len(),
    ensures
        final(region)@ == backward(
            old(region)@,
            x@,
            *lookup,
            shift as int,
            window@,
            overlap as int,
        ),
        final(region)@.len() == old(region)@.len(),
{
    let samples: Vec<i32> = make_samples(x, lookup, shift);
    let half: usize = overlap / 2;
    write_at(region, half, &samples);
    let ghost r = region@;
    for i in 0..half
        invariant
            2 * half == overlap,
            overlap <= window@.len(),
            overlap <= region@.len(),
            region@.len() == r.len(),
            forall|k: int|
                0 <= k < r.len() ==> #[trigger] region@[k] == (if k < i || overlap - i <= k
                    < overlap {
                    mirror_mixed(r, window@, overlap as int)[k]
                } else {
                    r[k]
                }),
    {
        let j: usize = overlap - 1 - i;
        let x1: i32 = region[j];
        let x2: i32 = region[i];
        let front: i32 = mult16_32_q15(window[j], x2).wrapping_sub(mult16_32_q15(window[i], x1));
        let back: i32 = mult16_32_q15(window[i], x2).wrapping_add(mult16_32_q15(window[j], x1));
        region.set(i, front);
        region.set(j, back);
    }
    assert(region@ =~= mirror_mixed(r, window@, overlap as int));
}

/// Checks [`plan_wf`] for up to 1024 points.
fn is_plan(factors: &Vec<usize>, n: usize) -> (ok: bool)
    requires
        n <= 1024,
    ensures
        ok == plan_wf(factors@, n as int),
{
    let len: usize = factors.len();
    if len < 1 || len > 16 {
        return false;
    }
    let mut i: usize = len;
    let mut m: usize = 1;
    while i > 0
        invariant
            i <= len,
            len == factors@.len(),
            len <= 16,
            n <= 1024,
            m == product(factors@, i as int),
            1 <= m <= n || i == len && m == 1,
            forall|k: int| i <= k < len ==> 2 <= #[trigger] factors@[k] <= 5,
            forall|k: int|
                i <= k < len && #[trigger] factors@[k] == 2 ==> product(factors@, k + 1) == 4,
        decreases i,
    {
        let p: usize = factors[i - 1];
        if p < 2 || p > 5 || (p == 2 && m != 4) {
            return false;
        }
        assert(2 <= p * m <= 5 * 1024) by (nonlinear_arith)
            requires
                2 <= p <= 5,
                1 <= m <= 1024,
        ;
        m = p * m;
        i = i - 1;
        if m > n {
            proof {
                if plan_wf(factors@, n as int) {
                    lemma_product(factors@, 0, i as int);
                }
            }
            return false;
        }
    }
    m == n
}

impl MdctLookup {
    /// Checks [`MdctLookup::serves`].
    pub fn is_serving(&self, shift: usize, nb: usize) -> (ok: bool)
        ensures
            ok == self.serves(shift as int, nb as int),
    {
        shift < self.trig.len() && shift < self.factors.len() && nb % 2 == 0 && 2 <= nb && nb
            <= 2048 && self.trig[shift].len() == nb && nb / 2 <= self.twiddles.len()
            && self.twiddles.len() <= 2048 && is_plan(&self.factors[shift], nb / 2)
    }
}

} // verus!
