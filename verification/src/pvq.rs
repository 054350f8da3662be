//! Pyramid vector quantiser: enumeration of pulse vectors, their decoding and
//! the reconstruction of unit-norm coefficients from them.

use vstd::prelude::*;
use crate::fixed::{
    extract16, mult16_16, mult16_16_p15, mult16_16_q15, mult32_32_q31, pshr32, vshr32,
};
use crate::math::{
    bit_length, celt_ilog2, celt_rcp, celt_rsqrt_norm, ilog2, ilog64, lemma_bit_length,
    lemma_bit_length_bound, rcp, rsqrt_norm,
};
use crate::range_decoder::EcDec;

verus! {

/// No rotation of the coefficients.
pub const SPREAD_NONE: i32 = 0;

/// Light rotation.
pub const SPREAD_LIGHT: i32 = 1;

/// Normal rotation.
pub const SPREAD_NORMAL: i32 = 2;

/// Strong rotation.
pub const SPREAD_AGGRESSIVE: i32 = 3;

/// Largest number of pulses in one vector.
pub const MAX_PULSES: i32 = 0x7fff;

/// Number of vectors of `n` coefficients and `k` pulses whose first
/// coefficient is positive when it holds a pulse and `k` counts one more.
pub open spec fn pvq_u(n: nat, k: nat) -> nat
    decreases n, k,
{
    if k == 0 {
        if n == 0 {
            1
        } else {
            0
        }
    } else if n == 0 {
        0
    } else {
        pvq_u((n - 1) as nat, k) + pvq_u(n, (k - 1) as nat) + pvq_u((n - 1) as nat, (k - 1) as nat)
    }
}

/// Number of vectors of `n` integers whose magnitudes sum to `k`.
pub open spec fn pvq_v(n: nat, k: nat) -> nat {
    pvq_u(n, k) + pvq_u(n, k + 1)
}

/// The counts grow with the number of pulses.
pub proof fn lemma_u_grows_k(n: nat, j: nat, k: nat)
    requires
        n >= 1,
        j <= k,
    ensures
        pvq_u(n, j) <= pvq_u(n, k),
    decreases k - j,
{
    if j < k {
        lemma_u_grows_k(n, j, (k - 1) as nat);
    }
}

/// The counts grow with the number of coefficients.
pub proof fn lemma_u_grows_n(m: nat, n: nat, k: nat)
    requires
        m <= n,
        k >= 1,
    ensures
        pvq_u(m, k) <= pvq_u(n, k),
    decreases n - m,
{
    if m < n {
        lemma_u_grows_n(m, (n - 1) as nat, k);
    }
}

/// Pulses left for the coefficients behind the first one.
pub open spec fn pulses_left(n: nat, k: nat, i: nat) -> nat
    decreases k,
{
    if k == 0 || pvq_u(n, k) <= i {
        k
    } else {
        pulses_left(n, (k - 1) as nat, i)
    }
}

/// The vector with index `i` among those of `n` coefficients and `k` pulses.
pub open spec fn pvq_vector(n: nat, k: nat, i: nat) -> Seq<int>
    decreases n,
{
    if n == 0 {
        Seq::empty()
    } else {
        let p = pvq_u(n, k + 1);
        let rest = if i >= p { (i - p) as nat } else { i };
        let left = pulses_left(n, k, rest);
        let y = if i >= p { left - k } else { k - left };
        seq![y] + pvq_vector((n - 1) as nat, left, (rest - pvq_u(n, left)) as nat)
    }
}

/// Sum of the magnitudes of the first `len` entries.
pub open spec fn magnitude_sum(y: Seq<int>) -> int
    decreases y.len(),
{
    if y.len() == 0 {
        0
    } else {
        (if y[0] < 0 { -y[0] } else { y[0] }) + magnitude_sum(y.skip(1))
    }
}

/// The index that remains for the tail of a vector is in range.
pub proof fn lemma_tail_index(n: nat, k: nat, i: nat)
    requires
        n >= 1,
        i < pvq_v(n, k),
    ensures
        ({
            let p = pvq_u(n, k + 1);
            let rest = if i >= p { (i - p) as nat } else { i };
            let left = pulses_left(n, k, rest);
            &&& rest < p
            &&& left <= k
            &&& pvq_u(n, left) <= rest
            &&& rest - pvq_u(n, left) < pvq_v((n - 1) as nat, left)
        }),
{
    let p = pvq_u(n, k + 1);
    let rest = if i >= p { (i - p) as nat } else { i };
    lemma_u_grows_k(n, k, k + 1);
    lemma_pulses_left(n, k, rest);
    let left = pulses_left(n, k, rest);
    assert(rest < pvq_u(n, left + 1));
    assert(pvq_u(n, left + 1) == pvq_u((n - 1) as nat, left + 1) + pvq_u(n, left) + pvq_u(
        (n - 1) as nat,
        left,
    ));
}

/// [`pulses_left`] is the last count that does not exceed the index.
pub proof fn lemma_pulses_left(n: nat, k: nat, i: nat)
    requires
        n >= 1,
        i < pvq_u(n, k + 1),
    ensures
        pulses_left(n, k, i) <= k,
        pvq_u(n, pulses_left(n, k, i)) <= i < pvq_u(n, pulses_left(n, k, i) + 1),
    decreases k,
{
    if k > 0 && pvq_u(n, k) > i {
        lemma_pulses_left(n, (k - 1) as nat, i);
    }
}

/// Every decoded vector has as many coefficients as asked for and exactly the
/// asked number of pulses.
pub proof fn law_pulse_count(n: nat, k: nat, i: nat)
    requires
        i < pvq_v(n, k),
    ensures
        pvq_vector(n, k, i).len() == n,
        magnitude_sum(pvq_vector(n, k, i)) == k,
    decreases n,
{
    if n == 0 {
        if k > 0 {
            assert(pvq_u(0, k) == 0 && pvq_u(0, k + 1) == 0);
        }
    } else {
        lemma_tail_index(n, k, i);
        let p = pvq_u(n, k + 1);
        let rest = if i >= p { (i - p) as nat } else { i };
        let left = pulses_left(n, k, rest);
        let tail = pvq_vector((n - 1) as nat, left, (rest - pvq_u(n, left)) as nat);
        law_pulse_count((n - 1) as nat, left, (rest - pvq_u(n, left)) as nat);
        assert(pvq_vector(n, k, i).skip(1) =~= tail);
    }
}

/// The counts that decoding `n` coefficients with `k` pulses uses fit a word.
pub open spec fn pvq_fits(n: nat, k: nat) -> bool {
    pvq_v(n, k) <= u32::MAX
}

/// Smaller vectors fit whenever larger ones do.
proof fn lemma_u_fits(m: nat, n: nat, j: nat, k: nat)
    requires
        m <= n,
        n >= 1,
        1 <= j <= k + 1,
        pvq_fits(n, k),
    ensures
        pvq_u(m, j) <= u32::MAX,
{
    lemma_u_grows_n(m, n, j);
    lemma_u_grows_k(n, j, k + 1);
}

/// Tabulates row `n` of the counts, or returns `None` when the vectors are too
/// many to be numbered with 32 bits.
pub(crate) fn count_row(n: usize, k: usize) -> (row: Option<Vec<u32>>)
    requires
        1 <= n,
        k <= MAX_PULSES,
    ensures
        row is Some <==> pvq_fits(n as nat, k as nat),
        row matches Some(u) ==> u@.len() == k + 2 && forall|j: int|
            0 <= j < k + 2 ==> u@[j] == pvq_u(n as nat, j as nat),
{
    let len: usize = k + 2;
    let mut row: Vec<u32> = Vec::new();
    row.push(1);
    while row.len() < len
        invariant
            1 <= row@.len() <= len,
            forall|j: int| 0 <= j < row@.len() ==> row@[j] == pvq_u(0, j as nat),
        decreases len - row@.len(),
    {
        row.push(0);
    }
    let mut m: usize = 0;
    while m < n
        invariant
            m <= n,
            1 <= n,
            len == k + 2,
            row@.len() == len,
            k <= MAX_PULSES,
            forall|j: int| 0 <= j < len ==> row@[j] == pvq_u(m as nat, j as nat),
        decreases n - m,
    {
        let mut next: Vec<u32> = Vec::new();
        next.push(0);
        while next.len() < len
            invariant
                m < n,
                1 <= n,
                len == k + 2,
                row@.len() == len,
                1 <= next@.len() <= len,
                k <= MAX_PULSES,
                forall|j: int| 0 <= j < len ==> row@[j] == pvq_u(m as nat, j as nat),
                forall|j: int| 0 <= j < next@.len() ==> next@[j] == pvq_u((m + 1) as nat, j as nat),
            decreases len - next@.len(),
        {
            let j: usize = next.len();
            let sum: u64 = row[j] as u64 + next[j - 1] as u64 + row[j - 1] as u64;
            assert(sum == pvq_u((m + 1) as nat, j as nat));
            if sum > u32::MAX as u64 {
                proof {
                    if pvq_fits(n as nat, k as nat) {
                        lemma_u_fits((m + 1) as nat, n as nat, j as nat, k as nat);
                    }
                }
                return None;
            }
            next.push(sum as u32);
        }
        row = next;
        m = m + 1;
    }
    if row[k] as u64 + row[k + 1] as u64 > u32::MAX as u64 {
        return None;
    }
    Some(row)
}

/// Vectors with fewer pulses are fewer.
pub proof fn lemma_fits_fewer(n: nat, j: nat, k: nat)
    requires
        n >= 1,
        j <= k,
        pvq_fits(n, k),
    ensures
        pvq_fits(n, j),
{
    lemma_u_grows_k(n, j, k);
    lemma_u_grows_k(n, j + 1, k + 1);
}

/// Pulse count that the pseudo-count `q` stands for: small counts are exact,
/// larger ones become coarser.
pub open spec fn pulses_of(q: int) -> int {
    if q < 16 {
        q
    } else if q < 24 {
        (8 + q % 8) * 2
    } else if q < 32 {
        (8 + q % 8) * 4
    } else if q < 40 {
        (8 + q % 8) * 8
    } else {
        (8 + q % 8) * 16
    }
}

/// The vectors of `n` coefficients priced by pseudo-count `q` can be numbered
/// with 32 bits.
pub open spec fn vector_fits(n: int, q: int) -> bool {
    pvq_fits(n as nat, pulses_of(q) as nat)
}

/// Computes [`pulses_of`].
pub fn get_pulses(q: i32) -> (k: i32)
    requires
        0 <= q <= 40,
    ensures
        k == pulses_of(q as int),
        0 <= k <= 128,
        q >= 1 ==> k >= 1,
{
    if q < 16 {
        q
    } else if q < 24 {
        (8 + q % 8) * 2
    } else if q < 32 {
        (8 + q % 8) * 4
    } else if q < 40 {
        (8 + q % 8) * 8
    } else {
        (8 + q % 8) * 16
    }
}

/// Whether the vectors of `n` coefficients and `k` pulses can be numbered with
/// 32 bits.
pub fn pulses_fit(n: usize, k: usize) -> (ok: bool)
    requires
        1 <= n,
        k <= MAX_PULSES,
    ensures
        ok == pvq_fits(n as nat, k as nat),
{
    count_row(n, k).is_some()
}

/// Steps a count row from `n` coefficients to `n - 1`.
pub(crate) fn previous_row(row: &mut Vec<u32>, n: usize)
    requires
        1 <= n,
        1 <= old(row)@.len(),
        forall|j: int| 0 <= j < old(row)@.len() ==> old(row)@[j] == pvq_u(n as nat, j as nat),
    ensures
        final(row)@.len() == old(row)@.len(),
        forall|j: int|
            0 <= j < final(row)@.len() ==> final(row)@[j] == pvq_u((n - 1) as nat, j as nat),
{
    let mut above: u32 = row[0];
    row.set(0, if n == 1 { 1 } else { 0 });
    let mut j: usize = 1;
    while j < row.len()
        invariant
            1 <= n,
            1 <= j <= row@.len(),
            row@.len() == old(row)@.len(),
            above == pvq_u(n as nat, (j - 1) as nat),
            forall|i: int| 0 <= i < j ==> row@[i] == pvq_u((n - 1) as nat, i as nat),
            forall|i: int| j <= i < row@.len() ==> row@[i] == pvq_u(n as nat, i as nat),
        decreases row@.len() - j,
    {
        let here: u32 = row[j];
        let below: u32 = row[j - 1];
        assert(here == pvq_u((n - 1) as nat, j as nat) + above + below);
        row.set(j, here - above - below);
        above = here;
        j = j + 1;
    }
}

/// Entries of a vector as mathematical integers.
pub open spec fn as_ints(y: Seq<i32>) -> Seq<int> {
    Seq::new(y.len(), |j: int| y[j] as int)
}

/// Sum of squares of the entries.
pub open spec fn energy_of(y: Seq<int>) -> int
    decreases y.len(),
{
    if y.len() == 0 {
        0
    } else {
        y[0] * y[0] + energy_of(y.skip(1))
    }
}

/// The energy of a vector is positive with its pulses and at most the square
/// of their number.
pub proof fn lemma_energy_bound(y: Seq<int>)
    ensures
        0 <= energy_of(y) <= magnitude_sum(y) * magnitude_sum(y),
        magnitude_sum(y) >= 0,
        magnitude_sum(y) > 0 ==> energy_of(y) > 0,
    decreases y.len(),
{
    if y.len() > 0 {
        lemma_energy_bound(y.skip(1));
        let a = if y[0] < 0 { -y[0] } else { y[0] };
        let m = magnitude_sum(y.skip(1));
        assert(y[0] * y[0] == a * a) by (nonlinear_arith)
            requires
                a == y[0] || a == -y[0],
        ;
        assert((a + m) * (a + m) >= a * a + m * m) by (nonlinear_arith)
            requires
                a >= 0,
                m >= 0,
        ;
        assert(a * a >= 0) by (nonlinear_arith);
        if a > 0 {
            assert(a * a > 0) by (nonlinear_arith)
                requires
                    a > 0,
            ;
        }
    }
}

/// Decodes the vector with index `index`; also returns its energy.
fn decode_vector(n: usize, k: usize, index: u32, counts: Vec<u32>) -> (r: (Vec<i32>, i32))
    requires
        1 <= n,
        k <= MAX_PULSES,
        index < pvq_v(n as nat, k as nat),
        counts@.len() == k + 2,
        forall|j: int| 0 <= j < k + 2 ==> counts@[j] == pvq_u(n as nat, j as nat),
    ensures
        as_ints(r.0@) == pvq_vector(n as nat, k as nat, index as nat),
        r.0@.len() == n,
        r.1 == energy_of(pvq_vector(n as nat, k as nat, index as nat)),
        forall|j: int| 0 <= j < n ==> -MAX_PULSES <= #[trigger] r.0@[j] <= MAX_PULSES,
{
    let mut row: Vec<u32> = counts;
    let mut y: Vec<i32> = Vec::new();
    let mut energy: i32 = 0;
    let mut m: usize = n;
    let mut left: usize = k;
    let mut i: u32 = index;
    let ghost whole = pvq_vector(n as nat, k as nat, index as nat);
    let ghost mut tail = whole;
    proof {
        law_pulse_count(n as nat, k as nat, index as nat);
        lemma_energy_bound(whole);
        assert(k * k <= 0x7fff * 0x7fff) by (nonlinear_arith)
            requires
                0 <= k <= 0x7fff,
        ;
        assert(as_ints(y@) + tail =~= whole);
    }
    while m > 0
        invariant
            m <= n,
            left <= k <= MAX_PULSES,
            y@.len() == n - m,
            row@.len() == k + 2,
            forall|j: int| 0 <= j < k + 2 ==> row@[j] == pvq_u(m as nat, j as nat),
            i < pvq_v(m as nat, left as nat),
            tail == pvq_vector(m as nat, left as nat, i as nat),
            whole == pvq_vector(n as nat, k as nat, index as nat),
            as_ints(y@) + tail == whole,
            energy + energy_of(tail) == energy_of(whole),
            0 <= energy,
            energy_of(whole) <= 0x7fff * 0x7fff,
            forall|j: int| 0 <= j < y@.len() ==> -MAX_PULSES <= #[trigger] y@[j] <= MAX_PULSES,
        decreases m,
    {
        let ghost i0 = i as nat;
        let ghost left0 = left as nat;
        proof {
            lemma_tail_index(m as nat, left as nat, i as nat);
        }
        let p: u32 = row[left + 1];
        let negative: bool = i >= p;
        if negative {
            i = i - p;
        }
        let ghost rest = i as nat;
        let held: usize = left;
        while left > 0 && row[left] > i
            invariant
                left <= held <= k,
                m >= 1,
                row@.len() == k + 2,
                forall|j: int| 0 <= j < k + 2 ==> row@[j] == pvq_u(m as nat, j as nat),
                pulses_left(m as nat, left as nat, i as nat) == pulses_left(
                    m as nat,
                    held as nat,
                    i as nat,
                ),
            decreases left,
        {
            left = left - 1;
        }
        assert(left == pulses_left(m as nat, left0, rest));
        let magnitude: i32 = (held - left) as i32;
        let value: i32 = if negative { -magnitude } else { magnitude };
        i = i - row[left];
        proof {
            let next = pvq_vector((m - 1) as nat, left as nat, i as nat);
            assert(tail =~= seq![value as int] + next);
            assert(tail.skip(1) =~= next);
            lemma_energy_bound(next);
            lemma_energy_bound(tail);
            assert(as_ints(y@.push(value)) + next =~= as_ints(y@) + tail);
            assert(magnitude * magnitude == value * value) by (nonlinear_arith)
                requires
                    value == magnitude || value == -magnitude,
            ;
            assert(0 <= magnitude * magnitude <= 0x7fff * 0x7fff) by (nonlinear_arith)
                requires
                    0 <= magnitude <= 0x7fff,
            ;
            tail = next;
        }
        energy = energy + magnitude * magnitude;
        y.push(value);
        previous_row(&mut row, m);
        m = m - 1;
    }
    assert(tail =~= Seq::<int>::empty());
    assert(as_ints(y@) =~= whole);
    (y, energy)
}

/// Gain that maps a vector of energy `energy` to norm `gain`, together with
/// the shift that goes with it.
pub open spec fn residual_gain(energy: int, gain: i32) -> (i16, int) {
    let k = ilog2(energy) / 2;
    let t = vshr32(energy as i32, (2 * (k - 7)) as i32);
    (extract16(mult32_32_q31(rsqrt_norm(t) as i32, gain)), k)
}

/// A pulse vector scaled to norm `gain`.
pub open spec fn normalised_residual(y: Seq<int>, gain: i32) -> Seq<i16> {
    let (g, k) = residual_gain(energy_of(y), gain);
    Seq::new(
        y.len(),
        |j: int| extract16(pshr32(mult16_16(g, y[j] as i16), (k + 1) as u32)),
    )
}

/// Computes [`normalised_residual`].
pub(crate) fn normalise_residual(y: &Vec<i32>, energy: i32, gain: i32) -> (x: Vec<i16>)
    requires
        energy > 0,
        energy == energy_of(as_ints(y@)),
        forall|j: int| 0 <= j < y@.len() ==> -MAX_PULSES <= #[trigger] y@[j] <= MAX_PULSES,
    ensures
        x@ == normalised_residual(as_ints(y@), gain),
{
    let k: i32 = celt_ilog2(energy) / 2;
    let t: i32 = vshr32(energy, 2 * (k - 7));
    let g: i16 = extract16(mult32_32_q31(celt_rsqrt_norm(t) as i32, gain));
    let mut x: Vec<i16> = Vec::new();
    for j in 0..y.len()
        invariant
            0 <= k <= 15,
            (g, k as int) == residual_gain(energy_of(as_ints(y@)), gain),
            x@.len() == j,
            forall|i: int| 0 <= i < j ==> x@[i] == normalised_residual(as_ints(y@), gain)[i],
    {
        x.push(extract16(pshr32(mult16_16(g, y[j] as i16), (k + 1) as u32)));
        assert(as_ints(y@)[j as int] == y@[j as int]);
    }
    assert(x@ =~= normalised_residual(as_ints(y@), gain));
    x
}

/// Cosine of a Q15 quarter-turn angle.
spec fn quarter_cos(x: i16) -> i16 {
    let x2 = mult16_16_p15(x, x);
    let inner = mult16_16_p15(x2, 8277i16.wrapping_add(mult16_16_p15((-626) as i16, x2)));
    let sum = 32767i16.wrapping_sub(x2) as i32 + mult16_16_p15(
        x2,
        ((-7651) as i16).wrapping_add(inner),
    ) as i32;
    1i16.wrapping_add(if sum < 32766 { sum as i16 } else { 32766 })
}

/// Cosine of a Q15 quarter-turn angle between zero and one.
pub closed spec fn cos_norm(x: i16) -> i16 {
    if x == 0 {
        32767
    } else {
        quarter_cos(x)
    }
}

/// Computes [`cos_norm`].
fn celt_cos_norm(x: i16) -> (c: i16)
    ensures
        c == cos_norm(x),
{
    if x == 0 {
        return 32767;
    }
    let x2: i16 = mult16_16_p15(x, x);
    let inner: i16 = mult16_16_p15(x2, 8277i16.wrapping_add(mult16_16_p15(-626, x2)));
    let sum: i32 = 32767i16.wrapping_sub(x2) as i32 + mult16_16_p15(
        x2,
        (-7651i16).wrapping_add(inner),
    ) as i32;
    1i16.wrapping_add(if sum < 32766 { sum as i16 } else { 32766 })
}

/// One output of a Givens rotation.
#[verifier::allow_in_spec]
pub fn rotate(a: i16, u: i16, b: i16, v: i16) -> i16
    returns
        extract16(pshr32(mult16_16(a, u).wrapping_add(mult16_16(b, v)), 15)),
{
    extract16(pshr32(mult16_16(a, u).wrapping_add(mult16_16(b, v)), 15))
}

/// The coefficients at `i` and `i + stride` rotated by the angle with cosine
/// `c` and sine `s`.
pub open spec fn rotated_pair(x: Seq<i16>, i: int, stride: int, c: i16, s: i16) -> Seq<i16> {
    let x1 = x[i];
    let x2 = x[i + stride];
    x.update(i + stride, rotate(c, x2, s, x1)).update(i, rotate(c, x1, 0i16.wrapping_sub(s), x2))
}

/// Rotations applied to the pairs starting at `from`, `from + 1`, up to
/// `until`.
pub open spec fn rotated_up(
    x: Seq<i16>,
    from: int,
    until: int,
    stride: int,
    c: i16,
    s: i16,
) -> Seq<i16>
    decreases until - from,
{
    if from >= until {
        x
    } else {
        rotated_up(rotated_pair(x, from, stride, c, s), from + 1, until, stride, c, s)
    }
}

/// Rotations applied to the pairs starting at `from - 1`, `from - 2`, down to
/// `until`.
pub open spec fn rotated_down(
    x: Seq<i16>,
    from: int,
    until: int,
    stride: int,
    c: i16,
    s: i16,
) -> Seq<i16>
    decreases from - until,
{
    if from <= until {
        x
    } else {
        rotated_down(rotated_pair(x, from - 1, stride, c, s), from - 1, until, stride, c, s)
    }
}

/// One forward and one backward pass over the block `[at, at + len)`.
pub open spec fn rotated_block(
    x: Seq<i16>,
    at: int,
    len: int,
    stride: int,
    c: i16,
    s: i16,
) -> Seq<i16> {
    rotated_down(
        rotated_up(x, at, at + len - stride, stride, c, s),
        at + len - 2 * stride,
        at,
        stride,
        c,
        s,
    )
}

/// Computes [`rotated_block`].
fn exp_rotation1(x: &mut Vec<i16>, at: usize, len: usize, stride: usize, c: i16, s: i16)
    requires
        at + len <= old(x)@.len(),
        1 <= stride,
    ensures
        final(x)@ == rotated_block(old(x)@, at as int, len as int, stride as int, c, s),
        final(x)@.len() == old(x)@.len(),
{
    let ms: i16 = 0i16.wrapping_sub(s);
    assert(x@.len() == x.len());
    if len > stride {
        let until: usize = at + (len - stride);
        let mut i: usize = at;
        while i < until
            invariant
                at <= i <= until,
                until == at + len - stride,
                1 <= stride < len,
                at + len <= x@.len() <= usize::MAX,
                x@.len() == old(x)@.len(),
                ms == 0i16.wrapping_sub(s),
                rotated_up(x@, i as int, until as int, stride as int, c, s) == rotated_up(
                    old(x)@,
                    at as int,
                    at + len - stride,
                    stride as int,
                    c,
                    s,
                ),
            decreases until - i,
        {
            let x1: i16 = x[i];
            let x2: i16 = x[i + stride];
            x.set(i + stride, rotate(c, x2, s, x1));
            x.set(i, rotate(c, x1, ms, x2));
            i = i + 1;
        }
        if len - stride > stride {
            let ghost middle = x@;
            let mut i: usize = at + (len - stride - stride);
            while i > at
                invariant
                    at <= i <= at + len - 2 * stride,
                    1 <= stride < len,
                    at + len <= x@.len() <= usize::MAX,
                    x@.len() == old(x)@.len(),
                    ms == 0i16.wrapping_sub(s),
                    rotated_down(x@, i as int, at as int, stride as int, c, s) == rotated_down(
                        middle,
                        at + len - 2 * stride,
                        at as int,
                        stride as int,
                        c,
                        s,
                    ),
                decreases i,
            {
                i = i - 1;
                let x1: i16 = x[i];
                let x2: i16 = x[i + stride];
                x.set(i + stride, rotate(c, x2, s, x1));
                x.set(i, rotate(c, x1, ms, x2));
            }
        }
    }
}

/// Distance of the second rotation pass: the rounded square root of
/// `len / stride`.
pub open spec fn second_stride(len: int, stride: int, from: int) -> int
    decreases len - from,
{
    if from < 1 || from >= len || (from * from + from) * stride + stride / 4 >= len {
        from
    } else {
        second_stride(len, stride, from + 1)
    }
}

/// Cosine and sine of the spreading rotation.
pub open spec fn spread_angle(len: int, k: int, spread: int) -> (i16, i16) {
    let factor: int = if spread == 1 {
        15
    } else if spread == 2 {
        10
    } else {
        5
    };
    let gain = extract16(
        mult32_32_q31(mult16_16(32767, len as i16), rcp((len + factor * k) as i32)),
    );
    let theta = mult16_16_q15(gain, gain) >> 1u32;
    (cos_norm(theta), cos_norm(32767i16.wrapping_sub(theta)))
}

/// Blocks `from`, `from + 1`, up to `stride` of `len` coefficients rotated.
pub open spec fn blocks_rotated(
    x: Seq<i16>,
    from: int,
    blocks: int,
    len: int,
    stride2: int,
    c: i16,
    s: i16,
) -> Seq<i16>
    decreases blocks - from,
{
    if from >= blocks {
        x
    } else {
        let wide = if stride2 > 0 {
            rotated_block(x, from * len, len, stride2, s, c)
        } else {
            x
        };
        blocks_rotated(
            rotated_block(wide, from * len, len, 1, c, s),
            from + 1,
            blocks,
            len,
            stride2,
            c,
            s,
        )
    }
}

/// The rotation that spreads the pulses of a band over its coefficients.
pub open spec fn spread_rotated(x: Seq<i16>, blocks: int, k: int, spread: int) -> Seq<i16> {
    let len = x.len() as int;
    match rotation_of(len, blocks, k, spread) {
        Some((stride2, c, s)) => blocks_rotated(x, 0, blocks, len / blocks, stride2, c, s),
        None => x,
    }
}

/// Whether a rotation distance is below the rounded square root of
/// `len / blocks`.
fn stride_too_short(distance: usize, blocks: usize, len: usize) -> (short: bool)
    requires
        distance <= 0x7fff,
        blocks <= 0x7fff,
    ensures
        short == ((distance * distance + distance) * blocks + blocks as int / 4 < len),
{
    let d: u64 = distance as u64;
    let b: u64 = blocks as u64;
    assert(0 <= d * d <= 0x7fff * 0x7fff) by (nonlinear_arith)
        requires
            0 <= d <= 0x7fff,
    ;
    let area: u64 = d * d + d;
    assert(0 <= area * b <= 0x4000_0000 * 0x7fff) by (nonlinear_arith)
        requires
            0 <= area <= 0x4000_0000,
            0 <= b <= 0x7fff,
    ;
    area * b + b / 4 < len as u64
}

/// Distance of the second pass, cosine and sine of the spreading rotation of
/// `len` coefficients, if there is any.
pub open spec fn rotation_of(len: int, blocks: int, k: int, spread: int) -> Option<
    (int, i16, i16),
> {
    if 2 * k >= len || spread == 0 {
        None
    } else {
        let (c, s) = spread_angle(len, k, spread);
        Some((if len >= 8 * blocks { second_stride(len, blocks, 1) } else { 0 }, c, s))
    }
}

/// Computes [`rotation_of`].
fn find_rotation(len: usize, blocks: usize, k: i32, spread: i32) -> (r: Option<(usize, i16, i16)>)
    requires
        1 <= blocks <= 0x7fff,
        len <= 0x7fff,
        0 <= k <= MAX_PULSES,
    ensures
        match r {
            Some(t) => rotation_of(len as int, blocks as int, k as int, spread as int) == Some(
                (t.0 as int, t.1, t.2),
            ),
            None => rotation_of(len as int, blocks as int, k as int, spread as int) is None,
        },
{
    if 2 * k as i64 >= len as i64 || spread == SPREAD_NONE {
        return None;
    }
    let factor: i32 = if spread == SPREAD_LIGHT {
        15
    } else if spread == SPREAD_NORMAL {
        10
    } else {
        5
    };
    assert(0 <= factor * k <= 15 * 0x7fff) by (nonlinear_arith)
        requires
            0 <= factor <= 15,
            0 <= k <= 0x7fff,
    ;
    let gain: i16 = extract16(
        mult32_32_q31(mult16_16(32767, len as i16), celt_rcp(len as i32 + factor * k)),
    );
    let theta: i16 = mult16_16_q15(gain, gain) >> 1u32;
    let c: i16 = celt_cos_norm(theta);
    let s: i16 = celt_cos_norm(32767i16.wrapping_sub(theta));
    let mut stride2: usize = 0;
    if len >= 8 * blocks {
        stride2 = 1;
        while stride2 < len && stride_too_short(stride2, blocks, len)
            invariant
                1 <= stride2 <= len,
                1 <= blocks <= len <= 0x7fff,
                second_stride(len as int, blocks as int, stride2 as int) == second_stride(
                    len as int,
                    blocks as int,
                    1,
                ),
            decreases len - stride2,
        {
            stride2 = stride2 + 1;
        }
    }
    Some((stride2, c, s))
}

/// Applies [`spread_rotated`].
pub(crate) fn exp_rotation(x: &mut Vec<i16>, blocks: usize, k: i32, spread: i32)
    requires
        1 <= blocks <= 0x7fff,
        old(x)@.len() <= 0x7fff,
        0 <= k <= MAX_PULSES,
    ensures
        final(x)@ == spread_rotated(old(x)@, blocks as int, k as int, spread as int),
        final(x)@.len() == old(x)@.len(),
{
    let len: usize = x.len();
    let (stride2, c, s) = match find_rotation(len, blocks, k, spread) {
        Some(t) => t,
        None => {
            return;
        },
    };
    let part: usize = len / blocks;
    proof {
        vstd::arithmetic::div_mod::lemma_fundamental_div_mod(len as int, blocks as int);
        vstd::arithmetic::div_mod::lemma_mod_bound(len as int, blocks as int);
    }
    let mut i: usize = 0;
    while i < blocks
        invariant
            i <= blocks,
            x@.len() == len,
            len <= 0x7fff,
            blocks * part <= len,
            blocks_rotated(
                x@,
                i as int,
                blocks as int,
                part as int,
                stride2 as int,
                c,
                s,
            ) == blocks_rotated(
                old(x)@,
                0,
                blocks as int,
                part as int,
                stride2 as int,
                c,
                s,
            ),
        decreases blocks - i,
    {
        proof {
            assert(0 <= i * part && i * part + part <= blocks * part) by (nonlinear_arith)
                requires
                    0 <= i,
                    i + 1 <= blocks,
                    0 <= part,
            ;
        }
        if stride2 > 0 {
            exp_rotation1(x, i * part, part, stride2, s, c);
        }
        exp_rotation1(x, i * part, part, 1, c, s);
        i = i + 1;
    }
}

/// Blocks `from`, `from + 1`, up to `blocks` of `len` coefficients rotated the
/// other way round, in the opposite order.
pub open spec fn blocks_gathered(
    x: Seq<i16>,
    from: int,
    blocks: int,
    len: int,
    stride2: int,
    c: i16,
    s: i16,
) -> Seq<i16>
    decreases blocks - from,
{
    if from >= blocks {
        x
    } else {
        let narrow = rotated_block(x, from * len, len, 1, c, 0i16.wrapping_sub(s));
        let wide = if stride2 > 0 {
            rotated_block(narrow, from * len, len, stride2, s, 0i16.wrapping_sub(c))
        } else {
            narrow
        };
        blocks_gathered(wide, from + 1, blocks, len, stride2, c, s)
    }
}

/// The rotation that is applied before pulses are placed, so that
/// [`spread_rotated`] turns the coefficients back.
pub open spec fn spread_gathered(x: Seq<i16>, blocks: int, k: int, spread: int) -> Seq<i16> {
    let len = x.len() as int;
    match rotation_of(len, blocks, k, spread) {
        Some((stride2, c, s)) => blocks_gathered(x, 0, blocks, len / blocks, stride2, c, s),
        None => x,
    }
}

/// Rotations keep the number of coefficients.
proof fn lemma_rotated_len(x: Seq<i16>, from: int, until: int, stride: int, c: i16, s: i16)
    requires
        0 <= from,
        0 <= stride,
        from < until ==> until + stride <= x.len(),
    ensures
        rotated_up(x, from, until, stride, c, s).len() == x.len(),
        rotated_down(x, until, from, stride, c, s).len() == x.len(),
    decreases until - from,
{
    if from < until {
        lemma_rotated_len(rotated_pair(x, from, stride, c, s), from + 1, until, stride, c, s);
        lemma_rotated_len(rotated_pair(x, until - 1, stride, c, s), from, until - 1, stride, c, s);
    }
}

/// A pass over a block keeps the number of coefficients.
proof fn lemma_block_len(x: Seq<i16>, at: int, len: int, stride: int, c: i16, s: i16)
    requires
        0 <= at,
        0 <= stride,
        at + len <= x.len(),
    ensures
        rotated_block(x, at, len, stride, c, s).len() == x.len(),
{
    lemma_rotated_len(x, at, at + len - stride, stride, c, s);
    let up = rotated_up(x, at, at + len - stride, stride, c, s);
    lemma_rotated_len(up, at, at + len - 2 * stride, stride, c, s);
}

/// Gathering blocks keeps the number of coefficients.
proof fn lemma_blocks_gathered_len(
    x: Seq<i16>,
    from: int,
    blocks: int,
    len: int,
    stride2: int,
    c: i16,
    s: i16,
)
    requires
        0 <= from,
        0 <= len,
        blocks * len <= x.len(),
    ensures
        blocks_gathered(x, from, blocks, len, stride2, c, s).len() == x.len(),
    decreases blocks - from,
{
    if from < blocks {
        assert(0 <= from * len && from * len + len <= blocks * len) by (nonlinear_arith)
            requires
                0 <= from,
                from + 1 <= blocks,
                0 <= len,
        ;
        let narrow = rotated_block(x, from * len, len, 1, c, 0i16.wrapping_sub(s));
        lemma_block_len(x, from * len, len, 1, c, 0i16.wrapping_sub(s));
        if stride2 > 0 {
            lemma_block_len(narrow, from * len, len, stride2, s, 0i16.wrapping_sub(c));
        }
        let wide = if stride2 > 0 {
            rotated_block(narrow, from * len, len, stride2, s, 0i16.wrapping_sub(c))
        } else {
            narrow
        };
        lemma_blocks_gathered_len(wide, from + 1, blocks, len, stride2, c, s);
    }
}

/// Rotating blocks keeps the number of coefficients.
proof fn lemma_blocks_rotated_len(
    x: Seq<i16>,
    from: int,
    blocks: int,
    len: int,
    stride2: int,
    c: i16,
    s: i16,
)
    requires
        0 <= from,
        0 <= len,
        blocks * len <= x.len(),
    ensures
        blocks_rotated(x, from, blocks, len, stride2, c, s).len() == x.len(),
    decreases blocks - from,
{
    if from < blocks {
        assert(0 <= from * len && from * len + len <= blocks * len) by (nonlinear_arith)
            requires
                0 <= from,
                from + 1 <= blocks,
                0 <= len,
        ;
        if stride2 > 0 {
            lemma_block_len(x, from * len, len, stride2, s, c);
        }
        let wide = if stride2 > 0 {
            rotated_block(x, from * len, len, stride2, s, c)
        } else {
            x
        };
        lemma_block_len(wide, from * len, len, 1, c, s);
        let next = rotated_block(wide, from * len, len, 1, c, s);
        lemma_blocks_rotated_len(next, from + 1, blocks, len, stride2, c, s);
    }
}

/// The spreading rotation keeps the number of coefficients.
pub proof fn lemma_spread_len(x: Seq<i16>, blocks: int, k: int, spread: int)
    requires
        blocks >= 1,
    ensures
        spread_rotated(x, blocks, k, spread).len() == x.len(),
{
    let len = x.len() as int;
    vstd::arithmetic::div_mod::lemma_fundamental_div_mod(len, blocks);
    vstd::arithmetic::div_mod::lemma_mod_bound(len, blocks);
    vstd::arithmetic::div_mod::lemma_div_pos_is_pos(len, blocks);
    if let Some((stride2, c, s)) = rotation_of(len, blocks, k, spread) {
        lemma_blocks_rotated_len(x, 0, blocks, len / blocks, stride2, c, s);
    }
}

/// The rotation keeps the number of coefficients.
pub proof fn lemma_gathered_len(x: Seq<i16>, blocks: int, k: int, spread: int)
    requires
        blocks >= 1,
    ensures
        spread_gathered(x, blocks, k, spread).len() == x.len(),
{
    let len = x.len() as int;
    vstd::arithmetic::div_mod::lemma_fundamental_div_mod(len, blocks);
    vstd::arithmetic::div_mod::lemma_mod_bound(len, blocks);
    vstd::arithmetic::div_mod::lemma_div_pos_is_pos(len, blocks);
    if let Some((stride2, c, s)) = rotation_of(len, blocks, k, spread) {
        lemma_blocks_gathered_len(x, 0, blocks, len / blocks, stride2, c, s);
    }
}

/// Applies [`spread_gathered`].
pub(crate) fn exp_rotation_back(x: &mut Vec<i16>, blocks: usize, k: i32, spread: i32)
    requires
        1 <= blocks <= 0x7fff,
        old(x)@.len() <= 0x7fff,
        0 <= k <= MAX_PULSES,
    ensures
        final(x)@ == spread_gathered(old(x)@, blocks as int, k as int, spread as int),
        final(x)@.len() == old(x)@.len(),
{
    let len: usize = x.len();
    let (stride2, c, s) = match find_rotation(len, blocks, k, spread) {
        Some(t) => t,
        None => {
            return;
        },
    };
    let ms: i16 = 0i16.wrapping_sub(s);
    let mc: i16 = 0i16.wrapping_sub(c);
    let part: usize = len / blocks;
    proof {
        vstd::arithmetic::div_mod::lemma_fundamental_div_mod(len as int, blocks as int);
        vstd::arithmetic::div_mod::lemma_mod_bound(len as int, blocks as int);
    }
    let mut i: usize = 0;
    while i < blocks
        invariant
            i <= blocks,
            x@.len() == len,
            len <= 0x7fff,
            blocks * part <= len,
            ms == 0i16.wrapping_sub(s),
            mc == 0i16.wrapping_sub(c),
            blocks_gathered(
                x@,
                i as int,
                blocks as int,
                part as int,
                stride2 as int,
                c,
                s,
            ) == blocks_gathered(
                old(x)@,
                0,
                blocks as int,
                part as int,
                stride2 as int,
                c,
                s,
            ),
        decreases blocks - i,
    {
        proof {
            assert(0 <= i * part && i * part + part <= blocks * part) by (nonlinear_arith)
                requires
                    0 <= i,
                    i + 1 <= blocks,
                    0 <= part,
            ;
        }
        exp_rotation1(x, i * part, part, 1, c, ms);
        if stride2 > 0 {
            exp_rotation1(x, i * part, part, stride2, s, mc);
        }
        i = i + 1;
    }
}

/// Whether any of the entries `[at, at + len)` is non-zero.
pub open spec fn any_pulse(y: Seq<int>, at: int, len: int) -> bool {
    exists|j: int| at <= j < at + len && #[trigger] y[j] != 0
}

/// One bit per block, set when the block holds a pulse.
pub open spec fn pulse_mask(y: Seq<int>, blocks: int, upto: int) -> u32
    decreases upto,
{
    if upto <= 0 {
        0
    } else {
        let part = y.len() as int / blocks;
        pulse_mask(y, blocks, upto - 1) | ((if any_pulse(y, (upto - 1) * part, part) {
            1u32
        } else {
            0u32
        }) << ((upto - 1) as u32))
    }
}

/// Collapse mask of a decoded vector.
pub open spec fn collapse_mask(y: Seq<int>, blocks: int) -> u32 {
    if blocks <= 1 {
        1
    } else {
        pulse_mask(y, blocks, blocks)
    }
}

/// Computes [`collapse_mask`].
pub fn extract_collapse_mask(y: &Vec<i32>, blocks: usize) -> (mask: u32)
    requires
        1 <= blocks <= 32,
    ensures
        mask == collapse_mask(as_ints(y@), blocks as int),
{
    if blocks <= 1 {
        return 1;
    }
    let part: usize = y.len() / blocks;
    proof {
        vstd::arithmetic::div_mod::lemma_fundamental_div_mod(y@.len() as int, blocks as int);
        vstd::arithmetic::div_mod::lemma_mod_bound(y@.len() as int, blocks as int);
    }
    let mut mask: u32 = 0;
    let mut i: usize = 0;
    let ghost ints = as_ints(y@);
    while i < blocks
        invariant
            i <= blocks <= 32,
            ints == as_ints(y@),
            part == ints.len() as int / blocks as int,
            blocks * part <= y@.len() <= usize::MAX,
            mask == pulse_mask(ints, blocks as int, i as int),
        decreases blocks - i,
    {
        proof {
            assert(0 <= i * part && i * part + part <= blocks * part) by (nonlinear_arith)
                requires
                    0 <= i,
                    i + 1 <= blocks,
                    0 <= part,
            ;
        }
        let at: usize = i * part;
        let mut found: bool = false;
        let mut j: usize = at;
        while j < at + part
            invariant
                at <= j <= at + part <= y@.len() <= usize::MAX,
                ints == as_ints(y@),
                found == exists|q: int| at <= q < j && #[trigger] ints[q] != 0,
            decreases at + part - j,
        {
            if y[j] != 0 {
                assert(ints[j as int] != 0);
                found = true;
            }
            j = j + 1;
        }
        assert(found == any_pulse(ints, i * part, part as int));
        mask = mask | ((if found { 1u32 } else { 0u32 }) << (i as u32));
        i = i + 1;
    }
    mask
}

/// Reconstruction of a coded vector: the coefficients and the collapse mask.
pub open spec fn unquantised(
    y: Seq<int>,
    k: int,
    spread: int,
    blocks: int,
    gain: i32,
) -> (Seq<i16>, u32) {
    (
        spread_rotated(normalised_residual(y, gain), blocks, k, spread),
        collapse_mask(y, blocks),
    )
}

/// Decodes a vector of `n` coefficients and `k` pulses.
pub open spec fn pvq_decoded<'a>(
    dec: EcDec<'a>,
    n: nat,
    k: nat,
    spread: int,
    blocks: int,
    gain: i32,
) -> (EcDec<'a>, Seq<i16>, u32) {
    let (d, index) = dec.uint(pvq_v(n, k) as u32);
    let (x, mask) = unquantised(pvq_vector(n, k, index as nat), k as int, spread, blocks, gain);
    (d, x, mask)
}

/// At least two vectors exist as soon as there is a pulse to place.
pub proof fn lemma_v_at_least_two(n: nat, k: nat)
    requires
        n >= 1,
        k >= 1,
    ensures
        pvq_v(n, k) >= 2,
{
    lemma_u_grows_k(n, 1, k);
    lemma_u_grows_k(n, 1, k + 1);
    lemma_u_grows_n(1, n, 1);
    assert(pvq_u(1, 1) == 1) by {
        assert(pvq_u(0, 1) == 0);
        assert(pvq_u(1, 0) == 0);
        assert(pvq_u(0, 0) == 1);
    }
}

/// Decodes a pulse vector and reconstructs its coefficients.
pub fn alg_unquant(dec: &mut EcDec<'_>, n: usize, k: i32, spread: i32, blocks: usize, gain: i32)
    -> (r: (Vec<i16>, u32))
    requires
        old(dec).wf(),
        1 <= n <= 0x7fff,
        1 <= k <= MAX_PULSES,
        1 <= blocks <= 32,
        pvq_fits(n as nat, k as nat),
    ensures
        (*final(dec), r.0@, r.1) == pvq_decoded(
            *old(dec),
            n as nat,
            k as nat,
            spread as int,
            blocks as int,
            gain,
        ),
        r.0@.len() == n,
        final(dec).wf(),
        final(dec).buf@ == old(dec).buf@,
{
    let counts: Vec<u32> = match count_row(n, k as usize) {
        Some(row) => row,
        None => Vec::new(),
    };
    proof {
        lemma_v_at_least_two(n as nat, k as nat);
    }
    let total: u32 = counts[k as usize] + counts[k as usize + 1];
    let index: u32 = dec.dec_uint(total);
    let (y, energy) = decode_vector(n, k as usize, index, counts);
    proof {
        law_pulse_count(n as nat, k as nat, index as nat);
        lemma_energy_bound(pvq_vector(n as nat, k as nat, index as nat));
    }
    let mut x: Vec<i16> = normalise_residual(&y, energy, gain);
    exp_rotation(&mut x, blocks, k, spread);
    let mask: u32 = extract_collapse_mask(&y, blocks);
    (x, mask)
}

/// Sum of squares of the coefficients plus one.
pub open spec fn norm_energy(x: Seq<i16>) -> int
    decreases x.len(),
{
    if x.len() == 0 {
        1
    } else {
        norm_energy(x.drop_last()) + x.last() * x.last()
    }
}

/// Coefficients scaled to norm `gain`.
pub open spec fn renormalised(x: Seq<i16>, gain: i32) -> Seq<i16> {
    let e = norm_energy(x);
    let k = ilog2(e) / 2;
    let t: int = if k >= 7 {
        e / vstd::arithmetic::power2::pow2((2 * (k - 7)) as nat) as int
    } else {
        e * vstd::arithmetic::power2::pow2((2 * (7 - k)) as nat)
    };
    let g = extract16(mult32_32_q31(rsqrt_norm(t as i32) as i32, gain));
    Seq::new(x.len(), |j: int| extract16(pshr32(mult16_16(g, x[j]), (k + 1) as u32)))
}

/// The energy of a vector is positive and bounded by its length.
proof fn lemma_norm_energy(x: Seq<i16>)
    ensures
        1 <= norm_energy(x) <= 1 + x.len() * 0x4000_0000,
    decreases x.len(),
{
    if x.len() > 0 {
        lemma_norm_energy(x.drop_last());
        let v = x.last() as int;
        assert(0 <= v * v <= 0x4000_0000) by (nonlinear_arith)
            requires
                -32768 <= v <= 32767,
        ;
    }
}

/// Computes [`norm_energy`].
pub fn find_norm_energy(x: &Vec<i16>) -> (e: u64)
    requires
        x@.len() <= 0x7fff,
    ensures
        e == norm_energy(x@),
        1 <= e <= 1 + 0x7fff * 0x4000_0000,
{
    let len: usize = x.len();
    let mut e: u64 = 1;
    assert(x@.take(0) =~= Seq::<i16>::empty());
    for j in 0..len
        invariant
            len == x@.len(),
            len <= 0x7fff,
            e == norm_energy(x@.take(j as int)),
    {
        let v: i64 = x[j] as i64;
        proof {
            lemma_norm_energy(x@.take(j as int));
            assert(x@.take(j + 1).drop_last() =~= x@.take(j as int));
            assert(0 <= v * v <= 0x4000_0000) by (nonlinear_arith)
                requires
                    -32768 <= v <= 32767,
            ;
        }
        e = e + (v * v) as u64;
    }
    assert(x@.take(len as int) =~= x@);
    proof {
        lemma_norm_energy(x@);
    }
    e
}

/// Scales the coefficients to norm `gain`.
pub fn renormalise_vector(x: &mut Vec<i16>, gain: i32)
    requires
        old(x)@.len() <= 0x7fff,
    ensures
        final(x)@ == renormalised(old(x)@, gain),
        final(x)@.len() == old(x)@.len(),
{
    let len: usize = x.len();
    let e: u64 = find_norm_energy(x);
    proof {
        vstd::arithmetic::power2::lemma2_to64();
        vstd::arithmetic::power2::lemma2_to64_rest();
        lemma_bit_length(e as nat);
        lemma_bit_length_bound(e as nat, 46);
    }
    let k: u32 = (ilog64(e) - 1) / 2;
    let t: i32 = if k >= 7 {
        proof {
            vstd::bits::lemma_u64_shr_is_div(e, (2 * (k - 7)) as u64);
        }
        (e >> (2 * (k - 7)) as u64) as i32
    } else {
        proof {
            lemma_small_energy(e, k);
        }
        (e << (2 * (7 - k)) as u64) as i32
    };
    let g: i16 = extract16(mult32_32_q31(celt_rsqrt_norm(t) as i32, gain));
    let ghost source = x@;
    for j in 0..len
        invariant
            len == x@.len(),
            source.len() == len,
            k <= 22,
            forall|i: int|
                0 <= i < len ==> #[trigger] x@[i] == (if i < j {
                    extract16(pshr32(mult16_16(g, source[i]), (k + 1) as u32))
                } else {
                    source[i]
                }),
    {
        let v: i16 = x[j];
        x.set(j, extract16(pshr32(mult16_16(g, v), k + 1)));
    }
    assert(x@ =~= renormalised(old(x)@, gain));
}

/// Small energies are shifted up without losing bits.
proof fn lemma_small_energy(e: u64, k: u32)
    requires
        e >= 1,
        k < 7,
        k == (bit_length(e as nat) - 1) / 2,
    ensures
        (e << (2 * (7 - k)) as u64) as int == e * vstd::arithmetic::power2::pow2(
            (2 * (7 - k)) as nat,
        ),
        e << ((2 * (7 - k)) as u64) < 0x10000,
{
    vstd::arithmetic::power2::lemma2_to64();
    lemma_bit_length(e as nat);
    let l = bit_length(e as nat);
    let s = (2 * (7 - k)) as nat;
    vstd::arithmetic::power2::lemma_pow2_adds(l, s);
    if l + s < 16 {
        vstd::arithmetic::power2::lemma_pow2_strictly_increases(l + s, 16);
    }
    let p = vstd::arithmetic::power2::pow2(s) as int;
    let q = vstd::arithmetic::power2::pow2(l) as int;
    vstd::arithmetic::power2::lemma_pow2_pos(s);
    assert(e * p < q * p) by (nonlinear_arith)
        requires
            e < q,
            p > 0,
    ;
    vstd::bits::lemma_u64_shl_is_mul(e, s as u64);
}

} // verus!
