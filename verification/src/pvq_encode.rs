//! Pyramid vector quantiser, encoding side: the search for the pulses that
//! come closest to a band, and the number of the vector they form.

use vstd::prelude::*;
use crate::fixed::{extract16, mult16_16, mult16_16_q15, mult32_32};
use crate::math::{celt_ilog2, celt_rcp, ilog2, rcp};
use crate::pvq::{
    as_ints, count_row, energy_of, exp_rotation, exp_rotation_back, extract_collapse_mask,
    lemma_energy_bound, lemma_gathered_len, lemma_pulses_left, lemma_tail_index, lemma_u_grows_k, lemma_v_at_least_two,
    magnitude_sum, normalise_residual, previous_row, pulses_left, pvq_decoded, pvq_fits, pvq_u,
    pvq_v, pvq_vector, spread_gathered, unquantised, MAX_PULSES,
};
use crate::range_decoder::EcDec;
use crate::range_encoder::{EcEnc, EncState};

verus! {

/// Number of a vector among those with as many coefficients and pulses.
pub open spec fn pvq_index(y: Seq<int>) -> nat
    decreases y.len(),
{
    if y.len() == 0 {
        0
    } else {
        let tail = y.skip(1);
        let index = pvq_u(y.len(), magnitude_sum(tail) as nat) + pvq_index(tail);
        if y[0] < 0 {
            index + pvq_u(y.len(), (magnitude_sum(y) + 1) as nat)
        } else {
            index
        }
    }
}

/// [`pulses_left`] is the only count with the index between it and the next.
proof fn lemma_pulses_left_is(n: nat, k: nat, i: nat, left: nat)
    requires
        n >= 1,
        left <= k,
        pvq_u(n, left) <= i < pvq_u(n, left + 1),
    ensures
        pulses_left(n, k, i) == left,
{
    lemma_u_grows_k(n, left + 1, k + 1);
    lemma_pulses_left(n, k, i);
    let found = pulses_left(n, k, i);
    if found < left {
        lemma_u_grows_k(n, found + 1, left);
    } else if found > left {
        lemma_u_grows_k(n, left + 1, found);
    }
}

/// The decoder finds back the vector that an index was computed from.
pub proof fn law_index_names_the_vector(y: Seq<int>)
    ensures
        magnitude_sum(y) >= 0,
        pvq_index(y) < pvq_v(y.len(), magnitude_sum(y) as nat),
        pvq_vector(y.len(), magnitude_sum(y) as nat, pvq_index(y)) == y,
    decreases y.len(),
{
    lemma_energy_bound(y);
    if y.len() == 0 {
        assert(pvq_u(0, 0) == 1);
        assert(pvq_vector(0, 0, 0) =~= y);
    } else {
        let n = y.len();
        let tail = y.skip(1);
        law_index_names_the_vector(tail);
        let k = magnitude_sum(y) as nat;
        let left = magnitude_sum(tail) as nat;
        let rest = pvq_u(n, left) + pvq_index(tail);
        assert(pvq_u(n, left + 1) == pvq_u((n - 1) as nat, left + 1) + pvq_u(n, left) + pvq_u(
            (n - 1) as nat,
            left,
        ));
        lemma_u_grows_k(n, left + 1, k + 1);
        if y[0] < 0 {
            lemma_u_grows_k(n, left + 1, k);
        }
        lemma_pulses_left_is(n, k, rest, left);
        assert(seq![y[0]] + tail =~= y);
    }
}

/// Every index names a vector of its own.
pub proof fn law_vectors_keep_their_index(n: nat, k: nat, i: nat)
    requires
        i < pvq_v(n, k),
    ensures
        pvq_index(pvq_vector(n, k, i)) == i,
    decreases n,
{
    crate::pvq::law_pulse_count(n, k, i);
    if n == 0 {
        assert(pvq_u(0, k + 1) == 0);
        if k > 0 {
            assert(pvq_u(0, k) == 0);
        }
    } else {
        lemma_tail_index(n, k, i);
        let p = pvq_u(n, k + 1);
        let rest = if i >= p { (i - p) as nat } else { i };
        let left = pulses_left(n, k, rest);
        let inner = (rest - pvq_u(n, left)) as nat;
        let tail = pvq_vector((n - 1) as nat, left, inner);
        law_vectors_keep_their_index((n - 1) as nat, left, inner);
        crate::pvq::law_pulse_count((n - 1) as nat, left, inner);
        let y = pvq_vector(n, k, i);
        assert(y.skip(1) =~= tail);
        if i >= p {
            // A negative first entry holds at least one pulse.
            if left == k {
                assert(pvq_u(n, k) <= rest);
                assert(i >= p + pvq_u(n, k));
            }
        }
    }
}

/// Numbers a vector of `k` pulses.
fn vector_index(y: &Vec<i32>, k: usize, counts: Vec<u32>) -> (index: u32)
    requires
        1 <= y@.len(),
        k <= MAX_PULSES,
        magnitude_sum(as_ints(y@)) == k,
        pvq_fits(y@.len(), k as nat),
        counts@.len() == k + 2,
        forall|j: int| 0 <= j < k + 2 ==> counts@[j] == pvq_u(y@.len(), j as nat),
    ensures
        index == pvq_index(as_ints(y@)),
{
    let n: usize = y.len();
    let mut row: Vec<u32> = counts;
    let mut index: u32 = 0;
    let mut at: usize = 0;
    let mut left: usize = k;
    let ghost whole = as_ints(y@);
    proof {
        law_index_names_the_vector(whole);
        assert(whole.skip(0) =~= whole);
    }
    while at < n
        invariant
            n == y@.len(),
            at <= n,
            left <= k <= MAX_PULSES,
            whole == as_ints(y@),
            pvq_index(whole) <= u32::MAX,
            left == magnitude_sum(whole.skip(at as int)),
            index + pvq_index(whole.skip(at as int)) == pvq_index(whole),
            row@.len() == k + 2,
            forall|j: int| 0 <= j < k + 2 ==> row@[j] == pvq_u((n - at) as nat, j as nat),
        decreases n - at,
    {
        let ghost here = whole.skip(at as int);
        proof {
            assert(here.skip(1) =~= whole.skip(at + 1));
            assert(here[0] == y@[at as int]);
            lemma_energy_bound(here.skip(1));
        }
        let v: i32 = y[at];
        let held: usize = left;
        let magnitude: i32 = if v < 0 { -v } else { v };
        left = left - magnitude as usize;
        if v < 0 {
            index = index + row[held + 1];
        }
        index = index + row[left];
        previous_row(&mut row, n - at);
        at = at + 1;
    }
    index
}

/// State of the search for pulses.
#[verifier::ext_equal]
pub struct Search {
    /// Pulses placed so far, all of them positive.
    pub y: Seq<int>,
    /// Inner product with the band.
    pub xy: i32,
    /// Energy of the pulses.
    pub yy: i16,
    /// Pulses still to be placed.
    pub left: int,
}

/// Pulses while they are being placed.
struct Searcher {
    y: Vec<i32>,
    xy: i32,
    yy: i16,
    left: i32,
}

impl View for Searcher {
    type V = Search;

    closed spec fn view(&self) -> Search {
        Search { y: as_ints(self.y@), xy: self.xy, yy: self.yy, left: self.left as int }
    }
}

impl Searcher {
    /// All `k` pulses are placed or left, none of them negative.
    spec fn wf(self, n: int, k: int) -> bool {
        &&& self.y@.len() == n
        &&& 0 <= self.left <= k
        &&& magnitude_sum(as_ints(self.y@)) + self.left == k
        &&& forall|j: int| 0 <= j < n ==> 0 <= #[trigger] self.y@[j] <= k
    }
}

/// Magnitude of a coefficient; the lowest one stays as it is.
#[verifier::allow_in_spec]
pub fn magnitude16(v: i16) -> i16
    returns
        if v < 0 { 0i16.wrapping_sub(v) } else { v },
{
    if v < 0 {
        0i16.wrapping_sub(v)
    } else {
        v
    }
}

/// Q16 product of a 16-bit and a 32-bit word.
#[verifier::allow_in_spec]
pub fn mult16_32_q16(a: i16, b: i32) -> i32
    returns
        (mult32_32(a as i32, b) >> 16u32) as i32,
{
    (mult32_32(a as i32, b) >> 16u32) as i32
}

/// Sum of the coefficients.
pub open spec fn total16(x: Seq<i16>) -> i32
    decreases x.len(),
{
    if x.len() == 0 {
        0
    } else {
        total16(x.drop_last()).wrapping_add(x.last() as i32)
    }
}

/// Pulses placed at `j` and behind it in proportion to the coefficients, as far
/// as there are any left.
pub open spec fn projected(x: Seq<i16>, scale: i16, s: Search, j: int) -> Search
    decreases x.len() - j,
{
    if j >= x.len() {
        s
    } else {
        let wish = mult16_16_q15(x[j], scale) as int;
        let v = if wish < 0 {
            0
        } else if wish > s.left {
            s.left
        } else {
            wish
        };
        projected(
            x,
            scale,
            Search {
                y: s.y.update(j, v),
                xy: s.xy.wrapping_add(mult16_16(x[j], v as i16)),
                yy: s.yy.wrapping_add(extract16(mult16_16(v as i16, v as i16))),
                left: s.left - v,
            },
            j + 1,
        )
    }
}

/// A band without energy worth mentioning counts as one with a single
/// coefficient.
pub open spec fn searchable(x: Seq<i16>, k: int) -> (Seq<i16>, i32) {
    if total16(x) <= k {
        (Seq::new(x.len(), |j: int| if j == 0 { 16384i16 } else { 0i16 }), 16384i32)
    } else {
        (x, total16(x))
    }
}

/// The magnitudes that are searched, and the pulses placed at first: most of
/// them where there are many.
pub open spec fn search_begun(x: Seq<i16>, k: int) -> (Seq<i16>, Search) {
    let none = Search { y: Seq::new(x.len(), |j: int| 0int), xy: 0, yy: 0, left: k };
    if k > x.len() as int / 2 {
        let (target, sum) = searchable(x, k);
        (target, projected(target, extract16(mult16_32_q16(k as i16, rcp(sum))), none, 0))
    } else {
        (x, none)
    }
}

/// What is left is piled on the first coefficient where the projection went
/// wrong.
pub open spec fn piled(s: Search) -> Search {
    if s.left > s.y.len() + 3 {
        Search { y: s.y.update(0, s.y[0] + s.left), left: 0, ..s }
    } else {
        s
    }
}

/// Squared inner product and energy with one more pulse at `at`.
pub open spec fn score(x: Seq<i16>, s: Search, shift: u32, at: int) -> (i16, i16) {
    let r = extract16(s.xy.wrapping_add(x[at] as i32) >> shift);
    (mult16_16_q15(r, r), s.yy.wrapping_add(1).wrapping_add((2 * s.y[at]) as i16))
}

/// Best position for one more pulse: `best` or one from `j` on.
pub open spec fn best_position(x: Seq<i16>, s: Search, shift: u32, j: int, best: int) -> int
    decreases x.len() - j,
{
    if j >= x.len() {
        best
    } else {
        let (num, den) = score(x, s, shift, j);
        let (best_num, best_den) = score(x, s, shift, best);
        best_position(
            x,
            s,
            shift,
            j + 1,
            if mult16_16(best_den, num) > mult16_16(den, best_num) {
                j
            } else {
                best
            },
        )
    }
}

/// One more of `k` pulses at the best position.
pub open spec fn pulse_added(x: Seq<i16>, s: Search, k: int) -> Search {
    let at = best_position(x, s, (1 + ilog2(k - s.left + 1)) as u32, 1, 0);
    Search {
        y: s.y.update(at, s.y[at] + 1),
        xy: s.xy.wrapping_add(x[at] as i32),
        yy: s.yy.wrapping_add(1).wrapping_add((2 * s.y[at]) as i16),
        left: s.left - 1,
    }
}

/// All pulses placed, one after the other.
pub open spec fn filled(x: Seq<i16>, s: Search, k: int) -> Search
    decreases s.left,
{
    if s.left <= 0 {
        s
    } else {
        filled(x, pulse_added(x, s, k), k)
    }
}

/// The `k` pulses that are found for a band, with its signs.
pub open spec fn pulses_searched(x: Seq<i16>, k: int) -> Seq<int> {
    let (target, begun) = search_begun(x.map_values(|v: i16| magnitude16(v)), k);
    let y = filled(target, piled(begun), k).y;
    Seq::new(x.len(), |j: int| if x[j] < 0 { -y[j] } else { y[j] })
}

/// Changing one entry changes the sum by as much.
proof fn lemma_sum_update(y: Seq<int>, at: int, v: int)
    requires
        0 <= at < y.len(),
        y[at] >= 0,
        v >= 0,
    ensures
        magnitude_sum(y.update(at, v)) == magnitude_sum(y) - y[at] + v,
    decreases y.len(),
{
    let z = y.update(at, v);
    if at == 0 {
        assert(z.skip(1) =~= y.skip(1));
    } else {
        lemma_sum_update(y.skip(1), at - 1, v);
        assert(z.skip(1) =~= y.skip(1).update(at - 1, v));
    }
}

/// Zeros sum to zero.
proof fn lemma_sum_of_zeros(y: Seq<int>)
    requires
        forall|j: int| 0 <= j < y.len() ==> y[j] == 0,
    ensures
        magnitude_sum(y) == 0,
    decreases y.len(),
{
    if y.len() > 0 {
        lemma_sum_of_zeros(y.skip(1));
    }
}

/// Signs do not matter to the sum.
proof fn lemma_sum_ignores_signs(y: Seq<int>, z: Seq<int>)
    requires
        y.len() == z.len(),
        forall|j: int| 0 <= j < y.len() ==> z[j] == #[trigger] y[j] || z[j] == -y[j],
    ensures
        magnitude_sum(y) == magnitude_sum(z),
    decreases y.len(),
{
    if y.len() > 0 {
        assert forall|j: int| 0 <= j < y.skip(1).len() implies z.skip(1)[j] == #[trigger] y.skip(
            1,
        )[j] || z.skip(1)[j] == -y.skip(1)[j] by {
            assert(z[j + 1] == y[j + 1] || z[j + 1] == -y[j + 1]);
        }
        lemma_sum_ignores_signs(y.skip(1), z.skip(1));
        assert(z[0] == y[0] || z[0] == -y[0]);
    }
}

/// No entry is above the sum.
proof fn lemma_sum_bound(y: Seq<int>, at: int)
    requires
        0 <= at < y.len(),
    ensures
        y[at] <= magnitude_sum(y),
    decreases y.len(),
{
    lemma_energy_bound(y.skip(1));
    if at > 0 {
        lemma_sum_bound(y.skip(1), at - 1);
    }
}

impl Searcher {
    /// Sets one entry and counts its pulses.
    fn place(&mut self, at: usize, v: i32, Ghost(n): Ghost<int>, Ghost(k): Ghost<int>)
        requires
            old(self).wf(n, k),
            at < n,
            k <= MAX_PULSES,
            old(self).y@[at as int] <= v <= old(self).y@[at as int] + old(self).left,
        ensures
            final(self).wf(n, k),
            final(self)@ == (Search {
                y: old(self)@.y.update(at as int, v as int),
                left: old(self)@.left - (v - old(self).y@[at as int]),
                ..old(self)@
            }),
    {
        proof {
            lemma_sum_update(as_ints(self.y@), at as int, v as int);
            lemma_sum_bound(as_ints(self.y@), at as int);
            assert(as_ints(self.y@.update(at as int, v)) =~= as_ints(self.y@).update(
                at as int,
                v as int,
            ));
        }
        self.left = self.left - (v - self.y[at]);
        self.y.set(at, v);
        assert(self.y@ =~= old(self).y@.update(at as int, v));
    }

    /// Places pulses in proportion to the coefficients.
    fn project(&mut self, x: &Vec<i16>, scale: i16, Ghost(k): Ghost<int>)
        requires
            old(self).wf(x@.len() as int, k),
            k <= MAX_PULSES,
            forall|j: int| 0 <= j < x@.len() ==> old(self).y@[j] == 0,
        ensures
            final(self).wf(x@.len() as int, k),
            final(self)@ == projected(x@, scale, old(self)@, 0),
    {
        let ghost start = self@;
        for j in 0..x.len()
            invariant
                self.wf(x@.len() as int, k),
                k <= MAX_PULSES,
                forall|i: int| j <= i < x@.len() ==> self.y@[i] == 0,
                projected(x@, scale, self@, j as int) == projected(x@, scale, start, 0),
        {
            let wish: i32 = mult16_16_q15(x[j], scale) as i32;
            let v: i32 = if wish < 0 {
                0
            } else if wish > self.left {
                self.left
            } else {
                wish
            };
            let ghost before = self@;
            self.place(j, v, Ghost(x@.len() as int), Ghost(k));
            self.xy = self.xy.wrapping_add(mult16_16(x[j], v as i16));
            self.yy = self.yy.wrapping_add(extract16(mult16_16(v as i16, v as i16)));
            assert(forall|i: int| j + 1 <= i < x@.len() ==> self@.y[i] == before.y[i]);
            assert(forall|i: int| 0 <= i < x@.len() ==> self@.y[i] == #[trigger] self.y@[i]);
            assert(forall|i: int| j <= i < x@.len() ==> before.y[i] == 0);
        }
    }

    /// Computes [`score`].
    fn score(&self, x: &Vec<i16>, shift: u32, at: usize, Ghost(k): Ghost<int>) -> (r: (i16, i16))
        requires
            self.wf(x@.len() as int, k),
            k <= MAX_PULSES,
            at < x@.len(),
            shift <= 31,
        ensures
            r == score(x@, self@, shift, at as int),
    {
        let r: i16 = extract16(self.xy.wrapping_add(x[at] as i32) >> shift);
        (mult16_16_q15(r, r), self.yy.wrapping_add(1).wrapping_add((2 * self.y[at]) as i16))
    }

    /// Places one more pulse.
    fn add_pulse(&mut self, x: &Vec<i16>, Ghost(k): Ghost<int>, placed: i32)
        requires
            old(self).wf(x@.len() as int, k),
            k <= MAX_PULSES,
            x@.len() >= 1,
            old(self).left >= 1,
            placed == k - old(self).left,
        ensures
            final(self).wf(x@.len() as int, k),
            final(self)@ == pulse_added(x@, old(self)@, k),
    {
        let shift: u32 = (1 + celt_ilog2(placed + 1)) as u32;
        let mut best: usize = 0;
        let (first_num, first_den) = self.score(x, shift, 0, Ghost(k));
        let mut best_num: i16 = first_num;
        let mut best_den: i16 = first_den;
        let mut j: usize = 1;
        while j < x.len()
            invariant
                self.wf(x@.len() as int, k),
                k <= MAX_PULSES,
                shift <= 31,
                1 <= j <= x@.len(),
                best < x@.len(),
                (best_num, best_den) == score(x@, self@, shift, best as int),
                best_position(x@, self@, shift, j as int, best as int) == best_position(
                    x@,
                    self@,
                    shift,
                    1,
                    0,
                ),
            decreases x@.len() - j,
        {
            let (num, den) = self.score(x, shift, j, Ghost(k));
            if mult16_16(best_den, num) > mult16_16(den, best_num) {
                best = j;
                best_num = num;
                best_den = den;
            }
            j = j + 1;
        }
        let held: i32 = self.y[best];
        assert(self@.y[best as int] == held);
        self.place(best, held + 1, Ghost(x@.len() as int), Ghost(k));
        self.xy = self.xy.wrapping_add(x[best] as i32);
        self.yy = self.yy.wrapping_add(1).wrapping_add((2 * held) as i16);
    }
}

/// Computes [`total16`].
fn find_total(x: &Vec<i16>) -> (sum: i32)
    ensures
        sum == total16(x@),
{
    let mut sum: i32 = 0;
    assert(x@.take(0) =~= Seq::<i16>::empty());
    for j in 0..x.len()
        invariant
            sum == total16(x@.take(j as int)),
    {
        assert(x@.take(j + 1).drop_last() =~= x@.take(j as int));
        sum = sum.wrapping_add(x[j] as i32);
    }
    assert(x@.take(x@.len() as int) =~= x@);
    sum
}

/// Magnitudes of the coefficients.
fn magnitudes(x: &Vec<i16>) -> (m: Vec<i16>)
    ensures
        m@ == x@.map_values(|v: i16| magnitude16(v)),
{
    let mut m: Vec<i16> = Vec::new();
    for j in 0..x.len()
        invariant
            m@.len() == j,
            forall|i: int| 0 <= i < j ==> m@[i] == magnitude16(x@[i]),
    {
        m.push(magnitude16(x[j]));
    }
    assert(m@ =~= x@.map_values(|v: i16| magnitude16(v)));
    m
}

/// A single coefficient.
fn single_coefficient(n: usize) -> (x: Vec<i16>)
    ensures
        x@ == Seq::new(n as nat, |j: int| if j == 0 { 16384i16 } else { 0i16 }),
{
    let mut x: Vec<i16> = Vec::new();
    for j in 0..n
        invariant
            x@.len() == j,
            forall|i: int| 0 <= i < j ==> x@[i] == (if i == 0 { 16384i16 } else { 0i16 }),
    {
        x.push(if j == 0 { 16384 } else { 0 });
    }
    assert(x@ =~= Seq::new(n as nat, |j: int| if j == 0 { 16384i16 } else { 0i16 }));
    x
}

/// Finds the `k` pulses that come closest to a band.
pub fn op_pvq_search(x: &Vec<i16>, k: i32) -> (y: Vec<i32>)
    requires
        1 <= x@.len(),
        1 <= k <= MAX_PULSES,
    ensures
        as_ints(y@) == pulses_searched(x@, k as int),
        y@.len() == x@.len(),
        magnitude_sum(as_ints(y@)) == k,
        forall|j: int| 0 <= j < y@.len() ==> -k <= #[trigger] y@[j] <= k,
{
    let n: usize = x.len();
    let ghost size = x@.len() as int;
    let mut target: Vec<i16> = magnitudes(x);
    let ghost given = target@;
    let mut zeros: Vec<i32> = Vec::new();
    for j in 0..n
        invariant
            zeros@.len() == j,
            forall|i: int| 0 <= i < j ==> zeros@[i] == 0,
    {
        zeros.push(0);
    }
    proof {
        lemma_sum_of_zeros(as_ints(zeros@));
    }
    let mut s: Searcher = Searcher { y: zeros, xy: 0, yy: 0, left: k };
    assert(s@.y =~= Seq::new(given.len(), |j: int| 0int));
    if k as usize > n / 2 {
        let mut sum: i32 = find_total(&target);
        if sum <= k {
            target = single_coefficient(n);
            sum = 16384;
        }
        let scale: i16 = extract16(mult16_32_q16(k as i16, celt_rcp(sum)));
        s.project(&target, scale, Ghost(k as int));
    }
    let ghost begun = s@;
    assert((target@, begun) == search_begun(given, k as int));
    if s.left as usize > 3 && s.left as usize - 3 > n {
        let first: i32 = s.y[0];
        let left: i32 = s.left;
        assert(s@.y[0] == first);
        s.place(0, first + left, Ghost(size), Ghost(k as int));
    }
    assert(s@ == piled(begun));
    let ghost ready = s@;
    while s.left > 0
        invariant
            s.wf(size, k as int),
            target@.len() == size,
            size >= 1,
            1 <= k <= MAX_PULSES,
            filled(target@, s@, k as int) == filled(target@, ready, k as int),
        decreases s.left,
    {
        let placed: i32 = k - s.left;
        s.add_pulse(&target, Ghost(k as int), placed);
    }
    let ghost full = as_ints(s.y@);
    let mut y: Vec<i32> = Vec::new();
    for j in 0..n
        invariant
            n == x@.len(),
            size == n,
            s.wf(size, k as int),
            1 <= k <= MAX_PULSES,
            y@.len() == j,
            forall|i: int|
                0 <= i < j ==> #[trigger] y@[i] == (if x@[i] < 0 {
                    (-s.y@[i]) as i32
                } else {
                    s.y@[i]
                }),
            forall|i: int| 0 <= i < j ==> -k <= #[trigger] y@[i] <= k,
    {
        let v: i32 = s.y[j];
        y.push(if x[j] < 0 { -v } else { v });
    }
    proof {
        lemma_sum_ignores_signs(full, as_ints(y@));
        assert(as_ints(y@) =~= pulses_searched(x@, k as int));
    }
    y
}

/// What encoding a band with `k` pulses leaves behind: the coder, the
/// coefficients as the decoder will see them where they are wanted, and the
/// collapse mask.
pub open spec fn pvq_encoded(
    enc: EncState,
    x: Seq<i16>,
    k: int,
    spread: int,
    blocks: int,
    gain: i32,
    resynth: bool,
) -> (EncState, Seq<i16>, u32) {
    let y = pulses_searched(spread_gathered(x, blocks, k, spread), k);
    let (rebuilt, mask) = unquantised(y, k, spread, blocks, gain);
    (
        enc.uint_coded(pvq_index(y) as u32, pvq_v(x.len(), k as nat) as u32),
        if resynth {
            rebuilt
        } else {
            x
        },
        mask,
    )
}

/// What the search keeps at every step: no pulse is negative, and the placed
/// ones and those left are `k` together.
spec fn search_kept(s: Search, n: nat, k: int) -> bool {
    &&& s.y.len() == n
    &&& s.left >= 0
    &&& magnitude_sum(s.y) + s.left == k
    &&& forall|j: int| 0 <= j < n ==> #[trigger] s.y[j] >= 0
}

/// The projection keeps count of the pulses.
proof fn lemma_projected(x: Seq<i16>, scale: i16, s: Search, j: int, k: int)
    requires
        search_kept(s, x.len(), k),
        0 <= j,
        forall|i: int| j <= i < x.len() ==> #[trigger] s.y[i] == 0,
    ensures
        search_kept(projected(x, scale, s, j), x.len(), k),
    decreases x.len() - j,
{
    if j < x.len() {
        let wish = mult16_16_q15(x[j], scale) as int;
        let v = if wish < 0 {
            0
        } else if wish > s.left {
            s.left
        } else {
            wish
        };
        lemma_sum_update(s.y, j, v);
        lemma_projected(
            x,
            scale,
            Search {
                y: s.y.update(j, v),
                xy: s.xy.wrapping_add(mult16_16(x[j], v as i16)),
                yy: s.yy.wrapping_add(extract16(mult16_16(v as i16, v as i16))),
                left: s.left - v,
            },
            j + 1,
            k,
        );
    }
}

/// The best position is one of the band.
proof fn lemma_best_position(x: Seq<i16>, s: Search, shift: u32, j: int, best: int)
    requires
        0 <= best < x.len(),
        0 <= j,
    ensures
        0 <= best_position(x, s, shift, j, best) < x.len(),
    decreases x.len() - j,
{
    if j < x.len() {
        let (num, den) = score(x, s, shift, j);
        let (best_num, best_den) = score(x, s, shift, best);
        lemma_best_position(
            x,
            s,
            shift,
            j + 1,
            if mult16_16(best_den, num) > mult16_16(den, best_num) {
                j
            } else {
                best
            },
        );
    }
}

/// Filling places all pulses.
proof fn lemma_filled(x: Seq<i16>, s: Search, k: int)
    requires
        search_kept(s, x.len(), k),
        x.len() >= 1,
    ensures
        search_kept(filled(x, s, k), x.len(), k),
        filled(x, s, k).left == 0,
    decreases s.left,
{
    if s.left > 0 {
        let shift = (1 + ilog2(k - s.left + 1)) as u32;
        lemma_best_position(x, s, shift, 1, 0);
        let at = best_position(x, s, shift, 1, 0);
        lemma_sum_update(s.y, at, s.y[at] + 1);
        lemma_filled(x, pulse_added(x, s, k), k);
    }
}

/// The search places as many pulses as asked for, each with the sign of its
/// coefficient.
pub proof fn law_search_places_every_pulse(x: Seq<i16>, k: int)
    requires
        x.len() >= 1,
        k >= 0,
    ensures
        pulses_searched(x, k).len() == x.len(),
        magnitude_sum(pulses_searched(x, k)) == k,
        forall|j: int|
            0 <= j < x.len() ==> if x[j] < 0 {
                #[trigger] pulses_searched(x, k)[j] <= 0
            } else {
                pulses_searched(x, k)[j] >= 0
            },
{
    let m = x.map_values(|v: i16| magnitude16(v));
    let none = Search { y: Seq::new(m.len(), |j: int| 0int), xy: 0, yy: 0, left: k };
    lemma_sum_of_zeros(none.y);
    let (target, begun) = search_begun(m, k);
    if k > m.len() as int / 2 {
        let (_, sum) = searchable(m, k);
        lemma_projected(target, extract16(mult16_32_q16(k as i16, rcp(sum))), none, 0, k);
    }
    if begun.left > begun.y.len() + 3 {
        lemma_sum_update(begun.y, 0, begun.y[0] + begun.left);
    }
    lemma_filled(target, piled(begun), k);
    lemma_sum_ignores_signs(filled(target, piled(begun), k).y, pulses_searched(x, k));
}

/// A decoder that reads the number of the vector rebuilds exactly what the
/// encoder rebuilt, with the same collapse mask.
pub proof fn law_decoder_rebuilds_the_band(
    enc: EncState,
    dec: EcDec<'_>,
    x: Seq<i16>,
    k: int,
    spread: int,
    blocks: int,
    gain: i32,
)
    requires
        x.len() >= 1,
        k >= 0,
        blocks >= 1,
        pvq_fits(x.len(), k as nat),
        dec.uint(pvq_v(x.len(), k as nat) as u32).1 == pvq_index(
            pulses_searched(spread_gathered(x, blocks, k, spread), k),
        ),
    ensures
        pvq_decoded(dec, x.len(), k as nat, spread, blocks, gain).1 == pvq_encoded(
            enc,
            x,
            k,
            spread,
            blocks,
            gain,
            true,
        ).1,
        pvq_decoded(dec, x.len(), k as nat, spread, blocks, gain).2 == pvq_encoded(
            enc,
            x,
            k,
            spread,
            blocks,
            gain,
            true,
        ).2,
{
    let gathered = spread_gathered(x, blocks, k, spread);
    lemma_gathered_len(x, blocks, k, spread);
    law_search_places_every_pulse(gathered, k);
    law_index_names_the_vector(pulses_searched(gathered, k));
}

/// Computes [`energy_of`].
fn find_energy(y: &Vec<i32>, Ghost(k): Ghost<int>) -> (e: i32)
    requires
        magnitude_sum(as_ints(y@)) == k,
        k <= MAX_PULSES,
        forall|j: int| 0 <= j < y@.len() ==> -k <= #[trigger] y@[j] <= k,
    ensures
        e == energy_of(as_ints(y@)),
        e <= k * k,
{
    let ghost whole = as_ints(y@);
    let mut e: i32 = 0;
    proof {
        lemma_energy_bound(whole);
        assert(k * k <= 0x7fff * 0x7fff) by (nonlinear_arith)
            requires
                0 <= k <= 0x7fff,
        ;
        assert(whole.skip(0) =~= whole);
    }
    for j in 0..y.len()
        invariant
            whole == as_ints(y@),
            0 <= k <= MAX_PULSES,
            forall|i: int| 0 <= i < y@.len() ==> -k <= #[trigger] y@[i] <= k,
            0 <= e,
            e + energy_of(whole.skip(j as int)) == energy_of(whole),
            energy_of(whole) <= 0x7fff * 0x7fff,
    {
        let v: i32 = y[j];
        proof {
            assert(whole.skip(j as int).skip(1) =~= whole.skip(j + 1));
            lemma_energy_bound(whole.skip(j + 1));
            assert(0 <= v * v <= 0x7fff * 0x7fff) by (nonlinear_arith)
                requires
                    -0x7fff <= v <= 0x7fff,
            ;
        }
        e = e + v * v;
    }
    assert(energy_of(whole.skip(y@.len() as int)) == 0);
    e
}

/// Encodes a band with `k` pulses.
pub fn alg_quant(
    enc: &mut EcEnc,
    x: &mut Vec<i16>,
    k: i32,
    spread: i32,
    blocks: usize,
    gain: i32,
    resynth: bool,
) -> (mask: u32)
    requires
        old(enc)@.wf(),
        1 <= old(x)@.len() <= 0x7fff,
        1 <= k <= MAX_PULSES,
        1 <= blocks <= 32,
        pvq_fits(old(x)@.len(), k as nat),
    ensures
        (final(enc)@, final(x)@, mask) == pvq_encoded(
            old(enc)@,
            old(x)@,
            k as int,
            spread as int,
            blocks as int,
            gain,
            resynth,
        ),
        final(enc)@.wf(),
        final(x)@.len() == old(x)@.len(),
{
    let n: usize = x.len();
    let mut gathered: Vec<i16> = crate::mdct::copied(x.as_slice());
    exp_rotation_back(&mut gathered, blocks, k, spread);
    let y: Vec<i32> = op_pvq_search(&gathered, k);
    let ghost vector = as_ints(y@);
    let counts: Vec<u32> = match count_row(n, k as usize) {
        Some(row) => row,
        None => Vec::new(),
    };
    proof {
        law_index_names_the_vector(vector);
        lemma_v_at_least_two(n as nat, k as nat);
        lemma_energy_bound(vector);
    }
    let total: u32 = counts[k as usize] + counts[k as usize + 1];
    let index: u32 = vector_index(&y, k as usize, counts);
    enc.enc_uint(index, total);
    if resynth {
        let energy: i32 = find_energy(&y, Ghost(k as int));
        let mut rebuilt: Vec<i16> = normalise_residual(&y, energy, gain);
        exp_rotation(&mut rebuilt, blocks, k, spread);
        *x = rebuilt;
    }
    extract_collapse_mask(&y, blocks)
}

} // verus!
