//! A closed form of the number of pulse vectors.

use vstd::prelude::*;
use vstd::arithmetic::power2::{lemma2_to64, lemma_pow2_unfold, pow2};
use crate::pvq::{lemma_fits_fewer, lemma_u_grows_n, pulses_of, pvq_fits, pvq_u, vector_fits};

verus! {

/// Number of ways to choose `j` out of `n`.
pub open spec fn choices(n: nat, j: nat) -> nat
    decreases n,
{
    if j == 0 {
        1
    } else if n == 0 {
        0
    } else {
        choices((n - 1) as nat, j) + choices((n - 1) as nat, (j - 1) as nat)
    }
}

/// Vectors in which `j` of the coefficients behind the first one hold pulses.
pub open spec fn count_term(a: nat, b: nat, j: nat) -> nat {
    pow2(j) * (choices(a, j) * choices(b, j))
}

/// The sum of the first terms.
pub open spec fn count_sum(a: nat, b: nat, j: nat) -> nat
    decreases j,
{
    count_term(a, b, j) + if j == 0 {
        0
    } else {
        count_sum(a, b, (j - 1) as nat)
    }
}

/// More cannot be chosen than there are.
proof fn lemma_choices_end(n: nat, j: nat)
    requires
        j > n,
    ensures
        choices(n, j) == 0,
    decreases n,
{
    if n > 0 {
        lemma_choices_end((n - 1) as nat, j);
        lemma_choices_end((n - 1) as nat, (j - 1) as nat);
    }
}

/// One more choice.
proof fn lemma_choices_next(n: nat, j: nat)
    ensures
        (j + 1) * choices(n, j + 1) == (n - j) * choices(n, j),
    decreases n,
{
    if n == 0 {
        lemma_choices_end(0, j + 1);
        if j > 0 {
            lemma_choices_end(0, j);
            assert((n - j) * choices(n, j) == 0) by (nonlinear_arith)
                requires
                    choices(n, j) == 0,
            ;
        }
        assert((j + 1) * choices(n, j + 1) == 0) by (nonlinear_arith)
            requires
                choices(n, j + 1) == 0,
        ;
    } else {
        let m = (n - 1) as nat;
        lemma_choices_next(m, j);
        if j == 0 {
            assert(choices(m, 0) == 1 && choices(n, 0) == 1);
            assert((j + 1) * choices(n, j + 1) == (n - j) * choices(n, j)) by (nonlinear_arith)
                requires
                    j == 0,
                    m == n - 1,
                    choices(n, j) == 1,
                    choices(m, j) == 1,
                    choices(n, j + 1) == choices(m, j + 1) + choices(m, j),
                    (j + 1) * choices(m, j + 1) == (m - j) * choices(m, j),
            ;
        } else {
            let i = (j - 1) as nat;
            lemma_choices_next(m, i);
            let p = choices(m, j + 1) as int;
            let q = choices(m, j) as int;
            let r = choices(m, i) as int;
            assert((j + 1) * (p + q) == (n - j) * (q + r)) by (nonlinear_arith)
                requires
                    (j + 1) * p == (m - j) * q,
                    j * q == (m - i) * r,
                    m == n - 1,
                    i == j - 1,
            ;
        }
    }
}

/// The terms obey the recurrence of the counts, but for the last one.
proof fn lemma_sum_step(a: nat, b: nat, j: nat)
    ensures
        count_sum(a + 1, b + 1, j) + 2 * count_term(a, b, j) == count_sum(a, b + 1, j) + count_sum(
            a + 1,
            b,
            j,
        ) + count_sum(a, b, j),
    decreases j,
{
    lemma2_to64();
    if j == 0 {
        assert(choices(a, 0) == 1 && choices(b, 0) == 1);
        assert(choices(a + 1, 0) == 1 && choices(b + 1, 0) == 1);
    } else {
        let i = (j - 1) as nat;
        lemma_sum_step(a, b, i);
        lemma_pow2_unfold(j);
        let w = pow2(i) as int;
        let p = choices(a, j) as int;
        let q = choices(a, i) as int;
        let r = choices(b, j) as int;
        let s = choices(b, i) as int;
        assert(choices(a + 1, j) == p + q);
        assert(choices(b + 1, j) == r + s);
        assert((p + q) * (r + s) == p * r + p * s + q * r + q * s) by (nonlinear_arith);
        assert(p * (r + s) == p * r + p * s) by (nonlinear_arith);
        assert((p + q) * r == p * r + q * r) by (nonlinear_arith);
        lemma_spread(w, p * r, p * s, q * r, q * s);
    }
}

/// Distribution over four terms.
proof fn lemma_spread(w: int, a: int, b: int, c: int, d: int)
    ensures
        (2 * w) * (a + b + c + d) + 2 * ((2 * w) * a) - 2 * (w * d) == (2 * w) * (a + b) + (2 * w)
            * (a + c) + (2 * w) * a,
{
    assert((2 * w) * (a + b + c + d) == 2 * (w * a) + 2 * (w * b) + 2 * (w * c) + 2 * (w * d))
        by (nonlinear_arith);
    assert((2 * w) * (a + b) == 2 * (w * a) + 2 * (w * b)) by (nonlinear_arith);
    assert((2 * w) * (a + c) == 2 * (w * a) + 2 * (w * c)) by (nonlinear_arith);
    assert((2 * w) * a == 2 * (w * a)) by (nonlinear_arith);
}

/// The counts are sums of terms.
proof fn lemma_count(n: nat, k: nat, j: nat)
    requires
        n >= 1,
        k >= 1,
        j + 1 >= n || j + 1 >= k,
    ensures
        pvq_u(n, k) == count_sum((n - 1) as nat, (k - 1) as nat, j),
    decreases n + k,
{
    let a = (n - 1) as nat;
    let b = (k - 1) as nat;
    if n == 1 || k == 1 {
        lemma_flat(a, b, j);
        if n > 1 {
            lemma_count(a, k, j);
            assert(pvq_u(n, 0) == 0 && pvq_u(a, 0) == 0);
            lemma_flat((a - 1) as nat, b, j);
        } else {
            assert(pvq_u(0, k) == 0);
            if k > 1 {
                lemma_count(n, b, j);
                lemma_flat(a, (b - 1) as nat, j);
                assert(pvq_u(0, b) == 0);
            } else {
                assert(pvq_u(1, 0) == 0 && pvq_u(0, 0) == 1);
            }
        }
    } else {
        lemma_count(a, k, j);
        lemma_count(n, b, j);
        lemma_count(a, b, j);
        let c = (a - 1) as nat;
        let d = (b - 1) as nat;
        lemma_sum_step(c, d, j);
        if j >= a {
            lemma_choices_end(c, j);
        } else {
            lemma_choices_end(d, j);
        }
        assert(count_term(c, d, j) == 0) by (nonlinear_arith)
            requires
                count_term(c, d, j) == pow2(j) * (choices(c, j) * choices(d, j)),
                choices(c, j) == 0 || choices(d, j) == 0,
        ;
    }
}

/// Where one side leaves no choice only the first term counts.
proof fn lemma_flat(a: nat, b: nat, j: nat)
    requires
        a == 0 || b == 0,
    ensures
        count_sum(a, b, j) == 1,
    decreases j,
{
    lemma2_to64();
    if j == 0 {
        assert(choices(a, 0) == 1 && choices(b, 0) == 1);
        assert(pow2(0) == 1);
        assert(1nat * (1nat * 1nat) == 1);
        assert(count_term(a, b, 0) == 1);
    } else {
        lemma_flat(a, b, (j - 1) as nat);
        if a == 0 {
            lemma_choices_end(a, j);
        } else {
            lemma_choices_end(b, j);
        }
        assert(count_term(a, b, j) == 0) by (nonlinear_arith)
            requires
                count_term(a, b, j) == pow2(j) * (choices(a, j) * choices(b, j)),
                choices(a, j) == 0 || choices(b, j) == 0,
        ;
    }
}

/// The sum, each term made from the one before it.
pub open spec fn tally(a: int, b: int, j: int, term: int, sum: int, last: int) -> int
    decreases last - j,
{
    if j >= last {
        sum
    } else {
        let next = term * (2 * ((a - j) * (b - j))) / ((j + 1) * (j + 1));
        tally(a, b, j + 1, next, sum + next, last)
    }
}

/// The next term.
proof fn lemma_term_next(a: nat, b: nat, j: nat)
    ensures
        count_term(a, b, j) * (2 * ((a - j) * (b - j))) == count_term(a, b, j + 1) * ((j + 1) * (j
            + 1)),
{
    lemma_choices_next(a, j);
    lemma_choices_next(b, j);
    lemma_pow2_unfold(j + 1);
    let w = pow2(j) as int;
    let p = choices(a, j) as int;
    let q = choices(a, j + 1) as int;
    let r = choices(b, j) as int;
    let s = choices(b, j + 1) as int;
    assert((w * (p * r)) * (2 * ((a - j) * (b - j))) == (2 * w) * (((a - j) * p) * ((b - j) * r)))
        by (nonlinear_arith);
    assert(((2 * w) * (q * s)) * ((j + 1) * (j + 1)) == (2 * w) * (((j + 1) * q) * ((j + 1) * s)))
        by (nonlinear_arith);
}

/// [`tally`] is the sum of the terms.
proof fn lemma_tally(a: nat, b: nat, j: nat, last: nat)
    requires
        j <= last,
    ensures
        tally(
            a as int,
            b as int,
            j as int,
            count_term(a, b, j) as int,
            count_sum(a, b, j) as int,
            last as int,
        ) == count_sum(a, b, last),
    decreases last - j,
{
    if j < last {
        lemma_term_next(a, b, j);
        lemma_tally(a, b, j + 1, last);
        let d = ((j + 1) * (j + 1)) as int;
        assert(d > 0) by (nonlinear_arith)
            requires
                d == (j + 1) * (j + 1),
        ;
        vstd::arithmetic::div_mod::lemma_div_by_multiple(count_term(a, b, j + 1) as int, d);
    }
}

/// The counts by [`tally`].
pub proof fn lemma_count_tally(n: nat, k: nat, last: nat)
    requires
        n >= 1,
        k >= 1,
        last + 1 >= n || last + 1 >= k,
    ensures
        pvq_u(n, k) == tally(n - 1, k - 1, 0, 1, 1, last as int),
{
    lemma_count(n, k, last);
    let a = (n - 1) as nat;
    let b = (k - 1) as nat;
    lemma_tally(a, b, 0, last);
    lemma2_to64();
    assert(choices(a, 0) == 1 && choices(b, 0) == 1);
    assert(count_term(a, b, 0) == 1);
    assert(count_sum(a, b, 0) == 1);
}



/// Sizes of vectors and pseudo-counts of pulses for which 32 bits are enough.
pub open spec fn numbered(n: int, q: int) -> bool {
    ||| n <= 4 && q <= 40
    ||| n <= 6 && q <= 35
    ||| n <= 8 && q <= 25
    ||| n <= 9 && q <= 21
    ||| n <= 11 && q <= 17
    ||| n <= 12 && q <= 16
    ||| n <= 16 && q <= 12
    ||| n <= 18 && q <= 11
    ||| n <= 24 && q <= 9
    ||| n <= 36 && q <= 7
    ||| n <= 48 && q <= 6
    ||| n <= 96 && q <= 5
    ||| n <= 176 && q <= 4
}

/// The vectors of `n` coefficients and `k` pulses can be numbered if the sums say so.
proof fn lemma_fits_by_sums(n: nat, k: nat, last: nat)
    requires
        n >= 1,
        k >= 1,
        last + 1 >= n || last >= k,
        tally(n - 1, k - 1, 0, 1, 1, last as int) + tally(n - 1, k as int, 0, 1, 1, last as int)
            <= u32::MAX,
    ensures
        pvq_fits(n, k),
{
    lemma_count_tally(n, k, last);
    lemma_count_tally(n, k + 1, last);
}

/// One more term, given its value, the ways that lead to it and how often each of
/// them is counted.
proof fn lemma_next(
    a: int,
    b: int,
    j: int,
    term: int,
    sum: int,
    ways: int,
    times: int,
    next: int,
    last: int,
)
    requires
        0 <= j < last,
        0 <= next,
        ways == (a - j) * (b - j),
        times == (j + 1) * (j + 1),
        next * times == term * (2 * ways),
    ensures
        tally(a, b, j, term, sum, last) == tally(a, b, j + 1, next, sum + next, last),
{
    assert(times > 0) by (nonlinear_arith)
        requires
            times == (j + 1) * (j + 1),
            0 <= j,
    ;
    vstd::arithmetic::div_mod::lemma_div_by_multiple(next, times);
}

/// Vectors of 4 coefficients and 128 pulses.
proof fn lemma_sums_4_128()
    ensures
        tally(3, 127, 0, 1, 1, 3) + tally(3, 128, 0, 1, 1, 3) <= u32::MAX,
{
    lemma_next(3, 127, 0, 1, 1, 381, 1, 762, 3);
    lemma_next(3, 127, 1, 762, 763, 252, 4, 96012, 3);
    lemma_next(3, 127, 2, 96012, 96775, 125, 9, 2667000, 3);
    lemma_next(3, 128, 0, 1, 1, 384, 1, 768, 3);
    lemma_next(3, 128, 1, 768, 769, 254, 4, 97536, 3);
    lemma_next(3, 128, 2, 97536, 98305, 126, 9, 2731008, 3);
}

/// Vectors of 6 coefficients and 88 pulses.
proof fn lemma_sums_6_88()
    ensures
        tally(5, 87, 0, 1, 1, 5) + tally(5, 88, 0, 1, 1, 5) <= u32::MAX,
{
    lemma_next(5, 87, 0, 1, 1, 435, 1, 870, 5);
    lemma_next(5, 87, 1, 870, 871, 344, 4, 149640, 5);
    lemma_next(5, 87, 2, 149640, 150511, 255, 9, 8479600, 5);
    lemma_next(5, 87, 3, 8479600, 8630111, 168, 16, 178071600, 5);
    lemma_next(5, 87, 4, 178071600, 186701711, 83, 25, 1182395424, 5);
    lemma_next(5, 88, 0, 1, 1, 440, 1, 880, 5);
    lemma_next(5, 88, 1, 880, 881, 348, 4, 153120, 5);
    lemma_next(5, 88, 2, 153120, 154001, 258, 9, 8778880, 5);
    lemma_next(5, 88, 3, 8778880, 8932881, 170, 16, 186551200, 5);
    lemma_next(5, 88, 4, 186551200, 195484081, 84, 25, 1253624064, 5);
}

/// Vectors of 8 coefficients and 36 pulses.
proof fn lemma_sums_8_36()
    ensures
        tally(7, 35, 0, 1, 1, 7) + tally(7, 36, 0, 1, 1, 7) <= u32::MAX,
{
    lemma_next(7, 35, 0, 1, 1, 245, 1, 490, 7);
    lemma_next(7, 35, 1, 490, 491, 204, 4, 49980, 7);
    lemma_next(7, 35, 2, 49980, 50471, 165, 9, 1832600, 7);
    lemma_next(7, 35, 3, 1832600, 1883071, 128, 16, 29321600, 7);
    lemma_next(7, 35, 4, 29321600, 31204671, 93, 25, 218152704, 7);
    lemma_next(7, 35, 5, 218152704, 249357375, 60, 36, 727175680, 7);
    lemma_next(7, 35, 6, 727175680, 976533055, 29, 49, 860738560, 7);
    lemma_next(7, 36, 0, 1, 1, 252, 1, 504, 7);
    lemma_next(7, 36, 1, 504, 505, 210, 4, 52920, 7);
    lemma_next(7, 36, 2, 52920, 53425, 170, 9, 1999200, 7);
    lemma_next(7, 36, 3, 1999200, 2052625, 132, 16, 32986800, 7);
    lemma_next(7, 36, 4, 32986800, 35039425, 96, 25, 253338624, 7);
    lemma_next(7, 36, 5, 253338624, 288378049, 62, 36, 872610816, 7);
    lemma_next(7, 36, 6, 872610816, 1160988865, 30, 49, 1068503040, 7);
}

/// Vectors of 9 coefficients and 26 pulses.
proof fn lemma_sums_9_26()
    ensures
        tally(8, 25, 0, 1, 1, 8) + tally(8, 26, 0, 1, 1, 8) <= u32::MAX,
{
    lemma_next(8, 25, 0, 1, 1, 200, 1, 400, 8);
    lemma_next(8, 25, 1, 400, 401, 168, 4, 33600, 8);
    lemma_next(8, 25, 2, 33600, 34001, 138, 9, 1030400, 8);
    lemma_next(8, 25, 3, 1030400, 1064401, 110, 16, 14168000, 8);
    lemma_next(8, 25, 4, 14168000, 15232401, 84, 25, 95208960, 8);
    lemma_next(8, 25, 5, 95208960, 110441361, 60, 36, 317363200, 8);
    lemma_next(8, 25, 6, 317363200, 427804561, 38, 49, 492236800, 8);
    lemma_next(8, 25, 7, 492236800, 920041361, 18, 64, 276883200, 8);
    lemma_next(8, 26, 0, 1, 1, 208, 1, 416, 8);
    lemma_next(8, 26, 1, 416, 417, 175, 4, 36400, 8);
    lemma_next(8, 26, 2, 36400, 36817, 144, 9, 1164800, 8);
    lemma_next(8, 26, 3, 1164800, 1201617, 115, 16, 16744000, 8);
    lemma_next(8, 26, 4, 16744000, 17945617, 88, 25, 117877760, 8);
    lemma_next(8, 26, 5, 117877760, 135823377, 63, 36, 412572160, 8);
    lemma_next(8, 26, 6, 412572160, 548395537, 40, 49, 673587200, 8);
    lemma_next(8, 26, 7, 673587200, 1221982737, 19, 64, 399942400, 8);
}

/// Vectors of 11 coefficients and 18 pulses.
proof fn lemma_sums_11_18()
    ensures
        tally(10, 17, 0, 1, 1, 10) + tally(10, 18, 0, 1, 1, 10) <= u32::MAX,
{
    lemma_next(10, 17, 0, 1, 1, 170, 1, 340, 10);
    lemma_next(10, 17, 1, 340, 341, 144, 4, 24480, 10);
    lemma_next(10, 17, 2, 24480, 24821, 120, 9, 652800, 10);
    lemma_next(10, 17, 3, 652800, 677621, 98, 16, 7996800, 10);
    lemma_next(10, 17, 4, 7996800, 8674421, 78, 25, 49900032, 10);
    lemma_next(10, 17, 5, 49900032, 58574453, 60, 36, 166333440, 10);
    lemma_next(10, 17, 6, 166333440, 224907893, 44, 49, 298721280, 10);
    lemma_next(10, 17, 7, 298721280, 523629173, 30, 64, 280051200, 10);
    lemma_next(10, 17, 8, 280051200, 803680373, 18, 81, 124467200, 10);
    lemma_next(10, 17, 9, 124467200, 928147573, 8, 100, 19914752, 10);
    lemma_next(10, 18, 0, 1, 1, 180, 1, 360, 10);
    lemma_next(10, 18, 1, 360, 361, 153, 4, 27540, 10);
    lemma_next(10, 18, 2, 27540, 27901, 128, 9, 783360, 10);
    lemma_next(10, 18, 3, 783360, 811261, 105, 16, 10281600, 10);
    lemma_next(10, 18, 4, 10281600, 11092861, 84, 25, 69092352, 10);
    lemma_next(10, 18, 5, 69092352, 80185213, 65, 36, 249500160, 10);
    lemma_next(10, 18, 6, 249500160, 329685373, 48, 49, 488816640, 10);
    lemma_next(10, 18, 7, 488816640, 818502013, 33, 64, 504092160, 10);
    lemma_next(10, 18, 8, 504092160, 1322594173, 20, 81, 248934400, 10);
    lemma_next(10, 18, 9, 248934400, 1571528573, 9, 100, 44808192, 10);
}

/// Vectors of 12 coefficients and 16 pulses.
proof fn lemma_sums_12_16()
    ensures
        tally(11, 15, 0, 1, 1, 11) + tally(11, 16, 0, 1, 1, 11) <= u32::MAX,
{
    lemma_next(11, 15, 0, 1, 1, 165, 1, 330, 11);
    lemma_next(11, 15, 1, 330, 331, 140, 4, 23100, 11);
    lemma_next(11, 15, 2, 23100, 23431, 117, 9, 600600, 11);
    lemma_next(11, 15, 3, 600600, 624031, 96, 16, 7207200, 11);
    lemma_next(11, 15, 4, 7207200, 7831231, 77, 25, 44396352, 11);
    lemma_next(11, 15, 5, 44396352, 52227583, 60, 36, 147987840, 11);
    lemma_next(11, 15, 6, 147987840, 200215423, 45, 49, 271814400, 11);
    lemma_next(11, 15, 7, 271814400, 472029823, 32, 64, 271814400, 11);
    lemma_next(11, 15, 8, 271814400, 743844223, 21, 81, 140940800, 11);
    lemma_next(11, 15, 9, 140940800, 884785023, 12, 100, 33825792, 11);
    lemma_next(11, 15, 10, 33825792, 918610815, 5, 121, 2795520, 11);
    lemma_next(11, 16, 0, 1, 1, 176, 1, 352, 11);
    lemma_next(11, 16, 1, 352, 353, 150, 4, 26400, 11);
    lemma_next(11, 16, 2, 26400, 26753, 126, 9, 739200, 11);
    lemma_next(11, 16, 3, 739200, 765953, 104, 16, 9609600, 11);
    lemma_next(11, 16, 4, 9609600, 10375553, 84, 25, 64576512, 11);
    lemma_next(11, 16, 5, 64576512, 74952065, 66, 36, 236780544, 11);
    lemma_next(11, 16, 6, 236780544, 311732609, 50, 49, 483225600, 11);
    lemma_next(11, 16, 7, 483225600, 794958209, 36, 64, 543628800, 11);
    lemma_next(11, 16, 8, 543628800, 1338587009, 24, 81, 322150400, 11);
    lemma_next(11, 16, 9, 322150400, 1660737409, 14, 100, 90202112, 11);
    lemma_next(11, 16, 10, 90202112, 1750939521, 6, 121, 8945664, 11);
}

/// Vectors of 16 coefficients and 12 pulses.
proof fn lemma_sums_16_12()
    ensures
        tally(15, 11, 0, 1, 1, 12) + tally(15, 12, 0, 1, 1, 12) <= u32::MAX,
{
    lemma_next(15, 11, 0, 1, 1, 165, 1, 330, 12);
    lemma_next(15, 11, 1, 330, 331, 140, 4, 23100, 12);
    lemma_next(15, 11, 2, 23100, 23431, 117, 9, 600600, 12);
    lemma_next(15, 11, 3, 600600, 624031, 96, 16, 7207200, 12);
    lemma_next(15, 11, 4, 7207200, 7831231, 77, 25, 44396352, 12);
    lemma_next(15, 11, 5, 44396352, 52227583, 60, 36, 147987840, 12);
    lemma_next(15, 11, 6, 147987840, 200215423, 45, 49, 271814400, 12);
    lemma_next(15, 11, 7, 271814400, 472029823, 32, 64, 271814400, 12);
    lemma_next(15, 11, 8, 271814400, 743844223, 21, 81, 140940800, 12);
    lemma_next(15, 11, 9, 140940800, 884785023, 12, 100, 33825792, 12);
    lemma_next(15, 11, 10, 33825792, 918610815, 5, 121, 2795520, 12);
    lemma_next(15, 11, 11, 2795520, 921406335, 0, 144, 0, 12);
    lemma_next(15, 12, 0, 1, 1, 180, 1, 360, 12);
    lemma_next(15, 12, 1, 360, 361, 154, 4, 27720, 12);
    lemma_next(15, 12, 2, 27720, 28081, 130, 9, 800800, 12);
    lemma_next(15, 12, 3, 800800, 828881, 108, 16, 10810800, 12);
    lemma_next(15, 12, 4, 10810800, 11639681, 88, 25, 76108032, 12);
    lemma_next(15, 12, 5, 76108032, 87747713, 70, 36, 295975680, 12);
    lemma_next(15, 12, 6, 295975680, 383723393, 54, 49, 652354560, 12);
    lemma_next(15, 12, 7, 652354560, 1036077953, 40, 64, 815443200, 12);
    lemma_next(15, 12, 8, 815443200, 1851521153, 28, 81, 563763200, 12);
    lemma_next(15, 12, 9, 563763200, 2415284353, 18, 100, 202954752, 12);
    lemma_next(15, 12, 10, 202954752, 2618239105, 10, 121, 33546240, 12);
    lemma_next(15, 12, 11, 33546240, 2651785345, 4, 144, 1863680, 12);
}

/// Vectors of 18 coefficients and 11 pulses.
proof fn lemma_sums_18_11()
    ensures
        tally(17, 10, 0, 1, 1, 11) + tally(17, 11, 0, 1, 1, 11) <= u32::MAX,
{
    lemma_next(17, 10, 0, 1, 1, 170, 1, 340, 11);
    lemma_next(17, 10, 1, 340, 341, 144, 4, 24480, 11);
    lemma_next(17, 10, 2, 24480, 24821, 120, 9, 652800, 11);
    lemma_next(17, 10, 3, 652800, 677621, 98, 16, 7996800, 11);
    lemma_next(17, 10, 4, 7996800, 8674421, 78, 25, 49900032, 11);
    lemma_next(17, 10, 5, 49900032, 58574453, 60, 36, 166333440, 11);
    lemma_next(17, 10, 6, 166333440, 224907893, 44, 49, 298721280, 11);
    lemma_next(17, 10, 7, 298721280, 523629173, 30, 64, 280051200, 11);
    lemma_next(17, 10, 8, 280051200, 803680373, 18, 81, 124467200, 11);
    lemma_next(17, 10, 9, 124467200, 928147573, 8, 100, 19914752, 11);
    lemma_next(17, 10, 10, 19914752, 948062325, 0, 121, 0, 11);
    lemma_next(17, 11, 0, 1, 1, 187, 1, 374, 11);
    lemma_next(17, 11, 1, 374, 375, 160, 4, 29920, 11);
    lemma_next(17, 11, 2, 29920, 30295, 135, 9, 897600, 11);
    lemma_next(17, 11, 3, 897600, 927895, 112, 16, 12566400, 11);
    lemma_next(17, 11, 4, 12566400, 13494295, 91, 25, 91483392, 11);
    lemma_next(17, 11, 5, 91483392, 104977687, 72, 36, 365933568, 11);
    lemma_next(17, 11, 6, 365933568, 470911255, 55, 49, 821483520, 11);
    lemma_next(17, 11, 7, 821483520, 1292394775, 40, 64, 1026854400, 11);
    lemma_next(17, 11, 8, 1026854400, 2319249175, 27, 81, 684569600, 11);
    lemma_next(17, 11, 9, 684569600, 3003818775, 16, 100, 219062272, 11);
    lemma_next(17, 11, 10, 219062272, 3222881047, 7, 121, 25346048, 11);
}

/// Vectors of 24 coefficients and 9 pulses.
proof fn lemma_sums_24_9()
    ensures
        tally(23, 8, 0, 1, 1, 9) + tally(23, 9, 0, 1, 1, 9) <= u32::MAX,
{
    lemma_next(23, 8, 0, 1, 1, 184, 1, 368, 9);
    lemma_next(23, 8, 1, 368, 369, 154, 4, 28336, 9);
    lemma_next(23, 8, 2, 28336, 28705, 126, 9, 793408, 9);
    lemma_next(23, 8, 3, 793408, 822113, 100, 16, 9917600, 9);
    lemma_next(23, 8, 4, 9917600, 10739713, 76, 25, 60299008, 9);
    lemma_next(23, 8, 5, 60299008, 71038721, 54, 36, 180897024, 9);
    lemma_next(23, 8, 6, 180897024, 251935745, 34, 49, 251040768, 9);
    lemma_next(23, 8, 7, 251040768, 502976513, 16, 64, 125520384, 9);
    lemma_next(23, 8, 8, 125520384, 628496897, 0, 81, 0, 9);
    lemma_next(23, 9, 0, 1, 1, 207, 1, 414, 9);
    lemma_next(23, 9, 1, 414, 415, 176, 4, 36432, 9);
    lemma_next(23, 9, 2, 36432, 36847, 147, 9, 1190112, 9);
    lemma_next(23, 9, 3, 1190112, 1226959, 120, 16, 17851680, 9);
    lemma_next(23, 9, 4, 17851680, 19078639, 95, 25, 135672768, 9);
    lemma_next(23, 9, 5, 135672768, 154751407, 72, 36, 542691072, 9);
    lemma_next(23, 9, 6, 542691072, 697442479, 51, 49, 1129683456, 9);
    lemma_next(23, 9, 7, 1129683456, 1827125935, 32, 64, 1129683456, 9);
    lemma_next(23, 9, 8, 1129683456, 2956809391, 15, 81, 418401280, 9);
}

/// Vectors of 36 coefficients and 7 pulses.
proof fn lemma_sums_36_7()
    ensures
        tally(35, 6, 0, 1, 1, 7) + tally(35, 7, 0, 1, 1, 7) <= u32::MAX,
{
    lemma_next(35, 6, 0, 1, 1, 210, 1, 420, 7);
    lemma_next(35, 6, 1, 420, 421, 170, 4, 35700, 7);
    lemma_next(35, 6, 2, 35700, 36121, 132, 9, 1047200, 7);
    lemma_next(35, 6, 3, 1047200, 1083321, 96, 16, 12566400, 7);
    lemma_next(35, 6, 4, 12566400, 13649721, 62, 25, 62329344, 7);
    lemma_next(35, 6, 5, 62329344, 75979065, 30, 36, 103882240, 7);
    lemma_next(35, 6, 6, 103882240, 179861305, 0, 49, 0, 7);
    lemma_next(35, 7, 0, 1, 1, 245, 1, 490, 7);
    lemma_next(35, 7, 1, 490, 491, 204, 4, 49980, 7);
    lemma_next(35, 7, 2, 49980, 50471, 165, 9, 1832600, 7);
    lemma_next(35, 7, 3, 1832600, 1883071, 128, 16, 29321600, 7);
    lemma_next(35, 7, 4, 29321600, 31204671, 93, 25, 218152704, 7);
    lemma_next(35, 7, 5, 218152704, 249357375, 60, 36, 727175680, 7);
    lemma_next(35, 7, 6, 727175680, 976533055, 29, 49, 860738560, 7);
}

/// Vectors of 48 coefficients and 6 pulses.
proof fn lemma_sums_48_6()
    ensures
        tally(47, 5, 0, 1, 1, 6) + tally(47, 6, 0, 1, 1, 6) <= u32::MAX,
{
    lemma_next(47, 5, 0, 1, 1, 235, 1, 470, 6);
    lemma_next(47, 5, 1, 470, 471, 184, 4, 43240, 6);
    lemma_next(47, 5, 2, 43240, 43711, 135, 9, 1297200, 6);
    lemma_next(47, 5, 3, 1297200, 1340911, 88, 16, 14269200, 6);
    lemma_next(47, 5, 4, 14269200, 15610111, 43, 25, 49086048, 6);
    lemma_next(47, 5, 5, 49086048, 64696159, 0, 36, 0, 6);
    lemma_next(47, 6, 0, 1, 1, 282, 1, 564, 6);
    lemma_next(47, 6, 1, 564, 565, 230, 4, 64860, 6);
    lemma_next(47, 6, 2, 64860, 65425, 180, 9, 2594400, 6);
    lemma_next(47, 6, 3, 2594400, 2659825, 132, 16, 42807600, 6);
    lemma_next(47, 6, 4, 42807600, 45467425, 86, 25, 294516288, 6);
    lemma_next(47, 6, 5, 294516288, 339983713, 42, 36, 687204672, 6);
}

/// Vectors of 96 coefficients and 5 pulses.
proof fn lemma_sums_96_5()
    ensures
        tally(95, 4, 0, 1, 1, 5) + tally(95, 5, 0, 1, 1, 5) <= u32::MAX,
{
    lemma_next(95, 4, 0, 1, 1, 380, 1, 760, 5);
    lemma_next(95, 4, 1, 760, 761, 282, 4, 107160, 5);
    lemma_next(95, 4, 2, 107160, 107921, 186, 9, 4429280, 5);
    lemma_next(95, 4, 3, 4429280, 4537201, 92, 16, 50936720, 5);
    lemma_next(95, 4, 4, 50936720, 55473921, 0, 25, 0, 5);
    lemma_next(95, 5, 0, 1, 1, 475, 1, 950, 5);
    lemma_next(95, 5, 1, 950, 951, 376, 4, 178600, 5);
    lemma_next(95, 5, 2, 178600, 179551, 279, 9, 11073200, 5);
    lemma_next(95, 5, 3, 11073200, 11252751, 184, 16, 254683600, 5);
    lemma_next(95, 5, 4, 254683600, 265936351, 91, 25, 1854096608, 5);
}

/// Vectors of 176 coefficients and 4 pulses.
proof fn lemma_sums_176_4()
    ensures
        tally(175, 3, 0, 1, 1, 4) + tally(175, 4, 0, 1, 1, 4) <= u32::MAX,
{
    lemma_next(175, 3, 0, 1, 1, 525, 1, 1050, 4);
    lemma_next(175, 3, 1, 1050, 1051, 348, 4, 182700, 4);
    lemma_next(175, 3, 2, 182700, 183751, 173, 9, 7023800, 4);
    lemma_next(175, 3, 3, 7023800, 7207551, 0, 16, 0, 4);
    lemma_next(175, 4, 0, 1, 1, 700, 1, 1400, 4);
    lemma_next(175, 4, 1, 1400, 1401, 522, 4, 365400, 4);
    lemma_next(175, 4, 2, 365400, 366801, 346, 9, 28095200, 4);
    lemma_next(175, 4, 3, 28095200, 28462001, 172, 16, 604046800, 4);
}

/// The largest vectors that can be numbered.
proof fn lemma_largest()
    ensures
        pvq_fits(4, 128),
        pvq_fits(6, 88),
        pvq_fits(8, 36),
        pvq_fits(9, 26),
        pvq_fits(11, 18),
        pvq_fits(12, 16),
        pvq_fits(16, 12),
        pvq_fits(18, 11),
        pvq_fits(24, 9),
        pvq_fits(36, 7),
        pvq_fits(48, 6),
        pvq_fits(96, 5),
        pvq_fits(176, 4),
{
    lemma_sums_4_128();
    lemma_fits_by_sums(4, 128, 3);
    lemma_sums_6_88();
    lemma_fits_by_sums(6, 88, 5);
    lemma_sums_8_36();
    lemma_fits_by_sums(8, 36, 7);
    lemma_sums_9_26();
    lemma_fits_by_sums(9, 26, 8);
    lemma_sums_11_18();
    lemma_fits_by_sums(11, 18, 10);
    lemma_sums_12_16();
    lemma_fits_by_sums(12, 16, 11);
    lemma_sums_16_12();
    lemma_fits_by_sums(16, 12, 12);
    lemma_sums_18_11();
    lemma_fits_by_sums(18, 11, 11);
    lemma_sums_24_9();
    lemma_fits_by_sums(24, 9, 9);
    lemma_sums_36_7();
    lemma_fits_by_sums(36, 7, 7);
    lemma_sums_48_6();
    lemma_fits_by_sums(48, 6, 6);
    lemma_sums_96_5();
    lemma_fits_by_sums(96, 5, 5);
    lemma_sums_176_4();
    lemma_fits_by_sums(176, 4, 4);
}

/// Smaller vectors with fewer pulses can be numbered too.
proof fn lemma_fits_smaller(m: nat, n: nat, j: nat, k: nat)
    requires
        1 <= m <= n,
        1 <= j <= k,
        pvq_fits(n, k),
    ensures
        pvq_fits(m, j),
{
    lemma_fits_fewer(n, j, k);
    lemma_u_grows_n(m, n, j);
    lemma_u_grows_n(m, n, j + 1);
}

/// Every vector of a size and pseudo-count in range can be numbered.
pub proof fn lemma_numbered(n: int, len: int)
    requires
        1 <= n,
        len <= 40,
        numbered(n, len),
    ensures
        forall|q: int| 1 <= q <= len ==> #[trigger] vector_fits(n, q),
{
    lemma_largest();
    assert forall|q: int| 1 <= q <= len implies #[trigger] vector_fits(n, q) by {
        let j = pulses_of(q) as nat;
        if n <= 4 && len <= 40 {
            lemma_fits_smaller(n as nat, 4, j, 128);
        } else if n <= 6 && len <= 35 {
            lemma_fits_smaller(n as nat, 6, j, 88);
        } else if n <= 8 && len <= 25 {
            lemma_fits_smaller(n as nat, 8, j, 36);
        } else if n <= 9 && len <= 21 {
            lemma_fits_smaller(n as nat, 9, j, 26);
        } else if n <= 11 && len <= 17 {
            lemma_fits_smaller(n as nat, 11, j, 18);
        } else if n <= 12 && len <= 16 {
            lemma_fits_smaller(n as nat, 12, j, 16);
        } else if n <= 16 && len <= 12 {
            lemma_fits_smaller(n as nat, 16, j, 12);
        } else if n <= 18 && len <= 11 {
            lemma_fits_smaller(n as nat, 18, j, 11);
        } else if n <= 24 && len <= 9 {
            lemma_fits_smaller(n as nat, 24, j, 9);
        } else if n <= 36 && len <= 7 {
            lemma_fits_smaller(n as nat, 36, j, 7);
        } else if n <= 48 && len <= 6 {
            lemma_fits_smaller(n as nat, 48, j, 6);
        } else if n <= 96 && len <= 5 {
            lemma_fits_smaller(n as nat, 96, j, 5);
        } else if n <= 176 && len <= 4 {
            lemma_fits_smaller(n as nat, 176, j, 4);
        }
    }
}

} // verus!
