//! Bits are shared out, and none are lost on the way.

use vstd::arithmetic::power2::{lemma2_to64, lemma_pow2_pos, lemma_pow2_unfold, pow2};
use vstd::prelude::*;
use crate::allocation::{AllocInput, SkipState, Split};
use crate::division_laws::lemma_shr;
use crate::mode::OpusCustomMode;
use crate::rate::{bits_for, bracket, pulses_for, run_cost};

verus! {

/// A shift of bits that are not negative.
proof fn lemma_eighths(b: i32, s: nat)
    requires
        0 <= b,
        s <= 4,
    ensures
        pow2(s) * (b >> (s as u32)) <= b < pow2(s) * (b >> (s as u32)) + pow2(s),
        0 <= (b >> (s as u32)) <= b,
{
    lemma_shr(b, s);
    lemma_pow2_pos(s);
    let p = pow2(s) as int;
    let x = b >> (s as u32);
    assert(0 <= x <= b) by (nonlinear_arith)
        requires
            p * x <= b < p * x + p,
            0 <= b,
            p >= 1,
    ;
}

/// The bits of a band are divided without a rest: what the shape gets, what the fine
/// energies of the channels cost and what is handed on make up what the band had. The
/// shape never gets more than the cap of the band.
#[verifier::spinoff_prover]
#[verifier::rlimit(60)]
pub proof fn law_bits_of_a_band_are_divided(
    a: AllocInput,
    j: int,
    bit: i32,
    balance: i32,
    dual: bool,
    intensity: int,
)
    requires
        1 <= a.channels <= 2,
        0 <= bit <= 0x10_0000,
        0 <= a.caps[j] <= 0x10_0000,
        a.mode.width(j) * a.m() >= 1,
    ensures
        ({
            let s = a.split(j, bit, balance, dual, intensity);
            &&& s.bits + 8 * (a.channels * s.fine) + s.excess == bit
            &&& 0 <= s.bits <= bit
            &&& 0 <= s.fine <= 8
            &&& 0 <= s.excess
            &&& a.mode.width(j) * a.m() > 1 ==> s.bits <= a.caps[j]
            &&& a.mode.width(j) * a.m() == 1 ==> s.bits <= 8 * a.channels
        }),
{
    lemma_split_first(a, j, bit, dual, intensity);
    lemma_excess(a, a.split_first(j, bit, dual, intensity), balance);
}

/// A division after the excess went to the fine energies.
spec fn excess_used(a: AllocInput, s: Split, balance: i32) -> Split {
    if s.excess > 0 {
        let room = (8 - s.fine) as i32;
        let share = s.excess >> ((a.channel_shift() + 3) as u32);
        let more = if share < room { share } else { room };
        let cost = more.wrapping_mul(a.channels).wrapping_mul(8);
        Split {
            fine: (s.fine + more) as i32,
            last: cost >= s.excess.wrapping_sub(balance),
            excess: s.excess.wrapping_sub(cost),
            ..s
        }
    } else {
        s
    }
}

/// What the excess pays for is taken from it.
proof fn lemma_excess(a: AllocInput, s: Split, balance: i32)
    requires
        1 <= a.channels <= 2,
        0 <= s.fine <= 8,
        0 <= s.excess <= 0x10_0000,
    ensures
        ({
            let r = excess_used(a, s, balance);
            &&& r.bits == s.bits
            &&& 8 * (a.channels * r.fine) + r.excess == 8 * (a.channels * s.fine) + s.excess
            &&& 0 <= r.fine <= 8
            &&& 0 <= r.excess
        }),
{
    lemma2_to64();
    if s.excess > 0 {
        lemma_eighths(s.excess, 3);
        lemma_eighths(s.excess, 4);
        let room = (8 - s.fine) as i32;
        let share = s.excess >> ((a.channel_shift() + 3) as u32);
        let more = if share < room { share } else { room };
        assert(0 <= more <= 8);
        if a.channels == 1 {
            assert(share == s.excess >> 3u32);
            assert(a.channels * more == more && a.channels * s.fine == s.fine && a.channels * (s.fine
                + more) == s.fine + more) by (nonlinear_arith)
                requires
                    a.channels == 1,
            ;
            assert(more.wrapping_mul(a.channels) == more);
        } else {
            assert(share == s.excess >> 4u32);
            assert(a.channels * more == 2 * more && a.channels * s.fine == 2 * s.fine && a.channels * (
            s.fine + more) == 2 * (s.fine + more)) by (nonlinear_arith)
                requires
                    a.channels == 2,
            ;
            assert(more.wrapping_mul(a.channels) == 2 * more);
        }
    }
}

/// The first division of the bits of a band.
#[verifier::spinoff_prover]
#[verifier::rlimit(40)]
proof fn lemma_split_first(a: AllocInput, j: int, bit: i32, dual: bool, intensity: int)
    requires
        1 <= a.channels <= 2,
        0 <= bit <= 0x10_0000,
        0 <= a.caps[j] <= 0x10_0000,
        a.mode.width(j) * a.m() >= 1,
    ensures
        ({
            let s = a.split_first(j, bit, dual, intensity);
            &&& s.bits + 8 * (a.channels * s.fine) + s.excess == bit
            &&& 0 <= s.bits <= bit
            &&& 0 <= s.fine <= 8
            &&& 0 <= s.excess
            &&& a.mode.width(j) * a.m() > 1 ==> s.bits <= a.caps[j]
            &&& a.mode.width(j) * a.m() == 1 ==> s.bits <= 8 * a.channels
        }),
{
    let n = a.mode.width(j) * a.m();
    let s = a.split_first(j, bit, dual, intensity);
    lemma2_to64();
    if n > 1 {
        let over = bit.wrapping_sub(a.caps[j]);
        let excess = if over > 0 { over } else { 0 };
        let bits = bit.wrapping_sub(excess);
        assert(0 <= bits <= a.caps[j] && bits + excess == bit);
        lemma_paid(a, j, bits, dual, intensity);
        lemma_eighths(bits, 3);
        let fine = s.fine;
        assert(0 <= fine <= 8);
        assert(a.channels * fine <= (bits >> 3u32));
        assert(0 <= a.channels * fine <= 16) by (nonlinear_arith)
            requires
                1 <= a.channels <= 2,
                0 <= fine <= 8,
        ;
        let cost = a.channels.wrapping_mul(fine).wrapping_mul(8);
        assert(cost == 8 * (a.channels * fine));
        assert(cost <= bits);
        assert(s.bits == bits - cost);
        assert(s.excess == excess);
    } else {
        assert(s.fine == 0);
        assert(a.channels * s.fine == 0) by (nonlinear_arith)
            requires
                s.fine == 0,
        ;
    }
}

/// Fine energies are never paid with more than the bits of a band.
proof fn lemma_paid(a: AllocInput, j: int, bits: i32, dual: bool, intensity: int)
    requires
        1 <= a.channels <= 2,
        0 <= bits <= 0x10_0000,
        bits <= a.caps[j],
        a.mode.width(j) * a.m() > 1,
    ensures
        ({
            let den = a.freedom(j, dual, intensity);
            let offset = a.fine_offset(j, bits, den);
            let rounded = crate::allocation::not_negative(
                bits.wrapping_add(offset).wrapping_add(den.wrapping_mul(4)),
            );
            let wanted = (((rounded / den) as i32) >> 3u32) as i32;
            let paid = if a.channels.wrapping_mul(wanted) > (bits >> 3u32) {
                bits >> a.channel_shift() >> 3u32
            } else {
                wanted
            };
            a.channels * crate::allocation::fine_limited(paid) <= (bits >> 3u32)
        }),
{
    lemma2_to64();
    lemma_eighths(bits, 3);
    lemma_eighths(bits, 1);
    lemma_eighths(bits, 0);
    lemma_eighths(bits >> 1u32, 3);
    lemma_eighths(bits >> 0u32, 3);
    let den = a.freedom(j, dual, intensity);
    let offset = a.fine_offset(j, bits, den);
    let rounded = crate::allocation::not_negative(
        bits.wrapping_add(offset).wrapping_add(den.wrapping_mul(4)),
    );
    let wanted = (((rounded / den) as i32) >> 3u32) as i32;
    lemma_shr((rounded / den) as i32, 3);
    assert(-0x1000_0000 <= wanted <= 0x1000_0000);
    assert(a.channels.wrapping_mul(wanted) == a.channels * wanted) by {
        assert(-0x2000_0000 <= a.channels * wanted <= 0x2000_0000) by (nonlinear_arith)
            requires
                1 <= a.channels <= 2,
                -0x1000_0000 <= wanted <= 0x1000_0000,
        ;
    }
    let paid = if a.channels.wrapping_mul(wanted) > (bits >> 3u32) {
        bits >> a.channel_shift() >> 3u32
    } else {
        wanted
    };
    let fine = crate::allocation::fine_limited(paid);
    if paid >= 0 {
        assert(fine <= paid);
        assert(a.channels * fine <= a.channels * paid) by (nonlinear_arith)
            requires
                fine <= paid,
                1 <= a.channels,
        ;
        if a.channels == 1 {
            assert(a.channels * paid == paid) by (nonlinear_arith)
                requires
                    a.channels == 1,
            ;
        } else {
            assert(a.channels * paid == 2 * paid) by (nonlinear_arith)
                requires
                    a.channels == 2,
            ;
        }
    } else {
        assert(fine == 0);
        assert(a.channels * fine == 0) by (nonlinear_arith)
            requires
                fine == 0,
        ;
    }
}

/// Sum of the bits of the bands from `j` up to `coded`.
pub open spec fn bits_from(bits: Seq<i32>, j: int, coded: int) -> int
    decreases coded - j,
{
    if j >= coded {
        0
    } else {
        bits[j] + bits_from(bits, j + 1, coded)
    }
}

/// Bits of bands that are not written stay.
proof fn lemma_bits_from(bits: Seq<i32>, k: int, v: i32, j: int, coded: int)
    requires
        0 <= k < j,
        coded <= bits.len(),
    ensures
        bits_from(bits.update(k, v), j, coded) == bits_from(bits, j, coded),
    decreases coded - j,
{
    if j < coded {
        lemma_bits_from(bits, k, v, j + 1, coded);
    }
}

/// Bits left over are all spread: each bin of the coded bands gets the same share, and the
/// rest goes to the lowest bins, one each.
pub proof fn law_left_over_bits_are_spread(
    a: AllocInput,
    bits: Seq<i32>,
    each: i32,
    left: i32,
    coded: int,
    j: int,
)
    requires
        a.mode.bands_wf(),
        a.mode.edge(a.mode.num_ebands as int) <= 256,
        0 <= j <= coded <= a.mode.num_ebands,
        bits.len() == a.mode.num_ebands,
        0 <= each <= 0x1_0000,
        0 <= left <= a.mode.edge(coded) - a.mode.edge(j),
        forall|i: int| 0 <= i < bits.len() ==> 0 <= #[trigger] bits[i] <= 0x1000_0000,
    ensures
        ({
            let r = a.spread(bits, each, left, coded, j);
            &&& r.len() == bits.len()
            &&& bits_from(r, j, coded) == bits_from(bits, j, coded) + each * (a.mode.edge(coded)
                - a.mode.edge(j)) + left
            &&& forall|i: int| 0 <= i < j ==> #[trigger] r[i] == bits[i]
            &&& forall|i: int|
                j <= i < coded ==> bits[i] + each * a.mode.width(i) <= #[trigger] r[i] <= bits[i]
                    + each * a.mode.width(i) + a.mode.width(i)
        }),
    decreases coded - j,
{
    if j < coded {
        let w = a.mode.width(j);
        assert(a.mode.edge(0) <= a.mode.edge(j) <= a.mode.edge(j + 1) <= a.mode.edge(coded)
            <= a.mode.edge(a.mode.num_ebands as int));
        assert(0 <= w <= 256);
        let more = if left < w as i32 { left } else { w as i32 };
        assert(0 <= each * w <= 0x100_0000) by (nonlinear_arith)
            requires
                0 <= each <= 0x1_0000,
                0 <= w <= 256,
        ;
        let v = bits[j].wrapping_add(each.wrapping_mul(w as i32)).wrapping_add(more);
        assert(v == bits[j] + each * w + more);
        let next = bits.update(j, v);
        let r = a.spread(bits, each, left, coded, j);
        assert(r == a.spread(next, each, (left - more) as i32, coded, j + 1));
        lemma_spread_rest(a, next, each, (left - more) as i32, coded, j + 1);
        lemma_bits_from(bits, j, v, j + 1, coded);
        let span = a.mode.edge(coded) - a.mode.edge(j + 1);
        assert(each * (w + span) == each * w + each * span) by (nonlinear_arith);
    } else {
        assert(each * 0 == 0);
    }
}

/// The same for bands behind one that has its bits.
proof fn lemma_spread_rest(
    a: AllocInput,
    bits: Seq<i32>,
    each: i32,
    left: i32,
    coded: int,
    j: int,
)
    requires
        a.mode.bands_wf(),
        a.mode.edge(a.mode.num_ebands as int) <= 256,
        0 <= j <= coded <= a.mode.num_ebands,
        bits.len() == a.mode.num_ebands,
        0 <= each <= 0x1_0000,
        0 <= left <= a.mode.edge(coded) - a.mode.edge(j),
        forall|i: int| j <= i < bits.len() ==> 0 <= #[trigger] bits[i] <= 0x1000_0000,
    ensures
        ({
            let r = a.spread(bits, each, left, coded, j);
            &&& r.len() == bits.len()
            &&& bits_from(r, j, coded) == bits_from(bits, j, coded) + each * (a.mode.edge(coded)
                - a.mode.edge(j)) + left
            &&& forall|i: int| 0 <= i < j ==> #[trigger] r[i] == bits[i]
            &&& forall|i: int|
                j <= i < coded ==> bits[i] + each * a.mode.width(i) <= #[trigger] r[i] <= bits[i]
                    + each * a.mode.width(i) + a.mode.width(i)
        }),
    decreases coded - j,
{
    if j < coded {
        let w = a.mode.width(j);
        assert(a.mode.edge(0) <= a.mode.edge(j) <= a.mode.edge(j + 1) <= a.mode.edge(coded)
            <= a.mode.edge(a.mode.num_ebands as int));
        assert(0 <= w <= 256);
        let more = if left < w as i32 { left } else { w as i32 };
        assert(0 <= each * w <= 0x100_0000) by (nonlinear_arith)
            requires
                0 <= each <= 0x1_0000,
                0 <= w <= 256,
        ;
        let v = bits[j].wrapping_add(each.wrapping_mul(w as i32)).wrapping_add(more);
        assert(v == bits[j] + each * w + more);
        let next = bits.update(j, v);
        lemma_spread_rest(a, next, each, (left - more) as i32, coded, j + 1);
        lemma_bits_from(bits, j, v, j + 1, coded);
        let span = a.mode.edge(coded) - a.mode.edge(j + 1);
        assert(each * (w + span) == each * w + each * span) by (nonlinear_arith);
    } else {
        assert(each * 0 == 0);
    }
}

/// The search for a row ends between the last row that fits and the first that does not.
pub proof fn law_row_is_the_last_that_fits(a: AllocInput, total: int, lo: int, hi: int)
    requires
        1 <= lo <= hi + 1,
    ensures
        ({
            let row = a.row_search(total, lo, hi);
            &&& lo <= row <= hi + 1
            &&& row > lo ==> a.row_sum(row - 1) <= total
            &&& row <= hi ==> a.row_sum(row) > total
        }),
    decreases hi - lo + 1,
{
    if lo <= hi {
        let mid = (lo + hi) / 2;
        if a.row_sum(mid) > total {
            law_row_is_the_last_that_fits(a, total, lo, mid - 1);
        } else {
            law_row_is_the_last_that_fits(a, total, mid + 1, hi);
        }
    }
}

/// The mixture of two rows that is found fits, and the next finer one does not.
pub proof fn law_mixture_fits(a: AllocInput, row: int, total: int, lo: int, hi: int, steps: int)
    requires
        0 <= lo < hi,
        0 <= steps,
        hi - lo == pow2(steps as nat),
        a.mixed_sum(row, lo) <= total,
    ensures
        ({
            let mix = a.mix_search(row, total, lo, hi, steps);
            &&& lo <= mix < hi
            &&& a.mixed_sum(row, mix) <= total
            &&& mix + 1 < hi ==> a.mixed_sum(row, mix + 1) > total
        }),
    decreases steps,
{
    lemma2_to64();
    if steps > 0 {
        let mid = (lo + hi) / 2;
        lemma_pow2_unfold(steps as nat);
        lemma_pow2_pos((steps - 1) as nat);
        assert(mid - lo == pow2((steps - 1) as nat) && hi - mid == pow2((steps - 1) as nat));
        if a.mixed_sum(row, mid) > total {
            law_mixture_fits(a, row, total, lo, mid, steps - 1);
        } else {
            law_mixture_fits(a, row, total, mid, hi, steps - 1);
        }
    }
}

/// A larger trim never gives a band less, and below the middle of the scale the low bands
/// pay for the high ones.
pub proof fn law_trim_tilts_the_allocation(a: AllocInput, b: AllocInput, j: int)
    requires
        b == (AllocInput { trim: b.trim, ..a }),
        0 <= a.trim <= b.trim <= 10,
        1 <= a.channels <= 2,
        0 <= a.lm <= 3,
        a.start <= j < a.end,
        0 <= a.mode.width(j) <= 256,
    ensures
        a.trim_offset(j) <= b.trim_offset(j),
        a.trim == 5 + a.lm && a.mode.width(j) * a.m() != 1 ==> a.trim_offset(j) == 0,
        a.trim > 5 + a.lm && j + 1 < a.end && a.mode.width(j) * a.m() >= 8 ==> a.trim_offset(j) > 0,
        b.trim < 5 + a.lm && j + 1 < a.end && a.mode.width(j) * a.m() >= 8 ==> b.trim_offset(j) < 0,
{
    let w = a.mode.width(j) * a.m();
    assert(0 <= w) by (nonlinear_arith)
        requires
            w == a.mode.width(j) * a.m(),
            0 <= a.mode.width(j),
            1 <= a.m(),
    ;
    let c = a.channels as int;
    let r = a.end - j - 1;
    let p = a.trim - 5 - a.lm;
    let q = b.trim - 5 - a.lm;
    assert(c * p <= c * q) by (nonlinear_arith)
        requires
            p <= q,
            c >= 1,
    ;
    assert((c * p) * r <= (c * q) * r) by (nonlinear_arith)
        requires
            c * p <= c * q,
            r >= 0,
    ;
    let x = (c * p) * r;
    let y = (c * q) * r;
    assert(w * x <= w * y) by (nonlinear_arith)
        requires
            x <= y,
            w >= 0,
    ;
    if p == 0 {
        assert(c * p == 0 && x == 0 && w * x == 0) by (nonlinear_arith)
            requires
                p == 0,
                x == (c * p) * r,
        ;
    }
    if p > 0 && r >= 1 && w >= 8 {
        assert(c * p >= 1 && x >= 1 && w * x >= 8) by (nonlinear_arith)
            requires
                p >= 1,
                c >= 1,
                r >= 1,
                w >= 8,
                x == (c * p) * r,
        ;
    }
    if q < 0 && r >= 1 && w >= 8 {
        assert(c * q <= -1 && y <= -1 && w * y <= -8) by (nonlinear_arith)
            requires
                q <= -1,
                c >= 1,
                r >= 1,
                w >= 8,
                y == (c * q) * r,
        ;
    }
}

/// The flags that are reserved are paid from the bits of the frame.
pub proof fn law_flags_are_reserved(a: AllocInput)
    requires
        1 <= a.channels <= 2,
        0 <= a.end - a.start < 24,
    ensures
        ({
            let (skip, intensity, dual) = a.reserved();
            let total = if a.total > 0 { a.total as int } else { 0 };
            &&& skip + intensity + dual + a.shared_total() == total
            &&& 0 <= a.shared_total()
            &&& skip == (if total >= 8 { 8int } else { 0 })
            &&& a.channels == 1 ==> intensity == 0 && dual == 0
            &&& dual == 0 || dual == 8
        }),
{
}

/// The costs of a run never fall.
pub open spec fn costs_rise(bits: Seq<u8>, at: int, most: int) -> bool {
    forall|p: int, q: int|
        1 <= p <= q <= most ==> #[trigger] run_cost(bits, at, p) <= #[trigger] run_cost(bits, at, q)
}

/// The bisection ends with neighbours around the target.
proof fn lemma_bracket(
    bits: Seq<u8>,
    at: int,
    target: int,
    lo: int,
    hi: int,
    steps: nat,
    most: int,
)
    requires
        0 <= lo <= hi <= most,
        1 <= hi,
        hi - lo <= pow2(steps),
        lo == 0 || run_cost(bits, at, lo) < target,
        hi == most || run_cost(bits, at, hi) >= target,
    ensures
        ({
            let (l, h) = bracket(bits, at, target, lo, hi, steps);
            &&& lo <= l <= h <= hi
            &&& 1 <= h
            &&& h - l <= 1
            &&& l == 0 || run_cost(bits, at, l) < target
            &&& h == most || run_cost(bits, at, h) >= target
        }),
    decreases steps,
{
    lemma2_to64();
    if steps > 0 {
        let mid = (lo + hi + 1) / 2;
        lemma_pow2_unfold(steps);
        lemma_pow2_pos((steps - 1) as nat);
        if run_cost(bits, at, mid) >= target {
            lemma_bracket(bits, at, target, lo, mid, (steps - 1) as nat, most);
        } else {
            lemma_bracket(bits, at, target, mid, hi, (steps - 1) as nat, most);
        }
    }
}

/// The pulse count that is found for a number of bits is the one whose cost comes nearest
/// to them.
pub proof fn law_pulses_cost_what_was_given(
    mode: OpusCustomMode,
    band: int,
    lm: int,
    b: int,
    other: int,
)
    requires
        ({
            let at = mode.cache_start(lm, band);
            &&& mode.cache_run(at)
            &&& costs_rise(mode.cache.bits@, at, mode.cache.bits@[at] as int)
            &&& 0 <= other <= mode.cache.bits@[at]
        }),
        b >= 1,
    ensures
        ({
            let q = pulses_for(mode, band, lm, b);
            let cost = bits_for(mode, band, lm, q);
            let d = if cost < b { b - cost } else { cost - b };
            let away = bits_for(mode, band, lm, other);
            let e = if away < b { b - away } else { away - b };
            &&& 0 <= q <= mode.cache.bits@[mode.cache_start(lm, band)]
            &&& d <= e
        }),
{
    lemma2_to64();
    let bits = mode.cache.bits@;
    let at = mode.cache_start(lm, band);
    let most = bits[at] as int;
    let target = b - 1;
    lemma_bracket(bits, at, target, 0, most, 6, most);
    let (lo, hi) = bracket(bits, at, target, 0, most, 6);
    assert(run_cost(bits, at, hi) <= run_cost(bits, at, most));
    if lo >= 1 {
        assert(run_cost(bits, at, lo) <= run_cost(bits, at, hi));
    }
    if 1 <= other <= lo {
        assert(run_cost(bits, at, other) <= run_cost(bits, at, lo));
    }
    if other >= hi {
        assert(run_cost(bits, at, hi) <= run_cost(bits, at, other));
    }
}

/// Bands are given up from the end, never below the last boosted one; a band that is given
/// up keeps one bit for each channel at most, and the bits of the others stay.
pub proof fn law_bands_are_skipped_from_the_end(
    a: AllocInput,
    s: SkipState<'_>,
    skip_start: int,
    skip_rsv: i32,
    j: int,
)
    requires
        0 <= skip_start < s.coded <= s.bits.len(),
        0 <= j < s.bits.len(),
        1 <= a.channels <= 2,
    ensures
        ({
            let r = a.skipped(s, skip_start, skip_rsv);
            &&& skip_start < r.coded <= s.coded
            &&& r.bits.len() == s.bits.len()
            &&& j < r.coded || j >= s.coded ==> r.bits[j] == s.bits[j]
            &&& r.coded <= j < s.coded ==> r.bits[j] == 0 || r.bits[j] == 8 * a.channels
            &&& r.total == s.total || r.total == s.total.wrapping_add(skip_rsv)
            &&& r.total != s.total ==> r.coded == skip_start + 1
        }),
    decreases s.coded,
{
    if s.coded - 1 > skip_start {
        let band_bits = a.last_band_bits(s);
        if band_bits >= a.skip_threshold(s.coded - 1) {
            let (d, stop) = s.dec.bit(1);
            if !stop {
                law_bands_are_skipped_from_the_end(
                    a,
                    a.band_dropped(SkipState { dec: d, ..s }, band_bits, true),
                    skip_start,
                    skip_rsv,
                    j,
                );
            }
        } else {
            law_bands_are_skipped_from_the_end(
                a,
                a.band_dropped(s, band_bits, false),
                skip_start,
                skip_rsv,
                j,
            );
        }
    }
}

/// The last boosted band is the last one that is not skipped.
pub proof fn law_boosted_bands_are_kept(a: AllocInput, j: int, k: int)
    requires
        a.start <= j,
        a.start < k < j,
    ensures
        a.start <= a.skip_start(j) < j || a.skip_start(j) == a.start,
        a.offsets[k] > 0 ==> a.skip_start(j) >= k,
        a.skip_start(j) > a.start ==> a.offsets[a.skip_start(j)] > 0,
    decreases j - a.start,
{
    if j - 1 > a.start && a.offsets[j - 1] <= 0 {
        if k < j - 1 {
            law_boosted_bands_are_kept(a, j - 1, k);
        } else {
            lemma_skip_start(a, j - 1);
        }
    }
}

/// Where the search for a boosted band ends.
proof fn lemma_skip_start(a: AllocInput, j: int)
    requires
        a.start <= j,
    ensures
        a.start <= a.skip_start(j),
        a.skip_start(j) < j || a.skip_start(j) == a.start,
        a.skip_start(j) > a.start ==> a.offsets[a.skip_start(j)] > 0,
    decreases j - a.start,
{
    if j > a.start && a.offsets[j - 1] <= 0 {
        lemma_skip_start(a, j - 1);
    }
}

} // verus!
