//! Bit allocation: conversion between bits and pulses, and the distribution of
//! a frame's bits over its bands.

use vstd::prelude::*;
use crate::mode::OpusCustomMode;

verus! {

/// Cost, in 1/8 bits minus one, of pseudo-count `q` in the run at `at`.
pub open spec fn run_cost(bits: Seq<u8>, at: int, q: int) -> int {
    bits[at + q] as int
}

/// Bisection for the pseudo-counts whose costs enclose `target`.
pub open spec fn bracket(bits: Seq<u8>, at: int, target: int, lo: int, hi: int, steps: nat) -> (
    int,
    int,
)
    decreases steps,
{
    if steps == 0 {
        (lo, hi)
    } else {
        let mid = (lo + hi + 1) / 2;
        if run_cost(bits, at, mid) >= target {
            bracket(bits, at, target, lo, mid, (steps - 1) as nat)
        } else {
            bracket(bits, at, target, mid, hi, (steps - 1) as nat)
        }
    }
}

/// The pseudo-count whose cost is nearest to `b` eighths of a bit.
pub open spec fn pulses_for(mode: OpusCustomMode, band: int, lm: int, b: int) -> int {
    let bits = mode.cache.bits@;
    let at = mode.cache_start(lm, band);
    let target = b - 1;
    let (lo, hi) = bracket(bits, at, target, 0, bits[at] as int, 6);
    let below = if lo == 0 { -1 } else { run_cost(bits, at, lo) };
    if target - below <= run_cost(bits, at, hi) - target {
        lo
    } else {
        hi
    }
}

/// Cost of a pseudo-count in 1/8 bits.
pub open spec fn bits_for(mode: OpusCustomMode, band: int, lm: int, q: int) -> int {
    if q == 0 {
        0
    } else {
        run_cost(mode.cache.bits@, mode.cache_start(lm, band), q) + 1
    }
}

/// Start of a pulse-cost run.
pub(crate) fn run_start(mode: &OpusCustomMode, band: usize, lm: i32) -> (at: usize)
    requires
        mode.bands_wf(),
        mode.cache_wf(),
        mode.max_lm <= 3,
        band < mode.num_ebands,
        -1 <= lm <= mode.max_lm,
        mode.run_usable(lm as int, band as int),
    ensures
        at == mode.cache_start(lm as int, band as int),
        mode.cache_run(at as int),
{
    proof {
        assert(0 <= (lm + 1) * mode.num_ebands && (lm + 1) * mode.num_ebands + band < (mode.max_lm
            + 2) * mode.num_ebands && (mode.max_lm + 2) * mode.num_ebands <= 125) by (
        nonlinear_arith)
            requires
                0 <= lm + 1 <= mode.max_lm + 1,
                0 <= band < mode.num_ebands,
                mode.max_lm <= 3,
                mode.num_ebands <= 25,
        ;
    }
    mode.cache.index[(lm + 1) as usize * mode.num_ebands + band] as usize
}

/// Computes [`pulses_for`].
pub fn bits2pulses(mode: &OpusCustomMode, band: usize, lm: i32, b: i32) -> (q: i32)
    requires
        mode.bands_wf(),
        mode.cache_wf(),
        mode.max_lm <= 3,
        band < mode.num_ebands,
        -1 <= lm <= mode.max_lm,
        mode.run_usable(lm as int, band as int),
    ensures
        q == pulses_for(*mode, band as int, lm as int, b as int),
        0 <= q <= mode.cache.bits@[mode.cache_start(lm as int, band as int)],
        q <= 40,
{
    let at: usize = run_start(mode, band, lm);
    let target: i64 = b as i64 - 1;
    let mut lo: usize = 0;
    let mut hi: usize = mode.cache.bits[at] as usize;
    let ghost top = hi as int;
    assert(mode.cache.bits@.len() == mode.cache.bits.len());
    for step in 0..6
        invariant
            mode.cache_run(at as int),
            mode.cache.bits@.len() <= usize::MAX,
            top == mode.cache.bits@[at as int],
            0 <= lo <= hi <= top <= 40,
            1 <= hi,
            bracket(
                mode.cache.bits@,
                at as int,
                target as int,
                lo as int,
                hi as int,
                (6 - step) as nat,
            ) == bracket(mode.cache.bits@, at as int, target as int, 0, top, 6),
    {
        let mid: usize = (lo + hi + 1) / 2;
        if mode.cache.bits[at + mid] as i64 >= target {
            hi = mid;
        } else {
            lo = mid;
        }
    }
    let below: i64 = if lo == 0 { -1 } else { mode.cache.bits[at + lo] as i64 };
    let above: i64 = mode.cache.bits[at + hi] as i64;
    if target - below <= above - target {
        lo as i32
    } else {
        hi as i32
    }
}

/// Computes [`bits_for`].
pub fn pulses2bits(mode: &OpusCustomMode, band: usize, lm: i32, q: i32) -> (b: i32)
    requires
        mode.bands_wf(),
        mode.cache_wf(),
        mode.max_lm <= 3,
        band < mode.num_ebands,
        -1 <= lm <= mode.max_lm,
        mode.run_usable(lm as int, band as int),
        0 <= q <= mode.cache.bits@[mode.cache_start(lm as int, band as int)],
    ensures
        b == bits_for(*mode, band as int, lm as int, q as int),
        0 <= b <= 256,
{
    if q == 0 {
        return 0;
    }
    let at: usize = run_start(mode, band, lm);
    mode.cache.bits[at + q as usize] as i32 + 1
}

} // verus!
