//! The comb filter of the post-filter, fading from one setting to another.

use vstd::prelude::*;
use crate::fixed::{mult16_16_p15, mult16_16_q15, mult16_32_q15, Q15_ONE};
use crate::decoder::COMBFILTER_MINPERIOD;
use crate::plc::sig_clamped;

verus! {

/// Gains of the centre, the near and the far taps of each tap set, in Q15.
pub const TAP_GAINS: [[i16; 3]; 3] = [[10048, 7112, 4248], [15200, 8784, 0], [26208, 3280, 0]];

/// Parameters of a comb filter that fades from one setting to another.
#[derive(Clone, Copy)]
pub struct CombParameters {
    pub period_from: i32,
    pub period_to: i32,
    /// Gains in Q15.
    pub gain_from: i16,
    pub gain_to: i16,
    pub tapset_from: i32,
    pub tapset_to: i32,
}

/// Gains of the taps on one side.
#[derive(Clone, Copy)]
pub struct Taps {
    pub period: i32,
    pub centre: i16,
    pub near: i16,
    pub far: i16,
}

/// Taps for a period, a gain and a tap set.
pub open spec fn taps_of(period: i32, gain: i16, tapset: i32) -> Taps {
    let g = TAP_GAINS@[tapset as int]@;
    Taps {
        period: if period < COMBFILTER_MINPERIOD { COMBFILTER_MINPERIOD } else { period },
        centre: mult16_16_p15(gain, g[0]),
        near: mult16_16_p15(gain, g[1]),
        far: mult16_16_p15(gain, g[2]),
    }
}

/// Computes [`taps_of`].
fn find_taps(period: i32, gain: i16, tapset: i32) -> (t: Taps)
    requires
        0 <= tapset <= 2,
    ensures
        t == taps_of(period, gain, tapset),
{
    let k: usize = tapset as usize;
    Taps {
        period: if period < COMBFILTER_MINPERIOD { COMBFILTER_MINPERIOD } else { period },
        centre: mult16_16_p15(gain, TAP_GAINS[k][0]),
        near: mult16_16_p15(gain, TAP_GAINS[k][1]),
        far: mult16_16_p15(gain, TAP_GAINS[k][2]),
    }
}

/// A sample of a history; there is silence around it.
pub open spec fn sample_at(x: Seq<i32>, at: int) -> i32 {
    if 0 <= at < x.len() {
        x[at]
    } else {
        0
    }
}

/// Computes [`sample_at`].
fn get_sample(x: &Vec<i32>, at: i64) -> (v: i32)
    ensures
        v == sample_at(x@, at as int),
{
    if at >= 0 && (at as u64) < x.len() as u64 {
        x[at as usize]
    } else {
        0
    }
}

/// What the taps pick up for the sample at `at`, weighted by `weight`.
pub open spec fn picked_up(x: Seq<i32>, at: int, t: Taps, weight: Option<i16>) -> i32 {
    let g = |v: i16|
        match weight {
            Some(w) => mult16_16_q15(w, v),
            None => v,
        };
    let p = at - t.period;
    mult16_32_q15(g(t.centre), sample_at(x, p)).wrapping_add(
        mult16_32_q15(g(t.near), sample_at(x, p + 1).wrapping_add(sample_at(x, p - 1))),
    ).wrapping_add(
        mult16_32_q15(g(t.far), sample_at(x, p + 2).wrapping_add(sample_at(x, p - 2))),
    )
}

/// Computes [`picked_up`].
fn pick_up(x: &Vec<i32>, at: usize, t: &Taps, weight: Option<i16>) -> (v: i32)
    requires
        at <= 0xffff,
    ensures
        v == picked_up(x@, at as int, *t, weight),
{
    let (centre, near, far) = match weight {
        Some(w) => (
            mult16_16_q15(w, t.centre),
            mult16_16_q15(w, t.near),
            mult16_16_q15(w, t.far),
        ),
        None => (t.centre, t.near, t.far),
    };
    let p: i64 = at as i64 - t.period as i64;
    mult16_32_q15(centre, get_sample(x, p)).wrapping_add(
        mult16_32_q15(near, get_sample(x, p + 1).wrapping_add(get_sample(x, p - 1))),
    ).wrapping_add(
        mult16_32_q15(far, get_sample(x, p + 2).wrapping_add(get_sample(x, p - 2))),
    )
}

/// A filtered sample, biased by one step and limited.
#[verifier::allow_in_spec]
pub fn comb_output(v: i32) -> i32
    returns
        sig_clamped(v.wrapping_sub(1)),
{
    sig_clamped(v.wrapping_sub(1))
}

impl CombParameters {
    /// The tap sets exist.
    pub open spec fn wf(self) -> bool {
        0 <= self.tapset_from <= 2 && 0 <= self.tapset_to <= 2
    }

    /// Samples over which the filter fades: none where nothing changes.
    pub open spec fn fade(self, overlap: int) -> int {
        let from = taps_of(self.period_from, self.gain_from, self.tapset_from);
        let to = taps_of(self.period_to, self.gain_to, self.tapset_to);
        if self.gain_from == self.gain_to && from.period == to.period && self.tapset_from
            == self.tapset_to {
            0
        } else {
            overlap
        }
    }

    /// The sample `i` behind `at`, filtered.
    pub open spec fn filtered_sample(
        self,
        x: Seq<i32>,
        at: int,
        i: int,
        window: Seq<i16>,
        overlap: int,
    ) -> i32 {
        let from = taps_of(self.period_from, self.gain_from, self.tapset_from);
        let to = taps_of(self.period_to, self.gain_to, self.tapset_to);
        let v = x[at + i];
        if self.gain_from == 0 && self.gain_to == 0 {
            v
        } else if i < self.fade(overlap) {
            let f = mult16_16_q15(window[i], window[i]);
            comb_output(
                v.wrapping_add(
                    picked_up(x, at + i, from, Some(Q15_ONE.wrapping_sub(f))),
                ).wrapping_add(picked_up(x, at + i, to, Some(f))),
            )
        } else if self.gain_to == 0 {
            v
        } else {
            comb_output(v.wrapping_add(picked_up(x, at + i, to, None)))
        }
    }

    /// The samples from `i` to `n` behind `at` filtered in place, each from the
    /// filtered ones in front of it.
    pub open spec fn filtered_in_place(
        self,
        x: Seq<i32>,
        at: int,
        n: int,
        window: Seq<i16>,
        overlap: int,
        i: int,
    ) -> Seq<i32>
        decreases n - i,
    {
        if i >= n {
            x
        } else {
            self.filtered_in_place(
                x.update(at + i, self.filtered_sample(x, at, i, window, overlap)),
                at,
                n,
                window,
                overlap,
                i + 1,
            )
        }
    }

    /// Computes [`CombParameters::filtered_sample`].
    fn filter_sample(
        &self,
        x: &Vec<i32>,
        at: usize,
        i: usize,
        window: &Vec<i16>,
        overlap: usize,
    ) -> (v: i32)
        requires
            self.wf(),
            at + i < x@.len(),
            at + i <= 0xffff,
            overlap <= window@.len(),
        ensures
            v == self.filtered_sample(x@, at as int, i as int, window@, overlap as int),
    {
        let v: i32 = x[at + i];
        if self.gain_from == 0 && self.gain_to == 0 {
            return v;
        }
        let from: Taps = find_taps(self.period_from, self.gain_from, self.tapset_from);
        let to: Taps = find_taps(self.period_to, self.gain_to, self.tapset_to);
        let same: bool = self.gain_from == self.gain_to && from.period == to.period
            && self.tapset_from == self.tapset_to;
        if !same && i < overlap {
            let f: i16 = mult16_16_q15(window[i], window[i]);
            comb_output(
                v.wrapping_add(
                    pick_up(x, at + i, &from, Some(Q15_ONE.wrapping_sub(f))),
                ).wrapping_add(pick_up(x, at + i, &to, Some(f))),
            )
        } else if self.gain_to == 0 {
            v
        } else {
            comb_output(v.wrapping_add(pick_up(x, at + i, &to, None)))
        }
    }

    /// Filters the `n` samples behind `at` into a buffer of their own.
    pub fn comb_filter(
        &self,
        x: &Vec<i32>,
        at: usize,
        n: usize,
        window: &Vec<i16>,
        overlap: usize,
    ) -> (y: Vec<i32>)
        requires
            self.wf(),
            at + n <= x@.len(),
            at + n <= 0xffff,
            overlap <= window@.len(),
        ensures
            y@ == Seq::new(
                n as nat,
                |i: int| self.filtered_sample(x@, at as int, i, window@, overlap as int),
            ),
    {
        let mut y: Vec<i32> = Vec::new();
        for i in 0..n
            invariant
                self.wf(),
                at + n <= x@.len(),
                at + n <= 0xffff,
                overlap <= window@.len(),
                y@.len() == i,
                forall|k: int|
                    0 <= k < i ==> #[trigger] y@[k] == self.filtered_sample(
                        x@,
                        at as int,
                        k,
                        window@,
                        overlap as int,
                    ),
        {
            y.push(self.filter_sample(x, at, i, window, overlap));
        }
        assert(y@ =~= Seq::new(
            n as nat,
            |i: int| self.filtered_sample(x@, at as int, i, window@, overlap as int),
        ));
        y
    }

    /// Filters the `n` samples behind `at` in place.
    pub fn comb_filter_in_place(
        &self,
        x: &mut Vec<i32>,
        at: usize,
        n: usize,
        window: &Vec<i16>,
        overlap: usize,
    )
        requires
            self.wf(),
            at + n <= old(x)@.len(),
            at + n <= 0xffff,
            overlap <= window@.len(),
        ensures
            final(x)@ == self.filtered_in_place(
                old(x)@,
                at as int,
                n as int,
                window@,
                overlap as int,
                0,
            ),
            final(x)@.len() == old(x)@.len(),
            forall|k: int|
                0 <= k < old(x)@.len() && !(at <= k < at + n) ==> #[trigger] final(x)@[k]
                    == old(x)@[k],
    {
        let ghost x0 = x@;
        for i in 0..n
            invariant
                self.wf(),
                at + n <= x@.len(),
                at + n <= 0xffff,
                overlap <= window@.len(),
                x@.len() == x0.len(),
                forall|k: int| 0 <= k < x0.len() && !(at <= k < at + n) ==> #[trigger] x@[k] == x0[k],
                self.filtered_in_place(
                    x@,
                    at as int,
                    n as int,
                    window@,
                    overlap as int,
                    i as int,
                ) == self.filtered_in_place(x0, at as int, n as int, window@, overlap as int, 0),
        {
            let v: i32 = self.filter_sample(x, at, i, window, overlap);
            x.set(at + i, v);
        }
    }
}

} // verus!
