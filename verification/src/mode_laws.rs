//! The canonical mode is well formed.

use vstd::prelude::*;
use crate::band_encode::{angles_coded, least_steps};
use crate::band_laws::even_bands;
use crate::band_tf::scale_of;
use crate::laws::regular;
use crate::mdct::{plan_wf, product};
use crate::mode::OpusCustomMode;
use crate::mode_tables::{
    canonical_sizes, canonical_tables, CACHE_BITS_48000, CACHE_INDEX_48000, EBANDS_48000,
    LOG_N_48000,
};
use crate::pvq_counts::{lemma_numbered, numbered};
use crate::theta::{angle_bits, exp2_eighth, lemma_steps_range, steps_for};

verus! {

/// Coefficients of a canonical band, by the row of the pulse-cost index.
spec fn size_of(row: int, band: int) -> int {
    let w = EBANDS_48000@[band + 1] - EBANDS_48000@[band];
    if row == 0 {
        w / 2
    } else if row == 1 {
        w
    } else if row == 2 {
        w * 2
    } else if row == 3 {
        w * 4
    } else {
        w * 8
    }
}

/// A canonical band holds no coefficient, or it has a complete pulse-cost run
/// with vectors that can be numbered.
spec fn priced(row: int, band: int) -> bool {
    let at = CACHE_INDEX_48000@[row * 21 + band] as int;
    let n = size_of(row, band);
    n == 0 || {
        &&& 0 <= at
        &&& 1 <= CACHE_BITS_48000@[at] <= 40
        &&& at + CACHE_BITS_48000@[at] < 392
        &&& 1 <= n
        &&& numbered(n, CACHE_BITS_48000@[at] as int)
    }
}

/// Every canonical band is priced in every row.
proof fn lemma_priced(row: int, band: int)
    requires
        0 <= row < 5,
        0 <= band < 21,
    ensures
        priced(row, band),
{
    if row == 0 {
        lemma_priced_row(0, band);
    } else if row == 1 {
        lemma_priced_row(1, band);
    } else if row == 2 {
        lemma_priced_row(2, band);
    } else if row == 3 {
        lemma_priced_row(3, band);
    } else {
        lemma_priced_row(4, band);
    }
}

/// The bands of one row.
proof fn lemma_priced_row(row: int, band: int)
    requires
        row == 0 || row == 1 || row == 2 || row == 3 || row == 4,
        0 <= band < 21,
    ensures
        priced(row, band),
{
}

/// The canonical edges.
proof fn lemma_edges()
    ensures
        EBANDS_48000@.len() == 22,
        EBANDS_48000@[0] == 0,
        EBANDS_48000@[1] == 1,
        EBANDS_48000@[2] == 2,
        EBANDS_48000@[21] == 100,
        forall|i: int, j: int| 0 <= i <= j < 22 ==> EBANDS_48000@[i] <= EBANDS_48000@[j],
        forall|i: int|
            0 <= i < 21 ==> {
                let w = #[trigger] EBANDS_48000@[i + 1] - EBANDS_48000@[i];
                w >= 1 && (w > 2 ==> w % 2 == 0)
            },
{
}

/// The canonical transforms.
proof fn lemma_plans()
    ensures
        plan_wf(seq![5usize, 3, 4, 2, 4], 480),
        plan_wf(seq![5usize, 3, 4, 4], 240),
        plan_wf(seq![5usize, 3, 2, 4], 120),
        plan_wf(seq![5usize, 3, 4], 60),
{
    reveal_with_fuel(product, 6);
}

/// The tables of the canonical mode make a regular mode, with bands that can be
/// split evenly.
pub proof fn law_canonical_mode_is_regular(mode: OpusCustomMode)
    requires
        canonical_sizes(mode),
        canonical_tables(mode),
    ensures
        regular(mode),
        even_bands(mode),
{
    reveal(canonical_tables);
    lemma_edges();
    assert(mode.bands_wf());
    assert(mode.sizes_wf());
    assert forall|shift: int| 0 <= shift <= mode.max_lm implies #[trigger] mode.mdct.serves(
        shift,
        scale_of(mode.max_lm - shift) * mode.short_mdct_size,
    ) by {
        lemma_plans();
        assert(scale_of(3) * 120 == 960 && scale_of(2) * 120 == 480 && scale_of(1) * 120 == 240
            && scale_of(0) * 120 == 120);
        assert(shift == 0 || shift == 1 || shift == 2 || shift == 3);
    }
    assert forall|row: int, band: int|
        #![trigger mode.cache_start(row - 1, band)]
        0 <= row < mode.max_lm + 2 && 0 <= band < mode.num_ebands && (row >= 1 || mode.width(band)
            >= 2) && mode.width(band) >= 1 implies mode.run_usable(row - 1, band) by {
        lemma_priced(row, band);
        let at = mode.cache_start(row - 1, band);
        assert(at == CACHE_INDEX_48000@[row * 21 + band]);
        assert(mode.band_size(row - 1, band) == size_of(row, band));
        lemma_numbered(size_of(row, band), CACHE_BITS_48000@[at] as int);
    }
}

/// A canonical band that is split has bits enough for an angle.
spec fn angled(row: int, band: int) -> bool {
    let at = CACHE_INDEX_48000@[row * 21 + band] as int;
    let b = CACHE_BITS_48000@[at + CACHE_BITS_48000@[at]] + 13;
    let cap = LOG_N_48000@[band] + (row - 2) * 8;
    let dof = 2 * (size_of(row, band) / 2) - 1;
    size_of(row, band) > 2 ==> {
        &&& dof >= 1
        &&& b + dof * (cap / 2 - 4) >= 4 * dof
        &&& b - cap - 32 >= 4
    }
}

/// Every canonical band that is split has bits enough.
proof fn lemma_angled(row: int, band: int)
    requires
        1 <= row < 5,
        0 <= band < 21,
    ensures
        angled(row, band),
{
    if row == 1 {
        lemma_angled_row(1, band);
    } else if row == 2 {
        lemma_angled_row(2, band);
    } else if row == 3 {
        lemma_angled_row(3, band);
    } else {
        lemma_angled_row(4, band);
    }
}

/// The bands of one row.
#[verifier::nonlinear]
proof fn lemma_angled_row(row: int, band: int)
    requires
        row == 1 || row == 2 || row == 3 || row == 4,
        0 <= band < 21,
    ensures
        angled(row, band),
{
}

/// Half a bit pays for an angle.
proof fn lemma_steps_paid(qb: int)
    requires
        4 <= qb <= 64,
    ensures
        steps_for(qb) != 1,
{
    lemma_steps_range(qb);
    let x = exp2_eighth(qb % 8) / vstd::arithmetic::power2::pow2((14 - qb / 8) as nat) as int;
    assert(((x + 1) / 2 * 2) % 2 == 0);
}

/// In the canonical mode every part that is split has bits enough for an angle.
pub proof fn law_canonical_mode_codes_angles(mode: OpusCustomMode)
    requires
        canonical_sizes(mode),
        canonical_tables(mode),
    ensures
        angles_coded(mode),
{
    reveal(canonical_tables);
    assert forall|lm: int, band: int|
        #![trigger mode.cache_start(lm, band)]
        0 <= lm <= mode.max_lm && 0 <= band < mode.num_ebands && mode.width(band) >= 1
            && mode.band_size(lm, band) > 2 implies least_steps(mode, lm, band) != 1 by {
        let row = lm + 1;
        lemma_angled(row, band);
        let at = mode.cache_start(lm, band);
        assert(at == CACHE_INDEX_48000@[row * 21 + band]);
        let n = mode.band_size(lm, band) / 2;
        assert(mode.band_size(lm, band) == size_of(row, band));
        let b = CACHE_BITS_48000@[at + CACHE_BITS_48000@[at]] + 13;
        let cap = LOG_N_48000@[band] + (lm - 1) * 8;
        let dof = 2 * n - 1;
        let x = b + dof * (cap / 2 - 4);
        assert(x / dof >= 4) by (nonlinear_arith)
            requires
                x >= 4 * dof,
                dof >= 1,
        ;
        lemma_steps_paid(angle_bits(n, b, cap / 2 - 4, cap, false));
    }
}

} // verus!
