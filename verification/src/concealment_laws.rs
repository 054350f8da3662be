//! What concealment does over a run of lost frames.

use vstd::prelude::*;
use crate::concealment::{lag_of, lost, prefilter, row_advanced};
use crate::decoder::{DecoderState, PLC_PITCH_LAG_MAX, PLC_PITCH_LAG_MIN};
use crate::plc::decay_terms;

verus! {

/// Lowest log energy that can still fall without leaving its word, -126.5 in Q24.
pub const LOWEST_LOG_E: i32 = -2122317824;

/// Whether element `i` of the energy rows belongs to a coded band of an output
/// channel.
pub open spec fn concealed_band(s: DecoderState, i: int) -> bool {
    &&& 0 <= i < s.channels * s.mode.num_ebands
    &&& s.start_band <= i % (s.mode.num_ebands as int) < s.end_band
}

/// A frame of noise never raises an energy that is above its background: it lets it
/// fall, by one and a half in the first lost frame and by one half later on, and
/// stops at the background. Energies outside of the coded bands stay.
pub proof fn law_noise_dies_away(s: DecoderState, t: DecoderState, n: int, lm: int, i: int)
    requires
        s.valid(),
        s.noise_based(),
        lost(s, t, n, lm),
        0 <= i < s.old_ebands.len(),
        s.old_ebands[i] >= LOWEST_LOG_E,
    ensures
        t.old_ebands.len() == s.old_ebands.len(),
        t.background_log_e == s.background_log_e,
        !concealed_band(s, i) ==> t.old_ebands[i] == s.old_ebands[i],
        concealed_band(s, i) ==> {
            let before = s.old_ebands[i];
            let after = t.old_ebands[i];
            let background = s.background_log_e[i];
            &&& after >= background
            &&& before > background ==> after < before
            &&& before <= background ==> after == background
            &&& after > background && s.loss_duration == 0 ==> 2 * (before - after) == 3 * 0x1000000
            &&& after > background && s.loss_duration != 0 ==> 2 * (before - after) == 0x1000000
            &&& before - after <= 3 * 0x800000
        },
{
    assert(s.channels * s.mode.num_ebands <= s.old_ebands.len()) by (nonlinear_arith)
        requires
            s.channels <= 2,
            s.old_ebands.len() == 2 * s.mode.num_ebands,
    ;
}

/// A run of frames that are lost one after the other.
pub open spec fn run_of_losses(states: Seq<DecoderState>, n: int, lm: int) -> bool {
    &&& states.len() >= 1
    &&& states[0].valid()
    &&& states[0].noise_based()
    &&& 0 <= lm <= 3
    &&& 0 <= states[0].loss_duration <= 10000
    &&& forall|j: int| 0 <= j < states.len() - 1 ==> #[trigger] lost(states[j], states[j + 1], n, lm)
}

/// Within a run of losses the decoder stays with noise.
proof fn lemma_run(states: Seq<DecoderState>, n: int, lm: int, j: int)
    requires
        run_of_losses(states, n, lm),
        0 <= j < states.len(),
    ensures
        states[j].valid(),
        states[j].noise_based(),
        states[j].old_ebands.len() == states[0].old_ebands.len(),
        states[j].background_log_e == states[0].background_log_e,
        states[j].mode == states[0].mode,
        states[j].channels == states[0].channels,
        states[j].start_band == states[0].start_band,
        states[j].end_band == states[0].end_band,
        0 <= states[j].loss_duration <= 10000,
        j >= 1 ==> states[j].loss_duration >= 1,
    decreases j,
{
    if j > 0 {
        lemma_run(states, n, lm, j - 1);
        assert(lost(states[j - 1], states[(j - 1) + 1], n, lm));
    }
}

/// Over a run of lost frames the energy of a band falls all the time until it has
/// reached its background, where it stays: by half a unit a frame, after the first.
pub proof fn law_noise_keeps_dying_away(
    states: Seq<DecoderState>,
    n: int,
    lm: int,
    i: int,
    j: int,
    k: int,
)
    requires
        run_of_losses(states, n, lm),
        concealed_band(states[0], i),
        states[0].background_log_e[i] <= states[0].old_ebands[i],
        states[0].background_log_e[i] >= LOWEST_LOG_E,
        0 <= j < k < states.len(),
    ensures
        ({
            let background = states[0].background_log_e[i];
            let earlier = states[j].old_ebands[i];
            let later = states[k].old_ebands[i];
            &&& background <= later <= earlier
            &&& earlier > background ==> later < earlier
            &&& later > background && j >= 1 ==> earlier - later == (k - j) * 0x800000
        }),
    decreases k,
{
    let bands = states[0].mode.num_ebands;
    assert(states[0].channels * bands <= 2 * bands) by (nonlinear_arith)
        requires
            states[0].channels <= 2,
            bands >= 0,
    ;
    lemma_run(states, n, lm, k - 1);
    assert(lost(states[k - 1], states[(k - 1) + 1], n, lm));
    if k - 1 > 0 {
        law_noise_keeps_dying_away(states, n, lm, i, 0, k - 1);
    }
    assert(states[k - 1].old_ebands[i] >= LOWEST_LOG_E);
    law_noise_dies_away(states[k - 1], states[k], n, lm, i);
    if j < k - 1 {
        law_noise_keeps_dying_away(states, n, lm, i, j, k - 1);
    }
}

/// Every lost frame prolongs the loss by its short blocks, up to ten thousand of
/// them: two frames count as much as one of twice the length.
pub proof fn law_loss_grows_by_its_blocks(s: DecoderState, t: DecoderState, n: int, lm: int)
    requires
        lost(s, t, n, lm),
        0 <= lm <= 3,
        0 <= s.loss_duration <= 10000,
    ensures
        lm == 0 && s.loss_duration < 10000 ==> t.loss_duration == s.loss_duration + 1,
        lm == 1 && s.loss_duration <= 9998 ==> t.loss_duration == s.loss_duration + 2,
        lm == 2 && s.loss_duration <= 9996 ==> t.loss_duration == s.loss_duration + 4,
        lm == 3 && s.loss_duration <= 9992 ==> t.loss_duration == s.loss_duration + 8,
        s.loss_duration < t.loss_duration <= 10000 || s.loss_duration == t.loss_duration == 10000,
{
}

/// The pitch is continued at first: while forty short blocks have not been lost,
/// unless decoding starts above the first band or the pitch is not trusted. It keeps
/// the energies and asks for the overlap to be folded. All other losses are filled
/// with noise, and from then on the pitch is not trusted any more.
pub proof fn law_pitch_comes_before_noise(s: DecoderState, t: DecoderState, n: int, lm: int)
    requires
        lost(s, t, n, lm),
    ensures
        s.loss_duration < 40 && s.start_band == 0 && !s.skip_plc ==> {
            &&& t.prefilter_and_fold
            &&& !t.skip_plc
            &&& t.old_ebands == s.old_ebands
            &&& t.rng == s.rng
            &&& PLC_PITCH_LAG_MIN <= t.last_pitch_index <= PLC_PITCH_LAG_MAX
            &&& s.loss_duration != 0 ==> t.last_pitch_index == s.last_pitch_index && t.lpc == s.lpc
        },
        s.loss_duration >= 40 || s.start_band != 0 || s.skip_plc ==> {
            &&& !t.prefilter_and_fold
            &&& t.skip_plc
            &&& t.last_pitch_index == s.last_pitch_index
            &&& t.lpc == s.lpc
        },
{
}

/// A lag and its distance from the longest one make up the longest one, inside of
/// the range that is searched; a larger distance never gives a longer lag.
pub proof fn law_lags_are_distances(a: i32, b: i32)
    ensures
        0 <= a <= 620 ==> lag_of(a) + a == 720,
        100 <= lag_of(a) <= 720,
        a <= b ==> lag_of(b) <= lag_of(a),
{
}

/// A frame behind a pitch continuation starts from the overlap with the post-filter taken
/// back, that is, with the opposite gains; all other frames only move the history on.
pub proof fn law_overlap_is_folded_once(s: DecoderState, r: Seq<i32>, n: int, i: int)
    requires
        0 <= n <= 2048,
        r.len() >= 2048,
        0 <= i < r.len() - n,
        s.postfilter_gain > -32768,
        s.postfilter_gain_old > -32768,
    ensures
        !s.prefilter_and_fold ==> row_advanced(s, r, n)[i] == r[i + n],
        i < 2048 - n || i >= 2048 - n + s.overlap as int / 2 ==> row_advanced(s, r, n)[i] == r[i + n],
        prefilter(s).gain_to + s.postfilter_gain == 0,
        prefilter(s).gain_from + s.postfilter_gain_old == 0,
        prefilter(s).period_to == s.postfilter_period,
        prefilter(s).period_from == s.postfilter_period_old,
        prefilter(s).tapset_to == s.postfilter_tapset,
        prefilter(s).tapset_from == s.postfilter_tapset_old,
{
}

/// The decay of a continuation never grows: the later half of the excitation counts for as
/// much as the earlier one at most.
pub proof fn law_excitation_never_grows(exc: Seq<i16>, exc_length: int)
    ensures
        decay_terms(exc, exc_length).0 <= decay_terms(exc, exc_length).1,
{
}

} // verus!
