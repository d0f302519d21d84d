//! What a stall monitor makes of each trial, field by field.

use crate::binary64::{at_most, less, Binary64};
use crate::sample_laws::{escaped_before, law_full_window_is_judged_at_the_incumbent};
use crate::stall_model::{bits_of, MonitorState};
use crate::stall_monitor::{StallStep, StallVerdict, UnescapableRefusalWindow};
use vstd::prelude::*;

verus! {

/// The raw bits of a point.
pub open spec fn raw(point: Seq<Binary64>) -> Seq<u64> {
    Seq::new(point.len(), |i: int| point[i].bits)
}

/// What a full window says of an incumbent with the given gradient norm: converged inside
/// the band, an escape above it unless the last one was the same, and else a floor.
pub open spec fn judgement(norm: Binary64, band: Binary64, again: bool) -> StallVerdict {
    if norm.finite() && at_most(norm, band) {
        StallVerdict::Converged
    } else if norm.finite() && less(band, norm) && !again {
        StallVerdict::Escape { residual_grad_norm: norm, band }
    } else {
        StallVerdict::Floor { residual_grad_norm: norm }
    }
}

/// A refused trial is one more refusal and one more trial of the window, and changes
/// nothing else before the refusals fill the window. The one that fills it has the
/// incumbent judged, unless that is a strict saddle, where the search goes on with the
/// streaks empty.
pub proof fn law_refused_trial_counts<C>(
    state: MonitorState<C>,
    point: Seq<Binary64>,
    band: Binary64,
)
    requires
        state.has_incumbent(),
        state.refused_streak < usize::MAX,
    ensures
        ({
            let (next, verdict) = state.refused(point, band);
            let trials = state.window_trials.push(raw(point));
            let tried = MonitorState { window_trials: trials, ..state };
            let saddle = state.best_curvature_psd == Some(false);
            &&& state.refused_streak + 1 < state.window ==> next == (MonitorState {
                refused_streak: (state.refused_streak + 1) as usize,
                ..tried
            }) && verdict is Continue
            &&& state.window <= state.refused_streak + 1 && saddle ==> next == (MonitorState {
                refused_streak: 0,
                unescapable_streak: 0,
                no_improve_streak: 0,
                ..tried
            }) && verdict is Continue
            &&& state.window <= state.refused_streak + 1 && !saddle ==> verdict == judgement(
                state.best_grad_norm,
                band,
                escaped_before(tried),
            ) && next.accepted == state.accepted && next.recent == state.recent
                && next.best_point == state.best_point && next.best_value == state.best_value
                && next.best_grad_norm == state.best_grad_norm && next.best_curvature_psd
                == state.best_curvature_psd
        }),
{
    assert(bits_of(point) =~= raw(point));
    let next = state.refused_once(point);
    law_full_window_is_judged_at_the_incumbent(
        next,
        point,
        state.best_value,
        state.best_grad_norm,
        band,
    );
    let tried = MonitorState { window_trials: state.window_trials.push(raw(point)), ..state };
    assert(escaped_before(next) == escaped_before(tried));
}

/// An unescapable refusal counts twice, as a refusal and as one that nothing can escape,
/// and changes nothing else before the refusals fill the window. A window of nothing else
/// stops the search at the incumbent: converged inside the band, and else at a floor whose
/// exit names the refusals and the band. A window that also holds an ordinary refusal is
/// judged as a refusal would be.
pub proof fn law_unescapable_refusal_counts<C>(
    state: MonitorState<C>,
    point: Seq<Binary64>,
    band: Binary64,
    band_again: Binary64,
)
    requires
        state.has_incumbent(),
        state.unescapable_streak <= state.refused_streak < usize::MAX,
    ensures
        ({
            let (next, verdict) = state.blocked(point, band, band_again);
            let trials = state.window_trials.push(raw(point));
            let norm = state.best_grad_norm;
            let tried = MonitorState { window_trials: trials, ..state };
            let saddle = state.best_curvature_psd == Some(false);
            let filled = state.window <= state.refused_streak + 1;
            let inside = norm.finite() && at_most(norm, band);
            let only = state.unescapable_streak == state.refused_streak;
            &&& !filled ==> next == (MonitorState {
                refused_streak: (state.refused_streak + 1) as usize,
                unescapable_streak: (state.unescapable_streak + 1) as usize,
                ..tried
            }) && verdict is Continue
            &&& filled && !only && saddle ==> verdict is Continue && next.refused_streak == 0
                && next.unescapable_streak == 0 && next.no_improve_streak == 0 && next.exit
                == state.exit
            &&& filled && !only && !saddle ==> verdict == judgement(
                norm,
                band,
                escaped_before(tried),
            )
            &&& filled && only && inside ==> verdict == judgement(
                norm,
                band_again,
                escaped_before(tried),
            )
            &&& filled && only && !inside ==> {
                &&& verdict == (StallVerdict::Floor { residual_grad_norm: norm })
                &&& next.exit matches Some(exit) && Some(exit.point) == state.best_point
                    && exit.value == state.best_value && exit.grad_norm == norm && !exit.converged
                    && exit.accepted == state.accepted && exit.probe_scale
                    == state.window_probe_scale() && exit.unescapable_window == Some(
                    UnescapableRefusalWindow {
                        refused_trials: (state.unescapable_streak + 1) as usize,
                        band,
                    },
                )
                &&& next.refused_streak == state.refused_streak + 1
            }
        }),
{
    assert(bits_of(point) =~= raw(point));
    let next = state.blocked_once(point);
    let v = state.best_value;
    let g = state.best_grad_norm;
    law_full_window_is_judged_at_the_incumbent(next, point, v, g, band);
    law_full_window_is_judged_at_the_incumbent(next, point, v, g, band_again);
    let tried = MonitorState { window_trials: state.window_trials.push(raw(point)), ..state };
    assert(escaped_before(next) == escaped_before(tried));
}

/// A sample that is not trusted, or has no finite value, is a trial of the window and no
/// sample: the count of samples without progress starts again, what was staged for it is
/// dropped, one that is not trusted also ends a run of refusals, and all else stays.
pub proof fn law_unusable_sample_is_a_trial<C>(
    state: MonitorState<C>,
    point: Seq<Binary64>,
    value: Binary64,
    grad_norm: Binary64,
    trusted: bool,
    curvature_psd: Option<bool>,
    band_at_value: Binary64,
    band_at_best: Binary64,
)
    requires
        !trusted || !value.finite(),
    ensures
        ({
            let (next, verdict) = state.observed(
                point,
                value,
                grad_norm,
                trusted,
                curvature_psd,
                band_at_value,
                band_at_best,
            );
            &&& verdict is Continue
            &&& next == (MonitorState {
                staged_payload: None,
                no_improve_streak: 0,
                window_trials: state.window_trials.push(raw(point)),
                refused_streak: if trusted {
                    state.refused_streak
                } else {
                    0
                },
                unescapable_streak: if trusted {
                    state.unescapable_streak
                } else {
                    0
                },
                ..state
            })
        }),
{
    assert(bits_of(point) =~= raw(point));
}

/// The window of evidence after one more sample: the sample is last, those before it are
/// the latest of the earlier ones, and one more than the window's length are kept.
pub proof fn law_evidence_keeps_the_latest<C>(
    state: MonitorState<C>,
    point: Seq<Binary64>,
    value: Binary64,
    grad_norm: Binary64,
    curvature_psd: Option<bool>,
    band_at_value: Binary64,
    band_at_best: Binary64,
)
    requires
        value.finite(),
        state.recent.len() <= state.window + 1,
    ensures
        ({
            let before = state.recent;
            let sampled = state.observed(
                point,
                value,
                grad_norm,
                true,
                curvature_psd,
                band_at_value,
                band_at_best,
            ).0;
            let seeded = state.seeded(point, value, grad_norm, curvature_psd);
            let after = sampled.recent;
            let drop: int = if before.len() == state.window + 1 {
                1
            } else {
                0
            };
            &&& seeded.recent == after
            &&& after.len() == before.len() + 1 - drop
            &&& after.last() == (point, value)
            &&& forall|i: int|
                0 <= i < after.len() - 1 ==> #[trigger] after[i] == before[i + drop]
            &&& sampled.accepted == if state.accepted == usize::MAX {
                state.accepted
            } else {
                (state.accepted + 1) as usize
            }
            &&& seeded.accepted == sampled.accepted
        }),
{
}

/// The steps after one more: the step is last, those before it are the latest of the
/// earlier ones, and as many as the window's length are kept.
pub proof fn law_steps_keep_the_latest<C>(state: MonitorState<C>, step: StallStep)
    requires
        state.recent_steps.len() <= state.window,
        0 < state.window,
    ensures
        ({
            let before = state.recent_steps;
            let next = state.stepped(step);
            let after = next.recent_steps;
            let drop: int = if before.len() == state.window {
                1
            } else {
                0
            };
            &&& after.len() == before.len() + 1 - drop
            &&& after.last() == step
            &&& forall|i: int|
                0 <= i < after.len() - 1 ==> #[trigger] after[i] == before[i + drop]
            &&& next == (MonitorState { recent_steps: after, ..state })
        }),
{
}

/// A finite seed starts the search from it: it leads with the staged payload, every count
/// of the window is empty, past escapes and licences stay, and the exit is at it.
pub proof fn law_seed_starts_the_window<C>(
    state: MonitorState<C>,
    point: Seq<Binary64>,
    value: Binary64,
    grad_norm: Binary64,
    curvature_psd: Option<bool>,
)
    ensures
        ({
            let next = state.seeded(point, value, grad_norm, curvature_psd);
            &&& !value.finite() ==> next == (MonitorState { staged_payload: None, ..state })
            &&& value.finite() ==> {
                &&& next.best_point == Some(point)
                &&& next.best_value == value
                &&& next.best_grad_norm == grad_norm
                &&& next.best_curvature_psd == curvature_psd
                &&& next.best_payload == state.staged_payload
                &&& next.staged_payload is None
                &&& next.no_improve_streak == 0 && next.refused_streak == 0
                    && next.unescapable_streak == 0
                &&& next.window_trials.len() == 0
                &&& next.stuck_escapes == state.stuck_escapes
                &&& next.incumbent_at_last_escape == state.incumbent_at_last_escape
                &&& next.continuation_incumbent == state.continuation_incumbent
                &&& next.replay_proven == state.replay_proven
                &&& next.strict_saddle_refusal == state.strict_saddle_refusal
                &&& next.recent_steps == state.recent_steps
                &&& next.exit matches Some(exit) && exit.point == point && exit.value == value
                    && exit.grad_norm == grad_norm && exit.accepted == next.accepted
                    && !exit.converged && exit.probe_scale is None
                    && exit.unescapable_window is None
            }
        }),
{
}

/// A full window of samples at a strict saddle is an escape the first time: the search goes
/// on, the saddle flag is raised, and the window is open again. The same window again
/// proves a replay and is judged like any other.
pub proof fn law_full_window_at_a_saddle<C>(
    state: MonitorState<C>,
    point: Seq<Binary64>,
    value: Binary64,
    grad_norm: Binary64,
    band: Binary64,
)
    requires
        state.has_incumbent(),
        state.best_curvature_psd == Some(false),
        state.window <= state.no_improve_streak,
    ensures
        ({
            let (next, verdict) = state.decide_samples(point, value, grad_norm, band);
            &&& !escaped_before(state) ==> {
                &&& verdict is Continue
                &&& next.strict_saddle_refusal
                &&& next.no_improve_streak == 0 && next.window_trials.len() == 0
                &&& next.stuck_escapes == if state.stuck_escapes == usize::MAX {
                    state.stuck_escapes
                } else {
                    (state.stuck_escapes + 1) as usize
                }
                &&& escaped_before(MonitorState { window_trials: state.window_trials, ..next })
                &&& next.exit == state.exit
                &&& next.replay_proven == state.replay_proven
            }
            &&& escaped_before(state) ==> {
                &&& next.replay_proven
                &&& verdict == judgement(state.best_grad_norm, band, true)
                &&& next.strict_saddle_refusal == state.strict_saddle_refusal
            }
        }),
{
    let best = state.best_point->0;
    let identity = state.identity(best, state.best_value, state.best_grad_norm);
    match state.incumbent_at_last_escape {
        Some(last) => {
            if escaped_before(state) {
                assert(last.point =~= bits_of(best));
                assert(state.replays(identity));
            }
            if state.replays(identity) {
                assert(escaped_before(state));
            }
        },
        None => {},
    }
    let proven = MonitorState { replay_proven: true, ..state };
    assert(escaped_before(proven) == escaped_before(state));
    law_full_window_is_judged_at_the_incumbent(proven, point, value, grad_norm, band);
}

/// A licence remembers the incumbent it was given for, and nothing else; a refused one
/// leaves no trace. Without one before it, it is given unless a replay was proven.
pub proof fn law_licence_remembers_the_incumbent<C>(state: MonitorState<C>)
    ensures
        ({
            let next = state.after_license();
            &&& state.licensed() ==> next == (MonitorState {
                continuation_incumbent: Some((state.best_value, state.best_grad_norm)),
                ..state
            })
            &&& !state.licensed() ==> next == state
            &&& state.continuation_incumbent is None ==> state.licensed() == !state.replay_proven
        }),
{
}

/// Revoking takes back the claim of the published exit and counts as a publication;
/// deferring a full window does so and empties the count of samples without progress.
pub proof fn law_revoking_and_deferring<C>(state: MonitorState<C>)
    ensures
        ({
            let revoked = state.revoked();
            let deferred = state.deferred();
            &&& deferred == (MonitorState { no_improve_streak: 0, ..revoked })
            &&& state.exit is None ==> revoked == state
            &&& state.exit matches Some(before) ==> {
                &&& revoked.exit matches Some(exit) && exit.point == before.point && exit.value
                    == before.value && exit.grad_norm == before.grad_norm && exit.accepted
                    == before.accepted && !exit.converged && exit.probe_scale
                    == before.probe_scale && exit.unescapable_window == before.unescapable_window
                &&& revoked.exit_revision == if state.exit_revision == u64::MAX {
                    0
                } else {
                    state.exit_revision + 1
                }
                &&& revoked == (MonitorState {
                    exit: revoked.exit,
                    exit_revision: revoked.exit_revision,
                    ..state
                })
            }
        }),
{
}

/// Where another window is not licensed, the stop is the incumbent as it stands, and claims
/// nothing.
pub proof fn law_unlicensed_stop_is_the_incumbent<C>(state: MonitorState<C>)
    requires
        state.best_point is Some,
    ensures
        ({
            let stop = state.best_so_far();
            &&& Some(stop.point) == state.best_point
            &&& stop.value == state.best_value
            &&& stop.grad_norm == state.best_grad_norm
            &&& stop.accepted == state.accepted
            &&& !stop.converged
            &&& stop.probe_scale is None
            &&& stop.unescapable_window is None
        }),
{
}

/// A fresh monitor has seen nothing, counted nothing and proven nothing.
pub proof fn law_fresh_monitor_has_seen_nothing<C>(rel_tol: Binary64, window: usize)
    ensures
        ({
            let state = MonitorState::<C>::fresh(rel_tol, window);
            &&& state.rel_tol == rel_tol && state.window == window
            &&& state.best_point is None && state.best_payload is None
                && state.staged_payload is None && state.best_curvature_psd is None
            &&& !state.best_value.finite() && !state.best_value.nan()
                && !state.best_value.negative()
            &&& !state.best_grad_norm.finite() && !state.best_grad_norm.nan()
                && !state.best_grad_norm.negative()
            &&& state.no_improve_streak == 0 && state.refused_streak == 0
                && state.unescapable_streak == 0 && state.accepted == 0 && state.stuck_escapes == 0
            &&& state.incumbent_at_last_escape is None && state.continuation_incumbent is None
                && state.exit is None
            &&& !state.replay_proven && !state.strict_saddle_refusal
            &&& state.window_trials.len() == 0 && state.recent.len() == 0
                && state.recent_steps.len() == 0 && state.exit_revision == 0
        }),
{
}

} // verus!
