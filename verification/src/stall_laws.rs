//! What holds of a stall monitor whatever it observes.

use crate::binary64::{
    absolute, at_most, difference, lemma_product_sign, lemma_sum_kind, less, product, sum, Binary64,
    EPSILON, ONE,
};
use crate::probe::{
    distance, median, probe_scale, radius, value_differences, value_rounding, Sample,
};
use crate::rounding::{lemma_magnitude_zero, lemma_round_grid_point, lemma_round_ratio_ordered};
use crate::stall_model::{
    above, bits_of, counted, improvement_floor, inside, next_revision, MonitorState, ReplayIdentity,
};
use crate::stall_monitor::StallVerdict;
use vstd::arithmetic::power2::{lemma_pow2_pos, pow2};
use vstd::prelude::*;

verus! {

/// Whether both states have the same incumbent, with all that belongs to it.
pub open spec fn same_incumbent<C>(state: MonitorState<C>, next: MonitorState<C>) -> bool {
    &&& next.best_value == state.best_value
    &&& next.best_point == state.best_point
    &&& next.best_grad_norm == state.best_grad_norm
    &&& next.best_curvature_psd == state.best_curvature_psd
    &&& next.best_payload == state.best_payload
}

/// Whether the exit of `next` says what was decided: it changes only with the revision,
/// every stop is published anew, and convergence is claimed only by that decision.
pub open spec fn exit_tells<C>(
    state: MonitorState<C>,
    next: MonitorState<C>,
    verdict: StallVerdict,
) -> bool {
    &&& next.exit_revision == state.exit_revision ==> next.exit == state.exit
    &&& verdict is Converged || verdict is Floor ==> {
        &&& next.exit is Some
        &&& next.exit_revision != state.exit_revision
        &&& next.exit->0.converged == (verdict is Converged)
    }
    &&& next.exit is Some && next.exit->0.converged ==> verdict is Converged || next.exit
        == state.exit
}

/// A sample keeps the incumbent or replaces it with itself at a strictly lower value.
pub proof fn law_incumbent_never_rises<C>(
    state: MonitorState<C>,
    point: Seq<Binary64>,
    value: Binary64,
    grad_norm: Binary64,
    trusted: bool,
    curvature_psd: Option<bool>,
    band_at_value: Binary64,
    band_at_best: Binary64,
)
    ensures
        ({
            let next = state.observed(
                point,
                value,
                grad_norm,
                trusted,
                curvature_psd,
                band_at_value,
                band_at_best,
            ).0;
            ||| same_incumbent(state, next)
            ||| {
                &&& trusted
                &&& less(value, state.best_value)
                &&& next.best_value == value
                &&& next.best_point == Some(point)
                &&& next.best_grad_norm == grad_norm
                &&& next.best_curvature_psd == curvature_psd
                &&& next.best_payload == state.staged_payload
            }
        }),
{
}

/// No refused or rejected trial, no licence and no revocation moves the incumbent.
pub proof fn law_only_samples_move_the_incumbent<C>(
    state: MonitorState<C>,
    point: Seq<Binary64>,
    band: Binary64,
    band_again: Binary64,
)
    ensures
        same_incumbent(state, state.refused(point, band).0),
        same_incumbent(state, state.blocked(point, band, band_again).0),
        same_incumbent(state, state.rejected(point)),
        same_incumbent(state, state.after_license()),
        same_incumbent(state, state.revoked()),
{
}

/// A constrained-stationary sample keeps the incumbent or replaces it with itself, at a
/// value that exceeds the incumbent's by no more than the floor.
pub proof fn law_stationary_sample_does_not_regress<C>(
    state: MonitorState<C>,
    point: Seq<Binary64>,
    value: Binary64,
    grad_norm: Binary64,
    trusted: bool,
    curvature_psd: Option<bool>,
    band_at_value: Binary64,
    band_at_best: Binary64,
)
    ensures
        ({
            let next = state.settled(
                point,
                value,
                grad_norm,
                trusted,
                curvature_psd,
                band_at_value,
                band_at_best,
            ).0;
            ||| same_incumbent(state, next)
            ||| {
                &&& trusted
                &&& less(value, state.best_value) || !state.regresses(value)
                &&& next.best_value == value
                &&& next.best_point == Some(point)
                &&& next.best_grad_norm == grad_norm
                &&& next.best_curvature_psd == curvature_psd
                &&& next.best_payload == state.staged_payload
            }
        }),
{
}

/// The incumbent's payload is the one it had, or the one staged for the sample that
/// became the incumbent; whatever was staged for a sample is gone after it.
pub proof fn law_payload_travels_with_its_sample<C>(
    state: MonitorState<C>,
    point: Seq<Binary64>,
    value: Binary64,
    grad_norm: Binary64,
    trusted: bool,
    curvature_psd: Option<bool>,
    band_at_value: Binary64,
    band_at_best: Binary64,
)
    ensures
        ({
            let sampled = state.observed(
                point,
                value,
                grad_norm,
                trusted,
                curvature_psd,
                band_at_value,
                band_at_best,
            ).0;
            let settled = state.settled(
                point,
                value,
                grad_norm,
                trusted,
                curvature_psd,
                band_at_value,
                band_at_best,
            ).0;
            let seeded = state.seeded(point, value, grad_norm, curvature_psd);
            &&& sampled.staged_payload is None
            &&& settled.staged_payload is None
            &&& seeded.staged_payload is None
            &&& state.rejected(point).staged_payload is None
            &&& same_incumbent(state, sampled) || sampled.best_payload == state.staged_payload
                && sampled.best_point == Some(point)
            &&& same_incumbent(state, settled) || settled.best_payload == state.staged_payload
                && settled.best_point == Some(point)
            &&& same_incumbent(state, seeded) || seeded.best_payload == state.staged_payload
                && seeded.best_point == Some(point)
        }),
{
}

/// A finite seed is the incumbent, and is published as an exit that claims nothing.
pub proof fn law_finite_seed_is_published<C>(
    state: MonitorState<C>,
    point: Seq<Binary64>,
    value: Binary64,
    grad_norm: Binary64,
    curvature_psd: Option<bool>,
)
    requires
        value.finite(),
    ensures
        ({
            let next = state.seeded(point, value, grad_norm, curvature_psd);
            &&& next.best_value == value
            &&& next.best_point == Some(point)
            &&& next.best_grad_norm == grad_norm
            &&& next.best_curvature_psd == curvature_psd
            &&& next.exit matches Some(exit) && exit.point == point && exit.value == value
                && exit.grad_norm == grad_norm && !exit.converged && exit.accepted
                == next.accepted
        }),
{
}

/// An untrusted sample never becomes the incumbent and never counts: both streaks start
/// again, and nothing is published.
pub proof fn law_untrusted_sample_never_counts<C>(
    state: MonitorState<C>,
    point: Seq<Binary64>,
    value: Binary64,
    grad_norm: Binary64,
    curvature_psd: Option<bool>,
    band_at_value: Binary64,
    band_at_best: Binary64,
)
    ensures
        ({
            let (next, verdict) = state.observed(
                point,
                value,
                grad_norm,
                false,
                curvature_psd,
                band_at_value,
                band_at_best,
            );
            &&& verdict is Continue
            &&& same_incumbent(state, next)
            &&& next.no_improve_streak == 0
            &&& next.refused_streak == 0
            &&& next.accepted == state.accepted
            &&& next.recent == state.recent
            &&& next.exit == state.exit
            &&& next.exit_revision == state.exit_revision
        }),
{
}

/// The first finite trusted sample is the first incumbent and never counts toward a
/// window.
pub proof fn law_first_sample_never_counts<C>(
    state: MonitorState<C>,
    point: Seq<Binary64>,
    value: Binary64,
    grad_norm: Binary64,
    curvature_psd: Option<bool>,
    band_at_value: Binary64,
    band_at_best: Binary64,
)
    requires
        state.well_formed(),
        !state.has_incumbent(),
        value.finite(),
    ensures
        ({
            let sampled = state.sampled(point, value, grad_norm, curvature_psd, band_at_value);
            &&& sampled.best_value == value
            &&& sampled.best_point == Some(point)
            &&& sampled.no_improve_streak == 0
        }),
        0 < state.window ==> state.observed(
            point,
            value,
            grad_norm,
            true,
            curvature_psd,
            band_at_value,
            band_at_best,
        ).1 is Continue,
{
    lemma_floor_of_infinity(state.rel_tol, state.best_value);
}

proof fn lemma_floor_of_infinity(rel_tol: Binary64, value: Binary64)
    requires
        !value.finite(),
    ensures
        !improvement_floor(rel_tol, value).finite(),
{
    let one = Binary64 { bits: ONE };
    lemma_sum_kind(one, absolute(value));
    lemma_product_sign(rel_tol, sum(one, absolute(value)));
}

/// A trusted sample that improves on the incumbent by more than the floor, outside the
/// band at its own value, opens the window again and ends a streak of escapes.
pub proof fn law_resolved_improvement_opens_the_window<C>(
    state: MonitorState<C>,
    point: Seq<Binary64>,
    value: Binary64,
    grad_norm: Binary64,
    curvature_psd: Option<bool>,
    band_at_value: Binary64,
    band_at_best: Binary64,
)
    requires
        value.finite(),
        less(
            improvement_floor(state.rel_tol, state.best_value),
            difference(state.best_value, value),
        ),
        !inside(grad_norm, band_at_value),
        0 < state.window,
    ensures
        ({
            let (next, verdict) = state.observed(
                point,
                value,
                grad_norm,
                true,
                curvature_psd,
                band_at_value,
                band_at_best,
            );
            &&& verdict is Continue
            &&& next.no_improve_streak == 0
            &&& next.refused_streak == 0
            &&& next.stuck_escapes == 0
            &&& next.incumbent_at_last_escape is None
            &&& next.window_trials =~= Seq::<Seq<u64>>::empty()
        }),
{
}

/// A trusted sample inside the band at its own value counts as no improvement, whatever
/// its decrease, once there is an incumbent whose floor is finite.
pub proof fn law_sample_inside_its_band_counts<C>(
    state: MonitorState<C>,
    point: Seq<Binary64>,
    value: Binary64,
    grad_norm: Binary64,
    curvature_psd: Option<bool>,
    band_at_value: Binary64,
)
    requires
        value.finite(),
        improvement_floor(state.rel_tol, state.best_value).finite(),
        inside(grad_norm, band_at_value),
    ensures
        ({
            let next = state.sampled(point, value, grad_norm, curvature_psd, band_at_value);
            &&& next.no_improve_streak == counted(state.no_improve_streak)
            &&& next.window_trials == state.window_trials.push(bits_of(point))
            &&& next.stuck_escapes == state.stuck_escapes
            &&& next.incumbent_at_last_escape == state.incumbent_at_last_escape
        }),
{
}

/// A filled window converges inside the band, escapes above it unless the escape would
/// replay the previous one, and otherwise stops at its floor; a cut escape is a proven
/// replay.
pub proof fn law_filled_window_is_decided<C>(
    state: MonitorState<C>,
    point: Seq<Binary64>,
    value: Binary64,
    grad_norm: Binary64,
    band: Binary64,
)
    ensures
        ({
            let (next, verdict) = state.decide(point, value, grad_norm, band);
            let (p, v, g) = state.judged_at(point, value, grad_norm);
            let replay = state.replays(state.identity(p, v, g));
            &&& verdict is Converged <==> inside(g, band)
            &&& verdict is Escape <==> above(g, band) && !replay
            &&& verdict is Floor <==> !inside(g, band) && !(above(g, band) && !replay)
            &&& verdict !is Continue
            &&& next.replay_proven <==> state.replay_proven || above(g, band) && replay
            &&& verdict is Escape ==> {
                &&& next.no_improve_streak == 0
                &&& next.refused_streak == 0
                &&& next.stuck_escapes == counted(state.stuck_escapes)
                &&& next.window_trials =~= Seq::<Seq<u64>>::empty()
                &&& next.incumbent_at_last_escape == Some(state.identity(p, v, g))
            }
            &&& verdict !is Escape ==> {
                &&& next.stuck_escapes == state.stuck_escapes
                &&& next.incumbent_at_last_escape == state.incumbent_at_last_escape
            }
            &&& same_incumbent(state, next)
            &&& exit_tells(state, next, verdict)
        }),
{
}

/// Where there is an incumbent, a stall is judged at it alone: at its point, its value and
/// its own gradient norm.
pub proof fn law_stall_is_judged_at_the_incumbent<C>(
    state: MonitorState<C>,
    point: Seq<Binary64>,
    value: Binary64,
    grad_norm: Binary64,
    band: Binary64,
)
    requires
        state.has_incumbent(),
    ensures
        state.judged_at(point, value, grad_norm) == (
            state.best_point->0,
            state.best_value,
            state.best_grad_norm,
        ),
        state.decide(point, value, grad_norm, band).1 is Converged <==> inside(
            state.best_grad_norm,
            band,
        ),
{
}

/// A replay is a window that observed the same trials, in the same order, from a
/// bit-identical incumbent.
pub proof fn law_replay_is_bit_identical<C>(
    state: MonitorState<C>,
    point: Seq<Binary64>,
    value: Binary64,
    grad_norm: Binary64,
    last: ReplayIdentity,
)
    requires
        state.incumbent_at_last_escape == Some(last),
    ensures
        state.replays(state.identity(point, value, grad_norm)) <==> {
            &&& last.point =~= bits_of(point)
            &&& last.value == value.bits
            &&& last.grad_norm == grad_norm.bits
            &&& last.window_trials =~= state.window_trials
        },
{
    let identity = state.identity(point, value, grad_norm);
    if last.point =~= bits_of(point) && last.value == value.bits && last.grad_norm
        == grad_norm.bits && last.window_trials =~= state.window_trials {
        assert(last =~= identity);
    }
}

/// A trial that the previous window did not observe at its place rules a replay out.
pub proof fn law_new_trial_is_no_replay<C>(
    state: MonitorState<C>,
    point: Seq<Binary64>,
    value: Binary64,
    grad_norm: Binary64,
    last: ReplayIdentity,
    i: int,
)
    requires
        state.incumbent_at_last_escape == Some(last),
        0 <= i < state.window_trials.len(),
        i >= last.window_trials.len() || last.window_trials[i] != state.window_trials[i],
    ensures
        !state.replays(state.identity(point, value, grad_norm)),
{
}

/// What a sample decides is told by the exit.
pub proof fn law_sample_exit_tells<C>(
    state: MonitorState<C>,
    point: Seq<Binary64>,
    value: Binary64,
    grad_norm: Binary64,
    trusted: bool,
    curvature_psd: Option<bool>,
    band_at_value: Binary64,
    band_at_best: Binary64,
)
    ensures
        ({
            let (next, verdict) = state.observed(
                point,
                value,
                grad_norm,
                trusted,
                curvature_psd,
                band_at_value,
                band_at_best,
            );
            exit_tells(state, next, verdict)
        }),
{
    if trusted && value.finite() {
        let sampled = state.sampled(point, value, grad_norm, curvature_psd, band_at_value);
        assert(sampled.exit_revision == state.exit_revision && sampled.exit == state.exit
            || sampled.exit_revision == next_revision(state.exit_revision) && sampled.exit is Some
            && !sampled.exit->0.converged);
        let judged = MonitorState {
            replay_proven: sampled.replay_proven || sampled.at_strict_saddle(),
            ..sampled
        };
        lemma_decided_exit(judged, point, value, grad_norm, band_at_best);
    }
}

/// What a constrained-stationary sample decides is told by the exit.
pub proof fn law_stationary_exit_tells<C>(
    state: MonitorState<C>,
    point: Seq<Binary64>,
    value: Binary64,
    grad_norm: Binary64,
    trusted: bool,
    curvature_psd: Option<bool>,
    band_at_value: Binary64,
    band_at_best: Binary64,
)
    ensures
        ({
            let (next, verdict) = state.settled(
                point,
                value,
                grad_norm,
                trusted,
                curvature_psd,
                band_at_value,
                band_at_best,
            );
            exit_tells(state, next, verdict)
        }),
{
    law_sample_exit_tells(
        state,
        point,
        value,
        grad_norm,
        trusted,
        curvature_psd,
        band_at_value,
        band_at_best,
    );
    let adopted = state.adopted(point, value, grad_norm, curvature_psd);
    lemma_decided_exit(adopted, point, value, grad_norm, band_at_best);
}

/// A decided window writes the exit once where it stops, and not where it escapes.
proof fn lemma_decided_exit<C>(
    state: MonitorState<C>,
    point: Seq<Binary64>,
    value: Binary64,
    grad_norm: Binary64,
    band: Binary64,
)
    ensures
        ({
            let (next, verdict) = state.decide(point, value, grad_norm, band);
            &&& verdict is Escape ==> next.exit == state.exit && next.exit_revision
                == state.exit_revision
            &&& verdict !is Escape ==> next.exit is Some && next.exit_revision == next_revision(
                state.exit_revision,
            ) && next.exit->0.converged == (verdict is Converged)
            &&& verdict !is Continue
        }),
{
}

/// What a refused trial decides is told by the exit.
pub proof fn law_refusal_exit_tells<C>(
    state: MonitorState<C>,
    point: Seq<Binary64>,
    band: Binary64,
    band_again: Binary64,
)
    ensures
        ({
            let (next, verdict) = state.refused(point, band);
            exit_tells(state, next, verdict)
        }),
        ({
            let (next, verdict) = state.blocked(point, band, band_again);
            exit_tells(state, next, verdict)
        }),
{
}

/// A proven replay stays proven, and is never licensed.
pub proof fn law_proven_replay_is_final<C>(
    state: MonitorState<C>,
    point: Seq<Binary64>,
    value: Binary64,
    grad_norm: Binary64,
    trusted: bool,
    curvature_psd: Option<bool>,
    band: Binary64,
    band_again: Binary64,
)
    requires
        state.replay_proven,
    ensures
        !state.licensed(),
        state.seeded(point, value, grad_norm, curvature_psd).replay_proven,
        state.observed(
            point,
            value,
            grad_norm,
            trusted,
            curvature_psd,
            band,
            band_again,
        ).0.replay_proven,
        state.settled(
            point,
            value,
            grad_norm,
            trusted,
            curvature_psd,
            band,
            band_again,
        ).0.replay_proven,
        state.refused(point, band).0.replay_proven,
        state.blocked(point, band, band_again).0.replay_proven,
        state.rejected(point).replay_proven,
        state.after_license().replay_proven,
        state.revoked().replay_proven,
{
}

/// The first window is always licensed, unless a replay was proven.
pub proof fn law_first_window_is_licensed<C>(state: MonitorState<C>)
    requires
        state.continuation_incumbent is None,
    ensures
        state.licensed() <==> !state.replay_proven,
{
}

/// At the incumbent of the previous licence no other is given, unless it is a strict
/// saddle.
pub proof fn law_licence_needs_progress<C>(state: MonitorState<C>)
    requires
        !less(state.rel_tol, Binary64 { bits: 0 }),
        !state.at_strict_saddle(),
        state.continuation_incumbent == Some((state.best_value, state.best_grad_norm)),
    ensures
        !state.licensed(),
{
    lemma_no_descent_from_itself(state.rel_tol, state.best_value);
}

/// Asking for a licence twice in a row gives the second only at a strict saddle.
pub proof fn law_second_licence_is_refused<C>(state: MonitorState<C>)
    requires
        !less(state.rel_tol, Binary64 { bits: 0 }),
        !state.at_strict_saddle(),
    ensures
        !(state.licensed() && state.after_license().licensed()),
{
    lemma_no_descent_from_itself(state.rel_tol, state.best_value);
}

/// No descent is bought from a value to itself.
pub proof fn lemma_no_descent_from_itself(rel_tol: Binary64, value: Binary64)
    requires
        !less(rel_tol, Binary64 { bits: 0 }),
    ensures
        !less(improvement_floor(rel_tol, value), difference(value, value)),
{
    let one = Binary64 { bits: ONE };
    let scale = sum(one, absolute(value));
    lemma_sum_kind(one, absolute(value));
    lemma_product_sign(rel_tol, scale);
    if rel_tol.zero() && scale.finite() {
        assert(product(rel_tol, scale).zero()) by {
            reveal(product);
            let unit = pow2(1074) as int;
            let m = scale.magnitude();
            lemma_pow2_pos(1074);
            lemma_magnitude_zero();
            lemma_round_grid_point(0);
            assert(0 * m == 0 && 0 * unit == 0) by (nonlinear_arith);
            lemma_round_ratio_ordered(0, unit, 0, 1);
        }
    }
    assert(difference(value, value).nan() || value.finite() && difference(
        value,
        value,
    ).zero()) by {
        reveal(sum);
    }
    assert(value.finite() ==> !scale.negative());
}

/// Before there is an incumbent a refused trial changes nothing.
pub proof fn law_nothing_to_stop_at_before_an_incumbent<C>(
    state: MonitorState<C>,
    point: Seq<Binary64>,
    band: Binary64,
    band_again: Binary64,
)
    requires
        !state.has_incumbent(),
    ensures
        state.refused(point, band) == (state, StallVerdict::Continue),
        state.blocked(point, band, band_again) == (state, StallVerdict::Continue),
{
}

/// A run of refused trials never stops the search at a strict saddle.
pub proof fn law_refusals_do_not_stop_at_a_saddle<C>(
    state: MonitorState<C>,
    point: Seq<Binary64>,
    band: Binary64,
)
    requires
        state.at_strict_saddle(),
        state.has_incumbent(),
    ensures
        ({
            let (next, verdict) = state.refused(point, band);
            &&& verdict is Continue
            &&& next.exit == state.exit
            &&& state.window <= counted(state.refused_streak) ==> next.refused_streak == 0
                && next.no_improve_streak == 0
        }),
{
}

/// A filled window of unescapable refusals that also holds an ordinary one is decided
/// exactly as an ordinary refusal there would be.
pub proof fn law_mixed_window_is_decided_as_refused<C>(
    state: MonitorState<C>,
    point: Seq<Binary64>,
    band: Binary64,
    band_again: Binary64,
)
    requires
        state.has_incumbent(),
        state.window <= counted(state.refused_streak),
        state.blocked_once(point).unescapable_streak < state.blocked_once(point).refused_streak,
    ensures
        ({
            let (next, verdict) = state.blocked(point, band, band_again);
            let (other, expected) = state.refused(point, band);
            &&& verdict == expected
            &&& next == MonitorState { unescapable_streak: next.unescapable_streak, ..other }
        }),
{
}

/// A window of unescapable refusals alone grants no escape, where the band answers the
/// same twice; outside the band its evidence is published with the stop.
pub proof fn law_unescapable_window_grants_no_escape<C>(
    state: MonitorState<C>,
    point: Seq<Binary64>,
    band: Binary64,
)
    requires
        state.has_incumbent(),
        state.window <= counted(state.refused_streak),
        state.blocked_once(point).unescapable_streak >= state.blocked_once(point).refused_streak,
    ensures
        ({
            let (next, verdict) = state.blocked(point, band, band);
            &&& verdict is Converged || verdict is Floor
            &&& verdict is Converged <==> inside(state.best_grad_norm, band)
            &&& next.stuck_escapes == state.stuck_escapes
            &&& next.exit is Some
            &&& next.exit->0.converged == (verdict is Converged)
            &&& verdict is Floor ==> next.exit->0.unescapable_window is Some
                && next.exit->0.unescapable_window->0.band == band
                && next.exit->0.unescapable_window->0.refused_trials
                == next.unescapable_streak
            &&& verdict is Converged ==> next.exit->0.unescapable_window is None
        }),
{
}

/// A rejected trial is not a step: it joins the replay identity, ends a run of refused
/// trials and drops the payload staged for it, and leaves all else.
pub proof fn law_rejected_trial_is_not_a_step<C>(state: MonitorState<C>, point: Seq<Binary64>)
    ensures
        ({
            let next = state.rejected(point);
            &&& same_incumbent(state, next)
            &&& next.accepted == state.accepted
            &&& next.no_improve_streak == state.no_improve_streak
            &&& next.stuck_escapes == state.stuck_escapes
            &&& next.recent == state.recent
            &&& next.exit == state.exit
            &&& next.exit_revision == state.exit_revision
            &&& next.refused_streak == 0
            &&& next.window_trials == state.window_trials.push(bits_of(point))
        }),
{
}

/// The saddle flag is raised only where a full window grants an escape at a strict
/// saddle.
pub proof fn law_saddle_flag_marks_an_escape<C>(
    state: MonitorState<C>,
    point: Seq<Binary64>,
    value: Binary64,
    grad_norm: Binary64,
    trusted: bool,
    curvature_psd: Option<bool>,
    band_at_value: Binary64,
    band_at_best: Binary64,
)
    requires
        !state.strict_saddle_refusal,
    ensures
        ({
            let (next, verdict) = state.observed(
                point,
                value,
                grad_norm,
                trusted,
                curvature_psd,
                band_at_value,
                band_at_best,
            );
            next.strict_saddle_refusal ==> {
                &&& verdict is Continue
                &&& next.at_strict_saddle()
                &&& next.no_improve_streak == 0
                &&& next.stuck_escapes > 0
            }
        }),
{
}

/// A strict-saddle incumbent is stopped at, by samples, only through a proven replay.
pub proof fn law_saddle_stops_only_at_a_replay<C>(
    state: MonitorState<C>,
    point: Seq<Binary64>,
    value: Binary64,
    grad_norm: Binary64,
    trusted: bool,
    curvature_psd: Option<bool>,
    band_at_value: Binary64,
    band_at_best: Binary64,
)
    ensures
        ({
            let (next, verdict) = state.observed(
                point,
                value,
                grad_norm,
                trusted,
                curvature_psd,
                band_at_value,
                band_at_best,
            );
            next.at_strict_saddle() && verdict !is Continue ==> next.replay_proven
        }),
{
}

/// Revoking keeps the incumbent and the published evidence, and leaves no claim of
/// convergence.
pub proof fn law_revoking_leaves_no_claim<C>(state: MonitorState<C>)
    ensures
        ({
            let next = state.revoked();
            &&& same_incumbent(state, next)
            &&& next.recent == state.recent
            &&& next.window_trials == state.window_trials
            &&& next.exit is Some <==> state.exit is Some
            &&& state.exit matches Some(exit) ==> {
                &&& !next.exit->0.converged
                &&& next.exit->0.point == exit.point
                &&& next.exit->0.value == exit.value
                &&& next.exit->0.grad_norm == exit.grad_norm
                &&& next.exit->0.accepted == exit.accepted
                &&& next.exit->0.probe_scale == exit.probe_scale
                &&& next.exit->0.unescapable_window == exit.unescapable_window
                &&& next.exit_revision != state.exit_revision
            }
        }),
{
}

/// The window's evidence needs three differences, reports a positive radius that no step
/// between neighbouring samples exceeds, and a noise floor no lower than the rounding of
/// the incumbent's value.
pub proof fn law_probe_scale_is_evidence(recent: Seq<Sample>, best_value: Binary64)
    ensures
        probe_scale(recent, best_value) matches Some((noise, reached)) ==> {
            &&& 4 <= recent.len()
            &&& reached.finite()
            &&& less(Binary64 { bits: 0 }, reached)
            &&& at_most(value_rounding(best_value), noise)
            &&& at_most(median(value_differences(recent)), noise)
            &&& forall|i: int|
                0 < i < recent.len() ==> {
                    let step = distance(recent[i - 1].0, (#[trigger] recent[i]).0);
                    step.nan() || at_most(step, reached)
                }
        },
{
    if probe_scale(recent, best_value) is Some {
        let scale = if best_value.finite() {
            absolute(best_value)
        } else {
            Binary64 { bits: 0 }
        };
        let one = Binary64 { bits: ONE };
        lemma_sum_kind(one, scale);
        lemma_product_sign(Binary64 { bits: EPSILON }, sum(one, scale));
        lemma_radius_is_the_largest(recent, (recent.len() - 1) as nat);
    }
}

proof fn lemma_radius_is_the_largest(recent: Seq<Sample>, n: nat)
    ensures
        !radius(recent, n).nan(),
        forall|i: int|
            0 < i <= n ==> {
                let step = distance(recent[i - 1].0, (#[trigger] recent[i]).0);
                step.nan() || at_most(step, radius(recent, n))
            },
    decreases n,
{
    if 0 < n {
        lemma_radius_is_the_largest(recent, (n - 1) as nat);
    }
}

} // verus!
