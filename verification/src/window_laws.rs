//! What a run of samples without progress comes to.

use crate::binary64::Binary64;
use crate::nearness::number;
use crate::run_laws::{after_run, Event, Observation};
use crate::sample_laws::{law_sample_without_progress_counts, measurable};
use crate::stall_model::MonitorState;
use crate::stall_monitor::StallVerdict;
use vstd::prelude::*;

verus! {

/// The samples of a run, as events.
pub open spec fn as_events<C>(samples: Seq<Observation>) -> Seq<Event<C>> {
    Seq::new(samples.len(), |i: int| Event::Sampled { sample: samples[i] })
}

/// The verdict on one sample.
pub open spec fn verdict_on<C>(state: MonitorState<C>, sample: Observation) -> StallVerdict {
    state.observed(
        sample.point,
        sample.value,
        sample.grad_norm,
        sample.trusted,
        sample.curvature_psd,
        sample.band_at_value,
        sample.band_at_best,
    ).1
}

/// Whether a sample is trusted and finite, and not below a value.
pub open spec fn idle(sample: Observation, best: Binary64) -> bool {
    sample.trusted && sample.value.finite() && number(best) <= number(sample.value)
}

/// Trusted finite samples, none of them below the incumbent, only count until the window
/// is full.
proof fn lemma_idle_run<C>(state: MonitorState<C>, samples: Seq<Observation>)
    requires
        measurable(state.rel_tol, state.best_value),
        forall|i: int| 0 <= i < samples.len() ==> idle(#[trigger] samples[i], state.best_value),
        state.no_improve_streak + samples.len() < state.window,
    ensures
        ({
            let next = after_run(state, as_events(samples));
            &&& next.no_improve_streak == state.no_improve_streak + samples.len()
            &&& next.best_value == state.best_value
            &&& next.best_point == state.best_point
            &&& next.best_grad_norm == state.best_grad_norm
            &&& next.best_curvature_psd == state.best_curvature_psd
            &&& next.rel_tol == state.rel_tol
            &&& next.window == state.window
            &&& next.stuck_escapes == state.stuck_escapes
        }),
    decreases samples.len(),
{
    if 0 < samples.len() {
        let earlier = samples.drop_last();
        lemma_idle_run(state, earlier);
        assert(as_events::<C>(samples).drop_last() =~= as_events::<C>(earlier));
        let before = after_run(state, as_events(earlier));
        let last = samples.last();
        assert(idle(samples[samples.len() - 1], state.best_value));
        law_sample_without_progress_counts(
            before,
            last.point,
            last.value,
            last.grad_norm,
            last.curvature_psd,
            last.band_at_value,
            last.band_at_best,
        );
    }
}

/// A search that makes no progress is not left to run: of trusted finite samples in a row,
/// none of them below the incumbent, those before the window is full are followed by
/// another, and the one that fills it is judged, unless the incumbent is a strict saddle.
pub proof fn law_window_without_progress_is_judged<C>(
    state: MonitorState<C>,
    samples: Seq<Observation>,
    last: Observation,
)
    requires
        measurable(state.rel_tol, state.best_value),
        state.best_curvature_psd != Some(false),
        forall|i: int| 0 <= i < samples.len() ==> idle(#[trigger] samples[i], state.best_value),
        idle(last, state.best_value),
        state.no_improve_streak + samples.len() < state.window,
    ensures
        ({
            let before = after_run(state, as_events(samples));
            verdict_on(before, last) is Continue <==> state.no_improve_streak + samples.len() + 1
                < state.window
        }),
{
    lemma_idle_run(state, samples);
    let before = after_run(state, as_events(samples));
    law_sample_without_progress_counts(
        before,
        last.point,
        last.value,
        last.grad_norm,
        last.curvature_psd,
        last.band_at_value,
        last.band_at_best,
    );
}

} // verus!
