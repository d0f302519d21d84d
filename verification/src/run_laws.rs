//! What holds of a stall monitor over any run of observations.

use crate::binary64::{at_most, less, Binary64};
use crate::probe::{probe_scale, Sample};
use crate::stall_laws::{
    law_incumbent_never_rises, law_only_samples_move_the_incumbent, lemma_no_descent_from_itself,
    same_incumbent,
};
use crate::stall_model::{
    latest, lemma_blocked_well_formed, lemma_observed_well_formed, lemma_refused_well_formed,
    lemma_seeded_well_formed, lemma_settled_well_formed, MonitorState,
};
use crate::stall_monitor::StallStep;
use vstd::prelude::*;

verus! {

/// One sample, with the answers of the band to it.
pub struct Observation {
    pub point: Seq<Binary64>,
    pub value: Binary64,
    pub grad_norm: Binary64,
    pub trusted: bool,
    pub curvature_psd: Option<bool>,
    pub band_at_value: Binary64,
    pub band_at_best: Binary64,
}

/// What can happen to a monitor, one case for each method that changes it, with the
/// answers of the band.
pub enum Event<C> {
    Seed {
        point: Seq<Binary64>,
        value: Binary64,
        grad_norm: Binary64,
        curvature_psd: Option<bool>,
    },
    Sampled { sample: Observation },
    Stationary { sample: Observation },
    Rejected { point: Seq<Binary64> },
    Refused { point: Seq<Binary64>, band: Binary64 },
    Unescapable { point: Seq<Binary64>, band: Binary64, band_again: Binary64 },
    Stepped { step: StallStep },
    Staged { payload: Option<C> },
    FlagRead,
    Licensed,
    Revoked,
    Deferred,
}

/// The state after one event.
pub open spec fn after_event<C>(state: MonitorState<C>, event: Event<C>) -> MonitorState<C> {
    match event {
        Event::Seed { point, value, grad_norm, curvature_psd } => state.seeded(
            point,
            value,
            grad_norm,
            curvature_psd,
        ),
        Event::Sampled { sample } => state.observed(
            sample.point,
            sample.value,
            sample.grad_norm,
            sample.trusted,
            sample.curvature_psd,
            sample.band_at_value,
            sample.band_at_best,
        ).0,
        Event::Stationary { sample } => state.settled(
            sample.point,
            sample.value,
            sample.grad_norm,
            sample.trusted,
            sample.curvature_psd,
            sample.band_at_value,
            sample.band_at_best,
        ).0,
        Event::Rejected { point } => state.rejected(point),
        Event::Refused { point, band } => state.refused(point, band).0,
        Event::Unescapable { point, band, band_again } => state.blocked(
            point,
            band,
            band_again,
        ).0,
        Event::Stepped { step } => state.stepped(step),
        Event::Staged { payload } => state.staged(payload),
        Event::FlagRead => state.flag_read(),
        Event::Licensed => state.after_license(),
        Event::Revoked => state.revoked(),
        Event::Deferred => state.deferred(),
    }
}

/// The state after a run of events.
pub open spec fn after_run<C>(state: MonitorState<C>, events: Seq<Event<C>>) -> MonitorState<C>
    decreases events.len(),
{
    if events.len() == 0 {
        state
    } else {
        after_event(after_run(state, events.drop_last()), events.last())
    }
}

/// Every run from a fresh monitor leaves a well-formed state: an exit stands at the
/// incumbent from the first one on, and the unescapable refusals are among the refused
/// ones.
pub proof fn law_every_run_is_well_formed<C>(
    rel_tol: Binary64,
    window: usize,
    events: Seq<Event<C>>,
)
    ensures
        after_run(MonitorState::<C>::fresh(rel_tol, window), events).well_formed(),
        after_run(MonitorState::<C>::fresh(rel_tol, window), events).window == window,
        after_run(MonitorState::<C>::fresh(rel_tol, window), events).rel_tol == rel_tol,
    decreases events.len(),
{
    if 0 < events.len() {
        law_every_run_is_well_formed(rel_tol, window, events.drop_last());
        let before = after_run(MonitorState::<C>::fresh(rel_tol, window), events.drop_last());
        lemma_event_well_formed(before, events.last());
    }
}

proof fn lemma_event_well_formed<C>(state: MonitorState<C>, event: Event<C>)
    requires
        state.well_formed(),
    ensures
        after_event(state, event).well_formed(),
        after_event(state, event).window == state.window,
        after_event(state, event).rel_tol == state.rel_tol,
{
    match event {
        Event::Seed { point, value, grad_norm, curvature_psd } => {
            lemma_seeded_well_formed(state, point, value, grad_norm, curvature_psd);
        },
        Event::Sampled { sample } => {
            lemma_observed_well_formed(
                state,
                sample.point,
                sample.value,
                sample.grad_norm,
                sample.trusted,
                sample.curvature_psd,
                sample.band_at_value,
                sample.band_at_best,
            );
        },
        Event::Stationary { sample } => {
            lemma_settled_well_formed(
                state,
                sample.point,
                sample.value,
                sample.grad_norm,
                sample.trusted,
                sample.curvature_psd,
                sample.band_at_value,
                sample.band_at_best,
            );
        },
        Event::Refused { point, band } => {
            lemma_refused_well_formed(state, point, band);
        },
        Event::Unescapable { point, band, band_again } => {
            lemma_blocked_well_formed(state, point, band, band_again);
        },
        _ => {},
    }
}

/// The samples that the evidence is taken over: the finite seeds, and the finite trusted
/// samples, among them the constrained-stationary ones that are folded as ordinary
/// samples because they regress the incumbent.
pub open spec fn evidence<C>(state: MonitorState<C>, events: Seq<Event<C>>) -> Seq<Sample>
    decreases events.len(),
{
    if events.len() == 0 {
        Seq::empty()
    } else {
        let earlier = evidence(state, events.drop_last());
        match events.last() {
            Event::Seed { point, value, .. } => if value.finite() {
                earlier.push((point, value))
            } else {
                earlier
            },
            Event::Sampled { sample } => if sample.trusted && sample.value.finite() {
                earlier.push((sample.point, sample.value))
            } else {
                earlier
            },
            Event::Stationary { sample } => if sample.trusted && sample.value.finite()
                && after_run(state, events.drop_last()).regresses(sample.value) {
                earlier.push((sample.point, sample.value))
            } else {
                earlier
            },
            _ => earlier,
        }
    }
}

/// Over any run, the probe scale is taken over the latest `window + 1` finite seeds and
/// finite trusted samples; a window of at most two gives none.
pub proof fn law_probe_scale_over_a_run<C>(
    rel_tol: Binary64,
    window: usize,
    events: Seq<Event<C>>,
)
    ensures
        ({
            let start = MonitorState::<C>::fresh(rel_tol, window);
            let state = after_run(start, events);
            &&& state.recent == latest(evidence(start, events), window + 1)
            &&& state.window_probe_scale() == probe_scale(
                latest(evidence(start, events), window + 1),
                state.best_value,
            )
            &&& window <= 2 ==> state.window_probe_scale() is None
        }),
    decreases events.len(),
{
    let start = MonitorState::<C>::fresh(rel_tol, window);
    if 0 < events.len() {
        law_probe_scale_over_a_run(rel_tol, window, events.drop_last());
        law_every_run_is_well_formed(rel_tol, window, events.drop_last());
        let before = after_run(start, events.drop_last());
        let earlier = evidence(start, events.drop_last());
        lemma_event_evidence(before, events.last(), earlier);
    } else {
        assert(start.recent =~= latest(evidence(start, events), window + 1));
    }
}

proof fn lemma_event_evidence<C>(state: MonitorState<C>, event: Event<C>, earlier: Seq<Sample>)
    requires
        state.recent == latest(earlier, state.window + 1),
    ensures
        ({
            let next = after_event(state, event).recent;
            match event {
                Event::Seed { point, value, .. } if value.finite() => next == latest(
                    earlier.push((point, value)),
                    state.window + 1,
                ),
                Event::Sampled { sample } if sample.trusted && sample.value.finite() => next
                    == latest(earlier.push((sample.point, sample.value)), state.window + 1),
                Event::Stationary { sample } if sample.trusted && sample.value.finite()
                    && state.regresses(sample.value) => next == latest(
                    earlier.push((sample.point, sample.value)),
                    state.window + 1,
                ),
                _ => next == state.recent,
            }
        }),
{
    match event {
        Event::Seed { point, value, .. } => {
            lemma_latest_again(earlier, (point, value), state.window + 1);
        },
        Event::Sampled { sample } => {
            lemma_latest_again(earlier, (sample.point, sample.value), state.window + 1);
        },
        Event::Stationary { sample } => {
            lemma_latest_again(earlier, (sample.point, sample.value), state.window + 1);
        },
        _ => {},
    }
}

/// Keeping the latest items one by one keeps the latest of all.
proof fn lemma_latest_again<T>(items: Seq<T>, item: T, n: int)
    requires
        0 < n,
    ensures
        latest(latest(items, n).push(item), n) == latest(items.push(item), n),
{
    assert(latest(latest(items, n).push(item), n) =~= latest(items.push(item), n));
}

/// Whether an event is a refusal that is counted, ordinary or unescapable.
pub open spec fn counts_refusal<C>(state: MonitorState<C>, event: Event<C>) -> bool {
    state.has_incumbent() && (event is Refused || event is Unescapable)
}

/// How many refusals the current refused streak holds, and how many of them are
/// unescapable: those since the streak was last empty.
pub open spec fn streak<C>(state: MonitorState<C>, events: Seq<Event<C>>) -> (nat, nat)
    decreases events.len(),
{
    if events.len() == 0 || after_run(state, events).refused_streak == 0 {
        (0, 0)
    } else {
        let before = after_run(state, events.drop_last());
        let (refused, unescapable) = streak(state, events.drop_last());
        if !counts_refusal(before, events.last()) {
            (refused, unescapable)
        } else if events.last() is Unescapable {
            (refused + 1, unescapable + 1)
        } else {
            (refused + 1, unescapable)
        }
    }
}

/// The streaks count the refusals of the current refused streak and the unescapable ones
/// among them.
pub proof fn law_streaks_count_refusals<C>(
    rel_tol: Binary64,
    window: usize,
    events: Seq<Event<C>>,
)
    requires
        events.len() <= usize::MAX,
    ensures
        ({
            let start = MonitorState::<C>::fresh(rel_tol, window);
            let state = after_run(start, events);
            let (refused, unescapable) = streak(start, events);
            &&& state.refused_streak == refused
            &&& state.unescapable_streak == unescapable
            &&& unescapable <= refused <= events.len()
        }),
    decreases events.len(),
{
    let start = MonitorState::<C>::fresh(rel_tol, window);
    law_every_run_is_well_formed(rel_tol, window, events);
    if 0 < events.len() {
        law_streaks_count_refusals(rel_tol, window, events.drop_last());
        lemma_event_streak(after_run(start, events.drop_last()), events.last());
    }
}

proof fn lemma_event_streak<C>(state: MonitorState<C>, event: Event<C>)
    ensures
        ({
            let next = after_event(state, event);
            next.refused_streak == 0 || if counts_refusal(state, event) {
                &&& state.refused_streak < usize::MAX ==> next.refused_streak
                    == state.refused_streak + 1
                &&& event is Refused ==> next.unescapable_streak == state.unescapable_streak
                &&& event is Unescapable && state.unescapable_streak < usize::MAX
                    ==> next.unescapable_streak == state.unescapable_streak + 1
            } else {
                &&& next.refused_streak == state.refused_streak
                &&& next.unescapable_streak == state.unescapable_streak
            }
        }),
{
}

/// Whether an event leaves the choice of the incumbent to samples and gives no licence: it
/// is no seed, no stationary sample that is adopted, and no licence that is granted.
pub open spec fn ordinary<C>(state: MonitorState<C>, event: Event<C>) -> bool {
    match event {
        Event::Seed { .. } => false,
        Event::Stationary { sample } => !sample.trusted || !sample.value.finite()
            || state.regresses(sample.value),
        Event::Licensed => !state.licensed(),
        _ => true,
    }
}

/// Whether every event of a run is ordinary where it comes.
pub open spec fn ordinary_run<C>(state: MonitorState<C>, events: Seq<Event<C>>) -> bool
    decreases events.len(),
{
    events.len() == 0 || {
        &&& ordinary_run(state, events.drop_last())
        &&& ordinary(after_run(state, events.drop_last()), events.last())
    }
}

/// However many ordinary events are folded, the incumbent is the same or has a strictly
/// lower value, and what the licence remembers is left alone.
pub proof fn law_incumbent_falls_over_a_run<C>(state: MonitorState<C>, events: Seq<Event<C>>)
    requires
        ordinary_run(state, events),
    ensures
        ({
            let next = after_run(state, events);
            &&& same_incumbent(state, next) || less(next.best_value, state.best_value)
            &&& next.rel_tol == state.rel_tol
            &&& next.continuation_incumbent == state.continuation_incumbent
        }),
    decreases events.len(),
{
    if 0 < events.len() {
        let before = after_run(state, events.drop_last());
        law_incumbent_falls_over_a_run(state, events.drop_last());
        lemma_ordinary_event(before, events.last());
    }
}

proof fn lemma_ordinary_event<C>(state: MonitorState<C>, event: Event<C>)
    requires
        ordinary(state, event),
    ensures
        ({
            let next = after_event(state, event);
            &&& same_incumbent(state, next) || less(next.best_value, state.best_value)
            &&& next.rel_tol == state.rel_tol
            &&& next.continuation_incumbent == state.continuation_incumbent
        }),
{
    match event {
        Event::Sampled { sample } => {
            lemma_sample_event(state, sample);
        },
        Event::Stationary { sample } => {
            lemma_sample_event(state, sample);
        },
        Event::Refused { point, band } => {
            law_only_samples_move_the_incumbent(state, point, band, band);
        },
        Event::Unescapable { point, band, band_again } => {
            law_only_samples_move_the_incumbent(state, point, band, band_again);
        },
        _ => {},
    }
}

proof fn lemma_sample_event<C>(state: MonitorState<C>, sample: Observation)
    ensures
        ({
            let next = after_event(state, Event::Sampled { sample });
            &&& same_incumbent(state, next) || less(next.best_value, state.best_value)
            &&& next.rel_tol == state.rel_tol
            &&& next.continuation_incumbent == state.continuation_incumbent
        }),
{
    law_incumbent_never_rises(
        state,
        sample.point,
        sample.value,
        sample.grad_norm,
        sample.trusted,
        sample.curvature_psd,
        sample.band_at_value,
        sample.band_at_best,
    );
}

/// After a licence and a run of ordinary events, another licence away from a strict saddle
/// comes at a strictly lower value: the values are finitely many, so these licences end.
pub proof fn law_licences_descend<C>(state: MonitorState<C>, events: Seq<Event<C>>)
    requires
        !less(state.rel_tol, Binary64 { bits: 0 }),
        state.licensed(),
        ordinary_run(state.after_license(), events),
    ensures
        ({
            let next = after_run(state.after_license(), events);
            next.licensed() && !next.at_strict_saddle() ==> less(
                next.best_value,
                state.best_value,
            )
        }),
{
    law_incumbent_falls_over_a_run(state.after_license(), events);
    lemma_no_descent_from_itself(state.rel_tol, state.best_value);
}

/// Whether an event is a trusted sample with a finite value.
pub open spec fn counted_sample<C>(event: Event<C>) -> bool {
    event matches Event::Sampled { sample } && sample.trusted && sample.value.finite()
}

/// How many events of a run are trusted samples with a finite value.
pub open spec fn counted_samples<C>(events: Seq<Event<C>>) -> nat
    decreases events.len(),
{
    if events.len() == 0 {
        0
    } else if counted_sample(events.last()) {
        counted_samples(events.drop_last()) + 1
    } else {
        counted_samples(events.drop_last())
    }
}

/// The payload that waits for a sample after a run: the one staged last, unless a sample
/// or a rejected trial took it.
pub open spec fn waiting<C>(events: Seq<Event<C>>) -> Option<C>
    decreases events.len(),
{
    if events.len() == 0 {
        None
    } else {
        match events.last() {
            Event::Staged { payload } => payload,
            Event::Sampled { .. } => None,
            Event::Rejected { .. } => None,
            _ => waiting(events.drop_last()),
        }
    }
}

/// Whether the event `k` of a run is the earliest of its trusted samples with the lowest
/// finite value.
pub open spec fn leads<C>(events: Seq<Event<C>>, k: int) -> bool {
    &&& 0 <= k < events.len()
    &&& counted_sample(events[k])
    &&& forall|i: int|
        0 <= i < events.len() && counted_sample(#[trigger] events[i]) ==> if i < k {
            less(events[k]->Sampled_sample.value, events[i]->Sampled_sample.value)
        } else {
            at_most(events[k]->Sampled_sample.value, events[i]->Sampled_sample.value)
        }
}

/// Whether the incumbent is the sample of the event `k`, with the payload that waited for
/// it.
pub open spec fn led_by_event<C>(
    state: MonitorState<C>,
    events: Seq<Event<C>>,
    k: int,
) -> bool {
    let sample = events[k]->Sampled_sample;
    &&& state.best_value == sample.value
    &&& state.best_point == Some(sample.point)
    &&& state.best_grad_norm == sample.grad_norm
    &&& state.best_curvature_psd == sample.curvature_psd
    &&& state.best_payload == waiting(events.take(k))
}

/// Whether a run holds neither a seed nor a constrained-stationary sample.
pub open spec fn samples_lead<C>(events: Seq<Event<C>>) -> bool {
    forall|i: int|
        0 <= i < events.len() ==> !(#[trigger] events[i] is Seed) && !(events[i] is Stationary)
}

/// Over a run without seeds and constrained-stationary samples, the incumbent is the
/// earliest of the trusted samples with the lowest finite value, with the payload that was
/// staged for it, and these samples are counted.
pub proof fn law_incumbent_is_the_earliest_lowest<C>(
    rel_tol: Binary64,
    window: usize,
    events: Seq<Event<C>>,
)
    requires
        samples_lead(events),
        events.len() <= usize::MAX,
    ensures
        ({
            let state = after_run(MonitorState::<C>::fresh(rel_tol, window), events);
            &&& state.accepted == counted_samples(events)
            &&& counted_samples(events) <= events.len()
            &&& state.staged_payload == waiting(events)
            &&& state.best_point is Some <==> counted_samples(events) > 0
            &&& counted_samples(events) == 0 ==> forall|i: int|
                0 <= i < events.len() ==> !counted_sample(#[trigger] events[i])
            &&& state.best_point is Some ==> exists|k: int| #[trigger]
                leads(events, k) && led_by_event(state, events, k)
        }),
    decreases events.len(),
{
    let start = MonitorState::<C>::fresh(rel_tol, window);
    if 0 < events.len() {
        let earlier = events.drop_last();
        let last = events.last();
        let n = earlier.len() as int;
        assert forall|i: int| 0 <= i < earlier.len() implies !(#[trigger] earlier[i] is Seed)
            && !(earlier[i] is Stationary) by {
            assert(!(events[i] is Seed));
        }
        assert(!(events[n] is Seed) && !(events[n] is Stationary));
        law_incumbent_is_the_earliest_lowest(rel_tol, window, earlier);
        law_every_run_is_well_formed(rel_tol, window, earlier);
        let before = after_run(start, earlier);
        let state = after_run(start, events);
        lemma_event_leader(before, last);
        assert(events.take(n) =~= earlier);
        if counted_sample(last) {
            let sample = last->Sampled_sample;
            if less(sample.value, before.best_value) {
                assert forall|i: int|
                    0 <= i < events.len() && counted_sample(#[trigger] events[i]) implies if i < n {
                    less(events[n]->Sampled_sample.value, events[i]->Sampled_sample.value)
                } else {
                    at_most(events[n]->Sampled_sample.value, events[i]->Sampled_sample.value)
                } by {
                    if i < n {
                        assert(counted_sample(earlier[i]));
                        let k = choose|k: int| #[trigger]
                            leads(earlier, k) && led_by_event(before, earlier, k);
                        assert(leads(earlier, k));
                        assert(at_most(
                            earlier[k]->Sampled_sample.value,
                            earlier[i]->Sampled_sample.value,
                        ));
                    }
                }
                assert(leads(events, n) && led_by_event(state, events, n));
            } else {
                let k = choose|k: int| #[trigger]
                    leads(earlier, k) && led_by_event(before, earlier, k);
                lemma_leader_stays(before, state, earlier, events, k);
            }
        } else if before.best_point is Some {
            let k = choose|k: int| #[trigger]
                leads(earlier, k) && led_by_event(before, earlier, k);
            lemma_leader_stays(before, state, earlier, events, k);
        }
        if counted_samples(events) == 0 {
            assert forall|i: int| 0 <= i < events.len() implies !counted_sample(
                #[trigger] events[i],
            ) by {
                if i < n {
                    assert(!counted_sample(earlier[i]));
                }
            }
        }
    }
}

proof fn lemma_leader_stays<C>(
    before: MonitorState<C>,
    state: MonitorState<C>,
    earlier: Seq<Event<C>>,
    events: Seq<Event<C>>,
    k: int,
)
    requires
        0 < events.len(),
        earlier == events.drop_last(),
        leads(earlier, k),
        led_by_event(before, earlier, k),
        same_incumbent(before, state),
        counted_sample(events.last()) ==> at_most(
            before.best_value,
            events.last()->Sampled_sample.value,
        ),
    ensures
        leads(events, k),
        led_by_event(state, events, k),
{
    assert(events.take(k) =~= earlier.take(k));
    assert(events[k] == earlier[k]);
    assert forall|i: int| 0 <= i < events.len() && counted_sample(#[trigger] events[i]) implies if i
        < k {
        less(events[k]->Sampled_sample.value, events[i]->Sampled_sample.value)
    } else {
        at_most(events[k]->Sampled_sample.value, events[i]->Sampled_sample.value)
    } by {
        if i < earlier.len() {
            assert(counted_sample(earlier[i]));
        }
    }
}

/// What one event without a seed or a constrained-stationary sample does to the incumbent.
proof fn lemma_event_leader<C>(state: MonitorState<C>, event: Event<C>)
    requires
        state.well_formed(),
        !(event is Seed),
        !(event is Stationary),
    ensures
        ({
            let next = after_event(state, event);
            &&& next.staged_payload == match event {
                Event::Staged { payload } => payload,
                Event::Sampled { .. } => None,
                Event::Rejected { .. } => None,
                _ => state.staged_payload,
            }
            &&& counted_sample(event) ==> {
                let sample = event->Sampled_sample;
                &&& state.accepted < usize::MAX ==> next.accepted == state.accepted + 1
                &&& less(sample.value, state.best_value) ==> {
                    &&& next.best_value == sample.value
                    &&& next.best_point == Some(sample.point)
                    &&& next.best_grad_norm == sample.grad_norm
                    &&& next.best_curvature_psd == sample.curvature_psd
                    &&& next.best_payload == state.staged_payload
                }
                &&& !less(sample.value, state.best_value) ==> same_incumbent(state, next)
                    && at_most(state.best_value, sample.value) && state.best_point is Some
            }
            &&& !counted_sample(event) ==> {
                &&& next.accepted == state.accepted
                &&& same_incumbent(state, next)
            }
        }),
{
}

} // verus!
