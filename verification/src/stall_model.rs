//! The states of a stall monitor and what each observation makes of them.
//!
//! A [`MonitorState`] is what a [`crate::stall_monitor::StallMonitor`] holds, with
//! points as sequences of numbers. Each transition here is the whole effect of one
//! observation. Where an observation asks for the stationarity band, the answer is
//! an argument.

use crate::binary64::{absolute, at_most, difference, less, product, sum, Binary64, INFINITY, ONE};
use crate::probe::{probe_scale, Sample};
use crate::stall_monitor::{StallStep, StallVerdict, UnescapableRefusalWindow};
use vstd::prelude::*;

verus! {

/// The bits of a point.
pub open spec fn bits_of(point: Seq<Binary64>) -> Seq<u64> {
    Seq::new(point.len(), |i: int| point[i].bits)
}

/// The search state an escape is granted from: the incumbent, and the trials that
/// the open window observed, in raw bits.
#[verifier::ext_equal]
pub struct ReplayIdentity {
    pub point: Seq<u64>,
    pub value: u64,
    pub grad_norm: u64,
    pub window_trials: Seq<Seq<u64>>,
}

/// A published exit.
#[verifier::ext_equal]
pub struct ExitState {
    pub point: Seq<Binary64>,
    pub value: Binary64,
    pub grad_norm: Binary64,
    pub accepted: usize,
    pub converged: bool,
    pub probe_scale: Option<(Binary64, Binary64)>,
    pub unescapable_window: Option<UnescapableRefusalWindow>,
}

/// Everything a stall monitor holds but the band.
#[verifier::ext_equal]
pub struct MonitorState<C> {
    pub rel_tol: Binary64,
    pub window: usize,
    pub replay_proven: bool,
    pub best_value: Binary64,
    pub best_point: Option<Seq<Binary64>>,
    pub best_grad_norm: Binary64,
    pub best_curvature_psd: Option<bool>,
    pub best_payload: Option<C>,
    pub staged_payload: Option<C>,
    pub strict_saddle_refusal: bool,
    pub no_improve_streak: usize,
    pub refused_streak: usize,
    pub unescapable_streak: usize,
    pub accepted: usize,
    pub stuck_escapes: usize,
    pub incumbent_at_last_escape: Option<ReplayIdentity>,
    pub window_trials: Seq<Seq<u64>>,
    pub continuation_incumbent: Option<(Binary64, Binary64)>,
    pub recent: Seq<Sample>,
    pub recent_steps: Seq<StallStep>,
    pub exit: Option<ExitState>,
    pub exit_revision: u64,
}

/// One more, as far as a counter goes.
pub open spec fn counted(n: usize) -> usize {
    if n == usize::MAX {
        n
    } else {
        (n + 1) as usize
    }
}

/// The next revision; after the last comes the first.
pub open spec fn next_revision(n: u64) -> u64 {
    if n == u64::MAX {
        0
    } else {
        (n + 1) as u64
    }
}

/// The last `n` items.
pub open spec fn latest<T>(items: Seq<T>, n: int) -> Seq<T> {
    if items.len() <= n {
        items
    } else {
        items.subrange(items.len() - n, items.len() as int)
    }
}

/// `rel_tol · (1 + |value|)`: what an improvement on `value` must exceed.
pub open spec fn improvement_floor(rel_tol: Binary64, value: Binary64) -> Binary64 {
    product(rel_tol, sum(Binary64 { bits: ONE }, absolute(value)))
}

/// Whether a projected gradient norm is finite and inside a band.
pub open spec fn inside(grad_norm: Binary64, band: Binary64) -> bool {
    grad_norm.finite() && at_most(grad_norm, band)
}

/// Whether a projected gradient norm is finite and above a band.
pub open spec fn above(grad_norm: Binary64, band: Binary64) -> bool {
    grad_norm.finite() && less(band, grad_norm)
}

impl<C> MonitorState<C> {
    /// The state before the first observation.
    pub open spec fn fresh(rel_tol: Binary64, window: usize) -> MonitorState<C> {
        MonitorState {
            rel_tol,
            window,
            replay_proven: false,
            best_value: Binary64 { bits: INFINITY },
            best_point: None,
            best_grad_norm: Binary64 { bits: INFINITY },
            best_curvature_psd: None,
            best_payload: None,
            staged_payload: None,
            strict_saddle_refusal: false,
            no_improve_streak: 0,
            refused_streak: 0,
            unescapable_streak: 0,
            accepted: 0,
            stuck_escapes: 0,
            incumbent_at_last_escape: None,
            window_trials: Seq::empty(),
            continuation_incumbent: None,
            recent: Seq::empty(),
            recent_steps: Seq::empty(),
            exit: None,
            exit_revision: 0,
        }
    }

    /// Whether there is an incumbent.
    pub open spec fn has_incumbent(self) -> bool {
        self.best_point is Some && self.best_value.finite()
    }

    /// Whether the incumbent is a strict saddle.
    pub open spec fn at_strict_saddle(self) -> bool {
        self.best_curvature_psd == Some(false)
    }

    /// The incumbent has a finite value, the windows hold what they may, and the
    /// unescapable refusals are among the refused ones.
    pub open spec fn coherent(self) -> bool {
        &&& self.best_point is Some <==> self.best_value.finite()
        &&& !self.best_value.finite() ==> self.best_value == (Binary64 { bits: INFINITY })
        &&& self.recent.len() <= self.window + 1
        &&& forall|i: int| 0 <= i < self.recent.len() ==> (#[trigger] self.recent[i]).1.finite()
        &&& self.recent_steps.len() <= self.window
        &&& self.unescapable_streak <= self.refused_streak
    }

    /// An exit is published as soon as there is an incumbent, and it is at the
    /// incumbent.
    pub open spec fn exit_follows(self) -> bool {
        &&& self.exit is Some <==> self.best_value.finite()
        &&& self.exit matches Some(exit) ==> {
            &&& self.best_point == Some(exit.point)
            &&& exit.value == self.best_value
            &&& exit.grad_norm == self.best_grad_norm
            &&& exit.converged ==> exit.grad_norm.finite()
        }
    }

    /// What holds of every state that a monitor reaches.
    pub open spec fn well_formed(self) -> bool {
        self.coherent() && self.exit_follows()
    }

    /// The state with `exit` published.
    pub open spec fn publish(self, exit: ExitState) -> MonitorState<C> {
        MonitorState {
            exit: Some(exit),
            exit_revision: next_revision(self.exit_revision),
            ..self
        }
    }

    /// The window's evidence about the criterion's scatter.
    pub open spec fn window_probe_scale(self) -> Option<(Binary64, Binary64)> {
        probe_scale(self.recent, self.best_value)
    }

    /// The exit at a judged iterate, with the window's evidence.
    pub open spec fn exit_at(
        self,
        point: Seq<Binary64>,
        value: Binary64,
        grad_norm: Binary64,
        converged: bool,
        unescapable_window: Option<UnescapableRefusalWindow>,
    ) -> ExitState {
        ExitState {
            point,
            value,
            grad_norm,
            accepted: self.accepted,
            converged,
            probe_scale: self.window_probe_scale(),
            unescapable_window,
        }
    }

    /// The incumbent as an exit that claims nothing.
    pub open spec fn best_so_far(self) -> ExitState {
        ExitState {
            point: self.best_point->0,
            value: self.best_value,
            grad_norm: self.best_grad_norm,
            accepted: self.accepted,
            converged: false,
            probe_scale: None,
            unescapable_window: None,
        }
    }

    /// The state with the incumbent published as an exit that claims nothing.
    pub open spec fn snapshot(self) -> MonitorState<C> {
        if self.has_incumbent() {
            self.publish(self.best_so_far())
        } else {
            self
        }
    }

    /// The iterate a stall is judged at: the incumbent, or the given sample where there
    /// is none.
    pub open spec fn judged_at(
        self,
        point: Seq<Binary64>,
        value: Binary64,
        grad_norm: Binary64,
    ) -> (Seq<Binary64>, Binary64, Binary64) {
        (
            match self.best_point {
                Some(best) => best,
                None => point,
            },
            if self.best_value.finite() {
                self.best_value
            } else {
                value
            },
            if self.best_point is Some {
                self.best_grad_norm
            } else {
                grad_norm
            },
        )
    }

    /// The replay identity of the search at a judged iterate.
    pub open spec fn identity(
        self,
        point: Seq<Binary64>,
        value: Binary64,
        grad_norm: Binary64,
    ) -> ReplayIdentity {
        ReplayIdentity {
            point: bits_of(point),
            value: value.bits,
            grad_norm: grad_norm.bits,
            window_trials: self.window_trials,
        }
    }

    /// Whether an escape from `identity` would replay the previous escape.
    pub open spec fn replays(self, identity: ReplayIdentity) -> bool {
        self.incumbent_at_last_escape == Some(identity)
    }

    /// The state after an escape from `identity`: the window is open again.
    pub open spec fn escaped(self, identity: ReplayIdentity) -> MonitorState<C> {
        MonitorState {
            stuck_escapes: counted(self.stuck_escapes),
            incumbent_at_last_escape: Some(identity),
            window_trials: Seq::empty(),
            no_improve_streak: 0,
            ..self
        }
    }

    /// The state after one more trial of the open window.
    pub open spec fn tried(self, point: Seq<Binary64>) -> MonitorState<C> {
        MonitorState { window_trials: self.window_trials.push(bits_of(point)), ..self }
    }

    /// The state after one more sample of the evidence window.
    pub open spec fn remembered(self, point: Seq<Binary64>, value: Binary64) -> MonitorState<C> {
        MonitorState { recent: latest(self.recent.push((point, value)), self.window + 1), ..self }
    }

    /// The state with the given sample as the incumbent and the staged payload with it.
    pub open spec fn led_by(
        self,
        point: Seq<Binary64>,
        value: Binary64,
        grad_norm: Binary64,
        curvature_psd: Option<bool>,
        payload: Option<C>,
    ) -> MonitorState<C> {
        MonitorState {
            best_value: value,
            best_point: Some(point),
            best_grad_norm: grad_norm,
            best_curvature_psd: curvature_psd,
            best_payload: payload,
            ..self
        }
    }

    /// What a filled window decides, with the band at the judged value.
    ///
    /// Inside the band the search has converged. Above it an escape is granted, unless
    /// it would replay the previous one, which proves the replay. Whatever is not an
    /// escape is published.
    pub open spec fn decide(
        self,
        point: Seq<Binary64>,
        value: Binary64,
        grad_norm: Binary64,
        band: Binary64,
    ) -> (MonitorState<C>, StallVerdict) {
        let (p, v, g) = self.judged_at(point, value, grad_norm);
        let identity = self.identity(p, v, g);
        if inside(g, band) {
            (self.publish(self.exit_at(p, v, g, true, None)), StallVerdict::Converged)
        } else if above(g, band) && !self.replays(identity) {
            (
                MonitorState {
                    refused_streak: 0,
                    unescapable_streak: 0,
                    ..self.escaped(identity)
                },
                StallVerdict::Escape { residual_grad_norm: g, band },
            )
        } else {
            (
                MonitorState {
                    replay_proven: self.replay_proven || above(g, band),
                    ..self.publish(self.exit_at(p, v, g, false, None))
                },
                StallVerdict::Floor { residual_grad_norm: g },
            )
        }
    }

    /// The state after the seed.
    pub open spec fn seeded(
        self,
        point: Seq<Binary64>,
        value: Binary64,
        grad_norm: Binary64,
        curvature_psd: Option<bool>,
    ) -> MonitorState<C> {
        let taken = MonitorState { staged_payload: None, ..self };
        if !value.finite() {
            taken
        } else {
            MonitorState {
                no_improve_streak: 0,
                refused_streak: 0,
                unescapable_streak: 0,
                window_trials: Seq::empty(),
                accepted: counted(self.accepted),
                ..taken
            }.led_by(point, value, grad_norm, curvature_psd, self.staged_payload).remembered(
                point,
                value,
            ).snapshot()
        }
    }

    /// Whether a trusted sample counts as no improvement on the incumbent: it improves
    /// by no more than the floor, or it is inside the band at its own value. Without an
    /// incumbent the floor is not finite and nothing counts.
    pub open spec fn no_improvement(
        self,
        value: Binary64,
        grad_norm: Binary64,
        band_at_value: Binary64,
    ) -> bool {
        let floor = improvement_floor(self.rel_tol, self.best_value);
        floor.finite() && (at_most(difference(self.best_value, value), floor) || inside(
            grad_norm,
            band_at_value,
        ))
    }

    /// The state after a trusted sample with a finite value, its window not yet decided.
    pub open spec fn sampled(
        self,
        point: Seq<Binary64>,
        value: Binary64,
        grad_norm: Binary64,
        curvature_psd: Option<bool>,
        band_at_value: Binary64,
    ) -> MonitorState<C> {
        let seen = MonitorState {
            staged_payload: None,
            refused_streak: 0,
            unescapable_streak: 0,
            accepted: counted(self.accepted),
            ..self
        }.remembered(point, value);
        let led = if less(value, self.best_value) {
            seen.led_by(point, value, grad_norm, curvature_psd, self.staged_payload).snapshot()
        } else {
            seen
        };
        if self.no_improvement(value, grad_norm, band_at_value) {
            MonitorState {
                no_improve_streak: counted(self.no_improve_streak),
                ..led.tried(point)
            }
        } else {
            MonitorState {
                no_improve_streak: 0,
                window_trials: Seq::empty(),
                stuck_escapes: 0,
                incumbent_at_last_escape: None,
                ..led
            }
        }
    }

    /// Whether the no-improvement window is full and asks for the band at the
    /// incumbent's value: at a strict saddle only where an escape would be a replay.
    pub open spec fn asks_band(
        self,
        point: Seq<Binary64>,
        value: Binary64,
        grad_norm: Binary64,
    ) -> bool {
        let (p, v, g) = self.judged_at(point, value, grad_norm);
        &&& self.window <= self.no_improve_streak
        &&& self.at_strict_saddle() ==> self.replays(self.identity(p, v, g))
    }

    /// What the no-improvement window decides once it is full.
    pub open spec fn decide_samples(
        self,
        point: Seq<Binary64>,
        value: Binary64,
        grad_norm: Binary64,
        band_at_best: Binary64,
    ) -> (MonitorState<C>, StallVerdict) {
        let (p, v, g) = self.judged_at(point, value, grad_norm);
        let identity = self.identity(p, v, g);
        if self.no_improve_streak < self.window {
            (self, StallVerdict::Continue)
        } else if self.at_strict_saddle() && !self.replays(identity) {
            (
                MonitorState { strict_saddle_refusal: true, ..self.escaped(identity) },
                StallVerdict::Continue,
            )
        } else {
            MonitorState {
                replay_proven: self.replay_proven || self.at_strict_saddle(),
                ..self
            }.decide(point, value, grad_norm, band_at_best)
        }
    }

    /// The state after one sample, and the verdict on it.
    pub open spec fn observed(
        self,
        point: Seq<Binary64>,
        value: Binary64,
        grad_norm: Binary64,
        trusted: bool,
        curvature_psd: Option<bool>,
        band_at_value: Binary64,
        band_at_best: Binary64,
    ) -> (MonitorState<C>, StallVerdict) {
        if !trusted {
            (
                MonitorState {
                    staged_payload: None,
                    no_improve_streak: 0,
                    refused_streak: 0,
                    unescapable_streak: 0,
                    ..self.tried(point)
                },
                StallVerdict::Continue,
            )
        } else if !value.finite() {
            (
                MonitorState {
                    staged_payload: None,
                    no_improve_streak: 0,
                    ..self.tried(point)
                },
                StallVerdict::Continue,
            )
        } else {
            self.sampled(point, value, grad_norm, curvature_psd, band_at_value).decide_samples(
                point,
                value,
                grad_norm,
                band_at_best,
            )
        }
    }

    /// The state after a finite trial that the solver's ratio test rejected.
    pub open spec fn rejected(self, point: Seq<Binary64>) -> MonitorState<C> {
        MonitorState {
            staged_payload: None,
            refused_streak: 0,
            unescapable_streak: 0,
            ..self.tried(point)
        }
    }

    /// What a full window of refusals decides, where one of them can be escaped.
    pub open spec fn decide_refusals(
        self,
        point: Seq<Binary64>,
        band: Binary64,
    ) -> (MonitorState<C>, StallVerdict) {
        if self.at_strict_saddle() {
            (
                MonitorState {
                    refused_streak: 0,
                    unescapable_streak: 0,
                    no_improve_streak: 0,
                    ..self
                },
                StallVerdict::Continue,
            )
        } else {
            self.decide(point, self.best_value, self.best_grad_norm, band)
        }
    }

    /// The state after one more refused trial, its window not yet decided.
    pub open spec fn refused_once(self, point: Seq<Binary64>) -> MonitorState<C> {
        MonitorState {
            refused_streak: counted(self.refused_streak),
            ..self.tried(point)
        }
    }

    /// The state after one refused trial, and the verdict on it.
    pub open spec fn refused(
        self,
        point: Seq<Binary64>,
        band: Binary64,
    ) -> (MonitorState<C>, StallVerdict) {
        let next = self.refused_once(point);
        if !self.has_incumbent() {
            (self, StallVerdict::Continue)
        } else if next.refused_streak < self.window {
            (next, StallVerdict::Continue)
        } else {
            next.decide_refusals(point, band)
        }
    }

    /// The state after one more unescapable refusal, its window not yet decided.
    pub open spec fn blocked_once(self, point: Seq<Binary64>) -> MonitorState<C> {
        MonitorState {
            refused_streak: counted(self.refused_streak),
            unescapable_streak: counted(self.unescapable_streak),
            ..self.tried(point)
        }
    }

    /// The state after one unescapable refusal, and the verdict on it. The band is
    /// asked for once, and once more where the incumbent is inside the first answer.
    pub open spec fn blocked(
        self,
        point: Seq<Binary64>,
        band: Binary64,
        band_again: Binary64,
    ) -> (MonitorState<C>, StallVerdict) {
        let next = self.blocked_once(point);
        let (p, v, g) = next.judged_at(point, self.best_value, self.best_grad_norm);
        if !self.has_incumbent() {
            (self, StallVerdict::Continue)
        } else if next.refused_streak < self.window {
            (next, StallVerdict::Continue)
        } else if next.unescapable_streak < next.refused_streak {
            next.decide_refusals(point, band)
        } else if inside(g, band) {
            next.decide(point, v, g, band_again)
        } else {
            (
                next.publish(
                    next.exit_at(
                        p,
                        v,
                        g,
                        false,
                        Some(
                            UnescapableRefusalWindow {
                                refused_trials: next.unescapable_streak,
                                band,
                            },
                        ),
                    ),
                ),
                StallVerdict::Floor { residual_grad_norm: g },
            )
        }
    }

    /// Whether a value exceeds the incumbent's by more than the floor.
    pub open spec fn regresses(self, value: Binary64) -> bool {
        self.best_value.finite() && less(
            sum(self.best_value, improvement_floor(self.rel_tol, self.best_value)),
            value,
        )
    }

    /// The state with a constrained-stationary sample adopted, its window full.
    pub open spec fn adopted(
        self,
        point: Seq<Binary64>,
        value: Binary64,
        grad_norm: Binary64,
        curvature_psd: Option<bool>,
    ) -> MonitorState<C> {
        MonitorState {
            staged_payload: None,
            refused_streak: 0,
            unescapable_streak: 0,
            accepted: counted(self.accepted),
            no_improve_streak: self.window,
            ..self
        }.led_by(point, value, grad_norm, curvature_psd, self.staged_payload)
    }

    /// The state after a sample that the caller has shown constrained-stationary, and
    /// the verdict on it.
    pub open spec fn settled(
        self,
        point: Seq<Binary64>,
        value: Binary64,
        grad_norm: Binary64,
        trusted: bool,
        curvature_psd: Option<bool>,
        band_at_value: Binary64,
        band_at_best: Binary64,
    ) -> (MonitorState<C>, StallVerdict) {
        if !value.finite() {
            (MonitorState { staged_payload: None, ..self }, StallVerdict::Continue)
        } else if !trusted || self.regresses(value) {
            self.observed(
                point,
                value,
                grad_norm,
                trusted,
                curvature_psd,
                band_at_value,
                band_at_best,
            )
        } else {
            let (next, verdict) = self.adopted(point, value, grad_norm, curvature_psd).decide(
                point,
                value,
                grad_norm,
                band_at_best,
            );
            if verdict is Escape {
                (next.snapshot(), verdict)
            } else {
                (next, verdict)
            }
        }
    }

    /// Whether a filled window may be followed by another one.
    pub open spec fn licensed(self) -> bool {
        !self.replay_proven && match self.continuation_incumbent {
            None => true,
            Some((previous_value, previous_grad_norm)) => {
                ||| less(
                    improvement_floor(self.rel_tol, self.best_value),
                    difference(previous_value, self.best_value),
                )
                ||| less(self.best_grad_norm, previous_grad_norm)
                ||| self.at_strict_saddle()
            },
        }
    }

    /// The state after a licence was asked for.
    pub open spec fn after_license(self) -> MonitorState<C> {
        if self.licensed() {
            MonitorState {
                continuation_incumbent: Some((self.best_value, self.best_grad_norm)),
                ..self
            }
        } else {
            self
        }
    }

    /// The state after one accepted step of the solver.
    pub open spec fn stepped(self, step: StallStep) -> MonitorState<C> {
        MonitorState {
            recent_steps: latest(self.recent_steps.push(step), self.window as int),
            ..self
        }
    }

    /// The state with a payload staged for the next sample.
    pub open spec fn staged(self, payload: Option<C>) -> MonitorState<C> {
        MonitorState { staged_payload: payload, ..self }
    }

    /// The state with the strict-saddle flag read.
    pub open spec fn flag_read(self) -> MonitorState<C> {
        MonitorState { strict_saddle_refusal: false, ..self }
    }

    /// The state with a filled window deferred to the caller.
    pub open spec fn deferred(self) -> MonitorState<C> {
        MonitorState { no_improve_streak: 0, ..self.revoked() }
    }

    /// The state with the published exit marked not converged.
    pub open spec fn revoked(self) -> MonitorState<C> {
        match self.exit {
            Some(exit) => self.publish(ExitState { converged: false, ..exit }),
            None => self,
        }
    }
}

/// A decided window keeps the incumbent, and publishes it unless it grants an escape.
pub proof fn lemma_decide_well_formed<C>(
    state: MonitorState<C>,
    point: Seq<Binary64>,
    value: Binary64,
    grad_norm: Binary64,
    band: Binary64,
)
    requires
        state.coherent(),
        state.has_incumbent(),
    ensures
        ({
            let (next, verdict) = state.decide(point, value, grad_norm, band);
            &&& next.coherent()
            &&& verdict !is Escape ==> next.exit_follows()
            &&& verdict is Escape ==> next.exit == state.exit
            &&& next.best_point == state.best_point
            &&& next.best_value == state.best_value
            &&& next.best_grad_norm == state.best_grad_norm
        }),
{
}

proof fn lemma_remembered<C>(state: MonitorState<C>, point: Seq<Binary64>, value: Binary64)
    requires
        state.recent.len() <= state.window + 1,
        forall|i: int| 0 <= i < state.recent.len() ==> (#[trigger] state.recent[i]).1.finite(),
        value.finite(),
    ensures
        ({
            let recent = state.remembered(point, value).recent;
            &&& recent.len() <= state.window + 1
            &&& forall|i: int| 0 <= i < recent.len() ==> (#[trigger] recent[i]).1.finite()
        }),
{
}

/// A seed leaves a reachable state.
pub proof fn lemma_seeded_well_formed<C>(
    state: MonitorState<C>,
    point: Seq<Binary64>,
    value: Binary64,
    grad_norm: Binary64,
    curvature_psd: Option<bool>,
)
    requires
        state.well_formed(),
    ensures
        state.seeded(point, value, grad_norm, curvature_psd).well_formed(),
{
    if value.finite() {
        lemma_remembered(state, point, value);
    }
}

/// A trusted sample leaves a reachable state with an incumbent.
pub proof fn lemma_sampled_well_formed<C>(
    state: MonitorState<C>,
    point: Seq<Binary64>,
    value: Binary64,
    grad_norm: Binary64,
    curvature_psd: Option<bool>,
    band_at_value: Binary64,
)
    requires
        state.well_formed(),
        value.finite(),
    ensures
        ({
            let next = state.sampled(point, value, grad_norm, curvature_psd, band_at_value);
            &&& next.well_formed()
            &&& next.has_incumbent()
        }),
{
    lemma_remembered(state, point, value);
}

/// A sample leaves a reachable state.
pub proof fn lemma_observed_well_formed<C>(
    state: MonitorState<C>,
    point: Seq<Binary64>,
    value: Binary64,
    grad_norm: Binary64,
    trusted: bool,
    curvature_psd: Option<bool>,
    band_at_value: Binary64,
    band_at_best: Binary64,
)
    requires
        state.well_formed(),
    ensures
        state.observed(
            point,
            value,
            grad_norm,
            trusted,
            curvature_psd,
            band_at_value,
            band_at_best,
        ).0.well_formed(),
{
    if value.finite() && trusted {
        let next = state.sampled(point, value, grad_norm, curvature_psd, band_at_value);
        lemma_sampled_well_formed(state, point, value, grad_norm, curvature_psd, band_at_value);
        let judged = MonitorState {
            replay_proven: next.replay_proven || next.at_strict_saddle(),
            ..next
        };
        lemma_decide_well_formed(judged, point, value, grad_norm, band_at_best);
    }
}

/// A refused trial leaves a reachable state.
pub proof fn lemma_refused_well_formed<C>(
    state: MonitorState<C>,
    point: Seq<Binary64>,
    band: Binary64,
)
    requires
        state.well_formed(),
    ensures
        state.refused(point, band).0.well_formed(),
{
    if state.has_incumbent() {
        let next = state.refused_once(point);
        lemma_decide_well_formed(next, point, next.best_value, next.best_grad_norm, band);
    }
}

/// An unescapable refusal leaves a reachable state.
pub proof fn lemma_blocked_well_formed<C>(
    state: MonitorState<C>,
    point: Seq<Binary64>,
    band: Binary64,
    band_again: Binary64,
)
    requires
        state.well_formed(),
    ensures
        state.blocked(point, band, band_again).0.well_formed(),
{
    if state.has_incumbent() {
        let next = state.blocked_once(point);
        let (p, v, g) = next.judged_at(point, state.best_value, state.best_grad_norm);
        lemma_decide_well_formed(next, point, next.best_value, next.best_grad_norm, band);
        lemma_decide_well_formed(next, point, v, g, band_again);
    }
}

/// A constrained-stationary sample leaves a reachable state.
pub proof fn lemma_settled_well_formed<C>(
    state: MonitorState<C>,
    point: Seq<Binary64>,
    value: Binary64,
    grad_norm: Binary64,
    trusted: bool,
    curvature_psd: Option<bool>,
    band_at_value: Binary64,
    band_at_best: Binary64,
)
    requires
        state.well_formed(),
    ensures
        state.settled(
            point,
            value,
            grad_norm,
            trusted,
            curvature_psd,
            band_at_value,
            band_at_best,
        ).0.well_formed(),
{
    lemma_observed_well_formed(
        state,
        point,
        value,
        grad_norm,
        trusted,
        curvature_psd,
        band_at_value,
        band_at_best,
    );
    if value.finite() {
        lemma_decide_well_formed(
            state.adopted(point, value, grad_norm, curvature_psd),
            point,
            value,
            grad_norm,
            band_at_best,
        );
    }
}

} // verus!
