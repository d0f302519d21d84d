//! Caller-fed stall monitor for an outer optimization loop.
//!
//! [`StallMonitor`] owns the part of a stalled-search decision that belongs to
//! the optimizer and to no particular objective: the monotone incumbent, the
//! no-improvement window over trusted samples, the window of refused trials, the
//! escape granted when a filled window's incumbent still carries resolvable
//! descent, the bit-identity replay cut that ends escapes, the progress licence
//! that ends a stall buying nothing, and the window evidence a stall reports.
//!
//! The caller decides what it observes and when. A consumer that drives a solver
//! through an objective bridge observes at the bridge (every evaluation, every
//! refused trial, every accepted step it reconciles), so the sample stream is
//! the consumer's, not the solver's. What the monitor cannot know is supplied:
//!
//! * the stationarity band at a criterion value, as a closure;
//! * whether a sample is trustworthy (for example, whether an inner solve behind
//!   it converged);
//! * the incumbent's curvature verdict, and an opaque payload that travels with
//!   the incumbent.
//!
//! Every stop the monitor decides is published as a [`StallExit`] that the
//! caller reads through [`StallMonitor::exit`]; [`StallMonitor::exit_revision`]
//! counts writes, so a caller that mirrors the exit elsewhere copies it only
//! when the monitor changed it.

use crate::arrays::Vector;
use crate::binary64::{Binary64, INFINITY, ONE};
use crate::probe::{samples, window_scale};
use crate::stall_model::{
    bits_of, improvement_floor, inside, latest, lemma_blocked_well_formed,
    lemma_observed_well_formed, lemma_refused_well_formed, lemma_sampled_well_formed,
    lemma_seeded_well_formed, lemma_settled_well_formed, ExitState, MonitorState, ReplayIdentity,
};
use std::collections::VecDeque;
use vstd::prelude::*;

verus! {

/// What folding one observation into a [`StallMonitor`] decided.
#[derive(Debug, Clone, Copy, PartialEq)]
pub enum StallVerdict {
    /// The window has not filled, or an escape was granted at a strict saddle.
    Continue,
    /// A filled window whose incumbent is inside the band at its value.
    Converged,
    /// A filled window whose incumbent is above the band, with no escape left:
    /// the escape would replay the previous one from a bit-identical incumbent,
    /// or the window held only unescapable refusals.
    Floor {
        /// Projected gradient norm at the incumbent.
        residual_grad_norm: Binary64,
    },
    /// A filled window whose incumbent is above the band: the window reopens so
    /// the search can take the descent the residual says is available.
    Escape {
        /// Projected gradient norm at the incumbent.
        residual_grad_norm: Binary64,
        /// The band at the incumbent's value that the residual exceeded.
        band: Binary64,
    },
}

/// A filled window made only of unescapable refusals, reported with a stop.
#[derive(Debug, Clone, Copy, PartialEq)]
pub struct UnescapableRefusalWindow {
    /// Refused trials in the window.
    pub refused_trials: usize,
    /// The band at the incumbent's value.
    pub band: Binary64,
}

/// The incumbent a stall publishes.
#[derive(Debug, PartialEq)]
pub struct StallExit {
    pub point: Vector,
    pub value: Binary64,
    /// Projected gradient norm at `point`.
    pub grad_norm: Binary64,
    /// Trusted samples folded in when the exit was written.
    pub accepted: usize,
    /// `true` only when a filled window's incumbent met the band. A running
    /// best-so-far snapshot is never a convergence claim.
    pub converged: bool,
    /// `(noise floor σ̂, probe radius Δ)` over the window; see
    /// [`StallMonitor::window_probe_scale`]. Evidence only.
    pub probe_scale: Option<(Binary64, Binary64)>,
    /// Set when the stopping window held only unescapable refusals.
    pub unescapable_window: Option<UnescapableRefusalWindow>,
}

impl View for StallExit {
    type V = ExitState;

    open spec fn view(&self) -> ExitState {
        ExitState {
            point: self.point@,
            value: self.value,
            grad_norm: self.grad_norm,
            accepted: self.accepted,
            converged: self.converged,
            probe_scale: self.probe_scale,
            unescapable_window: self.unescapable_window,
        }
    }
}

impl Clone for StallExit {
    fn clone(&self) -> (copy: StallExit)
        ensures
            copy@ == self@,
    {
        StallExit {
            point: self.point.clone(),
            value: self.value,
            grad_norm: self.grad_norm,
            accepted: self.accepted,
            converged: self.converged,
            probe_scale: self.probe_scale,
            unescapable_window: self.unescapable_window,
        }
    }
}

/// The search state an escape was granted from, in raw bits: the whole
/// incumbent, and the trial points the window that filled had observed. Only
/// bit identity supports the claim a replay cut makes: a deterministic
/// procedure replayed from an identical state returns an identical result. Raw
/// bits keep the comparison total, and both of its possible errors (distinct
/// NaN payloads, `-0.0` against `0.0`) grant the escape rather than cut it.
///
/// The incumbent alone is not the search's state. A window of trials that do not
/// improve it leaves it bit-identical while the solver's own state moves: a
/// rejected cubic trial raises ARC's regularization, so the next window proposes
/// shorter steps to new points. The trials the window observed are the part of
/// that state the monitor can see, so a replay is a window that observed the
/// same points, in the same order, from the same incumbent.
struct IncumbentBits {
    point: Vec<u64>,
    value: u64,
    grad_norm: u64,
    window_trials: Vec<Vec<u64>>,
}

/// The contents of a list of bit lists.
spec fn trials_of(trials: Seq<Vec<u64>>) -> Seq<Seq<u64>> {
    Seq::new(trials.len(), |i: int| trials[i]@)
}

impl IncumbentBits {
    spec fn identity(self) -> ReplayIdentity {
        ReplayIdentity {
            point: self.point@,
            value: self.value,
            grad_norm: self.grad_norm,
            window_trials: trials_of(self.window_trials@),
        }
    }

    /// The incumbent's bits, with the trials of the window it was judged in.
    fn new(
        point: &Vector,
        value: Binary64,
        grad_norm: Binary64,
        window_trials: Vec<Vec<u64>>,
    ) -> (bits: IncumbentBits)
        ensures
            bits.identity() == (ReplayIdentity {
                point: bits_of(point@),
                value: value.bits,
                grad_norm: grad_norm.bits,
                window_trials: trials_of(window_trials@),
            }),
    {
        IncumbentBits {
            point: point_bits(point),
            value: value.to_bits(),
            grad_norm: grad_norm.to_bits(),
            window_trials,
        }
    }

    /// Whether the bits are those of a judged iterate and the trials of its window.
    fn matches(
        &self,
        point: &Vector,
        value: Binary64,
        grad_norm: Binary64,
        window_trials: &Vec<Vec<u64>>,
    ) -> (r: bool)
        ensures
            r == (self.identity() == ReplayIdentity {
                point: bits_of(point@),
                value: value.bits,
                grad_norm: grad_norm.bits,
                window_trials: trials_of(window_trials@),
            }),
    {
        self.value == value.to_bits() && self.grad_norm == grad_norm.to_bits() && same_bits(
            &self.point,
            &point_bits(point),
        ) && same_trials(&self.window_trials, window_trials)
    }
}

/// The bits of a point.
fn point_bits(point: &Vector) -> (bits: Vec<u64>)
    ensures
        bits@ == bits_of(point@),
{
    let n: usize = point.len();
    let mut bits: Vec<u64> = Vec::with_capacity(n);
    let mut i: usize = 0;
    while i < n
        invariant
            n == point@.len(),
            i <= n,
            bits@.len() == i,
            forall|a: int| 0 <= a < i ==> #[trigger] bits@[a] == point@[a].bits,
        decreases n - i,
    {
        bits.push(point.at(i).to_bits());
        i = i + 1;
    }
    assert(bits@ =~= bits_of(point@));
    bits
}

/// Whether two lists hold the same bits.
fn same_bits(a: &Vec<u64>, b: &Vec<u64>) -> (r: bool)
    ensures
        r == (a@ == b@),
{
    if a.len() != b.len() {
        return false;
    }
    let mut i: usize = 0;
    while i < a.len()
        invariant
            a@.len() == b@.len(),
            i <= a@.len(),
            forall|k: int| 0 <= k < i ==> #[trigger] a@[k] == b@[k],
        decreases a@.len() - i,
    {
        if a[i] != b[i] {
            assert(a@[i as int] != b@[i as int]);
            return false;
        }
        i = i + 1;
    }
    assert(a@ =~= b@);
    true
}

/// Whether two windows observed the same trials in the same order.
fn same_trials(a: &Vec<Vec<u64>>, b: &Vec<Vec<u64>>) -> (r: bool)
    ensures
        r == (trials_of(a@) == trials_of(b@)),
{
    if a.len() != b.len() {
        assert(trials_of(a@).len() != trials_of(b@).len());
        return false;
    }
    let mut i: usize = 0;
    while i < a.len()
        invariant
            a@.len() == b@.len(),
            i <= a@.len(),
            forall|k: int| 0 <= k < i ==> #[trigger] trials_of(a@)[k] == trials_of(b@)[k],
        decreases a@.len() - i,
    {
        if !same_bits(&a[i], &b[i]) {
            assert(trials_of(a@)[i as int] != trials_of(b@)[i as int]);
            return false;
        }
        i = i + 1;
    }
    assert(trials_of(a@) =~= trials_of(b@));
    true
}

/// The record of one accepted step of a solver.
#[derive(Debug, Clone, Copy, PartialEq)]
pub struct StepInfo {
    /// The iteration that took the step.
    pub iter: usize,
    /// Step's L2 norm.
    pub step_norm: Binary64,
    /// The decrease that the solver's model predicted.
    pub predicted_decrease: Binary64,
    /// The decrease that the step bought.
    pub actual_decrease: Binary64,
    /// The trust radius, for a solver that keeps one.
    pub trust_radius: Option<Binary64>,
    /// The cubic regularization `σ` the step was solved with (ARC).
    pub regularization: Option<Binary64>,
    /// The accepted line-search step length `α` (BFGS).
    pub line_search_step: Option<Binary64>,
}

/// The solver state behind one accepted step, kept over the window so a caller
/// can derive the window from what the solver was doing.
#[derive(Debug, Clone, Copy, PartialEq)]
pub struct StallStep {
    /// Step's L2 norm.
    pub step_norm: Binary64,
    /// The cubic regularization `σ` the step was solved with (ARC).
    pub regularization: Option<Binary64>,
    /// The accepted line-search step length `α` (BFGS).
    pub line_search_step: Option<Binary64>,
}

/// Monotone incumbent, no-improvement window, refused-trial window, escapes,
/// replay cut and progress licence for an outer search. See the module docs.
pub struct StallMonitor<C, B> {
    /// A trusted sample counts as no improvement when
    /// `best - value <= rel_tol · (1 + |best|)`.
    rel_tol: Binary64,
    window: usize,
    band: B,
    /// Set once a replay cut proved that reopening the window replays the
    /// previous one. No licence continues past a proven replay.
    replay_proven: bool,
    best_value: Binary64,
    best_point: Option<Vector>,
    best_grad_norm: Binary64,
    /// Whether the curvature at the incumbent is PSD; `Some(false)` is a strict saddle.
    best_curvature_psd: Option<bool>,
    best_payload: Option<C>,
    staged_payload: Option<C>,
    strict_saddle_refusal: bool,
    no_improve_streak: usize,
    refused_streak: usize,
    /// How many of the current refused streak were unescapable refusals.
    unescapable_streak: usize,
    accepted: usize,
    /// Consecutive escapes since the last resolved improvement. A diagnostic:
    /// escapes are bounded by the replay cut and by the caller's budget.
    pub stuck_escapes: usize,
    incumbent_at_last_escape: Option<IncumbentBits>,
    /// Every trial point observed without improving the incumbent since the
    /// window last opened, at the latest improvement or escape grant: the half of
    /// the replay identity the incumbent cannot carry.
    window_trials: Vec<Vec<u64>>,
    continuation_incumbent: Option<(Binary64, Binary64)>,
    recent: VecDeque<(Vector, Binary64)>,
    /// The solver state of the latest `window` accepted steps, oldest first.
    recent_steps: VecDeque<StallStep>,
    exit: Option<StallExit>,
    exit_revision: u64,
}

impl<C, B> View for StallMonitor<C, B> {
    type V = MonitorState<C>;

    closed spec fn view(&self) -> MonitorState<C> {
        MonitorState {
            rel_tol: self.rel_tol,
            window: self.window,
            replay_proven: self.replay_proven,
            best_value: self.best_value,
            best_point: match self.best_point {
                Some(point) => Some(point@),
                None => None,
            },
            best_grad_norm: self.best_grad_norm,
            best_curvature_psd: self.best_curvature_psd,
            best_payload: self.best_payload,
            staged_payload: self.staged_payload,
            strict_saddle_refusal: self.strict_saddle_refusal,
            no_improve_streak: self.no_improve_streak,
            refused_streak: self.refused_streak,
            unescapable_streak: self.unescapable_streak,
            accepted: self.accepted,
            stuck_escapes: self.stuck_escapes,
            incumbent_at_last_escape: match self.incumbent_at_last_escape {
                Some(bits) => Some(bits.identity()),
                None => None,
            },
            window_trials: trials_of(self.window_trials@),
            continuation_incumbent: self.continuation_incumbent,
            recent: samples(self.recent@),
            recent_steps: self.recent_steps@,
            exit: match self.exit {
                Some(exit) => Some(exit@),
                None => None,
            },
            exit_revision: self.exit_revision,
        }
    }
}

/// Whether a band can be asked for at every value.
pub open spec fn answers<B: Fn(Binary64) -> Binary64>(band: B) -> bool {
    forall|value: Binary64| #[trigger] call_requires(band, (value,))
}

impl<C, B: Fn(Binary64) -> Binary64> StallMonitor<C, B> {
    /// The stationarity band.
    pub closed spec fn band_fn(&self) -> B {
        self.band
    }

    /// Whether the monitor is in a state that it can reach and the band answers at
    /// every value.
    pub open spec fn valid(&self) -> bool {
        &&& self@.well_formed()
        &&& answers(self.band_fn())
    }

    /// Whether `band` is an answer of the band at `value`.
    pub open spec fn band_answers(&self, value: Binary64, band: Binary64) -> bool {
        call_ensures(self.band_fn(), (value,), band)
    }

    /// Whether a filled window, with the answer `band` at the judged value, decides
    /// `verdict` and leaves `next`.
    pub open spec fn decides_with(
        &self,
        point: Seq<Binary64>,
        value: Binary64,
        grad_norm: Binary64,
        band: Binary64,
        next: MonitorState<C>,
        verdict: StallVerdict,
    ) -> bool {
        &&& self.band_answers(self@.judged_at(point, value, grad_norm).1, band)
        &&& (next, verdict) == self@.decide(point, value, grad_norm, band)
    }

    /// Whether a filled window can decide `verdict` and leave `next`.
    pub open spec fn decides(
        &self,
        point: Seq<Binary64>,
        value: Binary64,
        grad_norm: Binary64,
        next: MonitorState<C>,
        verdict: StallVerdict,
    ) -> bool {
        exists|band: Binary64|
            #[trigger] self.decides_with(point, value, grad_norm, band, next, verdict)
    }

    /// Whether a sample, with the answers `band_at_value` at its value and
    /// `band_at_best` at the incumbent's, gets `verdict` and leaves `next`. The band is
    /// asked for only where its answer is read.
    pub open spec fn observes_with(
        &self,
        point: Seq<Binary64>,
        value: Binary64,
        grad_norm: Binary64,
        trusted: bool,
        curvature_psd: Option<bool>,
        band_at_value: Binary64,
        band_at_best: Binary64,
        next: MonitorState<C>,
        verdict: StallVerdict,
    ) -> bool {
        let full = self@.sampled(point, value, grad_norm, curvature_psd, band_at_value);
        &&& value.finite() && trusted && grad_norm.finite() ==> self.band_answers(
            value,
            band_at_value,
        )
        &&& value.finite() && trusted && full.asks_band(point, value, grad_norm)
            ==> self.band_answers(full.best_value, band_at_best)
        &&& (next, verdict) == self@.observed(
            point,
            value,
            grad_norm,
            trusted,
            curvature_psd,
            band_at_value,
            band_at_best,
        )
    }

    /// Whether a sample can get `verdict` and leave `next`.
    pub open spec fn observes(
        &self,
        point: Seq<Binary64>,
        value: Binary64,
        grad_norm: Binary64,
        trusted: bool,
        curvature_psd: Option<bool>,
        next: MonitorState<C>,
        verdict: StallVerdict,
    ) -> bool {
        exists|band_at_value: Binary64, band_at_best: Binary64|
            #[trigger] self.observes_with(
                point,
                value,
                grad_norm,
                trusted,
                curvature_psd,
                band_at_value,
                band_at_best,
                next,
                verdict,
            )
    }

    /// Whether a full window of refusals, one of them escapable, with the answer `band`
    /// at the incumbent's value, decides `verdict` and leaves `next`.
    pub open spec fn decides_refusals_with(
        &self,
        point: Seq<Binary64>,
        band: Binary64,
        next: MonitorState<C>,
        verdict: StallVerdict,
    ) -> bool {
        &&& !self@.at_strict_saddle() ==> self.band_answers(
            self@.judged_at(point, self@.best_value, self@.best_grad_norm).1,
            band,
        )
        &&& (next, verdict) == self@.decide_refusals(point, band)
    }

    /// Whether a refused trial, with the answer `band` at the incumbent's value, gets
    /// `verdict` and leaves `next`. The band is asked for only where its answer is read.
    pub open spec fn refuses_with(
        &self,
        point: Seq<Binary64>,
        band: Binary64,
        next: MonitorState<C>,
        verdict: StallVerdict,
    ) -> bool {
        let full = self@.refused_once(point);
        &&& self@.has_incumbent() && full.window <= full.refused_streak && !full.at_strict_saddle()
            ==> self.band_answers(self@.best_value, band)
        &&& (next, verdict) == self@.refused(point, band)
    }

    /// Whether a refused trial can get `verdict` and leave `next`.
    pub open spec fn refuses(
        &self,
        point: Seq<Binary64>,
        next: MonitorState<C>,
        verdict: StallVerdict,
    ) -> bool {
        exists|band: Binary64| #[trigger] self.refuses_with(point, band, next, verdict)
    }

    /// Whether an unescapable refusal, with the answers `band` and `band_again` at the
    /// incumbent's value, gets `verdict` and leaves `next`. The band is asked for only
    /// where its answer is read.
    pub open spec fn blocks_with(
        &self,
        point: Seq<Binary64>,
        band: Binary64,
        band_again: Binary64,
        next: MonitorState<C>,
        verdict: StallVerdict,
    ) -> bool {
        let full = self@.blocked_once(point);
        let filled = self@.has_incumbent() && full.window <= full.refused_streak;
        let mixed = full.unescapable_streak < full.refused_streak;
        &&& filled && !(mixed && full.at_strict_saddle()) ==> self.band_answers(
            self@.best_value,
            band,
        )
        &&& filled && !mixed && inside(self@.best_grad_norm, band) ==> self.band_answers(
            self@.best_value,
            band_again,
        )
        &&& (next, verdict) == self@.blocked(point, band, band_again)
    }

    /// Whether an unescapable refusal can get `verdict` and leave `next`.
    pub open spec fn blocks(
        &self,
        point: Seq<Binary64>,
        next: MonitorState<C>,
        verdict: StallVerdict,
    ) -> bool {
        exists|band: Binary64, band_again: Binary64|
            #[trigger] self.blocks_with(point, band, band_again, next, verdict)
    }

    /// Whether a constrained-stationary sample, with the answers `band_at_value` at its
    /// value and `band_at_best` at the incumbent's, gets `verdict` and leaves `next`. The
    /// band is asked for only where its answer is read.
    pub open spec fn settles_with(
        &self,
        point: Seq<Binary64>,
        value: Binary64,
        grad_norm: Binary64,
        trusted: bool,
        curvature_psd: Option<bool>,
        band_at_value: Binary64,
        band_at_best: Binary64,
        next: MonitorState<C>,
        verdict: StallVerdict,
    ) -> bool {
        if !value.finite() {
            (next, verdict) == (
                MonitorState { staged_payload: None, ..self@ },
                StallVerdict::Continue,
            )
        } else if !trusted || self@.regresses(value) {
            self.observes_with(
                point,
                value,
                grad_norm,
                trusted,
                curvature_psd,
                band_at_value,
                band_at_best,
                next,
                verdict,
            )
        } else {
            &&& self.band_answers(value, band_at_best)
            &&& (next, verdict) == self@.settled(
                point,
                value,
                grad_norm,
                trusted,
                curvature_psd,
                band_at_value,
                band_at_best,
            )
        }
    }

    /// Whether a constrained-stationary sample can get `verdict` and leave `next`.
    pub open spec fn settles(
        &self,
        point: Seq<Binary64>,
        value: Binary64,
        grad_norm: Binary64,
        trusted: bool,
        curvature_psd: Option<bool>,
        next: MonitorState<C>,
        verdict: StallVerdict,
    ) -> bool {
        exists|band_at_value: Binary64, band_at_best: Binary64|
            #[trigger] self.settles_with(
                point,
                value,
                grad_norm,
                trusted,
                curvature_psd,
                band_at_value,
                band_at_best,
                next,
                verdict,
            )
    }

    /// A monitor with improvement floor `rel_tol` over `window` samples, judging
    /// stationarity by `band(value)`.
    pub fn new(rel_tol: Binary64, window: usize, band: B) -> (monitor: StallMonitor<C, B>)
        requires
            answers(band),
        ensures
            monitor.valid(),
            monitor@ == MonitorState::<C>::fresh(rel_tol, window),
            monitor.band_fn() == band,
    {
        let monitor = StallMonitor {
            rel_tol,
            window,
            band,
            replay_proven: false,
            best_value: Binary64::from_bits(INFINITY),
            best_point: None,
            best_grad_norm: Binary64::from_bits(INFINITY),
            best_curvature_psd: None,
            best_payload: None,
            staged_payload: None,
            strict_saddle_refusal: false,
            no_improve_streak: 0,
            refused_streak: 0,
            unescapable_streak: 0,
            accepted: 0,
            stuck_escapes: 0,
            incumbent_at_last_escape: None,
            window_trials: Vec::new(),
            continuation_incumbent: None,
            recent: VecDeque::new(),
            recent_steps: VecDeque::new(),
            exit: None,
            exit_revision: 0,
        };
        assert(monitor@ =~= MonitorState::<C>::fresh(rel_tol, window));
        monitor
    }

    pub fn rel_tol(&self) -> (rel_tol: Binary64)
        ensures
            rel_tol == self@.rel_tol,
    {
        self.rel_tol
    }

    pub fn window(&self) -> (window: usize)
        ensures
            window == self@.window,
    {
        self.window
    }

    /// The stationarity band at criterion value `value`.
    pub fn band(&self, value: Binary64) -> (band: Binary64)
        requires
            call_requires(self.band_fn(), (value,)),
        ensures
            call_ensures(self.band_fn(), (value,), band),
    {
        (self.band)(value)
    }

    /// Record the solver state of one accepted step, keeping the latest
    /// `window` of them. It decides nothing; it is the evidence a caller derives
    /// a window from.
    pub fn observe_step(&mut self, step: &StepInfo)
        requires
            old(self).valid(),
        ensures
            final(self).valid(),
            final(self).band_fn() == old(self).band_fn(),
            final(self)@ == old(self)@.stepped(
                StallStep {
                    step_norm: step.step_norm,
                    regularization: step.regularization,
                    line_search_step: step.line_search_step,
                },
            ),
    {
        self.recent_steps.push_back(
            StallStep {
                step_norm: step.step_norm,
                regularization: step.regularization,
                line_search_step: step.line_search_step,
            },
        );
        let ghost all = self.recent_steps@;
        if self.window < self.recent_steps.len() {
            self.recent_steps.pop_front();
            assert(self.recent_steps@ =~= latest(all, self.window as int));
        }
        assert(self@ =~= MonitorState {
            recent_steps: latest(all, old(self)@.window as int),
            ..old(self)@
        });
    }

    /// The solver state of the latest `window` accepted steps, oldest first.
    pub fn recent_steps(&self) -> (steps: &VecDeque<StallStep>)
        ensures
            steps@ == self@.recent_steps,
    {
        &self.recent_steps
    }

    pub fn best_value(&self) -> (value: Binary64)
        ensures
            value == self@.best_value,
    {
        self.best_value
    }

    pub fn best_point(&self) -> (point: Option<&Vector>)
        ensures
            point is Some <==> self@.best_point is Some,
            point matches Some(point) ==> self@.best_point == Some(point@),
    {
        self.best_point.as_ref()
    }

    pub fn best_grad_norm(&self) -> (grad_norm: Binary64)
        ensures
            grad_norm == self@.best_grad_norm,
    {
        self.best_grad_norm
    }

    pub fn best_curvature_psd(&self) -> (psd: Option<bool>)
        ensures
            psd == self@.best_curvature_psd,
    {
        self.best_curvature_psd
    }

    pub fn best_payload(&self) -> (payload: Option<&C>)
        ensures
            payload is Some <==> self@.best_payload is Some,
            payload matches Some(payload) ==> self@.best_payload == Some(*payload),
    {
        self.best_payload.as_ref()
    }

    pub fn accepted(&self) -> (accepted: usize)
        ensures
            accepted == self@.accepted,
    {
        self.accepted
    }

    pub fn refused_streak(&self) -> (streak: usize)
        ensures
            streak == self@.refused_streak,
    {
        self.refused_streak
    }

    pub fn unescapable_streak(&self) -> (streak: usize)
        ensures
            streak == self@.unescapable_streak,
    {
        self.unescapable_streak
    }

    /// Consecutive escapes since the last resolved improvement.
    pub fn stuck_escapes(&self) -> (escapes: usize)
        ensures
            escapes == self@.stuck_escapes,
    {
        self.stuck_escapes
    }

    pub fn replay_proven(&self) -> (proven: bool)
        ensures
            proven == self@.replay_proven,
    {
        self.replay_proven
    }

    /// The published exit, if any.
    pub fn exit(&self) -> (exit: Option<&StallExit>)
        ensures
            exit is Some <==> self@.exit is Some,
            exit matches Some(exit) ==> self@.exit == Some(exit@),
    {
        self.exit.as_ref()
    }

    /// Incremented on every write to [`Self::exit`].
    pub fn exit_revision(&self) -> (revision: u64)
        ensures
            revision == self@.exit_revision,
    {
        self.exit_revision
    }

    /// Whether an escape was just granted at a strict-saddle incumbent; reading
    /// it clears it.
    pub fn take_strict_saddle_refusal(&mut self) -> (refused: bool)
        requires
            old(self).valid(),
        ensures
            final(self).valid(),
            final(self).band_fn() == old(self).band_fn(),
            refused == old(self)@.strict_saddle_refusal,
            final(self)@ == old(self)@.flag_read(),
    {
        let refused: bool = self.strict_saddle_refusal;
        self.strict_saddle_refusal = false;
        assert(self@ =~= MonitorState { strict_saddle_refusal: false, ..old(self)@ });
        refused
    }

    /// Stage the payload of the sample about to be observed. It travels with
    /// the incumbent only if that sample becomes it.
    pub fn stage_payload(&mut self, payload: Option<C>)
        requires
            old(self).valid(),
        ensures
            final(self).valid(),
            final(self).band_fn() == old(self).band_fn(),
            final(self)@ == old(self)@.staged(payload),
    {
        self.staged_payload = payload;
        assert(self@ =~= MonitorState { staged_payload: payload, ..old(self)@ });
    }

    /// Write the exit.
    fn publish(&mut self, exit: StallExit)
        ensures
            final(self).band_fn() == old(self).band_fn(),
            final(self)@ == old(self)@.publish(exit@),
    {
        self.exit = Some(exit);
        self.exit_revision = if self.exit_revision == u64::MAX {
            0
        } else {
            self.exit_revision + 1
        };
        assert(self@ =~= old(self)@.publish(exit@));
    }

    /// The iterate a stall is judged at: the incumbent, falling back to the
    /// current point where there is none.
    fn best_iterate_or(&self, point: &Vector, value: Binary64, grad_norm: Binary64) -> (iterate: (
        Vector,
        Binary64,
        Binary64,
    ))
        ensures
            (iterate.0@, iterate.1, iterate.2) == self@.judged_at(point@, value, grad_norm),
    {
        (
            match &self.best_point {
                Some(best) => best.clone(),
                None => point.clone(),
            },
            if self.best_value.is_finite() {
                self.best_value
            } else {
                value
            },
            if self.best_point.is_some() {
                self.best_grad_norm
            } else {
                grad_norm
            },
        )
    }

    /// Grant one escape unless it would replay the previous one from a
    /// bit-identical incumbent. A granted escape reopens the no-improvement
    /// window.
    fn grant_escape_unless_replay(
        &mut self,
        point: &Vector,
        value: Binary64,
        grad_norm: Binary64,
    ) -> (granted: bool)
        ensures
            final(self).band_fn() == old(self).band_fn(),
            ({
                let identity = old(self)@.identity(point@, value, grad_norm);
                &&& granted == !old(self)@.replays(identity)
                &&& final(self)@ == if granted {
                    old(self)@.escaped(identity)
                } else {
                    old(self)@
                }
            }),
    {
        let ghost identity = self@.identity(point@, value, grad_norm);
        let replay: bool = match &self.incumbent_at_last_escape {
            Some(bits) => bits.matches(point, value, grad_norm, &self.window_trials),
            None => false,
        };
        if replay {
            return false;
        }
        self.stuck_escapes = self.stuck_escapes.saturating_add(1);
        let mut trials: Vec<Vec<u64>> = Vec::new();
        std::mem::swap(&mut trials, &mut self.window_trials);
        self.incumbent_at_last_escape = Some(IncumbentBits::new(point, value, grad_norm, trials));
        self.no_improve_streak = 0;
        assert(self@ =~= old(self)@.escaped(identity));
        true
    }

    /// Record a trial that did not improve the incumbent as part of the open
    /// window's replay identity.
    fn record_window_trial(&mut self, point: &Vector)
        ensures
            final(self).band_fn() == old(self).band_fn(),
            final(self)@ == old(self)@.tried(point@),
    {
        self.window_trials.push(point_bits(point));
        assert(trials_of(self.window_trials@) =~= trials_of(old(self).window_trials@).push(
            bits_of(point@),
        ));
        assert(self@ =~= old(self)@.tried(point@));
    }

    /// Whether a filled window at a non-stationary stall may be followed by
    /// another one.
    ///
    /// A window is licensed when, since the previous licensed window, the search
    /// bought resolved descent (the incumbent improved by more than
    /// `rel_tol · (1 + |V|)`) or stationarity (the incumbent's projected gradient
    /// contracted), or when the incumbent is a strict saddle, whose negative
    /// curvature is descent the search can still take. The first window is
    /// always licensed. A proven replay is never licensed.
    ///
    /// Termination needs no count: the criterion is bounded below, so resolved
    /// descent is bought finitely often, and every contraction strictly lowers a
    /// floating-point value bounded below by zero. A saddle licence ends at the
    /// replay cut.
    pub fn license_continuation(&mut self) -> (licensed: bool)
        requires
            old(self).valid(),
        ensures
            final(self).valid(),
            final(self).band_fn() == old(self).band_fn(),
            licensed == old(self)@.licensed(),
            final(self)@ == old(self)@.after_license(),
    {
        if self.replay_proven {
            return false;
        }
        let licensed: bool = match self.continuation_incumbent {
            None => true,
            Some((previous_value, previous_grad_norm)) => {
                let resolution: Binary64 = self.floor_at_best();
                resolution.is_less(previous_value.minus(self.best_value))
                    || self.best_grad_norm.is_less(previous_grad_norm) || self.is_strict_saddle()
            },
        };
        if licensed {
            self.continuation_incumbent = Some((self.best_value, self.best_grad_norm));
        }
        assert(self@ =~= old(self)@.after_license());
        licensed
    }

    /// `rel_tol · (1 + |best|)`.
    fn floor_at_best(&self) -> (floor: Binary64)
        ensures
            floor == improvement_floor(self@.rel_tol, self@.best_value),
    {
        self.rel_tol.times(Binary64::from_bits(ONE).plus(self.best_value.abs()))
    }

    /// Whether the incumbent is a strict saddle.
    fn is_strict_saddle(&self) -> (r: bool)
        ensures
            r == self@.at_strict_saddle(),
    {
        match self.best_curvature_psd {
            Some(psd) => !psd,
            None => false,
        }
    }

    /// The incumbent to stop at when a filled window is not licensed to
    /// continue; `None` while continuing is licensed.
    pub fn unprogressing_stop(&mut self) -> (stop: Option<StallExit>)
        requires
            old(self).valid(),
        ensures
            final(self).valid(),
            final(self).band_fn() == old(self).band_fn(),
            final(self)@ == old(self)@.after_license(),
            stop is Some <==> !old(self)@.licensed() && old(self)@.best_point is Some,
            stop matches Some(exit) ==> exit@ == old(self)@.best_so_far(),
    {
        if self.license_continuation() {
            return None;
        }
        match &self.best_point {
            Some(point) => Some(
                StallExit {
                    point: point.clone(),
                    value: self.best_value,
                    grad_norm: self.best_grad_norm,
                    accepted: self.accepted,
                    converged: false,
                    probe_scale: None,
                    unescapable_window: None,
                },
            ),
            None => None,
        }
    }

    /// Keep the latest `window + 1` trusted samples.
    fn record_recent(&mut self, point: &Vector, value: Binary64)
        requires
            old(self)@.recent.len() <= old(self)@.window + 1,
        ensures
            final(self).band_fn() == old(self).band_fn(),
            final(self)@ == old(self)@.remembered(point@, value),
    {
        self.recent.push_back((point.clone(), value));
        let ghost all = samples(self.recent@);
        assert(all =~= old(self)@.recent.push((point@, value)));
        if self.window < self.recent.len() - 1 {
            self.recent.pop_front();
            assert(samples(self.recent@) =~= latest(all, self.window + 1));
        }
        assert(self@ =~= old(self)@.remembered(point@, value));
    }

    /// The window's evidence about the criterion's scatter, licensing nothing.
    ///
    /// `σ̂ = median_i |f_i − f_{i−1}|`, floored at the value's rounding
    /// `ε·(1 + |f_best|)`, and `Δ = max_i ‖x_i − x_{i−1}‖₂`, the radius the
    /// trusted samples probed. A window that filled on microscopic steps and one
    /// that filled on a flat surface differ in `Δ`. `σ̂/Δ` bounds the gradient
    /// only along the directions the steps spanned, so it is reported and never
    /// widens a band. `None` with fewer than three differences, a median that is
    /// not finite or a degenerate radius.
    pub fn window_probe_scale(&self) -> (scale: Option<(Binary64, Binary64)>)
        ensures
            scale == self@.window_probe_scale(),
    {
        window_scale(&self.recent, self.best_value)
    }

    /// Publish the incumbent and decide a filled window's verdict.
    fn publish_stall(&mut self, point: &Vector, value: Binary64, grad_norm: Binary64) -> (verdict:
        StallVerdict)
        requires
            answers(old(self).band_fn()),
        ensures
            final(self).band_fn() == old(self).band_fn(),
            old(self).decides(point@, value, grad_norm, final(self)@, verdict),
    {
        let (best_point, best_value, best_grad_norm) = self.best_iterate_or(
            point,
            value,
            grad_norm,
        );
        let band: Binary64 = self.band(best_value);
        let ghost p = best_point@;
        let ghost expected = self@.decide(point@, value, grad_norm, band);
        if best_grad_norm.is_finite() && best_grad_norm.is_at_most(band) {
            let exit: StallExit = self.exit_with(
                best_point,
                best_value,
                best_grad_norm,
                true,
                None,
            );
            self.publish(exit);
            assert((self@, StallVerdict::Converged) == expected);
            assert(old(self).decides_with(
                point@,
                value,
                grad_norm,
                band,
                self@,
                StallVerdict::Converged,
            ));
            return StallVerdict::Converged;
        }
        let non_stationary: bool = best_grad_norm.is_finite() && band.is_less(best_grad_norm);
        if non_stationary {
            if self.grant_escape_unless_replay(&best_point, best_value, best_grad_norm) {
                self.refused_streak = 0;
                self.unescapable_streak = 0;
                let verdict = StallVerdict::Escape { residual_grad_norm: best_grad_norm, band };
                assert(self@ =~= expected.0);
                assert(old(self).decides_with(point@, value, grad_norm, band, self@, verdict));
                return verdict;
            }
            self.replay_proven = true;
        }
        let exit: StallExit = self.exit_with(best_point, best_value, best_grad_norm, false, None);
        self.publish(exit);
        let verdict = StallVerdict::Floor { residual_grad_norm: best_grad_norm };
        assert(self@ =~= expected.0);
        assert(old(self).decides_with(point@, value, grad_norm, band, self@, verdict));
        verdict
    }

    /// The exit at a judged iterate, with the window's evidence.
    fn exit_with(
        &self,
        point: Vector,
        value: Binary64,
        grad_norm: Binary64,
        converged: bool,
        unescapable_window: Option<UnescapableRefusalWindow>,
    ) -> (exit: StallExit)
        ensures
            exit@ == self@.exit_at(point@, value, grad_norm, converged, unescapable_window),
    {
        StallExit {
            point,
            value,
            grad_norm,
            accepted: self.accepted,
            converged,
            probe_scale: self.window_probe_scale(),
            unescapable_window,
        }
    }

    /// Publish the incumbent as a non-converged snapshot without deciding
    /// anything, so a budget exit halts back to the best feasible iterate.
    fn publish_best_so_far(&mut self)
        ensures
            final(self).band_fn() == old(self).band_fn(),
            final(self)@ == old(self)@.snapshot(),
    {
        let point: Vector = match &self.best_point {
            Some(point) => point.clone(),
            None => {
                return;
            },
        };
        if !self.best_value.is_finite() {
            return;
        }
        let exit = StallExit {
            point,
            value: self.best_value,
            grad_norm: self.best_grad_norm,
            accepted: self.accepted,
            converged: false,
            probe_scale: None,
            unescapable_window: None,
        };
        self.publish(exit);
    }

    /// Make a sample the incumbent.
    fn lead(
        &mut self,
        point: &Vector,
        value: Binary64,
        grad_norm: Binary64,
        curvature_psd: Option<bool>,
        payload: Option<C>,
    )
        ensures
            final(self).band_fn() == old(self).band_fn(),
            final(self)@ == old(self)@.led_by(point@, value, grad_norm, curvature_psd, payload),
    {
        self.best_value = value;
        self.best_point = Some(point.clone());
        self.best_grad_norm = grad_norm;
        self.best_curvature_psd = curvature_psd;
        self.best_payload = payload;
        assert(self@ =~= old(self)@.led_by(point@, value, grad_norm, curvature_psd, payload));
    }

    /// Fold the seed. A finite seed becomes the incumbent and is published as a
    /// non-converged snapshot, so a budget exit always has a feasible best.
    pub fn observe_seed(
        &mut self,
        point: &Vector,
        value: Binary64,
        grad_norm: Binary64,
        curvature_psd: Option<bool>,
    )
        requires
            old(self).valid(),
        ensures
            final(self).valid(),
            final(self).band_fn() == old(self).band_fn(),
            final(self)@ == old(self)@.seeded(point@, value, grad_norm, curvature_psd),
    {
        let ghost expected = self@.seeded(point@, value, grad_norm, curvature_psd);
        proof {
            lemma_seeded_well_formed(self@, point@, value, grad_norm, curvature_psd);
        }
        let staged_payload: Option<C> = self.staged_payload.take();
        if !value.is_finite() {
            assert(self@ =~= expected);
            return;
        }
        self.lead(point, value, grad_norm, curvature_psd, staged_payload);
        self.no_improve_streak = 0;
        self.refused_streak = 0;
        self.unescapable_streak = 0;
        self.window_trials = Vec::new();
        self.accepted = self.accepted.saturating_add(1);
        self.record_recent(point, value);
        self.publish_best_so_far();
        assert(self@ =~= expected);
    }

    /// Fold one sample `(x, value, projected gradient norm)`.
    ///
    /// An untrusted sample never becomes the incumbent and never counts toward a
    /// window: it resets both streaks. A trusted sample that improves on the
    /// incumbent by more than the floor resets the window and ends an escape
    /// streak. A sample inside the band at its own value counts as no
    /// improvement whatever its raw decrease (drift pinned at a bound is not
    /// feasible descent). The first finite trusted sample is the first
    /// incumbent and never counts toward a window. A trusted sample without a finite
    /// value resets the no-improvement streak alone: it did not evaluate, so it ends no
    /// run of refused trials.
    ///
    /// A filled window at a strict-saddle incumbent grants an escape (flagged
    /// for [`Self::take_strict_saddle_refusal`]) unless it would replay the
    /// previous one; otherwise the window is published.
    pub fn observe(
        &mut self,
        point: &Vector,
        value: Binary64,
        grad_norm: Binary64,
        trusted: bool,
        curvature_psd: Option<bool>,
    ) -> (verdict: StallVerdict)
        requires
            old(self).valid(),
        ensures
            final(self).valid(),
            final(self).band_fn() == old(self).band_fn(),
            old(self).observes(
                point@,
                value,
                grad_norm,
                trusted,
                curvature_psd,
                final(self)@,
                verdict,
            ),
    {
        let ghost start = self@;
        let staged_payload: Option<C> = self.staged_payload.take();
        if !trusted || !value.is_finite() {
            if !trusted {
                self.refused_streak = 0;
                self.unescapable_streak = 0;
            }
            self.no_improve_streak = 0;
            self.record_window_trial(point);
            proof {
                let any = value;
                assert(self@ =~= start.observed(
                    point@,
                    value,
                    grad_norm,
                    trusted,
                    curvature_psd,
                    any,
                    any,
                ).0);
                assert(old(self).observes_with(
                    point@,
                    value,
                    grad_norm,
                    trusted,
                    curvature_psd,
                    any,
                    any,
                    self@,
                    StallVerdict::Continue,
                ));
            }
            return StallVerdict::Continue;
        }
        self.refused_streak = 0;
        self.unescapable_streak = 0;
        self.accepted = self.accepted.saturating_add(1);
        self.record_recent(point, value);
        let improvement: Binary64 = self.best_value.minus(value);
        let floor: Binary64 = self.floor_at_best();
        if value.is_less(self.best_value) {
            self.lead(point, value, grad_norm, curvature_psd, staged_payload);
            self.publish_best_so_far();
        }
        let asked: bool = grad_norm.is_finite();
        let band_at_value: Binary64 = if asked {
            self.band(value)
        } else {
            value
        };
        let stationary_at_value: bool = asked && grad_norm.is_at_most(band_at_value);
        if floor.is_finite() && (improvement.is_at_most(floor) || stationary_at_value) {
            self.no_improve_streak = self.no_improve_streak.saturating_add(1);
            self.record_window_trial(point);
        } else {
            self.no_improve_streak = 0;
            self.window_trials = Vec::new();
            self.stuck_escapes = 0;
            self.incumbent_at_last_escape = None;
        }
        let ghost full = self@;
        proof {
            assert(full =~= start.sampled(point@, value, grad_norm, curvature_psd, band_at_value));
            lemma_sampled_well_formed(
                start,
                point@,
                value,
                grad_norm,
                curvature_psd,
                band_at_value,
            );
        }
        if self.no_improve_streak < self.window {
            proof {
                assert(old(self).observes_with(
                    point@,
                    value,
                    grad_norm,
                    trusted,
                    curvature_psd,
                    band_at_value,
                    value,
                    self@,
                    StallVerdict::Continue,
                ));
            }
            return StallVerdict::Continue;
        }
        if self.is_strict_saddle() {
            let (best_point, best_value, best_grad_norm) = self.best_iterate_or(
                point,
                value,
                grad_norm,
            );
            if self.grant_escape_unless_replay(&best_point, best_value, best_grad_norm) {
                self.strict_saddle_refusal = true;
                proof {
                    assert(self@ =~= full.decide_samples(point@, value, grad_norm, value).0);
                    lemma_observed_well_formed(
                        start,
                        point@,
                        value,
                        grad_norm,
                        trusted,
                        curvature_psd,
                        band_at_value,
                        value,
                    );
                    assert(old(self).observes_with(
                        point@,
                        value,
                        grad_norm,
                        trusted,
                        curvature_psd,
                        band_at_value,
                        value,
                        self@,
                        StallVerdict::Continue,
                    ));
                }
                return StallVerdict::Continue;
            }
            self.replay_proven = true;
        }
        let ghost judged = self@;
        assert(judged =~= MonitorState {
            replay_proven: full.replay_proven || full.at_strict_saddle(),
            ..full
        });
        let ghost before = *self;
        let verdict: StallVerdict = self.publish_stall(point, value, grad_norm);
        proof {
            let band_at_best = choose|band: Binary64|
                before.decides_with(point@, value, grad_norm, band, self@, verdict);
            assert(before.decides_with(point@, value, grad_norm, band_at_best, self@, verdict));
            lemma_observed_well_formed(
                start,
                point@,
                value,
                grad_norm,
                trusted,
                curvature_psd,
                band_at_value,
                band_at_best,
            );
            assert(old(self).observes_with(
                point@,
                value,
                grad_norm,
                trusted,
                curvature_psd,
                band_at_value,
                band_at_best,
                self@,
                verdict,
            ));
        }
        verdict
    }

    /// Fold one finite trial the solver's ratio test rejected.
    ///
    /// The iterate did not move, so this is not a step: the incumbent, the
    /// trusted-sample count and the no-improvement streak are untouched. What
    /// the trial does change: its finite value ends a run of refused trials,
    /// which are consecutive trials that did not evaluate, and it is a point the
    /// open window observed, so it belongs to the replay identity. The payload
    /// staged for it is dropped, since it never becomes the incumbent.
    pub fn observe_rejected_trial(&mut self, point: &Vector)
        requires
            old(self).valid(),
        ensures
            final(self).valid(),
            final(self).band_fn() == old(self).band_fn(),
            final(self)@ == old(self)@.rejected(point@),
    {
        self.staged_payload = None;
        self.refused_streak = 0;
        self.unescapable_streak = 0;
        self.record_window_trial(point);
        assert(self@ =~= old(self)@.rejected(point@));
    }

    /// Fold one trial refused before it produced a finite criterion value.
    ///
    /// A window of `window` consecutive refusals after a finite incumbent is the
    /// same "no further progress" signal as a no-improvement window and is
    /// decided the same way at the incumbent. Before any incumbent there is
    /// nothing to stop at. At a strict-saddle incumbent the refused run says
    /// only that the solver's current step left the domain, so both streaks
    /// reset and the search continues.
    pub fn observe_refused(&mut self, point: &Vector) -> (verdict: StallVerdict)
        requires
            old(self).valid(),
        ensures
            final(self).valid(),
            final(self).band_fn() == old(self).band_fn(),
            old(self).refuses(point@, final(self)@, verdict),
    {
        let ghost start = self@;
        let ghost any = self.best_value;
        if !self.has_finite_incumbent() {
            assert(old(self).refuses_with(point@, any, self@, StallVerdict::Continue));
            return StallVerdict::Continue;
        }
        self.refused_streak = self.refused_streak.saturating_add(1);
        self.record_window_trial(point);
        assert(self@ =~= start.refused_once(point@));
        if self.refused_streak < self.window {
            assert(old(self).refuses_with(point@, any, self@, StallVerdict::Continue));
            return StallVerdict::Continue;
        }
        let ghost before = *self;
        let verdict: StallVerdict = self.decide_refusals(point);
        proof {
            let band = choose|band: Binary64|
                before.decides_refusals_with(point@, band, self@, verdict);
            assert(before.decides_refusals_with(point@, band, self@, verdict));
            lemma_refused_well_formed(start, point@, band);
            assert(old(self).refuses_with(point@, band, self@, verdict));
        }
        verdict
    }

    /// Whether there is an incumbent with a finite value.
    fn has_finite_incumbent(&self) -> (r: bool)
        ensures
            r == self@.has_incumbent(),
    {
        self.best_point.is_some() && self.best_value.is_finite()
    }

    /// Decide a filled window of refusals that holds one an escape can get past.
    fn decide_refusals(&mut self, point: &Vector) -> (verdict: StallVerdict)
        requires
            answers(old(self).band_fn()),
        ensures
            final(self).band_fn() == old(self).band_fn(),
            exists|band: Binary64|
                old(self).decides_refusals_with(point@, band, final(self)@, verdict),
    {
        if self.is_strict_saddle() {
            self.refused_streak = 0;
            self.unescapable_streak = 0;
            self.no_improve_streak = 0;
            proof {
                let any = self.best_value;
                assert(self@ =~= old(self)@.decide_refusals(point@, any).0);
                assert(old(self).decides_refusals_with(
                    point@,
                    any,
                    self@,
                    StallVerdict::Continue,
                ));
            }
            return StallVerdict::Continue;
        }
        let best_value: Binary64 = self.best_value;
        let best_grad_norm: Binary64 = self.best_grad_norm;
        let verdict: StallVerdict = self.publish_stall(point, best_value, best_grad_norm);
        proof {
            let band = choose|band: Binary64|
                old(self).decides_with(point@, best_value, best_grad_norm, band, self@, verdict);
            assert(old(self).decides_with(
                point@,
                best_value,
                best_grad_norm,
                band,
                self@,
                verdict,
            ));
            assert(old(self).decides_refusals_with(point@, band, self@, verdict));
        }
        verdict
    }

    /// Fold one refused trial that no escape can get past.
    ///
    /// It shares [`Self::observe_refused`]'s streak and window. A filled window
    /// that also holds an ordinary refusal is decided exactly as that one is. A
    /// window made only of unescapable refusals at an incumbent outside the band
    /// publishes the incumbent, not converged, with the window's evidence, and
    /// grants no escape: an escape reopens the window for descent the solver may
    /// still reach, and these trials say continuing only proposes more of them.
    /// Inside the band it is published as an ordinary stall.
    pub fn observe_unescapable_refusal(&mut self, point: &Vector) -> (verdict: StallVerdict)
        requires
            old(self).valid(),
        ensures
            final(self).valid(),
            final(self).band_fn() == old(self).band_fn(),
            old(self).blocks(point@, final(self)@, verdict),
    {
        let ghost start = self@;
        let ghost any = self.best_value;
        if !self.has_finite_incumbent() {
            assert(old(self).blocks_with(point@, any, any, self@, StallVerdict::Continue));
            return StallVerdict::Continue;
        }
        self.refused_streak = self.refused_streak.saturating_add(1);
        self.record_window_trial(point);
        self.unescapable_streak = self.unescapable_streak.saturating_add(1);
        let ghost next = self@;
        assert(next =~= start.blocked_once(point@));
        if self.refused_streak < self.window {
            assert(old(self).blocks_with(point@, any, any, self@, StallVerdict::Continue));
            return StallVerdict::Continue;
        }
        let ghost before = *self;
        if self.unescapable_streak < self.refused_streak {
            let verdict: StallVerdict = self.decide_refusals(point);
            proof {
                let band = choose|band: Binary64|
                    before.decides_refusals_with(point@, band, self@, verdict);
                assert(before.decides_refusals_with(point@, band, self@, verdict));
                lemma_blocked_well_formed(start, point@, band, any);
                assert(old(self).blocks_with(point@, band, any, self@, verdict));
            }
            return verdict;
        }
        let (best_point, best_value, best_grad_norm) = self.best_iterate_or(
            point,
            self.best_value,
            self.best_grad_norm,
        );
        let band: Binary64 = self.band(best_value);
        if best_grad_norm.is_finite() && best_grad_norm.is_at_most(band) {
            let verdict: StallVerdict = self.publish_stall(point, best_value, best_grad_norm);
            proof {
                let again = choose|again: Binary64|
                    before.decides_with(point@, best_value, best_grad_norm, again, self@, verdict);
                assert(before.decides_with(
                    point@,
                    best_value,
                    best_grad_norm,
                    again,
                    self@,
                    verdict,
                ));
                lemma_blocked_well_formed(start, point@, band, again);
                assert(old(self).blocks_with(point@, band, again, self@, verdict));
            }
            return verdict;
        }
        let window = UnescapableRefusalWindow { refused_trials: self.unescapable_streak, band };
        let exit: StallExit = self.exit_with(
            best_point,
            best_value,
            best_grad_norm,
            false,
            Some(window),
        );
        self.publish(exit);
        let verdict = StallVerdict::Floor { residual_grad_norm: best_grad_norm };
        proof {
            lemma_blocked_well_formed(start, point@, band, any);
            assert(old(self).blocks_with(point@, band, any, self@, verdict));
        }
        verdict
    }

    /// Adopt a sample the caller has shown constrained-stationary and publish
    /// it, unless it regresses the incumbent.
    ///
    /// `grad_norm` must be the bound-projected residual at the sample, so the
    /// published verdict certifies only a sample stationary in its feasible
    /// subspace. An untrusted sample, or one whose value exceeds the incumbent
    /// by more than the floor (a spurious corner of the box), is folded as an
    /// ordinary sample instead, so the better incumbent is kept. A sample without a
    /// finite value is dropped, and the payload staged for it with it. An adopted
    /// sample that is granted an escape is published as a non-converged snapshot.
    pub fn observe_constrained_stationary(
        &mut self,
        point: &Vector,
        value: Binary64,
        grad_norm: Binary64,
        trusted: bool,
        curvature_psd: Option<bool>,
    ) -> (verdict: StallVerdict)
        requires
            old(self).valid(),
        ensures
            final(self).valid(),
            final(self).band_fn() == old(self).band_fn(),
            old(self).settles(
                point@,
                value,
                grad_norm,
                trusted,
                curvature_psd,
                final(self)@,
                verdict,
            ),
    {
        let ghost start = self@;
        let ghost monitor = *self;
        if !value.is_finite() {
            self.staged_payload = None;
            proof {
                let any = value;
                assert(self@ =~= MonitorState { staged_payload: None, ..start });
                assert(monitor.settles_with(
                    point@,
                    value,
                    grad_norm,
                    trusted,
                    curvature_psd,
                    any,
                    any,
                    self@,
                    StallVerdict::Continue,
                ));
            }
            return StallVerdict::Continue;
        }
        let folded: bool = !trusted || self.is_regression(value);
        if folded {
            let verdict: StallVerdict = self.observe(
                point,
                value,
                grad_norm,
                trusted,
                curvature_psd,
            );
            proof {
                let (band_at_value, band_at_best) = choose|a: Binary64, b: Binary64|
                    monitor.observes_with(
                        point@,
                        value,
                        grad_norm,
                        trusted,
                        curvature_psd,
                        a,
                        b,
                        self@,
                        verdict,
                    );
                assert(monitor.observes_with(
                    point@,
                    value,
                    grad_norm,
                    trusted,
                    curvature_psd,
                    band_at_value,
                    band_at_best,
                    self@,
                    verdict,
                ));
                assert(monitor.settles_with(
                    point@,
                    value,
                    grad_norm,
                    trusted,
                    curvature_psd,
                    band_at_value,
                    band_at_best,
                    self@,
                    verdict,
                ));
            }
            return verdict;
        }
        self.refused_streak = 0;
        self.unescapable_streak = 0;
        self.accepted = self.accepted.saturating_add(1);
        let staged_payload: Option<C> = self.staged_payload.take();
        self.lead(point, value, grad_norm, curvature_psd, staged_payload);
        self.no_improve_streak = self.window;
        assert(self@ =~= start.adopted(point@, value, grad_norm, curvature_psd));
        let ghost before = *self;
        let verdict: StallVerdict = self.publish_stall(point, value, grad_norm);
        let ghost decided = self@;
        match verdict {
            StallVerdict::Escape { .. } => {
                self.publish_best_so_far();
            },
            _ => {},
        }
        proof {
            let band_at_best = choose|band: Binary64|
                before.decides_with(point@, value, grad_norm, band, decided, verdict);
            assert(before.decides_with(point@, value, grad_norm, band_at_best, decided, verdict));
            lemma_settled_well_formed(
                start,
                point@,
                value,
                grad_norm,
                trusted,
                curvature_psd,
                value,
                band_at_best,
            );
            assert(monitor.settles_with(
                point@,
                value,
                grad_norm,
                trusted,
                curvature_psd,
                value,
                band_at_best,
                self@,
                verdict,
            ));
        }
        verdict
    }

    /// Whether a value exceeds the incumbent's by more than the floor.
    fn is_regression(&self, value: Binary64) -> (r: bool)
        ensures
            r == self@.regresses(value),
    {
        self.best_value.is_finite() && self.best_value.plus(self.floor_at_best()).is_less(value)
    }

    /// Defer a filled window to a caller that owns a stronger acceptance test:
    /// reopen the no-improvement window and revoke any convergence the exit
    /// claims, keeping the incumbent and the window evidence.
    pub fn defer_filled_window(&mut self)
        requires
            old(self).valid(),
        ensures
            final(self).valid(),
            final(self).band_fn() == old(self).band_fn(),
            final(self)@ == old(self)@.deferred(),
    {
        self.no_improve_streak = 0;
        assert(self@ =~= MonitorState { no_improve_streak: 0, ..old(self)@ });
        self.revoke_published_convergence();
    }

    /// Mark the published exit not converged.
    pub fn revoke_published_convergence(&mut self)
        requires
            old(self).valid(),
        ensures
            final(self).valid(),
            final(self).band_fn() == old(self).band_fn(),
            final(self)@ == old(self)@.revoked(),
    {
        match self.exit.take() {
            Some(exit) => {
                let revoked = StallExit { converged: false, ..exit };
                self.publish(revoked);
            },
            None => {},
        }
        assert(self@ =~= old(self)@.revoked());
    }
}

} // verus!
