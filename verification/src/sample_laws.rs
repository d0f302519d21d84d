//! What a stall monitor makes of one sample, in real numbers: what counts as progress,
//! what is a regression, and what a full window decides.

use crate::binary64::{
    absolute, at_most, difference, lemma_product_sign, lemma_sum_kind, less, negated,
    product, sum, Binary64, INFINITY, ONE,
};
use crate::factor_laws::lemma_small_underflow;
use crate::nearness::{
    largest, lemma_constants, lemma_difference_near, lemma_number_negated, lemma_number_order,
    lemma_number_size, lemma_number_sum_beside, lemma_product_finite, lemma_product_near,
    lemma_size_product, lemma_sum_finite, lemma_sum_near, number, roundoff, size, underflow, unit,
};
use crate::order::lemma_round_units;
use crate::prediction_laws::{lemma_largest, lemma_small_numbers};
use crate::rounding::lemma_magnitude_zero;
use crate::stall_model::{bits_of, counted, improvement_floor, MonitorState};
use crate::stall_monitor::StallVerdict;
use crate::tolerance_laws::lemma_times;
use vstd::arithmetic::power2::{lemma_pow2_pos, pow2};
use vstd::prelude::*;

verus! {

/// What an improvement on `value` must exceed: `rel_tol·(1 + |value|)`.
pub open spec fn progress(rel_tol: Binary64, value: Binary64) -> real {
    number(rel_tol) * ((1 as real) + size(number(value)))
}

/// Clearly no more than the needed progress, whatever the roundings.
pub open spec fn clearly_within(gain: real, needed: real) -> bool {
    gain + (4 as real) * (roundoff() * needed) + (2 as real) * underflow() <= needed
}

/// Clearly more than the needed progress, whatever the roundings.
pub open spec fn clearly_beyond(gain: real, needed: real) -> bool {
    needed + (5 as real) * (roundoff() * needed) + (4 as real) * underflow() < gain
}

/// Whether a tolerance is one that progress can be held to at `value`: not negative, and
/// far from overflow.
pub open spec fn measurable(rel_tol: Binary64, value: Binary64) -> bool {
    &&& rel_tol.finite()
    &&& value.finite()
    &&& number(rel_tol) >= 0 as real
    &&& progress(rel_tol, value) <= largest() / (4 as real)
    &&& (1 as real) + size(number(value)) <= largest()
}

/// The improvement floor is the needed progress, to within a few roundings.
pub proof fn law_floor_is_the_needed_progress(rel_tol: Binary64, value: Binary64)
    requires
        measurable(rel_tol, value),
    ensures
        improvement_floor(rel_tol, value).finite(),
        number(improvement_floor(rel_tol, value)) >= 0 as real,
        size(progress(rel_tol, value) - number(improvement_floor(rel_tol, value))) <= (3 as real)
            * (roundoff() * progress(rel_tol, value)) + (2 as real) * underflow(),
{
    lemma_constants();
    lemma_small_underflow();
    lemma_small_numbers();
    lemma_largest();
    let one = Binary64 { bits: ONE };
    let abs = absolute(value);
    lemma_number_size(value);
    lemma_number_size(abs);
    lemma_sum_finite(one, abs);
    lemma_sum_near(one, abs);
    let s = sum(one, abs);
    lemma_sum_kind(one, abs);
    lemma_number_size(s);
    let u = roundoff();
    let e = underflow();
    let x = number(s);
    let w = (1 as real) + size(number(value));
    let r = number(rel_tol);
    lemma_times(u, (1 as real) / (1024 as real), x);
    // The rounded sum is the exact one to within a rounding of the exact one.
    let rx = r * x;
    let rw = r * w;
    lemma_times(0 as real, x, r);
    lemma_times(x - w, u * x, r);
    lemma_times(-(u * x), x - w, r);
    assert(r * (x - w) == rx - rw && r * (u * x) == u * rx && r * (-(u * x)) == -(u * rx))
        by (nonlinear_arith)
        requires
            rx == r * x,
            rw == r * w,
    ;
    lemma_times(u, (1 as real) / (1024 as real), rx);
    lemma_size_product(r, x);
    lemma_number_size(rel_tol);
    lemma_product_finite(rel_tol, s);
    lemma_product_near(rel_tol, s);
    lemma_product_sign(rel_tol, s);
    let p = product(rel_tol, s);
    lemma_number_size(p);
    lemma_number_size(rel_tol);
    let f = number(p);
    lemma_signed_product(rel_tol, s);
    let sf = size(f);
    lemma_times(u, (1 as real) / (1024 as real), sf);
    // Everything in terms of the exact progress.
    let uw = u * rw;
    lemma_times(0 as real, rw, u);
    lemma_times(rx, (2 as real) * rw, u);
    assert(u * ((2 as real) * rw) == (2 as real) * uw) by (nonlinear_arith)
        requires
            uw == u * rw,
    ;
    lemma_times(rx, rw + (2 as real) * uw, u);
    assert(u * (rw + (2 as real) * uw) == uw + (2 as real) * (u * uw)) by (nonlinear_arith)
        requires
            uw == u * rw,
    ;
    lemma_times(u, (1 as real) / (1024 as real), uw);
    lemma_times(u, (1 as real) / (1024 as real), e);
    lemma_times(sf, (2 as real) * rx + (2 as real) * e, u);
    assert(u * ((2 as real) * rx + (2 as real) * e) == (2 as real) * (u * rx) + (2 as real) * (u
        * e)) by (nonlinear_arith);
    lemma_times(sf, rx + (3 as real) * uw + (2 as real) * e, u);
    assert(u * (rx + (3 as real) * uw + (2 as real) * e) == u * rx + (3 as real) * (u * uw) + (
    2 as real) * (u * e)) by (nonlinear_arith);
}

/// A product with a factor that is not below zero and one above it is not below zero.
proof fn lemma_signed_product(a: Binary64, b: Binary64)
    requires
        product(a, b).finite(),
        number(a) >= 0 as real,
        !b.negative(),
    ensures
        number(product(a, b)) >= 0 as real,
{
    lemma_constants();
    lemma_product_sign(a, b);
    lemma_product_near(a, b);
    lemma_number_size(a);
    lemma_number_size(b);
    lemma_number_size(product(a, b));
    if a.negative() {
        lemma_zero_product(a, b);
    }
}

proof fn lemma_zero_product(a: Binary64, b: Binary64)
    requires
        a.negative(),
        a.finite(),
        b.finite(),
        number(a) >= 0 as real,
    ensures
        number(product(a, b)) == 0 as real,
{
    lemma_constants();
    lemma_number_size(a);
    let m = a.magnitude() as real;
    let u = unit();
    assert(m <= 0 as real) by (nonlinear_arith)
        requires
            -(m * u) >= 0 as real,
            u > 0 as real,
    ;
    lemma_magnitude_zero();
    lemma_pow2_pos(1074);
    let q = pow2(1074) as int;
    lemma_round_units(q, 0);
    let y = b.magnitude();
    assert(0 * y == 0 && q * 0 == 0) by (nonlinear_arith);
    reveal(product);
    lemma_number_size(product(a, b));
    assert((0 as real) * u == 0 as real) by (nonlinear_arith);
}

proof fn lemma_zero_stays_finite(a: Binary64, b: Binary64)
    requires
        a.zero(),
        b.finite(),
    ensures
        product(a, b).finite(),
{
    lemma_number_size(a);
    lemma_constants();
    lemma_largest();
    let y = number(b);
    let u = unit();
    assert(number(a) == 0 as real) by (nonlinear_arith)
        requires
            number(a) == (a.value() as real) * u,
            a.value() == 0,
    ;
    assert((0 as real) * y == 0 as real) by (nonlinear_arith);
    lemma_product_finite(a, b);
}

/// A rounded difference and a floor: a gain at or under the floor is seen to be, and one
/// above it by a rounding is seen to be.
proof fn lemma_gain(best: Binary64, value: Binary64, floor: Binary64)
    requires
        best.finite(),
        value.finite(),
        floor.finite(),
        number(floor) >= 0 as real,
    ensures
        number(best) - number(value) <= number(floor) ==> at_most(difference(best, value), floor),
        number(best) - number(value) > number(floor) + roundoff() * number(floor) ==> !at_most(
            difference(best, value),
            floor,
        ) && less(floor, difference(best, value)),
{
    lemma_constants();
    lemma_number_negated(value);
    lemma_number_sum_beside(best, negated(value), floor);
    let d = difference(best, value);
    if number(best) - number(value) > number(floor) + roundoff() * number(floor) {
        lemma_times(0 as real, number(floor), roundoff());
        if d.finite() {
            lemma_difference_near(best, value);
            lemma_number_order(d, floor);
            lemma_number_order(floor, d);
        }
    }
}

/// Gains against the needed progress.
proof fn lemma_gain_needed(best: Binary64, value: Binary64, rel_tol: Binary64, at: Binary64)
    requires
        best.finite(),
        value.finite(),
        measurable(rel_tol, at),
    ensures
        ({
            let floor = improvement_floor(rel_tol, at);
            let gain = number(best) - number(value);
            let needed = progress(rel_tol, at);
            &&& floor.finite()
            &&& number(floor) >= 0 as real
            &&& gain <= 0 as real || clearly_within(gain, needed) ==> gain <= number(floor)
                && at_most(difference(best, value), floor)
            &&& clearly_beyond(gain, needed) ==> number(floor) + roundoff() * number(floor) < gain
                && less(floor, difference(best, value)) && !at_most(difference(best, value), floor)
        }),
{
    lemma_constants();
    law_floor_is_the_needed_progress(rel_tol, at);
    let floor = improvement_floor(rel_tol, at);
    lemma_gain(best, value, floor);
    let u = roundoff();
    let f = number(floor);
    let needed = progress(rel_tol, at);
    let e = underflow();
    let un = u * needed;
    assert(needed >= 0 as real) by {
        lemma_times(0 as real, (1 as real) + size(number(at)), number(rel_tol));
    }
    lemma_times(0 as real, needed, u);
    lemma_times(f, needed + (3 as real) * un + (2 as real) * e, u);
    assert(u * (needed + (3 as real) * un + (2 as real) * e) == un + (3 as real) * (u * un) + (
    2 as real) * (u * e)) by (nonlinear_arith)
        requires
            un == u * needed,
    ;
    lemma_times(u, (1 as real) / (1024 as real), un);
    lemma_times(u, (1 as real) / (1024 as real), e);
}

/// A trusted sample with a finite value that makes no progress, because its value is not
/// below the incumbent's, or not by the needed progress, or because its gradient norm is
/// inside the band at its own value, is one more of the open window: it counts, its point
/// joins the window's trials, and nothing about past escapes is forgotten. The sample that
/// fills the window is judged, unless the incumbent is a strict saddle.
pub proof fn law_sample_without_progress_counts<C>(
    state: MonitorState<C>,
    point: Seq<Binary64>,
    value: Binary64,
    grad_norm: Binary64,
    curvature_psd: Option<bool>,
    band_at_value: Binary64,
    band_at_best: Binary64,
)
    requires
        measurable(state.rel_tol, state.best_value),
        value.finite(),
        ({
            ||| number(state.best_value) <= number(value)
            ||| clearly_within(
                number(state.best_value) - number(value),
                progress(state.rel_tol, state.best_value),
            )
            ||| grad_norm.finite() && at_most(grad_norm, band_at_value)
        }),
        state.no_improve_streak < usize::MAX,
    ensures
        ({
            let (next, verdict) = state.observed(
                point,
                value,
                grad_norm,
                true,
                curvature_psd,
                band_at_value,
                band_at_best,
            );
            &&& state.no_improve_streak + 1 < state.window ==> {
                &&& next.no_improve_streak == state.no_improve_streak + 1
                &&& next.window_trials == state.window_trials.push(
                    Seq::new(point.len(), |i: int| point[i].bits),
                )
                &&& next.stuck_escapes == state.stuck_escapes
                &&& next.incumbent_at_last_escape == state.incumbent_at_last_escape
                &&& verdict is Continue
            }
            &&& state.window <= state.no_improve_streak + 1 && next.best_curvature_psd != Some(
                false,
            ) ==> verdict !is Continue
            &&& number(state.best_value) <= number(value) ==> {
                &&& next.best_value == state.best_value
                &&& next.best_point == state.best_point
                &&& next.best_grad_norm == state.best_grad_norm
                &&& next.best_curvature_psd == state.best_curvature_psd
                &&& next.best_payload == state.best_payload
            }
            &&& next.recent_steps == state.recent_steps
            &&& next.rel_tol == state.rel_tol && next.window == state.window
        }),
{
    lemma_gain_needed(state.best_value, value, state.rel_tol, state.best_value);
    lemma_number_order(value, state.best_value);
    let bits = Seq::new(point.len(), |i: int| point[i].bits);
    assert(bits_of(point) =~= bits);
}

/// A trusted sample that improves on the incumbent by clearly more than the needed
/// progress, and is not inside the band, leads from then on: it opens the window again and
/// forgets the escapes from the old incumbent.
pub proof fn law_progress_opens_the_window_again<C>(
    state: MonitorState<C>,
    point: Seq<Binary64>,
    value: Binary64,
    grad_norm: Binary64,
    curvature_psd: Option<bool>,
    band_at_value: Binary64,
    band_at_best: Binary64,
)
    requires
        value.finite(),
        !state.best_value.finite() && state.best_value == (Binary64 { bits: INFINITY }) || (
        measurable(state.rel_tol, state.best_value) && clearly_beyond(
            number(state.best_value) - number(value),
            progress(state.rel_tol, state.best_value),
        ) && !(grad_norm.finite() && at_most(grad_norm, band_at_value))),
        0 < state.window,
    ensures
        ({
            let (next, verdict) = state.observed(
                point,
                value,
                grad_norm,
                true,
                curvature_psd,
                band_at_value,
                band_at_best,
            );
            &&& next.no_improve_streak == 0
            &&& next.window_trials.len() == 0
            &&& next.stuck_escapes == 0
            &&& next.incumbent_at_last_escape is None
            &&& next.best_value == value
            &&& next.best_point == Some(point)
            &&& next.best_grad_norm == grad_norm
            &&& next.best_curvature_psd == curvature_psd
            &&& next.best_payload == state.staged_payload
            &&& verdict is Continue
        }),
{
    if state.best_value.finite() {
        lemma_constants();
        lemma_gain_needed(state.best_value, value, state.rel_tol, state.best_value);
        lemma_number_order(value, state.best_value);
        let f = number(improvement_floor(state.rel_tol, state.best_value));
        lemma_times(0 as real, f, roundoff());
    } else {
        let one = Binary64 { bits: ONE };
        let s = sum(one, absolute(state.best_value));
        lemma_sum_kind(one, absolute(state.best_value));
        lemma_product_sign(state.rel_tol, s);
    }
}

/// A regression is a rise by more than the needed progress.
proof fn lemma_rise<C>(state: MonitorState<C>, value: Binary64)
    requires
        value.finite(),
        state.best_value.finite(),
    ensures
        at_most(value, state.best_value) && !less(state.rel_tol, Binary64 { bits: 0 })
            ==> !state.regresses(value),
        measurable(state.rel_tol, state.best_value) ==> {
            let rise = number(value) - number(state.best_value);
            let needed = progress(state.rel_tol, state.best_value);
            &&& clearly_within(rise, needed) ==> !state.regresses(value)
            &&& clearly_beyond(rise - roundoff() * size(number(value)), needed)
                ==> state.regresses(value)
        },
{
    lemma_constants();
    lemma_small_numbers();
    lemma_largest();
    let best = state.best_value;
    let floor = improvement_floor(state.rel_tol, best);
    let t = sum(best, floor);
    let one = Binary64 { bits: ONE };
    let s = sum(one, absolute(best));
    lemma_sum_kind(one, absolute(best));
    lemma_sum_kind(best, floor);
    lemma_product_sign(state.rel_tol, s);
    if floor.finite() {
        lemma_number_sum_beside(best, floor, value);
        if t.finite() {
            lemma_sum_near(best, floor);
            lemma_number_order(t, value);
            lemma_number_order(value, t);
        }
        if at_most(value, best) && !less(state.rel_tol, Binary64 { bits: 0 }) {
            lemma_number_order(value, best);
            lemma_product_near(state.rel_tol, s);
            lemma_number_order(state.rel_tol, Binary64 { bits: 0 });
            lemma_signed_product(state.rel_tol, s);
        }
    } else if !floor.nan() && !less(state.rel_tol, Binary64 { bits: 0 }) {
        assert(!floor.negative()) by {
            if state.rel_tol.negative() {
                lemma_number_size(state.rel_tol);
                if s.finite() {
                    lemma_zero_product(state.rel_tol, s);
                    lemma_zero_stays_finite(state.rel_tol, s);
                }
            }
        }
        assert(t == floor) by {
            reveal(sum);
        }
    }
    if measurable(state.rel_tol, best) {
        lemma_gain_needed(value, best, state.rel_tol, best);
        let f = number(floor);
        lemma_times(0 as real, f, roundoff());
        let rise = number(value) - number(best);
        let sv = size(number(value));
        lemma_times(0 as real, sv, roundoff());
        if clearly_beyond(rise - roundoff() * sv, progress(state.rel_tol, best)) {
            let needed = progress(state.rel_tol, best);
            assert(clearly_beyond(rise, needed));
            law_floor_is_the_needed_progress(state.rel_tol, best);
            let un = roundoff() * needed;
            lemma_times(0 as real, (1 as real) + size(number(best)), number(state.rel_tol));
            lemma_times(0 as real, needed, roundoff());
            assert(f + roundoff() * sv < rise);
        }
    }
}

/// A trusted constrained-stationary sample with a finite value is adopted where there is no
/// incumbent, where its value is not above the incumbent's, or not by the needed
/// progress: it leads, and it is judged at once. It has converged exactly where its
/// gradient norm is finite and inside the band, and the exit says so.
pub proof fn law_stationary_sample_is_adopted<C>(
    state: MonitorState<C>,
    point: Seq<Binary64>,
    value: Binary64,
    grad_norm: Binary64,
    curvature_psd: Option<bool>,
    band_at_value: Binary64,
    band_at_best: Binary64,
)
    requires
        value.finite(),
        ({
            ||| !state.best_value.finite()
            ||| at_most(value, state.best_value) && !less(state.rel_tol, Binary64 { bits: 0 })
            ||| measurable(state.rel_tol, state.best_value) && clearly_within(
                number(value) - number(state.best_value),
                progress(state.rel_tol, state.best_value),
            )
        }),
    ensures
        ({
            let (next, verdict) = state.settled(
                point,
                value,
                grad_norm,
                true,
                curvature_psd,
                band_at_value,
                band_at_best,
            );
            &&& next.best_value == value
            &&& next.best_point == Some(point)
            &&& next.best_grad_norm == grad_norm
            &&& next.best_curvature_psd == curvature_psd
            &&& next.best_payload == state.staged_payload
            &&& next.accepted == counted(state.accepted)
            &&& next.refused_streak == 0 && next.unescapable_streak == 0
            &&& verdict !is Continue
            &&& verdict is Converged <==> grad_norm.finite() && at_most(grad_norm, band_at_best)
            &&& verdict is Escape ==> grad_norm.finite() && less(band_at_best, grad_norm)
            &&& next.exit matches Some(exit) && exit.point == point && exit.value == value
                && exit.grad_norm == grad_norm && exit.accepted == next.accepted
                && exit.unescapable_window is None && exit.converged == (verdict is Converged)
        }),
{
    if state.best_value.finite() {
        lemma_rise(state, value);
    }
}

/// A constrained-stationary sample whose value is above the incumbent's by clearly more
/// than the needed progress is folded as an ordinary sample.
pub proof fn law_regressing_stationary_sample_is_ordinary<C>(
    state: MonitorState<C>,
    point: Seq<Binary64>,
    value: Binary64,
    grad_norm: Binary64,
    curvature_psd: Option<bool>,
    band_at_value: Binary64,
    band_at_best: Binary64,
)
    requires
        value.finite(),
        measurable(state.rel_tol, state.best_value),
        clearly_beyond(
            number(value) - number(state.best_value) - roundoff() * size(number(value)),
            progress(state.rel_tol, state.best_value),
        ),
    ensures
        state.settled(
            point,
            value,
            grad_norm,
            true,
            curvature_psd,
            band_at_value,
            band_at_best,
        ) == state.observed(
            point,
            value,
            grad_norm,
            true,
            curvature_psd,
            band_at_value,
            band_at_best,
        ),
{
    lemma_rise(state, value);
}

/// A further window is licensed, after a first one, where the incumbent has fallen since
/// by clearly more than the needed progress, its gradient norm has fallen, or it is a
/// strict saddle; and not where it has clearly fallen by no more and neither of the others
/// holds. A proven replay licenses nothing.
pub proof fn law_licence_follows_the_fall<C>(
    state: MonitorState<C>,
    value: Binary64,
    norm: Binary64,
)
    requires
        state.continuation_incumbent == Some((value, norm)),
        value.finite(),
        measurable(state.rel_tol, state.best_value),
    ensures
        ({
            let fall = number(value) - number(state.best_value);
            let needed = progress(state.rel_tol, state.best_value);
            let otherwise = less(state.best_grad_norm, norm) || state.best_curvature_psd == Some(
                false,
            );
            &&& state.replay_proven ==> !state.licensed()
            &&& !state.replay_proven && (otherwise || clearly_beyond(fall, needed))
                ==> state.licensed()
            &&& !otherwise && (fall <= 0 as real || clearly_within(fall, needed))
                ==> !state.licensed()
        }),
{
    lemma_gain_needed(value, state.best_value, state.rel_tol, state.best_value);
}

/// Whether an escape from the incumbent was granted before, with the same trials: bit for
/// bit the same point, value, gradient norm and window.
pub open spec fn escaped_before<C>(state: MonitorState<C>) -> bool {
    state.incumbent_at_last_escape matches Some(last) && state.best_point matches Some(point) && {
        &&& last.point.len() == point.len()
        &&& forall|i: int| 0 <= i < point.len() ==> #[trigger] last.point[i] == point[i].bits
        &&& last.value == state.best_value.bits
        &&& last.grad_norm == state.best_grad_norm.bits
        &&& last.window_trials == state.window_trials
    }
}

/// A full window at an incumbent: it has converged where its gradient norm is finite and
/// inside the band, an escape is granted where the norm is finite and above the band and
/// the same escape was not the last one granted, and all else is a floor. What is not an
/// escape is published; an escape that would be a replay is proven to be one.
pub proof fn law_full_window_is_judged_at_the_incumbent<C>(
    state: MonitorState<C>,
    point: Seq<Binary64>,
    value: Binary64,
    grad_norm: Binary64,
    band: Binary64,
)
    requires
        state.has_incumbent(),
    ensures
        ({
            let (next, verdict) = state.decide(point, value, grad_norm, band);
            let norm = state.best_grad_norm;
            let converged = norm.finite() && at_most(norm, band);
            let escapable = norm.finite() && less(band, norm);
            &&& verdict == if converged {
                StallVerdict::Converged
            } else if escapable && !escaped_before(state) {
                StallVerdict::Escape { residual_grad_norm: norm, band }
            } else {
                StallVerdict::Floor { residual_grad_norm: norm }
            }
            &&& verdict !is Escape ==> {
                &&& next.exit matches Some(exit) && Some(exit.point) == state.best_point
                    && exit.value == state.best_value && exit.grad_norm == norm && exit.accepted
                    == state.accepted && exit.converged == converged && exit.probe_scale
                    == state.window_probe_scale() && exit.unescapable_window is None
                &&& next.exit_revision == if state.exit_revision == u64::MAX {
                    0
                } else {
                    state.exit_revision + 1
                }
                &&& next.stuck_escapes == state.stuck_escapes
                &&& next.replay_proven == (state.replay_proven || escapable)
            }
            &&& verdict is Escape ==> {
                &&& next.no_improve_streak == 0 && next.refused_streak == 0
                    && next.unescapable_streak == 0
                &&& next.window_trials.len() == 0
                &&& next.stuck_escapes == counted(state.stuck_escapes)
                &&& next.exit == state.exit && next.exit_revision == state.exit_revision
                &&& escaped_before(MonitorState { window_trials: state.window_trials, ..next })
                &&& next.replay_proven == state.replay_proven
            }
        }),
{
    let best = state.best_point->0;
    let bits = bits_of(best);
    match state.incumbent_at_last_escape {
        Some(last) => {
            if escaped_before(state) {
                assert(last.point =~= bits);
            }
            let identity = state.identity(best, state.best_value, state.best_grad_norm);
            if last == identity {
                assert forall|i: int| 0 <= i < best.len() implies #[trigger] last.point[i]
                    == best[i].bits by {}
            }
        },
        None => {},
    }
}

} // verus!
