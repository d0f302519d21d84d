//! What holds between the second-order verdicts.

use crate::arrays::{Matrix, Vector};
use crate::binary64::{
    at_most, difference, larger, lemma_order_of_values, lemma_product_sign, lemma_sum_kind, less,
    negated, normal, product, quotient, root, sum, Binary64, HALF, INFINITY, ONE, TWO,
};
use crate::cholesky::{factor, factors, pivot, reduced, usable};
use crate::order::{
    lemma_difference_ordered, lemma_difference_sign, lemma_difference_within_half_a_place,
    lemma_pattern_magnitude, lemma_product_ordered, lemma_product_with_half, lemma_product_with_one,
    lemma_product_with_two, lemma_quotient_ordered, lemma_quotient_sign,
    lemma_ratio_within_half_a_place, lemma_root_ordered, lemma_root_positive, lemma_sum_commutes,
    lemma_sum_ordered, room,
};
use crate::rounding::{
    lemma_magnitude_grows, lemma_magnitude_of_parts, lemma_magnitude_step, lemma_magnitude_zero,
    lemma_nearest_exists, lemma_round_grid_point, lemma_round_ratio_ordered, magnitude, round_ratio,
    scale_of, HIDDEN, INFINITE, SIGNIFICANDS,
};
use crate::second_order::{
    admitted, arithmetic_shift, bound_ahead, curvature_shift, feasible_step, inverse_form,
    lemma_arithmetic_shift_sign, lemma_zero_resolution, matched, meeting_step, predicted_decrease,
    reach, shifted_decrease, sound_form, step_to,
};
use vstd::arithmetic::power2::{
    lemma2_to64, lemma2_to64_rest, lemma_pow2_adds, lemma_pow2_pos, lemma_pow2_strictly_increases,
    pow2,
};
use vstd::prelude::*;

verus! {

/// The shift is the larger of the arithmetic shift and a finite measurement.
pub proof fn law_shift_is_the_larger(h: Seq<Seq<Binary64>>, measured: Binary64)
    ensures
        at_most(arithmetic_shift(h), curvature_shift(h, measured)),
        measured.finite() ==> at_most(measured, curvature_shift(h, measured)),
        curvature_shift(h, measured) == arithmetic_shift(h) || curvature_shift(h, measured)
            == measured,
{
    lemma_arithmetic_shift_sign(h);
}

/// A wider measurement never narrows the shift.
pub proof fn law_shift_grows_with_the_measurement(
    h: Seq<Seq<Binary64>>,
    narrow: Binary64,
    wide: Binary64,
)
    requires
        narrow.finite(),
        wide.finite(),
        at_most(narrow, wide),
    ensures
        at_most(curvature_shift(h, narrow), curvature_shift(h, wide)),
{
    lemma_arithmetic_shift_sign(h);
}

/// Where the matrix factors at the arithmetic shift, every measured resolution gives the
/// decrement at that shift.
pub proof fn law_arithmetic_decrement_goes_first(
    hessian: &Matrix,
    grad: &Vector,
    measured: Binary64,
)
    requires
        matched(hessian, grad),
        factors(hessian@, arithmetic_shift(hessian@), hessian@.len()),
    ensures
        predicted_decrease(hessian, grad, measured) == shifted_decrease(
            hessian@,
            grad@,
            arithmetic_shift(hessian@),
        ),
{
}

/// A point that the definiteness verdict accepts at a resolution has a decrement at
/// that resolution, unless the quadratic form is not finite or rounds below zero.
pub proof fn law_accepted_point_has_a_decrement(
    hessian: &Matrix,
    grad: &Vector,
    measured: Binary64,
)
    requires
        matched(hessian, grad),
        admitted(hessian@, measured),
    ensures
        ({
            let h = hessian@;
            let shift = if factors(h, arithmetic_shift(h), h.len()) {
                arithmetic_shift(h)
            } else {
                curvature_shift(h, measured)
            };
            predicted_decrease(hessian, grad, measured) is Some <==> sound_form(
                inverse_form(h, grad@, shift),
            )
        }),
{
    law_shift_is_the_larger(hessian@, measured);
    lemma_arithmetic_shift_sign(hessian@);
    let arithmetic = arithmetic_shift(hessian@);
    let shift = curvature_shift(hessian@, measured);
    if !less(arithmetic, shift) {
        assert(shift == arithmetic);
    }
}

/// A decrement at any shift is finite and not negative.
pub proof fn law_shifted_decrement_is_finite_and_not_negative(
    h: Seq<Seq<Binary64>>,
    g: Seq<Binary64>,
    shift: Binary64,
)
    ensures
        shifted_decrease(h, g, shift) matches Some(decrease) ==> decrease.finite() && !less(
            decrease,
            Binary64 { bits: 0 },
        ),
{
    lemma_half_of_form(inverse_form(h, g, shift));
}

/// A predicted decrement is finite and not negative.
pub proof fn law_decrement_is_finite_and_not_negative(
    hessian: &Matrix,
    grad: &Vector,
    measured: Binary64,
)
    ensures
        predicted_decrease(hessian, grad, measured) matches Some(decrease) ==> decrease.finite()
            && !less(decrease, Binary64 { bits: 0 }),
{
    let h = hessian@;
    law_shifted_decrement_is_finite_and_not_negative(h, grad@, arithmetic_shift(h));
    law_shifted_decrement_is_finite_and_not_negative(h, grad@, curvature_shift(h, measured));
}

proof fn lemma_half_of_form(quad: Binary64)
    ensures
        sound_form(quad) ==> {
            let half = product(Binary64 { bits: HALF }, quad);
            half.finite() && !less(half, Binary64 { bits: 0 })
        },
{
    if sound_form(quad) {
        let half = Binary64 { bits: HALF };
        let one = Binary64 { bits: ONE };
        lemma_product_sign(half, quad);
        lemma_product_sign(one, quad);
        lemma_product_with_one(quad);
        lemma_product_ordered(half, one, quad);
    }
}

/// A matrix of one row factors exactly where its entry lies above minus the shift.
pub proof fn law_one_row_factors_above_the_shift(h: Seq<Seq<Binary64>>, shift: Binary64)
    requires
        h[0][0].finite(),
        shift.finite(),
        sum(h[0][0], shift).finite(),
    ensures
        factors(h, shift, 1) <==> less(negated(shift), h[0][0]),
{
    let p = pivot(h, shift, 0);
    let exact = h[0][0].value() + shift.value();
    lemma_order_of_values(negated(shift), h[0][0]);
    assert(usable(p) <==> 0 < exact) by {
        reveal(sum);
        lemma_magnitude_zero();
        lemma_magnitude_of_parts(0, 1);
        lemma2_to64();
        if exact < 0 {
            lemma_nearest_exists(-exact, 1);
        } else {
            lemma_nearest_exists(exact, 1);
        }
    }
    assert(factors(h, shift, 1) <==> usable(p)) by {
        assert forall|j: nat| j < 1 && usable(p) implies usable(#[trigger] pivot(h, shift, j)) by {
            assert(j == 0);
        }
    }
}

/// Whether no entry below the factor's diagonal is larger in magnitude at the shift
/// `wide` than at the shift `narrow`.
pub open spec fn entries_shrink(
    h: Seq<Seq<Binary64>>,
    narrow: Binary64,
    wide: Binary64,
    n: nat,
) -> bool {
    forall|i: int, k: nat|
        k < i < n ==> (#[trigger] factor(h, wide, i, k)).pattern() <= factor(
            h,
            narrow,
            i,
            k,
        ).pattern()
}

/// A wider shift keeps the factor, as long as no pivot overflows and, from three rows
/// on, no entry below the diagonal grows in magnitude.
pub proof fn law_wider_shift_keeps_the_factor(
    h: Seq<Seq<Binary64>>,
    narrow: Binary64,
    wide: Binary64,
    n: nat,
)
    requires
        factors(h, narrow, n),
        at_most(narrow, wide),
        forall|j: nat| j < n ==> (#[trigger] pivot(h, wide, j)).finite(),
        n <= 2 || entries_shrink(h, narrow, wide, n),
    ensures
        factors(h, wide, n),
{
    if n <= 2 {
        lemma_two_rows_shrink(h, narrow, wide, n);
    }
    assert forall|j: nat| j < n implies usable(#[trigger] pivot(h, wide, j)) by {
        assert(usable(pivot(h, narrow, j)));
        assert(pivot(h, wide, j).finite());
        lemma_diagonal_grows(h, narrow, wide, j, j);
    }
}

/// What is left of a diagonal entry grows with the shift, where the factor's entries
/// in its row do not.
proof fn lemma_diagonal_grows(
    h: Seq<Seq<Binary64>>,
    narrow: Binary64,
    wide: Binary64,
    j: nat,
    k: nat,
)
    requires
        k <= j,
        at_most(narrow, wide),
        reduced(h, narrow, j as int, j as int, k).finite(),
        reduced(h, wide, j as int, j as int, k).finite(),
        forall|c: nat|
            c < k ==> (#[trigger] factor(h, wide, j as int, c)).pattern() <= factor(
                h,
                narrow,
                j as int,
                c,
            ).pattern(),
    ensures
        at_most(
            reduced(h, narrow, j as int, j as int, k),
            reduced(h, wide, j as int, j as int, k),
        ),
    decreases k,
{
    let i = j as int;
    if k == 0 {
        lemma_sum_commutes(h[i][i], narrow);
        lemma_sum_commutes(h[i][i], wide);
        lemma_sum_ordered(narrow, wide, h[i][i]);
    } else {
        let c = (k - 1) as nat;
        let a = reduced(h, narrow, i, i, c);
        let b = reduced(h, wide, i, i, c);
        let l = factor(h, narrow, i, c);
        let m = factor(h, wide, i, c);
        let ll = product(l, l);
        let mm = product(m, m);
        lemma_sum_kind(a, negated(ll));
        lemma_sum_kind(b, negated(mm));
        lemma_diagonal_grows(h, narrow, wide, j, c);
        lemma_square_ordered(m, l);
        lemma_sum_kind(a, negated(mm));
        lemma_difference_ordered(a, mm, ll);
        lemma_sum_ordered(a, b, negated(mm));
    }
}

/// The square of a number of smaller magnitude is smaller.
proof fn lemma_square_ordered(a: Binary64, b: Binary64)
    requires
        a.pattern() <= b.pattern(),
        product(b, b).finite(),
        product(a, a).finite(),
    ensures
        at_most(product(a, a), product(b, b)),
{
    lemma_product_sign(a, a);
    lemma_product_sign(b, b);
    lemma_product_sign(a, b);
    lemma_product_sign(b, a);
    lemma_product_ordered(a, b, a);
    lemma_product_ordered(a, b, b);
}

/// With one or two rows no entry below the diagonal grows.
proof fn lemma_two_rows_shrink(
    h: Seq<Seq<Binary64>>,
    narrow: Binary64,
    wide: Binary64,
    n: nat,
)
    requires
        n <= 2,
        factors(h, narrow, n),
        at_most(narrow, wide),
        forall|j: nat| j < n ==> (#[trigger] pivot(h, wide, j)).finite(),
    ensures
        entries_shrink(h, narrow, wide, n),
{
    if n == 2 {
        assert(usable(pivot(h, narrow, 0)));
        assert(usable(pivot(h, narrow, 1)));
        assert(pivot(h, wide, 0).finite());
        lemma_first_column_shrinks(h, narrow, wide);
    }
    assert forall|i: int, k: nat| k < i < n implies (#[trigger] factor(h, wide, i, k)).pattern()
        <= factor(h, narrow, i, k).pattern() by {
        assert(i == 1 && k == 0);
    }
}

/// A measurement never refuses a matrix that the arithmetic shift admits.
pub proof fn law_measurement_only_admits(h: Seq<Seq<Binary64>>, measured: Binary64)
    requires
        admitted(h, Binary64 { bits: 0 }),
    ensures
        admitted(h, measured),
{
    lemma_zero_resolution(h);
}

/// The entry below the first pivot shrinks in magnitude as the shift grows.
proof fn lemma_first_column_shrinks(h: Seq<Seq<Binary64>>, narrow: Binary64, wide: Binary64)
    requires
        usable(pivot(h, narrow, 0)),
        pivot(h, narrow, 1).finite(),
        at_most(narrow, wide),
        pivot(h, wide, 0).finite(),
    ensures
        factor(h, wide, 1, 0).pattern() <= factor(h, narrow, 1, 0).pattern(),
{
    reveal_with_fuel(reduced, 2);
    let one = Binary64 { bits: ONE };
    let p = pivot(h, narrow, 0);
    let q = pivot(h, wide, 0);
    lemma_diagonal_grows(h, narrow, wide, 0, 0);
    let r = root(p);
    let s = root(q);
    lemma_root_ordered(p, q);
    lemma_root_positive(p);
    lemma_root_positive(q);
    lemma_quotient_ordered(one, r, s);
    lemma_quotient_ordered(one, s, s);
    let x = quotient(one, r);
    let y = quotient(one, s);
    let below = h[1][0];
    let l = factor(h, narrow, 1, 0);
    assert(l == product(below, x));
    assert(factor(h, wide, 1, 0) == product(below, y));
    lemma_sum_kind(sum(h[1][1], narrow), negated(product(l, l)));
    lemma_product_sign(l, l);
    lemma_product_sign(below, x);
    lemma_product_sign(x, below);
    lemma_product_sign(y, below);
    lemma_product_ordered(y, x, below);
    lemma_product_ordered(x, x, below);
}

pub proof fn lemma_reach_is_the_smallest(
    point: Seq<Binary64>,
    ray: Seq<Binary64>,
    lower: Seq<Binary64>,
    upper: Seq<Binary64>,
    n: nat,
)
    ensures
        !reach(point, ray, lower, upper, n).nan(),
        forall|i: int|
            0 <= i < n ==> ((#[trigger] bound_ahead(ray, lower, upper, i)) matches Some(limit) ==> {
                let step = step_to(point, ray, limit, i);
                step.nan() || at_most(reach(point, ray, lower, upper, n), step)
            }),
        reach(point, ray, lower, upper, n) == (Binary64 { bits: INFINITY }) || exists|i: int|
            0 <= i < n && ((#[trigger] bound_ahead(ray, lower, upper, i)) matches Some(limit)
                && reach(point, ray, lower, upper, n) == step_to(point, ray, limit, i)),
    decreases n,
{
    if 0 < n {
        lemma_reach_is_the_smallest(point, ray, lower, upper, (n - 1) as nat);
        let here = bound_ahead(ray, lower, upper, n - 1);
    }
}

/// The feasible step is a number and not negative, at most every step at which a
/// coordinate meets its bound, and one of those, zero or infinite.
pub proof fn law_feasible_step_is_the_largest(
    point: Seq<Binary64>,
    ray: Seq<Binary64>,
    lower: Seq<Binary64>,
    upper: Seq<Binary64>,
)
    ensures
        at_most(Binary64 { bits: 0 }, feasible_step(point, ray, lower, upper)),
        forall|i: int|
            0 <= i < point.len() ==> ((#[trigger] bound_ahead(ray, lower, upper, i)) matches Some(
                limit,
            ) ==> {
                let step = step_to(point, ray, limit, i);
                step.nan() || at_most(
                    feasible_step(point, ray, lower, upper),
                    larger(step, Binary64 { bits: 0 }),
                )
            }),
        feasible_step(point, ray, lower, upper) == (Binary64 { bits: 0 }) || feasible_step(
            point,
            ray,
            lower,
            upper,
        ) == (Binary64 { bits: INFINITY }) || exists|i: int|
            0 <= i < point.len() && ((#[trigger] bound_ahead(ray, lower, upper, i)) matches Some(
                limit,
            ) && feasible_step(point, ray, lower, upper) == step_to(point, ray, limit, i)),
{
    lemma_reach_is_the_smallest(point, ray, lower, upper, point.len());
}

/// A ray that no coordinate has a bound ahead of is unbounded.
pub proof fn law_unbounded_ray_reaches_infinity(
    point: Seq<Binary64>,
    ray: Seq<Binary64>,
    lower: Seq<Binary64>,
    upper: Seq<Binary64>,
)
    requires
        forall|i: int| 0 <= i < point.len() ==> bound_ahead(ray, lower, upper, i) is None,
    ensures
        feasible_step(point, ray, lower, upper) == (Binary64 { bits: INFINITY }),
{
    lemma_reach_is_the_smallest(point, ray, lower, upper, point.len());
}

/// A point that lies past a bound along the ray can take no step.
pub proof fn law_point_past_its_bound_stays(
    point: Seq<Binary64>,
    ray: Seq<Binary64>,
    lower: Seq<Binary64>,
    upper: Seq<Binary64>,
    i: int,
)
    requires
        0 <= i < point.len(),
        point[i].finite(),
        ray[i].finite(),
        bound_ahead(ray, lower, upper, i) matches Some(limit) && (less(limit, point[i])
            && !ray[i].negative() || less(point[i], limit) && ray[i].negative()),
    ensures
        feasible_step(point, ray, lower, upper) == (Binary64 { bits: 0 }),
{
    let limit = bound_ahead(ray, lower, upper, i)->0;
    lemma_reach_is_the_smallest(point, ray, lower, upper, point.len());
    lemma_difference_sign(limit, point[i]);
    lemma_quotient_sign(difference(limit, point[i]), ray[i]);
    if limit.finite() && !difference(limit, point[i]).finite() {
        lemma_halved(limit, point[i]);
        let half = Binary64 { bits: HALF };
        let away = difference(product(half, limit), product(half, point[i]));
        lemma_difference_sign(product(half, limit), product(half, point[i]));
        lemma_quotient_sign(away, ray[i]);
        lemma_product_sign(Binary64 { bits: TWO }, quotient(away, ray[i]));
    }
}

/// Where a difference overflows, both operands can be halved exactly, and the halves
/// have a difference that does not overflow.
pub proof fn lemma_halved(limit: Binary64, x: Binary64)
    requires
        limit.finite(),
        x.finite(),
        !difference(limit, x).finite(),
    ensures
        ({
            let half = Binary64 { bits: HALF };
            let a = product(half, limit);
            let b = product(half, x);
            &&& a.finite() && b.finite()
            &&& 2 * a.value() == limit.value()
            &&& 2 * b.value() == x.value()
            &&& less(a, b) <==> less(limit, x)
            &&& less(b, a) <==> less(x, limit)
            &&& difference(a, b).finite()
            &&& magnitude(INFINITE as int) <= 4 * difference(a, b).magnitude()
        }),
{
    let half = Binary64 { bits: HALF };
    let top = INFINITE as int;
    let v = magnitude(top - 1);
    let w = magnitude(top);
    let gap = room(x, limit);
    lemma_nearest_exists(gap, 1);
    lemma_magnitude_zero();
    assert(gap != 0 && round_ratio(gap, 1) == top) by {
        reveal(sum);
    }
    lemma_magnitude_step(top - 1);
    lemma_pattern_magnitude(limit, limit);
    lemma_pattern_magnitude(x, x);
    if limit.pattern() < top - 1 {
        lemma_magnitude_grows(limit.pattern(), top - 1);
    }
    if x.pattern() < top - 1 {
        lemma_magnitude_grows(x.pattern(), top - 1);
    }
    let full = SIGNIFICANDS as int;
    lemma_magnitude_of_parts(0, full);
    lemma2_to64();
    lemma2_to64_rest();
    lemma_pow2_strictly_increases(54, 2045);
    lemma_pow2_adds(1, 53);
    assert(scale_of(top - 1) == 2045);
    if limit.pattern() < full {
        lemma_magnitude_grows(limit.pattern(), full);
    }
    if x.pattern() < full {
        lemma_magnitude_grows(x.pattern(), full);
    }
    lemma_product_with_half(limit);
    lemma_product_with_half(x);
    let a = product(half, limit);
    let b = product(half, x);
    lemma_order_of_values(limit, x);
    lemma_order_of_values(x, limit);
    lemma_order_of_values(a, b);
    lemma_order_of_values(b, a);
    let near = room(b, a);
    assert(2 * near == gap);
    lemma_round_grid_point(top - 1);
    lemma_round_ratio_ordered(near, 1, v, 1);
    let last = Binary64 { bits: (INFINITE - 1) as u64 };
    lemma_product_with_half(last);
    let under = product(half, last);
    lemma_round_grid_point(under.pattern());
    lemma_round_ratio_ordered(under.magnitude(), 1, near, 1);
    lemma_nearest_exists(near, 1);
    assert(difference(a, b).pattern() == round_ratio(near, 1)) by {
        reveal(sum);
    }
    lemma_pattern_magnitude(under, difference(a, b));
    let place = pow2(2045) as int;
    let s = top - 1 - 2045 * HIDDEN;
    assert(place <= v) by (nonlinear_arith)
        requires
            v == s * place,
            1 <= s,
            0 < place,
    ;
}

/// A step to a bound ahead, times the component it was taken along, is at most two parts
/// in `2^53` longer than the way to the bound.
proof fn lemma_plain_step(limit: Binary64, x: Binary64, component: Binary64)
    requires
        limit.finite(),
        x.finite(),
        component.finite(),
        !component.zero(),
        if component.negative() {
            at_most(limit, x)
        } else {
            at_most(x, limit)
        },
        difference(limit, x).finite(),
    ensures
        ({
            let step = quotient(difference(limit, x), component);
            let full = SIGNIFICANDS as int;
            &&& !step.nan()
            &&& step.zero() || !step.negative()
            &&& step.zero() || normal(step) ==> (full - 1) * ((full - 1) * (step.magnitude()
                * component.magnitude())) <= full * (full * (room(x, limit) * pow2(1074)))
        }),
{
    let away = difference(limit, x);
    let step = quotient(away, component);
    let full = SIGNIFICANDS as int;
    let unit = pow2(1074) as int;
    lemma_pow2_pos(1074);
    let y = component.magnitude();
    let z = step.magnitude();
    let d = away.magnitude();
    let gap = room(x, limit);
    lemma_order_of_values(x, limit);
    lemma_order_of_values(limit, x);
    lemma_pattern_magnitude(component, component);
    lemma_pattern_magnitude(step, step);
    lemma_pattern_magnitude(away, away);
    lemma_difference_within_half_a_place(limit, x);
    if limit.value() == x.value() {
        reveal(sum);
    } else {
        lemma_difference_sign(limit, x);
    }
    lemma_quotient_sign(away, component);
    let p = d * unit;
    assert(0 <= p) by (nonlinear_arith)
        requires
            0 <= d,
            0 < unit,
            p == d * unit,
    ;
    lemma_nearest_exists(p, y);
    assert(step.pattern() == round_ratio(p, y)) by {
        reveal(quotient);
    }
    if away.zero() {
        assert(0 * unit == 0) by (nonlinear_arith);
        lemma_round_ratio_ordered(0, y, 0, 1);
        lemma_magnitude_zero();
        lemma_round_grid_point(0);
    }
    if step.zero() || normal(step) {
        assert((full - 1) * (y * z) <= full * p) by {
            if step.zero() {
                assert((full - 1) * (y * 0) == 0) by (nonlinear_arith);
                assert(0 <= full * p) by (nonlinear_arith)
                    requires
                        0 <= p,
                        1 < full,
                ;
            } else {
                lemma_ratio_within_half_a_place(p, y);
            }
        }
        assert((full - 1) * ((full - 1) * (z * y)) <= full * (full * (gap * unit)))
            by (nonlinear_arith)
            requires
                (full - 1) * (y * z) <= full * (d * unit),
                (full - 1) * d <= full * gap,
                0 < unit,
                1 < full,
        {
            assert((full - 1) * ((full - 1) * (z * y)) <= (full - 1) * (full * (d * unit)));
            assert((full - 1) * (full * (d * unit)) == (full * unit) * ((full - 1) * d));
            assert((full * unit) * ((full - 1) * d) <= (full * unit) * (full * gap));
            assert((full * unit) * (full * gap) == full * (full * (gap * unit)));
        }
    }
}

/// From inside its bound, a coordinate moved by the feasible step goes, exactly, at
/// most two parts in `2^53` of the way past the bound, where the step to that bound is
/// neither infinite nor subnormal.
pub proof fn law_feasible_step_stays_in_the_box(
    point: Seq<Binary64>,
    ray: Seq<Binary64>,
    lower: Seq<Binary64>,
    upper: Seq<Binary64>,
    i: int,
    limit: Binary64,
)
    requires
        0 <= i < point.len(),
        point[i].finite(),
        ray[i].finite(),
        limit.finite(),
        bound_ahead(ray, lower, upper, i) == Some(limit),
        if ray[i].negative() {
            at_most(limit, point[i])
        } else {
            at_most(point[i], limit)
        },
        step_to(point, ray, limit, i).zero() || normal(step_to(point, ray, limit, i)),
    ensures
        (SIGNIFICANDS - 1) * ((SIGNIFICANDS - 1) * (feasible_step(
            point,
            ray,
            lower,
            upper,
        ).magnitude() * ray[i].magnitude())) <= SIGNIFICANDS * (SIGNIFICANDS * (room(
            point[i],
            limit,
        ) * pow2(1074))),
{
    let alpha = feasible_step(point, ray, lower, upper);
    let step = step_to(point, ray, limit, i);
    law_feasible_step_is_the_largest(point, ray, lower, upper);
    assert(bound_ahead(ray, lower, upper, i) == Some(limit));
    let full = SIGNIFICANDS as int;
    let unit = pow2(1074) as int;
    let x = alpha.magnitude();
    let y = ray[i].magnitude();
    let z = step.magnitude();
    let gap = room(point[i], limit);
    if difference(limit, point[i]).finite() {
        lemma_plain_step(limit, point[i], ray[i]);
    } else {
        lemma_halved_step(limit, point[i], ray[i]);
    }
    lemma_pattern_magnitude(ray[i], ray[i]);
    lemma_pattern_magnitude(alpha, alpha);
    lemma_pattern_magnitude(step, step);
    assert(x <= z) by {
        if !alpha.zero() {
            lemma_pattern_magnitude(alpha, step);
        }
    }
    assert((full - 1) * ((full - 1) * (x * y)) <= (full - 1) * ((full - 1) * (z * y)))
        by (nonlinear_arith)
        requires
            0 <= x <= z,
            0 <= y,
            1 < full,
    {
        assert(x * y <= z * y);
        assert((full - 1) * (x * y) <= (full - 1) * (z * y));
    }
}

/// [`lemma_plain_step`] where the distance overflows and is halved on the way.
proof fn lemma_halved_step(limit: Binary64, x: Binary64, component: Binary64)
    requires
        limit.finite(),
        x.finite(),
        component.finite(),
        !component.zero(),
        if component.negative() {
            at_most(limit, x)
        } else {
            at_most(x, limit)
        },
        !difference(limit, x).finite(),
    ensures
        ({
            let step = meeting_step(limit, x, component);
            let full = SIGNIFICANDS as int;
            &&& !step.nan()
            &&& step.zero() || !step.negative()
            &&& step.finite() ==> (full - 1) * ((full - 1) * (step.magnitude()
                * component.magnitude())) <= full * (full * (room(x, limit) * pow2(1074)))
        }),
{
    let half = Binary64 { bits: HALF };
    let two = Binary64 { bits: TWO };
    let a = product(half, limit);
    let b = product(half, x);
    lemma_halved(limit, x);
    lemma_order_of_values(limit, x);
    lemma_order_of_values(x, limit);
    lemma_order_of_values(a, b);
    lemma_order_of_values(b, a);
    lemma_plain_step(a, b, component);
    let away = difference(a, b);
    let near = quotient(away, component);
    lemma_product_sign(two, near);
    let step = product(two, near);
    // The quotient of a number this large is never subnormal.
    let top = magnitude(INFINITE as int);
    let unit = pow2(1074) as int;
    let d = away.magnitude();
    let y = component.magnitude();
    let full = SIGNIFICANDS as int;
    lemma_pow2_pos(1074);
    lemma_pattern_magnitude(component, component);
    lemma_magnitude_grows(component.pattern(), INFINITE as int);
    lemma_magnitude_of_parts(0, HIDDEN as int);
    lemma2_to64();
    lemma2_to64_rest();
    lemma_pow2_adds(1, 53);
    lemma_pow2_strictly_increases(54, 1074);
    lemma_round_grid_point(HIDDEN as int);
    assert(HIDDEN * y <= (d * unit) * 1 && 0 <= d * unit) by (nonlinear_arith)
        requires
            2 * full <= unit,
            top <= 4 * d,
            0 < y <= top,
            full == 2 * HIDDEN,
    ;
    lemma_round_ratio_ordered(HIDDEN as int, 1, d * unit, y);
    lemma_nearest_exists(d * unit, y);
    assert(near.pattern() == round_ratio(d * unit, y)) by {
        reveal(quotient);
    }
    if step.finite() {
        assert(near.finite());
        lemma_product_with_two(near);
        let z = near.magnitude();
        let gap = room(b, a);
        assert(room(x, limit) == 2 * gap);
        assert((full - 1) * ((full - 1) * ((2 * z) * y)) <= full * (full * ((2 * gap) * unit)))
            by (nonlinear_arith)
            requires
                (full - 1) * ((full - 1) * (z * y)) <= full * (full * (gap * unit)),
        {
            assert((full - 1) * ((full - 1) * ((2 * z) * y)) == 2 * ((full - 1) * ((full - 1) * (z
                * y))));
            assert(full * (full * ((2 * gap) * unit)) == 2 * (full * (full * (gap * unit))));
        }
    }
}

} // verus!
