//! How long the longest feasible step is, in real numbers.

use crate::binary64::{
    difference, lemma_product_sign, less, product, quotient, Binary64, HALF, INFINITY, TWO,
};
use crate::factor_laws::lemma_small_underflow;
use crate::nearness::{
    largest, lemma_constants, lemma_difference_near, lemma_number_order, lemma_number_size,
    lemma_product_finite, lemma_quotient_finite, lemma_quotient_near, lemma_size_product, number,
    roundoff, size, underflow, unit,
};
use crate::order::{lemma_difference_sign, lemma_product_with_two, lemma_quotient_sign};
use crate::prediction_laws::{lemma_largest, lemma_small_numbers};
use crate::second_order::{bound_ahead, feasible_step, meeting_step, reach, step_to};
use crate::second_order_laws::{
    law_feasible_step_is_the_largest, lemma_halved, lemma_reach_is_the_smallest,
};
use crate::tolerance_laws::lemma_times;
use vstd::prelude::*;

verus! {

/// A quotient of a difference, in real numbers.
proof fn lemma_quotient_of_difference(t: real, d: Binary64, c: Binary64)
    requires
        d.finite(),
        c.finite(),
        !c.zero(),
        quotient(d, c).finite(),
        size(t - number(d)) <= roundoff() * size(number(d)),
    ensures
        ({
            let q = number(quotient(d, c));
            size(t - q * number(c)) <= (3 as real) * (roundoff() * size(q * number(c))) + (
            2 as real) * (underflow() * size(number(c)))
        }),
{
    lemma_constants();
    lemma_quotient_near(d, c);
    let u = roundoff();
    let e = underflow();
    let q = number(quotient(d, c));
    let x = number(c);
    let sx = size(x);
    let qc = size(q * x);
    let sd = size(number(d));
    lemma_size_product(q, x);
    lemma_size_product(x, x);
    let uqc = u * qc;
    assert((u * size(q) + e) * sx == uqc + e * sx) by (nonlinear_arith)
        requires
            uqc == u * qc,
            qc == size(q) * sx,
    ;
    let ex = e * sx;
    lemma_times(0 as real, sx, e);
    assert(qc >= 0 as real) by (nonlinear_arith)
        requires
            qc == size(q) * sx,
            size(q) >= 0 as real,
            sx >= 0 as real,
    ;
    lemma_times(0 as real, qc, u);
    lemma_times(sd, qc + uqc + ex, u);
    assert(u * (qc + uqc + ex) == uqc + u * uqc + u * ex) by (nonlinear_arith)
        requires
            uqc == u * qc,
    ;
    lemma_times(u, (1 as real) / (1024 as real), uqc);
    lemma_times(u, (1 as real) / (1024 as real), ex);
}

/// A finite meeting step takes the coordinate to its bound, to within a few roundings.
pub proof fn law_meeting_step_meets(limit: Binary64, x: Binary64, component: Binary64)
    requires
        limit.finite(),
        x.finite(),
        component.finite(),
        !component.zero(),
        meeting_step(limit, x, component).finite(),
    ensures
        ({
            let step = number(meeting_step(limit, x, component));
            let c = number(component);
            size(number(limit) - number(x) - step * c) <= (3 as real) * (roundoff() * size(step
                * c)) + (4 as real) * (underflow() * size(c))
        }),
{
    lemma_constants();
    let away = difference(limit, x);
    let t = number(limit) - number(x);
    let c = number(component);
    lemma_number_size(component);
    lemma_times(0 as real, size(c), underflow());
    if away.finite() {
        lemma_difference_near(limit, x);
        lemma_quotient_of_difference(t, away, component);
    } else {
        let half = Binary64 { bits: HALF };
        let two = Binary64 { bits: TWO };
        let a = product(half, limit);
        let b = product(half, x);
        lemma_halved(limit, x);
        let d = difference(a, b);
        lemma_difference_near(a, b);
        let u = unit();
        let i = a.value() as real;
        let j = b.value() as real;
        assert(((2 as real) * i) * u == (2 as real) * (i * u) && ((2 as real) * j) * u == (
        2 as real) * (j * u)) by (nonlinear_arith);
        let q = quotient(d, component);
        lemma_quotient_sign(d, component);
        lemma_product_sign(two, q);
        assert(q.finite()) by {
            lemma_product_sign(two, q);
        }
        lemma_product_with_two(q);
        lemma_quotient_of_difference(t / (2 as real), d, component);
        let s = product(two, q);
        lemma_number_size(q);
        lemma_number_size(s);
        let m = q.magnitude() as real;
        assert(((2 as real) * m) * u == (2 as real) * (m * u)) by (nonlinear_arith);
        let y = number(q);
        let z = number(s);
        assert(z == (2 as real) * y);
        assert(z * c == (2 as real) * (y * c)) by (nonlinear_arith)
            requires
                z == (2 as real) * y,
        ;
        let r = roundoff();
        assert(r * ((2 as real) * size(y * c)) == (2 as real) * (r * size(y * c)))
            by (nonlinear_arith);
    }
}

/// Whether `limit` is the bound that the coordinate `i` moves towards.
pub open spec fn ahead(
    ray: Seq<Binary64>,
    lower: Seq<Binary64>,
    upper: Seq<Binary64>,
    i: int,
    limit: Binary64,
) -> bool {
    ||| number(ray[i]) > 0 as real && i < upper.len() && limit == upper[i]
    ||| number(ray[i]) < 0 as real && i < lower.len() && limit == lower[i]
}

/// How far the coordinate `i` has to go to `limit`, along the ray; below zero past it.
pub open spec fn to_go(
    point: Seq<Binary64>,
    ray: Seq<Binary64>,
    i: int,
    limit: Binary64,
) -> real {
    if number(ray[i]) > 0 as real {
        number(limit) - number(point[i])
    } else {
        number(point[i]) - number(limit)
    }
}

proof fn lemma_ahead(
    ray: Seq<Binary64>,
    lower: Seq<Binary64>,
    upper: Seq<Binary64>,
    i: int,
)
    requires
        ray[i].finite(),
    ensures
        bound_ahead(ray, lower, upper, i) matches Some(limit) ==> ahead(
            ray,
            lower,
            upper,
            i,
            limit,
        ) && !ray[i].zero(),
        forall|limit: Binary64|
            #[trigger] ahead(ray, lower, upper, i, limit) ==> bound_ahead(ray, lower, upper, i)
                == Some(limit),
{
    lemma_small_numbers();
    let zero = Binary64 { bits: 0 };
    lemma_number_order(zero, ray[i]);
    lemma_number_order(ray[i], zero);
}

/// The reach is infinite, or it is the step of one of the coordinates.
proof fn lemma_reach_is_a_step(
    point: Seq<Binary64>,
    ray: Seq<Binary64>,
    lower: Seq<Binary64>,
    upper: Seq<Binary64>,
    n: nat,
)
    ensures
        reach(point, ray, lower, upper, n) == (Binary64 { bits: INFINITY }) || exists|i: int|
            {
                &&& 0 <= i < n
                &&& (#[trigger] bound_ahead(ray, lower, upper, i)) matches Some(limit)
                    && reach(point, ray, lower, upper, n) == step_to(point, ray, limit, i)
            },
    decreases n,
{
    if 0 < n {
        lemma_reach_is_a_step(point, ray, lower, upper, (n - 1) as nat);
        let before = reach(point, ray, lower, upper, (n - 1) as nat);
        let now = reach(point, ray, lower, upper, n);
        match bound_ahead(ray, lower, upper, n - 1) {
            Some(limit) => {
                assert(now == before || now == step_to(point, ray, limit, n - 1));
            },
            None => {},
        }
        if now == before && before != (Binary64 { bits: INFINITY }) {
            let i = choose|i: int|
                {
                    &&& 0 <= i < n - 1
                    &&& (#[trigger] bound_ahead(ray, lower, upper, i)) matches Some(limit)
                        && before == step_to(point, ray, limit, i)
                };
            assert(bound_ahead(ray, lower, upper, i) is Some);
        }
    }
}

/// The feasible step is no shorter than it has to be: where it is finite, some coordinate
/// has no further to go than the step takes it, to within a few roundings.
pub proof fn law_feasible_step_is_needed(
    point: Seq<Binary64>,
    ray: Seq<Binary64>,
    lower: Seq<Binary64>,
    upper: Seq<Binary64>,
)
    requires
        point.len() <= ray.len(),
        forall|i: int| 0 <= i < point.len() ==> (#[trigger] point[i]).finite(),
        forall|i: int| 0 <= i < ray.len() ==> (#[trigger] ray[i]).finite(),
        forall|i: int| 0 <= i < lower.len() ==> (#[trigger] lower[i]).finite(),
        forall|i: int| 0 <= i < upper.len() ==> (#[trigger] upper[i]).finite(),
    ensures
        ({
            let alpha = feasible_step(point, ray, lower, upper);
            &&& !alpha.nan() && number(alpha) >= 0 as real
            &&& alpha.finite() ==> exists|i: int, limit: Binary64|
                {
                    &&& 0 <= i < point.len()
                    &&& #[trigger] ahead(ray, lower, upper, i, limit)
                    &&& {
                        let c = size(number(ray[i]));
                        to_go(point, ray, i, limit) <= number(alpha) * c + (3 as real) * (
                        roundoff() * (number(alpha) * c)) + (4 as real) * (underflow() * c)
                    }
                }
        }),
{
    lemma_constants();
    lemma_small_numbers();
    let n = point.len();
    let zero = Binary64 { bits: 0 };
    let r = reach(point, ray, lower, upper, n);
    let alpha = feasible_step(point, ray, lower, upper);
    law_feasible_step_is_the_largest(point, ray, lower, upper);
    lemma_number_size(alpha);
    lemma_reach_is_a_step(point, ray, lower, upper, n);
    lemma_reach_is_the_smallest(point, ray, lower, upper, n);
    if alpha.finite() {
        assert(r != (Binary64 { bits: INFINITY }));
        let i = choose|i: int|
            {
                &&& 0 <= i < n
                &&& (#[trigger] bound_ahead(ray, lower, upper, i)) matches Some(limit) && r
                    == step_to(point, ray, limit, i)
            };
        let limit = bound_ahead(ray, lower, upper, i)->0;
        assert(ray[i].finite() && point[i].finite());
        lemma_ahead(ray, lower, upper, i);
        assert(ahead(ray, lower, upper, i, limit));
        assert(limit.finite());
        let c = number(ray[i]);
        let a = number(alpha);
        let sc = size(c);
        lemma_size_product(a, c);
        assert(a * sc >= 0 as real) by (nonlinear_arith)
            requires
                a >= 0 as real,
                sc >= 0 as real,
        ;
        lemma_times(0 as real, a * sc, roundoff());
        lemma_times(0 as real, sc, underflow());
        if r.finite() {
            law_meeting_step_meets(limit, point[i], ray[i]);
            lemma_number_order(r, zero);
            lemma_number_order(zero, r);
            let s = number(r);
            if less(zero, r) {
                assert(alpha == r);
                assert(c > 0 as real ==> a * sc == s * c);
                assert(c < 0 as real ==> a * sc == -(s * c)) by (nonlinear_arith)
                    requires
                        a == s,
                        sc == size(c),
                        c < 0 as real ==> size(c) == -c,
                ;
                assert(size(s * c) == a * sc);
            } else {
                lemma_step_back(point, ray, i, limit, s);
                assert(alpha == zero);
            }
        } else {
            lemma_number_size(ray[i]);
            assert(alpha == zero && r.negative());
            lemma_infinite_step_back(limit, point[i], ray[i]);
        }
        assert(a == 0 as real ==> a * sc == 0 as real) by (nonlinear_arith);
        assert(to_go(point, ray, i, limit) <= a * sc + (3 as real) * (roundoff() * (a * sc)) + (
        4 as real) * (underflow() * sc));
    }
}

/// A step that is not above zero takes a coordinate to a bound that it is not short of.
proof fn lemma_step_back(
    point: Seq<Binary64>,
    ray: Seq<Binary64>,
    i: int,
    limit: Binary64,
    s: real,
)
    requires
        s <= 0 as real,
        ({
            let c = number(ray[i]);
            size(number(limit) - number(point[i]) - s * c) <= (3 as real) * (roundoff() * size(s
                * c)) + (4 as real) * (underflow() * size(c))
        }),
        number(ray[i]) != 0 as real,
    ensures
        to_go(point, ray, i, limit) <= (4 as real) * (underflow() * size(number(ray[i]))),
{
    lemma_constants();
    let c = number(ray[i]);
    let u = roundoff();
    let p = s * c;
    if c > 0 as real {
        assert(p <= 0 as real) by (nonlinear_arith)
            requires
                p == s * c,
                s <= 0 as real,
                c > 0 as real,
        ;
    } else {
        assert(p >= 0 as real) by (nonlinear_arith)
            requires
                p == s * c,
                s <= 0 as real,
                c < 0 as real,
        ;
    }
    lemma_times(u, (1 as real) / (1024 as real), size(p));
}

/// The sign of a meeting step: a coordinate short of its bound meets it ahead.
proof fn lemma_meeting_sign(limit: Binary64, x: Binary64, component: Binary64)
    requires
        limit.finite(),
        x.finite(),
        component.finite(),
        !component.zero(),
        less(x, limit) || less(limit, x),
    ensures
        !meeting_step(limit, x, component).nan(),
        meeting_step(limit, x, component).negative() == (less(limit, x) != component.negative()),
{
    lemma_difference_sign(limit, x);
    let away = difference(limit, x);
    if away.finite() {
        lemma_quotient_sign(away, component);
    } else {
        let half = Binary64 { bits: HALF };
        let two = Binary64 { bits: TWO };
        let a = product(half, limit);
        let b = product(half, x);
        lemma_halved(limit, x);
        lemma_difference_sign(a, b);
        let d = difference(a, b);
        lemma_quotient_sign(d, component);
        let q = quotient(d, component);
        lemma_product_sign(two, q);
    }
}

/// A step of minus infinity takes a coordinate to a bound that it is past.
proof fn lemma_infinite_step_back(limit: Binary64, x: Binary64, component: Binary64)
    requires
        limit.finite(),
        x.finite(),
        component.finite(),
        !component.zero(),
        meeting_step(limit, x, component).negative(),
    ensures
        component.negative() ==> number(x) <= number(limit),
        !component.negative() ==> number(limit) <= number(x),
{
    lemma_number_order(x, limit);
    lemma_number_order(limit, x);
    if less(x, limit) || less(limit, x) {
        lemma_meeting_sign(limit, x, component);
    }
}

/// A meeting step that overflows is one to a bound that is very far away.
proof fn lemma_far_bound(limit: Binary64, x: Binary64, component: Binary64)
    requires
        limit.finite(),
        x.finite(),
        component.finite(),
        !component.zero(),
        !meeting_step(limit, x, component).finite(),
    ensures
        largest() * size(number(component)) <= (2 as real) * size(number(limit) - number(x)),
{
    lemma_constants();
    lemma_largest();
    lemma_small_numbers();
    let away = difference(limit, x);
    let t = number(limit) - number(x);
    let sc = size(number(component));
    let top = largest();
    let r = roundoff();
    if away.finite() {
        lemma_difference_near(limit, x);
        if size(number(away)) <= top * sc {
            lemma_quotient_finite(away, component);
        }
        lemma_times(r, (1 as real) / (1024 as real), size(number(away)));
    } else {
        let half = Binary64 { bits: HALF };
        let two = Binary64 { bits: TWO };
        let a = product(half, limit);
        let b = product(half, x);
        lemma_halved(limit, x);
        let d = difference(a, b);
        lemma_difference_near(a, b);
        let u = unit();
        let i = a.value() as real;
        let j = b.value() as real;
        assert(((2 as real) * i) * u == (2 as real) * (i * u) && ((2 as real) * j) * u == (
        2 as real) * (j * u)) by (nonlinear_arith);
        lemma_times(r, (1 as real) / (1024 as real), size(number(d)));
        let q = quotient(d, component);
        if size(number(d)) <= top * sc {
            lemma_quotient_finite(d, component);
            // Twice the quotient overflows.
            if (2 as real) * size(number(q)) <= top {
                lemma_size_product(number(two), number(q));
                lemma_product_finite(two, q);
            }
            lemma_quotient_of_difference(t / (2 as real), d, component);
            lemma_number_size(component);
            let y = size(number(q));
            lemma_size_product(number(q), number(component));
            let p = y * sc;
            lemma_times(top / (2 as real), y, sc);
            assert((top / (2 as real)) * sc == (top * sc) / (2 as real)) by (nonlinear_arith);
            assert(p >= 0 as real) by (nonlinear_arith)
                requires
                    p == y * sc,
                    y >= 0 as real,
                    sc >= 0 as real,
            ;
            lemma_times(r, (1 as real) / (1024 as real), p);
            lemma_small_underflow();
            lemma_times(underflow(), (1 as real) / (1024 as real), sc);
            lemma_times(1024 as real, top, sc);
        }
    }
}

/// The feasible step keeps every coordinate that starts within its bound there, to within
/// a few roundings; an infinite step means that every bound ahead is very far away.
pub proof fn law_feasible_step_keeps_every_coordinate(
    point: Seq<Binary64>,
    ray: Seq<Binary64>,
    lower: Seq<Binary64>,
    upper: Seq<Binary64>,
    i: int,
    limit: Binary64,
)
    requires
        0 <= i < point.len(),
        point[i].finite(),
        ray[i].finite(),
        limit.finite(),
        ahead(ray, lower, upper, i, limit),
    ensures
        ({
            let alpha = feasible_step(point, ray, lower, upper);
            let c = size(number(ray[i]));
            let go = to_go(point, ray, i, limit);
            &&& go >= 0 as real && alpha.finite() ==> number(alpha) * c <= go + (4 as real) * (
            roundoff() * go) + (6 as real) * (underflow() * c) || largest() * c <= (2 as real) * go
            &&& !alpha.finite() ==> largest() * c <= (2 as real) * go
            &&& go <= 0 as real ==> number(alpha) * c <= (6 as real) * (underflow() * c)
        }),
{
    lemma_constants();
    lemma_small_numbers();
    lemma_largest();
    let n = point.len();
    let zero = Binary64 { bits: 0 };
    let alpha = feasible_step(point, ray, lower, upper);
    law_feasible_step_is_the_largest(point, ray, lower, upper);
    lemma_reach_is_the_smallest(point, ray, lower, upper, n);
    lemma_ahead(ray, lower, upper, i);
    assert(bound_ahead(ray, lower, upper, i) == Some(limit));
    let r = reach(point, ray, lower, upper, n);
    let step = step_to(point, ray, limit, i);
    let x = point[i];
    let c = number(ray[i]);
    let sc = size(c);
    let u = roundoff();
    lemma_number_size(ray[i]);
    lemma_number_size(alpha);
    lemma_number_order(x, limit);
    lemma_number_order(limit, x);
    let go = to_go(point, ray, i, limit);
    assert(size(number(limit) - number(x)) == size(go));
    lemma_times(0 as real, sc, underflow());
    if !step.finite() {
        lemma_far_bound(limit, x, ray[i]);
        if less(x, limit) || less(limit, x) {
            lemma_meeting_sign(limit, x, ray[i]);
        } else {
            lemma_times(1024 as real, largest(), sc);
        }
        assert((0 as real) * sc == 0 as real) by (nonlinear_arith);
        if go <= 0 as real {
            assert(step.negative());
            assert(alpha == zero);
        }
    } else {
        law_meeting_step_meets(limit, x, ray[i]);
        let s = number(step);
        lemma_number_order(step, zero);
        lemma_number_order(zero, step);
        if alpha.finite() && s > 0 as real {
            lemma_number_order(alpha, step);
            let p = s * sc;
            assert(c > 0 as real ==> p == s * c);
            assert(c < 0 as real ==> p == -(s * c)) by (nonlinear_arith)
                requires
                    p == s * sc,
                    c < 0 as real ==> sc == -c,
            ;
            lemma_times(0 as real, s, sc);
            lemma_times(number(alpha), s, sc);
            let e = underflow() * sc;
            let up = u * p;
            lemma_times(0 as real, p, u);
            lemma_times(u, (1 as real) / (1024 as real), p);
            lemma_times(p, go + (3 as real) * up + (4 as real) * e, u);
            assert(u * (go + (3 as real) * up + (4 as real) * e) == u * go + (3 as real) * (u * up)
                + (4 as real) * (u * e)) by (nonlinear_arith);
            lemma_times(u, (1 as real) / (1024 as real), up);
            lemma_times(u, (1 as real) / (1024 as real), e);
            if go <= 0 as real {
                lemma_times(go, 0 as real, u);
            }
        } else {
            assert((0 as real) * sc == 0 as real) by (nonlinear_arith);
            assert(alpha.finite());
            assert(number(alpha) == 0 as real);
            lemma_times(0 as real, size(go), u);
        }
    }
}

} // verus!
