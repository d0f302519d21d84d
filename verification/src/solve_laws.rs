//! How close the rounded solves and the rounded dot product stay to the real ones.

use crate::binary64::{product, quotient, sum, Binary64, HALF};
use crate::cholesky::{
    backward, backward_rest, dot_product, factor, factors, forward, forward_rest, lane, lanes,
    pivot, solution, tail, usable,
};
use crate::exact::total;
use crate::exact_laws::{lemma_total_nothing, lemma_total_same};
use crate::factor_laws::side;
use crate::nearness::{
    lemma_difference_near, lemma_number_order, lemma_product_finite, lemma_product_near,
    lemma_quotient_near, lemma_sum_near, number, roundoff, size, slack,
};
use crate::prediction_laws::{lemma_largest, lemma_small_numbers};
use crate::second_order::{inverse_form, shifted_decrease};
use crate::shift_laws::lemma_scaled_pivot;
use vstd::prelude::*;

verus! {

/// The product of two entries, as a real number.
pub open spec fn term(x: Seq<Binary64>, y: Seq<Binary64>, i: int) -> real {
    number(x[i]) * number(y[i])
}

/// What the roundings of a lane can amount to.
pub open spec fn lane_slack(x: Seq<Binary64>, y: Seq<Binary64>, p: int, blocks: nat) -> real
    decreases blocks,
{
    if blocks == 0 {
        0 as real
    } else {
        let b = (blocks - 1) as nat;
        lane_slack(x, y, p, b) + roundoff() * size(number(lane(x, y, p, blocks))) + slack(
            product(x[8 * b + p], y[8 * b + p]),
        )
    }
}

/// The real sum that a lane takes.
pub open spec fn lane_sum(x: Seq<Binary64>, y: Seq<Binary64>, p: int, blocks: nat) -> real
    decreases blocks,
{
    if blocks == 0 {
        0 as real
    } else {
        let b = (blocks - 1) as nat;
        lane_sum(x, y, p, b) + term(x, y, 8 * b + p)
    }
}

/// A finite lane is near the sum of its terms, every one of them finite.
proof fn lemma_lane(x: Seq<Binary64>, y: Seq<Binary64>, p: int, blocks: nat)
    requires
        lane(x, y, p, blocks).finite(),
    ensures
        size(lane_sum(x, y, p, blocks) - number(lane(x, y, p, blocks))) <= lane_slack(
            x,
            y,
            p,
            blocks,
        ),
        forall|b: int| 0 <= b < blocks ==> (#[trigger] y[8 * b + p]).finite(),
    decreases blocks,
{
    lemma_small_numbers();
    if 0 < blocks {
        let b = (blocks - 1) as nat;
        let q = product(x[8 * b + p], y[8 * b + p]);
        lemma_sum_near(lane(x, y, p, b), q);
        lemma_product_near(x[8 * b + p], y[8 * b + p]);
        lemma_lane(x, y, p, b);
        assert forall|c: int| 0 <= c < blocks implies (#[trigger] y[8 * c + p]).finite() by {
            if c == b {
                assert(y[8 * c + p] == y[8 * b + p]);
            }
        }
    }
}

/// The sum of a pair of lanes.
pub open spec fn lane_pair(x: Seq<Binary64>, y: Seq<Binary64>, p: int, blocks: nat) -> Binary64 {
    sum(lane(x, y, p, blocks), lane(x, y, p + 4, blocks))
}

/// What the roundings of all the lanes can amount to.
pub open spec fn lanes_slack(x: Seq<Binary64>, y: Seq<Binary64>, blocks: nat) -> real {
    let u = roundoff();
    let zero = Binary64 { bits: 0 };
    let a = sum(zero, lane_pair(x, y, 0, blocks));
    let b = sum(a, lane_pair(x, y, 1, blocks));
    let c = sum(b, lane_pair(x, y, 2, blocks));
    let d = sum(c, lane_pair(x, y, 3, blocks));
    total(|p: int| lane_slack(x, y, p, blocks), 8) + total(
        |p: int| u * size(number(lane_pair(x, y, p, blocks))),
        4,
    ) + u * size(number(a)) + u * size(number(b)) + u * size(number(c)) + u * size(number(d))
}

proof fn lemma_eight(f: spec_fn(int) -> real)
    ensures
        total(f, 8) == f(0) + f(1) + f(2) + f(3) + f(4) + f(5) + f(6) + f(7),
        total(f, 4) == f(0) + f(1) + f(2) + f(3),
{
    reveal_with_fuel(total, 9);
}

proof fn lemma_pair(x: Seq<Binary64>, y: Seq<Binary64>, p: int, blocks: nat)
    requires
        lane_pair(x, y, p, blocks).finite(),
    ensures
        size(
            lane_sum(x, y, p, blocks) + lane_sum(x, y, p + 4, blocks) - number(
                lane_pair(x, y, p, blocks),
            ),
        ) <= lane_slack(x, y, p, blocks) + lane_slack(x, y, p + 4, blocks) + roundoff() * size(
            number(lane_pair(x, y, p, blocks)),
        ),
        forall|b: int| 0 <= b < blocks ==> (#[trigger] y[8 * b + p]).finite(),
        forall|b: int| 0 <= b < blocks ==> (#[trigger] y[8 * b + (p + 4)]).finite(),
{
    lemma_sum_near(lane(x, y, p, blocks), lane(x, y, p + 4, blocks));
    lemma_lane(x, y, p, blocks);
    lemma_lane(x, y, p + 4, blocks);
}

/// Finite lanes are near the sum of their terms.
proof fn lemma_lanes(x: Seq<Binary64>, y: Seq<Binary64>, blocks: nat)
    requires
        lanes(x, y, blocks).finite(),
    ensures
        size(total(|i: int| term(x, y, i), (8 * blocks) as nat) - number(lanes(x, y, blocks)))
            <= lanes_slack(x, y, blocks),
        forall|i: int| 0 <= i < 8 * blocks ==> (#[trigger] y[i]).finite(),
{
    lemma_small_numbers();
    let zero = Binary64 { bits: 0 };
    let p0 = lane_pair(x, y, 0, blocks);
    let p1 = lane_pair(x, y, 1, blocks);
    let p2 = lane_pair(x, y, 2, blocks);
    let p3 = lane_pair(x, y, 3, blocks);
    let a = sum(zero, p0);
    let b = sum(a, p1);
    let c = sum(b, p2);
    let d = sum(c, p3);
    assert(lanes(x, y, blocks) == d);
    lemma_sum_near(c, p3);
    lemma_sum_near(b, p2);
    lemma_sum_near(a, p1);
    lemma_sum_near(zero, p0);
    lemma_pair(x, y, 0, blocks);
    lemma_pair(x, y, 1, blocks);
    lemma_pair(x, y, 2, blocks);
    lemma_pair(x, y, 3, blocks);
    lemma_eight(|p: int| lane_slack(x, y, p, blocks));
    lemma_eight(|p: int| roundoff() * size(number(lane_pair(x, y, p, blocks))));
    lemma_lane_sums(x, y, blocks);
    assert forall|i: int| 0 <= i < 8 * blocks implies (#[trigger] y[i]).finite() by {
        let q = i / 8;
        let r = i % 8;
        assert(i == 8 * q + r);
        if r < 4 {
            assert(y[8 * q + r].finite());
        } else {
            assert(y[8 * q + ((r - 4) + 4)].finite());
        }
    }
}

/// The eight lanes take every term once.
proof fn lemma_lane_sums(x: Seq<Binary64>, y: Seq<Binary64>, blocks: nat)
    ensures
        total(|i: int| term(x, y, i), (8 * blocks) as nat) == lane_sum(x, y, 0, blocks) + lane_sum(
            x,
            y,
            1,
            blocks,
        ) + lane_sum(x, y, 2, blocks) + lane_sum(x, y, 3, blocks) + lane_sum(x, y, 4, blocks)
            + lane_sum(x, y, 5, blocks) + lane_sum(x, y, 6, blocks) + lane_sum(x, y, 7, blocks),
    decreases blocks,
{
    let f = |i: int| term(x, y, i);
    if 0 < blocks {
        let b = (blocks - 1) as nat;
        lemma_lane_sums(x, y, b);
        lemma_eight_more(f, 8 * b);
    }
}

proof fn lemma_eight_more(f: spec_fn(int) -> real, k: nat)
    ensures
        ({
            let i = k as int;
            total(f, k + 8) == total(f, k) + f(i) + f(i + 1) + f(i + 2) + f(i + 3) + f(i + 4) + f(
                i + 5,
            ) + f(i + 6) + f(i + 7)
        }),
{
    let i = k as int;
    assert(total(f, k + 8) == total(f, k + 7) + f(i + 7));
    assert(total(f, k + 7) == total(f, k + 6) + f(i + 6));
    assert(total(f, k + 6) == total(f, k + 5) + f(i + 5));
    assert(total(f, k + 5) == total(f, k + 4) + f(i + 4));
    assert(total(f, k + 4) == total(f, k + 3) + f(i + 3));
    assert(total(f, k + 3) == total(f, k + 2) + f(i + 2));
    assert(total(f, k + 2) == total(f, k + 1) + f(i + 1));
    assert(total(f, k + 1) == total(f, k) + f(i));
}

/// What the roundings after the lanes can amount to.
pub open spec fn tail_slack(
    x: Seq<Binary64>,
    y: Seq<Binary64>,
    start: Binary64,
    from: int,
    upto: int,
) -> real
    decreases upto - from,
{
    if upto <= from {
        0 as real
    } else {
        tail_slack(x, y, start, from, upto - 1) + roundoff() * size(
            number(tail(x, y, start, from, upto)),
        ) + slack(product(x[upto - 1], y[upto - 1]))
    }
}

proof fn lemma_tail(
    x: Seq<Binary64>,
    y: Seq<Binary64>,
    start: Binary64,
    from: nat,
    upto: nat,
)
    requires
        from <= upto,
        tail(x, y, start, from as int, upto as int).finite(),
    ensures
        start.finite(),
        size(
            number(start) + total(|i: int| term(x, y, i), upto) - total(
                |i: int| term(x, y, i),
                from,
            ) - number(tail(x, y, start, from as int, upto as int)),
        ) <= tail_slack(x, y, start, from as int, upto as int),
        forall|i: int| from <= i < upto ==> (#[trigger] y[i]).finite(),
    decreases upto - from,
{
    if from < upto {
        let k = (upto - 1) as nat;
        let q = product(x[k as int], y[k as int]);
        lemma_sum_near(tail(x, y, start, from as int, k as int), q);
        lemma_product_near(x[k as int], y[k as int]);
        lemma_tail(x, y, start, from, k);
        let f = |i: int| term(x, y, i);
        assert(total(f, upto) == total(f, k) + f(k as int));
    }
}

/// What the roundings of a dot product can amount to: one for each product and each
/// addition, each relative to what it gives.
pub open spec fn dot_slack(x: Seq<Binary64>, y: Seq<Binary64>) -> real {
    let blocks = (x.len() / 8) as nat;
    lanes_slack(x, y, blocks) + tail_slack(
        x,
        y,
        lanes(x, y, blocks),
        (8 * blocks) as int,
        x.len() as int,
    )
}

/// A finite dot product is the sum of the products of the entries, over real numbers and
/// up to its roundings: every entry is in it once.
pub proof fn law_dot_product_is_near(x: Seq<Binary64>, y: Seq<Binary64>)
    requires
        dot_product(x, y).finite(),
    ensures
        size(total(|i: int| term(x, y, i), x.len()) - number(dot_product(x, y))) <= dot_slack(x, y),
        forall|i: int| 0 <= i < x.len() ==> (#[trigger] y[i]).finite(),
{
    let blocks = (x.len() / 8) as nat;
    lemma_tail(x, y, lanes(x, y, blocks), (8 * blocks) as nat, x.len());
    lemma_lanes(x, y, blocks);
}

/// What the roundings of row `j` of the forward solve can amount to.
pub open spec fn forward_slack(
    h: Seq<Seq<Binary64>>,
    shift: Binary64,
    g: Seq<Binary64>,
    j: nat,
    k: nat,
) -> real
    decreases k,
{
    if k == 0 {
        0 as real
    } else {
        let c = (k - 1) as nat;
        forward_slack(h, shift, g, j, c) + roundoff() * size(
            number(forward_rest(h, shift, g, j as int, k)),
        ) + slack(product(factor(h, shift, j as int, c), forward(h, shift, g, c)))
    }
}

proof fn lemma_forward_rest(
    h: Seq<Seq<Binary64>>,
    shift: Binary64,
    g: Seq<Binary64>,
    j: nat,
    k: nat,
)
    requires
        k <= j,
        forward_rest(h, shift, g, j as int, k).finite(),
    ensures
        size(
            number(g[j as int]) - total(
                |c: int| side(h, shift, j as int, c) * number(forward(h, shift, g, c as nat)),
                k,
            ) - number(forward_rest(h, shift, g, j as int, k)),
        ) <= forward_slack(h, shift, g, j, k),
        forall|c: nat| c < k ==> (#[trigger] forward(h, shift, g, c)).finite(),
    decreases k,
{
    let f = |c: int| side(h, shift, j as int, c) * number(forward(h, shift, g, c as nat));
    if 0 < k {
        let b = (k - 1) as nat;
        let q = product(factor(h, shift, j as int, b), forward(h, shift, g, b));
        lemma_difference_near(forward_rest(h, shift, g, j as int, b), q);
        lemma_product_near(factor(h, shift, j as int, b), forward(h, shift, g, b));
        lemma_forward_rest(h, shift, g, j, b);
        assert(total(f, k) == total(f, b) + f(b as int));
    }
}

/// A quotient that is finite by a divisor that is, and is not zero, has a finite dividend.
proof fn lemma_finite_dividend(a: Binary64, b: Binary64)
    requires
        quotient(a, b).finite(),
        b.finite(),
        !b.zero(),
    ensures
        a.finite(),
{
    reveal(quotient);
}

/// The forward solve solves: row `j` of the rounded factor times the rounded solution is
/// the entry `j` of the right-hand side, over real numbers and up to the roundings.
pub proof fn law_forward_solve_is_near(
    h: Seq<Seq<Binary64>>,
    shift: Binary64,
    g: Seq<Binary64>,
    j: nat,
)
    requires
        usable(pivot(h, shift, j)),
        forward(h, shift, g, j).finite(),
    ensures
        size(
            number(g[j as int]) - total(
                |c: int| side(h, shift, j as int, c) * number(forward(h, shift, g, c as nat)),
                j + 1,
            ),
        ) <= forward_slack(h, shift, g, j, j) + slack(forward(h, shift, g, j)) * size(
            side(h, shift, j as int, j as int),
        ),
        forall|c: nat| c < j ==> (#[trigger] forward(h, shift, g, c)).finite(),
{
    let p = pivot(h, shift, j);
    lemma_scaled_pivot(p);
    let d = factor(h, shift, j as int, j);
    let r = forward_rest(h, shift, g, j as int, j);
    lemma_finite_dividend(r, d);
    lemma_quotient_near(r, d);
    lemma_forward_rest(h, shift, g, j, j);
    let f = |c: int| side(h, shift, j as int, c) * number(forward(h, shift, g, c as nat));
    assert(total(f, j + 1) == total(f, j) + f(j as int));
    let a = number(forward(h, shift, g, j));
    let b = number(d);
    assert(a * b == b * a) by (nonlinear_arith);
}

/// What the roundings of row `j` of the backward solve can amount to.
pub open spec fn backward_slack(
    h: Seq<Seq<Binary64>>,
    shift: Binary64,
    g: Seq<Binary64>,
    n: nat,
    j: nat,
    k: nat,
) -> real
    decreases k,
{
    if k <= j + 1 {
        0 as real
    } else {
        let r = (k - 1) as nat;
        backward_slack(h, shift, g, n, j, r) + roundoff() * size(
            number(backward_rest(h, shift, g, n, j, k)),
        ) + slack(product(factor(h, shift, r as int, j), backward(h, shift, g, n, r)))
    }
}

proof fn lemma_backward_rest(
    h: Seq<Seq<Binary64>>,
    shift: Binary64,
    g: Seq<Binary64>,
    n: nat,
    j: nat,
    k: nat,
)
    requires
        j + 1 <= k <= n,
        backward_rest(h, shift, g, n, j, k).finite(),
    ensures
        ({
            let f = |c: int|
                side(h, shift, c, j as int) * number(backward(h, shift, g, n, c as nat));
            size(
                number(forward(h, shift, g, j)) - (total(f, k) - total(f, j + 1)) - number(
                    backward_rest(h, shift, g, n, j, k),
                ),
            ) <= backward_slack(h, shift, g, n, j, k)
        }),
        forward(h, shift, g, j).finite(),
        forall|c: nat| j < c < k ==> (#[trigger] backward(h, shift, g, n, c)).finite(),
    decreases k,
{
    let f = |c: int| side(h, shift, c, j as int) * number(backward(h, shift, g, n, c as nat));
    if j + 1 < k {
        let b = (k - 1) as nat;
        let q = product(factor(h, shift, b as int, j), backward(h, shift, g, n, b));
        lemma_difference_near(backward_rest(h, shift, g, n, j, b), q);
        lemma_product_near(factor(h, shift, b as int, j), backward(h, shift, g, n, b));
        lemma_backward_rest(h, shift, g, n, j, b);
        assert(total(f, k) == total(f, b) + f(b as int));
    }
}

/// The backward solve solves: column `j` of the rounded factor, from its pivot down, times
/// the rounded solution is the entry `j` of the forward solution, over real numbers and up
/// to the roundings.
pub proof fn law_backward_solve_is_near(
    h: Seq<Seq<Binary64>>,
    shift: Binary64,
    g: Seq<Binary64>,
    n: nat,
    j: nat,
)
    requires
        j < n,
        usable(pivot(h, shift, j)),
        backward(h, shift, g, n, j).finite(),
    ensures
        ({
            let f = |c: int|
                side(h, shift, c, j as int) * number(backward(h, shift, g, n, c as nat));
            size(number(forward(h, shift, g, j)) - total(f, n)) <= backward_slack(
                h,
                shift,
                g,
                n,
                j,
                n,
            ) + slack(backward(h, shift, g, n, j)) * size(side(h, shift, j as int, j as int))
        }),
        forward(h, shift, g, j).finite(),
        forall|c: nat| j < c < n ==> (#[trigger] backward(h, shift, g, n, c)).finite(),
{
    let p = pivot(h, shift, j);
    lemma_scaled_pivot(p);
    let d = factor(h, shift, j as int, j);
    let r = backward_rest(h, shift, g, n, j, n);
    lemma_finite_dividend(r, d);
    lemma_quotient_near(r, d);
    lemma_backward_rest(h, shift, g, n, j, n);
    let f = |c: int| side(h, shift, c, j as int) * number(backward(h, shift, g, n, c as nat));
    assert(total(f, j + 1) == total(f, j) + f(j as int));
    // Above its pivot the column is empty.
    assert forall|c: int| 0 <= c < j implies #[trigger] f(c) == 0 as real by {
        let x = number(backward(h, shift, g, n, c as nat));
        assert((0 as real) * x == 0 as real) by (nonlinear_arith);
    }
    lemma_total_nothing(f, j);
    let a = number(backward(h, shift, g, n, j));
    let b = number(d);
    assert(a * b == b * a) by (nonlinear_arith);
}

/// A Newton decrement is half of the gradient times the solution, up to roundings, where
/// the solution solves through the factor: with `L y = g` and `L' d = y`, row by row and up
/// to roundings, every number on the way being finite.
pub proof fn law_decrement_is_half_the_form(
    h: Seq<Seq<Binary64>>,
    g: Seq<Binary64>,
    shift: Binary64,
    j: nat,
)
    requires
        h.len() == g.len(),
        shifted_decrease(h, g, shift) is Some,
        j < g.len(),
    ensures
        ({
            let n = g.len();
            let d = solution(h, shift, g);
            let value = shifted_decrease(h, g, shift)->0;
            let form = dot_product(g, d);
            &&& form.finite() && number(form) >= 0 as real
            &&& value.finite() && size(number(form) / (2 as real) - number(value)) <= slack(value)
            &&& size(total(|i: int| term(g, d, i), n) - number(form)) <= dot_slack(g, d)
            &&& size(
                number(forward(h, shift, g, j)) - total(
                    |c: int| side(h, shift, c, j as int) * number(d[c]),
                    n,
                ),
            ) <= backward_slack(h, shift, g, n, j, n) + slack(d[j as int]) * size(
                side(h, shift, j as int, j as int),
            )
            &&& size(
                number(g[j as int]) - total(
                    |c: int| side(h, shift, j as int, c) * number(forward(h, shift, g, c as nat)),
                    j + 1,
                ),
            ) <= forward_slack(h, shift, g, j, j) + slack(forward(h, shift, g, j)) * size(
                side(h, shift, j as int, j as int),
            )
            &&& factors(h, shift, n)
        }),
{
    lemma_small_numbers();
    lemma_largest();
    let n = g.len();
    let d = solution(h, shift, g);
    let form = dot_product(g, d);
    let half = Binary64 { bits: HALF };
    let zero = Binary64 { bits: 0 };
    assert(form == inverse_form(h, g, shift));
    lemma_number_order(form, zero);
    law_dot_product_is_near(g, d);
    assert(d[j as int].finite());
    assert(usable(pivot(h, shift, j)));
    law_backward_solve_is_near(h, shift, g, n, j);
    let f = |c: int| side(h, shift, c, j as int) * number(backward(h, shift, g, n, c as nat));
    lemma_total_same(f, |c: int| side(h, shift, c, j as int) * number(d[c]), n);
    law_forward_solve_is_near(h, shift, g, j);
    assert(number(half) * number(form) == number(form) / (2 as real)) by (nonlinear_arith)
        requires
            number(half) == (1 as real) / (2 as real),
    ;
    lemma_product_finite(half, form);
    lemma_product_near(half, form);
}

} // verus!
