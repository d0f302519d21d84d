//! What the Newton decrement depends on, and how it moves with the shift.

use crate::binary64::{difference, lemma_product_sign, negated, product, quotient, sum, Binary64};
use crate::cholesky::{
    backward, backward_rest, dot_product, factor, factors, forward, forward_rest, lane, lanes,
    pivot, reduced, solution, tail, usable,
};
use crate::order::lemma_pattern_magnitude;
use crate::rounding::{
    lemma_magnitude_of_parts, lemma_magnitude_zero, lemma_nearest_exists, lemma_round_grid_point,
    lemma_round_ratio_ordered, magnitude, round_ratio,
};
use crate::second_order::shifted_decrease;
use vstd::arithmetic::power2::{lemma2_to64, lemma_pow2_pos, pow2};
use vstd::prelude::*;

verus! {

/// Whether two matrices agree on and below the diagonal.
pub open spec fn same_lower(h: Seq<Seq<Binary64>>, k: Seq<Seq<Binary64>>) -> bool {
    &&& h.len() == k.len()
    &&& forall|i: int, j: int| 0 <= j <= i < h.len() ==> #[trigger] h[i][j] == k[i][j]
}

proof fn lemma_same_reduced(
    h: Seq<Seq<Binary64>>,
    k: Seq<Seq<Binary64>>,
    shift: Binary64,
    i: int,
    j: int,
    c: nat,
)
    requires
        same_lower(h, k),
        c <= j <= i < h.len(),
    ensures
        reduced(h, shift, i, j, c) == reduced(k, shift, i, j, c),
    decreases c, 0int,
{
    if 0 < c {
        let b = (c - 1) as nat;
        lemma_same_reduced(h, k, shift, i, j, b);
        lemma_same_factor(h, k, shift, i, b);
        lemma_same_factor(h, k, shift, j, b);
    }
}

proof fn lemma_same_factor(
    h: Seq<Seq<Binary64>>,
    k: Seq<Seq<Binary64>>,
    shift: Binary64,
    i: int,
    j: nat,
)
    requires
        same_lower(h, k),
        j <= i < h.len(),
    ensures
        factor(h, shift, i, j) == factor(k, shift, i, j),
    decreases j, 1int,
{
    lemma_same_reduced(h, k, shift, i, j as int, j);
    lemma_same_reduced(h, k, shift, j as int, j as int, j);
}

proof fn lemma_same_forward(
    h: Seq<Seq<Binary64>>,
    k: Seq<Seq<Binary64>>,
    shift: Binary64,
    g: Seq<Binary64>,
    j: nat,
    c: nat,
)
    requires
        same_lower(h, k),
        c <= j < h.len(),
    ensures
        forward_rest(h, shift, g, j as int, c) == forward_rest(k, shift, g, j as int, c),
        c == j ==> forward(h, shift, g, j) == forward(k, shift, g, j),
    decreases j, c,
{
    if 0 < c {
        let b = (c - 1) as nat;
        lemma_same_forward(h, k, shift, g, j, b);
        lemma_same_forward(h, k, shift, g, b, b);
        lemma_same_factor(h, k, shift, j as int, b);
    }
    lemma_same_factor(h, k, shift, j as int, j);
}

proof fn lemma_same_backward(
    h: Seq<Seq<Binary64>>,
    k: Seq<Seq<Binary64>>,
    shift: Binary64,
    g: Seq<Binary64>,
    j: nat,
    c: nat,
)
    requires
        same_lower(h, k),
        j < h.len(),
        c <= h.len(),
    ensures
        backward_rest(h, shift, g, h.len(), j, c) == backward_rest(k, shift, g, h.len(), j, c),
        c == h.len() ==> backward(h, shift, g, h.len(), j) == backward(k, shift, g, h.len(), j),
    decreases h.len() - j, c,
{
    lemma_same_forward(h, k, shift, g, j, j);
    if j + 1 < c {
        let b = (c - 1) as nat;
        lemma_same_backward(h, k, shift, g, j, b);
        lemma_same_backward(h, k, shift, g, b, h.len());
        lemma_same_factor(h, k, shift, b as int, j);
    }
    lemma_same_factor(h, k, shift, j as int, j);
}

/// The decrement reads only the lower triangle of the matrix.
pub proof fn law_decrement_reads_the_lower_triangle(
    h: Seq<Seq<Binary64>>,
    k: Seq<Seq<Binary64>>,
    g: Seq<Binary64>,
    shift: Binary64,
)
    requires
        same_lower(h, k),
        g.len() == h.len(),
    ensures
        factors(h, shift, h.len()) == factors(k, shift, h.len()),
        shifted_decrease(h, g, shift) == shifted_decrease(k, g, shift),
{
    assert forall|j: nat| j < h.len() implies #[trigger] pivot(h, shift, j) == pivot(
        k,
        shift,
        j,
    ) by {
        lemma_same_reduced(h, k, shift, j as int, j as int, j);
    }
    assert(factors(h, shift, h.len()) == factors(k, shift, h.len())) by {
        if factors(k, shift, h.len()) {
            assert forall|j: nat| j < h.len() implies usable(#[trigger] pivot(h, shift, j)) by {
                assert(usable(pivot(k, shift, j)));
            }
        }
        if factors(h, shift, h.len()) {
            assert forall|j: nat| j < h.len() implies usable(#[trigger] pivot(k, shift, j)) by {
                assert(usable(pivot(h, shift, j)));
            }
        }
    }
    assert(solution(h, shift, g) =~= solution(k, shift, g)) by {
        assert forall|j: int| 0 <= j < g.len() implies #[trigger] solution(h, shift, g)[j]
            == solution(k, shift, g)[j] by {
            lemma_same_backward(h, k, shift, g, j as nat, h.len());
        }
    }
}

/// Whether two numbers are the same up to the sign of a zero, or, with `flip`, each
/// other's opposite.
pub open spec fn mirrored(flip: bool, x: Binary64, y: Binary64) -> bool {
    ||| x.nan() && y.nan()
    ||| {
        &&& !x.nan()
        &&& x.pattern() == y.pattern()
        &&& x.zero() || (x.negative() != y.negative()) == flip
    }
}

/// Sums of mirrored numbers are mirrored.
pub proof fn lemma_mirrored_sum(flip: bool, a: Binary64, b: Binary64, c: Binary64, d: Binary64)
    requires
        mirrored(flip, a, b),
        mirrored(flip, c, d),
    ensures
        mirrored(flip, sum(a, c), sum(b, d)),
{
    reveal(sum);
    lemma_magnitude_zero();
    if a.finite() && c.finite() {
        let exact = a.value() + c.value();
        assert(b.value() + d.value() == if flip {
            -exact
        } else {
            exact
        });
        if exact < 0 {
            lemma_nearest_exists(-exact, 1);
        } else {
            lemma_nearest_exists(exact, 1);
        }
    }
}

/// Differences of mirrored numbers are mirrored.
pub proof fn lemma_mirrored_difference(
    flip: bool,
    a: Binary64,
    b: Binary64,
    c: Binary64,
    d: Binary64,
)
    requires
        mirrored(flip, a, b),
        mirrored(flip, c, d),
    ensures
        mirrored(flip, difference(a, c), difference(b, d)),
{
    lemma_mirrored_sum(flip, a, b, negated(c), negated(d));
}

/// Products of mirrored numbers are mirrored.
pub proof fn lemma_mirrored_product(
    flip: bool,
    other: bool,
    a: Binary64,
    b: Binary64,
    c: Binary64,
    d: Binary64,
)
    requires
        mirrored(flip, a, b),
        mirrored(other, c, d),
    ensures
        mirrored(flip != other, product(a, c), product(b, d)),
{
    lemma_product_sign(a, c);
    lemma_product_sign(b, d);
    reveal(product);
    if a.finite() && c.finite() {
        let x = a.magnitude();
        let y = c.magnitude();
        lemma_pattern_magnitude(a, a);
        lemma_pattern_magnitude(c, c);
        lemma_pow2_pos(1074);
        assert(0 <= x * y && (x == 0 || y == 0 ==> x * y == 0)) by (nonlinear_arith)
            requires
                0 <= x,
                0 <= y,
        ;
        let unit = pow2(1074) as int;
        lemma_nearest_exists(x * y, unit);
        if x * y == 0 {
            lemma_round_nothing(unit);
        }
    }
}

/// Nothing rounds to nothing.
pub proof fn lemma_round_nothing(q: int)
    requires
        0 < q,
    ensures
        round_ratio(0, q) == 0,
{
    lemma_magnitude_zero();
    lemma_round_grid_point(0);
    assert(0 * q == 0) by (nonlinear_arith);
    lemma_round_ratio_ordered(0, q, 0, 1);
}

/// Mirrored numbers have mirrored quotients by one divisor.
pub proof fn lemma_mirrored_quotient(flip: bool, a: Binary64, b: Binary64, l: Binary64)
    requires
        mirrored(flip, a, b),
    ensures
        mirrored(flip, quotient(a, l), quotient(b, l)),
{
    reveal(quotient);
    if a.finite() && l.finite() && !l.zero() {
        let x = a.magnitude();
        let unit = pow2(1074) as int;
        lemma_pattern_magnitude(a, a);
        lemma_pattern_magnitude(l, l);
        lemma_pow2_pos(1074);
        assert(0 <= x * unit && (x == 0 ==> x * unit == 0)) by (nonlinear_arith)
            requires
                0 <= x,
                0 < unit,
        ;
        lemma_nearest_exists(x * unit, l.magnitude());
        if x == 0 {
            lemma_round_nothing(l.magnitude());
        }
    }
}

/// Whether two gradients are each other's opposite, entry by entry.
pub open spec fn opposite(g: Seq<Binary64>, k: Seq<Binary64>) -> bool {
    &&& g.len() == k.len()
    &&& forall|i: int| 0 <= i < g.len() ==> #[trigger] k[i] == negated(g[i])
}

proof fn lemma_mirrored_forward(
    h: Seq<Seq<Binary64>>,
    shift: Binary64,
    g: Seq<Binary64>,
    k: Seq<Binary64>,
    j: nat,
    c: nat,
)
    requires
        opposite(g, k),
        c <= j < g.len(),
    ensures
        mirrored(
            true,
            forward_rest(h, shift, g, j as int, c),
            forward_rest(h, shift, k, j as int, c),
        ),
        c == j ==> mirrored(true, forward(h, shift, g, j), forward(h, shift, k, j)),
    decreases j, c,
{
    assert(k[j as int] == negated(g[j as int]));
    if 0 < c {
        let b = (c - 1) as nat;
        let f = factor(h, shift, j as int, b);
        lemma_mirrored_forward(h, shift, g, k, j, b);
        lemma_mirrored_forward(h, shift, g, k, b, b);
        lemma_mirrored_product(false, true, f, f, forward(h, shift, g, b), forward(h, shift, k, b));
        lemma_mirrored_difference(
            true,
            forward_rest(h, shift, g, j as int, b),
            forward_rest(h, shift, k, j as int, b),
            product(f, forward(h, shift, g, b)),
            product(f, forward(h, shift, k, b)),
        );
    }
    lemma_mirrored_quotient(
        true,
        forward_rest(h, shift, g, j as int, c),
        forward_rest(h, shift, k, j as int, c),
        factor(h, shift, j as int, j),
    );
}

proof fn lemma_mirrored_backward(
    h: Seq<Seq<Binary64>>,
    shift: Binary64,
    g: Seq<Binary64>,
    k: Seq<Binary64>,
    j: nat,
    c: nat,
)
    requires
        opposite(g, k),
        j < g.len(),
        c <= g.len(),
    ensures
        mirrored(
            true,
            backward_rest(h, shift, g, g.len(), j, c),
            backward_rest(h, shift, k, g.len(), j, c),
        ),
        c == g.len() ==> mirrored(
            true,
            backward(h, shift, g, g.len(), j),
            backward(h, shift, k, g.len(), j),
        ),
    decreases g.len() - j, c,
{
    let n = g.len();
    lemma_mirrored_forward(h, shift, g, k, j, j);
    if j + 1 < c {
        let b = (c - 1) as nat;
        let f = factor(h, shift, b as int, j);
        lemma_mirrored_backward(h, shift, g, k, j, b);
        lemma_mirrored_backward(h, shift, g, k, b, n);
        lemma_mirrored_product(
            false,
            true,
            f,
            f,
            backward(h, shift, g, n, b),
            backward(h, shift, k, n, b),
        );
        lemma_mirrored_difference(
            true,
            backward_rest(h, shift, g, n, j, b),
            backward_rest(h, shift, k, n, j, b),
            product(f, backward(h, shift, g, n, b)),
            product(f, backward(h, shift, k, n, b)),
        );
    }
    lemma_mirrored_quotient(
        true,
        backward_rest(h, shift, g, n, j, c),
        backward_rest(h, shift, k, n, j, c),
        factor(h, shift, j as int, j),
    );
}

/// Whether the products of two pairs of vectors are the same, up to the signs of zeros.
spec fn same_terms(
    x: Seq<Binary64>,
    y: Seq<Binary64>,
    v: Seq<Binary64>,
    w: Seq<Binary64>,
) -> bool {
    forall|i: int|
        0 <= i < x.len() ==> mirrored(false, #[trigger] product(x[i], y[i]), product(v[i], w[i]))
}

proof fn lemma_same_lane(
    x: Seq<Binary64>,
    y: Seq<Binary64>,
    v: Seq<Binary64>,
    w: Seq<Binary64>,
    p: int,
    blocks: nat,
)
    requires
        same_terms(x, y, v, w),
        0 <= p < 8,
        8 * blocks <= x.len(),
    ensures
        mirrored(false, lane(x, y, p, blocks), lane(v, w, p, blocks)),
    decreases blocks,
{
    if 0 < blocks {
        let b = (blocks - 1) as nat;
        let i = 8 * b + p;
        lemma_same_lane(x, y, v, w, p, b);
        assert(mirrored(false, product(x[i], y[i]), product(v[i], w[i])));
        lemma_mirrored_sum(
            false,
            lane(x, y, p, b),
            lane(v, w, p, b),
            product(x[i], y[i]),
            product(v[i], w[i]),
        );
    }
}

proof fn lemma_same_tail(
    x: Seq<Binary64>,
    y: Seq<Binary64>,
    v: Seq<Binary64>,
    w: Seq<Binary64>,
    start: Binary64,
    other: Binary64,
    from: int,
    upto: int,
)
    requires
        same_terms(x, y, v, w),
        mirrored(false, start, other),
        0 <= from,
        upto <= x.len(),
    ensures
        mirrored(false, tail(x, y, start, from, upto), tail(v, w, other, from, upto)),
    decreases upto - from,
{
    if from < upto {
        let i = upto - 1;
        lemma_same_tail(x, y, v, w, start, other, from, i);
        assert(mirrored(false, product(x[i], y[i]), product(v[i], w[i])));
        lemma_mirrored_sum(
            false,
            tail(x, y, start, from, i),
            tail(v, w, other, from, i),
            product(x[i], y[i]),
            product(v[i], w[i]),
        );
    }
}

proof fn lemma_same_dot(
    x: Seq<Binary64>,
    y: Seq<Binary64>,
    v: Seq<Binary64>,
    w: Seq<Binary64>,
)
    requires
        same_terms(x, y, v, w),
        v.len() == x.len(),
    ensures
        mirrored(false, dot_product(x, y), dot_product(v, w)),
{
    let blocks = (x.len() / 8) as nat;
    let zero = Binary64 { bits: 0 };
    let pair = |p: int| sum(lane(x, y, p, blocks), lane(x, y, p + 4, blocks));
    let other = |p: int| sum(lane(v, w, p, blocks), lane(v, w, p + 4, blocks));
    assert forall|p: int| 0 <= p < 4 implies mirrored(false, #[trigger] pair(p), other(p)) by {
        lemma_same_lane(x, y, v, w, p, blocks);
        lemma_same_lane(x, y, v, w, p + 4, blocks);
        lemma_mirrored_sum(
            false,
            lane(x, y, p, blocks),
            lane(v, w, p, blocks),
            lane(x, y, p + 4, blocks),
            lane(v, w, p + 4, blocks),
        );
    }
    let (a0, b0) = (sum(zero, pair(0)), sum(zero, other(0)));
    lemma_mirrored_sum(false, zero, zero, pair(0), other(0));
    let (a1, b1) = (sum(a0, pair(1)), sum(b0, other(1)));
    lemma_mirrored_sum(false, a0, b0, pair(1), other(1));
    let (a2, b2) = (sum(a1, pair(2)), sum(b1, other(2)));
    lemma_mirrored_sum(false, a1, b1, pair(2), other(2));
    lemma_mirrored_sum(false, a2, b2, pair(3), other(3));
    lemma_same_tail(
        x,
        y,
        v,
        w,
        lanes(x, y, blocks),
        lanes(v, w, blocks),
        (8 * blocks) as int,
        x.len() as int,
    );
}

/// A sum that starts from a zero with a clear sign is no zero with a set one.
proof fn lemma_zero_sign(a: Binary64, b: Binary64)
    requires
        a.zero() ==> !a.negative(),
    ensures
        sum(a, b).zero() ==> !sum(a, b).negative(),
{
    reveal(sum);
    lemma_magnitude_zero();
    if a.finite() && b.finite() {
        let exact = a.value() + b.value();
        lemma_pattern_magnitude(a, a);
        lemma_pattern_magnitude(b, b);
        if exact < 0 {
            lemma_nearest_exists(-exact, 1);
            lemma_magnitude_of_parts(0, 1);
            lemma2_to64();
        } else {
            lemma_nearest_exists(exact, 1);
        }
    }
}

proof fn lemma_tail_zero_sign(
    x: Seq<Binary64>,
    y: Seq<Binary64>,
    start: Binary64,
    from: int,
    upto: int,
)
    requires
        start.zero() ==> !start.negative(),
    ensures
        ({
            let total = tail(x, y, start, from, upto);
            total.zero() ==> !total.negative()
        }),
    decreases upto - from,
{
    if from < upto {
        lemma_tail_zero_sign(x, y, start, from, upto - 1);
        lemma_zero_sign(
            tail(x, y, start, from, upto - 1),
            product(x[upto - 1], y[upto - 1]),
        );
    }
}

proof fn lemma_dot_zero_sign(x: Seq<Binary64>, y: Seq<Binary64>)
    ensures
        dot_product(x, y).zero() ==> !dot_product(x, y).negative(),
{
    let blocks = (x.len() / 8) as nat;
    let zero = Binary64 { bits: 0 };
    let pair = |p: int| sum(lane(x, y, p, blocks), lane(x, y, p + 4, blocks));
    lemma_zero_sign(zero, pair(0));
    lemma_zero_sign(sum(zero, pair(0)), pair(1));
    lemma_zero_sign(sum(sum(zero, pair(0)), pair(1)), pair(2));
    lemma_zero_sign(sum(sum(sum(zero, pair(0)), pair(1)), pair(2)), pair(3));
    lemma_tail_zero_sign(x, y, lanes(x, y, blocks), (8 * blocks) as int, x.len() as int);
}

/// Negating the gradient leaves the decrement.
pub proof fn law_decrement_is_even_in_the_gradient(
    h: Seq<Seq<Binary64>>,
    g: Seq<Binary64>,
    k: Seq<Binary64>,
    shift: Binary64,
)
    requires
        opposite(g, k),
        g.len() == h.len(),
    ensures
        shifted_decrease(h, g, shift) == shifted_decrease(h, k, shift),
{
    let d = solution(h, shift, g);
    let e = solution(h, shift, k);
    assert forall|i: int| 0 <= i < g.len() implies mirrored(
        false,
        #[trigger] product(g[i], d[i]),
        product(k[i], e[i]),
    ) by {
        lemma_mirrored_backward(h, shift, g, k, i as nat, g.len());
        assert(k[i] == negated(g[i]));
        lemma_mirrored_product(true, true, g[i], k[i], d[i], e[i]);
    }
    lemma_same_dot(g, d, k, e);
    lemma_dot_zero_sign(g, d);
    lemma_dot_zero_sign(k, e);
}

} // verus!
