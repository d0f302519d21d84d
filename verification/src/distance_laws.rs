//! How close the distance of two points stays to the Euclidean one.

use crate::binary64::{
    difference, lemma_product_sign, normal, product, root, sum, Binary64,
};
use crate::exact::total;
use crate::factor_laws::lemma_normal_above_underflow;
use crate::nearness::{
    lemma_constants, lemma_difference_near, lemma_number_order, lemma_number_size,
    lemma_number_sum_beside, lemma_product_near, lemma_size_product, lemma_sum_near, number,
    roundoff, size, underflow,
};
use crate::prediction_laws::lemma_small_numbers;
use crate::probe::{distance, shared, squared_distance};
use crate::second_order::positive;
use crate::step_laws::{lemma_root_within, within};
use crate::tolerance_laws::lemma_times;
use vstd::prelude::*;

verus! {

/// The real difference of one coordinate.
pub open spec fn gap(a: Seq<Binary64>, b: Seq<Binary64>, i: int) -> real {
    number(a[i]) - number(b[i])
}

/// The square of the Euclidean distance over the first `n` coordinates.
pub open spec fn gaps(a: Seq<Binary64>, b: Seq<Binary64>, n: nat) -> real {
    total(|i: int| gap(a, b, i) * gap(a, b, i), n)
}

/// A number near another has a square near its square.
proof fn lemma_square_near(x: real, d: real, u: real)
    requires
        size(x - d) <= u * size(d),
        (0 as real) <= u <= (1 as real) / (1024 as real),
    ensures
        size(x * x - d * d) <= (3 as real) * (u * (d * d)),
        d * d >= 0 as real,
{
    let e = x - d;
    let sd = size(d);
    lemma_size_product(d, d);
    lemma_size_product(e, x + d);
    assert(e * (x + d) == x * x - d * d) by (nonlinear_arith)
        requires
            e == x - d,
    ;
    let dd = sd * sd;
    assert(d * d >= 0 as real && dd >= 0 as real) by (nonlinear_arith)
        requires
            dd == sd * sd,
    ;
    lemma_times(u, (1 as real) / (1024 as real), sd);
    lemma_times(0 as real, sd, u);
    lemma_times(size(e), u * sd, size(x + d));
    lemma_times(size(x + d), (3 as real) * sd, u * sd);
    assert((u * sd) * ((3 as real) * sd) == (3 as real) * (u * dd)) by (nonlinear_arith)
        requires
            dd == sd * sd,
    ;
}

/// A running sum of terms that are not below zero: it only grows, and stays near.
proof fn lemma_running(
    before: Binary64,
    p: Binary64,
    exact: real,
    k: real,
    x: real,
    w: real,
    v: real,
)
    requires
        sum(before, p).finite(),
        number(before) >= 0 as real,
        number(p) >= 0 as real,
        k >= 0 as real,
        w >= roundoff(),
        v >= 0 as real,
        size(exact - number(before)) <= k * (w * number(before) + v),
        size(x - number(p)) <= (w - roundoff()) * number(p) + v,
    ensures
        number(sum(before, p)) >= number(before),
        number(sum(before, p)) >= number(p),
        size(exact + x - number(sum(before, p))) <= (k + 1 as real) * (w * number(sum(before, p))
            + v),
{
    lemma_constants();
    lemma_sum_near(before, p);
    let s = sum(before, p);
    lemma_number_sum_beside(before, p, before);
    lemma_number_sum_beside(before, p, p);
    lemma_number_order(before, s);
    lemma_number_order(p, s);
    let a = number(before);
    let b = number(p);
    let t = number(s);
    let u = roundoff();
    lemma_times(a, t, w);
    lemma_times(w * a + v, w * t + v, k);
    lemma_times(b, t, w - u);
    assert((w - u) * t == w * t - u * t) by (nonlinear_arith);
    assert((k + 1 as real) * (w * t + v) == k * (w * t + v) + (w * t + v)) by (nonlinear_arith);
}

/// The sum of the squared differences is near the real one.
proof fn lemma_squares(a: Seq<Binary64>, b: Seq<Binary64>, k: nat)
    requires
        squared_distance(a, b, k).finite(),
    ensures
        number(squared_distance(a, b, k)) >= 0 as real,
        size(gaps(a, b, k) - number(squared_distance(a, b, k))) <= (k as real) * ((8 as real)
            * roundoff() * number(squared_distance(a, b, k)) + (6 as real) * underflow()),
    decreases k,
{
    lemma_constants();
    lemma_small_numbers();
    let u = roundoff();
    let e = underflow();
    let f = |i: int| gap(a, b, i) * gap(a, b, i);
    if k == 0 {
        assert((0 as real) * ((8 as real) * u * (0 as real) + (6 as real) * e) == 0 as real)
            by (nonlinear_arith);
    } else {
        let j = (k - 1) as nat;
        let i = k - 1;
        let d = difference(a[i], b[i]);
        let p = product(d, d);
        let before = squared_distance(a, b, j);
        lemma_sum_near(before, p);
        lemma_product_near(d, d);
        lemma_product_sign(d, d);
        lemma_difference_near(a[i], b[i]);
        lemma_squares(a, b, j);
        lemma_number_size(p);
        let x = gap(a, b, i);
        let y = number(d);
        let q = number(p);
        lemma_square_near(x, y, u);
        let yy = y * y;
        lemma_times(0 as real, q, u);
        lemma_times(yy, q + u * q + e, u);
        assert(u * (q + u * q + e) == u * q + u * (u * q) + u * e) by (nonlinear_arith);
        lemma_times(u, (1 as real) / (1024 as real), u * q);
        lemma_times(u, (1 as real) / (1024 as real), e);
        let w = (8 as real) * u;
        assert((w - u) * q == (7 as real) * (u * q)) by (nonlinear_arith)
            requires
                w == (8 as real) * u,
        ;
        assert(size(x * x - q) <= (7 as real) * (u * q) + (6 as real) * e);
        lemma_running(before, p, gaps(a, b, j), j as real, x * x, w, (6 as real) * e);
        assert(gaps(a, b, k) == total(f, j) + f(i));
    }
}

/// The root of a sum that is near another, against the other.
proof fn lemma_plain_distance(g: real, t: real, d: real, k: real, b: real)
    requires
        k >= 0 as real,
        t > 0 as real,
        d > 0 as real,
        underflow() <= roundoff() * t,
        b <= (8 as real) * (roundoff() * t) + (6 as real) * underflow(),
        size(g - t) <= k * b,
        within(t, d * d, 3 as real),
    ensures
        size(g - d * d) <= (32 as real) * (k * (roundoff() * (d * d))) + (3 as real) * (roundoff()
            * (d * d)),
{
    lemma_constants();
    let u = roundoff();
    let dd = d * d;
    let udd = u * dd;
    lemma_times(0 as real, d, d);
    assert((3 as real) * u * dd == (3 as real) * udd) by (nonlinear_arith)
        requires
            udd == u * dd,
    ;
    lemma_times(u, (1 as real) / (1024 as real), dd);
    lemma_times(t, (2 as real) * dd, u);
    assert(u * ((2 as real) * dd) == (2 as real) * udd) by (nonlinear_arith)
        requires
            udd == u * dd,
    ;
    lemma_times(0 as real, dd, u);
    lemma_times(b, (28 as real) * udd, k);
    assert(k * ((28 as real) * udd) == (28 as real) * (k * udd)) by (nonlinear_arith);
    lemma_times(0 as real, udd, k);
}

/// Where the sum of the squares keeps full precision, the distance of two points is the
/// Euclidean one over the coordinates that both have: its square is the sum of the squares
/// of the real differences, up to a few roundings for each coordinate.
pub proof fn law_distance_is_euclidean(a: Seq<Binary64>, b: Seq<Binary64>)
    requires
        normal(squared_distance(a, b, shared(a, b))),
    ensures
        ({
            let n = if a.len() <= b.len() {
                a.len()
            } else {
                b.len()
            };
            let d = number(distance(a, b));
            &&& d > 0 as real
            &&& size(gaps(a, b, n) - d * d) <= (32 as real) * ((n as real) * (roundoff() * (d
                * d))) + (3 as real) * (roundoff() * (d * d))
        }),
{
    let n = shared(a, b);
    let t = squared_distance(a, b, n);
    lemma_squares(a, b, n);
    lemma_small_numbers();
    lemma_normal_above_underflow(t);
    let zero = Binary64 { bits: 0 };
    lemma_number_order(zero, t);
    assert(positive(t));
    lemma_root_within(t);
    let x = number(t);
    let u = roundoff();
    let budget = (8 as real) * u * x + (6 as real) * underflow();
    assert((8 as real) * u * x == (8 as real) * (u * x)) by (nonlinear_arith);
    lemma_plain_distance(gaps(a, b, n), x, number(root(t)), n as real, budget);
}

} // verus!
