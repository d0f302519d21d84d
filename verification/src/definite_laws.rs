//! What a definiteness verdict says of the quadratic form, in real numbers.

use crate::binary64::{lemma_order_of_values, Binary64};
use crate::cholesky::{factors, pivot, shifted, usable};
use crate::exact::total;
use crate::exact_laws::{
    lemma_total_nonnegative, lemma_total_same, lemma_total_scaled, lemma_total_single,
    lemma_total_stops, lemma_total_sum, lemma_total_swap,
};
use crate::factor_laws::{entry, lemma_diagonal, side};
use crate::nearness::{
    lemma_constants, lemma_size_product, lemma_sum_near, number, roundoff, size, unit,
};
use crate::rounding::lemma_magnitude_zero;
use crate::second_order::{admitted, arithmetic_shift, curvature_shift};
use crate::tolerance_laws::{law_factor_gives_back_the_matrix, lemma_times, tolerance};
use vstd::prelude::*;

verus! {

/// The sum of the squares of a vector's first `n` components.
pub open spec fn squares(v: spec_fn(int) -> real, n: nat) -> real {
    total(|i: int| v(i) * v(i), n)
}

/// The quadratic form of the shifted matrix, whose lower triangle is mirrored.
pub open spec fn form(h: Seq<Seq<Binary64>>, shift: Binary64, v: spec_fn(int) -> real) -> real {
    total(|i: int| v(i) * total(|j: int| entry(h, shift, i, j) * v(j), h.len()), h.len())
}

/// A sum is at least another where each place is.
pub proof fn lemma_total_ordered(f: spec_fn(int) -> real, g: spec_fn(int) -> real, n: nat)
    requires
        forall|i: int| 0 <= i < n ==> #[trigger] f(i) <= g(i),
    ensures
        total(f, n) <= total(g, n),
    decreases n,
{
    if 0 < n {
        lemma_total_ordered(f, g, (n - 1) as nat);
        assert(f(n - 1) <= g(n - 1));
    }
}

/// A sum of one number over and over.
proof fn lemma_total_constant(x: real, n: nat)
    ensures
        total(|i: int| x, n) == (n as real) * x,
    decreases n,
{
    if n == 0 {
        assert((0 as real) * x == 0 as real) by (nonlinear_arith);
    } else {
        lemma_total_constant(x, (n - 1) as nat);
        let m = (n - 1) as real;
        assert((m + 1 as real) * x == m * x + x) by (nonlinear_arith);
    }
}

/// One place of a form that is near a product of factors.
proof fn lemma_near_term(x: real, y: real, a: real, b: real, t: real)
    requires
        size(a - b) <= t,
    ensures
        x * (b * y) - t * (x * x + y * y) / (2 as real) <= x * (a * y),
{
    let z = x * y;
    let e = a - b;
    lemma_size_product(e, z);
    assert((2 as real) * size(z) <= x * x + y * y) by {
        assert((2 as real) * z <= x * x + y * y && -((2 as real) * z) <= x * x + y * y)
            by (nonlinear_arith)
            requires
                z == x * y,
        {
            assert((x - y) * (x - y) >= 0 as real);
            assert((x + y) * (x + y) >= 0 as real);
        }
    }
    let q = x * x + y * y;
    lemma_times(size(e), t, size(z));
    lemma_times((2 as real) * size(z), q, t);
    assert(t * ((2 as real) * size(z)) == (2 as real) * (t * size(z))) by (nonlinear_arith);
    assert(x * (a * y) == x * (b * y) + e * z) by (nonlinear_arith)
        requires
            e == a - b,
            z == x * y,
    ;
}

/// A row of a form that is near a product of factors.
proof fn lemma_near_row(
    a: spec_fn(int) -> real,
    b: spec_fn(int) -> real,
    v: spec_fn(int) -> real,
    x: real,
    n: nat,
    t: real,
)
    requires
        forall|j: int| 0 <= j < n ==> size(#[trigger] a(j) - b(j)) <= t,
    ensures
        x * total(|j: int| b(j) * v(j), n) - t * ((n as real) * (x * x) + squares(v, n)) / (
        2 as real) <= x * total(|j: int| a(j) * v(j), n),
    decreases n,
{
    let f = |j: int| a(j) * v(j);
    let g = |j: int| b(j) * v(j);
    let s = |j: int| v(j) * v(j);
    if n == 0 {
        assert(x * (0 as real) == 0 as real && (0 as real) * (x * x) == 0 as real && t * (
        0 as real) == 0 as real) by (nonlinear_arith);
    } else {
        let k = (n - 1) as nat;
        lemma_near_row(a, b, v, x, k, t);
        let y = v(n - 1);
        assert(size(a(n - 1) - b(n - 1)) <= t);
        lemma_near_term(x, y, a(n - 1), b(n - 1), t);
        let fa = total(f, k);
        let ga = total(g, k);
        let sa = total(s, k);
        let fb = a(n - 1) * y;
        let gb = b(n - 1) * y;
        assert(x * (fa + fb) == x * fa + x * fb) by (nonlinear_arith);
        assert(x * (ga + gb) == x * ga + x * gb) by (nonlinear_arith);
        let m = k as real;
        let xx = x * x;
        let yy = y * y;
        assert(t * ((m + 1 as real) * xx + (sa + yy)) == t * (m * xx + sa) + t * (xx + yy))
            by (nonlinear_arith);
    }
}

/// Where every entry of a matrix is near that of `l` times its transpose, the form of the
/// matrix is not far below zero.
pub proof fn lemma_near_square(
    a: spec_fn(int, int) -> real,
    l: spec_fn(int, int) -> real,
    v: spec_fn(int) -> real,
    n: nat,
    t: real,
)
    requires
        forall|i: int, j: int|
            0 <= i < n && 0 <= j < n ==> size(
                #[trigger] a(i, j) - total(|c: int| l(i, c) * l(j, c), n),
            ) <= t,
    ensures
        total(|i: int| v(i) * total(|j: int| a(i, j) * v(j), n), n) >= -((n as real) * t * squares(
            v,
            n,
        )),
{
    let b = |i: int, j: int| total(|c: int| l(i, c) * l(j, c), n);
    let w = |c: int| total(|j: int| l(j, c) * v(j), n);
    let rows = |i: int| v(i) * total(|j: int| a(i, j) * v(j), n);
    let near = |i: int| v(i) * total(|j: int| b(i, j) * v(j), n);
    let sq = |i: int| v(i) * v(i);
    let sv = squares(v, n);
    let m = n as real;
    let under = |i: int| near(i) + (-(t * (m * sq(i) + sv) / (2 as real)));
    assert forall|i: int| 0 <= i < n implies #[trigger] under(i) <= rows(i) by {
        let ai = |j: int| a(i, j);
        let bi = |j: int| b(i, j);
        assert forall|j: int| 0 <= j < n implies size(#[trigger] ai(j) - bi(j)) <= t by {
            assert(size(a(i, j) - total(|c: int| l(i, c) * l(j, c), n)) <= t);
        }
        lemma_near_row(ai, bi, v, v(i), n, t);
        lemma_total_same(|j: int| ai(j) * v(j), |j: int| a(i, j) * v(j), n);
        lemma_total_same(|j: int| bi(j) * v(j), |j: int| b(i, j) * v(j), n);
    }
    lemma_total_ordered(under, rows, n);
    let slips = |i: int| -(t * (m * sq(i) + sv) / (2 as real));
    lemma_total_sum(near, slips, n);
    lemma_total_same(under, |i: int| near(i) + slips(i), n);
    // The slips add up to `m t sv`.
    let h = -t / (2 as real);
    let parts = |i: int| m * sq(i) + sv;
    lemma_total_scaled(parts, h, n);
    assert forall|i: int| 0 <= i < n implies #[trigger] slips(i) == (|i: int| h * parts(i))(i) by {
        let p = parts(i);
        assert(h * p == -(t * p / (2 as real))) by (nonlinear_arith)
            requires
                h == -t / (2 as real),
        ;
    }
    lemma_total_same(slips, |i: int| h * parts(i), n);
    let scaled = |i: int| m * sq(i);
    let same = |i: int| sv;
    lemma_total_sum(scaled, same, n);
    lemma_total_same(parts, |i: int| scaled(i) + same(i), n);
    lemma_total_scaled(sq, m, n);
    lemma_total_same(scaled, |i: int| m * sq(i), n);
    lemma_total_constant(sv, n);
    lemma_total_same(same, |i: int| sv, n);
    lemma_total_same(sq, |i: int| v(i) * v(i), n);
    assert(total(parts, n) == m * sv + m * sv);
    assert(h * (m * sv + m * sv) == -(m * t * sv)) by (nonlinear_arith)
        requires
            h == -t / (2 as real),
    ;
    assert(total(slips, n) == -(m * t * sv));
    lemma_square_form(l, v, n);
    let full = |i: int| v(i) * total(|j: int| total(|c: int| l(i, c) * l(j, c), n) * v(j), n);
    assert forall|i: int| 0 <= i < n implies #[trigger] near(i) == full(i) by {
        lemma_total_same(
            |j: int| b(i, j) * v(j),
            |j: int| total(|c: int| l(i, c) * l(j, c), n) * v(j),
            n,
        );
    }
    lemma_total_same(near, full, n);
}

/// The form of `l` times its transpose is a sum of squares.
proof fn lemma_square_form(l: spec_fn(int, int) -> real, v: spec_fn(int) -> real, n: nat)
    ensures
        total(
            |i: int| v(i) * total(|j: int| total(|c: int| l(i, c) * l(j, c), n) * v(j), n),
            n,
        ) == total(
            |c: int|
                total(|j: int| l(j, c) * v(j), n) * total(|j: int| l(j, c) * v(j), n),
            n,
        ),
        total(
            |i: int| v(i) * total(|j: int| total(|c: int| l(i, c) * l(j, c), n) * v(j), n),
            n,
        ) >= 0 as real,
{
    let w = |c: int| total(|j: int| l(j, c) * v(j), n);
    let rows = |i: int| v(i) * total(|j: int| total(|c: int| l(i, c) * l(j, c), n) * v(j), n);
    let f = |i: int, c: int| v(i) * (l(i, c) * w(c));
    let inner = |i: int| total(|c: int| f(i, c), n);
    assert forall|i: int| 0 <= i < n implies #[trigger] rows(i) == inner(i) by {
        lemma_row_of_products(l, v, n, i);
        let s = |c: int| l(i, c) * w(c);
        lemma_total_same(s, |c: int| l(i, c) * total(|j: int| l(j, c) * v(j), n), n);
        lemma_total_scaled(s, v(i), n);
        lemma_total_same(|c: int| v(i) * s(c), |c: int| f(i, c), n);
    }
    lemma_total_same(rows, inner, n);
    lemma_total_swap(f, n, n);
    let outer = |c: int| total(|i: int| f(i, c), n);
    let by_columns = |c: int| w(c) * w(c);
    assert forall|c: int| 0 <= c < n implies #[trigger] outer(c) == by_columns(c) by {
        let s = |i: int| l(i, c) * v(i);
        lemma_total_scaled(s, w(c), n);
        let x = |i: int| w(c) * s(i);
        let y = |i: int| f(i, c);
        assert forall|i: int| 0 <= i < n implies #[trigger] x(i) == y(i) by {
            let p = w(c);
            let q = l(i, c);
            let r = v(i);
            assert(p * (q * r) == r * (q * p)) by (nonlinear_arith);
        }
        lemma_total_same(x, y, n);
        lemma_total_same(s, |j: int| l(j, c) * v(j), n);
    }
    lemma_total_same(outer, by_columns, n);
    lemma_total_same(inner, |i: int| total(|c: int| f(i, c), n), n);
    lemma_total_same(outer, |c: int| total(|i: int| f(i, c), n), n);
    lemma_total_same(
        by_columns,
        |c: int| total(|j: int| l(j, c) * v(j), n) * total(|j: int| l(j, c) * v(j), n),
        n,
    );
    assert forall|c: int| 0 <= c < n implies #[trigger] by_columns(c) >= 0 as real by {
        let p = w(c);
        assert(p * p >= 0 as real) by (nonlinear_arith);
    }
    lemma_total_nonnegative(by_columns, n);
}

/// A row of `l` times its transpose, applied to a vector.
proof fn lemma_row_of_products(
    l: spec_fn(int, int) -> real,
    v: spec_fn(int) -> real,
    n: nat,
    i: int,
)
    ensures
        total(|j: int| total(|c: int| l(i, c) * l(j, c), n) * v(j), n) == total(
            |c: int| l(i, c) * total(|j: int| l(j, c) * v(j), n),
            n,
        ),
{
    let g = |j: int, c: int| (l(i, c) * l(j, c)) * v(j);
    let left = |j: int| total(|c: int| l(i, c) * l(j, c), n) * v(j);
    let inner = |j: int| total(|c: int| g(j, c), n);
    assert forall|j: int| 0 <= j < n implies #[trigger] left(j) == inner(j) by {
        let s = |c: int| l(i, c) * l(j, c);
        let x = v(j);
        lemma_total_scaled(s, x, n);
        let p = |c: int| x * s(c);
        let q = |c: int| g(j, c);
        assert forall|c: int| 0 <= c < n implies #[trigger] p(c) == q(c) by {
            let y = s(c);
            assert(x * y == y * x) by (nonlinear_arith);
        }
        lemma_total_same(p, q, n);
        let t = total(s, n);
        assert(x * t == t * x) by (nonlinear_arith);
    }
    lemma_total_same(left, inner, n);
    lemma_total_swap(g, n, n);
    let outer = |c: int| total(|j: int| g(j, c), n);
    let right = |c: int| l(i, c) * total(|j: int| l(j, c) * v(j), n);
    assert forall|c: int| 0 <= c < n implies #[trigger] outer(c) == right(c) by {
        let s = |j: int| l(j, c) * v(j);
        let x = l(i, c);
        lemma_total_scaled(s, x, n);
        let p = |j: int| x * s(j);
        let q = |j: int| g(j, c);
        assert forall|j: int| 0 <= j < n implies #[trigger] p(j) == q(j) by {
            let y = l(j, c);
            let z = v(j);
            assert(x * (y * z) == (x * y) * z) by (nonlinear_arith);
        }
        lemma_total_same(p, q, n);
    }
    lemma_total_same(outer, right, n);
    lemma_total_same(inner, |j: int| total(|c: int| g(j, c), n), n);
    lemma_total_same(outer, |c: int| total(|j: int| g(j, c), n), n);
}

/// A matrix that factors at a shift has no direction of clearly negative curvature at that
/// shift: over real numbers, the form of `h + shift * I` is above zero to within the
/// tolerance of the factor, for every vector.
pub proof fn law_factored_form_is_nearly_positive(
    h: Seq<Seq<Binary64>>,
    shift: Binary64,
    d: real,
    v: spec_fn(int) -> real,
)
    requires
        factors(h, shift, h.len()),
        h.len() <= 0x4_0000_0000_0000,
        forall|k: nat|
            k < h.len() ==> number(#[trigger] shifted(h, shift, k as int, k as int)) <= d,
    ensures
        form(h, shift, v) >= -((h.len() as real) * tolerance(h.len(), d) * squares(v, h.len())),
{
    let n = h.len();
    let a = |i: int, j: int| entry(h, shift, i, j);
    let l = |i: int, c: int| side(h, shift, i, c);
    let t = tolerance(n, d);
    assert forall|i: int, j: int| 0 <= i < n && 0 <= j < n implies size(
        #[trigger] a(i, j) - total(|c: int| l(i, c) * l(j, c), n),
    ) <= t by {
        let f = |c: int| l(i, c) * l(j, c);
        let (low, high) = if j <= i {
            (j, i)
        } else {
            (i, j)
        };
        law_factor_gives_back_the_matrix(h, shift, n, high as nat, low as nat, d);
        let g = |c: int| side(h, shift, high, c) * side(h, shift, low, c);
        assert forall|c: int| 0 <= c < n implies #[trigger] f(c) == g(c) by {
            let x = l(i, c);
            let y = l(j, c);
            assert(x * y == y * x) by (nonlinear_arith);
        }
        lemma_total_same(f, g, n);
        assert forall|c: int| low + 1 <= c < n implies #[trigger] g(c) == 0 as real by {
            let x = side(h, shift, high, c);
            assert(x * (0 as real) == 0 as real) by (nonlinear_arith);
        }
        lemma_total_stops(g, (low + 1) as nat, n);
        assert(entry(h, shift, i, j) == entry(h, shift, high, low));
    }
    lemma_near_square(a, l, v, n, t);
    let rows = |i: int| v(i) * total(|j: int| a(i, j) * v(j), n);
    let same = |i: int| v(i) * total(|j: int| entry(h, shift, i, j) * v(j), n);
    assert forall|i: int| 0 <= i < n implies #[trigger] rows(i) == same(i) by {
        lemma_total_same(|j: int| a(i, j) * v(j), |j: int| entry(h, shift, i, j) * v(j), n);
    }
    lemma_total_same(rows, same, n);
}

/// A shift adds itself times the squares to the form.
proof fn lemma_shifted_form(h: Seq<Seq<Binary64>>, shift: Binary64, v: spec_fn(int) -> real)
    ensures
        form(h, shift, v) == form(h, Binary64 { bits: 0 }, v) + number(shift) * squares(
            v,
            h.len(),
        ),
{
    let n = h.len();
    let zero = Binary64 { bits: 0 };
    lemma_magnitude_zero();
    let s = number(shift);
    let with = |i: int| v(i) * total(|j: int| entry(h, shift, i, j) * v(j), n);
    let without = |i: int| v(i) * total(|j: int| entry(h, zero, i, j) * v(j), n);
    let sq = |i: int| v(i) * v(i);
    let added = |i: int| s * sq(i);
    assert forall|i: int| 0 <= i < n implies #[trigger] with(i) == (|i: int|
        without(i) + added(i))(i) by {
        let a = |j: int| entry(h, zero, i, j) * v(j);
        let b = |j: int|
            if j == i {
                s * v(i)
            } else {
                0 as real
            };
        let c = |j: int| entry(h, shift, i, j) * v(j);
        assert forall|j: int| 0 <= j < n implies #[trigger] c(j) == (|j: int| a(j) + b(j))(j) by {
            if j == i {
                let x = h[i][j].value() as real;
                let y = shift.value() as real;
                let w = unit();
                let z = v(j);
                assert(((x + y) * w) * z == (x * w) * z + (y * w) * z) by (nonlinear_arith);
            }
        }
        lemma_total_same(c, |j: int| a(j) + b(j), n);
        lemma_total_sum(a, b, n);
        lemma_total_single(b, i, n);
        let p = total(a, n);
        let q = v(i);
        assert(q * (p + s * q) == q * p + s * (q * q)) by (nonlinear_arith);
    }
    lemma_total_same(with, |i: int| without(i) + added(i), n);
    lemma_total_sum(without, added, n);
    lemma_total_scaled(sq, s, n);
    lemma_total_same(added, |i: int| s * sq(i), n);
    lemma_total_same(sq, |i: int| v(i) * v(i), n);
}

/// A matrix that is judged positive semidefinite has, over real numbers, no direction whose
/// curvature lies further below zero than the shift of the verdict and the tolerance of
/// the factor. Here `d` is any bound on the diagonal with the shift added.
pub proof fn law_positive_verdict_bounds_the_curvature(
    h: Seq<Seq<Binary64>>,
    measured: Binary64,
    d: real,
    v: spec_fn(int) -> real,
)
    requires
        admitted(h, measured),
        0 < h.len() <= 0x4_0000_0000_0000,
        forall|k: int|
            0 <= k < h.len() ==> number(#[trigger] h[k][k]) + number(curvature_shift(h, measured))
                <= d,
    ensures
        form(h, Binary64 { bits: 0 }, v) >= -((number(curvature_shift(h, measured)) + (
        h.len() as real) * tolerance(h.len(), (2 as real) * d)) * squares(v, h.len())),
{
    let n = h.len();
    let wide = curvature_shift(h, measured);
    let shift = if factors(h, wide, n) {
        wide
    } else {
        arithmetic_shift(h)
    };
    lemma_constants();
    assert(factors(h, shift, n));
    assert(shifted(h, shift, 0, 0).finite()) by {
        assert(usable(pivot(h, shift, 0)));
    }
    lemma_sum_near(h[0][0], shift);
    assert(number(shift) <= number(wide)) by {
        if shift != wide {
            lemma_order_of_values(shift, wide);
            let x = shift.value() as real;
            let y = wide.value() as real;
            lemma_times(x, y, unit());
        }
    }
    assert forall|k: nat| k < n implies number(#[trigger] shifted(h, shift, k as int, k as int))
        <= (2 as real) * d by {
        lemma_diagonal(h, shift, n, k, 0);
        lemma_sum_near(h[k as int][k as int], shift);
        let x = number(shifted(h, shift, k as int, k as int));
        assert(number(h[k as int][k as int]) + number(wide) <= d);
        lemma_times(roundoff(), (1 as real) / (1024 as real), x);
    }
    law_factored_form_is_nearly_positive(h, shift, (2 as real) * d, v);
    lemma_shifted_form(h, shift, v);
    let q = squares(v, n);
    let sq = |i: int| v(i) * v(i);
    assert forall|i: int| 0 <= i < n implies #[trigger] sq(i) >= 0 as real by {
        let x = v(i);
        assert(x * x >= 0 as real) by (nonlinear_arith);
    }
    lemma_total_nonnegative(sq, n);
    lemma_total_same(sq, |i: int| v(i) * v(i), n);
    lemma_times(number(shift), number(wide), q);
    let a = number(wide);
    let b = (n as real) * tolerance(n, (2 as real) * d);
    assert((a + b) * q == a * q + b * q) by (nonlinear_arith);
}

} // verus!
