//! A bound on what the rounded Cholesky factor gives back, in the rows and the diagonal of
//! the matrix alone.

use crate::binary64::Binary64;
use crate::cholesky::{factor, factors, pivot, reduced, shifted, usable};
use crate::exact::total;
use crate::factor_laws::{
    entry, law_column_gives_back_the_entry, law_reduction_follows_the_products, lemma_diagonal,
    lemma_row_bounded, lemma_small_underflow, lemma_step, rest, side, stray, taken, widest,
};
use crate::nearness::{lemma_constants, lemma_product_near, number, roundoff, size, underflow};
use crate::rounding::SIGNIFICANDS;
use vstd::prelude::*;

verus! {

/// A product grows with a factor, where the other is not negative.
pub proof fn lemma_times(a: real, b: real, c: real)
    requires
        a <= b,
        c >= 0 as real,
    ensures
        a * c <= b * c,
        c * a <= c * b,
{
    assert(a * c <= b * c) by (nonlinear_arith)
        requires
            a <= b,
            c >= 0 as real,
    ;
    assert(c * a == a * c && c * b == b * c) by (nonlinear_arith);
}

/// The number of rows times the error of a rounding is small.
proof fn lemma_few_rows(m: real)
    requires
        (0 as real) <= m <= 0x4_0000_0000_0000 as real,
    ensures
        (0 as real) <= m * roundoff() <= (1 as real) / (2 as real),
{
    lemma_constants();
    lemma_times(m, 0x4_0000_0000_0000 as real, roundoff());
    lemma_times(0 as real, m, roundoff());
    let u = roundoff();
    assert((0x4_0000_0000_0000 as real) * u == (1 as real) / (8 as real)) by (nonlinear_arith)
        requires
            u * (SIGNIFICANDS as real) == 1 as real,
    ;
    assert((0 as real) * u == 0 as real) by (nonlinear_arith);
}

/// How far an entry can be from what the factor makes of it, in a matrix of `n` rows whose
/// shifted diagonal stays under `d`.
pub open spec fn tolerance(n: nat, d: real) -> real {
    (n as real) * (n as real) * ((40 as real) * roundoff() * d + (8 as real) * underflow() * (
    (1 as real) + d))
}

/// Two entries of one column have a bounded product.
proof fn lemma_pair_bounded(
    h: Seq<Seq<Binary64>>,
    shift: Binary64,
    n: nat,
    i: nat,
    j: nat,
    c: nat,
    d: real,
)
    requires
        factors(h, shift, n),
        c <= j <= i < n,
        rest(h, shift, i as int, i as int, 0) <= d,
        rest(h, shift, j as int, j as int, 0) <= d,
    ensures
        size(side(h, shift, i as int, c as int) * side(h, shift, j as int, c as int)) <= widest(d),
        factor(h, shift, i as int, c).finite(),
        factor(h, shift, j as int, c).finite(),
        widest(d) >= (4 as real) * underflow(),
{
    lemma_row_bounded(h, shift, n, i, c, d);
    lemma_row_bounded(h, shift, n, j, c, d);
    lemma_diagonal(h, shift, n, i, 0);
    let x = side(h, shift, i as int, c as int);
    let y = side(h, shift, j as int, c as int);
    assert((2 as real) * (x * y) <= x * x + y * y && -((2 as real) * (x * y)) <= x * x + y * y)
        by (nonlinear_arith)
    {
        assert((x - y) * (x - y) >= 0 as real);
        assert((x + y) * (x + y) >= 0 as real);
    }
}

/// What is taken from an entry is bounded.
proof fn lemma_taken_bounded(
    h: Seq<Seq<Binary64>>,
    shift: Binary64,
    n: nat,
    i: nat,
    j: nat,
    c: nat,
    d: real,
)
    requires
        factors(h, shift, n),
        c < j <= i < n,
        rest(h, shift, i as int, i as int, 0) <= d,
        rest(h, shift, j as int, j as int, 0) <= d,
        taken(h, shift, i as int, j as int, c as int).finite(),
    ensures
        size(number(taken(h, shift, i as int, j as int, c as int))) <= (2 as real) * widest(d),
{
    lemma_constants();
    lemma_pair_bounded(h, shift, n, i, j, c, d);
    lemma_product_near(factor(h, shift, i as int, c), factor(h, shift, j as int, c));
    let p = size(number(taken(h, shift, i as int, j as int, c as int)));
    let u = roundoff();
    assert(u * p <= p / (4 as real)) by (nonlinear_arith)
        requires
            p >= 0 as real,
            (0 as real) <= u <= (1 as real) / (1024 as real),
    ;
}

/// What is left of an entry when its column is scaled is bounded.
proof fn lemma_last_bounded(
    h: Seq<Seq<Binary64>>,
    shift: Binary64,
    n: nat,
    i: nat,
    j: nat,
    d: real,
)
    requires
        factors(h, shift, n),
        j <= i < n,
        rest(h, shift, i as int, i as int, 0) <= d,
        rest(h, shift, j as int, j as int, 0) <= d,
    ensures
        size(rest(h, shift, i as int, j as int, j as int)) <= (2 as real) * widest(d),
        ({
            let t = side(h, shift, i as int, j as int) * side(h, shift, j as int, j as int);
            size(rest(h, shift, i as int, j as int, j as int) - t) <= (10 as real) * (roundoff()
                * widest(d)) + (3 as real) * (underflow() * ((1 as real) + widest(d)))
        }),
        reduced(h, shift, i as int, j as int, j).finite(),
{
    lemma_constants();
    lemma_small_underflow();
    lemma_pair_bounded(h, shift, n, i, j, j, d);
    lemma_row_bounded(h, shift, n, j, j, d);
    assert(usable(pivot(h, shift, j)));
    law_column_gives_back_the_entry(h, shift, i as int, j);
    let t = side(h, shift, i as int, j as int) * side(h, shift, j as int, j as int);
    let l = side(h, shift, j as int, j as int);
    let b = widest(d);
    let u = roundoff();
    let e = underflow();
    let st = size(t);
    assert(u * st <= u * b && u * b <= b / (1024 as real) && e * b <= b / (1024 as real))
        by (nonlinear_arith)
        requires
            st <= b,
            b >= 0 as real,
            (0 as real) <= u <= (1 as real) / (1024 as real),
            (0 as real) <= e <= (1 as real) / (1024 as real),
    ;
    assert(l <= (1 as real) + b) by (nonlinear_arith)
        requires
            l * l <= b,
    {
        assert((l - 1 as real) * (l - 1 as real) >= 0 as real);
        assert((2 as real) * l <= l * l + 1 as real);
    }
    assert(e * l <= e * ((1 as real) + b)) by (nonlinear_arith)
        requires
            l <= (1 as real) + b,
            e >= 0 as real,
    ;
    assert(e * ((1 as real) + b) == e + e * b) by (nonlinear_arith);
}

/// What is left of an entry along the way is bounded.
proof fn lemma_rest_bounded(
    h: Seq<Seq<Binary64>>,
    shift: Binary64,
    n: nat,
    i: nat,
    j: nat,
    c: nat,
    d: real,
)
    requires
        factors(h, shift, n),
        c <= j <= i < n,
        n <= 0x4_0000_0000_0000,
        rest(h, shift, i as int, i as int, 0) <= d,
        rest(h, shift, j as int, j as int, 0) <= d,
        reduced(h, shift, i as int, j as int, j).finite(),
    ensures
        ({
            let m = (j - c) as real;
            size(rest(h, shift, i as int, j as int, c as int)) <= (m + 1 as real) * ((1 as real)
                + (2 as real) * m * roundoff()) * ((2 as real) * widest(d))
        }),
    decreases j - c,
{
    lemma_constants();
    let b = (2 as real) * widest(d);
    let u = roundoff();
    if c == j {
        lemma_last_bounded(h, shift, n, i, j, d);
        let m = 0 as real;
        assert((m + 1 as real) * ((1 as real) + (2 as real) * m * u) * b == b) by (nonlinear_arith)
            requires
                m == 0 as real,
        ;
    } else {
        lemma_rest_bounded(h, shift, n, i, j, c + 1, d);
        law_reduction_follows_the_products(h, shift, i as int, j as int, j);
        assert(reduced(h, shift, i as int, j as int, c + 1).finite());
        lemma_step(h, shift, i as int, j as int, c);
        lemma_taken_bounded(h, shift, n, i, j, c, d);
        lemma_pair_bounded(h, shift, n, i, j, c, d);
        let x = size(rest(h, shift, i as int, j as int, (c + 1) as int));
        let y = size(rest(h, shift, i as int, j as int, c as int));
        let m = (j - (c + 1)) as real;
        assert(y <= x + u * x + b);
        lemma_growth(x, m, u, b);
    }
}

/// The bound on what is left grows by one share from column to column.
proof fn lemma_growth(x: real, m: real, u: real, b: real)
    requires
        (0 as real) <= m <= 0x4_0000_0000_0000 as real,
        u == roundoff(),
        b >= 0 as real,
        x <= (m + 1 as real) * ((1 as real) + (2 as real) * m * u) * b,
    ensures
        ({
            let k = m + 1 as real;
            x + u * x + b <= (k + 1 as real) * ((1 as real) + (2 as real) * k * u) * b
        }),
{
    lemma_constants();
    lemma_few_rows(m);
    let k = m + 1 as real;
    let z = (1 as real) + (2 as real) * m * u;
    let w = (1 as real) + (2 as real) * k * u;
    assert((2 as real) * m * u == (2 as real) * (m * u)) by (nonlinear_arith);
    assert((2 as real) * k * u == (2 as real) * (m * u) + (2 as real) * u) by (nonlinear_arith)
        requires
            k == m + 1 as real,
    ;
    lemma_times(z, 2 as real, u);
    assert(z + u * z <= w);
    lemma_times(z + u * z, w, k);
    let g = k * z;
    assert(g + u * g == k * (z + u * z)) by (nonlinear_arith)
        requires
            g == k * z,
    ;
    let v = (k + 1 as real) * w;
    assert(v == k * w + w) by (nonlinear_arith)
        requires
            v == (k + 1 as real) * w,
    ;
    assert(g + u * g + 1 as real <= v);
    lemma_times(g + u * g + 1 as real, v, b);
    lemma_times(x, g * b, u);
    assert((g + u * g + 1 as real) * b == g * b + u * (g * b) + b) by (nonlinear_arith);
}

/// A sum of bounded places is bounded.
pub proof fn lemma_total_bounded(f: spec_fn(int) -> real, b: real, n: nat)
    requires
        forall|i: int| 0 <= i < n ==> #[trigger] f(i) <= b,
    ensures
        total(f, n) <= (n as real) * b,
    decreases n,
{
    if n == 0 {
        assert((0 as real) * b == 0 as real) by (nonlinear_arith);
    } else {
        lemma_total_bounded(f, b, (n - 1) as nat);
        assert(f(n - 1) <= b);
        let m = (n - 1) as real;
        assert((m + 1 as real) * b == m * b + b) by (nonlinear_arith);
    }
}

/// One step of a bounded reduction strays little.
proof fn lemma_stray_bounded(
    h: Seq<Seq<Binary64>>,
    shift: Binary64,
    n: nat,
    i: nat,
    j: nat,
    c: nat,
    d: real,
)
    requires
        factors(h, shift, n),
        c < j <= i < n,
        n <= 0x4_0000_0000_0000,
        rest(h, shift, i as int, i as int, 0) <= d,
        rest(h, shift, j as int, j as int, 0) <= d,
    ensures
        stray(h, shift, i as int, j as int, c as int) <= (6 as real) * roundoff() * (n as real)
            * widest(d) + underflow(),
{
    lemma_constants();
    lemma_last_bounded(h, shift, n, i, j, d);
    lemma_pair_bounded(h, shift, n, i, j, c, d);
    law_reduction_follows_the_products(h, shift, i as int, j as int, j);
    assert(reduced(h, shift, i as int, j as int, c + 1).finite());
    lemma_step(h, shift, i as int, j as int, c);
    lemma_taken_bounded(h, shift, n, i, j, c, d);
    lemma_rest_bounded(h, shift, n, i, j, c + 1, d);
    let m = (j - (c + 1)) as real;
    let k = n as real;
    let b = widest(d);
    let u = roundoff();
    let x = size(rest(h, shift, i as int, j as int, (c + 1) as int));
    let p = size(number(taken(h, shift, i as int, j as int, c as int)));
    lemma_few_rows(m);
    let z = (1 as real) + (2 as real) * m * u;
    assert((2 as real) * m * u == (2 as real) * (m * u)) by (nonlinear_arith);
    let g = (m + 1 as real) * z;
    lemma_times(z, 2 as real, m + 1 as real);
    assert(g <= (2 as real) * k);
    let bb = (2 as real) * b;
    lemma_times(g, (2 as real) * k, bb);
    let kb = k * b;
    assert(((2 as real) * k) * bb == (4 as real) * kb) by (nonlinear_arith)
        requires
            bb == (2 as real) * b,
            kb == k * b,
    ;
    lemma_times(1 as real, k, b);
    assert(x + p <= (6 as real) * kb);
    lemma_times(x + p, (6 as real) * kb, u);
    assert(u * ((6 as real) * kb) == (6 as real) * u * k * b) by (nonlinear_arith)
        requires
            kb == k * b,
    ;
}

/// The rounded factor of a matrix gives the matrix back: every entry of the lower triangle
/// is the sum of the products of the factor's entries over real numbers, to within a
/// tolerance that grows with the square of the rows and with the largest entry of the
/// shifted diagonal, and else holds nothing but the error of a rounding.
pub proof fn law_factor_gives_back_the_matrix(
    h: Seq<Seq<Binary64>>,
    shift: Binary64,
    n: nat,
    i: nat,
    j: nat,
    d: real,
)
    requires
        factors(h, shift, n),
        j <= i < n,
        n <= 0x4_0000_0000_0000,
        forall|k: nat| k < n ==> number(#[trigger] shifted(h, shift, k as int, k as int)) <= d,
    ensures
        size(
            entry(h, shift, i as int, j as int) - total(
                |c: int| side(h, shift, i as int, c) * side(h, shift, j as int, c),
                j + 1,
            ),
        ) <= tolerance(n, d),
{
    lemma_constants();
    lemma_small_underflow();
    let a = i as int;
    let b = j as int;
    assert(rest(h, shift, a, a, 0) == number(shifted(h, shift, i as int, i as int)));
    assert(rest(h, shift, b, b, 0) == number(shifted(h, shift, j as int, j as int)));
    lemma_last_bounded(h, shift, n, i, j, d);
    lemma_pair_bounded(h, shift, n, i, j, j, d);
    lemma_diagonal(h, shift, n, i, 0);
    law_reduction_follows_the_products(h, shift, a, b, j);
    let products = |c: int| side(h, shift, a, c) * side(h, shift, b, c);
    let strays = |c: int| stray(h, shift, a, b, c);
    assert(total(products, j + 1) == total(products, j) + products(b));
    let u = roundoff();
    let e = underflow();
    let w = widest(d);
    let k = n as real;
    let each = (6 as real) * u * k * w + e;
    assert forall|c: int| 0 <= c < j implies #[trigger] strays(c) <= each by {
        lemma_stray_bounded(h, shift, n, i, j, c as nat, d);
    }
    lemma_total_bounded(strays, each, j);
    let r = rest(h, shift, a, b, 0);
    let ud = u * d;
    lemma_times(0 as real, d, u);
    assert(i == j ==> u * size(r) <= ud) by {
        if i == j {
            lemma_times(r, d, u);
        }
    }
    lemma_strays(j as real, k, u, e, d);
}

proof fn lemma_strays(m: real, k: real, u: real, e: real, d: real)
    requires
        (0 as real) <= m <= k,
        k >= 1 as real,
        (0 as real) <= u <= (1 as real) / (1024 as real),
        (0 as real) <= e <= (1 as real) / (1024 as real),
        d >= 0 as real,
    ensures
        ({
            let w = (2 as real) * d + (4 as real) * e;
            u * d + m * ((6 as real) * u * k * w + e) + (10 as real) * (u * w) + (3 as real) * (e * (
            (1 as real) + w)) <= k * k * ((40 as real) * u * d + (8 as real) * e * ((1 as real)
                + d))
        }),
{
    let w = (2 as real) * d + (4 as real) * e;
    let ud = u * d;
    let ed = e * d;
    let ue = u * e;
    let ee = e * e;
    lemma_times(0 as real, d, u);
    lemma_times(0 as real, d, e);
    lemma_times(0 as real, e, u);
    lemma_times(0 as real, e, e);
    lemma_times(u, (1 as real) / (1024 as real), e);
    lemma_times(e, (1 as real) / (1024 as real), e);
    let uw = u * w;
    assert(uw == (2 as real) * ud + (4 as real) * ue) by (nonlinear_arith)
        requires
            uw == u * w,
            w == (2 as real) * d + (4 as real) * e,
            ud == u * d,
            ue == u * e,
    ;
    let ew = e * ((1 as real) + w);
    assert(ew == e + (2 as real) * ed + (4 as real) * ee) by (nonlinear_arith)
        requires
            ew == e * ((1 as real) + w),
            w == (2 as real) * d + (4 as real) * e,
            ed == e * d,
            ee == e * e,
    ;
    let each = (6 as real) * u * k * w + e;
    assert(each == k * ((6 as real) * uw) + e) by (nonlinear_arith)
        requires
            each == (6 as real) * u * k * w + e,
            uw == u * w,
    ;
    let kk = k * k;
    lemma_times(1 as real, k, k);
    lemma_times(0 as real, (6 as real) * uw, k);
    lemma_times(m, k, each);
    lemma_times(k, kk, e);
    assert(k * each == kk * ((6 as real) * uw) + k * e) by (nonlinear_arith)
        requires
            each == k * ((6 as real) * uw) + e,
            kk == k * k,
    ;
    let one = ud + (10 as real) * uw + (3 as real) * ew;
    lemma_times(1 as real, kk, one);
    let all = (6 as real) * uw + e + one;
    assert(kk * all == kk * ((6 as real) * uw) + kk * e + kk * one) by (nonlinear_arith)
        requires
            all == (6 as real) * uw + e + one,
    ;
    let bound = (40 as real) * u * d + (8 as real) * e * ((1 as real) + d);
    assert(bound == (40 as real) * ud + (8 as real) * e + (8 as real) * ed) by (nonlinear_arith)
        requires
            bound == (40 as real) * u * d + (8 as real) * e * ((1 as real) + d),
            ud == u * d,
            ed == e * d,
    ;
    assert(all <= bound);
    lemma_times(all, bound, kk);
}

} // verus!
