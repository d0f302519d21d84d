//! How the exact Newton decrement moves with the shift, for every matrix.
//!
//! A matrix is read by its lower triangle, so what holds here of every matrix holds of
//! every symmetric one.

use crate::binary64::Binary64;
use crate::exact::{
    exact_backward_rest, exact_column, exact_decrement, exact_entry, exact_factors, exact_forward,
    exact_forward_rest, exact_pivot, exact_reduced, exact_solution, total,
};
use vstd::prelude::*;

verus! {

pub proof fn lemma_total_same(f: spec_fn(int) -> real, g: spec_fn(int) -> real, n: nat)
    requires
        forall|i: int| 0 <= i < n ==> #[trigger] f(i) == g(i),
    ensures
        total(f, n) == total(g, n),
    decreases n,
{
    if 0 < n {
        lemma_total_same(f, g, (n - 1) as nat);
        assert(f(n - 1) == g(n - 1));
    }
}

pub proof fn lemma_total_sum(f: spec_fn(int) -> real, g: spec_fn(int) -> real, n: nat)
    ensures
        total(|i: int| f(i) + g(i), n) == total(f, n) + total(g, n),
    decreases n,
{
    if 0 < n {
        lemma_total_sum(f, g, (n - 1) as nat);
    }
}

pub proof fn lemma_total_scaled(f: spec_fn(int) -> real, c: real, n: nat)
    ensures
        total(|i: int| c * f(i), n) == c * total(f, n),
    decreases n,
{
    if 0 < n {
        lemma_total_scaled(f, c, (n - 1) as nat);
        let a = total(f, (n - 1) as nat);
        let b = f(n - 1);
        assert(c * (a + b) == c * a + c * b) by (nonlinear_arith);
    } else {
        assert(c * (0 as real) == 0 as real) by (nonlinear_arith);
    }
}

pub proof fn lemma_total_swap(f: spec_fn(int, int) -> real, n: nat, m: nat)
    ensures
        total(|i: int| total(|j: int| f(i, j), m), n) == total(
            |j: int| total(|i: int| f(i, j), n),
            m,
        ),
    decreases n,
{
    let rows = |i: int| total(|j: int| f(i, j), m);
    if n == 0 {
        lemma_total_nothing(|j: int| total(|i: int| f(i, j), 0), m);
    } else {
        let k = (n - 1) as nat;
        lemma_total_swap(f, k, m);
        let before = |j: int| total(|i: int| f(i, j), k);
        let last = |j: int| f(n - 1, j);
        let all = |j: int| total(|i: int| f(i, j), n);
        lemma_total_sum(before, last, m);
        assert forall|j: int| 0 <= j < m implies #[trigger] all(j) == (|j: int|
            before(j) + last(j))(j) by {
            let column = |i: int| f(i, j);
            assert(total(column, n) == total(column, k) + column(n - 1));
        }
        lemma_total_same(all, |j: int| before(j) + last(j), m);
        assert(rows(n - 1) == total(last, m)) by {
            lemma_total_same(|j: int| f(n - 1, j), last, m);
        }
        lemma_total_same(|i: int| total(|j: int| f(i, j), m), rows, k);
    }
}

pub proof fn lemma_total_nothing(f: spec_fn(int) -> real, n: nat)
    requires
        forall|i: int| 0 <= i < n ==> #[trigger] f(i) == 0 as real,
    ensures
        total(f, n) == 0 as real,
    decreases n,
{
    if 0 < n {
        lemma_total_nothing(f, (n - 1) as nat);
        assert(f(n - 1) == 0 as real);
    }
}

/// Places that hold nothing can be left off the end.
pub proof fn lemma_total_stops(f: spec_fn(int) -> real, k: nat, n: nat)
    requires
        k <= n,
        forall|i: int| k <= i < n ==> #[trigger] f(i) == 0 as real,
    ensures
        total(f, n) == total(f, k),
    decreases n,
{
    if k < n {
        lemma_total_stops(f, k, (n - 1) as nat);
        assert(f(n - 1) == 0 as real);
    }
}

/// A sum in which one place alone holds something.
pub proof fn lemma_total_single(f: spec_fn(int) -> real, k: int, n: nat)
    requires
        0 <= k < n,
        forall|i: int| 0 <= i < n && i != k ==> #[trigger] f(i) == 0 as real,
    ensures
        total(f, n) == f(k),
{
    lemma_total_stops(f, (k + 1) as nat, n);
    lemma_total_nothing(f, k as nat);
}

/// A sum of squares is not negative, and positive where one of them is.
pub proof fn lemma_total_nonnegative(f: spec_fn(int) -> real, n: nat)
    requires
        forall|i: int| 0 <= i < n ==> #[trigger] f(i) >= 0 as real,
    ensures
        total(f, n) >= 0 as real,
        forall|i: int| 0 <= i < n ==> #[trigger] f(i) <= total(f, n),
    decreases n,
{
    if 0 < n {
        lemma_total_nonnegative(f, (n - 1) as nat);
        assert(f(n - 1) >= 0 as real);
        assert forall|i: int| 0 <= i < n implies #[trigger] f(i) <= total(f, n) by {
            if i < n - 1 {
                assert(f(i) <= total(f, (n - 1) as nat));
            }
        }
    }
}

/// The term that the column `c` adds to the entry at row `i` and column `j`.
spec fn share(h: Seq<Seq<Binary64>>, shift: Binary64, i: int, j: int, c: int) -> real {
    exact_column(h, shift, i, c) * exact_column(h, shift, j, c) / exact_pivot(h, shift, c)
}

proof fn lemma_reduced_unrolled(
    h: Seq<Seq<Binary64>>,
    shift: Binary64,
    i: int,
    j: int,
    k: nat,
)
    requires
        k <= j <= i,
    ensures
        exact_reduced(h, shift, i, j, k) == exact_entry(h, shift, i, j) - total(
            |c: int| share(h, shift, i, j, c),
            k,
        ),
    decreases k,
{
    if 0 < k {
        lemma_reduced_unrolled(h, shift, i, j, (k - 1) as nat);
    }
}

/// The matrix is the sum of the shares of the columns of its factor.
proof fn lemma_entry_is_shared(h: Seq<Seq<Binary64>>, shift: Binary64, i: int, j: int)
    requires
        exact_factors(h, shift),
        0 <= i < h.len(),
        0 <= j < h.len(),
    ensures
        exact_entry(h, shift, i, j) == total(|c: int| share(h, shift, i, j, c), h.len()),
    decreases
        if j <= i {
            0int
        } else {
            1int
        },
{
    let f = |c: int| share(h, shift, i, j, c);
    if j <= i {
        lemma_reduced_unrolled(h, shift, i, j, j as nat);
        let p = exact_pivot(h, shift, j);
        let r = exact_column(h, shift, i, j);
        assert(p > 0 as real);
        assert(r * p / p == r) by (nonlinear_arith)
            requires
                p > 0 as real,
        ;
        assert(f(j) == r);
        assert forall|c: int| j + 1 <= c < h.len() implies #[trigger] f(c) == 0 as real by {
            let q = exact_pivot(h, shift, c);
            let s = exact_column(h, shift, i, c);
            assert(q > 0 as real);
            assert(s * (0 as real) / q == 0 as real) by (nonlinear_arith)
                requires
                    q > 0 as real,
            ;
        }
        lemma_total_stops(f, (j + 1) as nat, h.len());
        assert(total(f, (j + 1) as nat) == total(f, j as nat) + f(j));
    } else {
        lemma_entry_is_shared(h, shift, j, i);
        let g = |c: int| share(h, shift, j, i, c);
        assert forall|c: int| 0 <= c < h.len() implies #[trigger] f(c) == g(c) by {
            let a = exact_column(h, shift, i, c);
            let b = exact_column(h, shift, j, c);
            assert(a * b == b * a) by (nonlinear_arith);
        }
        lemma_total_same(f, g, h.len());
    }
}

proof fn lemma_forward_unrolled(
    h: Seq<Seq<Binary64>>,
    shift: Binary64,
    g: Seq<Binary64>,
    i: int,
    k: nat,
)
    ensures
        exact_forward_rest(h, shift, g, i, k) == g[i].value() as real - total(
            |c: int|
                exact_column(h, shift, i, c) * exact_forward(h, shift, g, c) / exact_pivot(
                    h,
                    shift,
                    c,
                ),
            k,
        ),
    decreases k,
{
    if 0 < k {
        lemma_forward_unrolled(h, shift, g, i, (k - 1) as nat);
    }
}

/// The gradient is the factor times the forward solve.
proof fn lemma_gradient_is_forward(
    h: Seq<Seq<Binary64>>,
    shift: Binary64,
    g: Seq<Binary64>,
    i: int,
)
    requires
        exact_factors(h, shift),
        0 <= i < h.len(),
    ensures
        g[i].value() as real == total(
            |c: int|
                exact_column(h, shift, i, c) * exact_forward(h, shift, g, c) / exact_pivot(
                    h,
                    shift,
                    c,
                ),
            h.len(),
        ),
{
    let f = |c: int|
        exact_column(h, shift, i, c) * exact_forward(h, shift, g, c) / exact_pivot(h, shift, c);
    lemma_forward_unrolled(h, shift, g, i, i as nat);
    let p = exact_pivot(h, shift, i);
    let t = exact_forward(h, shift, g, i);
    assert(p > 0 as real);
    assert(p * t / p == t) by (nonlinear_arith)
        requires
            p > 0 as real,
    ;
    assert(f(i) == t);
    assert forall|c: int| i + 1 <= c < h.len() implies #[trigger] f(c) == 0 as real by {
        let q = exact_pivot(h, shift, c);
        let s = exact_forward(h, shift, g, c);
        assert(q > 0 as real);
        assert((0 as real) * s / q == 0 as real) by (nonlinear_arith)
            requires
                q > 0 as real,
        ;
    }
    lemma_total_stops(f, (i + 1) as nat, h.len());
    assert(total(f, (i + 1) as nat) == total(f, i as nat) + f(i));
}

/// Column `c` of the factor times a vector.
spec fn projected(
    h: Seq<Seq<Binary64>>,
    shift: Binary64,
    v: spec_fn(int) -> real,
    c: int,
) -> real {
    total(|j: int| exact_column(h, shift, j, c) * v(j), h.len())
}

proof fn lemma_backward_unrolled(
    h: Seq<Seq<Binary64>>,
    shift: Binary64,
    g: Seq<Binary64>,
    c: int,
    k: nat,
)
    requires
        0 <= c < k <= h.len(),
    ensures
        total(
            |j: int| exact_column(h, shift, j, c) * exact_solution(h, shift, g)(j),
            k,
        ) == exact_pivot(h, shift, c) * exact_solution(h, shift, g)(c) + exact_forward(
            h,
            shift,
            g,
            c,
        ) - exact_backward_rest(h, shift, g, h.len(), c, k),
    decreases k,
{
    let d = exact_solution(h, shift, g);
    let f = |j: int| exact_column(h, shift, j, c) * d(j);
    if c + 1 < k {
        lemma_backward_unrolled(h, shift, g, c, (k - 1) as nat);
        assert(total(f, k) == total(f, (k - 1) as nat) + f(k - 1));
    } else {
        assert forall|j: int| 0 <= j < c implies #[trigger] f(j) == 0 as real by {
            let x = d(j);
            assert((0 as real) * x == 0 as real) by (nonlinear_arith);
        }
        lemma_total_nothing(f, c as nat);
        assert(total(f, k) == total(f, c as nat) + f(c));
    }
}

/// The solution, projected, is the forward solve.
proof fn lemma_solution_projected(
    h: Seq<Seq<Binary64>>,
    shift: Binary64,
    g: Seq<Binary64>,
    c: int,
)
    requires
        exact_factors(h, shift),
        0 <= c < h.len(),
    ensures
        projected(h, shift, exact_solution(h, shift, g), c) == exact_forward(h, shift, g, c),
{
    let n = h.len();
    lemma_backward_unrolled(h, shift, g, c, n);
    let p = exact_pivot(h, shift, c);
    let r = exact_backward_rest(h, shift, g, n, c, n);
    assert(p > 0 as real);
    assert(p * (r / p) == r) by (nonlinear_arith)
        requires
            p > 0 as real,
    ;
}

/// The entry `i` of the shifted matrix times a vector.
pub open spec fn applied(
    h: Seq<Seq<Binary64>>,
    shift: Binary64,
    v: spec_fn(int) -> real,
    i: int,
) -> real {
    total(|j: int| exact_entry(h, shift, i, j) * v(j), h.len())
}

/// The shifted matrix times a vector, through the factor.
proof fn lemma_applied_by_columns(
    h: Seq<Seq<Binary64>>,
    shift: Binary64,
    v: spec_fn(int) -> real,
    i: int,
)
    requires
        exact_factors(h, shift),
        0 <= i < h.len(),
    ensures
        applied(h, shift, v, i) == total(
            |c: int|
                exact_column(h, shift, i, c) * projected(h, shift, v, c) / exact_pivot(
                    h,
                    shift,
                    c,
                ),
            h.len(),
        ),
{
    let n = h.len();
    let f = |j: int, c: int| share(h, shift, i, j, c) * v(j);
    let by_rows = |j: int| exact_entry(h, shift, i, j) * v(j);
    let inner = |j: int| total(|c: int| f(j, c), n);
    assert forall|j: int| 0 <= j < n implies #[trigger] by_rows(j) == inner(j) by {
        lemma_entry_is_shared(h, shift, i, j);
        let s = |c: int| share(h, shift, i, j, c);
        let x = v(j);
        lemma_total_scaled(s, x, n);
        let a = |c: int| x * s(c);
        let b = |c: int| f(j, c);
        assert forall|c: int| 0 <= c < n implies #[trigger] a(c) == b(c) by {
            let y = share(h, shift, i, j, c);
            assert(x * y == y * x) by (nonlinear_arith);
        }
        lemma_total_same(a, b, n);
        let e = exact_entry(h, shift, i, j);
        assert(x * e == e * x) by (nonlinear_arith);
    }
    lemma_total_same(by_rows, inner, n);
    lemma_total_swap(f, n, n);
    let outer = |c: int| total(|j: int| f(j, c), n);
    let by_columns = |c: int|
        exact_column(h, shift, i, c) * projected(h, shift, v, c) / exact_pivot(h, shift, c);
    assert forall|c: int| 0 <= c < n implies #[trigger] outer(c) == by_columns(c) by {
        let p = exact_pivot(h, shift, c);
        let r = exact_column(h, shift, i, c);
        assert(p > 0 as real);
        let s = |j: int| exact_column(h, shift, j, c) * v(j);
        lemma_total_scaled(s, r / p, n);
        let a = |j: int| (r / p) * s(j);
        let b = |j: int| f(j, c);
        assert forall|j: int| 0 <= j < n implies #[trigger] a(j) == b(j) by {
            let q = exact_column(h, shift, j, c);
            let x = v(j);
            assert((r / p) * (q * x) == r * q / p * x) by (nonlinear_arith)
                requires
                    p > 0 as real,
            ;
        }
        lemma_total_same(a, b, n);
        let t = total(s, n);
        assert((r / p) * t == r * t / p) by (nonlinear_arith)
            requires
                p > 0 as real,
        ;
    }
    lemma_total_same(outer, by_columns, n);
}

/// The product of two vectors through the shifted matrix, by columns of the factor.
proof fn lemma_form_by_columns(
    h: Seq<Seq<Binary64>>,
    shift: Binary64,
    v: spec_fn(int) -> real,
    w: spec_fn(int) -> real,
)
    requires
        exact_factors(h, shift),
    ensures
        total(|i: int| applied(h, shift, v, i) * w(i), h.len()) == total(
            |c: int|
                projected(h, shift, v, c) * projected(h, shift, w, c) / exact_pivot(h, shift, c),
            h.len(),
        ),
{
    let n = h.len();
    let f = |i: int, c: int|
        exact_column(h, shift, i, c) * projected(h, shift, v, c) / exact_pivot(h, shift, c) * w(i);
    let by_rows = |i: int| applied(h, shift, v, i) * w(i);
    let inner = |i: int| total(|c: int| f(i, c), n);
    assert forall|i: int| 0 <= i < n implies #[trigger] by_rows(i) == inner(i) by {
        lemma_applied_by_columns(h, shift, v, i);
        let s = |c: int|
            exact_column(h, shift, i, c) * projected(h, shift, v, c) / exact_pivot(h, shift, c);
        let x = w(i);
        lemma_total_scaled(s, x, n);
        let a = |c: int| x * s(c);
        let b = |c: int| f(i, c);
        assert forall|c: int| 0 <= c < n implies #[trigger] a(c) == b(c) by {
            let y = s(c);
            assert(x * y == y * x) by (nonlinear_arith);
        }
        lemma_total_same(a, b, n);
        let e = applied(h, shift, v, i);
        assert(x * e == e * x) by (nonlinear_arith);
    }
    lemma_total_same(by_rows, inner, n);
    lemma_total_swap(f, n, n);
    let outer = |c: int| total(|i: int| f(i, c), n);
    let by_columns = |c: int|
        projected(h, shift, v, c) * projected(h, shift, w, c) / exact_pivot(h, shift, c);
    assert forall|c: int| 0 <= c < n implies #[trigger] outer(c) == by_columns(c) by {
        let p = exact_pivot(h, shift, c);
        let t = projected(h, shift, v, c);
        assert(p > 0 as real);
        let s = |i: int| exact_column(h, shift, i, c) * w(i);
        lemma_total_scaled(s, t / p, n);
        let a = |i: int| (t / p) * s(i);
        let b = |i: int| f(i, c);
        assert forall|i: int| 0 <= i < n implies #[trigger] a(i) == b(i) by {
            let q = exact_column(h, shift, i, c);
            let x = w(i);
            assert((t / p) * (q * x) == q * t / p * x) by (nonlinear_arith)
                requires
                    p > 0 as real,
            ;
        }
        lemma_total_same(a, b, n);
        let u = total(s, n);
        assert((t / p) * u == t * u / p) by (nonlinear_arith)
            requires
                p > 0 as real,
        ;
    }
    lemma_total_same(outer, by_columns, n);
}

/// The two solves through the exact factor solve `(H + shift·I) d = g`.
pub proof fn law_exact_solution_solves(
    h: Seq<Seq<Binary64>>,
    g: Seq<Binary64>,
    shift: Binary64,
    i: int,
)
    requires
        exact_factors(h, shift),
        0 <= i < h.len(),
    ensures
        applied(h, shift, exact_solution(h, shift, g), i) == g[i].value() as real,
{
    let n = h.len();
    let d = exact_solution(h, shift, g);
    lemma_applied_by_columns(h, shift, d, i);
    lemma_gradient_is_forward(h, shift, g, i);
    let a = |c: int|
        exact_column(h, shift, i, c) * projected(h, shift, d, c) / exact_pivot(h, shift, c);
    let b = |c: int|
        exact_column(h, shift, i, c) * exact_forward(h, shift, g, c) / exact_pivot(h, shift, c);
    assert forall|c: int| 0 <= c < n implies #[trigger] a(c) == b(c) by {
        lemma_solution_projected(h, shift, g, c);
    }
    lemma_total_same(a, b, n);
}

/// A wider shift adds its difference on the diagonal.
proof fn lemma_applied_at_wider_shift(
    h: Seq<Seq<Binary64>>,
    narrow: Binary64,
    wide: Binary64,
    v: spec_fn(int) -> real,
    i: int,
)
    requires
        0 <= i < h.len(),
    ensures
        applied(h, wide, v, i) == applied(h, narrow, v, i) + ((wide.value() - narrow.value())
            as real) * v(i),
{
    let n = h.len();
    let delta = (wide.value() - narrow.value()) as real;
    let a = |j: int| exact_entry(h, narrow, i, j) * v(j);
    let b = |j: int|
        if j == i {
            delta * v(j)
        } else {
            0 as real
        };
    let c = |j: int| exact_entry(h, wide, i, j) * v(j);
    let both = |j: int| a(j) + b(j);
    assert forall|j: int| 0 <= j < n implies #[trigger] c(j) == both(j) by {
        if j == i {
            let e = exact_entry(h, narrow, i, i);
            let x = v(i);
            assert(exact_entry(h, wide, i, i) == e + delta);
            assert((e + delta) * x == e * x + delta * x) by (nonlinear_arith);
        }
    }
    lemma_total_same(c, both, n);
    lemma_total_sum(a, b, n);
    lemma_total_single(b, i, n);
}

/// The shifted matrix times a difference.
proof fn lemma_applied_to_difference(
    h: Seq<Seq<Binary64>>,
    shift: Binary64,
    v: spec_fn(int) -> real,
    w: spec_fn(int) -> real,
    i: int,
)
    ensures
        applied(h, shift, |j: int| v(j) - w(j), i) == applied(h, shift, v, i) - applied(
            h,
            shift,
            w,
            i,
        ),
{
    let n = h.len();
    let d = |j: int| v(j) - w(j);
    let a = |j: int| exact_entry(h, shift, i, j) * d(j);
    let b = |j: int| exact_entry(h, shift, i, j) * w(j);
    let c = |j: int| exact_entry(h, shift, i, j) * v(j);
    let both = |j: int| a(j) + b(j);
    assert forall|j: int| 0 <= j < n implies #[trigger] both(j) == c(j) by {
        let e = exact_entry(h, shift, i, j);
        let x = v(j);
        let y = w(j);
        assert(e * (x - y) + e * y == e * x) by (nonlinear_arith);
    }
    lemma_total_same(both, c, n);
    lemma_total_sum(a, b, n);
}

/// The product of two vectors through the shifted matrix does not depend on their order,
/// and is not negative where they are the same.
proof fn lemma_form_symmetric(
    h: Seq<Seq<Binary64>>,
    shift: Binary64,
    v: spec_fn(int) -> real,
    w: spec_fn(int) -> real,
)
    requires
        exact_factors(h, shift),
    ensures
        total(|i: int| applied(h, shift, v, i) * w(i), h.len()) == total(
            |i: int| applied(h, shift, w, i) * v(i),
            h.len(),
        ),
        total(|i: int| applied(h, shift, w, i) * w(i), h.len()) >= 0 as real,
{
    let n = h.len();
    lemma_form_by_columns(h, shift, v, w);
    lemma_form_by_columns(h, shift, w, v);
    lemma_form_by_columns(h, shift, w, w);
    let a = |c: int|
        projected(h, shift, v, c) * projected(h, shift, w, c) / exact_pivot(h, shift, c);
    let b = |c: int|
        projected(h, shift, w, c) * projected(h, shift, v, c) / exact_pivot(h, shift, c);
    assert forall|c: int| 0 <= c < n implies #[trigger] a(c) == b(c) by {
        let x = projected(h, shift, v, c);
        let y = projected(h, shift, w, c);
        assert(x * y == y * x) by (nonlinear_arith);
    }
    lemma_total_same(a, b, n);
    let q = |c: int|
        projected(h, shift, w, c) * projected(h, shift, w, c) / exact_pivot(h, shift, c);
    assert forall|c: int| 0 <= c < n implies #[trigger] q(c) >= 0 as real by {
        let x = projected(h, shift, w, c);
        let p = exact_pivot(h, shift, c);
        assert(p > 0 as real);
        assert(x * x / p >= 0 as real) by (nonlinear_arith)
            requires
                p > 0 as real,
        ;
    }
    lemma_total_nonnegative(q, n);
}

/// What the decrement loses when the shift grows: the square of the new solution, times
/// the growth, and the form at the difference of the solutions.
proof fn lemma_lost_decrement(
    h: Seq<Seq<Binary64>>,
    g: Seq<Binary64>,
    narrow: Binary64,
    wide: Binary64,
)
    requires
        exact_factors(h, narrow),
        exact_factors(h, wide),
    ensures
        ({
            let e = exact_solution(h, wide, g);
            let delta = (wide.value() - narrow.value()) as real;
            (2 as real) * (exact_decrement(h, g, narrow) - exact_decrement(h, g, wide)) >= delta
                * total(|i: int| e(i) * e(i), h.len())
        }),
{
    let n = h.len();
    let d = exact_solution(h, narrow, g);
    let e = exact_solution(h, wide, g);
    let w = |j: int| d(j) - e(j);
    let delta = (wide.value() - narrow.value()) as real;
    let gv = |i: int| g[i].value() as real;
    assert forall|i: int| 0 <= i < n implies gv(i) == #[trigger] applied(h, narrow, e, i) + delta
        * e(i) && applied(h, narrow, w, i) == delta * e(i) by {
        law_exact_solution_solves(h, g, narrow, i);
        law_exact_solution_solves(h, g, wide, i);
        lemma_applied_at_wider_shift(h, narrow, wide, e, i);
        lemma_applied_to_difference(h, narrow, d, e, i);
    }
    // The gradient times the difference of the solutions, split in two.
    let gd = |i: int| gv(i) * d(i);
    let ge = |i: int| gv(i) * e(i);
    let gw = |i: int| gv(i) * w(i);
    let sum_ge = |i: int| gw(i) + ge(i);
    assert forall|i: int| 0 <= i < n implies #[trigger] sum_ge(i) == gd(i) by {
        let a = gv(i);
        let x = d(i);
        let y = e(i);
        assert(a * (x - y) + a * y == a * x) by (nonlinear_arith);
    }
    lemma_total_same(sum_ge, gd, n);
    lemma_total_sum(gw, ge, n);
    let first = |i: int| applied(h, narrow, e, i) * w(i);
    let second = |i: int| applied(h, narrow, w, i) * w(i);
    let split = |i: int| first(i) + second(i);
    assert forall|i: int| 0 <= i < n implies #[trigger] gw(i) == split(i) by {
        let a = applied(h, narrow, e, i);
        let b = delta * e(i);
        let x = w(i);
        assert(gv(i) == a + b && applied(h, narrow, w, i) == b);
        assert((a + b) * x == a * x + b * x) by (nonlinear_arith);
    }
    lemma_total_same(gw, split, n);
    lemma_total_sum(first, second, n);
    lemma_form_symmetric(h, narrow, e, w);
    let crossed = |i: int| applied(h, narrow, w, i) * e(i);
    let squares = |i: int| e(i) * e(i);
    let scaled = |i: int| delta * squares(i);
    assert forall|i: int| 0 <= i < n implies #[trigger] crossed(i) == scaled(i) by {
        assert(gv(i) == applied(h, narrow, e, i) + delta * e(i));
        let x = e(i);
        assert(delta * x * x == delta * (x * x)) by (nonlinear_arith);
    }
    lemma_total_same(crossed, scaled, n);
    lemma_total_scaled(squares, delta, n);
    // The decrements are half of these sums.
    lemma_total_same(|j: int| (g[j].value() as real) * exact_solution(h, narrow, g)(j), gd, n);
    lemma_total_same(|j: int| (g[j].value() as real) * exact_solution(h, wide, g)(j), ge, n);
    let x = total(gd, n);
    let y = total(ge, n);
    assert((2 as real) * (x / (2 as real) - y / (2 as real)) == x - y) by (nonlinear_arith);
}

/// Over exact numbers a larger shift gives no larger decrement, for every matrix that
/// factors at the smaller one, and a strictly smaller decrement where the shift is strictly
/// larger and the gradient is not zero.
pub proof fn law_larger_shift_shrinks_the_exact_decrement(
    h: Seq<Seq<Binary64>>,
    g: Seq<Binary64>,
    narrow: Binary64,
    wide: Binary64,
)
    requires
        exact_factors(h, narrow),
        narrow.value() <= wide.value(),
    ensures
        exact_decrement(h, g, wide) <= exact_decrement(h, g, narrow),
        narrow.value() < wide.value() && (exists|i: int|
            0 <= i < h.len() && #[trigger] g[i].value() != 0) ==> exact_decrement(h, g, wide)
            < exact_decrement(h, g, narrow),
{
    law_wider_shift_keeps_the_exact_factor(h, narrow, wide);
    lemma_decrements_at_both(h, g, narrow, wide);
}

/// [`law_larger_shift_shrinks_the_exact_decrement`] where the matrix is known to factor at
/// both shifts.
proof fn lemma_decrements_at_both(
    h: Seq<Seq<Binary64>>,
    g: Seq<Binary64>,
    narrow: Binary64,
    wide: Binary64,
)
    requires
        exact_factors(h, narrow),
        exact_factors(h, wide),
        narrow.value() <= wide.value(),
    ensures
        exact_decrement(h, g, wide) <= exact_decrement(h, g, narrow),
        narrow.value() < wide.value() && (exists|i: int|
            0 <= i < h.len() && #[trigger] g[i].value() != 0) ==> exact_decrement(h, g, wide)
            < exact_decrement(h, g, narrow),
{
    let n = h.len();
    let e = exact_solution(h, wide, g);
    let delta = (wide.value() - narrow.value()) as real;
    let squares = |i: int| e(i) * e(i);
    assert forall|i: int| 0 <= i < n implies #[trigger] squares(i) >= 0 as real by {
        let x = e(i);
        assert(x * x >= 0 as real) by (nonlinear_arith);
    }
    lemma_total_nonnegative(squares, n);
    lemma_lost_decrement(h, g, narrow, wide);
    let t = total(squares, n);
    assert(delta * t >= 0 as real) by (nonlinear_arith)
        requires
            delta >= 0 as real,
            t >= 0 as real,
    ;
    if narrow.value() < wide.value() && (exists|i: int|
        0 <= i < n && #[trigger] g[i].value() != 0) {
        let i = choose|i: int| 0 <= i < n && #[trigger] g[i].value() != 0;
        // A solution that is zero everywhere solves for a zero gradient alone.
        if forall|j: int| 0 <= j < n ==> #[trigger] e(j) == 0 as real {
            law_exact_solution_solves(h, g, wide, i);
            let f = |j: int| exact_entry(h, wide, i, j) * e(j);
            assert forall|j: int| 0 <= j < n implies #[trigger] f(j) == 0 as real by {
                let x = exact_entry(h, wide, i, j);
                assert(e(j) == 0 as real);
                assert(x * (0 as real) == 0 as real) by (nonlinear_arith);
            }
            lemma_total_nothing(f, n);
        }
        let j = choose|j: int| 0 <= j < n && #[trigger] e(j) != 0 as real;
        let x = e(j);
        assert(x * x > 0 as real) by (nonlinear_arith)
            requires
                x != 0 as real,
        ;
        assert(squares(j) <= t);
        assert(delta * t > 0 as real) by (nonlinear_arith)
            requires
                delta > 0 as real,
                t > 0 as real,
        ;
    }
}

/// What is left of an entry depends only on the rows down to it.
proof fn lemma_reduced_local(
    h: Seq<Seq<Binary64>>,
    m: nat,
    shift: Binary64,
    i: int,
    j: int,
    k: nat,
)
    requires
        k <= j <= i < m <= h.len(),
    ensures
        exact_reduced(h.take(m as int), shift, i, j, k) == exact_reduced(h, shift, i, j, k),
    decreases k,
{
    if 0 < k {
        let c = (k - 1) as nat;
        lemma_reduced_local(h, m, shift, i, j, c);
        lemma_reduced_local(h, m, shift, i, c as int, c);
        lemma_reduced_local(h, m, shift, j, c as int, c);
        lemma_reduced_local(h, m, shift, c as int, c as int, c);
    }
}

/// The forward solve for a row of the matrix gives that row of the factor.
proof fn lemma_forward_of_row(h: Seq<Seq<Binary64>>, shift: Binary64, m: nat, c: int, k: nat)
    requires
        k <= c < m < h.len(),
    ensures
        exact_forward_rest(h.take(m as int), shift, h[m as int], c, k) == exact_reduced(
            h,
            shift,
            m as int,
            c,
            k,
        ),
    decreases k,
{
    if 0 < k {
        let b = (k - 1) as nat;
        lemma_forward_of_row(h, shift, m, c, b);
        lemma_forward_of_row(h, shift, m, b as int, b);
        lemma_reduced_local(h, m, shift, c, b as int, b);
        lemma_reduced_local(h, m, shift, b as int, b as int, b);
        let x = exact_reduced(h, shift, m as int, b as int, b);
        let y = exact_reduced(h, shift, c, b as int, b);
        assert(x * y == y * x) by (nonlinear_arith);
    }
}

/// A pivot is its diagonal entry less twice the decrement of its row in the rows above.
proof fn lemma_pivot_by_decrement(h: Seq<Seq<Binary64>>, shift: Binary64, m: nat)
    requires
        m < h.len(),
        exact_factors(h.take(m as int), shift),
    ensures
        exact_pivot(h, shift, m as int) == exact_entry(h, shift, m as int, m as int) - (2 as real)
            * exact_decrement(h.take(m as int), h[m as int], shift),
{
    let block = h.take(m as int);
    let g = h[m as int];
    let d = exact_solution(block, shift, g);
    lemma_reduced_unrolled(h, shift, m as int, m as int, m);
    let shares = |c: int| share(h, shift, m as int, m as int, c);
    lemma_form_by_columns(block, shift, d, d);
    let by_columns = |c: int|
        projected(block, shift, d, c) * projected(block, shift, d, c) / exact_pivot(
            block,
            shift,
            c,
        );
    assert forall|c: int| 0 <= c < m implies #[trigger] by_columns(c) == shares(c) by {
        lemma_solution_projected(block, shift, g, c);
        lemma_forward_of_row(h, shift, m, c, c as nat);
        lemma_reduced_local(h, m, shift, c, c, c as nat);
    }
    lemma_total_same(by_columns, shares, m);
    let by_rows = |i: int| applied(block, shift, d, i) * d(i);
    let form = |j: int| (g[j].value() as real) * exact_solution(block, shift, g)(j);
    assert forall|i: int| 0 <= i < m implies #[trigger] by_rows(i) == form(i) by {
        law_exact_solution_solves(block, g, shift, i);
    }
    lemma_total_same(by_rows, form, m);
    let t = total(form, m);
    assert((2 as real) * (t / (2 as real)) == t) by (nonlinear_arith);
}

/// Over exact numbers a matrix that factors at a shift factors at every wider one, and no
/// pivot shrinks.
pub proof fn law_wider_shift_keeps_the_exact_factor(
    h: Seq<Seq<Binary64>>,
    narrow: Binary64,
    wide: Binary64,
)
    requires
        exact_factors(h, narrow),
        narrow.value() <= wide.value(),
    ensures
        exact_factors(h, wide),
        forall|c: int|
            0 <= c < h.len() ==> exact_pivot(h, narrow, c) <= #[trigger] exact_pivot(h, wide, c),
{
    lemma_leading_pivots(h, narrow, wide, h.len());
    assert(h.take(h.len() as int) =~= h);
}

proof fn lemma_leading_pivots(
    h: Seq<Seq<Binary64>>,
    narrow: Binary64,
    wide: Binary64,
    m: nat,
)
    requires
        exact_factors(h, narrow),
        narrow.value() <= wide.value(),
        m <= h.len(),
    ensures
        forall|c: int|
            0 <= c < m ==> exact_pivot(h, narrow, c) <= #[trigger] exact_pivot(h, wide, c),
        exact_factors(h.take(m as int), wide),
        exact_factors(h.take(m as int), narrow),
    decreases m,
{
    if 0 < m {
        let k = (m - 1) as nat;
        lemma_leading_pivots(h, narrow, wide, k);
        lemma_pivot_by_decrement(h, narrow, k);
        lemma_pivot_by_decrement(h, wide, k);
        lemma_decrements_at_both(h.take(k as int), h[k as int], narrow, wide);
        assert(exact_pivot(h, narrow, k as int) > 0 as real);
    }
    let block = h.take(m as int);
    assert forall|c: int| 0 <= c < block.len() implies #[trigger] exact_pivot(block, wide, c)
        > 0 as real by {
        lemma_reduced_local(h, m, wide, c, c, c as nat);
        assert(exact_pivot(h, narrow, c) > 0 as real);
        assert(exact_pivot(h, narrow, c) <= exact_pivot(h, wide, c));
    }
    assert forall|c: int| 0 <= c < block.len() implies #[trigger] exact_pivot(block, narrow, c)
        > 0 as real by {
        lemma_reduced_local(h, m, narrow, c, c, c as nat);
        assert(exact_pivot(h, narrow, c) > 0 as real);
    }
}

} // verus!
