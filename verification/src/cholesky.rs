//! The lower Cholesky factor of a shifted matrix, and the solves through it.
//!
//! Only the lower triangle of the matrix is read. Every entry is stated by the
//! recurrence that defines it, with each operation rounded once.

use crate::arrays::{Matrix, Vector};
use crate::binary64::{difference, less, product, quotient, root, sum, Binary64, ONE};
use vstd::prelude::*;

verus! {

/// The entry at row `i` and column `j` of `h + shift * I`.
pub open spec fn shifted(h: Seq<Seq<Binary64>>, shift: Binary64, i: int, j: int) -> Binary64 {
    if i == j {
        sum(h[i][j], shift)
    } else {
        h[i][j]
    }
}

/// The entry at row `i` and column `j` of the shifted matrix, less the products of
/// the first `k` columns of the factor.
pub open spec fn reduced(
    h: Seq<Seq<Binary64>>,
    shift: Binary64,
    i: int,
    j: int,
    k: nat,
) -> Binary64
    decreases k, 0int,
{
    if k == 0 {
        shifted(h, shift, i, j)
    } else {
        let c = (k - 1) as nat;
        difference(
            reduced(h, shift, i, j, c),
            product(factor(h, shift, i, c), factor(h, shift, j, c)),
        )
    }
}

/// What is left on the diagonal in column `j`, whose square root scales the column.
pub open spec fn pivot(h: Seq<Seq<Binary64>>, shift: Binary64, j: nat) -> Binary64
    decreases j, 1int,
{
    reduced(h, shift, j as int, j as int, j)
}

/// The entry at row `i` and column `j` of the factor.
pub open spec fn factor(h: Seq<Seq<Binary64>>, shift: Binary64, i: int, j: nat) -> Binary64
    decreases j, 2int,
{
    product(
        reduced(h, shift, i, j as int, j),
        quotient(Binary64 { bits: ONE }, root(pivot(h, shift, j))),
    )
}

/// Whether a pivot lets its column be scaled.
pub open spec fn usable(pivot: Binary64) -> bool {
    pivot.finite() && less(Binary64 { bits: 0 }, pivot)
}

/// Whether `h + shift * I`, with `n` rows, has a factor.
pub open spec fn factors(h: Seq<Seq<Binary64>>, shift: Binary64, n: nat) -> bool {
    forall|j: nat| j < n ==> usable(#[trigger] pivot(h, shift, j))
}

/// Whether a matrix is square with `n` rows.
pub open spec fn square(m: Seq<Seq<Binary64>>, n: nat) -> bool {
    &&& m.len() == n
    &&& forall|i: int| 0 <= i < n ==> #[trigger] m[i].len() == n
}

/// Whether the lower triangle of the columns before `upto` holds the factor.
spec fn holds_factor(
    l: Seq<Seq<Binary64>>,
    h: Seq<Seq<Binary64>>,
    shift: Binary64,
    n: nat,
    upto: nat,
) -> bool {
    forall|i: int, c: nat|
        c < upto && c <= i < n ==> #[trigger] l[i][c as int] == factor(h, shift, i, c)
}

/// Whether the lower triangle of the columns from `start` on holds the shifted matrix.
spec fn holds_shifted(
    l: Seq<Seq<Binary64>>,
    h: Seq<Seq<Binary64>>,
    shift: Binary64,
    n: nat,
    start: nat,
) -> bool {
    forall|i: int, c: int| start <= c <= i < n ==> #[trigger] l[i][c] == shifted(h, shift, i, c)
}

/// The lower Cholesky factor of `hessian + shift * I`, or `None` at the first pivot
/// that is not finite and positive.
pub(crate) fn cholesky(hessian: &Matrix, shift: Binary64) -> (l: Option<Matrix>)
    requires
        square(hessian@, hessian.columns()),
    ensures
        l is Some <==> factors(hessian@, shift, hessian.columns()),
        l matches Some(l) ==> l.columns() == hessian.columns() && square(l@, hessian.columns()),
        l matches Some(l) ==> forall|i: int, c: nat|
            c <= i < hessian.columns() ==> #[trigger] l@[i][c as int] == factor(
                hessian@,
                shift,
                i,
                c,
            ),
{
    let n: usize = hessian.nrows();
    let ghost h = hessian@;
    let mut l: Matrix = hessian.clone();
    let mut j: usize = 0;
    while j < n
        invariant
            n == hessian.columns(),
            h == hessian@,
            square(h, n as nat),
            square(l@, n as nat),
            l.columns() == n,
            j <= n,
            forall|i: int, c: int|
                0 <= c <= i < n ==> #[trigger] l@[i][c] == if c < j {
                    shifted(h, shift, i, c)
                } else {
                    h[i][c]
                },
        decreases n - j,
    {
        let moved: Binary64 = l.at(j, j).plus(shift);
        l.set(j, j, moved);
        j = j + 1;
    }
    j = 0;
    while j < n
        invariant
            n == hessian.columns(),
            h == hessian@,
            square(l@, n as nat),
            l.columns() == n,
            j <= n,
            forall|c: nat| c < j ==> usable(#[trigger] pivot(h, shift, c)),
            holds_factor(l@, h, shift, n as nat, j as nat),
            holds_shifted(l@, h, shift, n as nat, j as nat),
        decreases n - j,
    {
        reduce_column(&mut l, j, Ghost(h), Ghost(shift));
        let p: Binary64 = l.at(j, j);
        if !(p.is_finite() && Binary64::from_bits(0).is_less(p)) {
            assert(p == pivot(h, shift, j as nat));
            return None;
        }
        let scale: Binary64 = Binary64::from_bits(ONE).over(p.sqrt());
        scale_column(&mut l, j, scale, Ghost(h), Ghost(shift));
        j = j + 1;
    }
    Some(l)
}

/// Take the products of the earlier columns of the factor from column `j`.
fn reduce_column(
    l: &mut Matrix,
    j: usize,
    Ghost(h): Ghost<Seq<Seq<Binary64>>>,
    Ghost(shift): Ghost<Binary64>,
)
    requires
        j < old(l).columns(),
        square(old(l)@, old(l).columns()),
        holds_factor(old(l)@, h, shift, old(l).columns(), j as nat),
        holds_shifted(old(l)@, h, shift, old(l).columns(), j as nat),
    ensures
        final(l).columns() == old(l).columns(),
        square(final(l)@, old(l).columns()),
        holds_factor(final(l)@, h, shift, old(l).columns(), j as nat),
        holds_shifted(final(l)@, h, shift, old(l).columns(), (j + 1) as nat),
        forall|i: int|
            j <= i < old(l).columns() ==> #[trigger] final(l)@[i][j as int] == reduced(
                h,
                shift,
                i,
                j as int,
                j as nat,
            ),
{
    let n: usize = l.nrows();
    let mut k: usize = 0;
    while k < j
        invariant
            n == l.columns(),
            n == old(l).columns(),
            k <= j < n,
            square(l@, n as nat),
            holds_factor(l@, h, shift, n as nat, j as nat),
            holds_shifted(l@, h, shift, n as nat, (j + 1) as nat),
            forall|i: int|
                j <= i < n ==> #[trigger] l@[i][j as int] == reduced(
                    h,
                    shift,
                    i,
                    j as int,
                    k as nat,
                ),
        decreases j - k,
    {
        let across: Binary64 = l.at(j, k);
        assert(across == factor(h, shift, j as int, k as nat)) by {
            assert(l@[j as int][(k as nat) as int] == across);
        }
        let mut i: usize = j;
        while i < n
            invariant
                n == l.columns(),
                n == old(l).columns(),
                k < j <= i <= n,
                j < n,
                across == factor(h, shift, j as int, k as nat),
                square(l@, n as nat),
                holds_factor(l@, h, shift, n as nat, j as nat),
                holds_shifted(l@, h, shift, n as nat, (j + 1) as nat),
                forall|a: int|
                    j <= a < n ==> #[trigger] l@[a][j as int] == reduced(
                        h,
                        shift,
                        a,
                        j as int,
                        if a < i {
                            (k + 1) as nat
                        } else {
                            k as nat
                        },
                    ),
            decreases n - i,
        {
            let ghost before = l@;
            let down: Binary64 = l.at(i, k);
            assert(down == factor(h, shift, i as int, k as nat)) by {
                assert(l@[i as int][(k as nat) as int] == down);
            }
            let left: Binary64 = l.at(i, j);
            l.set(i, j, left.minus(down.times(across)));
            proof {
                let after = l@;
                assert(after[i as int][j as int] == reduced(
                    h,
                    shift,
                    i as int,
                    j as int,
                    (k + 1) as nat,
                ));
                lemma_other_columns(before, after, h, shift, n as nat, i as int, j as int);
                assert forall|a: int| j <= a < n && a != i implies #[trigger] after[a][j as int]
                    == before[a][j as int] by {}
            }
            i = i + 1;
        }
        k = k + 1;
    }
}

/// Writing in column `j` leaves the columns on both sides.
proof fn lemma_other_columns(
    before: Seq<Seq<Binary64>>,
    after: Seq<Seq<Binary64>>,
    h: Seq<Seq<Binary64>>,
    shift: Binary64,
    n: nat,
    i: int,
    j: int,
)
    requires
        square(before, n),
        0 <= i < n,
        0 <= j < n,
        after == before.update(i, before[i].update(j, after[i][j])),
        holds_factor(before, h, shift, n, j as nat),
        holds_shifted(before, h, shift, n, (j + 1) as nat),
    ensures
        square(after, n),
        holds_factor(after, h, shift, n, j as nat),
        holds_shifted(after, h, shift, n, (j + 1) as nat),
{
    assert forall|a: int, c: nat| c < j && c <= a < n implies #[trigger] after[a][c as int]
        == factor(h, shift, a, c) by {
        assert(before[a][c as int] == factor(h, shift, a, c));
    }
    assert forall|a: int, c: int| j + 1 <= c <= a < n implies #[trigger] after[a][c] == shifted(
        h,
        shift,
        a,
        c,
    ) by {
        assert(before[a][c] == shifted(h, shift, a, c));
    }
}

/// Scale a reduced column into a column of the factor.
fn scale_column(
    l: &mut Matrix,
    j: usize,
    scale: Binary64,
    Ghost(h): Ghost<Seq<Seq<Binary64>>>,
    Ghost(shift): Ghost<Binary64>,
)
    requires
        j < old(l).columns(),
        square(old(l)@, old(l).columns()),
        holds_factor(old(l)@, h, shift, old(l).columns(), j as nat),
        holds_shifted(old(l)@, h, shift, old(l).columns(), (j + 1) as nat),
        scale == quotient(Binary64 { bits: ONE }, root(pivot(h, shift, j as nat))),
        forall|i: int|
            j <= i < old(l).columns() ==> #[trigger] old(l)@[i][j as int] == reduced(
                h,
                shift,
                i,
                j as int,
                j as nat,
            ),
    ensures
        final(l).columns() == old(l).columns(),
        square(final(l)@, old(l).columns()),
        holds_factor(final(l)@, h, shift, old(l).columns(), (j + 1) as nat),
        holds_shifted(final(l)@, h, shift, old(l).columns(), (j + 1) as nat),
{
    let n: usize = l.nrows();
    let mut i: usize = j;
    while i < n
        invariant
            n == l.columns(),
            n == old(l).columns(),
            j <= i <= n,
            j < n,
            square(l@, n as nat),
            holds_factor(l@, h, shift, n as nat, j as nat),
            holds_shifted(l@, h, shift, n as nat, (j + 1) as nat),
            scale == quotient(Binary64 { bits: ONE }, root(pivot(h, shift, j as nat))),
            forall|a: int|
                j <= a < n ==> #[trigger] l@[a][j as int] == if a < i {
                    factor(h, shift, a, j as nat)
                } else {
                    reduced(h, shift, a, j as int, j as nat)
                },
        decreases n - i,
    {
        let ghost before = l@;
        let entry: Binary64 = l.at(i, j);
        l.set(i, j, entry.times(scale));
        proof {
            let after = l@;
            assert(after[i as int][j as int] == factor(h, shift, i as int, j as nat));
            lemma_other_columns(before, after, h, shift, n as nat, i as int, j as int);
            assert forall|a: int| j <= a < n && a != i implies #[trigger] after[a][j as int]
                == before[a][j as int] by {}
        }
        i = i + 1;
    }
    proof {
        let done = l@;
        assert forall|a: int, c: nat| c < j + 1 && c <= a < n implies #[trigger] done[a][c as int]
            == factor(h, shift, a, c) by {
            if c == j {
                assert(done[a][j as int] == factor(h, shift, a, j as nat));
            }
        }
    }
}

/// The entry `j` of the solution of `L y = g`.
pub open spec fn forward(
    h: Seq<Seq<Binary64>>,
    shift: Binary64,
    g: Seq<Binary64>,
    j: nat,
) -> Binary64
    decreases j, 1int,
{
    quotient(forward_rest(h, shift, g, j as int, j), factor(h, shift, j as int, j))
}

/// The entry `j` of `g`, less the products of row `j` of the factor with the first
/// `k` entries of `y`.
pub open spec fn forward_rest(
    h: Seq<Seq<Binary64>>,
    shift: Binary64,
    g: Seq<Binary64>,
    j: int,
    k: nat,
) -> Binary64
    decreases k, 0int,
{
    if k == 0 {
        g[j]
    } else {
        let c = (k - 1) as nat;
        difference(
            forward_rest(h, shift, g, j, c),
            product(factor(h, shift, j, c), forward(h, shift, g, c)),
        )
    }
}

/// The entry `j` of the solution of `L' d = y`, with `n` rows.
pub open spec fn backward(
    h: Seq<Seq<Binary64>>,
    shift: Binary64,
    g: Seq<Binary64>,
    n: nat,
    j: nat,
) -> Binary64
    decreases n - j, n + 1,
{
    if j < n {
        quotient(backward_rest(h, shift, g, n, j, n), factor(h, shift, j as int, j))
    } else {
        Binary64 { bits: 0 }
    }
}

/// The entry `j` of `y`, less the products of column `j` of the factor below the
/// diagonal with the entries of `d`, for the rows before `k`.
pub open spec fn backward_rest(
    h: Seq<Seq<Binary64>>,
    shift: Binary64,
    g: Seq<Binary64>,
    n: nat,
    j: nat,
    k: nat,
) -> Binary64
    decreases n - j, k,
{
    if k <= j + 1 || n < k {
        forward(h, shift, g, j)
    } else {
        let r = (k - 1) as nat;
        difference(
            backward_rest(h, shift, g, n, j, r),
            product(factor(h, shift, r as int, j), backward(h, shift, g, n, r)),
        )
    }
}

/// The solution of `(h + shift * I) d = g` through the factor.
pub open spec fn solution(
    h: Seq<Seq<Binary64>>,
    shift: Binary64,
    g: Seq<Binary64>,
) -> Seq<Binary64> {
    Seq::new(g.len(), |j: int| backward(h, shift, g, g.len(), j as nat))
}

/// Whether the lower triangle of `l` is the factor of `h + shift * I`.
pub open spec fn is_factor(
    l: Seq<Seq<Binary64>>,
    h: Seq<Seq<Binary64>>,
    shift: Binary64,
    n: nat,
) -> bool {
    forall|i: int, c: nat| c <= i < n ==> #[trigger] l[i][c as int] == factor(h, shift, i, c)
}

/// Solve `L L' d = grad` for the factor `l` of `h + shift * I`.
pub(crate) fn solve(
    l: &Matrix,
    grad: &Vector,
    Ghost(h): Ghost<Seq<Seq<Binary64>>>,
    Ghost(shift): Ghost<Binary64>,
) -> (d: Vector)
    requires
        grad@.len() == l.columns(),
        square(l@, l.columns()),
        is_factor(l@, h, shift, l.columns()),
    ensures
        d@ == solution(h, shift, grad@),
{
    let n: usize = l.nrows();
    let ghost g = grad@;
    let mut y: Vector = grad.clone();
    let mut j: usize = 0;
    while j < n
        invariant
            n == l.columns(),
            n == g.len(),
            y@.len() == n,
            j <= n,
            square(l@, n as nat),
            is_factor(l@, h, shift, n as nat),
            forall|a: int| 0 <= a < j ==> #[trigger] y@[a] == forward(h, shift, g, a as nat),
            forall|a: int| j <= a < n ==> #[trigger] y@[a] == g[a],
        decreases n - j,
    {
        let mut s: Binary64 = y.at(j);
        let mut k: usize = 0;
        while k < j
            invariant
                n == l.columns(),
                n == g.len(),
                y@.len() == n,
                k <= j < n,
                square(l@, n as nat),
                is_factor(l@, h, shift, n as nat),
                forall|a: int| 0 <= a < j ==> #[trigger] y@[a] == forward(h, shift, g, a as nat),
                s == forward_rest(h, shift, g, j as int, k as nat),
            decreases j - k,
        {
            let entry: Binary64 = l.at(j, k);
            assert(l@[j as int][(k as nat) as int] == entry);
            s = s.minus(entry.times(y.at(k)));
            k = k + 1;
        }
        let entry: Binary64 = l.at(j, j);
        assert(l@[j as int][(j as nat) as int] == entry);
        y.set(j, s.over(entry));
        j = j + 1;
    }
    let mut d: Vector = y;
    while 0 < j
        invariant
            n == l.columns(),
            n == g.len(),
            d@.len() == n,
            j <= n,
            square(l@, n as nat),
            is_factor(l@, h, shift, n as nat),
            forall|a: int| 0 <= a < j ==> #[trigger] d@[a] == forward(h, shift, g, a as nat),
            forall|a: int|
                j <= a < n ==> #[trigger] d@[a] == backward(h, shift, g, n as nat, a as nat),
        decreases j,
    {
        j = j - 1;
        let mut s: Binary64 = d.at(j);
        let mut k: usize = j + 1;
        while k < n
            invariant
                n == l.columns(),
                n == g.len(),
                d@.len() == n,
                j < k <= n,
                square(l@, n as nat),
                is_factor(l@, h, shift, n as nat),
                forall|a: int|
                    j < a < n ==> #[trigger] d@[a] == backward(h, shift, g, n as nat, a as nat),
                s == backward_rest(h, shift, g, n as nat, j as nat, k as nat),
            decreases n - k,
        {
            let entry: Binary64 = l.at(k, j);
            assert(l@[k as int][(j as nat) as int] == entry);
            s = s.minus(entry.times(d.at(k)));
            k = k + 1;
        }
        let entry: Binary64 = l.at(j, j);
        assert(l@[j as int][(j as nat) as int] == entry);
        d.set(j, s.over(entry));
    }
    d
}

/// The running sum of one of eight lanes over the first `blocks` blocks of eight.
pub open spec fn lane(x: Seq<Binary64>, y: Seq<Binary64>, p: int, blocks: nat) -> Binary64
    decreases blocks,
{
    if blocks == 0 {
        Binary64 { bits: 0 }
    } else {
        let b = (blocks - 1) as nat;
        sum(lane(x, y, p, b), product(x[8 * b + p], y[8 * b + p]))
    }
}

/// The lanes added up in the order of their pairs.
pub open spec fn lanes(x: Seq<Binary64>, y: Seq<Binary64>, blocks: nat) -> Binary64 {
    let pair = |p: int| sum(lane(x, y, p, blocks), lane(x, y, p + 4, blocks));
    sum(sum(sum(sum(Binary64 { bits: 0 }, pair(0)), pair(1)), pair(2)), pair(3))
}

/// `start` and then the products at the places from `from` up to `upto`.
pub open spec fn tail(
    x: Seq<Binary64>,
    y: Seq<Binary64>,
    start: Binary64,
    from: int,
    upto: int,
) -> Binary64
    decreases upto - from,
{
    if upto <= from {
        start
    } else {
        sum(tail(x, y, start, from, upto - 1), product(x[upto - 1], y[upto - 1]))
    }
}

/// The dot product of two vectors of one length: eight interleaved lanes over the
/// whole blocks of eight, then the entries left over. The order of the additions
/// decides how the sum rounds.
pub open spec fn dot_product(x: Seq<Binary64>, y: Seq<Binary64>) -> Binary64 {
    let blocks = (x.len() / 8) as nat;
    tail(x, y, lanes(x, y, blocks), (8 * blocks) as int, x.len() as int)
}

/// The dot product, with the additions in the order that contiguous arrays take them.
pub(crate) fn dot(x: &Vector, y: &Vector) -> (r: Binary64)
    requires
        x@.len() == y@.len(),
    ensures
        r == dot_product(x@, y@),
{
    let n: usize = x.len();
    let blocks: usize = n / 8;
    let mut total: Binary64 = Binary64::from_bits(0);
    let mut p: usize = 0;
    let ghost pair = |p: int|
        sum(lane(x@, y@, p, blocks as nat), lane(x@, y@, p + 4, blocks as nat));
    let ghost zero = Binary64 { bits: 0 };
    while p < 4
        invariant
            n == x@.len(),
            n == y@.len(),
            blocks == n / 8,
            p <= 4,
            pair == (|p: int|
                sum(lane(x@, y@, p, blocks as nat), lane(x@, y@, p + 4, blocks as nat))),
            zero == (Binary64 { bits: 0 }),
            p == 0 ==> total == zero,
            p == 1 ==> total == sum(zero, pair(0)),
            p == 2 ==> total == sum(sum(zero, pair(0)), pair(1)),
            p == 3 ==> total == sum(sum(sum(zero, pair(0)), pair(1)), pair(2)),
            p == 4 ==> total == lanes(x@, y@, blocks as nat),
        decreases 4 - p,
    {
        let low: Binary64 = lane_sum(x, y, p, blocks);
        let high: Binary64 = lane_sum(x, y, p + 4, blocks);
        total = total.plus(low.plus(high));
        p = p + 1;
    }
    let mut i: usize = 8 * blocks;
    while i < n
        invariant
            n == x@.len(),
            n == y@.len(),
            blocks == n / 8,
            8 * blocks <= i <= n,
            total == tail(x@, y@, lanes(x@, y@, blocks as nat), 8 * blocks, i as int),
        decreases n - i,
    {
        total = total.plus(x.at(i).times(y.at(i)));
        i = i + 1;
    }
    total
}

/// One lane of the dot product.
fn lane_sum(x: &Vector, y: &Vector, p: usize, blocks: usize) -> (r: Binary64)
    requires
        x@.len() == y@.len(),
        blocks == x@.len() / 8,
        p < 8,
    ensures
        r == lane(x@, y@, p as int, blocks as nat),
{
    let n: usize = x.len();
    let mut total: Binary64 = Binary64::from_bits(0);
    let mut b: usize = 0;
    while b < blocks
        invariant
            x@.len() == y@.len(),
            blocks == x@.len() / 8,
            p < 8,
            b <= blocks,
            n == x@.len(),
            total == lane(x@, y@, p as int, b as nat),
        decreases blocks - b,
    {
        assert(8 * b + p < x@.len());
        total = total.plus(x.at(8 * b + p).times(y.at(8 * b + p)));
        b = b + 1;
    }
    total
}

} // verus!
