//! The Newton decrement over exact numbers: the recurrences of [`crate::cholesky`] with
//! nothing rounded.
//!
//! Numbers are counted in units of `2^-1074`, as [`Binary64::value`] does. The factor's
//! column `c` is kept unscaled, beside its pivot: the root of the pivot that scales it
//! cancels wherever two entries of the column meet.

use crate::binary64::Binary64;
use vstd::prelude::*;

verus! {

/// The sum of `f` over the places before `n`.
pub open spec fn total(f: spec_fn(int) -> real, n: nat) -> real
    decreases n,
{
    if n == 0 {
        0 as real
    } else {
        total(f, (n - 1) as nat) + f(n - 1)
    }
}

/// The entry at row `i` and column `j` of the symmetric matrix whose lower triangle is
/// that of `h + shift * I`.
pub open spec fn exact_entry(h: Seq<Seq<Binary64>>, shift: Binary64, i: int, j: int) -> real {
    if i == j {
        (h[i][j].value() + shift.value()) as real
    } else if j < i {
        h[i][j].value() as real
    } else {
        h[j][i].value() as real
    }
}

/// The entry at row `i` and column `j`, less the products of the first `k` columns of the
/// factor.
pub open spec fn exact_reduced(
    h: Seq<Seq<Binary64>>,
    shift: Binary64,
    i: int,
    j: int,
    k: nat,
) -> real
    decreases k,
{
    if k == 0 {
        exact_entry(h, shift, i, j)
    } else {
        let c = (k - 1) as nat;
        exact_reduced(h, shift, i, j, c) - exact_reduced(h, shift, i, c as int, c) * exact_reduced(
            h,
            shift,
            j,
            c as int,
            c,
        ) / exact_reduced(h, shift, c as int, c as int, c)
    }
}

/// What is left on the diagonal in column `c`.
pub open spec fn exact_pivot(h: Seq<Seq<Binary64>>, shift: Binary64, c: int) -> real {
    exact_reduced(h, shift, c, c, c as nat)
}

/// The entry at row `i` and column `c` of the unscaled factor.
pub open spec fn exact_column(h: Seq<Seq<Binary64>>, shift: Binary64, i: int, c: int) -> real {
    if 0 <= c <= i {
        exact_reduced(h, shift, i, c, c as nat)
    } else {
        0 as real
    }
}

/// Whether the shifted matrix has a factor: every pivot is positive.
pub open spec fn exact_factors(h: Seq<Seq<Binary64>>, shift: Binary64) -> bool {
    forall|c: int| 0 <= c < h.len() ==> #[trigger] exact_pivot(h, shift, c) > 0 as real
}

/// The entry `j` of `g`, less the products of row `j` of the factor with the first `k`
/// entries of the forward solve.
pub open spec fn exact_forward_rest(
    h: Seq<Seq<Binary64>>,
    shift: Binary64,
    g: Seq<Binary64>,
    j: int,
    k: nat,
) -> real
    decreases k,
{
    if k == 0 {
        g[j].value() as real
    } else {
        let c = (k - 1) as nat;
        exact_forward_rest(h, shift, g, j, c) - exact_column(h, shift, j, c as int)
            * exact_forward_rest(h, shift, g, c as int, c) / exact_pivot(h, shift, c as int)
    }
}

/// The entry `j` of the forward solve.
pub open spec fn exact_forward(
    h: Seq<Seq<Binary64>>,
    shift: Binary64,
    g: Seq<Binary64>,
    j: int,
) -> real {
    exact_forward_rest(h, shift, g, j, j as nat)
}

/// The entry `j` of the backward solve, with `n` rows.
pub open spec fn exact_backward(
    h: Seq<Seq<Binary64>>,
    shift: Binary64,
    g: Seq<Binary64>,
    n: nat,
    j: int,
) -> real
    decreases n - j, n + 1,
{
    if 0 <= j < n {
        exact_backward_rest(h, shift, g, n, j, n) / exact_pivot(h, shift, j)
    } else {
        0 as real
    }
}

/// The entry `j` of the forward solve, less the products of column `j` of the factor
/// below the diagonal with the entries of the backward solve, for the rows before `k`.
pub open spec fn exact_backward_rest(
    h: Seq<Seq<Binary64>>,
    shift: Binary64,
    g: Seq<Binary64>,
    n: nat,
    j: int,
    k: nat,
) -> real
    decreases n - j, k,
{
    if k <= j + 1 || n < k || j < 0 {
        exact_forward(h, shift, g, j)
    } else {
        let r = k - 1;
        exact_backward_rest(h, shift, g, n, j, (k - 1) as nat) - exact_column(h, shift, r, j)
            * exact_backward(h, shift, g, n, r)
    }
}

/// The solution of `(H + shift·I) d = g` through the factor.
pub open spec fn exact_solution(
    h: Seq<Seq<Binary64>>,
    shift: Binary64,
    g: Seq<Binary64>,
) -> spec_fn(int) -> real {
    |j: int| exact_backward(h, shift, g, h.len(), j)
}

/// `½·gᵀ(H + shift·I)⁻¹g`.
pub open spec fn exact_decrement(
    h: Seq<Seq<Binary64>>,
    g: Seq<Binary64>,
    shift: Binary64,
) -> real {
    total(|j: int| (g[j].value() as real) * exact_solution(h, shift, g)(j), h.len()) / (2 as real)
}

} // verus!
