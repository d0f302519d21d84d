//! What the shift of a verdict and the verdict itself are, in real numbers.

use crate::binary64::{
    absolute, larger, lemma_root_of_epsilon, product, root, Binary64, EPSILON, ONE,
};
use crate::cholesky::{dot_product, factors, pivot, reduced, solution, usable};
use crate::factor_laws::rest;
use crate::nearness::{
    lemma_constants, lemma_number_order, lemma_number_size, lemma_product_beside, number, size,
    unit,
};
use crate::prediction_laws::{lemma_number_of_power, lemma_positive_number, lemma_small_numbers};
use crate::rounding::{lemma_magnitude_of_parts, magnitude, scale_of, HIDDEN};
use crate::second_order::{
    admitted, arithmetic_shift, curvature_shift, largest_diagonal, shifted_decrease,
};
use crate::tolerance_laws::lemma_times;
use vstd::arithmetic::power2::{lemma2_to64, lemma_pow2_adds, pow2};
use vstd::prelude::*;

verus! {

/// A matrix is judged positive semidefinite exactly where every pivot is positive, at the
/// arithmetic shift or at the shift of the verdict.
pub proof fn law_verdict_is_positive_pivots(h: Seq<Seq<Binary64>>, measured: Binary64)
    ensures
        admitted(h, measured) <==> exists|shift: Binary64|
            #[trigger] positive_pivots(h, shift) && (shift == arithmetic_shift(h) || shift
                == curvature_shift(h, measured)),
{
    lemma_positive_pivots(h, arithmetic_shift(h));
    lemma_positive_pivots(h, curvature_shift(h, measured));
}

/// Whether what is left on the diagonal is finite and above zero in every column.
pub open spec fn positive_pivots(h: Seq<Seq<Binary64>>, shift: Binary64) -> bool {
    forall|j: int|
        0 <= j < h.len() ==> #[trigger] rest(h, shift, j, j, j) > 0 as real && reduced(
            h,
            shift,
            j,
            j,
            j as nat,
        ).finite()
}

proof fn lemma_positive_pivots(h: Seq<Seq<Binary64>>, shift: Binary64)
    ensures
        factors(h, shift, h.len()) <==> positive_pivots(h, shift),
{
    lemma_small_numbers();
    let zero = Binary64 { bits: 0 };
    if factors(h, shift, h.len()) {
        assert forall|j: int| 0 <= j < h.len() implies #[trigger] rest(h, shift, j, j, j)
            > 0 as real && reduced(h, shift, j, j, j as nat).finite() by {
            assert(usable(pivot(h, shift, j as nat)));
            lemma_positive_number(pivot(h, shift, j as nat));
        }
    }
    if positive_pivots(h, shift) {
        assert forall|j: nat| j < h.len() implies usable(#[trigger] pivot(h, shift, j)) by {
            assert(rest(h, shift, j as int, j as int, j as int) > 0 as real);
            lemma_number_order(zero, pivot(h, shift, j));
        }
    }
}

/// The largest magnitude of a diagonal: none exceeds it, and it is one of them or zero.
proof fn lemma_largest_diagonal(h: Seq<Seq<Binary64>>, n: nat)
    requires
        forall|i: int| 0 <= i < n ==> (#[trigger] h[i][i]).finite(),
    ensures
        largest_diagonal(h, n).finite(),
        !largest_diagonal(h, n).negative(),
        forall|i: int|
            0 <= i < n ==> size(number(#[trigger] h[i][i])) <= number(largest_diagonal(h, n)),
        number(largest_diagonal(h, n)) == 0 as real || exists|i: int|
            0 <= i < n && size(number(#[trigger] h[i][i])) == number(largest_diagonal(h, n)),
    decreases n,
{
    lemma_small_numbers();
    if 0 < n {
        let k = (n - 1) as nat;
        lemma_largest_diagonal(h, k);
        let a = largest_diagonal(h, k);
        let last = h[n - 1][n - 1];
        let b = absolute(last);
        assert(last.finite());
        lemma_number_size(last);
        lemma_number_size(b);
        lemma_number_order(b, a);
        let c = largest_diagonal(h, n);
        assert(c == larger(a, b));
        if c == b {
            assert(size(number(h[n - 1][n - 1])) == number(c));
        } else if number(a) != 0 as real {
            let i = choose|i: int|
                0 <= i < k && size(number(#[trigger] h[i][i])) == number(a);
            assert(size(number(h[i][i])) == number(c));
        }
    }
}

/// A number of at least one, times the root of the gap at one, is `2^-26` of it exactly.
proof fn lemma_scaled_down(x: Binary64)
    requires
        x.finite(),
        !x.negative(),
        number(x) >= 1 as real,
    ensures
        ({
            let p = product(root(Binary64 { bits: EPSILON }), x);
            &&& p.finite() && !p.negative()
            &&& number(p) * (67108864 as real) == number(x)
        }),
{
    lemma_constants();
    lemma_small_numbers();
    lemma_root_of_epsilon();
    let e = Binary64 { bits: 0x3e50_0000_0000_0000 };
    lemma_number_of_power(0x3e50_0000_0000_0000, 996);
    let one = Binary64 { bits: ONE };
    lemma_number_order(one, x);
    let b = x.pattern();
    // The pattern twenty-six places down has the same significand at a smaller scale.
    let c = b - 26 * HIDDEN;
    let low = Binary64 { bits: c as u64 };
    let s = scale_of(c);
    let w = b - HIDDEN * scale_of(b);
    assert(scale_of(b) == s + 26);
    let sig = c - HIDDEN * s;
    lemma_magnitude_of_parts(s as nat, sig);
    lemma_magnitude_of_parts((s + 26) as nat, sig);
    lemma_pow2_adds(26, s as nat);
    lemma2_to64();
    assert(magnitude(b) == 67108864 * magnitude(c)) by (nonlinear_arith)
        requires
            magnitude(c) == sig * pow2(s as nat),
            magnitude(b) == sig * pow2((s + 26) as nat),
            pow2(26) * pow2(s as nat) == pow2((s + 26) as nat),
            pow2(26) == 67108864,
    ;
    lemma_number_size(low);
    lemma_number_size(x);
    let u = unit();
    let m = magnitude(c) as real;
    assert(((67108864 as real) * m) * u == (67108864 as real) * (m * u)) by (nonlinear_arith);
    // The root is `2^-26`.
    lemma_pow2_adds(26, 1048);
    let p = pow2(1048) as real;
    let q = pow2(1074) as real;
    assert(q == (67108864 as real) * p) by (nonlinear_arith)
        requires
            pow2(26) * pow2(1048) == pow2(1074),
            pow2(26) == 67108864,
            p == pow2(1048) as real,
            q == pow2(1074) as real,
    {
        let a = pow2(26) as int;
        let b = pow2(1048) as int;
        assert((a * b) as real == (a as real) * (b as real));
    }
    let r = number(e);
    assert(r * (67108864 as real) == 1 as real) by (nonlinear_arith)
        requires
            r == p * u,
            q == (67108864 as real) * p,
            u * q == 1 as real,
    ;
    let y = number(low);
    assert(r * number(x) == y) by (nonlinear_arith)
        requires
            r * (67108864 as real) == 1 as real,
            number(x) == (67108864 as real) * y,
    ;
    lemma_product_beside(e, x, low);
    let t = product(e, x);
    assert(t.rank() == low.rank());
    lemma_number_size(t);
}

/// The shift of a verdict is the largest of what was measured, where that is finite, of
/// `2^-26`, and of `2^-26` of each entry of the diagonal: no less than any of them, and one
/// of them.
pub proof fn law_shift_is_the_largest(h: Seq<Seq<Binary64>>, measured: Binary64)
    requires
        forall|i: int| 0 <= i < h.len() ==> (#[trigger] h[i][i]).finite(),
    ensures
        ({
            let shift = curvature_shift(h, measured);
            let scaled = number(shift) * (67108864 as real);
            &&& shift.finite()
            &&& scaled >= 1 as real
            &&& forall|i: int| 0 <= i < h.len() ==> size(number(#[trigger] h[i][i])) <= scaled
            &&& measured.finite() ==> number(measured) <= number(shift)
            &&& {
                ||| shift == measured
                ||| scaled == 1 as real
                ||| exists|i: int|
                    0 <= i < h.len() && size(number(#[trigger] h[i][i])) == scaled
            }
            &&& !measured.finite() ==> shift != measured
        }),
        number(arithmetic_shift(h)) <= number(curvature_shift(h, measured)),
        arithmetic_shift(h) == curvature_shift(h, Binary64 { bits: 0 }),
{
    lemma_small_numbers();
    lemma_constants();
    let n = h.len();
    lemma_largest_diagonal(h, n);
    let d = largest_diagonal(h, n);
    let one = Binary64 { bits: ONE };
    let x = larger(d, one);
    lemma_number_order(one, d);
    lemma_scaled_down(x);
    let arithmetic = arithmetic_shift(h);
    assert(number(arithmetic) * (67108864 as real) == number(x));
    if measured.finite() {
        lemma_number_order(arithmetic, measured);
        lemma_number_order(measured, arithmetic);
    }
    let zero = Binary64 { bits: 0 };
    lemma_number_order(arithmetic, zero);
    lemma_number_size(arithmetic);
    let shift = curvature_shift(h, measured);
    lemma_times(number(arithmetic), number(shift), 67108864 as real);
    if x == d && number(d) != 0 as real {
        let i = choose|i: int| 0 <= i < n && size(number(#[trigger] h[i][i])) == number(d);
        assert(size(number(h[i][i])) == number(arithmetic) * (67108864 as real));
    }
}

/// A decrement at a shift is owed exactly where every pivot is positive and the form is
/// finite and not below zero.
pub proof fn law_decrement_is_owed(
    h: Seq<Seq<Binary64>>,
    g: Seq<Binary64>,
    shift: Binary64,
)
    ensures
        shifted_decrease(h, g, shift) is Some <==> {
            let form = dot_product(g, solution(h, shift, g));
            positive_pivots(h, shift) && form.finite() && number(form) >= 0 as real
        },
{
    lemma_small_numbers();
    lemma_positive_pivots(h, shift);
    let form = dot_product(g, solution(h, shift, g));
    if form.finite() {
        lemma_number_order(form, Binary64 { bits: 0 });
    }
}

} // verus!
