//! What the numbers in a verdict on a claim of negative curvature are, in real numbers.

use crate::binary64::{absolute, lemma_product_sign, normal, product, Binary64, HALF, ONE, TWO};
use crate::factor_laws::{lemma_normal_above_underflow, lemma_small_underflow};
use crate::nearness::{
    largest, lemma_constants, lemma_number_size, lemma_product_finite, lemma_product_near,
    lemma_size_product, number, roundoff, size, underflow, unit,
};
use crate::order::lemma_pattern_magnitude;
use crate::rounding::{lemma_magnitude_of_parts, lemma_magnitude_zero, HIDDEN};
use crate::second_order::{largest_prediction, positive};
use crate::tolerance_laws::lemma_times;
use vstd::arithmetic::power2::{
    lemma2_to64, lemma2_to64_rest, lemma_pow2_adds, lemma_pow2_strictly_increases,
    lemma_pow2_unfold, pow2,
};
use vstd::prelude::*;

verus! {

/// A power of two in the normal range, as a real number.
pub proof fn lemma_number_of_power(bits: u64, shift: nat)
    requires
        bits < 0x7ff0_0000_0000_0000,
        bits == (shift + 1) * 0x10_0000_0000_0000,
    ensures
        number(Binary64 { bits }) == (pow2(52 + shift) as real) * unit(),
        (Binary64 { bits }).finite(),
        !(Binary64 { bits }).negative(),
{
    lemma_magnitude_of_parts(shift, HIDDEN as int);
    lemma2_to64_rest();
    lemma_pow2_adds(52, shift);
}

/// One half, one and two.
pub proof fn lemma_small_numbers()
    ensures
        number(Binary64 { bits: HALF }) == (1 as real) / (2 as real),
        number(Binary64 { bits: ONE }) == 1 as real,
        number(Binary64 { bits: TWO }) == 2 as real,
        number(Binary64 { bits: 0 }) == 0 as real,
{
    lemma_number_of_power(HALF, 1021);
    lemma_number_of_power(ONE, 1022);
    lemma_number_of_power(TWO, 1023);
    lemma_constants();
    lemma_pow2_unfold(1074);
    lemma_pow2_unfold(1075);
    let u = unit();
    let a = pow2(1073) as real;
    let b = pow2(1074) as real;
    let c = pow2(1075) as real;
    assert(b == (2 as real) * a && c == (2 as real) * b);
    assert(a * u == (1 as real) / (2 as real) && c * u == 2 as real && b * u == 1 as real)
        by (nonlinear_arith)
        requires
            b == (2 as real) * a,
            c == (2 as real) * b,
            u * b == 1 as real,
    ;
    lemma_magnitude_zero();
    assert((0 as real) * u == 0 as real) by (nonlinear_arith);
}

/// A finite number other than zero and above it, as a real number.
pub proof fn lemma_positive_number(x: Binary64)
    requires
        positive(x),
    ensures
        number(x) > 0 as real,
        size(number(x)) == number(x),
        !x.negative(),
{
    lemma_constants();
    lemma_number_size(x);
    let m = x.magnitude() as real;
    let u = unit();
    assert(m * u > 0 as real) by (nonlinear_arith)
        requires
            m > 0 as real,
            u > 0 as real,
    ;
}

/// The decrease that a curvature predicts at a step: `½|λ|·α²`.
pub open spec fn decrease(lambda: Binary64, alpha: Binary64) -> real {
    size(number(lambda)) * number(alpha) * number(alpha) / (2 as real)
}

/// No finite number is past the largest, which is far above one.
pub proof fn lemma_largest()
    ensures
        largest() >= 1024 as real,
        forall|x: Binary64| (#[trigger] x.finite()) ==> size(number(x)) <= largest(),
{
    lemma_constants();
    lemma_small_numbers();
    let top = Binary64 { bits: 0x7fef_ffff_ffff_ffff };
    lemma_number_size(top);
    let u = unit();
    assert forall|x: Binary64| (#[trigger] x.finite()) implies size(number(x)) <= largest() by {
        lemma_number_size(x);
        lemma_pattern_magnitude(x, top);
        lemma_times(x.magnitude() as real, top.magnitude() as real, u);
    }
    let thousand = Binary64 { bits: 0x4090_0000_0000_0000 };
    lemma_number_of_power(0x4090_0000_0000_0000, 1032);
    lemma_pow2_adds(10, 1074);
    lemma2_to64();
    let q = pow2(1074) as real;
    assert((1024 as real) * q * u == 1024 as real) by (nonlinear_arith)
        requires
            u * q == 1 as real,
    ;
    assert(thousand.finite());
}

/// A factor near `q` keeps the product finite where `q` does by far.
proof fn lemma_stays_finite(q: real, g: Binary64, alpha: Binary64)
    requires
        g.finite(),
        !g.negative(),
        positive(alpha),
        size(q - number(g)) <= (4 as real) * (roundoff() * number(g)) + (2 as real) * underflow(),
        q * number(alpha) <= largest() / (4 as real),
    ensures
        product(g, alpha).finite(),
{
    lemma_constants();
    lemma_small_underflow();
    lemma_largest();
    lemma_positive_number(alpha);
    lemma_number_size(g);
    let u = roundoff();
    let e = underflow();
    let x = number(g);
    let a = number(alpha);
    lemma_times(u, (1 as real) / (1024 as real), x);
    lemma_times(x, (2 as real) * q + (4 as real) * e, a);
    assert(((2 as real) * q + (4 as real) * e) * a == (2 as real) * (q * a) + (4 as real) * (e * a))
        by (nonlinear_arith);
    lemma_times(e, (1 as real) / (1024 as real), a);
    assert(alpha.finite());
    lemma_size_product(x, a);
    lemma_product_finite(g, alpha);
}

/// Half a curvature times a step is finite where the prediction is.
proof fn lemma_small_enough(x: real, exact: real, halved: Binary64, alpha: Binary64)
    requires
        normal(halved),
        !halved.negative(),
        positive(alpha),
        x >= 0 as real,
        size(x / (2 as real) - number(halved)) <= (2 as real) * (roundoff() * number(halved)),
        exact == x * number(alpha) / (2 as real) * number(alpha),
        exact <= largest() / (4 as real),
    ensures
        product(halved, alpha).finite(),
{
    lemma_constants();
    lemma_largest();
    lemma_positive_number(alpha);
    lemma_number_size(halved);
    let u = roundoff();
    let h = number(halved);
    let a = number(alpha);
    lemma_times(u, (1 as real) / (1024 as real), h);
    assert(halved.finite());
    if a <= 1 as real {
        lemma_times(a, 1 as real, h);
    } else {
        let q = x * a / (2 as real);
        assert(q >= 0 as real && (2 as real) * q == x * a) by (nonlinear_arith)
            requires
                q == x * a / (2 as real),
                x >= 0 as real,
                a > 1 as real,
        ;
        lemma_times(1 as real, a, q);
        lemma_times(h, x, a);
    }
    lemma_size_product(h, a);
    lemma_product_finite(halved, alpha);
}

/// A number too small to be halved exactly meets no overflow.
proof fn lemma_subnormal_product_finite(l: Binary64, alpha: Binary64)
    requires
        l.finite(),
        !l.negative(),
        positive(alpha),
        !normal(product(Binary64 { bits: HALF }, l)),
    ensures
        product(l, alpha).finite(),
{
    lemma_constants();
    lemma_small_underflow();
    lemma_small_numbers();
    lemma_largest();
    lemma_positive_number(alpha);
    lemma_number_size(l);
    let half = Binary64 { bits: HALF };
    let x = number(l);
    let a = number(alpha);
    assert(number(half) * x == x / (2 as real)) by (nonlinear_arith)
        requires
            number(half) == (1 as real) / (2 as real),
    ;
    lemma_product_finite(half, l);
    lemma_product_near(half, l);
    let h = product(half, l);
    lemma_number_size(h);
    let y = number(h);
    lemma_product_sign(half, l);
    let least = Binary64 { bits: HIDDEN };
    lemma_pattern_magnitude(h, least);
    lemma_magnitude_of_parts(0, HIDDEN as int);
    lemma2_to64();
    lemma2_to64_rest();
    lemma_pow2_strictly_increases(60, 1074);
    let u = unit();
    let q = pow2(1074) as real;
    let w = pow2(0) as int;
    assert(HIDDEN * w == HIDDEN) by (nonlinear_arith)
        requires
            w == 1,
    ;
    let m = h.magnitude() as real;
    lemma_times((16 as real) * m, q, u);
    assert(((16 as real) * m) * u == (16 as real) * (m * u)) by (nonlinear_arith);
    lemma_times(roundoff(), (1 as real) / (1024 as real), y);
    assert(x <= 1 as real);
    lemma_times(x, 1 as real, a);
    lemma_size_product(x, a);
    lemma_product_finite(l, alpha);
}

/// The last step of a prediction.
proof fn lemma_last_step(q: real, g: Binary64, alpha: Binary64)
    requires
        product(g, alpha).finite(),
        !g.negative(),
        positive(alpha),
        size(q - number(g)) <= (4 as real) * (roundoff() * number(g)) + (2 as real) * underflow(),
    ensures
        size(q * number(alpha) - number(product(g, alpha))) <= (6 as real) * (roundoff() * number(
            product(g, alpha),
        )) + (3 as real) * (underflow() * ((1 as real) + number(alpha))),
{
    lemma_constants();
    lemma_product_near(g, alpha);
    lemma_product_sign(g, alpha);
    lemma_positive_number(alpha);
    let p = product(g, alpha);
    lemma_number_size(p);
    lemma_number_size(g);
    let u = roundoff();
    let e = underflow();
    let a = number(alpha);
    let x = number(g);
    let y = number(p);
    let xa = x * a;
    lemma_size_product(q - x, a);
    lemma_times(size(q - x), (4 as real) * (u * x) + (2 as real) * e, a);
    assert((q - x) * a == q * a - xa) by (nonlinear_arith)
        requires
            xa == x * a,
    ;
    let ux = u * xa;
    assert(((4 as real) * (u * x) + (2 as real) * e) * a == (4 as real) * ux + (2 as real) * (e
        * a)) by (nonlinear_arith)
        requires
            ux == u * xa,
            xa == x * a,
    ;
    let uy = u * y;
    lemma_times(xa, y + uy + e, u);
    assert(u * (y + uy + e) == uy + u * uy + u * e) by (nonlinear_arith)
        requires
            uy == u * y,
    ;
    lemma_times(0 as real, y, u);
    lemma_times(u, (1 as real) / (1024 as real), uy);
    lemma_times(u, (1 as real) / (1024 as real), e);
    assert(e * ((1 as real) + a) == e + e * a) by (nonlinear_arith);
    lemma_times(0 as real, a, e);
}

/// The decrease predicted at the largest step is `½|λ|·α²`, up to a few roundings; it is
/// finite unless that is not.
pub proof fn law_prediction_is_half_the_curvature_times_the_square(
    lambda_min: Binary64,
    alpha_max: Binary64,
)
    requires
        lambda_min.finite(),
        positive(alpha_max),
    ensures
        ({
            let exact = decrease(lambda_min, alpha_max);
            let predicted = largest_prediction(lambda_min, alpha_max);
            &&& predicted.finite() ==> size(exact - number(predicted)) <= (6 as real) * (roundoff()
                * number(predicted)) + (3 as real) * (underflow() * ((1 as real) + number(
                alpha_max,
            )))
            &&& exact <= largest() / (4 as real) ==> predicted.finite()
            &&& !predicted.nan() && !predicted.negative()
        }),
{
    lemma_constants();
    lemma_small_underflow();
    lemma_small_numbers();
    lemma_positive_number(alpha_max);
    let half = Binary64 { bits: HALF };
    let l = absolute(lambda_min);
    lemma_number_size(lambda_min);
    lemma_number_size(l);
    let u = roundoff();
    let e = underflow();
    let a = number(alpha_max);
    let x = number(l);
    let halved = product(half, l);
    lemma_product_sign(half, l);
    let q = x * a / (2 as real);
    let exact = decrease(lambda_min, alpha_max);
    assert(exact == q * a) by (nonlinear_arith)
        requires
            exact == x * a * a / (2 as real),
            q == x * a / (2 as real),
    ;
    lemma_largest();
    let top = largest();
    if normal(halved) {
        lemma_product_near(half, l);
        lemma_normal_above_underflow(halved);
        lemma_number_size(halved);
        let h = number(halved);
        let first = product(halved, alpha_max);
        lemma_product_sign(halved, alpha_max);
        lemma_product_sign(first, alpha_max);
        let ha = h * a;
        let uh = u * h;
        lemma_times(x / (2 as real) - h, (2 as real) * uh, a);
        lemma_times(-((2 as real) * uh), x / (2 as real) - h, a);
        assert((x / (2 as real) - h) * a == q - ha) by (nonlinear_arith)
            requires
                q == x * a / (2 as real),
                ha == h * a,
        ;
        let uha = u * ha;
        assert(((2 as real) * uh) * a == (2 as real) * uha && (-((2 as real) * uh)) * a == -((
        2 as real) * uha)) by (nonlinear_arith)
            requires
                uh == u * h,
                uha == u * ha,
                ha == h * a,
        ;
        if first.finite() {
            lemma_product_near(halved, alpha_max);
            lemma_number_size(first);
            let f = number(first);
            let uf = u * f;
            lemma_times(ha, f + uf + e, u);
            assert(u * (f + uf + e) == uf + u * uf + u * e) by (nonlinear_arith)
                requires
                    uf == u * f,
            ;
            lemma_times(0 as real, f, u);
            lemma_times(u, (1 as real) / (1024 as real), uf);
            lemma_times(u, (1 as real) / (1024 as real), e);
            assert(size(q - f) <= (4 as real) * uf + (2 as real) * e);
            if product(first, alpha_max).finite() {
                lemma_last_step(q, first, alpha_max);
            }
            if exact <= top / (4 as real) {
                lemma_stays_finite(q, first, alpha_max);
            }
        }
        if exact <= top / (4 as real) {
            lemma_small_enough(x, exact, halved, alpha_max);
        }
    } else {
        let first = product(l, alpha_max);
        let g = product(half, first);
        lemma_product_sign(l, alpha_max);
        lemma_product_sign(half, first);
        lemma_product_sign(g, alpha_max);
        let xa = x * a;
        if first.finite() {
            lemma_product_near(l, alpha_max);
            lemma_number_size(first);
            let f = number(first);
            let uf = u * f;
            lemma_times(0 as real, f, u);
            lemma_size_product(number(half), f);
            assert(number(half) * f == f / (2 as real)) by (nonlinear_arith)
                requires
                    number(half) == (1 as real) / (2 as real),
            ;
            lemma_product_finite(half, first);
            lemma_product_near(half, first);
            lemma_number_size(g);
            let y = number(g);
            let uy = u * y;
            lemma_times(0 as real, y, u);
            lemma_times(f, (2 as real) * (y + uy + e), u);
            assert(u * ((2 as real) * (y + uy + e)) == (2 as real) * uy + (2 as real) * (u * uy) + (
            2 as real) * (u * e)) by (nonlinear_arith)
                requires
                    uy == u * y,
            ;
            lemma_times(u, (1 as real) / (1024 as real), uy);
            lemma_times(u, (1 as real) / (1024 as real), e);
            assert(size(q - y) <= (4 as real) * uy + (2 as real) * e);
            if product(g, alpha_max).finite() {
                lemma_last_step(q, g, alpha_max);
            }
            if exact <= top / (4 as real) {
                lemma_stays_finite(q, g, alpha_max);
            }
        }
        lemma_subnormal_product_finite(l, alpha_max);
    }
}

} // verus!
