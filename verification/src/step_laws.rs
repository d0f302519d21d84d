//! What the smallest step of a resolvable claim is, in real numbers.

use crate::binary64::{
    absolute, at_most, lemma_order_of_values, lemma_product_sign, less, normal, product, quotient,
    root, Binary64, HALF, TWO,
};
use crate::claim_laws::{
    exact_allowance, exact_prediction, law_resolvable_claim_exceeds_the_resolution,
    law_unresolvable_claim_stays_within_the_resolution,
};
use crate::factor_laws::{lemma_normal_above_underflow, lemma_root_in_reals};
use crate::nearness::{
    largest, lemma_constants, lemma_number_size, lemma_quotient_finite, lemma_quotient_near,
    lemma_size_product, number, roundoff, size, underflow, unit,
};
use crate::order::{
    lemma_pattern_magnitude, lemma_product_with_half, lemma_product_with_two, lemma_quotient_sign,
};
use crate::prediction_laws::{
    decrease, law_prediction_is_half_the_curvature_times_the_square, lemma_largest,
    lemma_positive_number,
};
use crate::rounding::{
    lemma_magnitude_grows, lemma_magnitude_of_parts, HIDDEN, INFINITE, SIGNIFICANDS,
};
use crate::second_order::{
    balanced_step, claimable, curvature_floor, largest_prediction, positive, root_of_doubled,
    smallest_step,
};
use crate::shift_laws::lemma_root_range;
use crate::tolerance_laws::lemma_times;
use vstd::arithmetic::power2::{
    lemma2_to64, lemma2_to64_rest, lemma_pow2_adds, lemma_pow2_strictly_increases,
    lemma_pow2_unfold, pow2,
};
use vstd::prelude::*;

verus! {

/// Whether `a` is `b` to within `k` roundings.
pub open spec fn within(a: real, b: real, k: real) -> bool {
    size(a - b) <= k * roundoff() * b
}

proof fn lemma_within_chain(a: real, b: real, c: real, k: real, m: real)
    requires
        within(a, b, k),
        within(b, c, m),
        (0 as real) <= k <= 16 as real,
        (0 as real) <= m <= 16 as real,
        c >= 0 as real,
    ensures
        within(a, c, k + m + 1 as real),
{
    lemma_constants();
    let u = roundoff();
    let uc = u * c;
    lemma_times(0 as real, c, u);
    assert(m * u * c == m * uc) by (nonlinear_arith)
        requires
            uc == u * c,
    ;
    let ku = k * u;
    lemma_times(0 as real, k, u);
    lemma_times(b, c + m * uc, ku);
    assert(ku * b == k * u * b) by (nonlinear_arith)
        requires
            ku == k * u,
    ;
    assert(ku * (c + m * uc) == k * uc + (k * m) * (u * uc)) by (nonlinear_arith)
        requires
            ku == k * u,
            uc == u * c,
    ;
    lemma_times(k, 16 as real, m);
    lemma_times(u, (1 as real) / (1024 as real), uc);
    lemma_times(0 as real, uc, u);
    lemma_times(k * m, 256 as real, u * uc);
    assert((k + m + 1 as real) * u * c == k * uc + m * uc + uc) by (nonlinear_arith)
        requires
            uc == u * c,
    ;
}

proof fn lemma_within_turned(a: real, b: real, k: real)
    requires
        within(a, b, k),
        (0 as real) <= k <= 16 as real,
        b >= 0 as real,
    ensures
        within(b, a, k + 1 as real),
        a >= 0 as real,
{
    lemma_constants();
    let u = roundoff();
    let ub = u * b;
    lemma_times(0 as real, b, u);
    assert(k * u * b == k * ub) by (nonlinear_arith)
        requires
            ub == u * b,
    ;
    lemma_times(k, 16 as real, ub);
    lemma_times(u, (1 as real) / (1024 as real), b);
    let v = (k + 1 as real) * u;
    lemma_times(0 as real, k + 1 as real, u);
    lemma_times(b - k * ub, a, v);
    let w = u * ub;
    assert(v * (b - k * ub) == (k + 1 as real) * ub - ((k + 1 as real) * k) * w)
        by (nonlinear_arith)
        requires
            v == (k + 1 as real) * u,
            ub == u * b,
            w == u * ub,
    ;
    lemma_times(u, (1 as real) / (1024 as real), ub);
    lemma_times(0 as real, ub, u);
    lemma_times(k + 1 as real, 17 as real, k);
    lemma_times((k + 1 as real) * k, 272 as real, w);
    assert((k + 1 as real) * ub == k * ub + ub) by (nonlinear_arith);
}

proof fn lemma_within_scaled(a: real, b: real, k: real, c: real)
    requires
        within(a, b, k),
        c >= 0 as real,
    ensures
        within(a * c, b * c, k),
{
    lemma_size_product(a - b, c);
    let e = k * roundoff() * b;
    lemma_times(size(a - b), e, c);
    let u = roundoff();
    assert((k * u * b) * c == k * u * (b * c) && (a - b) * c == a * c - b * c) by (nonlinear_arith);
}

proof fn lemma_within_squared(a: real, b: real)
    requires
        within(a, b, 2 as real),
        b >= 0 as real,
    ensures
        within(a * a, b * b, 5 as real),
{
    lemma_constants();
    let u = roundoff();
    let ub = u * b;
    lemma_times(0 as real, b, u);
    lemma_times(u, (1 as real) / (1024 as real), b);
    assert((2 as real) * u * b == (2 as real) * ub) by (nonlinear_arith)
        requires
            ub == u * b,
    ;
    let d = a - b;
    lemma_size_product(d, a + b);
    assert(d * (a + b) == a * a - b * b) by (nonlinear_arith)
        requires
            d == a - b,
    ;
    lemma_times(size(d), (2 as real) * ub, a + b);
    lemma_times(a + b, (5 as real) / (2 as real) * b, (2 as real) * ub);
    assert(((2 as real) * ub) * ((5 as real) / (2 as real) * b) == (5 as real) * u * (b * b))
        by (nonlinear_arith)
        requires
            ub == u * b,
    ;
}

/// The square of a root is the number to within three roundings.
pub proof fn lemma_root_within(x: Binary64)
    requires
        positive(x),
    ensures
        within(number(x), number(root(x)) * number(root(x)), 3 as real),
        number(root(x)) > 0 as real,
        normal(root(x)),
        !root(x).negative(),
{
    lemma_constants();
    lemma_root_in_reals(x);
    lemma_root_range(x);
    lemma_positive_number(x);
    lemma_number_size(x);
    lemma_number_size(root(x));
    lemma_normal_above_underflow(root(x));
    let u = roundoff();
    let y = number(root(x));
    let yy = y * y;
    let d = 1 as real - u;
    let e = 1 as real + u;
    let uy = u * yy;
    assert(yy >= 0 as real) by (nonlinear_arith)
        requires
            yy == y * y,
    ;
    assert(d * y * (d * y) == yy - (2 as real) * uy + u * uy) by (nonlinear_arith)
        requires
            d == 1 as real - u,
            yy == y * y,
            uy == u * yy,
    ;
    assert(e * y * (e * y) == yy + (2 as real) * uy + u * uy) by (nonlinear_arith)
        requires
            e == 1 as real + u,
            yy == y * y,
            uy == u * yy,
    ;
    lemma_times(0 as real, yy, u);
    lemma_times(u, 1 as real, uy);
    lemma_times(0 as real, uy, u);
    assert((3 as real) * u * yy == (3 as real) * uy) by (nonlinear_arith)
        requires
            uy == u * yy,
    ;
}

/// Twice a resolution has the stated root, to within a few roundings.
proof fn lemma_doubled_root(r: Binary64)
    requires
        positive(r),
    ensures
        within((2 as real) * number(r), number(root_of_doubled(r)) * number(root_of_doubled(r)), 3 as real),
        number(root_of_doubled(r)) > 0 as real,
        root_of_doubled(r).finite(),
        !root_of_doubled(r).negative(),
{
    lemma_constants();
    lemma_positive_number(r);
    lemma_number_size(r);
    let two = Binary64 { bits: TWO };
    let half = Binary64 { bits: HALF };
    let doubled = product(two, r);
    lemma_product_with_two(r);
    lemma_product_sign(two, r);
    lemma_number_size(doubled);
    let m = r.magnitude() as real;
    let u = unit();
    if doubled.finite() {
        assert(((2 as real) * m) * u == (2 as real) * (m * u)) by (nonlinear_arith);
        lemma_root_within(doubled);
    } else {
        lemma_large_pattern(r);
        lemma_product_with_half(r);
        let h = product(half, r);
        lemma_number_size(h);
        let k = h.magnitude() as real;
        assert(((2 as real) * k) * u == (2 as real) * (k * u)) by (nonlinear_arith);
        lemma_root_within(h);
        let y = root(h);
        lemma_number_size(y);
        let t = product(two, y);
        lemma_product_with_two(y);
        lemma_product_sign(two, y);
        lemma_root_range(h);
        lemma_root_not_large(y);
        lemma_number_size(t);
        let j = y.magnitude() as real;
        assert(((2 as real) * j) * u == (2 as real) * (j * u)) by (nonlinear_arith);
        let x = number(y);
        let w = number(t);
        assert(w * w == (x * x) * (4 as real)) by (nonlinear_arith)
            requires
                w == (2 as real) * x,
        ;
        lemma_within_scaled(number(h), x * x, 3 as real, 4 as real);
    }
}

/// A number whose double overflows is far above the subnormal range.
proof fn lemma_large_pattern(r: Binary64)
    requires
        positive(r),
        !product(Binary64 { bits: TWO }, r).finite(),
    ensures
        SIGNIFICANDS <= r.pattern() < INFINITE,
{
    lemma_product_with_two(r);
    if r.pattern() < SIGNIFICANDS {
        let edge = Binary64 { bits: SIGNIFICANDS };
        lemma_pattern_magnitude(r, edge);
        let beyond = INFINITE as int;
        lemma_magnitude_of_parts(1, HIDDEN as int);
        lemma_magnitude_of_parts(2, HIDDEN as int);
        lemma2_to64();
        lemma_magnitude_grows(SIGNIFICANDS + HIDDEN, beyond);
        assert(HIDDEN * pow2(1) == SIGNIFICANDS && HIDDEN * pow2(2) == 2 * SIGNIFICANDS)
            by (nonlinear_arith)
            requires
                pow2(1) == 2,
                pow2(2) == 4,
        ;
    }
}

/// The double of a root does not overflow.
proof fn lemma_root_not_large(y: Binary64)
    requires
        y.finite(),
        !y.negative(),
        y.magnitude() <= pow2(1588),
    ensures
        product(Binary64 { bits: TWO }, y).finite(),
{
    lemma_product_with_two(y);
    lemma_magnitude_of_parts(2046, HIDDEN as int);
    lemma2_to64_rest();
    lemma_pow2_adds(52, 2046);
    lemma_pow2_unfold(1589);
    lemma_pow2_strictly_increases(1589, 2098);
}

/// The balance of a resolution and a curvature: at that step the curvature predicts the
/// resolution, to within a few roundings.
proof fn lemma_balance(lambda: Binary64, r: Binary64)
    requires
        positive(r),
        lambda.finite(),
        !lambda.zero(),
        normal(balanced_step(lambda, r)),
    ensures
        ({
            let l = size(number(lambda));
            let a = number(balanced_step(lambda, r));
            within(l * (a * a), (2 as real) * number(r), 16 as real)
        }),
        number(balanced_step(lambda, r)) > 0 as real,
{
    lemma_constants();
    let two = Binary64 { bits: TWO };
    let abs = absolute(lambda);
    lemma_number_size(lambda);
    lemma_number_size(abs);
    lemma_positive_number(abs);
    lemma_positive_number(r);
    lemma_number_size(r);
    let doubled = product(two, r);
    lemma_product_with_two(r);
    lemma_product_sign(two, r);
    lemma_number_size(doubled);
    let ratio = quotient(doubled, abs);
    let alpha = balanced_step(lambda, r);
    let l = number(abs);
    let a = number(alpha);
    let t = (2 as real) * number(r);
    let u = roundoff();
    let m = r.magnitude() as real;
    assert(((2 as real) * m) * unit() == (2 as real) * (m * unit())) by (nonlinear_arith);
    lemma_quotient_sign(doubled, abs);
    if normal(ratio) {
        assert(doubled.finite()) by {
            reveal(quotient);
        }
        lemma_quotient_near(doubled, abs);
        lemma_normal_above_underflow(ratio);
        lemma_number_size(ratio);
        let q = number(ratio);
        let ql = q * l;
        let slack = u * q + underflow();
        lemma_times(slack, (2 as real) * (u * q), l);
        assert(((2 as real) * (u * q)) * l == (2 as real) * u * ql) by (nonlinear_arith)
            requires
                ql == q * l,
        ;
        assert(within(t, ql, 2 as real));
        lemma_times(0 as real, q, l);
        lemma_within_turned(t, ql, 2 as real);
        lemma_root_within(ratio);
        let aa = a * a;
        assert(aa >= 0 as real) by (nonlinear_arith)
            requires
                aa == a * a,
        ;
        lemma_within_scaled(q, aa, 3 as real, l);
        lemma_times(0 as real, aa, l);
        lemma_within_turned(ql, aa * l, 3 as real);
        lemma_within_chain(aa * l, ql, t, 4 as real, 3 as real);
        assert(aa * l == l * aa) by (nonlinear_arith);
        lemma_within_wider(l * aa, t, 8 as real);
    } else {
        let top = root_of_doubled(r);
        let s = root(abs);
        lemma_doubled_root(r);
        lemma_root_within(abs);
        lemma_number_size(s);
        lemma_quotient_near(top, s);
        lemma_quotient_sign(top, s);
        lemma_normal_above_underflow(alpha);
        lemma_number_size(alpha);
        let x = number(top);
        let y = number(s);
        let ay = a * y;
        let slack = u * a + underflow();
        lemma_times(slack, (2 as real) * (u * a), y);
        assert(((2 as real) * (u * a)) * y == (2 as real) * u * ay) by (nonlinear_arith)
            requires
                ay == a * y,
        ;
        assert(within(x, ay, 2 as real));
        lemma_times(0 as real, a, y);
        lemma_within_squared(x, ay);
        let xx = x * x;
        let yy = y * y;
        let aa = a * a;
        assert(xx >= 0 as real && aa >= 0 as real && yy >= 0 as real && ay * ay == yy * aa && ay
            * ay >= 0 as real) by (nonlinear_arith)
            requires
                xx == x * x,
                yy == y * y,
                aa == a * a,
                ay == a * y,
        ;
        lemma_within_turned(xx, ay * ay, 5 as real);
        lemma_within_turned(t, xx, 3 as real);
        lemma_within_chain(ay * ay, xx, t, 6 as real, 4 as real);
        lemma_within_scaled(l, yy, 3 as real, aa);
        lemma_within_chain(l * aa, yy * aa, t, 3 as real, 11 as real);
        lemma_within_wider(l * aa, t, 15 as real);
    }
}

proof fn lemma_within_wider(a: real, b: real, k: real)
    requires
        within(a, b, k),
        k <= 16 as real,
        b >= 0 as real,
    ensures
        within(a, b, 16 as real),
{
    lemma_constants();
    let u = roundoff();
    lemma_times(0 as real, b, u);
    lemma_times(k, 16 as real, u * b);
    assert(k * u * b == k * (u * b) && (16 as real) * u * b == (16 as real) * (u * b))
        by (nonlinear_arith);
}

/// Three integers in units of the smallest number, as a product of reals.
proof fn lemma_triple(x: int, y: int, z: int)
    ensures
        ((x * (y * z)) as real) * (unit() * unit() * unit()) == ((x as real) * unit()) * (((
        y as real) * unit()) * ((z as real) * unit())),
{
    let a = x as real;
    let b = y as real;
    let c = z as real;
    let u = unit();
    assert((x * (y * z)) as real == a * (b * c)) by (nonlinear_arith)
        requires
            a == x as real,
            b == y as real,
            c == z as real,
    {
        assert((y * z) as real == b * c);
    }
    assert((a * (b * c)) * (u * u * u) == (a * u) * ((b * u) * (c * u))) by (nonlinear_arith);
}

/// A resolvable claim predicts the resolution, less two roundings, in real numbers.
proof fn lemma_resolvable_in_reals(lambda_min: Binary64, alpha_max: Binary64, r: Binary64)
    requires
        claimable(lambda_min, alpha_max, r),
        !at_most(absolute(lambda_min), curvature_floor(alpha_max, r)),
    ensures
        ({
            let l = size(number(lambda_min));
            let a = number(alpha_max);
            let t = (2 as real) * number(r);
            t - roundoff() * t <= l * (a * a) + roundoff() * (l * (a * a))
        }),
{
    lemma_constants();
    law_resolvable_claim_exceeds_the_resolution(lambda_min, alpha_max, r);
    lemma_number_size(lambda_min);
    lemma_number_size(alpha_max);
    lemma_number_size(r);
    let q = pow2(1074) as int;
    let x = lambda_min.magnitude();
    let y = alpha_max.magnitude();
    let z = r.magnitude();
    let i = 2 * z * q * q;
    let j = x * (y * y);
    assert(exact_allowance(r) == i);
    assert(exact_prediction(lambda_min, alpha_max) == j);
    let u = unit();
    let w = u * u * u;
    lemma_triple(x, y, y);
    assert((i as real) * w == (2 as real) * ((z as real) * u)) by (nonlinear_arith)
        requires
            i == 2 * z * q * q,
            w == u * u * u,
            u * (q as real) == 1 as real,
    {
        let p = q as real;
        let c = z as real;
        assert((2 * z * q * q) as real == (2 as real) * c * p * p);
        assert(((2 as real) * c * p * p) * (u * u * u) == (2 as real) * ((u * p) * (u * p)) * (c
            * u));
    }
    let e = roundoff();
    let full = SIGNIFICANDS as real;
    let a = i as real;
    let b = j as real;
    assert((full - 1 as real) * a <= (full + 1 as real) * b) by (nonlinear_arith)
        requires
            (SIGNIFICANDS - 1) * i < (SIGNIFICANDS + 1) * j,
            a == i as real,
            b == j as real,
            full == SIGNIFICANDS as real,
    {
        let low = (SIGNIFICANDS - 1) * i;
        let high = (SIGNIFICANDS + 1) * j;
        assert(low as real == (full - 1 as real) * a);
        assert(high as real == (full + 1 as real) * b);
    }
    let k = e * w;
    assert(k >= 0 as real) by (nonlinear_arith)
        requires
            k == e * w,
            e >= 0 as real,
            w == u * u * u,
            u > 0 as real,
    {
        assert(u * u > 0 as real);
        assert(u * u * u > 0 as real);
    }
    lemma_times((full - 1 as real) * a, (full + 1 as real) * b, k);
    let aw = a * w;
    let bw = b * w;
    assert(((full - 1 as real) * a) * k == aw - e * aw) by (nonlinear_arith)
        requires
            k == e * w,
            e * full == 1 as real,
            aw == a * w,
    {
        assert(((full - 1 as real) * a) * (e * w) == (e * full) * (a * w) - e * (a * w));
    }
    assert(((full + 1 as real) * b) * k == bw + e * bw) by (nonlinear_arith)
        requires
            k == e * w,
            e * full == 1 as real,
            bw == b * w,
    {
        assert(((full + 1 as real) * b) * (e * w) == (e * full) * (b * w) + e * (b * w));
    }
}

/// The smallest step of a resolvable claim is where its prediction meets the resolution:
/// `½|λ|·α_min²` is the resolution to within a few roundings, where the step itself keeps
/// full precision.
pub proof fn law_smallest_step_meets_the_resolution(
    lambda_min: Binary64,
    alpha_max: Binary64,
    objective_resolution: Binary64,
)
    requires
        claimable(lambda_min, alpha_max, objective_resolution),
        !at_most(absolute(lambda_min), curvature_floor(alpha_max, objective_resolution)),
        normal(smallest_step(lambda_min, alpha_max, objective_resolution)),
    ensures
        ({
            let l = size(number(lambda_min));
            let a = number(smallest_step(lambda_min, alpha_max, objective_resolution));
            within(l * (a * a), (2 as real) * number(objective_resolution), 16 as real)
        }),
        number(smallest_step(lambda_min, alpha_max, objective_resolution)) <= number(alpha_max),
        number(smallest_step(lambda_min, alpha_max, objective_resolution)) > 0 as real,
{
    lemma_constants();
    let r = objective_resolution;
    let step = smallest_step(lambda_min, alpha_max, r);
    let balance = balanced_step(lambda_min, r);
    lemma_positive_number(alpha_max);
    lemma_positive_number(r);
    let u = roundoff();
    let l = size(number(lambda_min));
    let t = (2 as real) * number(r);
    let c = number(alpha_max);
    let cc = c * c;
    assert(cc >= 0 as real) by (nonlinear_arith)
        requires
            cc == c * c,
    ;
    if less(balance, alpha_max) {
        lemma_balance(lambda_min, r);
        lemma_order_of_values(balance, alpha_max);
        lemma_times(balance.value() as real, alpha_max.value() as real, unit());
    } else {
        assert(step == alpha_max);
        lemma_resolvable_in_reals(lambda_min, alpha_max, r);
        lemma_balance_above(lambda_min, alpha_max, r);
        let p = l * cc;
        lemma_times(0 as real, cc, l);
        lemma_times(u, (1 as real) / (1024 as real), p);
        lemma_times(0 as real, t, u);
        lemma_times(u, (1 as real) / (1024 as real), t);
        lemma_times(p, (2 as real) * t, u);
        assert(u * ((2 as real) * t) == (2 as real) * (u * t)) by (nonlinear_arith);
        lemma_times(u, (1 as real) / (1024 as real), u * t);
        assert((16 as real) * u * t == (16 as real) * (u * t)) by (nonlinear_arith);
    }
}

/// A step at or under the balance predicts no more than the resolution, to within a few
/// roundings.
proof fn lemma_balance_above(lambda: Binary64, alpha: Binary64, r: Binary64)
    requires
        positive(r),
        lambda.finite(),
        !lambda.zero(),
        positive(alpha),
        normal(alpha),
        !less(balanced_step(lambda, r), alpha),
    ensures
        ({
            let l = size(number(lambda));
            let a = number(alpha);
            l * (a * a) <= (2 as real) * number(r) + (16 as real) * (roundoff() * ((2 as real)
                * number(r)))
        }),
{
    lemma_constants();
    let balance = balanced_step(lambda, r);
    let two = Binary64 { bits: TWO };
    let abs = absolute(lambda);
    lemma_number_size(lambda);
    lemma_number_size(abs);
    lemma_positive_number(abs);
    lemma_positive_number(r);
    lemma_positive_number(alpha);
    let doubled = product(two, r);
    lemma_product_sign(two, r);
    let ratio = quotient(doubled, abs);
    lemma_quotient_sign(doubled, abs);
    let l = number(abs);
    let a = number(alpha);
    let u = roundoff();
    let t = (2 as real) * number(r);
    let aa = a * a;
    assert(aa >= 0 as real) by (nonlinear_arith)
        requires
            aa == a * a,
    ;
    if normal(ratio) {
        lemma_root_within(ratio);
    } else {
        lemma_doubled_root(r);
        lemma_root_within(abs);
        lemma_quotient_sign(root_of_doubled(r), root(abs));
    }
    assert(!balance.nan() && !balance.negative());
    if balance.finite() {
        lemma_balance(lambda, r);
        lemma_order_of_values(balance, alpha);
        lemma_times(alpha.value() as real, balance.value() as real, unit());
        let b = number(balance);
        lemma_times(a, b, a);
        lemma_times(a, b, b);
        lemma_times(aa, b * b, l);
        assert((16 as real) * u * t == (16 as real) * (u * t)) by (nonlinear_arith);
    } else {
        let top = root_of_doubled(r);
        let s = root(abs);
        lemma_number_size(s);
        lemma_number_size(top);
        lemma_largest();
        let x = number(top);
        let y = number(s);
        if x <= largest() * y {
            lemma_quotient_finite(top, s);
        }
        assert(alpha.finite());
        lemma_times(a, largest(), y);
        let ay = a * y;
        lemma_times(0 as real, a, y);
        lemma_times(ay, x, ay);
        lemma_times(ay, x, x);
        let yy = y * y;
        let xx = x * x;
        assert(ay * ay == yy * aa) by (nonlinear_arith)
            requires
                ay == a * y,
                yy == y * y,
                aa == a * a,
        ;
        assert(yy >= 0 as real && xx >= 0 as real) by (nonlinear_arith)
            requires
                yy == y * y,
                xx == x * x,
        ;
        lemma_within_scaled(l, yy, 3 as real, aa);
        lemma_within_turned(t, xx, 3 as real);
        let ut = u * t;
        lemma_times(0 as real, t, u);
        assert((4 as real) * u * t == (4 as real) * ut) by (nonlinear_arith)
            requires
                ut == u * t,
        ;
        assert(xx <= t + (4 as real) * ut);
        let z = yy * aa;
        lemma_times(z, t + (4 as real) * ut, u);
        assert(u * (t + (4 as real) * ut) == ut + (4 as real) * (u * ut)) by (nonlinear_arith)
            requires
                ut == u * t,
        ;
        lemma_times(u, (1 as real) / (1024 as real), ut);
        assert((3 as real) * u * z == (3 as real) * (u * z)) by (nonlinear_arith);
    }
}

/// An unresolvable claim predicts the resolution, to within a few roundings, or less.
proof fn lemma_unresolvable_in_reals(lambda_min: Binary64, alpha_max: Binary64, r: Binary64)
    requires
        claimable(lambda_min, alpha_max, r),
        at_most(absolute(lambda_min), curvature_floor(alpha_max, r)),
        HIDDEN <= curvature_floor(alpha_max, r).pattern(),
    ensures
        ({
            let p = size(number(lambda_min)) * (number(alpha_max) * number(alpha_max));
            let t = (2 as real) * number(r);
            p - (2 as real) * (roundoff() * p) <= t && p >= 0 as real
        }),
{
    lemma_constants();
    law_unresolvable_claim_stays_within_the_resolution(lambda_min, alpha_max, r);
    lemma_number_size(lambda_min);
    lemma_number_size(alpha_max);
    lemma_number_size(r);
    lemma_positive_number(alpha_max);
    lemma_positive_number(r);
    let q = pow2(1074) as int;
    let x = lambda_min.magnitude();
    let y = alpha_max.magnitude();
    let z = r.magnitude();
    let i = 2 * z * q * q;
    let j = x * (y * y);
    assert(exact_allowance(r) == i);
    assert(exact_prediction(lambda_min, alpha_max) == j);
    let u = unit();
    let w = u * u * u;
    lemma_triple(x, y, y);
    assert((i as real) * w == (2 as real) * ((z as real) * u)) by (nonlinear_arith)
        requires
            i == 2 * z * q * q,
            w == u * u * u,
            u * (q as real) == 1 as real,
    {
        let p = q as real;
        let c = z as real;
        assert((2 * z * q * q) as real == (2 as real) * c * p * p);
        assert(((2 as real) * c * p * p) * (u * u * u) == (2 as real) * ((u * p) * (u * p)) * (c
            * u));
    }
    let e = roundoff();
    let full = SIGNIFICANDS as real;
    let a = i as real;
    let b = j as real;
    let low = (SIGNIFICANDS - 1) * ((SIGNIFICANDS - 1) * j);
    let high = SIGNIFICANDS * (SIGNIFICANDS * i);
    assert(low as real == (full - 1 as real) * ((full - 1 as real) * b)) by (nonlinear_arith)
        requires
            low == (SIGNIFICANDS - 1) * ((SIGNIFICANDS - 1) * j),
            b == j as real,
            full == SIGNIFICANDS as real,
    {
        let m = (SIGNIFICANDS - 1) * j;
        assert(m as real == (full - 1 as real) * b);
    }
    assert(high as real == full * (full * a)) by (nonlinear_arith)
        requires
            high == SIGNIFICANDS * (SIGNIFICANDS * i),
            a == i as real,
            full == SIGNIFICANDS as real,
    {
        let m = SIGNIFICANDS * i;
        assert(m as real == full * a);
    }
    let k = (e * e) * w;
    assert(k >= 0 as real && w >= 0 as real) by (nonlinear_arith)
        requires
            k == (e * e) * w,
            w == u * u * u,
            u > 0 as real,
    {
        assert(u * u > 0 as real);
        assert(u * u * u > 0 as real);
        assert(e * e >= 0 as real);
    }
    lemma_times(low as real, high as real, k);
    let aw = a * w;
    let bw = b * w;
    let ebw = e * bw;
    assert(((full - 1 as real) * ((full - 1 as real) * b)) * k == bw - (2 as real) * ebw + e * ebw)
        by (nonlinear_arith)
        requires
            k == (e * e) * w,
            e * full == 1 as real,
            bw == b * w,
            ebw == e * bw,
    {
        let c = e * (full - 1 as real);
        assert(c == 1 as real - e);
        assert(((full - 1 as real) * ((full - 1 as real) * b)) * ((e * e) * w) == c * (c * (b * w)));
    }
    assert((full * (full * a)) * k == aw) by (nonlinear_arith)
        requires
            k == (e * e) * w,
            e * full == 1 as real,
            aw == a * w,
    {
        assert((full * (full * a)) * ((e * e) * w) == (e * full) * ((e * full) * (a * w)));
    }
    lemma_times(0 as real, b, w);
    lemma_times(0 as real, bw, e);
    lemma_times(0 as real, ebw, e);
}

/// What an unresolvable claim is told to predict is the resolution, to within a few
/// roundings, or less, where the magnitude that the curvature is held to is not subnormal.
pub proof fn law_unresolvable_prediction_is_within_the_resolution(
    lambda_min: Binary64,
    alpha_max: Binary64,
    objective_resolution: Binary64,
)
    requires
        claimable(lambda_min, alpha_max, objective_resolution),
        at_most(absolute(lambda_min), curvature_floor(alpha_max, objective_resolution)),
        HIDDEN <= curvature_floor(alpha_max, objective_resolution).pattern(),
        largest_prediction(lambda_min, alpha_max).finite(),
    ensures
        number(largest_prediction(lambda_min, alpha_max)) <= number(objective_resolution) + (
        24 as real) * (roundoff() * number(objective_resolution)) + (4 as real) * (underflow() * ((
        1 as real) + number(alpha_max))),
{
    lemma_constants();
    let r = objective_resolution;
    lemma_unresolvable_in_reals(lambda_min, alpha_max, r);
    law_prediction_is_half_the_curvature_times_the_square(lambda_min, alpha_max);
    lemma_positive_number(alpha_max);
    lemma_positive_number(r);
    let u = roundoff();
    let l = size(number(lambda_min));
    let a = number(alpha_max);
    let p = l * (a * a);
    let exact = decrease(lambda_min, alpha_max);
    assert(exact == p / (2 as real)) by (nonlinear_arith)
        requires
            exact == l * a * a / (2 as real),
            p == l * (a * a),
    ;
    let t = number(r);
    let x = number(largest_prediction(lambda_min, alpha_max));
    lemma_number_size(largest_prediction(lambda_min, alpha_max));
    let m = underflow() * ((1 as real) + a);
    lemma_times(0 as real, (1 as real) + a, underflow());
    lemma_times(u, (1 as real) / (1024 as real), p);
    lemma_times(p, (3 as real) * t, u);
    assert(u * ((3 as real) * t) == (3 as real) * (u * t)) by (nonlinear_arith);
    lemma_times(0 as real, t, u);
    lemma_times(u, (1 as real) / (1024 as real), x);
    lemma_times(x, (3 as real) * t + (4 as real) * m, u);
    assert(u * ((3 as real) * t + (4 as real) * m) == (3 as real) * (u * t) + (4 as real) * (u * m))
        by (nonlinear_arith);
    lemma_times(u, (1 as real) / (1024 as real), m);
    lemma_times(u, (1 as real) / (1024 as real), t);
}

} // verus!
