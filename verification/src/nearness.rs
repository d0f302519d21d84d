//! The real numbers that binary64 numbers name, and how close each rounded operation
//! stays to the real one.

use crate::binary64::{
    at_most, difference, lemma_order_of_values, lemma_product_sign, lemma_sum_kind, less, negated,
    product, quotient, sum, Binary64,
};
use crate::order::{
    lemma_pattern_magnitude, lemma_quotient_sign, lemma_ratio_within_half_a_place,
    lemma_round_units, lemma_sum_beside,
};
use crate::rounding::{
    lemma_magnitude_of_parts, lemma_magnitude_step, lemma_magnitude_zero, lemma_nearest_exists,
    lemma_round_ratio_ordered, magnitude, round_ratio, HIDDEN, INFINITE, SIGNIFICANDS,
};
use vstd::arithmetic::power2::{lemma2_to64, lemma_pow2_pos, pow2};
use vstd::prelude::*;

verus! {

/// The smallest positive number, `2^-1074`.
pub open spec fn unit() -> real {
    (1 as real) / (pow2(1074) as real)
}

/// The real number that a finite number names.
pub open spec fn number(x: Binary64) -> real {
    (x.value() as real) * unit()
}

/// The magnitude of a real number.
pub open spec fn size(x: real) -> real {
    if x < 0 as real {
        -x
    } else {
        x
    }
}

/// The relative error of one rounding, `2^-53`.
pub open spec fn roundoff() -> real {
    (1 as real) / (SIGNIFICANDS as real)
}

/// The absolute error of one rounding below the normal range, half of `2^-1074`.
pub open spec fn underflow() -> real {
    unit() / (2 as real)
}

/// How far a real result can be from the number `x` that it rounds to.
pub open spec fn slack(x: Binary64) -> real {
    roundoff() * size(number(x)) + underflow()
}

/// The constants are positive.
pub proof fn lemma_constants()
    ensures
        (0 as real) <= roundoff() <= (1 as real) / (1024 as real),
        roundoff() * (SIGNIFICANDS as real) == 1 as real,
        (0 as real) < unit() <= 1 as real,
        unit() * (pow2(1074) as real) == 1 as real,
        pow2(1074) as real >= 1 as real,
        (2 as real) * underflow() == unit(),
        (0 as real) < underflow(),
{
    lemma_pow2_pos(1074);
    let u = pow2(1074) as real;
    let s = SIGNIFICANDS as real;
    assert((0 as real) <= (1 as real) / s <= (1 as real) / (1024 as real) && (1 as real) / s * s
        == 1 as real) by (nonlinear_arith)
        requires
            s >= 1024 as real,
    ;
    assert((0 as real) < (1 as real) / u <= 1 as real && (1 as real) / u * u == 1 as real)
        by (nonlinear_arith)
        requires
            u >= 1 as real,
    ;
}

/// The size of a product is the product of the sizes.
pub proof fn lemma_size_product(a: real, b: real)
    ensures
        size(a * b) == size(a) * size(b),
        size(a) >= 0 as real,
{
    assert(size(a * b) == size(a) * size(b)) by (nonlinear_arith)
        requires
            size(a) == if a < 0 as real {
                -a
            } else {
                a
            },
            size(b) == if b < 0 as real {
                -b
            } else {
                b
            },
            size(a * b) == if a * b < 0 as real {
                -(a * b)
            } else {
                a * b
            },
    ;
}

/// A rounded ratio is close to the exact one.
proof fn lemma_ratio_close(p: int, q: int)
    requires
        0 <= p,
        0 < q,
        round_ratio(p, q) < INFINITE,
    ensures
        ({
            let m = magnitude(round_ratio(p, q));
            ||| {
                &&& SIGNIFICANDS * (p - q * m) <= q * m
                &&& SIGNIFICANDS * (q * m - p) <= q * m
            }
            ||| {
                &&& 2 * (p - q * m) <= q
                &&& 2 * (q * m - p) <= q
            }
        }),
        0 <= magnitude(round_ratio(p, q)),
{
    lemma_nearest_exists(p, q);
    let b = round_ratio(p, q);
    lemma_magnitude_step(b);
    if HIDDEN <= b {
        lemma_ratio_within_half_a_place(p, q);
    } else {
        lemma_magnitude_of_parts(0, b);
        lemma_magnitude_of_parts(0, b + 1);
        lemma2_to64();
        let w = pow2(0) as int;
        assert(b * w == b && (b + 1) * w == b + 1) by (nonlinear_arith)
            requires
                w == 1,
        ;
        assert(q * (b + (b + 1)) == 2 * (q * b) + q) by (nonlinear_arith);
        if 0 < b {
            lemma_magnitude_of_parts(0, b - 1);
            assert((b - 1) * w == b - 1) by (nonlinear_arith)
                requires
                    w == 1,
            ;
            assert(q * ((b - 1) + b) == 2 * (q * b) - q) by (nonlinear_arith);
        } else {
            assert(q * 0 == 0) by (nonlinear_arith);
        }
    }
}

/// The integers behind a close ratio, as real numbers.
proof fn lemma_close_real(x: int, y: int, q: int)
    requires
        0 <= y,
        0 < q,
        (SIGNIFICANDS * (x - y) <= y && SIGNIFICANDS * (y - x) <= y) || (2 * (x - y) <= q && 2 * (y
            - x) <= q),
    ensures
        (2 as real) * size(x as real - y as real) <= (2 as real) * (roundoff() * (y as real)) + (
        q as real),
{
    lemma_constants();
    let s = SIGNIFICANDS as real;
    let r = roundoff();
    let d = size(x as real - y as real);
    let z = y as real;
    assert(r * z >= 0 as real) by (nonlinear_arith)
        requires
            r >= 0 as real,
            z >= 0 as real,
    ;
    if SIGNIFICANDS * (x - y) <= y && SIGNIFICANDS * (y - x) <= y {
        let a = SIGNIFICANDS * (x - y);
        let b = SIGNIFICANDS * (y - x);
        assert(a as real == s * (x as real - y as real)) by (nonlinear_arith)
            requires
                a == SIGNIFICANDS * (x - y),
                s == SIGNIFICANDS as real,
        ;
        assert(b as real == s * (y as real - x as real)) by (nonlinear_arith)
            requires
                b == SIGNIFICANDS * (y - x),
                s == SIGNIFICANDS as real,
        ;
        assert(s * d <= z);
        assert(d <= r * z) by (nonlinear_arith)
            requires
                s * d <= z,
                r * s == 1 as real,
                r >= 0 as real,
        {
            assert(r * (s * d) <= r * z);
            assert(r * (s * d) == (r * s) * d);
        }
    }
}

/// The size of a number is that of its magnitude.
pub proof fn lemma_number_size(x: Binary64)
    ensures
        size(number(x)) == (x.magnitude() as real) * unit(),
        0 <= x.magnitude(),
        x.magnitude() == 0 <==> x.zero(),
        x.negative() ==> number(x) == -((x.magnitude() as real) * unit()),
        !x.negative() ==> number(x) == (x.magnitude() as real) * unit(),
{
    lemma_pattern_magnitude(x, x);
    lemma_constants();
    let m = x.magnitude() as real;
    let u = unit();
    assert(m * u >= 0 as real && (-m) * u == -(m * u)) by (nonlinear_arith)
        requires
            m >= 0 as real,
            u > 0 as real,
    ;
}

/// Negation is exact.
pub proof fn lemma_number_negated(x: Binary64)
    ensures
        number(negated(x)) == -number(x),
        negated(x).finite() == x.finite(),
{
    lemma_number_size(x);
    lemma_number_size(negated(x));
}

/// A finite sum has finite operands, and lies within a rounding of the real one.
pub proof fn lemma_sum_near(a: Binary64, b: Binary64)
    requires
        sum(a, b).finite(),
    ensures
        a.finite(),
        b.finite(),
        size(number(a) + number(b) - number(sum(a, b))) <= roundoff() * size(number(sum(a, b))),
{
    lemma_sum_kind(a, b);
    reveal(sum);
    lemma_constants();
    let s = sum(a, b);
    let exact = a.value() + b.value();
    let e = if exact < 0 {
        -exact
    } else {
        exact
    };
    lemma_nearest_exists(e, 1);
    if exact == 0 {
        lemma_magnitude_zero();
    }
    lemma_number_size(s);
    let m = s.magnitude();
    let u = unit();
    let r = roundoff();
    if exact != 0 {
        lemma_ratio_close(e, 1);
    }
    // Below the normal range the sum is exact.
    assert(SIGNIFICANDS * (e - m) <= m && SIGNIFICANDS * (m - e) <= m);
    lemma_close_exact(e, m);
    let d = size(e as real - m as real);
    assert(number(a) + number(b) == (exact as real) * u) by (nonlinear_arith)
        requires
            number(a) == (a.value() as real) * u,
            number(b) == (b.value() as real) * u,
            exact == a.value() + b.value(),
    ;
    assert(d * u <= r * ((m as real) * u)) by (nonlinear_arith)
        requires
            d <= r * (m as real),
            u > 0 as real,
    {
        assert(d * u <= (r * (m as real)) * u);
        assert((r * (m as real)) * u == r * ((m as real) * u));
    }
    assert(d * u == size(number(a) + number(b) - number(s))) by {
        let x = e as real;
        let y = m as real;
        assert((x - y) * u == x * u - y * u) by (nonlinear_arith);
        assert((y - x) * u == y * u - x * u) by (nonlinear_arith);
        assert((exact as real) * u == if exact < 0 {
            -(x * u)
        } else {
            x * u
        }) by (nonlinear_arith)
            requires
                exact as real == if exact < 0 {
                    -x
                } else {
                    x
                },
        ;
        if x - y >= 0 as real {
            assert((x - y) * u >= 0 as real) by (nonlinear_arith)
                requires
                    x - y >= 0 as real,
                    u > 0 as real,
            ;
        } else {
            assert((y - x) * u > 0 as real) by (nonlinear_arith)
                requires
                    y - x > 0 as real,
                    u > 0 as real,
            ;
        }
    }
}

proof fn lemma_close_exact(x: int, y: int)
    requires
        0 <= y,
        SIGNIFICANDS * (x - y) <= y,
        SIGNIFICANDS * (y - x) <= y,
    ensures
        size(x as real - y as real) <= roundoff() * (y as real),
{
    lemma_constants();
    let s = SIGNIFICANDS as real;
    let r = roundoff();
    let d = size(x as real - y as real);
    let z = y as real;
    let a = SIGNIFICANDS * (x - y);
    let b = SIGNIFICANDS * (y - x);
    assert(a as real == s * (x as real - y as real)) by (nonlinear_arith)
        requires
            a == SIGNIFICANDS * (x - y),
            s == SIGNIFICANDS as real,
    ;
    assert(b as real == s * (y as real - x as real)) by (nonlinear_arith)
        requires
            b == SIGNIFICANDS * (y - x),
            s == SIGNIFICANDS as real,
    ;
    assert(s * d <= z);
    assert(d <= r * z) by (nonlinear_arith)
        requires
            s * d <= z,
            r * s == 1 as real,
            r >= 0 as real,
    {
        assert(r * (s * d) <= r * z);
        assert(r * (s * d) == (r * s) * d);
    }
}

/// A finite difference has finite operands, and lies within a rounding of the real one.
pub proof fn lemma_difference_near(a: Binary64, b: Binary64)
    requires
        difference(a, b).finite(),
    ensures
        a.finite(),
        b.finite(),
        size(number(a) - number(b) - number(difference(a, b))) <= roundoff() * size(
            number(difference(a, b)),
        ),
{
    lemma_sum_near(a, negated(b));
    lemma_number_negated(b);
}

/// A finite product has finite operands, and lies within a rounding of the real one.
pub proof fn lemma_product_near(a: Binary64, b: Binary64)
    requires
        product(a, b).finite(),
    ensures
        a.finite(),
        b.finite(),
        size(number(a) * number(b) - number(product(a, b))) <= slack(product(a, b)),
{
    lemma_product_sign(a, b);
    lemma_constants();
    lemma_number_size(a);
    lemma_number_size(b);
    let p = product(a, b);
    lemma_number_size(p);
    let x = a.magnitude();
    let y = b.magnitude();
    let q = pow2(1074) as int;
    lemma_pow2_pos(1074);
    assert(0 <= x * y) by (nonlinear_arith)
        requires
            0 <= x,
            0 <= y,
    ;
    reveal(product);
    lemma_nearest_exists(x * y, q);
    lemma_ratio_close(x * y, q);
    let m = p.magnitude();
    assert(0 <= q * m) by (nonlinear_arith)
        requires
            0 <= m,
            0 < q,
    ;
    lemma_close_real(x * y, q * m, q);
    let u = unit();
    let r = roundoff();
    let w = u * u;
    let d = size((x * y) as real - (q * m) as real);
    // In real numbers the factors are `x u` and `y u`, and the product is `m u = (q m) w`.
    assert(((q * m) as real) * w == (m as real) * u) by (nonlinear_arith)
        requires
            w == u * u,
            u * (q as real) == 1 as real,
    {
        assert((q * m) as real == (q as real) * (m as real));
        assert(((q as real) * (m as real)) * (u * u) == (u * (q as real)) * ((m as real) * u));
    }
    assert(((x * y) as real) * w == ((x as real) * u) * ((y as real) * u)) by (nonlinear_arith)
        requires
            w == u * u,
    {
        assert((x * y) as real == (x as real) * (y as real));
    }
    assert((q as real) * w == u) by (nonlinear_arith)
        requires
            w == u * u,
            u * (q as real) == 1 as real,
    {
        assert((q as real) * (u * u) == (u * (q as real)) * u);
    }
    let e = (x * y) as real - (q * m) as real;
    assert(w > 0 as real) by (nonlinear_arith)
        requires
            w == u * u,
            u > 0 as real,
    ;
    assert(e * w == ((x * y) as real) * w - ((q * m) as real) * w) by (nonlinear_arith)
        requires
            e == (x * y) as real - (q * m) as real,
    ;
    assert(size(e * w) == d * w) by {
        lemma_size_product(e, w);
    }
    let z = (q * m) as real;
    assert((2 as real) * (d * w) <= (2 as real) * (r * (z * w)) + (q as real) * w)
        by (nonlinear_arith)
        requires
            (2 as real) * d <= (2 as real) * (r * z) + (q as real),
            w > 0 as real,
    {
        assert(((2 as real) * d) * w <= ((2 as real) * (r * z) + (q as real)) * w);
    }
    let f = (x as real) * u;
    let g = (y as real) * u;
    assert((-f) * g == -(f * g) && f * (-g) == -(f * g) && (-f) * (-g) == f * g)
        by (nonlinear_arith);
}

/// The quotient of finite numbers, where it is finite and the divisor is not zero, gives
/// back the dividend to within a rounding.
pub proof fn lemma_quotient_near(a: Binary64, b: Binary64)
    requires
        a.finite(),
        b.finite(),
        !b.zero(),
        quotient(a, b).finite(),
    ensures
        size(number(a) - number(quotient(a, b)) * number(b)) <= slack(quotient(a, b)) * size(
            number(b),
        ),
{
    lemma_quotient_sign(a, b);
    lemma_constants();
    lemma_number_size(a);
    lemma_number_size(b);
    let p = quotient(a, b);
    lemma_number_size(p);
    let x = a.magnitude();
    let y = b.magnitude();
    let q = pow2(1074) as int;
    lemma_pow2_pos(1074);
    assert(0 <= x * q) by (nonlinear_arith)
        requires
            0 <= x,
            0 < q,
    ;
    reveal(quotient);
    lemma_nearest_exists(x * q, y);
    lemma_ratio_close(x * q, y);
    let m = p.magnitude();
    assert(0 <= y * m) by (nonlinear_arith)
        requires
            0 <= m,
            0 < y,
    ;
    lemma_close_real(x * q, y * m, y);
    let u = unit();
    let r = roundoff();
    let w = u * u;
    let z = (y * m) as real;
    let e = (x * q) as real - z;
    let d = size(e);
    let f = (m as real) * u;
    let g = (y as real) * u;
    assert(z * w == f * g) by (nonlinear_arith)
        requires
            w == u * u,
            z == (y * m) as real,
            f == (m as real) * u,
            g == (y as real) * u,
    {
        assert((y * m) as real == (y as real) * (m as real));
    }
    assert(((x * q) as real) * w == (x as real) * u) by (nonlinear_arith)
        requires
            w == u * u,
            u * (q as real) == 1 as real,
    {
        assert((x * q) as real == (x as real) * (q as real));
        assert(((x as real) * (q as real)) * (u * u) == (u * (q as real)) * ((x as real) * u));
    }
    assert(w > 0 as real && (y as real) * w == u * g) by (nonlinear_arith)
        requires
            w == u * u,
            u > 0 as real,
            g == (y as real) * u,
    ;
    assert(e * w == ((x * q) as real) * w - z * w) by (nonlinear_arith)
        requires
            e == (x * q) as real - z,
    ;
    lemma_size_product(e, w);
    assert((2 as real) * (d * w) <= (2 as real) * (r * (z * w)) + (y as real) * w)
        by (nonlinear_arith)
        requires
            (2 as real) * d <= (2 as real) * (r * z) + (y as real),
            w > 0 as real,
    {
        assert(((2 as real) * d) * w <= ((2 as real) * (r * z) + (y as real)) * w);
    }
    let h = underflow();
    assert((r * f + h) * g == r * (f * g) + h * g && (2 as real) * (h * g) == u * g)
        by (nonlinear_arith)
        requires
            (2 as real) * h == u,
    ;
    assert((-f) * g == -(f * g) && f * (-g) == -(f * g) && (-f) * (-g) == f * g)
        by (nonlinear_arith);
}

/// The largest finite number.
pub open spec fn largest() -> real {
    number(Binary64 { bits: 0x7fef_ffff_ffff_ffff })
}

/// A product of finite numbers overflows only past the largest number.
pub proof fn lemma_product_finite(a: Binary64, b: Binary64)
    requires
        a.finite(),
        b.finite(),
        size(number(a) * number(b)) <= largest(),
    ensures
        product(a, b).finite(),
{
    lemma_product_sign(a, b);
    lemma_constants();
    lemma_number_size(a);
    lemma_number_size(b);
    let top = Binary64 { bits: 0x7fef_ffff_ffff_ffff };
    lemma_number_size(top);
    lemma_size_product(number(a), number(b));
    let x = a.magnitude();
    let y = b.magnitude();
    let q = pow2(1074) as int;
    lemma_pow2_pos(1074);
    assert(0 <= x * y) by (nonlinear_arith)
        requires
            0 <= x,
            0 <= y,
    ;
    let m = top.magnitude();
    let u = unit();
    // In units, the product of the magnitudes is at most that of the largest number.
    assert((x * y) as real <= (q * m) as real) by (nonlinear_arith)
        requires
            ((x as real) * u) * ((y as real) * u) <= (m as real) * u,
            u * (q as real) == 1 as real,
            u > 0 as real,
            q > 0,
    {
        let xy = (x as real) * (y as real);
        assert((x * y) as real == xy);
        assert(((x as real) * u) * ((y as real) * u) == (xy * u) * u);
        assert(xy * u <= m as real);
        assert((xy * u) * (q as real) <= (m as real) * (q as real));
        assert((xy * u) * (q as real) == xy * (u * (q as real)));
        assert((q * m) as real == (q as real) * (m as real));
    }
    lemma_round_units(q, top.pattern());
    assert((x * y) * q <= (q * m) * q) by (nonlinear_arith)
        requires
            x * y <= q * m,
            q > 0,
    ;
    lemma_round_ratio_ordered(x * y, q, q * m, q);
    reveal(product);
}

/// A quotient of finite numbers overflows only past the largest number.
pub proof fn lemma_quotient_finite(a: Binary64, b: Binary64)
    requires
        a.finite(),
        b.finite(),
        !b.zero(),
        size(number(a)) <= largest() * size(number(b)),
    ensures
        quotient(a, b).finite(),
{
    lemma_quotient_sign(a, b);
    lemma_constants();
    lemma_number_size(a);
    lemma_number_size(b);
    let top = Binary64 { bits: 0x7fef_ffff_ffff_ffff };
    lemma_number_size(top);
    let x = a.magnitude();
    let y = b.magnitude();
    let m = top.magnitude();
    let q = pow2(1074) as int;
    lemma_pow2_pos(1074);
    let u = unit();
    assert((x * q) as real <= (y * m) as real) by (nonlinear_arith)
        requires
            (x as real) * u <= ((m as real) * u) * ((y as real) * u),
            u * (q as real) == 1 as real,
            u > 0 as real,
            q > 0,
    {
        let my = (m as real) * (y as real);
        assert((y * m) as real == my);
        assert(((m as real) * u) * ((y as real) * u) == (my * u) * u);
        assert(x as real <= my * u);
        assert((x as real) * (q as real) <= (my * u) * (q as real));
        assert((my * u) * (q as real) == my * (u * (q as real)));
        assert((x * q) as real == (x as real) * (q as real));
    }
    assert(0 <= x * q && 0 <= y * m) by (nonlinear_arith)
        requires
            0 <= x,
            0 <= y,
            0 <= m,
            0 < q,
    ;
    lemma_round_units(y, top.pattern());
    assert((x * q) * y <= (y * m) * y) by (nonlinear_arith)
        requires
            x * q <= y * m,
            y > 0,
    ;
    lemma_round_ratio_ordered(x * q, y, y * m, y);
    reveal(quotient);
}

/// A sum of finite numbers overflows only past the largest number.
pub proof fn lemma_sum_finite(a: Binary64, b: Binary64)
    requires
        a.finite(),
        b.finite(),
        size(number(a) + number(b)) <= largest(),
    ensures
        sum(a, b).finite(),
{
    lemma_constants();
    let top = Binary64 { bits: 0x7fef_ffff_ffff_ffff };
    let bottom = Binary64 { bits: 0xffef_ffff_ffff_ffff };
    lemma_number_size(top);
    lemma_number_size(bottom);
    let u = unit();
    let x = a.value() as real;
    let y = b.value() as real;
    let m = top.value() as real;
    assert(x + y <= m && -m <= x + y) by (nonlinear_arith)
        requires
            x * u + y * u <= m * u,
            -(m * u) <= x * u + y * u,
            u > 0 as real,
    {
        assert((x + y) * u == x * u + y * u);
        assert((x + y - m) * u <= 0 as real);
        assert((x + y + m) * u >= 0 as real);
    }
    lemma_sum_beside(a, b, top);
    lemma_sum_beside(a, b, bottom);
}

/// The order of finite numbers is that of the real numbers they name.
pub proof fn lemma_number_order(a: Binary64, b: Binary64)
    requires
        a.finite(),
        b.finite(),
    ensures
        less(a, b) <==> number(a) < number(b),
        at_most(a, b) <==> number(a) <= number(b),
{
    lemma_constants();
    lemma_order_of_values(a, b);
    let x = a.value() as real;
    let y = b.value() as real;
    let u = unit();
    assert(x < y <==> x * u < y * u) by (nonlinear_arith)
        requires
            u > 0 as real,
    ;
    assert(x <= y <==> x * u <= y * u) by (nonlinear_arith)
        requires
            u > 0 as real,
    ;
}

/// A sum stays on its side of every number, in real numbers.
pub proof fn lemma_number_sum_beside(a: Binary64, b: Binary64, limit: Binary64)
    requires
        a.finite(),
        b.finite(),
        limit.finite(),
    ensures
        !sum(a, b).nan(),
        number(a) + number(b) <= number(limit) ==> at_most(sum(a, b), limit),
        number(limit) <= number(a) + number(b) ==> at_most(limit, sum(a, b)),
{
    lemma_constants();
    lemma_sum_beside(a, b, limit);
    let x = a.value() as real;
    let y = b.value() as real;
    let z = limit.value() as real;
    let u = unit();
    assert(x + y <= z <==> x * u + y * u <= z * u) by (nonlinear_arith)
        requires
            u > 0 as real,
    {
        assert((x + y) * u == x * u + y * u);
    }
    assert(z <= x + y <==> z * u <= x * u + y * u) by (nonlinear_arith)
        requires
            u > 0 as real,
    {
        assert((x + y) * u == x * u + y * u);
    }
}

/// A product of numbers that are not below zero stays on its side of every such number.
pub proof fn lemma_product_beside(a: Binary64, b: Binary64, limit: Binary64)
    requires
        a.finite(),
        b.finite(),
        limit.finite(),
        !a.negative(),
        !b.negative(),
        !limit.negative(),
    ensures
        !product(a, b).nan() && !product(a, b).negative(),
        number(a) * number(b) <= number(limit) ==> at_most(product(a, b), limit),
        number(limit) <= number(a) * number(b) ==> at_most(limit, product(a, b)),
{
    lemma_product_sign(a, b);
    lemma_constants();
    lemma_number_size(a);
    lemma_number_size(b);
    lemma_number_size(limit);
    let x = a.magnitude();
    let y = b.magnitude();
    let m = limit.magnitude();
    let q = pow2(1074) as int;
    lemma_pow2_pos(1074);
    let u = unit();
    assert(0 <= x * y && 0 <= q * m) by (nonlinear_arith)
        requires
            0 <= x,
            0 <= y,
            0 <= m,
            0 < q,
    ;
    let xy = (x as real) * (y as real);
    assert((x * y) as real == xy && (q * m) as real == (q as real) * (m as real))
        by (nonlinear_arith)
        requires
            xy == (x as real) * (y as real),
    ;
    assert(((x as real) * u) * ((y as real) * u) == (xy * u) * u) by (nonlinear_arith)
        requires
            xy == (x as real) * (y as real),
    ;
    let v = xy * u;
    let n = m as real;
    let p = q as real;
    assert(v * u <= n * u <==> v <= n) by (nonlinear_arith)
        requires
            u > 0 as real,
    ;
    assert(n * u <= v * u <==> n <= v) by (nonlinear_arith)
        requires
            u > 0 as real,
    ;
    assert(v * p == xy) by (nonlinear_arith)
        requires
            v == xy * u,
            u * p == 1 as real,
    {
        assert((xy * u) * p == xy * (u * p));
    }
    assert(v <= n ==> v * p <= n * p) by (nonlinear_arith)
        requires
            p > 0 as real,
    ;
    assert(n <= v ==> n * p <= v * p) by (nonlinear_arith)
        requires
            p > 0 as real,
    ;
    assert(n * p == p * n) by (nonlinear_arith);
    lemma_round_units(q, limit.pattern());
    if number(a) * number(b) <= number(limit) {
        assert(x * y <= q * m);
        assert((x * y) * q <= (q * m) * q) by (nonlinear_arith)
            requires
                x * y <= q * m,
                q > 0,
        ;
        lemma_round_ratio_ordered(x * y, q, q * m, q);
    }
    if number(limit) <= number(a) * number(b) {
        assert(q * m <= x * y);
        assert((q * m) * q <= (x * y) * q) by (nonlinear_arith)
            requires
                q * m <= x * y,
                q > 0,
        ;
        lemma_round_ratio_ordered(q * m, q, x * y, q);
    }
    reveal(product);
}

} // verus!
