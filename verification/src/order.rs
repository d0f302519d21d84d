//! The rounded operations keep the order of their operands, and stay close to the exact
//! results.

use crate::binary64::{
    at_most, difference, lemma_order_of_values, lemma_product_sign, less, negated, product,
    quotient, root, sum, Binary64, HALF, ONE, TWO,
};
use crate::rounding::{
    lemma_magnitude_grows, lemma_magnitude_of_parts, lemma_magnitude_step, lemma_magnitude_zero,
    lemma_nearest_exists, lemma_nearest_root_exists, lemma_round_grid_point, lemma_round_ratio,
    lemma_round_ratio_ordered, lemma_round_root_ordered, magnitude, round_ratio, round_root,
    scale_of, HIDDEN, INFINITE, SIGNIFICANDS,
};
use vstd::arithmetic::power2::{
    lemma2_to64, lemma2_to64_rest, lemma_pow2_adds, lemma_pow2_pos, lemma_pow2_strictly_increases,
    lemma_pow2_unfold, pow2,
};
use vstd::prelude::*;

verus! {

/// A larger pattern has a larger magnitude.
pub proof fn lemma_pattern_magnitude(a: Binary64, b: Binary64)
    requires
        a.pattern() <= b.pattern(),
    ensures
        0 <= a.magnitude() <= b.magnitude(),
        a.zero() <==> a.magnitude() == 0,
{
    lemma_magnitude_zero();
    if 0 < a.pattern() {
        lemma_magnitude_grows(0, a.pattern());
    }
    if a.pattern() < b.pattern() {
        lemma_magnitude_grows(a.pattern(), b.pattern());
    }
}

/// The rank that an exact value rounds to.
spec fn rounded_rank(exact: int) -> int {
    if exact < 0 {
        -round_ratio(-exact, 1)
    } else {
        round_ratio(exact, 1)
    }
}

proof fn lemma_rounded_rank_ordered(x: int, y: int)
    requires
        x <= y,
    ensures
        -INFINITE <= rounded_rank(x) <= rounded_rank(y) <= INFINITE,
{
    if y < 0 {
        lemma_round_ratio_ordered(-y, 1, -x, 1);
    } else if x < 0 {
        lemma_round_ratio_ordered(0, 1, -x, 1);
        lemma_round_ratio_ordered(0, 1, y, 1);
    } else {
        lemma_round_ratio_ordered(x, 1, y, 1);
    }
}

proof fn lemma_sum_rank(a: Binary64, b: Binary64)
    requires
        a.finite(),
        b.finite(),
    ensures
        !sum(a, b).nan(),
        sum(a, b).rank() == rounded_rank(a.value() + b.value()),
{
    reveal(sum);
    let exact = a.value() + b.value();
    if exact < 0 {
        lemma_nearest_exists(-exact, 1);
    } else {
        lemma_nearest_exists(exact, 1);
    }
    if exact == 0 {
        lemma_round_grid_point(0);
        lemma_magnitude_zero();
    }
}

/// The order of the operands of a sum does not matter.
pub proof fn lemma_sum_commutes(a: Binary64, b: Binary64)
    ensures
        sum(a, b) == sum(b, a),
{
    reveal(sum);
}

/// A larger operand gives a larger sum.
pub proof fn lemma_sum_ordered(a: Binary64, b: Binary64, c: Binary64)
    requires
        at_most(a, b),
        !sum(a, c).nan(),
        !sum(b, c).nan(),
    ensures
        at_most(sum(a, c), sum(b, c)),
{
    if a.finite() && b.finite() && c.finite() {
        lemma_order_of_values(a, b);
        lemma_sum_rank(a, c);
        lemma_sum_rank(b, c);
        lemma_rounded_rank_ordered(a.value() + c.value(), b.value() + c.value());
    } else {
        if a.finite() && c.finite() {
            lemma_sum_rank(a, c);
            lemma_rounded_rank_ordered(a.value() + c.value(), a.value() + c.value());
        }
        if b.finite() && c.finite() {
            lemma_sum_rank(b, c);
            lemma_rounded_rank_ordered(b.value() + c.value(), b.value() + c.value());
        }
        reveal(sum);
    }
}

/// Taking less away leaves more.
pub proof fn lemma_difference_ordered(a: Binary64, b: Binary64, c: Binary64)
    requires
        at_most(b, c),
        !difference(a, b).nan(),
        !difference(a, c).nan(),
    ensures
        at_most(difference(a, c), difference(a, b)),
{
    lemma_sum_commutes(a, negated(b));
    lemma_sum_commutes(a, negated(c));
    lemma_sum_ordered(negated(c), negated(b), a);
}

/// A number is what it rounds to.
proof fn lemma_rounded_rank_of_number(x: Binary64)
    requires
        x.finite(),
    ensures
        rounded_rank(x.value()) == x.rank(),
{
    lemma_pattern_magnitude(x, x);
    lemma_round_grid_point(x.pattern());
    if x.zero() {
        lemma_magnitude_zero();
        lemma_round_grid_point(0);
    }
}

/// A sum stays on its side of every number: rounding crosses none.
pub proof fn lemma_sum_beside(a: Binary64, b: Binary64, limit: Binary64)
    requires
        a.finite(),
        b.finite(),
        limit.finite(),
    ensures
        !sum(a, b).nan(),
        a.value() + b.value() <= limit.value() ==> at_most(sum(a, b), limit),
        limit.value() <= a.value() + b.value() ==> at_most(limit, sum(a, b)),
{
    lemma_sum_rank(a, b);
    lemma_rounded_rank_of_number(limit);
    if a.value() + b.value() <= limit.value() {
        lemma_rounded_rank_ordered(a.value() + b.value(), limit.value());
    }
    if limit.value() <= a.value() + b.value() {
        lemma_rounded_rank_ordered(limit.value(), a.value() + b.value());
    }
}

/// A difference stays on its side of every number: rounding crosses none.
pub proof fn lemma_difference_beside(a: Binary64, b: Binary64, limit: Binary64)
    requires
        a.finite(),
        b.finite(),
        limit.finite(),
    ensures
        !difference(a, b).nan(),
        a.value() - b.value() <= limit.value() ==> at_most(difference(a, b), limit),
        limit.value() <= a.value() - b.value() ==> at_most(limit, difference(a, b)),
{
    lemma_sum_beside(a, negated(b), limit);
}

/// A factor of larger magnitude gives a product of larger magnitude.
pub proof fn lemma_product_ordered(a: Binary64, b: Binary64, c: Binary64)
    requires
        a.pattern() <= b.pattern(),
        !product(a, c).nan(),
        !product(b, c).nan(),
    ensures
        product(a, c).pattern() <= product(b, c).pattern(),
        product(a, c) == product(c, a),
{
    lemma_product_sign(a, c);
    lemma_product_sign(b, c);
    reveal(product);
    let x = a.magnitude();
    let y = b.magnitude();
    let z = c.magnitude();
    assert(x * z == z * x) by (nonlinear_arith);
    if b.finite() && c.finite() {
        lemma_pattern_magnitude(a, b);
        lemma_pattern_magnitude(c, c);
        lemma_pow2_pos(1074);
        let unit = pow2(1074) as int;
        assert(0 <= x * z && 0 <= y * z && (x * z) * unit <= (y * z) * unit) by (nonlinear_arith)
            requires
                0 <= x <= y,
                0 <= z,
                0 < unit,
        ;
        lemma_round_ratio_ordered(x * z, unit, y * z, unit);
    } else if a.finite() && c.finite() {
        lemma_pattern_magnitude(a, a);
        lemma_pattern_magnitude(c, c);
        lemma_pow2_pos(1074);
        assert(0 <= x * z) by (nonlinear_arith)
            requires
                0 <= x,
                0 <= z,
        ;
        lemma_nearest_exists(x * z, pow2(1074) as int);
    }
}

/// A divisor of larger magnitude gives a quotient of smaller magnitude.
pub proof fn lemma_quotient_ordered(a: Binary64, b: Binary64, c: Binary64)
    requires
        a.finite(),
        b.finite(),
        c.finite(),
        0 < b.pattern() <= c.pattern(),
    ensures
        quotient(a, c).pattern() <= quotient(a, b).pattern() <= INFINITE,
        quotient(a, b).negative() == (a.negative() != b.negative()),
{
    reveal(quotient);
    lemma_pattern_magnitude(b, c);
    lemma_pattern_magnitude(c, c);
    lemma_pattern_magnitude(a, a);
    let p = a.magnitude() * pow2(1074);
    let y = b.magnitude();
    let z = c.magnitude();
    lemma_pow2_pos(1074);
    let x = a.magnitude();
    let unit = pow2(1074) as int;
    assert(0 <= p) by (nonlinear_arith)
        requires
            p == x * unit,
            0 <= x,
            0 < unit,
    ;
    assert(p * y <= p * z) by (nonlinear_arith)
        requires
            0 <= p,
            y <= z,
    ;
    lemma_round_ratio_ordered(p, z, p, y);
}

/// A larger number has a larger root.
pub proof fn lemma_root_ordered(a: Binary64, b: Binary64)
    requires
        a.finite(),
        b.finite(),
        !a.negative(),
        !b.negative(),
        a.pattern() <= b.pattern(),
    ensures
        root(a).pattern() <= root(b).pattern() <= INFINITE,
        !root(a).negative(),
        !root(b).negative(),
{
    reveal(root);
    lemma_pattern_magnitude(a, b);
    lemma_pow2_pos(1074);
    let unit = pow2(1074) as int;
    let x = a.magnitude();
    let y = b.magnitude();
    assert(0 <= x * unit <= y * unit) by (nonlinear_arith)
        requires
            0 <= x <= y,
            0 < unit,
    ;
    lemma_round_root_ordered(x * unit, y * unit);
}

/// The exact room between a point and a bound, in units of `2^-1074`.
pub open spec fn room(point: Binary64, limit: Binary64) -> int {
    if point.value() <= limit.value() {
        limit.value() - point.value()
    } else {
        point.value() - limit.value()
    }
}

/// A whole multiple of the unit that lies on the grid rounds to itself.
pub proof fn lemma_round_units(unit: int, b: int)
    requires
        0 < unit,
        0 <= b < INFINITE,
    ensures
        round_ratio(unit * magnitude(b), unit) == b,
{
    let m = magnitude(b);
    lemma_magnitude_step(b);
    let next = magnitude(b + 1);
    assert(2 * (unit * m) < unit * (m + next)) by (nonlinear_arith)
        requires
            m < next,
            0 < unit,
    ;
    if 0 < b {
        lemma_magnitude_step(b - 1);
        let before = magnitude(b - 1);
        assert(unit * (before + m) < 2 * (unit * m)) by (nonlinear_arith)
            requires
                before < m,
                0 < unit,
        ;
    }
    lemma_round_ratio(unit * m, unit, b);
}

/// One times a number is the number.
pub proof fn lemma_product_with_one(x: Binary64)
    requires
        x.finite(),
    ensures
        product(Binary64 { bits: ONE }, x) == x,
{
    reveal(product);
    lemma_magnitude_of_parts(1022, HIDDEN as int);
    lemma2_to64_rest();
    lemma_pow2_adds(52, 1022);
    lemma_pow2_pos(1074);
    lemma_round_units(pow2(1074) as int, x.pattern());
}

/// Twice a number is exact, unless it overflows.
pub proof fn lemma_product_with_two(x: Binary64)
    requires
        x.finite(),
    ensures
        product(Binary64 { bits: TWO }, x).finite() ==> product(
            Binary64 { bits: TWO },
            x,
        ).magnitude() == 2 * x.magnitude(),
        !product(Binary64 { bits: TWO }, x).finite() ==> magnitude(INFINITE as int) <= 2
            * x.magnitude(),
{
    reveal(product);
    lemma_magnitude_of_parts(1023, HIDDEN as int);
    lemma2_to64();
    lemma2_to64_rest();
    lemma_pow2_adds(52, 1022);
    lemma_pow2_adds(52, 1023);
    lemma_pow2_unfold(1075);
    lemma_pow2_pos(1074);
    let unit = pow2(1074) as int;
    let b = x.pattern();
    let m = magnitude(b);
    lemma_magnitude_step(b);
    let u = scale_of(b);
    let s = b - u * HIDDEN;
    let c = if b < HIDDEN {
        2 * b
    } else {
        b + HIDDEN
    };
    if b < HIDDEN {
        lemma_magnitude_of_parts(0, 2 * b);
        let w = pow2(0) as int;
        assert(b * w == b && (2 * b) * w == 2 * b) by (nonlinear_arith)
            requires
                w == 1,
        ;
    } else {
        lemma_magnitude_of_parts((u + 1) as nat, s);
        assert(c == (u + 1) * HIDDEN + s);
        lemma_pow2_unfold((u + 1) as nat);
        let w = pow2(u as nat) as int;
        assert(s * (2 * w) == 2 * (s * w)) by (nonlinear_arith);
    }
    assert(magnitude(c) == 2 * m);
    let p = (2 * unit) * m;
    assert(p == unit * magnitude(c)) by (nonlinear_arith)
        requires
            magnitude(c) == 2 * m,
            p == (2 * unit) * m,
    ;
    if c < INFINITE {
        lemma_round_units(unit, c);
    } else {
        let top = INFINITE as int;
        lemma_magnitude_step(top - 1);
        if top < c {
            lemma_magnitude_grows(top, c);
        }
        let v = magnitude(top - 1);
        let w = magnitude(top);
        let g = magnitude(c);
        assert(unit * (v + w) < 2 * (unit * g)) by (nonlinear_arith)
            requires
                v < w <= g,
                0 < unit,
        ;
        lemma_round_ratio(p, unit, top);
    }
}

/// A rounded ratio in the normal range lies within half a place of the exact one.
pub proof fn lemma_ratio_within_half_a_place(p: int, q: int)
    requires
        0 <= p,
        0 < q,
        HIDDEN <= round_ratio(p, q),
        round_ratio(p, q) < INFINITE,
    ensures
        (SIGNIFICANDS - 1) * (q * magnitude(round_ratio(p, q))) <= SIGNIFICANDS * p,
        SIGNIFICANDS * p <= (SIGNIFICANDS + 1) * (q * magnitude(round_ratio(p, q))),
{
    lemma_nearest_exists(p, q);
    let b = round_ratio(p, q);
    let m = magnitude(b);
    lemma_magnitude_step(b);
    lemma_magnitude_step(b - 1);
    let gap = pow2(scale_of(b) as nat) as int;
    lemma_pow2_pos(scale_of(b) as nat);
    let under = magnitude(b - 1);
    assert(m - gap <= under) by {
        if scale_of(b - 1) != scale_of(b) {
            lemma_pow2_strictly_increases(scale_of(b - 1) as nat, scale_of(b) as nat);
        }
    }
    let s = b - scale_of(b) * HIDDEN;
    assert(HIDDEN * gap <= m) by (nonlinear_arith)
        requires
            m == s * gap,
            HIDDEN <= s,
            0 < gap,
    ;
    let x = q * m;
    let g = q * gap;
    assert(HIDDEN * g <= x && q * (under + m) >= 2 * x - g && q * (m + (m + gap)) == 2 * x + g)
        by (nonlinear_arith)
        requires
            HIDDEN * gap <= m,
            0 < q,
            x == q * m,
            g == q * gap,
            m - gap <= under,
    ;
}

/// The root of a finite positive number is finite and positive.
pub proof fn lemma_root_positive(x: Binary64)
    requires
        x.finite(),
        !x.negative(),
        !x.zero(),
    ensures
        root(x).finite(),
        !root(x).negative(),
        !root(x).zero(),
{
    reveal(root);
    lemma_pattern_magnitude(x, x);
    let p = x.magnitude() * pow2(1074);
    let m = x.magnitude();
    let unit = pow2(1074) as int;
    lemma_pow2_pos(1074);
    assert(0 < p) by (nonlinear_arith)
        requires
            0 < m,
            0 < unit,
            p == m * unit,
    ;
    lemma_nearest_root_exists(p);
    let b = round_root(p);
    lemma_magnitude_of_parts(0, 0);
    lemma_magnitude_of_parts(0, 1);
    lemma2_to64();
    if b == 0 {
        assert(magnitude(0) + magnitude(1) == 1);
    }
    let top = INFINITE as int;
    lemma_magnitude_of_parts(2045, SIGNIFICANDS as int);
    lemma_magnitude_grows(x.pattern(), top);
    lemma_magnitude_step(top - 1);
    lemma2_to64_rest();
    lemma_pow2_adds(53, 2045);
    lemma_pow2_adds(2098, 2098);
    lemma_pow2_adds(2098, 1074);
    lemma_pow2_adds(3172, 2);
    lemma_pow2_strictly_increases(3174, 4196);
    let w = magnitude(top);
    let v = magnitude(top - 1);
    assert(w * w <= (v + w) * (v + w)) by (nonlinear_arith)
        requires
            0 <= v,
            0 <= w,
    ;
    assert(p <= w * unit) by (nonlinear_arith)
        requires
            p == m * unit,
            m <= w,
            0 < unit,
    ;
}

/// A difference has the sign of the exact one.
pub proof fn lemma_difference_sign(a: Binary64, b: Binary64)
    requires
        b.finite(),
        less(a, b) || less(b, a),
    ensures
        !difference(a, b).nan(),
        difference(a, b).negative() == less(a, b),
{
    reveal(sum);
    if a.finite() {
        lemma_order_of_values(a, b);
        let exact = a.value() - b.value();
        if exact < 0 {
            lemma_nearest_exists(-exact, 1);
        } else {
            lemma_nearest_exists(exact, 1);
        }
    }
}

/// A quotient by a finite number other than zero has the sign of its operands.
pub proof fn lemma_quotient_sign(a: Binary64, b: Binary64)
    requires
        !a.nan(),
        b.finite(),
        !b.zero(),
    ensures
        !quotient(a, b).nan(),
        quotient(a, b).negative() == (a.negative() != b.negative()),
{
    reveal(quotient);
    if a.finite() {
        lemma_quotient_ordered(a, b, b);
    }
}

/// A finite difference is at most one part in `2^53` larger than the exact one.
pub proof fn lemma_difference_within_half_a_place(a: Binary64, b: Binary64)
    requires
        a.finite(),
        b.finite(),
        difference(a, b).finite(),
    ensures
        (SIGNIFICANDS - 1) * difference(a, b).magnitude() <= SIGNIFICANDS * room(b, a),
        0 <= room(b, a),
{
    let exact = room(b, a);
    let c = round_ratio(exact, 1);
    lemma_nearest_exists(exact, 1);
    lemma_magnitude_zero();
    assert(exact == 0 || difference(a, b).pattern() == c) by {
        reveal(sum);
    }
    if exact == 0 {
        assert(difference(a, b).zero()) by {
            reveal(sum);
        }
    } else if HIDDEN <= c {
        lemma_ratio_within_half_a_place(exact, 1);
    } else {
        // Below the first normal number every whole count of units is on the grid.
        lemma_magnitude_of_parts(0, c);
        lemma_magnitude_of_parts(0, c + 1);
        lemma2_to64();
        let w = pow2(0) as int;
        assert(c * w == c && (c + 1) * w == c + 1) by (nonlinear_arith)
            requires
                w == 1,
        ;
        if 0 < c {
            lemma_magnitude_of_parts(0, c - 1);
            assert((c - 1) * w == c - 1) by (nonlinear_arith)
                requires
                    w == 1,
            ;
        }
        assert(exact == c);
    }
}


/// Half of a number well above the subnormal range is exact.
pub proof fn lemma_product_with_half(x: Binary64)
    requires
        SIGNIFICANDS <= x.pattern() < INFINITE,
    ensures
        product(Binary64 { bits: HALF }, x).finite(),
        product(Binary64 { bits: HALF }, x).negative() == x.negative(),
        product(Binary64 { bits: HALF }, x).pattern() == x.pattern() - HIDDEN,
        2 * product(Binary64 { bits: HALF }, x).magnitude() == x.magnitude(),
{
    reveal(product);
    lemma_magnitude_of_parts(1021, HIDDEN as int);
    lemma2_to64_rest();
    lemma_pow2_adds(52, 1021);
    lemma_pow2_unfold(1074);
    lemma_pow2_pos(1074);
    let unit = pow2(1074) as int;
    let b = x.pattern();
    let c = b - HIDDEN;
    let m = magnitude(b);
    lemma_magnitude_step(b);
    lemma_magnitude_step(c);
    let u = scale_of(c);
    let s = c - u * HIDDEN;
    lemma_magnitude_of_parts((u + 1) as nat, s);
    lemma_pow2_unfold((u + 1) as nat);
    let w = pow2(u as nat) as int;
    assert(s * (2 * w) == 2 * (s * w)) by (nonlinear_arith);
    assert(b == (u + 1) * HIDDEN + s);
    let half = pow2(1073) as int;
    let n = magnitude(c);
    assert(half * m == unit * n) by (nonlinear_arith)
        requires
            unit == 2 * half,
            m == 2 * n,
    ;
    lemma_round_units(unit, c);
}

} // verus!
