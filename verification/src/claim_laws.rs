//! What the verdict on a claim of negative curvature means over the exact numbers.

use crate::binary64::{
    absolute, at_most, lemma_product_sign, normal, product, quotient, root, Binary64, TWO,
};
use crate::order::{
    lemma_pattern_magnitude, lemma_product_with_two, lemma_quotient_ordered,
    lemma_ratio_within_half_a_place, lemma_root_ordered, lemma_root_positive,
};
use crate::rounding::{
    lemma_magnitude_grows, lemma_magnitude_of_parts, lemma_magnitude_step, lemma_nearest_exists,
    lemma_nearest_root_exists, lemma_round_grid_point, lemma_round_ratio_ordered, magnitude,
    round_ratio, round_root, scale_of, HIDDEN, INFINITE, SIGNIFICANDS,
};
use crate::second_order::{claimable, curvature_floor, smallest_step};
use vstd::arithmetic::power2::{
    lemma2_to64, lemma2_to64_rest, lemma_pow2_adds, lemma_pow2_pos, lemma_pow2_strictly_increases,
    pow2,
};
use vstd::prelude::*;

verus! {

/// The root of a rounded square is at most the number squared, where the square is
/// neither infinite nor subnormal.
proof fn lemma_root_of_square(x: Binary64)
    requires
        x.finite(),
        !x.negative(),
        product(x, x).finite(),
        HIDDEN <= product(x, x).pattern(),
    ensures
        root(product(x, x)).pattern() <= x.pattern(),
        !root(product(x, x)).nan(),
{
    let y = product(x, x);
    lemma_product_sign(x, x);
    lemma_root_positive(y);
    let a = x.pattern();
    let m = magnitude(a);
    let unit = pow2(1074) as int;
    lemma_pow2_pos(1074);
    lemma_magnitude_step(a);
    assert(0 <= m * m) by (nonlinear_arith);
    lemma_nearest_exists(m * m, unit);
    let c = y.pattern();
    assert(c == round_ratio(m * m, unit)) by {
        reveal(product);
    }
    let q = magnitude(c);
    lemma_magnitude_step(c);
    lemma_magnitude_step(c - 1);
    assert(0 <= q * unit) by (nonlinear_arith)
        requires
            0 <= q,
            0 < unit,
    ;
    lemma_nearest_root_exists(q * unit);
    let b = root(y).pattern();
    assert(b == round_root(q * unit)) by {
        reveal(root);
    }
    if a < b {
        // The square lies above the midpoint over the number, and within half a
        // place of the exact square: the two are further apart than that.
        let place = pow2(scale_of(a) as nat) as int;
        let s = a - scale_of(a) * HIDDEN;
        let gap = pow2(scale_of(c) as nat) as int;
        let t = c - scale_of(c) * HIDDEN;
        lemma_pow2_pos(scale_of(a) as nat);
        lemma_pow2_pos(scale_of(c) as nat);
        let below = magnitude(b - 1) + magnitude(b);
        let middle = m + magnitude(a + 1);
        if a + 1 < b {
            lemma_magnitude_grows(a, b - 1);
            lemma_magnitude_grows(a + 1, b);
        }
        assert(middle * middle <= below * below) by (nonlinear_arith)
            requires
                0 <= middle <= below,
        ;
        let under = magnitude(c - 1);
        assert(q - gap <= under) by {
            if scale_of(c - 1) != scale_of(c) {
                lemma_pow2_strictly_increases(scale_of(c - 1) as nat, scale_of(c) as nat);
            }
        }
        assert(unit * (2 * q - gap) <= 2 * (m * m)) by (nonlinear_arith)
            requires
                unit * (under + q) <= 2 * (m * m),
                q - gap <= under,
                0 < unit,
        ;
        lemma_squares_too_far(s, place, t, gap, unit, m, q, middle);
    }
}

/// The counting behind [`lemma_root_of_square`].
proof fn lemma_squares_too_far(
    s: int,
    place: int,
    t: int,
    gap: int,
    unit: int,
    m: int,
    q: int,
    middle: int,
)
    requires
        0 <= s < SIGNIFICANDS,
        HIDDEN <= t,
        0 < place,
        0 < gap,
        0 < unit,
        m == s * place,
        middle == 2 * m + place,
        q == t * gap,
        unit * (2 * q - gap) <= 2 * (m * m),
    ensures
        4 * (q * unit) < middle * middle,
{
    let x = unit * gap;
    let y = place * place;
    let full = SIGNIFICANDS - 1;
    assert(0 < x && 0 < y) by (nonlinear_arith)
        requires
            0 < unit,
            0 < gap,
            0 < place,
            x == unit * gap,
            y == place * place,
    ;
    assert(m * m == (s * s) * y) by (nonlinear_arith)
        requires
            m == s * place,
            y == place * place,
    ;
    assert(middle * middle == 4 * (m * m) + (4 * s + 1) * y) by (nonlinear_arith)
        requires
            middle == 2 * m + place,
            m == s * place,
            y == place * place,
    ;
    assert(unit * (2 * q - gap) == 2 * (q * unit) - x) by (nonlinear_arith)
        requires
            x == unit * gap,
    ;
    assert(q * unit == t * x) by (nonlinear_arith)
        requires
            q == t * gap,
            x == unit * gap,
    ;
    if middle * middle <= 4 * (q * unit) {
        assert((4 * s + 1) * y <= 2 * x);
        assert(full * x <= 2 * ((s * s) * y)) by (nonlinear_arith)
            requires
                2 * (t * x) - x <= 2 * ((s * s) * y),
                full + 1 <= 2 * t,
                0 < x,
        ;
        assert(full * ((4 * s + 1) * y) <= full * (2 * x)) by (nonlinear_arith)
            requires
                (4 * s + 1) * y <= 2 * x,
                0 <= full,
        ;
        assert(full * (2 * x) == 2 * (full * x)) by (nonlinear_arith);
        assert((s * s) * y * 4 < full * ((4 * s + 1) * y)) by (nonlinear_arith)
            requires
                0 <= s <= full,
                0 < full,
                0 < y,
        ;
    }
}

/// A resolvable claim has a falsifiable range: its smallest step is at most the largest
/// one.
pub proof fn law_resolvable_claim_has_a_range(
    lambda_min: Binary64,
    alpha_max: Binary64,
    objective_resolution: Binary64,
)
    requires
        claimable(lambda_min, alpha_max, objective_resolution),
    ensures
        at_most(smallest_step(lambda_min, alpha_max, objective_resolution), alpha_max),
{
}

/// Where the square of the largest step and the quotient under the root keep full
/// precision, the smallest step of a resolvable claim is the root itself.
pub proof fn law_smallest_step_is_the_root(
    lambda_min: Binary64,
    alpha_max: Binary64,
    objective_resolution: Binary64,
)
    requires
        claimable(lambda_min, alpha_max, objective_resolution),
        !at_most(absolute(lambda_min), curvature_floor(alpha_max, objective_resolution)),
        normal(product(alpha_max, alpha_max)),
        normal(
            quotient(
                product(Binary64 { bits: TWO }, objective_resolution),
                absolute(lambda_min),
            ),
        ),
    ensures
        smallest_step(lambda_min, alpha_max, objective_resolution) == root(
            quotient(
                product(Binary64 { bits: TWO }, objective_resolution),
                absolute(lambda_min),
            ),
        ),
{
    let l = absolute(lambda_min);
    let d = product(Binary64 { bits: TWO }, objective_resolution);
    let square = product(alpha_max, alpha_max);
    lemma_product_sign(Binary64 { bits: TWO }, objective_resolution);
    lemma_product_sign(alpha_max, alpha_max);
    let q = quotient(d, l);
    assert(d.finite()) by {
        reveal(quotient);
    }
    lemma_divided(d, square);
    lemma_divided(d, l);
    lemma_above_the_floor(l, d, square);
    let x = d.magnitude() * pow2(1074);
    let y = square.magnitude();
    let z = l.magnitude();
    assert(z * y == y * z) by (nonlinear_arith);
    lemma_round_grid_point(square.pattern());
    lemma_round_ratio_ordered(x, z, y, 1);
    lemma_root_of_square(alpha_max);
    lemma_root_ordered(q, square);
}

/// Twice the decrease that a claim predicts at the largest step, exactly, in units of
/// `2^-3222`.
pub open spec fn exact_prediction(lambda_min: Binary64, alpha_max: Binary64) -> int {
    absolute(lambda_min).magnitude() * (alpha_max.magnitude() * alpha_max.magnitude())
}

/// Twice the resolution, exactly, in units of `2^-3222`.
pub open spec fn exact_allowance(objective_resolution: Binary64) -> int {
    2 * objective_resolution.magnitude() * pow2(1074) * pow2(1074)
}

/// A finite nonnegative number divided by a positive one.
proof fn lemma_divided(a: Binary64, b: Binary64)
    requires
        a.finite(),
        !a.negative(),
        b.finite(),
        !b.negative(),
        !b.zero(),
    ensures
        0 < pow2(1074),
        0 <= a.magnitude(),
        0 < b.magnitude(),
        0 <= a.magnitude() * pow2(1074),
        !quotient(a, b).nan(),
        !quotient(a, b).negative(),
        quotient(a, b).pattern() == round_ratio(a.magnitude() * pow2(1074), b.magnitude()),
{
    lemma_pow2_pos(1074);
    lemma_pattern_magnitude(a, a);
    lemma_pattern_magnitude(b, b);
    lemma_quotient_ordered(a, b, b);
    let x = a.magnitude();
    let unit = pow2(1074) as int;
    assert(0 <= x * unit) by (nonlinear_arith)
        requires
            0 <= x,
            0 < unit,
    ;
    lemma_nearest_exists(x * unit, b.magnitude());
    assert(quotient(a, b).pattern() == round_ratio(x * unit, b.magnitude())) by {
        reveal(quotient);
    }
}

/// A number above a rounded quotient is above the exact one.
proof fn lemma_above_the_floor(l: Binary64, a: Binary64, b: Binary64)
    requires
        a.finite(),
        !a.negative(),
        b.finite(),
        !b.negative(),
        !b.zero(),
        l.finite(),
        !l.negative(),
        !at_most(l, quotient(a, b)),
    ensures
        a.magnitude() * pow2(1074) < l.magnitude() * b.magnitude(),
{
    lemma_divided(a, b);
    lemma_pattern_magnitude(l, l);
    let x = a.magnitude() * pow2(1074);
    let y = b.magnitude();
    let z = l.magnitude();
    lemma_round_grid_point(l.pattern());
    if z * y <= x * 1 {
        lemma_round_ratio_ordered(z, 1, x, y);
    }
}

/// A number at or below a rounded quotient is within half a place of the exact one, where
/// the rounded one is not subnormal.
proof fn lemma_at_the_floor(l: Binary64, a: Binary64, b: Binary64)
    requires
        a.finite(),
        !a.negative(),
        b.finite(),
        !b.negative(),
        !b.zero(),
        l.finite(),
        !l.negative(),
        at_most(l, quotient(a, b)),
        HIDDEN <= quotient(a, b).pattern(),
    ensures
        (SIGNIFICANDS - 1) * (b.magnitude() * l.magnitude()) <= SIGNIFICANDS * (a.magnitude()
            * pow2(1074)),
        !quotient(a, b).finite() ==> b.magnitude() * magnitude(INFINITE as int) <= 2 * (
        a.magnitude() * pow2(1074)),
{
    lemma_divided(a, b);
    lemma_pattern_magnitude(l, l);
    let x = a.magnitude() * pow2(1074);
    let y = b.magnitude();
    let z = l.magnitude();
    let full = SIGNIFICANDS as int;
    let floor = quotient(a, b);
    lemma_nearest_exists(x, y);
    if floor.finite() {
        let g = floor.magnitude();
        lemma_ratio_within_half_a_place(x, y);
        lemma_pattern_magnitude(l, floor);
        assert((full - 1) * (y * z) <= (full - 1) * (y * g)) by (nonlinear_arith)
            requires
                0 <= z <= g,
                0 < y,
                1 < full,
        ;
    } else {
        let top = INFINITE as int;
        lemma_magnitude_step(top - 1);
        let v = magnitude(top - 1);
        let w = magnitude(top);
        if l.pattern() < top - 1 {
            lemma_magnitude_grows(l.pattern(), top - 1);
        }
        assert((full - 1) * (y * z) <= full * x && y * w <= 2 * x) by (nonlinear_arith)
            requires
                0 <= z <= v,
                v < w,
                0 < y,
                y * (v + w) <= 2 * x,
                0 <= x,
                1 < full,
        {
            assert(y * (v + w) == y * v + y * w);
            assert(y * z <= y * v);
            assert(y * v <= y * w);
            assert(y * z <= x);
            assert(0 <= y * z);
        }
    }
}

/// A quotient in the normal range is no more than half a place below the exact one.
proof fn lemma_quotient_from_below(a: Binary64, b: Binary64)
    requires
        a.finite(),
        !a.negative(),
        b.finite(),
        !b.negative(),
        !b.zero(),
        normal(quotient(a, b)),
    ensures
        SIGNIFICANDS * (a.magnitude() * pow2(1074)) <= (SIGNIFICANDS + 1) * (b.magnitude()
            * quotient(a, b).magnitude()),
        (SIGNIFICANDS - 1) * (b.magnitude() * quotient(a, b).magnitude()) <= SIGNIFICANDS * (
        a.magnitude() * pow2(1074)),
{
    lemma_divided(a, b);
    lemma_ratio_within_half_a_place(a.magnitude() * pow2(1074), b.magnitude());
}

/// A quotient below the normal range is that of a small number by a large one.
proof fn lemma_small_quotient(a: Binary64, b: Binary64)
    requires
        a.finite(),
        !a.negative(),
        b.finite(),
        !b.negative(),
        !b.zero(),
        quotient(a, b).pattern() < HIDDEN,
    ensures
        2 * (a.magnitude() * pow2(1074)) <= SIGNIFICANDS * b.magnitude(),
        quotient(a, b).magnitude() < HIDDEN,
{
    lemma_divided(a, b);
    let x = a.magnitude() * pow2(1074);
    let y = b.magnitude();
    lemma_nearest_exists(x, y);
    let c = quotient(a, b).pattern();
    lemma_magnitude_of_parts(0, c);
    lemma_magnitude_of_parts(0, c + 1);
    lemma2_to64();
    let w = pow2(0) as int;
    assert(c * w == c && (c + 1) * w == c + 1) by (nonlinear_arith)
        requires
            w == 1,
    ;
    let half = HIDDEN as int;
    assert(2 * x <= (2 * half) * y) by (nonlinear_arith)
        requires
            2 * x <= y * (c + (c + 1)),
            c < half,
            0 < y,
    ;
}

/// How large a step is whose square overflows or falls below the normal range, and how
/// close the square is otherwise.
proof fn lemma_size_of_square(alpha: Binary64)
    requires
        alpha.finite(),
        !alpha.negative(),
        !alpha.zero(),
    ensures
        ({
            let square = product(alpha, alpha);
            let m = alpha.magnitude();
            let unit = pow2(1074) as int;
            &&& 0 < m
            &&& !square.nan() && !square.negative()
            &&& !square.finite() ==> SIGNIFICANDS * (2 * unit) <= m
            &&& square.pattern() < HIDDEN ==> SIGNIFICANDS * m <= unit
            &&& normal(square) ==> {
                &&& 0 < square.magnitude()
                &&& (SIGNIFICANDS - 1) * (unit * square.magnitude()) <= SIGNIFICANDS * (m * m)
                &&& SIGNIFICANDS * (m * m) <= (SIGNIFICANDS + 1) * (unit * square.magnitude())
            }
        }),
{
    let square = product(alpha, alpha);
    let m = alpha.magnitude();
    let unit = pow2(1074) as int;
    lemma_product_sign(alpha, alpha);
    lemma_pow2_pos(1074);
    lemma_pattern_magnitude(alpha, alpha);
    lemma_pattern_magnitude(square, square);
    assert(0 <= m * m) by (nonlinear_arith);
    lemma_nearest_exists(m * m, unit);
    assert(square.pattern() == round_ratio(m * m, unit)) by {
        reveal(product);
    }
    let c = square.pattern();
    lemma2_to64();
    lemma2_to64_rest();
    lemma_pow2_adds(1, 53);
    lemma_pow2_adds(54, 1074);
    if normal(square) {
        lemma_ratio_within_half_a_place(m * m, unit);
    } else if c < HIDDEN {
        lemma_magnitude_of_parts(0, c);
        lemma_magnitude_of_parts(0, c + 1);
        let w = pow2(0) as int;
        assert(c * w == c && (c + 1) * w == c + 1) by (nonlinear_arith)
            requires
                w == 1,
        ;
        let half = HIDDEN as int;
        assert(m * m <= half * unit) by (nonlinear_arith)
            requires
                2 * (m * m) <= unit * (c + (c + 1)),
                c < half,
                0 < unit,
        ;
        let bound = pow2(1021) as int;
        lemma_pow2_adds(53, 1021);
        lemma_pow2_adds(52, 1074);
        lemma_pow2_adds(1021, 1021);
        lemma_pow2_strictly_increases(1126, 2042);
        if bound < m {
            assert(bound * bound < m * m) by (nonlinear_arith)
                requires
                    0 <= bound < m,
            ;
        }
        assert(SIGNIFICANDS * bound == unit);
    } else {
        let top = INFINITE as int;
        lemma_magnitude_of_parts(2045, SIGNIFICANDS as int);
        lemma_pow2_adds(53, 2045);
        lemma_magnitude_step(top - 1);
        let v = magnitude(top - 1);
        let w = magnitude(top);
        assert(unit * w <= 2 * (m * m)) by (nonlinear_arith)
            requires
                unit * (v + w) <= 2 * (m * m),
                0 <= v,
                0 < unit,
        ;
        lemma_pow2_adds(1074, 2098);
        let bound = pow2(1128) as int;
        lemma_pow2_adds(1128, 1128);
        lemma_pow2_adds(1, 2256);
        lemma_pow2_strictly_increases(2257, 3172);
        if m < bound {
            assert(m * m < bound * bound) by (nonlinear_arith)
                requires
                    0 <= m < bound,
            ;
        }
        let full = SIGNIFICANDS as int;
        assert(full * (2 * unit) == (2 * full) * unit) by (nonlinear_arith);
    }
}

/// A claim's numbers, with their signs.
proof fn lemma_claim_signs(
    lambda_min: Binary64,
    alpha_max: Binary64,
    objective_resolution: Binary64,
)
    requires
        claimable(lambda_min, alpha_max, objective_resolution),
    ensures
        ({
            let l = absolute(lambda_min);
            let doubled = product(Binary64 { bits: TWO }, objective_resolution);
            &&& l.finite() && !l.negative() && !l.zero() && 0 < l.magnitude()
            &&& alpha_max.finite() && !alpha_max.negative() && !alpha_max.zero()
            &&& objective_resolution.finite() && !objective_resolution.negative()
            &&& 0 < objective_resolution.magnitude()
            &&& !doubled.nan() && !doubled.negative()
        }),
{
    lemma_pattern_magnitude(absolute(lambda_min), absolute(lambda_min));
    lemma_pattern_magnitude(objective_resolution, objective_resolution);
    lemma_product_sign(Binary64 { bits: TWO }, objective_resolution);
}

/// A resolvable claim predicts, exactly, more than the resolution less one part in
/// `2^52`.
pub proof fn law_resolvable_claim_exceeds_the_resolution(
    lambda_min: Binary64,
    alpha_max: Binary64,
    objective_resolution: Binary64,
)
    requires
        claimable(lambda_min, alpha_max, objective_resolution),
        !at_most(absolute(lambda_min), curvature_floor(alpha_max, objective_resolution)),
    ensures
        (SIGNIFICANDS - 1) * exact_allowance(objective_resolution) < (SIGNIFICANDS + 1)
            * exact_prediction(lambda_min, alpha_max),
{
    lemma_claim_signs(lambda_min, alpha_max, objective_resolution);
    lemma_size_of_square(alpha_max);
    lemma_pow2_pos(1074);
    let two = Binary64 { bits: TWO };
    let l = absolute(lambda_min);
    let square = product(alpha_max, alpha_max);
    let doubled = product(two, objective_resolution);
    let unit = pow2(1074) as int;
    let z = l.magnitude();
    let m = alpha_max.magnitude();
    let y = square.magnitude();
    let r = objective_resolution.magnitude();
    let full = SIGNIFICANDS as int;
    lemma_product_with_two(objective_resolution);
    assert(exact_allowance(objective_resolution) == 2 * r * unit * unit);
    if !normal(square) {
        let first = quotient(objective_resolution, alpha_max);
        let twice = product(two, first);
        lemma_divided(objective_resolution, alpha_max);
        lemma_product_sign(two, first);
        assert(twice.finite() && first.finite()) by {
            reveal(quotient);
        }
        lemma_product_with_two(first);
        lemma_above_the_floor(l, twice, alpha_max);
        let e = first.magnitude();
        if normal(first) {
            lemma_quotient_from_below(objective_resolution, alpha_max);
            assert((full - 1) * (2 * r * unit * unit) < (full + 1) * (z * (m * m)))
                by (nonlinear_arith)
                requires
                    full * (r * unit) <= (full + 1) * (m * e),
                    (2 * e) * unit < z * m,
                    0 < m,
                    0 < unit,
                    0 <= r,
                    1 < full,
            {
                assert(full * (2 * r * unit * unit) == (2 * unit) * (full * (r * unit)));
                assert((2 * unit) * (full * (r * unit)) <= (2 * unit) * ((full + 1) * (m * e)));
                assert((2 * unit) * ((full + 1) * (m * e)) == ((full + 1) * m) * ((2 * e) * unit));
                assert(((full + 1) * m) * ((2 * e) * unit) < ((full + 1) * m) * (z * m));
                assert(((full + 1) * m) * (z * m) == (full + 1) * (z * (m * m)));
                assert(0 <= 2 * r * unit * unit);
            }
        } else {
            lemma_small_quotient(objective_resolution, alpha_max);
            lemma_normal_over_small(objective_resolution, alpha_max);
            assert((full - 1) * (2 * r * unit * unit) < (full + 1) * (z * (m * m)))
                by (nonlinear_arith)
                requires
                    2 * (r * unit) <= full * m,
                    full * (2 * unit) <= m,
                    0 < m,
                    0 < unit,
                    0 <= r,
                    1 <= z,
                    1 < full,
            {
                let allowance = 2 * r * unit * unit;
                let square = m * m;
                assert(allowance == (2 * (r * unit)) * unit);
                assert((2 * (r * unit)) * unit <= (full * m) * unit);
                assert(2 * ((full * m) * unit) == (full * (2 * unit)) * m);
                assert((full * (2 * unit)) * m <= square);
                assert(0 < square);
                assert(allowance < square);
                assert(0 <= allowance);
                assert(square <= z * square);
                assert((full - 1) * allowance <= (full - 1) * square);
                assert((full - 1) * square < (full + 1) * square);
                assert((full + 1) * square <= (full + 1) * (z * square));
            }
        }
    } else if !doubled.finite() {
        let half_floor = quotient(objective_resolution, square);
        lemma_divided(objective_resolution, square);
        lemma_product_sign(two, half_floor);
        assert(half_floor.finite());
        lemma_product_with_two(half_floor);
        lemma_large_resolution_over(objective_resolution, square);
        lemma_quotient_from_below(objective_resolution, square);
        let g = half_floor.magnitude();
        let floor = product(two, half_floor);
        assert(2 * g < z) by {
            lemma_magnitude_grows(floor.pattern(), l.pattern());
        }
        assert((full - 1) * (2 * r * unit * unit) < (full + 1) * (z * (m * m)))
            by (nonlinear_arith)
            requires
                full * (r * unit) <= (full + 1) * (y * g),
                2 * g < z,
                (full - 1) * (unit * y) <= full * (m * m),
                0 < y,
                0 < unit,
                0 < z,
                0 <= r,
                1 < full,
        {
            let a = 2 * r * unit * unit;
            assert(full * a == (2 * unit) * (full * (r * unit)));
            assert((2 * unit) * (full * (r * unit)) <= (2 * unit) * ((full + 1) * (y * g)));
            assert((2 * unit) * ((full + 1) * (y * g)) == ((full + 1) * (unit * y)) * (2 * g));
            assert(0 < (full + 1) * (unit * y));
            assert(((full + 1) * (unit * y)) * (2 * g) < ((full + 1) * (unit * y)) * z);
            assert(full * a < ((full + 1) * (unit * y)) * z);
            assert((full - 1) * (full * a) < (full - 1) * (((full + 1) * (unit * y)) * z));
            assert((full - 1) * (((full + 1) * (unit * y)) * z) == ((full + 1) * z) * ((full - 1)
                * (unit * y)));
            assert(((full + 1) * z) * ((full - 1) * (unit * y)) <= ((full + 1) * z) * (full * (m
                * m)));
            assert(((full + 1) * z) * (full * (m * m)) == full * ((full + 1) * (z * (m * m))));
            assert(full * ((full - 1) * a) == (full - 1) * (full * a));
        }
    } else {
        lemma_above_the_floor(l, doubled, square);
        assert((full - 1) * (2 * r * unit * unit) < (full + 1) * (z * (m * m)))
            by (nonlinear_arith)
            requires
                (2 * r) * unit < z * y,
                (full - 1) * (unit * y) <= full * (m * m),
                0 < unit,
                0 < z,
                1 < full,
        {
            let x = 2 * r * unit;
            assert((full - 1) * (x * unit) < (full - 1) * ((z * y) * unit));
            assert((full - 1) * ((z * y) * unit) == z * ((full - 1) * (unit * y)));
            assert(z * ((full - 1) * (unit * y)) <= z * (full * (m * m)));
            assert(z * (full * (m * m)) == full * (z * (m * m)));
            assert(0 <= z * (m * m));
        }
    }
}

/// A quotient by a number whose square falls below the normal range is itself above it.
proof fn lemma_normal_over_small(a: Binary64, b: Binary64)
    requires
        a.finite(),
        !a.negative(),
        0 < a.magnitude(),
        b.finite(),
        !b.negative(),
        !b.zero(),
    ensures
        SIGNIFICANDS * b.magnitude() <= pow2(1074) ==> HIDDEN <= quotient(a, b).pattern(),
{
    if SIGNIFICANDS * b.magnitude() <= pow2(1074) {
        lemma_divided(a, b);
        let unit = pow2(1074) as int;
        let x = a.magnitude();
        let y = b.magnitude();
        lemma_magnitude_of_parts(0, HIDDEN as int);
        lemma2_to64();
        lemma_round_grid_point(HIDDEN as int);
        assert(HIDDEN * y <= (x * unit) * 1) by (nonlinear_arith)
            requires
                SIGNIFICANDS * y <= unit,
                1 <= x,
                0 < y,
        ;
        lemma_round_ratio_ordered(HIDDEN as int, 1, x * unit, y);
    }
}

/// A number that overflows when doubled, divided by any other, stays above the subnormal
/// range.
proof fn lemma_large_resolution_over(a: Binary64, b: Binary64)
    requires
        a.finite(),
        !a.negative(),
        magnitude(INFINITE as int) <= 2 * a.magnitude(),
        b.finite(),
        !b.negative(),
        !b.zero(),
    ensures
        HIDDEN <= quotient(a, b).pattern(),
{
    lemma_divided(a, b);
    let unit = pow2(1074) as int;
    let x = a.magnitude();
    let y = b.magnitude();
    let w = magnitude(INFINITE as int);
    lemma_magnitude_grows(b.pattern(), INFINITE as int);
    lemma_magnitude_of_parts(0, HIDDEN as int);
    lemma2_to64();
    lemma2_to64_rest();
    lemma_pow2_strictly_increases(53, 1074);
    lemma_round_grid_point(HIDDEN as int);
    assert(HIDDEN * y <= (x * unit) * 1) by (nonlinear_arith)
        requires
            SIGNIFICANDS <= unit,
            w <= 2 * x,
            0 < y <= w,
    ;
    lemma_round_ratio_ordered(HIDDEN as int, 1, x * unit, y);
}

/// An unresolvable claim predicts, exactly, at most the resolution and two parts in
/// `2^53` more, where the magnitude it is held to is not subnormal.
pub proof fn law_unresolvable_claim_stays_within_the_resolution(
    lambda_min: Binary64,
    alpha_max: Binary64,
    objective_resolution: Binary64,
)
    requires
        claimable(lambda_min, alpha_max, objective_resolution),
        at_most(absolute(lambda_min), curvature_floor(alpha_max, objective_resolution)),
        HIDDEN <= curvature_floor(alpha_max, objective_resolution).pattern(),
    ensures
        (SIGNIFICANDS - 1) * ((SIGNIFICANDS - 1) * exact_prediction(lambda_min, alpha_max))
            <= SIGNIFICANDS * (SIGNIFICANDS * exact_allowance(objective_resolution)),
{
    lemma_claim_signs(lambda_min, alpha_max, objective_resolution);
    lemma_size_of_square(alpha_max);
    lemma_pow2_pos(1074);
    let two = Binary64 { bits: TWO };
    let l = absolute(lambda_min);
    let square = product(alpha_max, alpha_max);
    let doubled = product(two, objective_resolution);
    let unit = pow2(1074) as int;
    let z = l.magnitude();
    let m = alpha_max.magnitude();
    let y = square.magnitude();
    let r = objective_resolution.magnitude();
    let full = SIGNIFICANDS as int;
    lemma_product_with_two(objective_resolution);
    assert(exact_allowance(objective_resolution) == 2 * r * unit * unit);
    if !normal(square) {
        lemma_unresolvable_in_steps(l, alpha_max, objective_resolution);
    } else {
        assert((full - 1) * (y * z) <= full * (2 * r * unit)) by {
            if doubled.finite() {
                lemma_at_the_floor(l, doubled, square);
            } else {
                lemma_unresolvable_at_large_resolution(l, square, objective_resolution);
            }
        }
        assert((full - 1) * ((full - 1) * (z * (m * m))) <= full * (full * (2 * r * unit * unit)))
            by (nonlinear_arith)
            requires
                (full - 1) * (y * z) <= full * (2 * r * unit),
                full * (m * m) <= (full + 1) * (unit * y),
                0 < unit,
                0 < z,
                0 <= r,
                1 < full,
        {
            let a = z * (m * m);
            let x = 2 * r * unit;
            let b = x * unit;
            assert(2 * r * unit * unit == b);
            assert(full * ((full - 1) * a) == ((full - 1) * z) * (full * (m * m)));
            assert(((full - 1) * z) * (full * (m * m)) <= ((full - 1) * z) * ((full + 1) * (unit
                * y)));
            assert(((full - 1) * z) * ((full + 1) * (unit * y)) == ((full + 1) * unit) * ((full - 1)
                * (y * z)));
            assert(((full + 1) * unit) * ((full - 1) * (y * z)) <= ((full + 1) * unit) * (full
                * x));
            assert(((full + 1) * unit) * (full * x) == full * ((full + 1) * b));
            assert((full - 1) * a <= (full + 1) * b);
            assert((full - 1) * ((full - 1) * a) <= (full - 1) * ((full + 1) * b));
            assert((full - 1) * ((full + 1) * b) == full * (full * b) - b);
            assert(0 <= b);
        }
    }
}

/// An unresolvable claim whose resolution overflows when doubled.
proof fn lemma_unresolvable_at_large_resolution(
    l: Binary64,
    square: Binary64,
    objective_resolution: Binary64,
)
    requires
        l.finite(),
        !l.negative(),
        normal(square),
        !square.negative(),
        objective_resolution.finite(),
        !objective_resolution.negative(),
        magnitude(INFINITE as int) <= 2 * objective_resolution.magnitude(),
        at_most(
            l,
            product(Binary64 { bits: TWO }, quotient(objective_resolution, square)),
        ),
    ensures
        (SIGNIFICANDS - 1) * (square.magnitude() * l.magnitude()) <= SIGNIFICANDS * (2
            * objective_resolution.magnitude() * pow2(1074)),
{
    let two = Binary64 { bits: TWO };
    let half_floor = quotient(objective_resolution, square);
    let floor = product(two, half_floor);
    let unit = pow2(1074) as int;
    let y = square.magnitude();
    let z = l.magnitude();
    let r = objective_resolution.magnitude();
    let full = SIGNIFICANDS as int;
    lemma_divided(objective_resolution, square);
    lemma_pattern_magnitude(l, l);
    lemma_large_resolution_over(objective_resolution, square);
    lemma_product_sign(two, half_floor);
    if half_floor.finite() {
        let g = half_floor.magnitude();
        lemma_product_with_two(half_floor);
        lemma_quotient_from_below(objective_resolution, square);
        lemma_magnitude_grows(l.pattern(), INFINITE as int);
        if floor.finite() {
            lemma_pattern_magnitude(l, floor);
        }
        assert((full - 1) * (y * z) <= full * (2 * r * unit)) by (nonlinear_arith)
            requires
                (full - 1) * (y * g) <= full * (r * unit),
                0 <= z <= 2 * g,
                0 < y,
                1 < full,
        {
            assert(y * z <= y * (2 * g));
            assert((full - 1) * (y * z) <= (full - 1) * (y * (2 * g)));
            assert((full - 1) * (y * (2 * g)) == 2 * ((full - 1) * (y * g)));
        }
    } else {
        lemma_at_the_floor(l, objective_resolution, square);
        assert(full * (r * unit) <= full * (2 * r * unit)) by (nonlinear_arith)
            requires
                0 <= r,
                0 < unit,
                1 < full,
        ;
    }
}

/// An unresolvable claim whose largest step has a square outside the normal range.
proof fn lemma_unresolvable_in_steps(
    l: Binary64,
    alpha_max: Binary64,
    objective_resolution: Binary64,
)
    requires
        l.finite(),
        !l.negative(),
        alpha_max.finite(),
        !alpha_max.negative(),
        !alpha_max.zero(),
        !normal(product(alpha_max, alpha_max)),
        objective_resolution.finite(),
        !objective_resolution.negative(),
        0 < objective_resolution.magnitude(),
        ({
            let floor = quotient(
                product(Binary64 { bits: TWO }, quotient(objective_resolution, alpha_max)),
                alpha_max,
            );
            at_most(l, floor) && HIDDEN <= floor.pattern()
        }),
    ensures
        ({
            let full = SIGNIFICANDS as int;
            let m = alpha_max.magnitude();
            let unit = pow2(1074) as int;
            (full - 1) * ((full - 1) * (l.magnitude() * (m * m))) <= full * (full * (2
                * objective_resolution.magnitude() * unit * unit))
        }),
{
    let two = Binary64 { bits: TWO };
    let first = quotient(objective_resolution, alpha_max);
    let twice = product(two, first);
    let unit = pow2(1074) as int;
    let m = alpha_max.magnitude();
    let z = l.magnitude();
    let r = objective_resolution.magnitude();
    let full = SIGNIFICANDS as int;
    let w = magnitude(INFINITE as int);
    lemma_size_of_square(alpha_max);
    lemma_divided(objective_resolution, alpha_max);
    lemma_normal_over_small(objective_resolution, alpha_max);
    lemma_product_sign(two, first);
    lemma_pattern_magnitude(l, l);
    lemma_magnitude_grows(l.pattern(), INFINITE as int);
    lemma_magnitude_grows(objective_resolution.pattern(), INFINITE as int);
    if twice.finite() {
        assert(first.finite());
        lemma_product_with_two(first);
        let e = first.magnitude();
        lemma_at_the_floor(l, twice, alpha_max);
        if normal(first) {
            lemma_quotient_from_below(objective_resolution, alpha_max);
            assert((full - 1) * ((full - 1) * (z * (m * m))) <= full * (full * (2 * r * unit
                * unit))) by (nonlinear_arith)
                requires
                    (full - 1) * (m * z) <= full * ((2 * e) * unit),
                    (full - 1) * (m * e) <= full * (r * unit),
                    0 < m,
                    0 < unit,
                    1 < full,
            {
                assert((full - 1) * ((full - 1) * (z * (m * m))) == ((full - 1) * m) * ((full - 1)
                    * (m * z)));
                assert(((full - 1) * m) * ((full - 1) * (m * z)) <= ((full - 1) * m) * (full * ((2
                    * e) * unit)));
                assert(((full - 1) * m) * (full * ((2 * e) * unit)) == (2 * full * unit) * ((full
                    - 1) * (m * e)));
                assert((2 * full * unit) * ((full - 1) * (m * e)) <= (2 * full * unit) * (full * (r
                    * unit)));
                assert((2 * full * unit) * (full * (r * unit)) == full * (full * (2 * r * unit
                    * unit)));
            }
        } else {
            // The step is too long for a floor in the normal range.
            lemma_small_quotient(objective_resolution, alpha_max);
            lemma_floor_of_long_step(twice, alpha_max);
        }
    } else {
        lemma_unbounded_floor(l, alpha_max, objective_resolution);
    }
}

/// A small number divided by a step whose square overflows is subnormal.
proof fn lemma_floor_of_long_step(a: Binary64, b: Binary64)
    requires
        a.finite(),
        !a.negative(),
        a.magnitude() < SIGNIFICANDS,
        b.finite(),
        !b.negative(),
        !b.zero(),
        SIGNIFICANDS * (2 * pow2(1074)) <= b.magnitude(),
    ensures
        quotient(a, b).pattern() < HIDDEN,
{
    lemma_divided(a, b);
    let unit = pow2(1074) as int;
    let x = a.magnitude();
    let y = b.magnitude();
    lemma_magnitude_of_parts(0, 1);
    lemma2_to64();
    lemma_round_grid_point(1);
    assert((x * unit) * 1 <= 1 * y) by (nonlinear_arith)
        requires
            x < SIGNIFICANDS,
            SIGNIFICANDS * (2 * unit) <= y,
            0 < unit,
    ;
    lemma_round_ratio_ordered(x * unit, y, 1, 1);
}

/// A claim held to an infinite magnitude, because the resolution over the step overflows.
proof fn lemma_unbounded_floor(l: Binary64, alpha_max: Binary64, objective_resolution: Binary64)
    requires
        l.finite(),
        !l.negative(),
        alpha_max.finite(),
        !alpha_max.negative(),
        !alpha_max.zero(),
        !normal(product(alpha_max, alpha_max)),
        objective_resolution.finite(),
        !objective_resolution.negative(),
        0 < objective_resolution.magnitude(),
        !product(Binary64 { bits: TWO }, quotient(objective_resolution, alpha_max)).finite(),
    ensures
        ({
            let full = SIGNIFICANDS as int;
            let m = alpha_max.magnitude();
            let unit = pow2(1074) as int;
            (full - 1) * ((full - 1) * (l.magnitude() * (m * m))) <= full * (full * (2
                * objective_resolution.magnitude() * unit * unit))
        }),
{
    let first = quotient(objective_resolution, alpha_max);
    let unit = pow2(1074) as int;
    let m = alpha_max.magnitude();
    let z = l.magnitude();
    let r = objective_resolution.magnitude();
    let full = SIGNIFICANDS as int;
    let w = magnitude(INFINITE as int);
    lemma_size_of_square(alpha_max);
    lemma_divided(objective_resolution, alpha_max);
    lemma_pattern_magnitude(l, l);
    lemma_magnitude_grows(l.pattern(), INFINITE as int);
    lemma_magnitude_grows(objective_resolution.pattern(), INFINITE as int);
    assert((full - 1) * (m * w) <= full * (2 * (r * unit))) by {
        if first.finite() {
            let e = first.magnitude();
            lemma_product_with_two(first);
            if first.pattern() < HIDDEN {
                lemma_small_quotient(objective_resolution, alpha_max);
                lemma_magnitude_grows(HIDDEN as int, INFINITE as int);
                lemma_magnitude_of_parts(2045, SIGNIFICANDS as int);
                lemma2_to64_rest();
                lemma_pow2_adds(53, 2045);
                lemma_pow2_strictly_increases(54, 2098);
                lemma_pow2_adds(1, 53);
                lemma2_to64();
            }
            lemma_quotient_from_below(objective_resolution, alpha_max);
            assert((full - 1) * (m * w) <= full * (2 * (r * unit))) by (nonlinear_arith)
                requires
                    (full - 1) * (m * e) <= full * (r * unit),
                    w <= 2 * e,
                    0 < m,
                    1 < full,
            {
                assert(m * w <= m * (2 * e));
                assert((full - 1) * (m * w) <= (full - 1) * (m * (2 * e)));
                assert((full - 1) * (m * (2 * e)) == 2 * ((full - 1) * (m * e)));
            }
        } else {
            lemma_at_the_floor(Binary64 { bits: 0 }, objective_resolution, alpha_max);
            assert((full - 1) * (m * w) <= full * (2 * (r * unit))) by (nonlinear_arith)
                requires
                    m * w <= 2 * (r * unit),
                    0 <= m * w,
                    1 < full,
            ;
        }
    }
    if full * (2 * unit) <= m {
        assert(full * (2 * (r * unit)) < (full - 1) * (m * w)) by (nonlinear_arith)
            requires
                full * (2 * unit) <= m,
                0 <= r < w,
                0 < unit,
                2 < full,
        {
            assert((full * (2 * unit)) * r <= m * r);
            assert(m * r < m * w);
            assert(full * (2 * (r * unit)) == (full * (2 * unit)) * r);
            assert(m * w <= (full - 1) * (m * w));
        }
    }
    assert((full - 1) * ((full - 1) * (z * (m * m))) <= full * (full * (2 * r * unit * unit)))
        by (nonlinear_arith)
        requires
            (full - 1) * (m * w) <= full * (2 * (r * unit)),
            full * m <= unit,
            0 <= z <= w,
            0 < m,
            0 < unit,
            0 <= r,
            1 < full,
    {
        let x = 2 * (r * unit);
        assert(m * z <= m * w);
        assert((full - 1) * (m * z) <= (full - 1) * (m * w));
        assert((full - 1) * (m * z) <= full * x);
        assert(((full - 1) * m) * ((full - 1) * (m * z)) <= ((full - 1) * m) * (full * x));
        assert(((full - 1) * m) * ((full - 1) * (m * z)) == (full - 1) * ((full - 1) * (z * (m
            * m))));
        assert((full - 1) * m <= full * unit);
        assert(0 <= full * x);
        assert(((full - 1) * m) * (full * x) <= (full * unit) * (full * x));
        assert((full * unit) * (full * x) == full * (full * (2 * r * unit * unit)));
    }
}

} // verus!
