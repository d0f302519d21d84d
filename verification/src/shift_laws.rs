//! How the rounded Newton decrement of a diagonal matrix moves with the shift. Over exact
//! numbers, and for every matrix, see [`crate::exact_laws`].

use crate::binary64::{
    at_most, difference, lemma_product_sign, lemma_sum_kind, negated, normal, product, quotient,
    root, sum, Binary64, HALF, ONE,
};
use crate::cholesky::{
    backward, backward_rest, dot_product, factor, factors, forward, forward_rest, lane, lanes,
    pivot, reduced, solution, tail, usable,
};
use crate::decrement_laws::{
    lemma_mirrored_product, lemma_mirrored_quotient, lemma_round_nothing, mirrored,
};
use crate::order::{
    lemma_pattern_magnitude, lemma_product_ordered, lemma_quotient_ordered, lemma_quotient_sign,
    lemma_ratio_within_half_a_place, lemma_root_positive, lemma_sum_commutes, lemma_sum_ordered,
};
use crate::rounding::{
    lemma_magnitude_grows, lemma_magnitude_of_parts, lemma_magnitude_step, lemma_magnitude_zero,
    lemma_nearest_exists, lemma_nearest_root_exists, lemma_round_grid_point,
    lemma_round_ratio_ordered, magnitude, round_ratio, round_root, scale_of, HIDDEN, INFINITE,
    SIGNIFICANDS,
};
use crate::second_order::shifted_decrease;
use vstd::arithmetic::power2::{
    lemma2_to64, lemma2_to64_rest, lemma_pow2_adds, lemma_pow2_pos, lemma_pow2_strictly_increases,
    pow2,
};
use vstd::prelude::*;

verus! {

/// The root of a pivot is in the normal range, and its square within two roundings of
/// the pivot.
pub proof fn lemma_root_range(p: Binary64)
    requires
        usable(p),
    ensures
        ({
            let r = root(p).magnitude();
            let x = p.magnitude() * pow2(1074);
            let full = SIGNIFICANDS as int;
            &&& normal(root(p)) && !root(p).negative()
            &&& pow2(1074) <= x
            &&& ((full - 1) * r) * ((full - 1) * r) <= (full * full) * x
            &&& (full * full) * x <= ((full + 1) * r) * ((full + 1) * r)
            &&& pow2(536) <= r <= pow2(1588)
        }),
{
    lemma_root_positive(p);
    lemma_pattern_magnitude(p, p);
    lemma_pow2_pos(1074);
    let m = p.magnitude();
    let unit = pow2(1074) as int;
    let x = m * unit;
    let full = SIGNIFICANDS as int;
    assert(unit <= x) by (nonlinear_arith)
        requires
            1 <= m,
            0 < unit,
            x == m * unit,
    ;
    lemma_nearest_root_exists(x);
    let b = root(p).pattern();
    assert(b == round_root(x)) by {
        reveal(root);
    }
    lemma2_to64();
    lemma2_to64_rest();
    if b < HIDDEN {
        lemma_magnitude_of_parts(0, b);
        lemma_magnitude_of_parts(0, b + 1);
        let w = pow2(0) as int;
        assert(b * w == b && (b + 1) * w == b + 1) by (nonlinear_arith)
            requires
                w == 1,
        ;
        let above = b + (b + 1);
        assert(above * above <= full * full) by (nonlinear_arith)
            requires
                0 <= above <= full,
        ;
        lemma_pow2_adds(53, 53);
        lemma_pow2_strictly_increases(106, 1074);
    }
    let r = magnitude(b);
    lemma_magnitude_step(b);
    lemma_magnitude_step(b - 1);
    let gap = pow2(scale_of(b) as nat) as int;
    lemma_pow2_pos(scale_of(b) as nat);
    let under = magnitude(b - 1);
    assert(r - gap <= under) by {
        if scale_of(b - 1) != scale_of(b) {
            lemma_pow2_strictly_increases(scale_of(b - 1) as nat, scale_of(b) as nat);
        }
    }
    let s = b - scale_of(b) * HIDDEN;
    let half = HIDDEN as int;
    assert(half * gap <= r) by (nonlinear_arith)
        requires
            r == s * gap,
            half <= s,
            0 < gap,
    ;
    lemma_root_bounds(full, r, gap, under, x);
    assert(pow2(536) <= r) by {
        lemma_pow2_adds(536, 536);
        lemma_pow2_adds(2, 1072);
        let low = pow2(536) as int;
        if r < low {
            assert(((full + 1) * r) * ((full + 1) * r) < (full * full) * x) by (nonlinear_arith)
                requires
                    0 <= r < low,
                    4 * (low * low) <= x,
                    1 < full,
            {
                assert((full + 1) * r <= (2 * full) * r);
                assert((2 * full) * r < (2 * full) * low);
                assert(((full + 1) * r) * ((full + 1) * r) < ((2 * full) * low) * ((2 * full)
                    * low));
                assert(((2 * full) * low) * ((2 * full) * low) == (full * full) * (4 * (low
                    * low)));
                assert((full * full) * (4 * (low * low)) <= (full * full) * x);
            }
        }
    }
    assert(r <= pow2(1588)) by {
        let top = INFINITE as int;
        lemma_magnitude_grows(p.pattern(), top);
        lemma_magnitude_of_parts(2045, full);
        lemma_pow2_adds(53, 2045);
        lemma_pow2_adds(2098, 1074);
        lemma_pow2_adds(1588, 1588);
        lemma_pow2_adds(4, 3172);
        let w = magnitude(top);
        let high = pow2(1588) as int;
        lemma_pow2_pos(1588);
        assert(x <= w * unit) by (nonlinear_arith)
            requires
                m <= w,
                0 < unit,
                x == m * unit,
        ;
        if high < r {
            assert((full * full) * x < ((full - 1) * r) * ((full - 1) * r)) by (nonlinear_arith)
                requires
                    0 < high < r,
                    4 * x <= high * high,
                    0 < x,
                    2 < full,
            {
                assert(full * r <= (2 * (full - 1)) * r);
                assert(full * high < full * r);
                assert((full * high) * (full * high) < ((2 * (full - 1)) * r) * ((2 * (full - 1))
                    * r));
                assert((full * high) * (full * high) == (full * full) * (high * high));
                assert((full * full) * (4 * x) <= (full * full) * (high * high));
                assert(((2 * (full - 1)) * r) * ((2 * (full - 1)) * r) == 4 * (((full - 1) * r) * ((
                full - 1) * r)));
            }
        }
    }
}

/// The counting behind [`lemma_root_range`].
proof fn lemma_root_bounds(full: int, r: int, gap: int, under: int, x: int)
    requires
        2 < full,
        0 < gap,
        full * gap <= 2 * r,
        0 < r,
        0 <= under,
        r - gap <= under,
        (under + r) * (under + r) <= 4 * x,
        4 * x <= (r + (r + gap)) * (r + (r + gap)),
    ensures
        ((full - 1) * r) * ((full - 1) * r) <= (full * full) * x,
        (full * full) * x <= ((full + 1) * r) * ((full + 1) * r),
{
    let low = under + r;
    let high = r + (r + gap);
    assert(2 * ((full - 1) * r) <= full * low && full * high <= 2 * ((full + 1) * r))
        by (nonlinear_arith)
        requires
            full * gap <= 2 * r,
            r - gap <= under,
            low == under + r,
            high == r + (r + gap),
            2 < full,
    ;
    let a = (full - 1) * r;
    let b = (full + 1) * r;
    assert(a * a <= (full * full) * x) by (nonlinear_arith)
        requires
            0 <= a,
            2 * a <= full * low,
            low * low <= 4 * x,
            2 < full,
            a == (full - 1) * r,
            0 < r,
    {
        assert((2 * a) * (2 * a) <= (full * low) * (full * low));
        assert((full * low) * (full * low) == (full * full) * (low * low));
        assert((full * full) * (low * low) <= (full * full) * (4 * x));
    }
    assert((full * full) * x <= b * b) by (nonlinear_arith)
        requires
            0 < high,
            full * high <= 2 * b,
            4 * x <= high * high,
            2 < full,
    {
        assert((full * high) * (full * high) <= (2 * b) * (2 * b));
        assert((full * high) * (full * high) == (full * full) * (high * high));
        assert((full * full) * (4 * x) <= (full * full) * (high * high));
    }
}

/// What scales the column under a pivot: the inverse of the pivot's root.
pub open spec fn column_scale(p: Binary64) -> Binary64 {
    quotient(Binary64 { bits: ONE }, root(p))
}

/// The scale of a column is in the normal range, and within a rounding of the exact one.
pub proof fn lemma_column_scale(p: Binary64)
    requires
        usable(p),
    ensures
        ({
            let r = root(p).magnitude();
            let i = column_scale(p).magnitude();
            let unit = pow2(1074) as int;
            let full = SIGNIFICANDS as int;
            &&& normal(column_scale(p)) && !column_scale(p).negative()
            &&& (full - 1) * (r * i) <= full * (unit * unit)
            &&& full * (unit * unit) <= (full + 1) * (r * i)
        }),
{
    lemma_root_range(p);
    let one = Binary64 { bits: ONE };
    let r = root(p).magnitude();
    let unit = pow2(1074) as int;
    lemma_pow2_pos(1074);
    lemma2_to64();
    lemma2_to64_rest();
    lemma_magnitude_of_parts(1022, HIDDEN as int);
    lemma_pow2_adds(52, 1022);
    assert(one.magnitude() == unit);
    lemma_quotient_ordered(one, root(p), root(p));
    let x = unit * unit;
    lemma_pow2_adds(1074, 1074);
    lemma_pow2_pos(536);
    lemma_nearest_exists(x, r);
    assert(column_scale(p).pattern() == round_ratio(x, r)) by {
        reveal(quotient);
    }
    // At least the first normal number.
    let low = HIDDEN as int;
    lemma_magnitude_of_parts(0, low);
    lemma_round_grid_point(low);
    lemma_pow2_adds(52, 1588);
    lemma_pow2_strictly_increases(1640, 2148);
    let high = pow2(1588) as int;
    assert(low * r <= x * 1) by (nonlinear_arith)
        requires
            r <= high,
            low * high <= x,
            0 < low,
    ;
    lemma_round_ratio_ordered(low, 1, x, r);
    // At most a number well below the largest.
    lemma_magnitude_of_parts(2044, low);
    lemma_pow2_adds(52, 2044);
    lemma_pow2_adds(52, 2096);
    lemma_pow2_strictly_increases(52, 536);
    let cap = 2045 * HIDDEN;
    let c = magnitude(cap);
    lemma_round_grid_point(cap);
    assert(x * 1 <= c * r) by (nonlinear_arith)
        requires
            low <= r,
            x == c * low,
            0 < c,
    ;
    lemma_round_ratio_ordered(x, r, c, 1);
    lemma_ratio_within_half_a_place(x, r);
}

/// The entry of the factor on a pivot is in the normal range, and its square within a few
/// roundings of the pivot.
pub proof fn lemma_scaled_pivot(p: Binary64)
    requires
        usable(p),
    ensures
        ({
            let l = product(p, column_scale(p));
            let x = p.magnitude() * pow2(1074);
            let full = SIGNIFICANDS as int;
            let up = full + 1;
            let down = full - 1;
            &&& normal(l) && !l.negative()
            &&& (down * down * l.magnitude()) * (down * down * l.magnitude()) <= (full * up) * (full
                * up) * x
            &&& (full * down) * (full * down) * x <= (up * up * l.magnitude()) * (up * up
                * l.magnitude())
        }),
{
    lemma_root_range(p);
    lemma_column_scale(p);
    let s = column_scale(p);
    let r = root(p).magnitude();
    let m = p.magnitude();
    let i = s.magnitude();
    let unit = pow2(1074) as int;
    let x = m * unit;
    let full = SIGNIFICANDS as int;
    lemma_pow2_pos(1074);
    lemma_pow2_pos(536);
    lemma_pattern_magnitude(p, p);
    lemma_pattern_magnitude(s, s);
    lemma_product_sign(p, s);
    let l = product(p, s);
    assert(0 <= m * i) by (nonlinear_arith)
        requires
            0 <= m,
            0 <= i,
    ;
    lemma_nearest_exists(m * i, unit);
    assert(l.pattern() == round_ratio(m * i, unit)) by {
        reveal(product);
    }
    lemma_scaled_size(full, r, i, m, unit, x);
    lemma2_to64();
    lemma2_to64_rest();
    // At least the first normal number.
    let low = HIDDEN as int;
    lemma_magnitude_of_parts(0, low);
    lemma_round_grid_point(low);
    lemma_pow2_adds(3, 52);
    lemma_pow2_strictly_increases(55, 536);
    assert(low * unit <= (m * i) * 1) by (nonlinear_arith)
        requires
            r * unit <= 8 * (m * i),
            8 * low <= r,
            0 < unit,
    ;
    lemma_round_ratio_ordered(low, 1, m * i, unit);
    // At most a number well below the largest.
    lemma_magnitude_of_parts(1539, low);
    lemma_pow2_adds(52, 1539);
    lemma_pow2_adds(3, 1588);
    let cap = 1540 * HIDDEN;
    let c = magnitude(cap);
    lemma_round_grid_point(cap);
    assert((m * i) * 1 <= c * unit) by (nonlinear_arith)
        requires
            m * i <= 8 * (r * unit),
            8 * r <= c,
            0 < unit,
    ;
    lemma_round_ratio_ordered(m * i, unit, c, 1);
    lemma_ratio_within_half_a_place(m * i, unit);
    lemma_pattern_magnitude(l, l);
    lemma_scaled_bounds(full, r, i, m, unit, x, l.magnitude());
}

/// How large the product of a pivot and its scale is.
proof fn lemma_scaled_size(full: int, r: int, i: int, m: int, unit: int, x: int)
    requires
        2 < full,
        0 < r,
        0 < i,
        0 < m,
        0 < unit,
        x == m * unit,
        ((full - 1) * r) * ((full - 1) * r) <= (full * full) * x,
        (full * full) * x <= ((full + 1) * r) * ((full + 1) * r),
        (full - 1) * (r * i) <= full * (unit * unit),
        full * (unit * unit) <= (full + 1) * (r * i),
    ensures
        r * unit <= 8 * (m * i),
        m * i <= 8 * (r * unit),
{
    let t = r * i;
    let w = unit * unit;
    assert(t <= 2 * w && w <= 2 * t) by (nonlinear_arith)
        requires
            (full - 1) * t <= full * w,
            full * w <= (full + 1) * t,
            2 < full,
            0 <= t,
            0 <= w,
    ;
    assert(r * r <= 4 * x && x <= 4 * (r * r)) by (nonlinear_arith)
        requires
            ((full - 1) * r) * ((full - 1) * r) <= (full * full) * x,
            (full * full) * x <= ((full + 1) * r) * ((full + 1) * r),
            2 < full,
            0 < r,
            0 <= x,
    {
        let q = r * r;
        assert(((full - 1) * r) * ((full - 1) * r) == ((full - 1) * (full - 1)) * q);
        assert(((full + 1) * r) * ((full + 1) * r) == ((full + 1) * (full + 1)) * q);
        assert(full * full <= 4 * ((full - 1) * (full - 1)));
        assert((full + 1) * (full + 1) <= 4 * (full * full));
        assert((full * full) * q <= (4 * ((full - 1) * (full - 1))) * q);
        assert((full * full) * q <= (full * full) * (4 * x));
        assert(((full + 1) * (full + 1)) * q <= (4 * (full * full)) * q);
        assert((full * full) * x <= (full * full) * (4 * q));
    }
    let k = m * i;
    assert(r * unit <= 8 * k) by (nonlinear_arith)
        requires
            r * r <= 4 * x,
            x == m * unit,
            w <= 2 * t,
            w == unit * unit,
            t == r * i,
            k == m * i,
            0 < r,
            0 < m,
            0 < unit,
    {
        assert((r * r) * unit <= (4 * x) * unit);
        assert((4 * x) * unit == (4 * m) * w);
        assert((4 * m) * w <= (4 * m) * (2 * t));
        assert((4 * m) * (2 * t) == r * (8 * k));
        assert((r * r) * unit == r * (r * unit));
        assert(r * (r * unit) <= r * (8 * k));
    }
    assert(k <= 8 * (r * unit)) by (nonlinear_arith)
        requires
            x <= 4 * (r * r),
            x == m * unit,
            t <= 2 * w,
            w == unit * unit,
            t == r * i,
            k == m * i,
            0 < r,
            0 < i,
            0 < unit,
    {
        assert(x * i <= (4 * (r * r)) * i);
        assert(x * i == unit * k);
        assert((4 * (r * r)) * i == (4 * r) * t);
        assert((4 * r) * t <= (4 * r) * (2 * w));
        assert((4 * r) * (2 * w) == unit * (8 * (r * unit)));
        assert(unit * k <= unit * (8 * (r * unit)));
    }
}

/// The counting behind [`lemma_scaled_pivot`].
proof fn lemma_scaled_bounds(full: int, r: int, i: int, m: int, unit: int, x: int, l: int)
    requires
        2 < full,
        0 < r,
        0 < i,
        0 < m,
        0 < unit,
        0 <= l,
        x == m * unit,
        ((full - 1) * r) * ((full - 1) * r) <= (full * full) * x,
        (full * full) * x <= ((full + 1) * r) * ((full + 1) * r),
        (full - 1) * (r * i) <= full * (unit * unit),
        full * (unit * unit) <= (full + 1) * (r * i),
        (full - 1) * (unit * l) <= full * (m * i),
        full * (m * i) <= (full + 1) * (unit * l),
    ensures
        ({
            let up = full + 1;
            let down = full - 1;
            &&& (down * down * l) * (down * down * l) <= (full * up) * (full * up) * x
            &&& (full * down) * (full * down) * x <= (up * up * l) * (up * up * l)
        }),
{
    let up = full + 1;
    let down = full - 1;
    assert((down * down) * (r * l) <= (full * full) * x) by (nonlinear_arith)
        requires
            down * (unit * l) <= full * (m * i),
            down * (r * i) <= full * (unit * unit),
            x == m * unit,
            0 < r,
            0 < m,
            0 < unit,
            0 < down,
            0 < full,
    {
        assert((down * r) * (down * (unit * l)) <= (down * r) * (full * (m * i)));
        assert((down * r) * (full * (m * i)) == (full * m) * (down * (r * i)));
        assert((full * m) * (down * (r * i)) <= (full * m) * (full * (unit * unit)));
        assert((down * r) * (down * (unit * l)) == unit * ((down * down) * (r * l)));
        assert((full * m) * (full * (unit * unit)) == unit * ((full * full) * x));
        assert(unit * ((down * down) * (r * l)) <= unit * ((full * full) * x));
    }
    assert((full * full) * x <= (up * up) * (r * l)) by (nonlinear_arith)
        requires
            full * (m * i) <= up * (unit * l),
            full * (unit * unit) <= up * (r * i),
            x == m * unit,
            0 < r,
            0 < m,
            0 < unit,
            0 < up,
            0 < full,
    {
        assert((full * m) * (full * (unit * unit)) <= (full * m) * (up * (r * i)));
        assert((full * m) * (up * (r * i)) == (up * r) * (full * (m * i)));
        assert((up * r) * (full * (m * i)) <= (up * r) * (up * (unit * l)));
        assert((full * m) * (full * (unit * unit)) == unit * ((full * full) * x));
        assert((up * r) * (up * (unit * l)) == unit * ((up * up) * (r * l)));
        assert(unit * ((full * full) * x) <= unit * ((up * up) * (r * l)));
    }
    let f = full * full;
    let a = down * down * l;
    let b = up * up * l;
    assert(r * a == (down * down) * (r * l) && r * b == (up * up) * (r * l) && 0 < f && 0 <= a)
        by (nonlinear_arith)
        requires
            a == down * down * l,
            b == up * up * l,
            f == full * full,
            0 < full,
            0 <= l,
    ;
    assert(0 < x) by (nonlinear_arith)
        requires
            x == m * unit,
            0 < m,
            0 < unit,
    ;
    assert(a * a <= (full * up) * (full * up) * x) by (nonlinear_arith)
        requires
            r * a <= f * x,
            f * x <= (up * r) * (up * r),
            f == full * full,
            0 < r,
            0 < x,
            0 <= a,
            0 < f,
    {
        assert((r * a) * (r * a) <= (f * x) * (f * x));
        assert((f * x) * (f * x) <= (f * x) * ((up * r) * (up * r)));
        assert((r * a) * (r * a) == (r * r) * (a * a));
        assert((f * x) * ((up * r) * (up * r)) == (r * r) * ((full * up) * (full * up) * x));
        assert((r * r) * (a * a) <= (r * r) * ((full * up) * (full * up) * x));
        assert(0 < r * r);
    }
    assert((full * down) * (full * down) * x <= b * b) by (nonlinear_arith)
        requires
            f * x <= r * b,
            (down * r) * (down * r) <= f * x,
            f == full * full,
            0 < r,
            0 < x,
            0 < f,
    {
        let y = f * x;
        let z = down * down;
        assert(0 < y);
        assert(y * y <= (r * b) * (r * b));
        assert((r * b) * (r * b) == (r * r) * (b * b));
        assert((down * r) * (down * r) == z * (r * r));
        assert(0 <= b * b);
        assert((z * (r * r)) * (b * b) <= y * (b * b));
        assert(z * (y * y) <= z * ((r * r) * (b * b)));
        assert(z * ((r * r) * (b * b)) == (z * (r * r)) * (b * b));
        assert(y * (z * y) <= y * (b * b));
        assert(z * y <= b * b);
        assert(z * y == (full * down) * (full * down) * x);
    }
}

/// Whether the pivot `q` is larger than the pivot `p` by more than the roundings between
/// a pivot and its entry of the factor, some thirteen parts in `2^53`.
pub open spec fn clearly_larger(p: Binary64, q: Binary64) -> bool {
    let up = SIGNIFICANDS + 1;
    let down = SIGNIFICANDS - 1;
    (up * up * up) * (up * up * up) * p.magnitude() <= (down * down * down) * (down * down * down)
        * q.magnitude()
}

/// A clearly larger pivot has an entry of the factor that is no smaller.
pub proof fn law_clearly_larger_pivot_has_a_larger_entry(p: Binary64, q: Binary64)
    requires
        usable(p),
        usable(q),
        clearly_larger(p, q),
    ensures
        product(p, column_scale(p)).pattern() <= product(q, column_scale(q)).pattern(),
{
    lemma_scaled_pivot(p);
    lemma_scaled_pivot(q);
    let a = product(p, column_scale(p));
    let b = product(q, column_scale(q));
    if b.pattern() < a.pattern() {
        lemma_magnitude_grows(b.pattern(), a.pattern());
        let unit = pow2(1074) as int;
        lemma_pow2_pos(1074);
        let full = SIGNIFICANDS as int;
        let up = full + 1;
        let down = full - 1;
        let k = a.magnitude();
        let l = b.magnitude();
        let x = p.magnitude() * unit;
        let y = q.magnitude() * unit;
        let s = up * up;
        let t = down * down;
        let m = p.magnitude();
        let n = q.magnitude();
        let c = (up * up * up) * (up * up * up);
        let d = (down * down * down) * (down * down * down);
        assert(c * x <= d * y) by (nonlinear_arith)
            requires
                c * m <= d * n,
                x == m * unit,
                y == n * unit,
                0 < unit,
        {
            assert((c * m) * unit <= (d * n) * unit);
            assert((c * m) * unit == c * x);
            assert((d * n) * unit == d * y);
        }
        let low = (full * up) * (full * up) * x;
        let high = (full * down) * (full * down) * y;
        assert((s * s) * low == (full * full) * (c * x)) by (nonlinear_arith)
            requires
                low == (full * up) * (full * up) * x,
                c == (up * up * up) * (up * up * up),
                s == up * up,
        ;
        assert((t * t) * high == (full * full) * (d * y)) by (nonlinear_arith)
            requires
                high == (full * down) * (full * down) * y,
                d == (down * down * down) * (down * down * down),
                t == down * down,
        ;
        let v = t * k;
        let w = s * l;
        assert(0 <= t * w) by (nonlinear_arith)
            requires
                w == s * l,
                s == up * up,
                t == down * down,
                0 <= l,
                0 < up,
                0 < down,
        ;
        assert((s * s) * (v * v) <= (t * t) * (w * w)) by (nonlinear_arith)
            requires
                v * v <= low,
                high <= w * w,
                (s * s) * low == (full * full) * (c * x),
                (t * t) * high == (full * full) * (d * y),
                c * x <= d * y,
        {
            assert((s * s) * (v * v) <= (s * s) * low);
            assert((full * full) * (c * x) <= (full * full) * (d * y));
            assert((t * t) * high <= (t * t) * (w * w));
        }
        assert(s * v <= t * w) by (nonlinear_arith)
            requires
                (s * s) * (v * v) <= (t * t) * (w * w),
                0 <= t * w,
        {
            let a = s * v;
            let b = t * w;
            assert((s * s) * (v * v) == a * a);
            assert((t * t) * (w * w) == b * b);
            assert(a * a <= b * b);
        }
        assert(s * t * k <= s * t * l) by (nonlinear_arith)
            requires
                s * v <= t * w,
                v == t * k,
                w == s * l,
        ;
        assert(k <= l) by (nonlinear_arith)
            requires
                s * t * k <= s * t * l,
                s == up * up,
                t == down * down,
                0 < up,
                0 < down,
        {
            assert(0 < s * t);
        }
    }
}

/// Whether every entry below the diagonal is zero.
pub open spec fn diagonal(h: Seq<Seq<Binary64>>) -> bool {
    forall|i: int, j: int| 0 <= j < i < h.len() ==> (#[trigger] h[i][j]).zero()
}

/// The factor of a diagonal matrix is diagonal.
proof fn lemma_factor_diagonal(
    h: Seq<Seq<Binary64>>,
    shift: Binary64,
    i: int,
    j: nat,
    c: nat,
)
    requires
        diagonal(h),
        factors(h, shift, h.len()),
        c <= j < i < h.len(),
    ensures
        reduced(h, shift, i, j as int, c).zero(),
        c == j ==> factor(h, shift, i, j).zero(),
    decreases j, c,
{
    lemma_magnitude_zero();
    if c == 0 {
        assert(h[i][j as int].zero());
    } else {
        let b = (c - 1) as nat;
        let f = factor(h, shift, i, b);
        let e = factor(h, shift, j as int, b);
        lemma_factor_diagonal(h, shift, i, j, b);
        lemma_factor_diagonal(h, shift, i, b, b);
        lemma_factor_diagonal(h, shift, j as int, b, b);
        lemma_zero_product(f, e);
        reveal(sum);
    }
    if c == j {
        assert(usable(pivot(h, shift, j)));
        lemma_column_scale(pivot(h, shift, j));
        lemma_zero_product(
            reduced(h, shift, i, j as int, j),
            column_scale(pivot(h, shift, j)),
        );
    }
}

proof fn lemma_zero_product(z: Binary64, x: Binary64)
    requires
        z.zero(),
        x.finite(),
    ensures
        product(z, x).zero(),
        product(x, z).zero(),
{
    reveal(product);
    lemma_magnitude_zero();
    lemma_pow2_pos(1074);
    let m = x.magnitude();
    assert(0 * m == 0 && m * 0 == 0) by (nonlinear_arith);
    lemma_round_nothing(pow2(1074) as int);
}

/// Taking a zero away changes nothing but the sign of a zero.
proof fn lemma_less_zero(x: Binary64, a: Binary64, z: Binary64)
    requires
        mirrored(false, x, a),
        a.finite(),
        z.zero(),
    ensures
        mirrored(false, x, difference(a, z)),
{
    reveal(sum);
    lemma_magnitude_zero();
    lemma_pattern_magnitude(a, a);
    lemma_round_grid_point(a.pattern());
}

/// A number that is not finite stays so under a difference.
proof fn lemma_difference_finite(a: Binary64, b: Binary64)
    requires
        difference(a, b).finite(),
    ensures
        a.finite(),
        b.finite(),
{
    lemma_sum_kind(a, negated(b));
}

/// The entry of the factor on the diagonal, of a matrix that factors.
proof fn lemma_diagonal_entry(h: Seq<Seq<Binary64>>, shift: Binary64, j: nat)
    requires
        factors(h, shift, h.len()),
        j < h.len(),
    ensures
        factor(h, shift, j as int, j) == product(
            pivot(h, shift, j),
            column_scale(pivot(h, shift, j)),
        ),
        normal(factor(h, shift, j as int, j)),
        !factor(h, shift, j as int, j).negative(),
{
    assert(usable(pivot(h, shift, j)));
    lemma_scaled_pivot(pivot(h, shift, j));
}

/// Where an entry of the solution is finite, so is everything it was taken from.
proof fn lemma_solution_finite(
    h: Seq<Seq<Binary64>>,
    shift: Binary64,
    g: Seq<Binary64>,
    j: nat,
    c: nat,
)
    requires
        j < c <= g.len(),
        backward_rest(h, shift, g, g.len(), j, c).finite(),
    ensures
        forward(h, shift, g, j).finite(),
    decreases c,
{
    if j + 1 < c {
        let b = (c - 1) as nat;
        lemma_difference_finite(
            backward_rest(h, shift, g, g.len(), j, b),
            product(factor(h, shift, b as int, j), backward(h, shift, g, g.len(), b)),
        );
        lemma_solution_finite(h, shift, g, j, b);
    }
}

proof fn lemma_quotient_finite(a: Binary64, l: Binary64)
    requires
        quotient(a, l).finite(),
        l.finite(),
    ensures
        a.finite(),
{
    reveal(quotient);
}

/// Over a diagonal factor each entry is solved for alone.
proof fn lemma_diagonal_forward(
    h: Seq<Seq<Binary64>>,
    shift: Binary64,
    g: Seq<Binary64>,
    j: nat,
    c: nat,
)
    requires
        diagonal(h),
        factors(h, shift, h.len()),
        g.len() == h.len(),
        c <= j < g.len(),
        forall|i: int| 0 <= i < g.len() ==> (#[trigger] g[i]).finite(),
        forall|i: nat| i < g.len() ==> (#[trigger] forward(h, shift, g, i)).finite(),
    ensures
        mirrored(false, g[j as int], forward_rest(h, shift, g, j as int, c)),
        forward_rest(h, shift, g, j as int, c).finite(),
        c == j ==> mirrored(
            false,
            quotient(g[j as int], factor(h, shift, j as int, j)),
            forward(h, shift, g, j),
        ),
    decreases c,
{
    assert(g[j as int].finite());
    if 0 < c {
        let b = (c - 1) as nat;
        let f = factor(h, shift, j as int, b);
        lemma_diagonal_forward(h, shift, g, j, b);
        lemma_factor_diagonal(h, shift, j as int, b, b);
        assert(forward(h, shift, g, b).finite());
        lemma_zero_product(f, forward(h, shift, g, b));
        lemma_less_zero(
            g[j as int],
            forward_rest(h, shift, g, j as int, b),
            product(f, forward(h, shift, g, b)),
        );
    }
    lemma_mirrored_quotient(
        false,
        g[j as int],
        forward_rest(h, shift, g, j as int, c),
        factor(h, shift, j as int, j),
    );
}

proof fn lemma_diagonal_backward(
    h: Seq<Seq<Binary64>>,
    shift: Binary64,
    g: Seq<Binary64>,
    j: nat,
    c: nat,
)
    requires
        diagonal(h),
        factors(h, shift, h.len()),
        g.len() == h.len(),
        j < g.len(),
        c <= g.len(),
        forward(h, shift, g, j).finite(),
        forall|i: nat| i < g.len() ==> (#[trigger] backward(h, shift, g, g.len(), i)).finite(),
    ensures
        mirrored(
            false,
            forward(h, shift, g, j),
            backward_rest(h, shift, g, g.len(), j, c),
        ),
        backward_rest(h, shift, g, g.len(), j, c).finite(),
        c == g.len() ==> mirrored(
            false,
            quotient(forward(h, shift, g, j), factor(h, shift, j as int, j)),
            backward(h, shift, g, g.len(), j),
        ),
    decreases c,
{
    let n = g.len();
    if j + 1 < c {
        let b = (c - 1) as nat;
        let f = factor(h, shift, b as int, j);
        lemma_diagonal_backward(h, shift, g, j, b);
        lemma_factor_diagonal(h, shift, b as int, j, j);
        assert(backward(h, shift, g, n, b).finite());
        lemma_zero_product(f, backward(h, shift, g, n, b));
        lemma_less_zero(
            forward(h, shift, g, j),
            backward_rest(h, shift, g, n, j, b),
            product(f, backward(h, shift, g, n, b)),
        );
    }
    lemma_mirrored_quotient(
        false,
        forward(h, shift, g, j),
        backward_rest(h, shift, g, n, j, c),
        factor(h, shift, j as int, j),
    );
}

/// Each product of a finite sum of products is finite.
proof fn lemma_lane_finite(x: Seq<Binary64>, y: Seq<Binary64>, p: int, blocks: nat, b: nat)
    requires
        lane(x, y, p, blocks).finite(),
        b < blocks,
    ensures
        product(x[8 * b + p], y[8 * b + p]).finite(),
    decreases blocks,
{
    let c = (blocks - 1) as nat;
    lemma_sum_kind(lane(x, y, p, c), product(x[8 * c + p], y[8 * c + p]));
    if b < c {
        lemma_lane_finite(x, y, p, c, b);
    }
}

proof fn lemma_tail_finite(
    x: Seq<Binary64>,
    y: Seq<Binary64>,
    start: Binary64,
    from: int,
    upto: int,
    i: int,
)
    requires
        tail(x, y, start, from, upto).finite(),
    ensures
        start.finite(),
        from <= i < upto ==> product(x[i], y[i]).finite(),
    decreases upto - from,
{
    if from < upto {
        lemma_sum_kind(
            tail(x, y, start, from, upto - 1),
            product(x[upto - 1], y[upto - 1]),
        );
        lemma_tail_finite(x, y, start, from, upto - 1, i);
    }
}

proof fn lemma_dot_finite(x: Seq<Binary64>, y: Seq<Binary64>, i: int)
    requires
        dot_product(x, y).finite(),
        0 <= i < x.len(),
    ensures
        product(x[i], y[i]).finite(),
{
    let blocks = (x.len() / 8) as nat;
    let zero = Binary64 { bits: 0 };
    let pair = |p: int| sum(lane(x, y, p, blocks), lane(x, y, p + 4, blocks));
    lemma_tail_finite(x, y, lanes(x, y, blocks), (8 * blocks) as int, x.len() as int, i);
    if i < 8 * blocks {
        let a0 = sum(zero, pair(0));
        let a1 = sum(a0, pair(1));
        let a2 = sum(a1, pair(2));
        lemma_sum_kind(a2, pair(3));
        lemma_sum_kind(a1, pair(2));
        lemma_sum_kind(a0, pair(1));
        lemma_sum_kind(zero, pair(0));
        let p = i % 8;
        let b = (i / 8) as nat;
        let q = if p < 4 {
            p
        } else {
            p - 4
        };
        assert(pair(q).finite());
        lemma_sum_kind(lane(x, y, q, blocks), lane(x, y, q + 4, blocks));
        lemma_lane_finite(x, y, p, blocks, b);
        assert(8 * b + p == i);
    }
}

/// Whether a number is no NaN and not below zero.
spec fn nonnegative(x: Binary64) -> bool {
    !x.nan() && (x.zero() || !x.negative())
}

proof fn lemma_nonnegative_sum(a: Binary64, b: Binary64)
    requires
        nonnegative(a),
        nonnegative(b),
    ensures
        nonnegative(sum(a, b)),
{
    reveal(sum);
    lemma_magnitude_zero();
    if a.finite() && b.finite() {
        lemma_pattern_magnitude(a, a);
        lemma_pattern_magnitude(b, b);
        lemma_nearest_exists(a.value() + b.value(), 1);
    }
}

/// Sums of nonnegative numbers are ordered as their terms.
proof fn lemma_sums_ordered(a: Binary64, b: Binary64, c: Binary64, d: Binary64)
    requires
        nonnegative(a),
        nonnegative(b),
        nonnegative(c),
        nonnegative(d),
        at_most(a, b),
        at_most(c, d),
    ensures
        nonnegative(sum(a, c)),
        nonnegative(sum(b, d)),
        at_most(sum(a, c), sum(b, d)),
{
    lemma_nonnegative_sum(a, c);
    lemma_nonnegative_sum(b, c);
    lemma_nonnegative_sum(b, d);
    lemma_sum_ordered(a, b, c);
    lemma_sum_commutes(b, c);
    lemma_sum_commutes(b, d);
    lemma_nonnegative_sum(c, b);
    lemma_nonnegative_sum(d, b);
    lemma_sum_ordered(c, d, b);
}

/// Whether the products of one pair of vectors are nonnegative and at most those of
/// another.
spec fn terms_ordered(
    x: Seq<Binary64>,
    y: Seq<Binary64>,
    v: Seq<Binary64>,
    w: Seq<Binary64>,
) -> bool {
    forall|i: int|
        0 <= i < x.len() ==> {
            &&& nonnegative(#[trigger] product(x[i], y[i]))
            &&& nonnegative(product(v[i], w[i]))
            &&& at_most(product(x[i], y[i]), product(v[i], w[i]))
        }
}

proof fn lemma_lane_ordered(
    x: Seq<Binary64>,
    y: Seq<Binary64>,
    v: Seq<Binary64>,
    w: Seq<Binary64>,
    p: int,
    blocks: nat,
)
    requires
        terms_ordered(x, y, v, w),
        0 <= p < 8,
        8 * blocks <= x.len(),
    ensures
        nonnegative(lane(x, y, p, blocks)),
        nonnegative(lane(v, w, p, blocks)),
        at_most(lane(x, y, p, blocks), lane(v, w, p, blocks)),
    decreases blocks,
{
    if 0 < blocks {
        let b = (blocks - 1) as nat;
        let i = 8 * b + p;
        lemma_lane_ordered(x, y, v, w, p, b);
        assert(nonnegative(product(x[i], y[i])));
        lemma_sums_ordered(
            lane(x, y, p, b),
            lane(v, w, p, b),
            product(x[i], y[i]),
            product(v[i], w[i]),
        );
    }
}

proof fn lemma_tail_ordered(
    x: Seq<Binary64>,
    y: Seq<Binary64>,
    v: Seq<Binary64>,
    w: Seq<Binary64>,
    start: Binary64,
    other: Binary64,
    from: int,
    upto: int,
)
    requires
        terms_ordered(x, y, v, w),
        nonnegative(start),
        nonnegative(other),
        at_most(start, other),
        0 <= from,
        upto <= x.len(),
    ensures
        nonnegative(tail(x, y, start, from, upto)),
        nonnegative(tail(v, w, other, from, upto)),
        at_most(tail(x, y, start, from, upto), tail(v, w, other, from, upto)),
    decreases upto - from,
{
    if from < upto {
        let i = upto - 1;
        lemma_tail_ordered(x, y, v, w, start, other, from, i);
        assert(nonnegative(product(x[i], y[i])));
        lemma_sums_ordered(
            tail(x, y, start, from, i),
            tail(v, w, other, from, i),
            product(x[i], y[i]),
            product(v[i], w[i]),
        );
    }
}

proof fn lemma_dot_ordered(
    x: Seq<Binary64>,
    y: Seq<Binary64>,
    v: Seq<Binary64>,
    w: Seq<Binary64>,
)
    requires
        terms_ordered(x, y, v, w),
        v.len() == x.len(),
    ensures
        nonnegative(dot_product(x, y)),
        nonnegative(dot_product(v, w)),
        at_most(dot_product(x, y), dot_product(v, w)),
{
    let blocks = (x.len() / 8) as nat;
    let zero = Binary64 { bits: 0 };
    let pair = |p: int| sum(lane(x, y, p, blocks), lane(x, y, p + 4, blocks));
    let other = |p: int| sum(lane(v, w, p, blocks), lane(v, w, p + 4, blocks));
    assert forall|p: int| 0 <= p < 4 implies nonnegative(#[trigger] pair(p)) && nonnegative(
        other(p),
    ) && at_most(pair(p), other(p)) by {
        lemma_lane_ordered(x, y, v, w, p, blocks);
        lemma_lane_ordered(x, y, v, w, p + 4, blocks);
        lemma_sums_ordered(
            lane(x, y, p, blocks),
            lane(v, w, p, blocks),
            lane(x, y, p + 4, blocks),
            lane(v, w, p + 4, blocks),
        );
    }
    let (a0, b0) = (sum(zero, pair(0)), sum(zero, other(0)));
    lemma_sums_ordered(zero, zero, pair(0), other(0));
    let (a1, b1) = (sum(a0, pair(1)), sum(b0, other(1)));
    lemma_sums_ordered(a0, b0, pair(1), other(1));
    let (a2, b2) = (sum(a1, pair(2)), sum(b1, other(2)));
    lemma_sums_ordered(a1, b1, pair(2), other(2));
    lemma_sums_ordered(a2, b2, pair(3), other(3));
    lemma_tail_ordered(
        x,
        y,
        v,
        w,
        lanes(x, y, blocks),
        lanes(v, w, blocks),
        (8 * blocks) as int,
        x.len() as int,
    );
}

/// A number divided twice by a positive one, and by a larger one.
proof fn lemma_divided_twice(g: Binary64, k: Binary64, l: Binary64)
    requires
        g.finite(),
        normal(k),
        normal(l),
        !k.negative(),
        !l.negative(),
        k.pattern() <= l.pattern(),
        quotient(g, k).finite(),
        quotient(quotient(g, k), k).finite(),
    ensures
        ({
            let a = quotient(quotient(g, k), k);
            let b = quotient(quotient(g, l), l);
            &&& b.pattern() <= a.pattern()
            &&& a.negative() == g.negative()
            &&& b.negative() == g.negative()
        }),
{
    let y = quotient(g, k);
    let z = quotient(g, l);
    lemma_quotient_ordered(g, k, l);
    lemma_quotient_sign(g, k);
    lemma_quotient_sign(g, l);
    lemma_quotient_sign(y, k);
    lemma_quotient_sign(z, l);
    lemma_quotient_ordered(z, k, l);
    // A smaller number over the same divisor.
    lemma_pattern_magnitude(z, y);
    lemma_pattern_magnitude(y, y);
    lemma_pattern_magnitude(k, k);
    lemma_pow2_pos(1074);
    let unit = pow2(1074) as int;
    let a = z.magnitude();
    let b = y.magnitude();
    let c = k.magnitude();
    assert(0 <= a * unit && 0 <= b * unit && (a * unit) * c <= (b * unit) * c)
        by (nonlinear_arith)
        requires
            0 <= a <= b,
            0 < unit,
            0 < c,
    ;
    lemma_round_ratio_ordered(a * unit, c, b * unit, c);
    lemma_nearest_exists(a * unit, c);
    lemma_nearest_exists(b * unit, c);
    assert(quotient(z, k).pattern() == round_ratio(a * unit, c) && quotient(y, k).pattern()
        == round_ratio(b * unit, c)) by {
        reveal(quotient);
    }
}

/// What an entry of the solution is over a diagonal matrix, where the form is finite.
proof fn lemma_diagonal_solution(
    h: Seq<Seq<Binary64>>,
    shift: Binary64,
    g: Seq<Binary64>,
    j: nat,
)
    requires
        diagonal(h),
        factors(h, shift, h.len()),
        g.len() == h.len(),
        forall|i: int| 0 <= i < g.len() ==> (#[trigger] g[i]).finite(),
        dot_product(g, solution(h, shift, g)).finite(),
        j < g.len(),
    ensures
        ({
            let l = factor(h, shift, j as int, j);
            let y = quotient(g[j as int], l);
            &&& normal(l) && !l.negative()
            &&& y.finite()
            &&& quotient(y, l).finite()
            &&& mirrored(false, quotient(y, l), solution(h, shift, g)[j as int])
        }),
{
    let d = solution(h, shift, g);
    let n = g.len();
    assert forall|i: nat| i < n implies (#[trigger] backward(h, shift, g, n, i)).finite()
        && forward(h, shift, g, i).finite() by {
        lemma_dot_finite(g, d, i as int);
        lemma_product_sign(g[i as int], d[i as int]);
        assert(d[i as int] == backward(h, shift, g, n, i));
        lemma_diagonal_entry(h, shift, i);
        lemma_quotient_finite(
            backward_rest(h, shift, g, n, i, n),
            factor(h, shift, i as int, i),
        );
        lemma_solution_finite(h, shift, g, i, n);
    }
    assert forall|i: nat| i < n implies (#[trigger] forward(h, shift, g, i)).finite() by {
        assert(backward(h, shift, g, n, i).finite());
    }
    lemma_diagonal_entry(h, shift, j);
    lemma_diagonal_forward(h, shift, g, j, j);
    lemma_diagonal_backward(h, shift, g, j, n);
    let l = factor(h, shift, j as int, j);
    let y = quotient(g[j as int], l);
    assert(backward(h, shift, g, n, j).finite());
    lemma_mirrored_quotient(false, y, forward(h, shift, g, j), l);
}

/// Whether no entry of the factor's diagonal is smaller at the shift `wide` than at the
/// shift `narrow`, or its pivot is clearly larger.
pub open spec fn diagonal_entries_grow(
    h: Seq<Seq<Binary64>>,
    narrow: Binary64,
    wide: Binary64,
) -> bool {
    forall|j: nat|
        j < h.len() ==> {
            ||| (#[trigger] factor(h, narrow, j as int, j)).pattern() <= factor(
                h,
                wide,
                j as int,
                j,
            ).pattern()
            ||| clearly_larger(pivot(h, narrow, j), pivot(h, wide, j))
        }
}

/// A larger shift gives a diagonal matrix, one of a single row among them, no larger
/// decrement, as long as no entry of the factor's diagonal shrinks by rounding: none does
/// where the pivots grow by more than a few roundings.
pub proof fn law_larger_shift_gives_no_larger_decrement(
    h: Seq<Seq<Binary64>>,
    g: Seq<Binary64>,
    narrow: Binary64,
    wide: Binary64,
)
    requires
        diagonal(h),
        g.len() == h.len(),
        forall|i: int| 0 <= i < g.len() ==> (#[trigger] g[i]).finite(),
        shifted_decrease(h, g, narrow) is Some,
        shifted_decrease(h, g, wide) is Some,
        diagonal_entries_grow(h, narrow, wide),
    ensures
        at_most(shifted_decrease(h, g, wide)->0, shifted_decrease(h, g, narrow)->0),
{
    let d = solution(h, narrow, g);
    let e = solution(h, wide, g);
    assert forall|i: int| 0 <= i < g.len() implies {
        &&& nonnegative(#[trigger] product(g[i], e[i]))
        &&& nonnegative(product(g[i], d[i]))
        &&& at_most(product(g[i], e[i]), product(g[i], d[i]))
    } by {
        let j = i as nat;
        let x = g[i];
        let k = factor(h, narrow, j as int, j);
        let l = factor(h, wide, j as int, j);
        lemma_diagonal_solution(h, narrow, g, j);
        lemma_diagonal_solution(h, wide, g, j);
        lemma_diagonal_entry(h, narrow, j);
        lemma_diagonal_entry(h, wide, j);
        if clearly_larger(pivot(h, narrow, j), pivot(h, wide, j)) {
            assert(usable(pivot(h, narrow, j)) && usable(pivot(h, wide, j)));
            law_clearly_larger_pivot_has_a_larger_entry(pivot(h, narrow, j), pivot(h, wide, j));
        }
        let s = quotient(quotient(x, k), k);
        let t = quotient(quotient(x, l), l);
        lemma_divided_twice(x, k, l);
        lemma_product_sign(s, x);
        lemma_product_sign(t, x);
        lemma_product_sign(x, s);
        lemma_product_sign(x, t);
        lemma_product_ordered(t, s, x);
        lemma_product_ordered(s, s, x);
        lemma_mirrored_product(false, false, x, x, s, d[i]);
        lemma_mirrored_product(false, false, x, x, t, e[i]);
    }
    lemma_dot_ordered(g, e, g, d);
    let half = Binary64 { bits: HALF };
    let a = dot_product(g, e);
    let b = dot_product(g, d);
    lemma_product_sign(half, a);
    lemma_product_sign(half, b);
    lemma_product_sign(a, half);
    lemma_product_sign(b, half);
    lemma_product_ordered(a, b, half);
    lemma_product_ordered(b, b, half);
    if a.zero() {
        lemma_zero_product(a, half);
    }
    if b.zero() {
        lemma_zero_product(b, half);
    }
}

} // verus!
