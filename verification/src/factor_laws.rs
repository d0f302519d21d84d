//! How close the rounded Cholesky factor stays to the matrix it factors, in real numbers.

use crate::binary64::{
    difference, less, lemma_order_of_values, lemma_product_sign, normal, product, root, signed,
    Binary64,
};
use crate::cholesky::{factor, factors, pivot, reduced, shifted, usable};
use crate::exact::{exact_entry, total};
use crate::nearness::{
    lemma_constants, lemma_difference_near, lemma_number_size, lemma_product_near,
    lemma_size_product, lemma_sum_near, number, roundoff, size, underflow, unit,
};
use crate::order::{lemma_difference_beside, lemma_pattern_magnitude};
use crate::rounding::{lemma_magnitude_of_parts, HIDDEN, SIGNIFICANDS};
use crate::shift_laws::{column_scale, lemma_column_scale, lemma_root_range, lemma_scaled_pivot};
use vstd::arithmetic::power2::{lemma2_to64, lemma_pow2_strictly_increases, pow2};
use vstd::prelude::*;

verus! {

/// The real number at row `i` and column `j` of `h + shift * I`, whose lower triangle is
/// mirrored above the diagonal.
pub open spec fn entry(h: Seq<Seq<Binary64>>, shift: Binary64, i: int, j: int) -> real {
    exact_entry(h, shift, i, j) * unit()
}

/// The real number at row `i` and column `c` of the rounded factor, whose upper triangle
/// is empty.
pub open spec fn side(h: Seq<Seq<Binary64>>, shift: Binary64, i: int, c: int) -> real {
    if 0 <= c <= i {
        number(factor(h, shift, i, c as nat))
    } else {
        0 as real
    }
}

/// The real number that is left of an entry after `k` columns.
pub open spec fn rest(h: Seq<Seq<Binary64>>, shift: Binary64, i: int, j: int, k: int) -> real {
    number(reduced(h, shift, i, j, k as nat))
}

/// What column `c` takes from the entry at row `i` and column `j`, rounded.
pub open spec fn taken(
    h: Seq<Seq<Binary64>>,
    shift: Binary64,
    i: int,
    j: int,
    c: int,
) -> Binary64 {
    product(factor(h, shift, i, c as nat), factor(h, shift, j, c as nat))
}

/// What the two roundings of one step can amount to.
pub open spec fn stray(h: Seq<Seq<Binary64>>, shift: Binary64, i: int, j: int, c: int) -> real {
    roundoff() * (size(rest(h, shift, i, j, c + 1)) + size(number(taken(h, shift, i, j, c))))
        + underflow()
}

/// One step of the reduction takes one product.
proof fn lemma_unrolled(h: Seq<Seq<Binary64>>, shift: Binary64, i: int, j: int, k: nat)
    ensures
        reduced(h, shift, i, j, k + 1) == difference(
            reduced(h, shift, i, j, k),
            taken(h, shift, i, j, k as int),
        ),
{
}

/// One step of the reduction: the parts are finite, and what is left is what was left
/// less the product of the factor's entries, to within the two roundings.
pub proof fn lemma_step(h: Seq<Seq<Binary64>>, shift: Binary64, i: int, j: int, k: nat)
    requires
        reduced(h, shift, i, j, k + 1).finite(),
        k < j <= i,
    ensures
        reduced(h, shift, i, j, k).finite(),
        taken(h, shift, i, j, k as int).finite(),
        factor(h, shift, i, k).finite(),
        factor(h, shift, j, k).finite(),
        size(
            rest(h, shift, i, j, k as int) - side(h, shift, i, k as int) * side(
                h,
                shift,
                j,
                k as int,
            ) - rest(h, shift, i, j, (k + 1) as int),
        ) <= stray(h, shift, i, j, k as int),
        size(
            rest(h, shift, i, j, k as int) - number(taken(h, shift, i, j, k as int)) - rest(
                h,
                shift,
                i,
                j,
                (k + 1) as int,
            ),
        ) <= roundoff() * size(rest(h, shift, i, j, (k + 1) as int)),
{
    let left = reduced(h, shift, i, j, k);
    let across = taken(h, shift, i, j, k as int);
    lemma_unrolled(h, shift, i, j, k);
    lemma_difference_near(left, across);
    lemma_product_near(factor(h, shift, i, k), factor(h, shift, j, k));
    let u = roundoff();
    let a = size(rest(h, shift, i, j, (k + 1) as int));
    let b = size(number(across));
    assert(u * (a + b) == u * a + u * b) by (nonlinear_arith);
}

/// The entry that the reduction starts from is the shifted one, to within the rounding of
/// the shift.
pub proof fn lemma_start(h: Seq<Seq<Binary64>>, shift: Binary64, i: int, j: int)
    requires
        reduced(h, shift, i, j, 0).finite(),
        j <= i,
    ensures
        i == j ==> size(entry(h, shift, i, j) - rest(h, shift, i, j, 0)) <= roundoff() * size(
            rest(h, shift, i, j, 0),
        ),
        i != j ==> entry(h, shift, i, j) == rest(h, shift, i, j, 0),
{
    if i == j {
        lemma_sum_near(h[i][j], shift);
        let x = h[i][j].value() as real;
        let y = shift.value() as real;
        let u = unit();
        assert((x + y) * u == x * u + y * u) by (nonlinear_arith);
    }
}

/// Whatever is finite of an entry of the shifted matrix after `k` columns of the rounded
/// factor is the entry less the products of those columns, over real numbers and up to
/// the roundings: one of the shift, and two in each column.
pub proof fn law_reduction_follows_the_products(
    h: Seq<Seq<Binary64>>,
    shift: Binary64,
    i: int,
    j: int,
    k: nat,
)
    requires
        k <= j <= i,
        reduced(h, shift, i, j, k).finite(),
    ensures
        ({
            let products = total(|c: int| side(h, shift, i, c) * side(h, shift, j, c), k);
            let strays = total(|c: int| stray(h, shift, i, j, c), k);
            let start = if i == j {
                roundoff() * size(rest(h, shift, i, j, 0))
            } else {
                0 as real
            };
            size(entry(h, shift, i, j) - products - rest(h, shift, i, j, k as int)) <= start
                + strays
        }),
        forall|c: nat|
            c <= k ==> (#[trigger] reduced(h, shift, i, j, c)).finite(),
        forall|c: nat|
            c < k ==> (#[trigger] factor(h, shift, i, c)).finite() && factor(
                h,
                shift,
                j,
                c,
            ).finite() && taken(h, shift, i, j, c as int).finite(),
    decreases k,
{
    let products = |c: int| side(h, shift, i, c) * side(h, shift, j, c);
    let strays = |c: int| stray(h, shift, i, j, c);
    if k == 0 {
        lemma_start(h, shift, i, j);
    } else {
        let b = (k - 1) as nat;
        assert(b + 1 == k);
        lemma_step(h, shift, i, j, b);
        law_reduction_follows_the_products(h, shift, i, j, b);
        assert(products(b as int) == side(h, shift, i, b as int) * side(h, shift, j, b as int));
        assert(strays(b as int) == stray(h, shift, i, j, b as int));
        assert(total(products, k) == total(products, b) + products(b as int));
        assert(total(strays, k) == total(strays, b) + strays(b as int));
    }
}

/// What scales a column undoes the pivot twice over: in real numbers, `p * s * s` is one to
/// within a few roundings, and the entry on the pivot is `p * s` to within one.
proof fn lemma_scale(p: Binary64)
    requires
        usable(p),
    ensures
        ({
            let s = number(column_scale(p));
            let q = number(p) * s * s;
            let u = roundoff();
            &&& (1 as real) - (5 as real) * u <= q <= (1 as real) + (5 as real) * u
            &&& s > 0 as real
            &&& number(p) > 0 as real
        }),
{
    lemma_constants();
    lemma_root_range(p);
    lemma_column_scale(p);
    let f = column_scale(p);
    let g = root(p);
    lemma_number_size(p);
    lemma_number_size(f);
    lemma_number_size(g);
    let u = roundoff();
    let full = SIGNIFICANDS as real;
    let w = unit();
    let q = pow2(1074) as real;
    let m = p.magnitude() as real;
    let r = g.magnitude() as real;
    let i = f.magnitude() as real;
    let x = m * w;
    let y = r * w;
    let s = i * w;
    // In real numbers: the root's square is near the pivot, and its inverse near the scale.
    assert((1 as real - u) * y * ((1 as real - u) * y) <= x <= (1 as real + u) * y * ((1 as real
        + u) * y)) by {
        lemma_root_in_reals(p);
    }
    assert((1 as real - u) * (y * s) <= 1 as real <= (1 as real + u) * (y * s)) by {
        lemma_scale_in_reals(p);
    }
    assert(x > 0 as real && y > 0 as real && s > 0 as real) by {
        lemma_pattern_magnitude(p, p);
        lemma_pattern_magnitude(f, f);
        lemma_pattern_magnitude(g, g);
        assert(m * w > 0 as real && r * w > 0 as real && i * w > 0 as real) by (nonlinear_arith)
            requires
                m > 0 as real,
                r > 0 as real,
                i > 0 as real,
                w > 0 as real,
        ;
    }
    lemma_unit_product(x, y, s, u);
}

proof fn lemma_unit_product(x: real, y: real, s: real, u: real)
    requires
        (0 as real) <= u <= (1 as real) / (1024 as real),
        x > 0 as real,
        y > 0 as real,
        s > 0 as real,
        (1 as real - u) * y * ((1 as real - u) * y) <= x <= (1 as real + u) * y * ((1 as real + u)
            * y),
        (1 as real - u) * (y * s) <= 1 as real <= (1 as real + u) * (y * s),
    ensures
        (1 as real) - (5 as real) * u <= x * s * s <= (1 as real) + (5 as real) * u,
{
    let t = y * s;
    let q = x * s * s;
    let d = 1 as real - u;
    let e = 1 as real + u;
    assert(t > 0 as real) by (nonlinear_arith)
        requires
            y > 0 as real,
            s > 0 as real,
            t == y * s,
    ;
    assert(d * t * (d * t) <= q <= e * t * (e * t)) by (nonlinear_arith)
        requires
            d * y * (d * y) <= x <= e * y * (e * y),
            s > 0 as real,
            t == y * s,
            q == x * s * s,
    {
        let ss = s * s;
        assert(ss >= 0 as real);
        assert((d * y * (d * y)) * ss <= x * ss);
        assert(x * ss <= (e * y * (e * y)) * ss);
        assert((d * y * (d * y)) * ss == d * t * (d * t));
        assert((e * y * (e * y)) * ss == e * t * (e * t));
        assert(x * ss == q);
    }
    // Upwards: `d t <= 1`, and `e <= (1 + 17 u / 8) d`.
    let up = (1 as real) + (17 as real) * u / (8 as real);
    assert(e <= up * d) by (nonlinear_arith)
        requires
            (0 as real) <= u <= (1 as real) / (1024 as real),
            e == 1 as real + u,
            d == 1 as real - u,
            up == (1 as real) + (17 as real) * u / (8 as real),
    ;
    assert(e * t <= up) by (nonlinear_arith)
        requires
            e <= up * d,
            d * t <= 1 as real,
            t > 0 as real,
            up >= 1 as real,
    {
        assert(e * t <= (up * d) * t);
        assert((up * d) * t == up * (d * t));
        assert(up * (d * t) <= up * (1 as real));
    }
    assert(e * t * (e * t) <= up * up) by (nonlinear_arith)
        requires
            e * t <= up,
            e * t >= 1 as real,
    ;
    assert(up * up <= (1 as real) + (5 as real) * u) by (nonlinear_arith)
        requires
            (0 as real) <= u <= (1 as real) / (1024 as real),
            up == (1 as real) + (17 as real) * u / (8 as real),
    ;
    // Downwards: `1 <= e t`, and `(1 - 2 u) e <= d`.
    let down = (1 as real) - (2 as real) * u;
    assert(down * e <= d && down >= 0 as real) by (nonlinear_arith)
        requires
            (0 as real) <= u <= (1 as real) / (1024 as real),
            e == 1 as real + u,
            d == 1 as real - u,
            down == (1 as real) - (2 as real) * u,
    ;
    assert(down <= d * t) by (nonlinear_arith)
        requires
            down * e <= d,
            1 as real <= e * t,
            t > 0 as real,
            down >= 0 as real,
    {
        assert((down * e) * t <= d * t);
        assert((down * e) * t == down * (e * t));
        assert(down * (1 as real) <= down * (e * t));
    }
    assert(down * down <= d * t * (d * t)) by (nonlinear_arith)
        requires
            (0 as real) <= down <= d * t,
    ;
    assert((1 as real) - (5 as real) * u <= down * down) by (nonlinear_arith)
        requires
            (0 as real) <= u <= (1 as real) / (1024 as real),
            down == (1 as real) - (2 as real) * u,
    ;
}

/// The root's square is near the pivot, in real numbers.
pub proof fn lemma_root_in_reals(p: Binary64)
    requires
        usable(p),
    ensures
        ({
            let u = roundoff();
            let y = (root(p).magnitude() as real) * unit();
            let x = (p.magnitude() as real) * unit();
            (1 as real - u) * y * ((1 as real - u) * y) <= x <= (1 as real + u) * y * ((1 as real
                + u) * y)
        }),
{
    lemma_constants();
    lemma_root_range(p);
    let u = roundoff();
    let full = SIGNIFICANDS as real;
    let w = unit();
    let q = pow2(1074) as real;
    let m = p.magnitude() as real;
    let r = root(p).magnitude() as real;
    let low = SIGNIFICANDS - 1;
    let high = SIGNIFICANDS + 1;
    let ri = root(p).magnitude();
    let mi = p.magnitude();
    let qi = pow2(1074) as int;
    let a = (low * ri) * (low * ri);
    let b = (SIGNIFICANDS * SIGNIFICANDS) * (mi * qi);
    let c = (high * ri) * (high * ri);
    assert(a <= b <= c);
    assert(a as real == ((full - 1 as real) * r) * ((full - 1 as real) * r)) by (nonlinear_arith)
        requires
            a == (low * ri) * (low * ri),
            r == ri as real,
            low as real == full - 1 as real,
    {
        assert((low * ri) as real == (low as real) * (ri as real));
        assert(a as real == ((low * ri) as real) * ((low * ri) as real));
    }
    assert(c as real == ((full + 1 as real) * r) * ((full + 1 as real) * r)) by (nonlinear_arith)
        requires
            c == (high * ri) * (high * ri),
            r == ri as real,
            high as real == full + 1 as real,
    {
        assert((high * ri) as real == (high as real) * (ri as real));
        assert(c as real == ((high * ri) as real) * ((high * ri) as real));
    }
    assert(b as real == (full * full) * (m * q)) by (nonlinear_arith)
        requires
            b == (SIGNIFICANDS * SIGNIFICANDS) * (mi * qi),
            m == mi as real,
            q == qi as real,
            full == SIGNIFICANDS as real,
    {
        assert((mi * qi) as real == m * q);
        assert((SIGNIFICANDS * SIGNIFICANDS) as real == full * full);
    }
    // Divide by the square of the unit and of the number of significands.
    let k = (u * w) * (u * w);
    assert(k >= 0 as real) by (nonlinear_arith)
        requires
            k == (u * w) * (u * w),
    ;
    assert((b as real) * k == m * w) by (nonlinear_arith)
        requires
            b as real == (full * full) * (m * q),
            k == (u * w) * (u * w),
            u * full == 1 as real,
            w * q == 1 as real,
    {
        assert(((full * full) * (m * q)) * ((u * w) * (u * w)) == ((u * full) * (u * full)) * ((w
            * q) * (m * w)));
    }
    let y = r * w;
    assert((a as real) * k == (1 as real - u) * y * ((1 as real - u) * y)) by (nonlinear_arith)
        requires
            a as real == ((full - 1 as real) * r) * ((full - 1 as real) * r),
            k == (u * w) * (u * w),
            u * full == 1 as real,
            y == r * w,
    {
        let t = (full - 1 as real) * r;
        assert((t * t) * ((u * w) * (u * w)) == (t * (u * w)) * (t * (u * w)));
        assert(t * (u * w) == (u * full - u) * (r * w));
    }
    assert((c as real) * k == (1 as real + u) * y * ((1 as real + u) * y)) by (nonlinear_arith)
        requires
            c as real == ((full + 1 as real) * r) * ((full + 1 as real) * r),
            k == (u * w) * (u * w),
            u * full == 1 as real,
            y == r * w,
    {
        let t = (full + 1 as real) * r;
        assert((t * t) * ((u * w) * (u * w)) == (t * (u * w)) * (t * (u * w)));
        assert(t * (u * w) == (u * full + u) * (r * w));
    }
    let aa = a as real;
    let bb = b as real;
    let cc = c as real;
    assert(aa * k <= bb * k && bb * k <= cc * k) by (nonlinear_arith)
        requires
            aa <= bb <= cc,
            k >= 0 as real,
    ;
}

/// The scale is near the inverse of the root, in real numbers.
proof fn lemma_scale_in_reals(p: Binary64)
    requires
        usable(p),
    ensures
        ({
            let u = roundoff();
            let y = (root(p).magnitude() as real) * unit();
            let s = (column_scale(p).magnitude() as real) * unit();
            (1 as real - u) * (y * s) <= 1 as real <= (1 as real + u) * (y * s)
        }),
{
    lemma_constants();
    lemma_column_scale(p);
    let u = roundoff();
    let full = SIGNIFICANDS as real;
    let w = unit();
    let q = pow2(1074) as real;
    let qi = pow2(1074) as int;
    let ri = root(p).magnitude();
    let ii = column_scale(p).magnitude();
    let t = ri * ii;
    let v = qi * qi;
    let low = SIGNIFICANDS - 1;
    let high = SIGNIFICANDS + 1;
    let k = u * (w * w);
    let tt = t as real;
    let vv = v as real;
    assert((full - 1 as real) * tt <= full * vv) by (nonlinear_arith)
        requires
            low * t <= SIGNIFICANDS * v,
            tt == t as real,
            vv == v as real,
            full == SIGNIFICANDS as real,
            low == SIGNIFICANDS - 1,
    {
        let a = low * t;
        let b = SIGNIFICANDS * v;
        assert(a as real == (low as real) * (t as real));
        assert(b as real == full * (v as real));
        assert(a as real <= b as real);
    }
    assert(full * vv <= (full + 1 as real) * tt) by (nonlinear_arith)
        requires
            SIGNIFICANDS * v <= high * t,
            tt == t as real,
            vv == v as real,
            full == SIGNIFICANDS as real,
            high == SIGNIFICANDS + 1,
    {
        let a = high * t;
        let b = SIGNIFICANDS * v;
        assert(a as real == (high as real) * (t as real));
        assert(b as real == full * (v as real));
        assert(b as real <= a as real);
    }
    assert(tt == (ri as real) * (ii as real)) by (nonlinear_arith)
        requires
            tt == t as real,
            t == ri * ii,
    ;
    assert(vv == q * q) by (nonlinear_arith)
        requires
            vv == v as real,
            v == qi * qi,
            q == qi as real,
    ;
    let y = (ri as real) * w;
    let s = (ii as real) * w;
    assert(k >= 0 as real) by (nonlinear_arith)
        requires
            k == u * (w * w),
            u >= 0 as real,
    {
        assert(w * w >= 0 as real);
    }
    assert((full * vv) * k == 1 as real) by (nonlinear_arith)
        requires
            vv == q * q,
            k == u * (w * w),
            u * full == 1 as real,
            w * q == 1 as real,
    {
        assert((full * (q * q)) * (u * (w * w)) == (u * full) * ((w * q) * (w * q)));
    }
    assert(((full - 1 as real) * tt) * k == (1 as real - u) * (y * s)) by (nonlinear_arith)
        requires
            tt == (ri as real) * (ii as real),
            k == u * (w * w),
            u * full == 1 as real,
            y == (ri as real) * w,
            s == (ii as real) * w,
    {
        assert(((full - 1 as real) * tt) * (u * (w * w)) == (u * full - u) * (tt * (w * w)));
        assert(tt * (w * w) == y * s);
    }
    assert(((full + 1 as real) * tt) * k == (1 as real + u) * (y * s)) by (nonlinear_arith)
        requires
            tt == (ri as real) * (ii as real),
            k == u * (w * w),
            u * full == 1 as real,
            y == (ri as real) * w,
            s == (ii as real) * w,
    {
        assert(((full + 1 as real) * tt) * (u * (w * w)) == (u * full + u) * (tt * (w * w)));
        assert(tt * (w * w) == y * s);
    }
    let aa = (full - 1 as real) * tt;
    let bb = full * vv;
    let cc = (full + 1 as real) * tt;
    assert(aa * k <= bb * k && bb * k <= cc * k) by (nonlinear_arith)
        requires
            aa <= bb <= cc,
            k >= 0 as real,
    ;
}

/// An entry of a column of the rounded factor, times the entry on the column's pivot, is
/// what was left of the entry of the matrix when the column was scaled, up to roundings.
pub proof fn law_column_gives_back_the_entry(
    h: Seq<Seq<Binary64>>,
    shift: Binary64,
    i: int,
    j: nat,
)
    requires
        j <= i,
        usable(pivot(h, shift, j)),
        factor(h, shift, i, j).finite(),
    ensures
        ({
            let t = side(h, shift, i, j as int) * side(h, shift, j as int, j as int);
            size(rest(h, shift, i, j as int, j as int) - t) <= (10 as real) * (roundoff() * size(t))
                + (3 as real) * (underflow() * side(h, shift, j as int, j as int))
        }),
        side(h, shift, j as int, j as int) > 0 as real,
        reduced(h, shift, i, j as int, j).finite(),
{
    lemma_constants();
    let p = pivot(h, shift, j);
    let f = column_scale(p);
    lemma_scale(p);
    lemma_scaled_pivot(p);
    lemma_product_near(reduced(h, shift, i, j as int, j), f);
    lemma_product_near(p, f);
    let u = roundoff();
    let e = underflow();
    let r = rest(h, shift, i, j as int, j as int);
    let x = number(p);
    let s = number(f);
    let l = side(h, shift, i, j as int);
    let d = side(h, shift, j as int, j as int);
    let diagonal = product(p, f);
    lemma_number_size(diagonal);
    lemma_normal_above_underflow(diagonal);
    let a = r * s - l;
    let b = x * s - d;
    assert(size(b) <= (2 as real) * (u * d));
    lemma_gives_back(r, x, s, l, d, u, e);
}

/// A positive number in the normal range is far above the error of a rounding below it.
pub proof fn lemma_normal_above_underflow(x: Binary64)
    requires
        normal(x),
    ensures
        underflow() <= roundoff() * size(number(x)),
        size(number(x)) > 0 as real,
{
    lemma_constants();
    lemma_number_size(x);
    lemma_magnitude_of_parts(0, HIDDEN as int);
    lemma2_to64();
    let least = signed(false, HIDDEN as int);
    lemma_pattern_magnitude(least, x);
    let w = pow2(0) as int;
    assert(HIDDEN * w == HIDDEN) by (nonlinear_arith)
        requires
            w == 1,
    ;
    let m = x.magnitude() as real;
    let u = roundoff();
    let v = unit();
    assert((2 as real) * m >= SIGNIFICANDS as real);
    assert((2 as real) * (u * (m * v)) >= v && m * v > 0 as real) by (nonlinear_arith)
        requires
            (2 as real) * m >= SIGNIFICANDS as real,
            u * (SIGNIFICANDS as real) == 1 as real,
            u >= 0 as real,
            v > 0 as real,
            m > 0 as real,
    {
        assert(u * ((2 as real) * m) >= u * (SIGNIFICANDS as real));
        assert((u * ((2 as real) * m)) * v >= (1 as real) * v);
        assert((u * ((2 as real) * m)) * v == (2 as real) * (u * (m * v)));
    }
}

proof fn lemma_gives_back(r: real, x: real, s: real, l: real, d: real, u: real, e: real)
    requires
        (0 as real) <= u <= (1 as real) / (1024 as real),
        e >= 0 as real,
        d > 0 as real,
        size(r * s - l) <= u * size(l) + e,
        size(x * s - d) <= (2 as real) * (u * d),
        (1 as real) - (5 as real) * u <= x * s * s <= (1 as real) + (5 as real) * u,
    ensures
        size(r - l * d) <= (10 as real) * (u * size(l * d)) + (3 as real) * (e * d),
{
    let a = r * s - l;
    let b = x * s - d;
    let t = l * d;
    let q = x * s * s;
    lemma_size_product(l, d);
    lemma_size_product(l, b);
    lemma_size_product(a, d);
    lemma_size_product(a, b);
    lemma_size_product(r, (1 as real) - q);
    let sl = size(l);
    let sa = size(a);
    let sb = size(b);
    let st = size(t);
    assert(r * q == t + l * b + a * d + a * b) by (nonlinear_arith)
        requires
            a == r * s - l,
            b == x * s - d,
            t == l * d,
            q == x * s * s,
    {
        assert(r * (x * s * s) == (r * s) * (x * s));
        assert((l + a) * (d + b) == l * d + l * b + a * d + a * b);
    }
    assert(sl * sb <= (2 as real) * (u * st)) by (nonlinear_arith)
        requires
            sb <= (2 as real) * (u * d),
            sl >= 0 as real,
            st == sl * d,
    {
        assert(sl * sb <= sl * ((2 as real) * (u * d)));
    }
    assert(sa * d <= u * st + e * d) by (nonlinear_arith)
        requires
            sa <= u * sl + e,
            d > 0 as real,
            st == sl * d,
    {
        assert(sa * d <= (u * sl + e) * d);
    }
    assert(sa * sb <= (2 as real) * (u * (u * st)) + (2 as real) * (u * (e * d)))
        by (nonlinear_arith)
        requires
            sa * d <= u * st + e * d,
            sb <= (2 as real) * (u * d),
            sa >= 0 as real,
            u >= 0 as real,
    {
        assert(sa * sb <= sa * ((2 as real) * (u * d)));
        assert(sa * ((2 as real) * (u * d)) == ((2 as real) * u) * (sa * d));
        assert(((2 as real) * u) * (sa * d) <= ((2 as real) * u) * (u * st + e * d));
    }
    let ut = u * st;
    let ed = e * d;
    assert(ut >= 0 as real && ed >= 0 as real && u * ut <= ut / (1024 as real) && u * ed <= ed / (
    1024 as real)) by (nonlinear_arith)
        requires
            ut == u * st,
            ed == e * d,
            st >= 0 as real,
            e >= 0 as real,
            d > 0 as real,
            (0 as real) <= u <= (1 as real) / (1024 as real),
    ;
    assert(size(r * q - t) <= (4 as real) * ut + (2 as real) * ed);
    let sr = size(r);
    assert(size((1 as real) - q) <= (5 as real) * u);
    assert(size(r * ((1 as real) - q)) <= (5 as real) * (u * sr)) by (nonlinear_arith)
        requires
            size(r * ((1 as real) - q)) == sr * size((1 as real) - q),
            size((1 as real) - q) <= (5 as real) * u,
            sr >= 0 as real,
    {
        assert(sr * size((1 as real) - q) <= sr * ((5 as real) * u));
    }
    assert(r * ((1 as real) - q) == r - r * q) by (nonlinear_arith);
    let g = size(r - t);
    assert(sr <= st + g);
    assert(u * sr <= ut + g / (1024 as real)) by (nonlinear_arith)
        requires
            sr <= st + g,
            ut == u * st,
            g >= 0 as real,
            (0 as real) <= u <= (1 as real) / (1024 as real),
    {
        assert(u * sr <= u * (st + g));
        assert(u * g <= g / (1024 as real));
    }
}

/// An upper bound on every product of two entries of a column of the factor, where no
/// entry of the shifted diagonal is above `d`.
pub open spec fn widest(d: real) -> real {
    (2 as real) * d + (4 as real) * underflow()
}

/// On the diagonal of a matrix that factors, what is left only falls, and stays positive.
pub proof fn lemma_diagonal(h: Seq<Seq<Binary64>>, shift: Binary64, n: nat, i: nat, k: nat)
    requires
        factors(h, shift, n),
        i < n,
        k <= i,
    ensures
        reduced(h, shift, i as int, i as int, k).finite(),
        (0 as real) < rest(h, shift, i as int, i as int, k as int) <= rest(
            h,
            shift,
            i as int,
            i as int,
            0,
        ),
        k < i ==> {
            &&& (0 as real) <= number(taken(h, shift, i as int, i as int, k as int)) <= rest(
                h,
                shift,
                i as int,
                i as int,
                k as int,
            )
            &&& factor(h, shift, i as int, k).finite()
            &&& taken(h, shift, i as int, i as int, k as int).finite()
        },
{
    assert(usable(pivot(h, shift, i)));
    lemma_positive_rest(h, shift, i, k);
    lemma_falling_rest(h, shift, i, k);
}

proof fn lemma_positive_rest(h: Seq<Seq<Binary64>>, shift: Binary64, i: nat, k: nat)
    requires
        usable(pivot(h, shift, i)),
        k <= i,
    ensures
        reduced(h, shift, i as int, i as int, k).finite(),
        rest(h, shift, i as int, i as int, k as int) > 0 as real,
        k < i ==> {
            &&& (0 as real) <= number(taken(h, shift, i as int, i as int, k as int)) <= rest(
                h,
                shift,
                i as int,
                i as int,
                k as int,
            )
            &&& factor(h, shift, i as int, k).finite()
            &&& taken(h, shift, i as int, i as int, k as int).finite()
        },
    decreases i - k,
{
    lemma_constants();
    if k == i {
        lemma_scale(pivot(h, shift, i));
    } else {
        let a = i as int;
        lemma_positive_rest(h, shift, i, k + 1);
        lemma_step(h, shift, a, a, k);
        let across = taken(h, shift, a, a, k as int);
        lemma_product_sign(factor(h, shift, a, k), factor(h, shift, a, k));
        lemma_number_size(across);
        let u = roundoff();
        let x = rest(h, shift, a, a, (k + 1) as int);
        let left = rest(h, shift, a, a, k as int);
        let p = number(across);
        assert(u * x < x) by (nonlinear_arith)
            requires
                x > 0 as real,
                (0 as real) <= u <= (1 as real) / (1024 as real),
        ;
        assert(left - p > 0 as real);
    }
}

proof fn lemma_falling_rest(h: Seq<Seq<Binary64>>, shift: Binary64, i: nat, k: nat)
    requires
        usable(pivot(h, shift, i)),
        k <= i,
    ensures
        rest(h, shift, i as int, i as int, k as int) <= rest(h, shift, i as int, i as int, 0),
    decreases k,
{
    if 0 < k {
        let a = i as int;
        let b = (k - 1) as nat;
        lemma_falling_rest(h, shift, i, b);
        lemma_positive_rest(h, shift, i, b);
        lemma_positive_rest(h, shift, i, k);
        let left = reduced(h, shift, a, a, b);
        let across = taken(h, shift, a, a, b as int);
        let after = reduced(h, shift, a, a, k);
        lemma_unrolled(h, shift, a, a, b);
        lemma_product_sign(factor(h, shift, a, b), factor(h, shift, a, b));
        lemma_number_size(across);
        lemma_difference_beside(left, across, left);
        lemma_order_of_values(after, left);
        lemma_constants();
        let x = after.value() as real;
        let y = left.value() as real;
        let u = unit();
        assert(x * u <= y * u) by (nonlinear_arith)
            requires
                x <= y,
                u > 0 as real,
        ;
    }
}

/// The square of every entry of a row is bounded.
pub proof fn lemma_row_bounded(h: Seq<Seq<Binary64>>, shift: Binary64, n: nat, i: nat, c: nat, d: real)
    requires
        factors(h, shift, n),
        c <= i < n,
        rest(h, shift, i as int, i as int, 0) <= d,
    ensures
        side(h, shift, i as int, c as int) * side(h, shift, i as int, c as int) <= widest(d),
        factor(h, shift, i as int, c).finite(),
{
    lemma_constants();
    let a = i as int;
    let l = side(h, shift, a, c as int);
    let u = roundoff();
    let e = underflow();
    lemma_diagonal(h, shift, n, i, c);
    if c < i {
        lemma_product_near(factor(h, shift, a, c), factor(h, shift, a, c));
        let p = number(taken(h, shift, a, a, c as int));
        assert(u * p <= p) by (nonlinear_arith)
            requires
                p >= 0 as real,
                (0 as real) <= u <= (1 as real) / (1024 as real),
        ;
    } else {
        let p = pivot(h, shift, i);
        lemma_scaled_pivot(p);
        law_column_gives_back_the_entry(h, shift, a, i);
        let t = l * l;
        assert(t >= 0 as real && u * t <= t / (1024 as real)) by (nonlinear_arith)
            requires
                t == l * l,
                (0 as real) <= u <= (1 as real) / (1024 as real),
        ;
        lemma_small_underflow();
        assert((3 as real) * (e * l) <= (2 as real) * e + t / (16 as real)) by (nonlinear_arith)
            requires
                t == l * l,
                (0 as real) <= e <= (1 as real) / (1024 as real),
        {
            assert((l - 1 as real) * (l - 1 as real) >= 0 as real);
            assert((2 as real) * l <= t + 1 as real);
            assert(e * ((2 as real) * l) <= e * (t + 1 as real));
            assert(e * t <= t / (1024 as real));
        }
    }
}

/// The error of a rounding below the normal range is small.
pub proof fn lemma_small_underflow()
    ensures
        (0 as real) < underflow() <= (1 as real) / (1024 as real),
{
    lemma_constants();
    lemma2_to64();
    lemma_pow2_strictly_increases(10, 1074);
    let u = unit();
    let q = pow2(1074) as real;
    assert(u <= (1 as real) / (1024 as real)) by (nonlinear_arith)
        requires
            u * q == 1 as real,
            q >= 1024 as real,
            u > 0 as real,
    {
        assert(u * q >= u * (1024 as real));
    }
}

} // verus!
