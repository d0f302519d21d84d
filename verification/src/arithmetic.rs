//! The rounded operations on [`Binary64`]: sums, products, quotients, roots.
//!
//! Each operation splits its operands into integer significands and exponents,
//! computes the exact result or brackets it between two neighbouring integers,
//! and rounds that once.

use crate::binary64::{difference, product, quotient, root, sum, Binary64, NAN};
use crate::rounding::{
    brackets_ratio, brackets_root, lemma_magnitude_grows, lemma_magnitude_step,
    lemma_magnitude_zero, lemma_round_grid_point, lemma_round_ratio, lemma_round_root,
    lemma_settles_ratio, lemma_settles_root, magnitude, power_of_two, scale_of, settle, HIDDEN,
    INFINITE, SIGNIFICANDS,
};
use vstd::arithmetic::power2::{
    lemma2_to64, lemma2_to64_rest, lemma_pow2_adds, lemma_pow2_pos, lemma_pow2_strictly_increases,
    lemma_pow2_unfold, pow2,
};
use vstd::prelude::*;

verus! {

/// A finite magnitude as an integer significand times a power of two.
struct Parts {
    significand: u64,
    exponent: i64,
}

impl Parts {
    spec fn of(self, pattern: int) -> bool {
        &&& self.significand < SIGNIFICANDS
        &&& 0 <= self.exponent <= 2045
        &&& self.exponent == 0 || HIDDEN <= self.significand
        &&& self.exponent == scale_of(pattern)
        &&& magnitude(pattern) == self.significand * pow2(self.exponent as nat)
        &&& self.significand == 0 <==> pattern == 0
    }
}

/// Split a finite pattern.
fn split(pattern: u64) -> (parts: Parts)
    requires
        pattern < INFINITE,
    ensures
        parts.of(pattern as int),
{
    proof {
        lemma_magnitude_step(pattern as int);
    }
    if pattern < HIDDEN {
        Parts { significand: pattern, exponent: 0 }
    } else {
        let exponent: u64 = pattern / HIDDEN - 1;
        Parts { significand: pattern - exponent * HIDDEN, exponent: exponent as i64 }
    }
}

/// A number too small to reach the middle between its partner and the partner's
/// neighbours leaves the partner unchanged.
proof fn lemma_round_absorbed(large: int, small: int, high: Parts, low: Parts)
    requires
        0 <= large < INFINITE,
        0 <= small < INFINITE,
        high.of(large),
        low.of(small),
        60 < high.exponent - low.exponent,
    ensures
        crate::rounding::round_ratio(magnitude(large) + magnitude(small), 1) == large,
        crate::rounding::round_ratio(magnitude(large) - magnitude(small), 1) == large,
        0 <= magnitude(small) < magnitude(large),
{
    let e = high.exponent as int;
    let f = low.exponent as int;
    let tiny = pow2(f as nat) as int;
    let m = low.significand as int;
    lemma2_to64_rest();
    lemma_pow2_pos(f as nat);
    assert(2 * (m * tiny) < 0x40_0000_0000_0000 * tiny) by (nonlinear_arith)
        requires
            m < 0x20_0000_0000_0000,
            0 < tiny,
    ;
    lemma_pow2_adds(54, f as nat);
    assert(2 * magnitude(small) < pow2((54 + f) as nat));
    lemma_pow2_strictly_increases((54 + f) as nat, (e - 1) as nat);
    lemma_pow2_strictly_increases((e - 1) as nat, e as nat);
    assert(HIDDEN <= large);
    lemma_magnitude_step(large);
    lemma_magnitude_step(large - 1);
    assert(e - 1 <= scale_of(large - 1));
    if e - 1 < scale_of(large - 1) {
        lemma_pow2_strictly_increases((e - 1) as nat, scale_of(large - 1) as nat);
    }
    assert(0 <= m * tiny) by (nonlinear_arith)
        requires
            0 <= m,
            0 < tiny,
    ;
    lemma_magnitude_step(small);
    lemma_round_ratio(magnitude(large) + magnitude(small), 1, large);
    lemma_round_ratio(magnitude(large) - magnitude(small), 1, large);
}

/// Larger patterns carry larger exponents.
proof fn lemma_scale_ordered(a: int, b: int)
    requires
        0 <= a <= b,
    ensures
        scale_of(a) <= scale_of(b),
{
}

/// The pattern nearest to a significand times a power of two.
fn round_exact(m: u128, e: i64) -> (b: u64)
    requires
        0 < m < 0x8000_0000_0000_0000_0000_0000_0000_0000,
        0 <= e <= 4000,
    ensures
        b <= INFINITE,
        b == crate::rounding::round_ratio(m * pow2(e as nat), 1),
{
    let b: u64 = settle(m, e, false);
    proof {
        let p = m * pow2(e as nat);
        lemma2_to64();
        let w = pow2(e as nat) as int;
        assert(p * 1 == m * (w * 1)) by (nonlinear_arith)
            requires
                p == m * w,
        ;
        assert(brackets_ratio(m as int, e as int, false, p, 1));
        lemma_settles_ratio(m as int, e as int, false, b as int, p, 1);
        lemma_round_ratio(p, 1, b as int);
    }
    b
}

impl Binary64 {
    /// The sum, rounded once.
    pub fn plus(self, other: Binary64) -> (x: Binary64)
        ensures
            x == sum(self, other),
    {
        proof {
            reveal(sum);
        }
        if self.is_nan() || other.is_nan() {
            return Binary64 { bits: NAN };
        }
        if !self.is_finite() {
            if !other.is_finite() && self.is_negative() != other.is_negative() {
                return Binary64 { bits: NAN };
            }
            return self;
        }
        if !other.is_finite() {
            return other;
        }
        if self.unsigned() < other.unsigned() {
            other.absorb(self)
        } else {
            self.absorb(other)
        }
    }

    /// The sum of a finite number and one no larger in magnitude.
    fn absorb(self, other: Binary64) -> (x: Binary64)
        requires
            self.finite(),
            other.finite(),
            other.pattern() <= self.pattern(),
        ensures
            x == sum(self, other),
            x == sum(other, self),
    {
        let high: Parts = split(self.unsigned());
        let low: Parts = split(other.unsigned());
        let ghost large = self.pattern();
        let ghost small = other.pattern();
        proof {
            reveal(sum);
            lemma_scale_ordered(small, large);
            lemma_magnitude_zero();
            lemma_magnitude_step(large);
            lemma_magnitude_step(small);
            if small < large {
                lemma_magnitude_grows(small, large);
            }
            if 0 < large {
                lemma_magnitude_grows(0, large);
            }
            if 0 < small {
                lemma_magnitude_grows(0, small);
            }
        }
        if low.significand == 0 {
            if high.significand == 0 {
                return Binary64::with_sign(self.is_negative() && other.is_negative(), 0);
            }
            proof {
                lemma_round_grid_point(large);
            }
            return self;
        }
        let gap: i64 = high.exponent - low.exponent;
        if 60 < gap {
            proof {
                lemma_round_absorbed(large, small, high, low);
            }
            return self;
        }
        proof {
            lemma_aligned(high, low, gap as nat);
        }
        let wide: u128 = high.significand as u128 * power_of_two(gap as u32);
        let same: bool = self.is_negative() == other.is_negative();
        if !same && wide == low.significand as u128 {
            proof {
                let w = pow2(low.exponent as nat) as int;
                assert(magnitude(large) == magnitude(small));
            }
            return Binary64 { bits: 0 };
        }
        proof {
            let w = pow2(low.exponent as nat) as int;
            lemma_pow2_pos(low.exponent as nat);
            let a = wide as int;
            let c = low.significand as int;
            assert((a + c) * w == a * w + c * w && (a - c) * w == a * w - c * w)
                by (nonlinear_arith);
            assert(c <= a) by (nonlinear_arith)
                requires
                    c * w <= a * w,
                    0 < w,
            ;
        }
        let total: u128 = if same {
            wide + low.significand as u128
        } else {
            wide - low.significand as u128
        };
        proof {
            let w = pow2(low.exponent as nat) as int;
            lemma_pow2_pos(low.exponent as nat);
            let exact = self.value() + other.value();
            assert(total * w == if self.negative() {
                -exact
            } else {
                exact
            });
            assert(0 < total * w) by (nonlinear_arith)
                requires
                    0 < total,
                    0 < w,
            ;
        }
        let b: u64 = round_exact(total, low.exponent);
        Binary64::with_sign(self.is_negative(), b)
    }
}

/// Two significands on the exponent of the smaller one.
proof fn lemma_aligned(high: Parts, low: Parts, gap: nat)
    requires
        high.exponent == low.exponent + gap,
        0 <= low.exponent,
        gap <= 60,
        high.significand < SIGNIFICANDS,
    ensures
        0 < pow2(gap) <= pow2(60),
        high.significand * pow2(gap) <= 0x0002_0000_0000_0000_0000_0000_0000_0000,
        (high.significand * pow2(gap)) * pow2(low.exponent as nat) == high.significand * pow2(
            high.exponent as nat,
        ),
{
    let m = high.significand as int;
    let g = pow2(gap) as int;
    let w = pow2(low.exponent as nat) as int;
    lemma_pow2_adds(gap, low.exponent as nat);
    assert((m * g) * w == m * (g * w)) by (nonlinear_arith);
    lemma_pow2_pos(gap);
    if gap < 60 {
        lemma_pow2_strictly_increases(gap, 60);
    }
    lemma2_to64_rest();
    assert(m * g <= 0x20_0000_0000_0000 * 0x1000_0000_0000_0000) by (nonlinear_arith)
        requires
            0 <= m <= 0x20_0000_0000_0000,
            0 <= g <= 0x1000_0000_0000_0000,
    ;
}

impl Binary64 {
    /// The difference, rounded once.
    pub fn minus(self, other: Binary64) -> (x: Binary64)
        ensures
            x == difference(self, other),
    {
        self.plus(other.negate())
    }

    /// The product, rounded once.
    pub fn times(self, other: Binary64) -> (x: Binary64)
        ensures
            x == product(self, other),
    {
        proof {
            reveal(product);
        }
        let negative: bool = self.is_negative() != other.is_negative();
        if self.is_nan() || other.is_nan() {
            return Binary64 { bits: NAN };
        }
        if !self.is_finite() || !other.is_finite() {
            if self.unsigned() == 0 || other.unsigned() == 0 {
                return Binary64 { bits: NAN };
            }
            return Binary64::with_sign(negative, INFINITE);
        }
        let left: Parts = split(self.unsigned());
        let right: Parts = split(other.unsigned());
        if left.significand == 0 || right.significand == 0 {
            proof {
                lemma_magnitude_zero();
                let p = self.magnitude() * other.magnitude();
                let x = self.magnitude();
                let y = other.magnitude();
                assert(p == 0) by (nonlinear_arith)
                    requires
                        x == 0 || y == 0,
                        p == x * y,
                ;
                lemma_pow2_pos(1074);
                lemma_round_zero(pow2(1074) as int);
            }
            return Binary64::with_sign(negative, 0);
        }
        proof {
            let m = left.significand as int;
            let n = right.significand as int;
            assert(0 < m * n <= 0x20_0000_0000_0000 * 0x20_0000_0000_0000) by (nonlinear_arith)
                requires
                    0 < m <= 0x20_0000_0000_0000,
                    0 < n <= 0x20_0000_0000_0000,
            ;
        }
        let m: u128 = left.significand as u128 * right.significand as u128;
        let e: i64 = left.exponent + right.exponent - 1074;
        let b: u64 = settle(m, e, false);
        proof {
            let p = self.magnitude() * other.magnitude();
            lemma_product_bracket(left, right, m as int, e as int, p);
            lemma_pow2_pos(1074);
            lemma_settles_ratio(m as int, e as int, false, b as int, p, pow2(1074) as int);
            lemma_round_ratio(p, pow2(1074) as int, b as int);
        }
        Binary64::with_sign(negative, b)
    }
}

/// Zero is the grid point nearest to zero.
proof fn lemma_round_zero(q: int)
    requires
        0 < q,
    ensures
        crate::rounding::round_ratio(0, q) == 0,
{
    lemma_magnitude_zero();
    lemma_magnitude_step(0);
    let next = magnitude(1);
    let zero = magnitude(0);
    assert(0 < q * (zero + next)) by (nonlinear_arith)
        requires
            0 < q,
            zero == 0,
            0 < next,
    ;
    lemma_round_ratio(0, q, 0);
}

/// The product of two significands carries the product of the magnitudes.
proof fn lemma_product_bracket(left: Parts, right: Parts, m: int, e: int, p: int)
    requires
        0 <= left.exponent,
        0 <= right.exponent,
        m == left.significand * right.significand,
        e == left.exponent + right.exponent - 1074,
        p == (left.significand * pow2(left.exponent as nat)) * (right.significand * pow2(
            right.exponent as nat,
        )),
    ensures
        brackets_ratio(m, e, false, p, pow2(1074) as int),
{
    let a = left.exponent as nat;
    let c = right.exponent as nat;
    let s = left.significand as int;
    let t = right.significand as int;
    let x = pow2(a) as int;
    let y = pow2(c) as int;
    lemma_pow2_adds(a, c);
    assert((s * x) * (t * y) == (s * t) * (x * y)) by (nonlinear_arith);
    let all = pow2(a + c) as int;
    assert(p == m * all);
    lemma2_to64();
    if e < 0 {
        let d = (-e) as nat;
        lemma_pow2_adds(a + c, d);
        assert(a + c + d == 1074);
        let down = pow2(d) as int;
        assert(p * down == m * (1 * pow2(1074))) by (nonlinear_arith)
            requires
                p == m * all,
                pow2(1074) == all * down,
        ;
    } else {
        lemma_pow2_adds(e as nat, 1074);
        assert(e as nat + 1074 == a + c);
        let up = pow2(e as nat) as int;
        assert(p * 1 == m * (up * pow2(1074))) by (nonlinear_arith)
            requires
                p == m * all,
                all == up * pow2(1074),
        ;
    }
}

/// A nonzero significand shifted up to full width.
fn widen(parts: Parts) -> (wide: (u64, u32))
    requires
        0 < parts.significand < SIGNIFICANDS,
    ensures
        HIDDEN <= wide.0 < SIGNIFICANDS,
        wide.1 <= 52,
        wide.0 == parts.significand * pow2(wide.1 as nat),
{
    let mut m: u64 = parts.significand;
    let mut k: u32 = 0;
    proof {
        lemma2_to64();
        let w = pow2(k as nat) as int;
        assert(m == m * w) by (nonlinear_arith)
            requires
                w == 1,
        ;
    }
    while m < HIDDEN
        invariant
            0 < m < SIGNIFICANDS,
            k <= 52,
            pow2(k as nat) <= m,
            m == parts.significand * pow2(k as nat),
            0 < parts.significand,
        decreases SIGNIFICANDS - m,
    {
        proof {
            lemma_pow2_unfold((k + 1) as nat);
            lemma2_to64_rest();
            if k == 52 {
                assert(HIDDEN <= m);
            }
            let s = parts.significand as int;
            let w = pow2(k as nat) as int;
            assert(s * (2 * w) == 2 * (s * w)) by (nonlinear_arith);
        }
        m = 2 * m;
        k = k + 1;
    }
    (m, k)
}

impl Binary64 {
    /// The quotient, rounded once.
    pub fn over(self, other: Binary64) -> (x: Binary64)
        ensures
            x == quotient(self, other),
    {
        proof {
            reveal(quotient);
        }
        let negative: bool = self.is_negative() != other.is_negative();
        if self.is_nan() || other.is_nan() {
            return Binary64 { bits: NAN };
        }
        if !self.is_finite() {
            if !other.is_finite() {
                return Binary64 { bits: NAN };
            }
            return Binary64::with_sign(negative, INFINITE);
        }
        if !other.is_finite() {
            return Binary64::with_sign(negative, 0);
        }
        let top: Parts = split(self.unsigned());
        let bottom: Parts = split(other.unsigned());
        if bottom.significand == 0 {
            if top.significand == 0 {
                return Binary64 { bits: NAN };
            }
            return Binary64::with_sign(negative, INFINITE);
        }
        proof {
            lemma_magnitude_zero();
            lemma_magnitude_grows(0, other.pattern());
        }
        if top.significand == 0 {
            proof {
                lemma_round_zero(other.magnitude());
                assert(0 * pow2(1074) == 0) by (nonlinear_arith);
            }
            return Binary64::with_sign(negative, 0);
        }
        let exponent: i64 = top.exponent;
        let ghost s = top.significand as int;
        let (m, k) = widen(top);
        let n: u128 = m as u128 * 0x1_0000_0000_0000_0000;
        let d: u128 = bottom.significand as u128;
        let q: u128 = n / d;
        let r: u128 = n % d;
        let e: i64 = exponent - k as i64 + 1010 - bottom.exponent;
        proof {
            vstd::arithmetic::div_mod::lemma_fundamental_div_mod(n as int, d as int);
            assert(0x8000_0000_0000_0000 <= q <= n) by (nonlinear_arith)
                requires
                    0 < d < 0x20_0000_0000_0000,
                    n == d * q + r,
                    0 <= r < d,
                    0x10_0000_0000_0000_0000_0000_0000_0000 <= n,
                    0 <= q,
            ;
        }
        let b: u64 = settle(q, e, r != 0);
        proof {
            let p = self.magnitude() * pow2(1074);
            lemma_quotient_bracket(
                s,
                exponent as nat,
                k as nat,
                d as int,
                bottom.exponent as nat,
                n as int,
                q as int,
                r as int,
                e as int,
                p,
                other.magnitude(),
            );
            lemma_settles_ratio(q as int, e as int, r != 0, b as int, p, other.magnitude());
            lemma_round_ratio(p, other.magnitude(), b as int);
        }
        Binary64::with_sign(negative, b)
    }
}

/// An integer quotient of scaled significands brackets the quotient of the
/// magnitudes.
proof fn lemma_quotient_bracket(
    s: int,
    a: nat,
    k: nat,
    d: int,
    c: nat,
    n: int,
    q: int,
    r: int,
    e: int,
    p: int,
    z: int,
)
    requires
        0 < d,
        n == d * q + r,
        0 <= r < d,
        n == (s * pow2(k)) * 0x1_0000_0000_0000_0000,
        e == a - k + 1010 - c,
        p == (s * pow2(a)) * pow2(1074),
        z == d * pow2(c),
    ensures
        brackets_ratio(q, e, r != 0, p, z),
{
    let rise: nat = if e < 0 {
        0
    } else {
        e as nat
    };
    let drop: nat = if e < 0 {
        (-e) as nat
    } else {
        0
    };
    let up = pow2(rise) as int;
    let down = pow2(drop) as int;
    let w = pow2(c) as int;
    let scale = pow2(k + 64) as int;
    lemma2_to64();
    lemma_pow2_adds(k, 64);
    lemma_pow2_pos(rise);
    lemma_pow2_pos(c);
    lemma_pow2_pos(k + 64);
    let kk = pow2(k) as int;
    assert(n == s * scale) by (nonlinear_arith)
        requires
            n == (s * kk) * 0x1_0000_0000_0000_0000,
            scale == kk * 0x1_0000_0000_0000_0000,
    ;
    // Both sides of the scaling carry the same power of two.
    lemma_pow2_adds(a, 1074);
    lemma_pow2_adds(a + 1074, drop);
    lemma_pow2_adds(rise, c);
    lemma_pow2_adds(rise + c, k + 64);
    assert(a + 1074 + drop == rise + c + (k + 64));
    let aa = pow2(a) as int;
    let unit = pow2(1074) as int;
    assert((aa * unit) * down == (up * w) * scale);
    assert(p * down == n * (up * w)) by {
        assert(p * down == s * ((aa * unit) * down)) by (nonlinear_arith)
            requires
                p == (s * aa) * unit,
        ;
        assert(s * ((up * w) * scale) == n * (up * w)) by (nonlinear_arith)
            requires
                n == s * scale,
        ;
    }
    let y = up * w;
    assert(0 < y) by (nonlinear_arith)
        requires
            0 < up,
            0 < w,
            y == up * w,
    ;
    assert(up * z == d * y) by (nonlinear_arith)
        requires
            z == d * w,
            y == up * w,
    ;
    assert(q * (d * y) == (d * q) * y) by (nonlinear_arith);
    assert((q + 1) * (d * y) == (d * q + d) * y) by (nonlinear_arith);
    let dq = d * q;
    assert(n * y == dq * y + r * y) by (nonlinear_arith)
        requires
            n == dq + r,
    ;
    assert((dq + d) * y == dq * y + d * y) by (nonlinear_arith);
    assert(r * y < d * y) by (nonlinear_arith)
        requires
            r < d,
            0 < y,
    ;
    assert(r != 0 ==> 0 < r * y) by (nonlinear_arith)
        requires
            0 <= r,
            0 < y,
    ;
    assert(r == 0 ==> r * y == 0);
}

/// The integer square root of a number below `2^116`.
fn integer_root(n: u128) -> (r: u64)
    requires
        n < 0x10_0000_0000_0000_0000_0000_0000_0000,
    ensures
        r < 0x400_0000_0000_0000,
        r * r <= n < (r + 1) * (r + 1),
{
    let mut low: u64 = 0;
    let mut high: u64 = 0x400_0000_0000_0000;
    assert(0x400_0000_0000_0000 * 0x400_0000_0000_0000
        == 0x10_0000_0000_0000_0000_0000_0000_0000int) by (nonlinear_arith);
    while 1 < high - low
        invariant
            low < high <= 0x400_0000_0000_0000,
            low * low <= n < high * high,
        decreases high - low,
    {
        let middle: u64 = low + (high - low) / 2;
        proof {
            assert(middle * middle <= 0x400_0000_0000_0000 * 0x400_0000_0000_0000)
                by (nonlinear_arith)
                requires
                    middle <= 0x400_0000_0000_0000,
            ;
        }
        if middle as u128 * middle as u128 <= n {
            low = middle;
        } else {
            high = middle;
        }
    }
    low
}

impl Binary64 {
    /// The square root, rounded once.
    pub fn sqrt(self) -> (x: Binary64)
        ensures
            x == root(self),
    {
        proof {
            reveal(root);
        }
        if self.is_nan() {
            return Binary64 { bits: NAN };
        }
        if self.unsigned() == 0 {
            return self;
        }
        if self.is_negative() {
            return Binary64 { bits: NAN };
        }
        if !self.is_finite() {
            return self;
        }
        let parts: Parts = split(self.unsigned());
        let exponent: i64 = parts.exponent;
        let ghost s = parts.significand as int;
        let (m, k) = widen(parts);
        let scaled: i64 = exponent - k as i64 + 1074;
        let odd: bool = scaled % 2 == 1;
        let n: u128 = if odd {
            m as u128 * 0x2000_0000_0000_0000
        } else {
            m as u128 * 0x1000_0000_0000_0000
        };
        let e: i64 = if odd {
            (scaled - 61) / 2
        } else {
            (scaled - 60) / 2
        };
        let r: u64 = integer_root(n);
        let inexact: bool = (r as u128) * (r as u128) != n;
        proof {
            assert(0x80_0000_0000_0000 <= r) by (nonlinear_arith)
                requires
                    0x1_0000_0000_0000_0000_0000_0000_0000 <= n,
                    n < (r + 1) * (r + 1),
            ;
        }
        let b: u64 = settle(r as u128, e, inexact);
        proof {
            let p = self.magnitude() * pow2(1074);
            lemma2_to64_rest();
            lemma_root_bracket(
                s,
                exponent as nat,
                k as nat,
                n as int,
                if odd {
                    61
                } else {
                    60
                },
                e as nat,
                r as int,
                inexact,
                p,
            );
            lemma_settles_root(r as int, e as int, inexact, b as int, p);
            lemma_round_root(p, b as int);
        }
        Binary64::with_sign(false, b)
    }
}

/// The integer root of a scaled significand brackets the root of the magnitude.
proof fn lemma_root_bracket(
    s: int,
    a: nat,
    k: nat,
    n: int,
    j: nat,
    e: nat,
    r: int,
    inexact: bool,
    p: int,
)
    requires
        k <= 52,
        j == 60 || j == 61,
        n == (s * pow2(k)) * pow2(j),
        2 * e == a - k + 1074 - j,
        p == (s * pow2(a)) * pow2(1074),
        0 <= r,
        r * r <= n < (r + 1) * (r + 1),
        inexact <==> r * r != n,
    ensures
        brackets_root(r, e as int, inexact, p),
{
    let up = pow2(e) as int;
    lemma2_to64();
    lemma_pow2_pos(e);
    lemma_pow2_adds(a, 1074);
    lemma_pow2_adds(k, j);
    lemma_pow2_adds(e, e);
    lemma_pow2_adds(k + j, e + e);
    assert(a + 1074 == (k + j) + (e + e));
    let aa = pow2(a) as int;
    let unit = pow2(1074) as int;
    let kk = pow2(k) as int;
    let jj = pow2(j) as int;
    assert(aa * unit == (kk * jj) * (up * up));
    assert(p == n * (up * up)) by {
        assert(p == s * (aa * unit)) by (nonlinear_arith)
            requires
                p == (s * aa) * unit,
        ;
        assert(s * ((kk * jj) * (up * up)) == n * (up * up)) by (nonlinear_arith)
            requires
                n == (s * kk) * jj,
        ;
    }
    let y = up * up;
    assert(0 < y) by (nonlinear_arith)
        requires
            0 < up,
            y == up * up,
    ;
    let low = r * r;
    let high = (r + 1) * (r + 1);
    assert((r * up) * (r * up) == low * y) by (nonlinear_arith)
        requires
            low == r * r,
            y == up * up,
    ;
    assert(((r + 1) * up) * ((r + 1) * up) == high * y) by (nonlinear_arith)
        requires
            high == (r + 1) * (r + 1),
            y == up * up,
    ;
    assert(low < n ==> low * y < n * y) by (nonlinear_arith)
        requires
            0 < y,
    ;
    assert(n * y < high * y) by (nonlinear_arith)
        requires
            0 < y,
            n < high,
    ;
    let one = pow2(0) as int;
    assert(p * (one * one) == n * y) by (nonlinear_arith)
        requires
            one == 1,
            p == n * y,
    ;
}

} // verus!
