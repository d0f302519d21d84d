//! IEEE 754 binary64 numbers held by their bit patterns.
//!
//! A [`Binary64`] is sixty-four bits: a sign, and a pattern that names a
//! magnitude (see [`crate::rounding`]). Every operation here is stated over the
//! exact values that the operands name and rounds once, to nearest with ties to
//! even, as the hardware operation does. Where the standard leaves the bits of a
//! NaN result open, the quiet NaN [`NAN`] is returned.

use crate::rounding::{
    lemma_magnitude_grows, lemma_magnitude_of_parts, lemma_magnitude_zero, lemma_nearest_exists,
    lemma_round_root, magnitude, round_ratio, round_root, HIDDEN, INFINITE,
};
use vstd::arithmetic::power2::{lemma2_to64_rest, lemma_pow2_adds, lemma_pow2_pos, pow2};
use vstd::prelude::*;

verus! {

/// The sign bit.
pub const SIGN: u64 = 0x8000_0000_0000_0000;

/// The bits of the quiet NaN that invalid operations return.
pub const NAN: u64 = 0x7ff8_0000_0000_0000;

/// The bits of positive infinity.
pub const INFINITY: u64 = 0x7ff0_0000_0000_0000;

/// The bits of one half.
pub const HALF: u64 = 0x3fe0_0000_0000_0000;

/// The bits of one.
pub const ONE: u64 = 0x3ff0_0000_0000_0000;

/// The bits of two.
pub const TWO: u64 = 0x4000_0000_0000_0000;

/// The bits of `2^-52`, the gap between one and the next number.
pub const EPSILON: u64 = 0x3cb0_0000_0000_0000;

/// A binary64 number.
#[derive(Clone, Copy, Debug)]
pub struct Binary64 {
    pub bits: u64,
}

impl Binary64 {
    /// The bits below the sign.
    pub open spec fn pattern(self) -> int {
        if self.bits < SIGN {
            self.bits as int
        } else {
            self.bits - SIGN
        }
    }

    /// Whether the sign bit is set.
    pub open spec fn negative(self) -> bool {
        SIGN <= self.bits
    }

    /// Whether the bits name no number.
    pub open spec fn nan(self) -> bool {
        INFINITE < self.pattern()
    }

    /// Whether the bits name a finite number.
    pub open spec fn finite(self) -> bool {
        self.pattern() < INFINITE
    }

    /// Whether the bits name a zero of either sign.
    pub open spec fn zero(self) -> bool {
        self.pattern() == 0
    }

    /// The magnitude of a finite number, in units of `2^-1074`.
    pub open spec fn magnitude(self) -> int {
        magnitude(self.pattern())
    }

    /// The value of a finite number, in units of `2^-1074`.
    pub open spec fn value(self) -> int {
        if self.negative() {
            -self.magnitude()
        } else {
            self.magnitude()
        }
    }

    /// The place of a number in the order of all numbers; both zeros have the same.
    pub open spec fn rank(self) -> int {
        if self.negative() {
            -self.pattern()
        } else {
            self.pattern()
        }
    }
}

/// The number with the given sign and pattern.
pub open spec fn signed(negative: bool, pattern: int) -> Binary64 {
    Binary64 {
        bits: if negative {
            (SIGN + pattern) as u64
        } else {
            pattern as u64
        },
    }
}

/// Whether `a < b`. A NaN is less than nothing, and nothing is less than it.
pub open spec fn less(a: Binary64, b: Binary64) -> bool {
    !a.nan() && !b.nan() && a.rank() < b.rank()
}

/// Whether `a <= b`, where neither is a NaN.
pub open spec fn at_most(a: Binary64, b: Binary64) -> bool {
    !a.nan() && !b.nan() && a.rank() <= b.rank()
}

/// Whether `a` and `b` are the same number, where neither is a NaN.
pub open spec fn same_number(a: Binary64, b: Binary64) -> bool {
    !a.nan() && !b.nan() && a.rank() == b.rank()
}

/// Whether a number is finite and at full precision: neither zero nor subnormal.
pub open spec fn normal(x: Binary64) -> bool {
    HIDDEN <= x.pattern() < INFINITE
}

/// `a` with its sign bit cleared.
pub open spec fn absolute(a: Binary64) -> Binary64 {
    signed(false, a.pattern())
}

/// `a` with its sign bit flipped.
pub open spec fn negated(a: Binary64) -> Binary64 {
    signed(!a.negative(), a.pattern())
}

/// The larger number, or the one that is no NaN; `b` where they are equal.
pub open spec fn larger(a: Binary64, b: Binary64) -> Binary64 {
    if b.nan() || less(b, a) {
        a
    } else {
        b
    }
}

/// The smaller number, or the one that is no NaN; `b` where they are equal.
pub open spec fn smaller(a: Binary64, b: Binary64) -> Binary64 {
    if b.nan() || less(a, b) {
        a
    } else {
        b
    }
}

/// `a + b`, rounded once.
#[verifier::opaque]
pub open spec fn sum(a: Binary64, b: Binary64) -> Binary64 {
    if a.nan() || b.nan() {
        Binary64 { bits: NAN }
    } else if !a.finite() && !b.finite() {
        if a.negative() == b.negative() {
            a
        } else {
            Binary64 { bits: NAN }
        }
    } else if !a.finite() {
        a
    } else if !b.finite() {
        b
    } else {
        let exact = a.value() + b.value();
        if exact == 0 {
            signed(a.negative() && b.negative(), 0)
        } else if exact < 0 {
            signed(true, round_ratio(-exact, 1))
        } else {
            signed(false, round_ratio(exact, 1))
        }
    }
}

/// `a - b`, rounded once.
pub open spec fn difference(a: Binary64, b: Binary64) -> Binary64 {
    sum(a, negated(b))
}

/// `a * b`, rounded once.
#[verifier::opaque]
pub open spec fn product(a: Binary64, b: Binary64) -> Binary64 {
    let negative = a.negative() != b.negative();
    if a.nan() || b.nan() {
        Binary64 { bits: NAN }
    } else if !a.finite() || !b.finite() {
        if a.zero() || b.zero() {
            Binary64 { bits: NAN }
        } else {
            signed(negative, INFINITE as int)
        }
    } else {
        signed(negative, round_ratio(a.magnitude() * b.magnitude(), pow2(1074) as int))
    }
}

/// `a / b`, rounded once.
#[verifier::opaque]
pub open spec fn quotient(a: Binary64, b: Binary64) -> Binary64 {
    let negative = a.negative() != b.negative();
    if a.nan() || b.nan() || (!a.finite() && !b.finite()) || (a.zero() && b.zero()) {
        Binary64 { bits: NAN }
    } else if !a.finite() || b.zero() {
        signed(negative, INFINITE as int)
    } else if !b.finite() {
        signed(negative, 0)
    } else {
        signed(negative, round_ratio(a.magnitude() * pow2(1074), b.magnitude()))
    }
}

/// The square root of `a`, rounded once.
#[verifier::opaque]
pub open spec fn root(a: Binary64) -> Binary64 {
    if a.nan() || (a.negative() && !a.zero()) {
        Binary64 { bits: NAN }
    } else if a.zero() || !a.finite() {
        a
    } else {
        signed(false, round_root(a.magnitude() * pow2(1074)))
    }
}

/// The order of finite numbers is the order of the values they name.
pub proof fn lemma_order_of_values(a: Binary64, b: Binary64)
    requires
        a.finite(),
        b.finite(),
    ensures
        less(a, b) <==> a.value() < b.value(),
        at_most(a, b) <==> a.value() <= b.value(),
        same_number(a, b) <==> a.value() == b.value(),
{
    lemma_pattern_order(a, b);
    lemma_pattern_order(b, a);
    lemma_pattern_sign(a);
    lemma_pattern_sign(b);
}

proof fn lemma_pattern_order(a: Binary64, b: Binary64)
    ensures
        0 <= a.pattern(),
        0 <= b.pattern(),
        a.pattern() < b.pattern() <==> a.magnitude() < b.magnitude(),
        a.pattern() == b.pattern() ==> a.magnitude() == b.magnitude(),
{
    if a.pattern() < b.pattern() {
        lemma_magnitude_grows(a.pattern(), b.pattern());
    } else if b.pattern() < a.pattern() {
        lemma_magnitude_grows(b.pattern(), a.pattern());
    }
}

proof fn lemma_pattern_sign(a: Binary64)
    ensures
        a.zero() ==> a.magnitude() == 0,
        !a.zero() ==> 0 < a.magnitude(),
{
    lemma_magnitude_zero();
    if !a.zero() {
        lemma_magnitude_grows(0, a.pattern());
    }
}

/// A product is a NaN only where an operand is, or where a zero meets an infinity;
/// otherwise it has the sign of the factors.
pub proof fn lemma_product_sign(a: Binary64, b: Binary64)
    ensures
        product(a, b).nan() <==> a.nan() || b.nan() || (!a.finite() && b.zero()) || (a.zero()
            && !b.finite()),
        !product(a, b).nan() ==> product(a, b).negative() == (a.negative() != b.negative()),
        !a.finite() || !b.finite() ==> !product(a, b).finite(),
{
    reveal(product);
    if a.finite() && b.finite() {
        lemma_pattern_sign(a);
        lemma_pattern_sign(b);
        lemma_pow2_pos(1074);
        let x = a.magnitude();
        let y = b.magnitude();
        assert(0 <= x * y) by (nonlinear_arith)
            requires
                0 <= x,
                0 <= y,
        ;
        lemma_nearest_exists(x * y, pow2(1074) as int);
    }
}

/// A sum is a NaN only where an operand is, or where opposite infinities meet; with
/// one infinity it is infinite.
pub proof fn lemma_sum_kind(a: Binary64, b: Binary64)
    ensures
        sum(a, b).nan() <==> a.nan() || b.nan() || (!a.finite() && !b.finite() && a.negative()
            != b.negative()),
        !a.finite() || !b.finite() ==> !sum(a, b).finite(),
        a.finite() && b.finite() && !a.negative() && !b.negative() ==> !sum(a, b).negative(),
{
    reveal(sum);
    if a.finite() && b.finite() {
        lemma_pattern_sign(a);
        lemma_pattern_sign(b);
        let exact = a.value() + b.value();
        if exact < 0 {
            lemma_nearest_exists(-exact, 1);
        } else {
            lemma_nearest_exists(exact, 1);
        }
    }
}

/// The square root of the gap at one is `2^-26`.
pub proof fn lemma_root_of_epsilon()
    ensures
        root(Binary64 { bits: EPSILON }) == (Binary64 { bits: 0x3e50_0000_0000_0000 }),
{
    reveal(root);
    let half: int = 0x3e50_0000_0000_0000;
    let w = magnitude(half);
    lemma_magnitude_of_parts(970, HIDDEN as int);
    lemma_magnitude_of_parts(996, HIDDEN as int);
    lemma2_to64_rest();
    lemma_pow2_adds(52, 970);
    lemma_pow2_adds(52, 996);
    lemma_pow2_adds(1022, 1074);
    lemma_pow2_adds(1048, 1048);
    assert(magnitude(EPSILON as int) == pow2(1022));
    assert(w == pow2(1048));
    let p = magnitude(EPSILON as int) * pow2(1074);
    assert(p == w * w);
    lemma_magnitude_grows(half - 1, half);
    lemma_magnitude_grows(half, half + 1);
    let below = magnitude(half - 1);
    let above = magnitude(half + 1);
    assert((below + w) * (below + w) < 4 * p) by (nonlinear_arith)
        requires
            0 <= below < w,
            p == w * w,
    ;
    assert(4 * p < (w + above) * (w + above)) by (nonlinear_arith)
        requires
            0 <= w < above,
            p == w * w,
    ;
    lemma_round_root(p, half);
}

impl Binary64 {
    /// The number with the given bits.
    pub fn from_bits(bits: u64) -> (x: Binary64)
        ensures
            x == (Binary64 { bits }),
    {
        Binary64 { bits }
    }

    /// The bits of the number.
    pub fn to_bits(self) -> (bits: u64)
        ensures
            bits == self.bits,
    {
        self.bits
    }

    /// The bits below the sign, as an executable value.
    pub(crate) fn unsigned(self) -> (pattern: u64)
        ensures
            pattern == self.pattern(),
    {
        if self.bits < SIGN {
            self.bits
        } else {
            self.bits - SIGN
        }
    }

    /// Whether the sign bit is set.
    pub(crate) fn is_negative(self) -> (negative: bool)
        ensures
            negative == self.negative(),
    {
        SIGN <= self.bits
    }

    /// Whether the number is a NaN.
    pub fn is_nan(self) -> (nan: bool)
        ensures
            nan == self.nan(),
    {
        INFINITE < self.unsigned()
    }

    /// Whether the number is neither infinite nor a NaN.
    pub fn is_finite(self) -> (finite: bool)
        ensures
            finite == self.finite(),
    {
        self.unsigned() < INFINITE
    }

    /// Whether the number is finite and neither zero nor subnormal.
    pub fn is_normal(self) -> (r: bool)
        ensures
            r == normal(self),
    {
        HIDDEN <= self.unsigned() && self.is_finite()
    }

    /// Whether the number is less than `other`.
    pub fn is_less(self, other: Binary64) -> (r: bool)
        ensures
            r == less(self, other),
    {
        if self.is_nan() || other.is_nan() {
            return false;
        }
        if self.is_negative() {
            if other.is_negative() {
                other.unsigned() < self.unsigned()
            } else {
                0 < self.unsigned() || 0 < other.unsigned()
            }
        } else if other.is_negative() {
            false
        } else {
            self.unsigned() < other.unsigned()
        }
    }

    /// Whether the number is less than `other` or the same number.
    pub fn is_at_most(self, other: Binary64) -> (r: bool)
        ensures
            r == at_most(self, other),
    {
        if self.is_nan() || other.is_nan() {
            return false;
        }
        !other.is_less(self)
    }

    /// The number with the given sign and pattern, as an executable value.
    pub(crate) fn with_sign(negative: bool, pattern: u64) -> (x: Binary64)
        requires
            pattern < SIGN,
        ensures
            x == signed(negative, pattern as int),
    {
        if negative {
            Binary64 { bits: SIGN + pattern }
        } else {
            Binary64 { bits: pattern }
        }
    }

    /// The number with its sign bit cleared.
    pub fn abs(self) -> (x: Binary64)
        ensures
            x == absolute(self),
    {
        Binary64::with_sign(false, self.unsigned())
    }

    /// The number with its sign bit flipped.
    pub fn negate(self) -> (x: Binary64)
        ensures
            x == negated(self),
    {
        Binary64::with_sign(!self.is_negative(), self.unsigned())
    }

    /// The larger of two numbers; a NaN gives way to a number.
    pub fn max(self, other: Binary64) -> (x: Binary64)
        ensures
            x == larger(self, other),
    {
        if other.is_nan() || other.is_less(self) {
            self
        } else {
            other
        }
    }

    /// The smaller of two numbers; a NaN gives way to a number.
    pub fn min(self, other: Binary64) -> (x: Binary64)
        ensures
            x == smaller(self, other),
    {
        if other.is_nan() || self.is_less(other) {
            self
        } else {
            other
        }
    }
}

impl PartialEq for Binary64 {
    /// Whether the two are the same number: zeros of either sign are, NaNs never.
    fn eq(&self, other: &Binary64) -> (r: bool) {
        self.is_at_most(*other) && other.is_at_most(*self)
    }
}

impl vstd::std_specs::cmp::PartialEqSpecImpl for Binary64 {
    open spec fn obeys_eq_spec() -> bool {
        true
    }

    open spec fn eq_spec(&self, other: &Binary64) -> bool {
        same_number(*self, *other)
    }
}

} // verus!
