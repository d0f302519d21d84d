//! Nearest-even rounding onto the binary64 grid, stated over exact integers.
//!
//! A finite nonnegative binary64 number is named by its bit pattern `b`, and its
//! value is `magnitude(b)` times the smallest positive number, `2^-1074`. The
//! patterns grow with the values they name, so the neighbours of `b` on the grid
//! are `b - 1` and `b + 1`. The pattern of infinity stands one step above the
//! largest finite number, where a rounded value overflows to it.

use vstd::arithmetic::power2::{
    lemma_pow2_adds, lemma_pow2_pos, lemma_pow2_strictly_increases, lemma_pow2_unfold, pow2,
};
use vstd::prelude::*;

verus! {

/// `2^52`: one step of the exponent field.
pub const HIDDEN: u64 = 0x0010_0000_0000_0000;

/// `2^53`: the significands that a binary64 number can hold are below it.
pub const SIGNIFICANDS: u64 = 0x0020_0000_0000_0000;

/// The pattern of positive infinity.
pub const INFINITE: u64 = 0x7ff0_0000_0000_0000;

/// The value that the nonnegative pattern `b` names, in units of `2^-1074`.
#[verifier::opaque]
pub open spec fn magnitude(b: int) -> int {
    let exponent = b / (HIDDEN as int);
    let fraction = b % (HIDDEN as int);
    if exponent == 0 {
        fraction
    } else {
        (HIDDEN + fraction) * pow2((exponent - 1) as nat)
    }
}

/// Whether the pattern `b` is the grid point nearest to the exact nonnegative
/// value `p / q`, the even pattern of the two where `p / q` lies halfway.
pub open spec fn nearest(p: int, q: int, b: int) -> bool {
    &&& 0 <= b <= INFINITE
    &&& 0 < b ==> {
        let below = q * (magnitude(b - 1) + magnitude(b));
        below < 2 * p || (below == 2 * p && b % 2 == 0)
    }
    &&& b < INFINITE ==> {
        let above = q * (magnitude(b) + magnitude(b + 1));
        2 * p < above || (2 * p == above && b % 2 == 0)
    }
}

/// Whether the pattern `b` is the grid point nearest to the exact square root of
/// `p`, the even pattern of the two where it lies halfway.
pub open spec fn nearest_root(p: int, b: int) -> bool {
    &&& 0 <= b <= INFINITE
    &&& 0 < b ==> {
        let below = magnitude(b - 1) + magnitude(b);
        below * below < 4 * p || (below * below == 4 * p && b % 2 == 0)
    }
    &&& b < INFINITE ==> {
        let above = magnitude(b) + magnitude(b + 1);
        4 * p < above * above || (4 * p == above * above && b % 2 == 0)
    }
}

/// The pattern nearest to `p / q`.
pub open spec fn round_ratio(p: int, q: int) -> int {
    choose|b: int| nearest(p, q, b)
}

/// The pattern nearest to the square root of `p`.
pub open spec fn round_root(p: int) -> int {
    choose|b: int| nearest_root(p, b)
}

/// A significand `s` at exponent `u` is named by the pattern `u * 2^52 + s`.
pub proof fn lemma_magnitude_of_parts(u: nat, s: int)
    requires
        0 <= s <= SIGNIFICANDS,
        u == 0 || HIDDEN <= s,
    ensures
        magnitude(u * HIDDEN + s) == s * pow2(u),
{
    reveal(magnitude);
    let b = u * HIDDEN + s;
    lemma_pow2_unfold(u + 1);
    lemma_pow2_unfold(1);
    assert(pow2(0) == 1) by {
        lemma_pow2_unfold(1);
        vstd::arithmetic::power2::lemma2_to64();
    }
    if s < HIDDEN {
        assert(b / (HIDDEN as int) == 0);
        assert(b % (HIDDEN as int) == s);
    } else if s < SIGNIFICANDS {
        assert(b == (u + 1) * HIDDEN + (s - HIDDEN));
        assert(b / (HIDDEN as int) == u + 1);
        assert(b % (HIDDEN as int) == s - HIDDEN);
    } else {
        assert(b == (u + 2) * HIDDEN);
        assert(b / (HIDDEN as int) == u + 2);
        assert(b % (HIDDEN as int) == 0);
        let w = pow2(u) as int;
        assert(pow2((u + 1) as nat) == 2 * w);
        assert(HIDDEN * (2 * w) == SIGNIFICANDS * w) by (nonlinear_arith);
    }
}

/// The pattern of zero names zero.
pub proof fn lemma_magnitude_zero()
    ensures
        magnitude(0) == 0,
{
    lemma_magnitude_of_parts(0, 0);
    assert(0 * pow2(0) == 0) by (nonlinear_arith);
}

/// The exponent above the subnormal range that the pattern `b` carries.
pub open spec fn scale_of(b: int) -> int {
    if b < HIDDEN {
        0
    } else {
        b / (HIDDEN as int) - 1
    }
}

/// Neighbouring patterns differ by one unit of the lower one's scale.
pub proof fn lemma_magnitude_step(b: int)
    requires
        0 <= b,
    ensures
        0 <= scale_of(b),
        magnitude(b + 1) == magnitude(b) + pow2(scale_of(b) as nat),
        0 <= magnitude(b) < magnitude(b + 1),
        magnitude(b) == (b - scale_of(b) * HIDDEN) * pow2(scale_of(b) as nat),
        0 <= b - scale_of(b) * HIDDEN < SIGNIFICANDS,
        scale_of(b) == 0 || HIDDEN <= b - scale_of(b) * HIDDEN,
{
    let u = scale_of(b);
    let s = b - u * HIDDEN;
    assert(0 <= u);
    assert(0 <= s < SIGNIFICANDS && (u == 0 || HIDDEN <= s));
    lemma_magnitude_of_parts(u as nat, s);
    lemma_magnitude_of_parts(u as nat, s + 1);
    lemma_pow2_pos(u as nat);
    let w = pow2(u as nat) as int;
    assert((s + 1) * w == s * w + w) by (nonlinear_arith);
    assert(0 <= s * w) by (nonlinear_arith)
        requires
            0 <= s,
            0 < w,
    ;
}

/// Larger patterns name larger values.
pub proof fn lemma_magnitude_grows(a: int, b: int)
    requires
        0 <= a < b,
    ensures
        0 <= magnitude(a) < magnitude(b),
    decreases b - a,
{
    lemma_magnitude_step(b - 1);
    if a < b - 1 {
        lemma_magnitude_grows(a, b - 1);
    }
}

/// At most one pattern is nearest to a ratio.
pub proof fn lemma_nearest_unique(p: int, q: int, a: int, b: int)
    requires
        0 < q,
        nearest(p, q, a),
        nearest(p, q, b),
    ensures
        a == b,
{
    lemma_nearest_ordered(p, q, a, b);
    lemma_nearest_ordered(p, q, b, a);
}

proof fn lemma_nearest_ordered(p: int, q: int, a: int, b: int)
    requires
        0 < q,
        nearest(p, q, a),
        nearest(p, q, b),
    ensures
        b <= a,
{
    if a < b {
        let upper = magnitude(a) + magnitude(a + 1);
        let lower = magnitude(b - 1) + magnitude(b);
        lemma_magnitude_gap(a, b);
        assert(q * upper <= q * lower) by (nonlinear_arith)
            requires
                0 < q,
                upper <= lower,
        ;
        if a + 1 < b {
            assert(q * upper < q * lower) by (nonlinear_arith)
                requires
                    0 < q,
                    upper < lower,
            ;
        }
    }
}

proof fn lemma_magnitude_gap(a: int, b: int)
    requires
        0 <= a < b,
    ensures
        0 < magnitude(a) + magnitude(a + 1) <= magnitude(b - 1) + magnitude(b),
        a + 1 < b ==> magnitude(a) + magnitude(a + 1) < magnitude(b - 1) + magnitude(b),
{
    lemma_magnitude_step(a);
    if a + 1 < b {
        lemma_magnitude_grows(a, b - 1);
        lemma_magnitude_grows(a + 1, b);
    }
}

/// At most one pattern is nearest to a square root.
pub proof fn lemma_nearest_root_unique(p: int, a: int, b: int)
    requires
        nearest_root(p, a),
        nearest_root(p, b),
    ensures
        a == b,
{
    lemma_nearest_root_ordered(p, a, b);
    lemma_nearest_root_ordered(p, b, a);
}

proof fn lemma_nearest_root_ordered(p: int, a: int, b: int)
    requires
        nearest_root(p, a),
        nearest_root(p, b),
    ensures
        b <= a,
{
    if a < b {
        let upper = magnitude(a) + magnitude(a + 1);
        let lower = magnitude(b - 1) + magnitude(b);
        lemma_magnitude_gap(a, b);
        assert(upper * upper <= lower * lower) by (nonlinear_arith)
            requires
                0 <= upper <= lower,
        ;
        if a + 1 < b {
            assert(upper * upper < lower * lower) by (nonlinear_arith)
                requires
                    0 <= upper < lower,
            ;
        }
    }
}

/// Every nonnegative ratio has a nearest pattern.
pub proof fn lemma_nearest_exists(p: int, q: int)
    requires
        0 <= p,
        0 < q,
    ensures
        nearest(p, q, round_ratio(p, q)),
{
    lemma_nearest_from(p, q, 0);
}

proof fn lemma_nearest_from(p: int, q: int, b: int)
    requires
        0 < q,
        0 <= b <= INFINITE,
        0 < b ==> q * (magnitude(b - 1) + magnitude(b)) < 2 * p,
    ensures
        exists|c: int| nearest(p, q, c),
    decreases INFINITE - b,
{
    if b == INFINITE {
        assert(nearest(p, q, b));
    } else {
        let above = q * (magnitude(b) + magnitude(b + 1));
        if 2 * p < above || (2 * p == above && b % 2 == 0) {
            assert(nearest(p, q, b));
        } else if 2 * p == above {
            lemma_magnitude_gap(b, b + 2);
            let here = magnitude(b) + magnitude(b + 1);
            let next = magnitude(b + 1) + magnitude(b + 2);
            assert(q * here < q * next) by (nonlinear_arith)
                requires
                    0 < q,
                    here < next,
            ;
            assert(nearest(p, q, b + 1));
        } else {
            lemma_nearest_from(p, q, b + 1);
        }
    }
}

/// Every nonnegative number has a pattern nearest to its square root.
pub proof fn lemma_nearest_root_exists(p: int)
    requires
        0 <= p,
    ensures
        nearest_root(p, round_root(p)),
{
    lemma_nearest_root_from(p, 0);
}

proof fn lemma_nearest_root_from(p: int, b: int)
    requires
        0 <= b <= INFINITE,
        0 < b ==> (magnitude(b - 1) + magnitude(b)) * (magnitude(b - 1) + magnitude(b)) < 4 * p,
    ensures
        exists|c: int| nearest_root(p, c),
    decreases INFINITE - b,
{
    if b == INFINITE {
        assert(nearest_root(p, b));
    } else {
        let here = magnitude(b) + magnitude(b + 1);
        let above = here * here;
        if 4 * p < above || (4 * p == above && b % 2 == 0) {
            assert(nearest_root(p, b));
        } else if 4 * p == above {
            lemma_magnitude_gap(b, b + 2);
            let next = magnitude(b + 1) + magnitude(b + 2);
            assert(here * here < next * next) by (nonlinear_arith)
                requires
                    0 < here < next,
            ;
            assert(nearest_root(p, b + 1));
        } else {
            lemma_nearest_root_from(p, b + 1);
        }
    }
}

/// Rounding keeps the order of ratios.
pub proof fn lemma_round_ratio_ordered(p: int, q: int, r: int, t: int)
    requires
        0 <= p,
        0 <= r,
        0 < q,
        0 < t,
        p * t <= r * q,
    ensures
        0 <= round_ratio(p, q) <= round_ratio(r, t) <= INFINITE,
{
    lemma_nearest_exists(p, q);
    lemma_nearest_exists(r, t);
    let a = round_ratio(p, q);
    let b = round_ratio(r, t);
    if b < a {
        let low = magnitude(b) + magnitude(b + 1);
        let high = magnitude(a - 1) + magnitude(a);
        lemma_magnitude_gap(b, a);
        let u = q * high;
        let v = t * low;
        assert(q * t * high <= q * t * low && (u < 2 * p || 2 * r < v ==> q * t * high < q * t
            * low)) by (nonlinear_arith)
            requires
                0 < q,
                0 < t,
                u == q * high,
                v == t * low,
                u <= 2 * p,
                2 * r <= v,
                p * t <= r * q,
        ;
        assert(high <= low) by (nonlinear_arith)
            requires
                0 < q,
                0 < t,
                q * t * high <= q * t * low,
        ;
    }
}

/// Rounding keeps the order of square roots.
pub proof fn lemma_round_root_ordered(p: int, r: int)
    requires
        0 <= p <= r,
    ensures
        0 <= round_root(p) <= round_root(r) <= INFINITE,
{
    lemma_nearest_root_exists(p);
    lemma_nearest_root_exists(r);
    let a = round_root(p);
    let b = round_root(r);
    if b < a {
        let low = magnitude(b) + magnitude(b + 1);
        let high = magnitude(a - 1) + magnitude(a);
        lemma_magnitude_gap(b, a);
        assert(low * low <= high * high && (low < high ==> low * low < high * high))
            by (nonlinear_arith)
            requires
                0 < low <= high,
        ;
    }
}

/// A grid point is its own nearest grid point.
pub proof fn lemma_round_grid_point(b: int)
    requires
        0 <= b < INFINITE,
    ensures
        round_ratio(magnitude(b), 1) == b,
{
    lemma_magnitude_step(b);
    if 0 < b {
        lemma_magnitude_step(b - 1);
    }
    lemma_round_ratio(magnitude(b), 1, b);
}

/// A pattern that is nearest to a ratio is the rounded ratio.
pub proof fn lemma_round_ratio(p: int, q: int, b: int)
    requires
        0 < q,
        nearest(p, q, b),
    ensures
        round_ratio(p, q) == b,
{
    lemma_nearest_unique(p, q, round_ratio(p, q), b);
}

/// A pattern that is nearest to a square root is the rounded root.
pub proof fn lemma_round_root(p: int, b: int)
    requires
        nearest_root(p, b),
    ensures
        round_root(p) == b,
{
    lemma_nearest_root_unique(p, round_root(p), b);
}

/// Which of the grid points `s` and `s + 1` at exponent `u` a ratio between them
/// is nearest to.
proof fn lemma_nearest_of_two(p: int, q: int, u: nat, s: int)
    requires
        0 < q,
        0 <= s < SIGNIFICANDS,
        u == 0 || HIDDEN <= s,
        u * HIDDEN + s < INFINITE,
        s * pow2(u) * q <= p < (s + 1) * pow2(u) * q,
    ensures
        2 * p < (2 * s + 1) * pow2(u) * q ==> nearest(p, q, u * HIDDEN + s),
        2 * p == (2 * s + 1) * pow2(u) * q && s % 2 == 0 ==> nearest(p, q, u * HIDDEN + s),
        2 * p == (2 * s + 1) * pow2(u) * q && s % 2 == 1 ==> nearest(p, q, u * HIDDEN + s + 1),
        2 * p > (2 * s + 1) * pow2(u) * q ==> nearest(p, q, u * HIDDEN + s + 1),
{
    let b = u * HIDDEN + s;
    let w = pow2(u) as int;
    lemma_pow2_pos(u);
    lemma_magnitude_of_parts(u, s);
    lemma_magnitude_of_parts(u, s + 1);
    assert(b % 2 == s % 2);
    assert((b + 1) % 2 != b % 2);
    let lo = magnitude(b);
    let hi = magnitude(b + 1);
    assert(q * (lo + hi) == (2 * s + 1) * w * q) by (nonlinear_arith)
        requires
            lo == s * w,
            hi == (s + 1) * w,
    ;
    assert(q * lo <= p) by (nonlinear_arith)
        requires
            lo == s * w,
            s * w * q <= p,
    ;
    assert(p < q * hi) by (nonlinear_arith)
        requires
            hi == (s + 1) * w,
            p < (s + 1) * w * q,
    ;
    if 0 < b {
        lemma_magnitude_grows(b - 1, b);
        let before = magnitude(b - 1);
        assert(q * (before + lo) < 2 * p) by (nonlinear_arith)
            requires
                before < lo,
                0 < q,
                q * lo <= p,
        ;
    }
    lemma_magnitude_grows(b + 1, b + 2);
    let after = magnitude(b + 2);
    assert(2 * p < q * (hi + after)) by (nonlinear_arith)
        requires
            hi < after,
            0 < q,
            p < q * hi,
    ;
}

/// Which of the grid points `s` and `s + 1` at exponent `u` a square root between
/// them is nearest to.
proof fn lemma_nearest_root_of_two(p: int, u: nat, s: int)
    requires
        0 <= s < SIGNIFICANDS,
        u == 0 || HIDDEN <= s,
        u * HIDDEN + s < INFINITE,
        (s * pow2(u)) * (s * pow2(u)) <= p < ((s + 1) * pow2(u)) * ((s + 1) * pow2(u)),
    ensures
        ({
            let middle = (2 * s + 1) * pow2(u);
            &&& 4 * p < middle * middle ==> nearest_root(p, u * HIDDEN + s)
            &&& 4 * p == middle * middle && s % 2 == 0 ==> nearest_root(p, u * HIDDEN + s)
            &&& 4 * p == middle * middle && s % 2 == 1 ==> nearest_root(p, u * HIDDEN + s + 1)
            &&& 4 * p > middle * middle ==> nearest_root(p, u * HIDDEN + s + 1)
        }),
{
    let b = u * HIDDEN + s;
    let w = pow2(u) as int;
    lemma_pow2_pos(u);
    lemma_magnitude_of_parts(u, s);
    lemma_magnitude_of_parts(u, s + 1);
    assert(b % 2 == s % 2);
    assert((b + 1) % 2 != b % 2);
    let lo = magnitude(b);
    let hi = magnitude(b + 1);
    lemma_magnitude_step(b);
    assert(lo + hi == (2 * s + 1) * w) by (nonlinear_arith)
        requires
            lo == s * w,
            hi == (s + 1) * w,
    ;
    if 0 < b {
        lemma_magnitude_grows(b - 1, b);
        let before = magnitude(b - 1);
        assert((before + lo) * (before + lo) < 4 * p) by (nonlinear_arith)
            requires
                0 <= before < lo,
                lo * lo <= p,
        ;
    }
    lemma_magnitude_grows(b + 1, b + 2);
    let after = magnitude(b + 2);
    assert(4 * p < (hi + after) * (hi + after)) by (nonlinear_arith)
        requires
            0 <= hi < after,
            p < hi * hi,
    ;
}

/// Two to a power, as an executable value.
pub fn power_of_two(d: u32) -> (w: u128)
    requires
        d < 128,
    ensures
        w == pow2(d as nat),
{
    let top: u128 = 0x8000_0000_0000_0000_0000_0000_0000_0000;
    let shift: u128 = (127 - d) as u128;
    proof {
        lemma_top_bit();
        vstd::bits::lemma_u128_shr_is_div(top, shift);
        vstd::arithmetic::power2::lemma_pow2_subtracts(shift as nat, 127);
        assert((127 - shift) as nat == d as nat);
    }
    top >> shift
}

proof fn lemma_top_bit()
    ensures
        pow2(127) == 0x8000_0000_0000_0000_0000_0000_0000_0000,
        pow2(52) == HIDDEN,
        pow2(53) == SIGNIFICANDS,
        pow2(0) == 1,
{
    vstd::arithmetic::power2::lemma2_to64();
    vstd::arithmetic::power2::lemma2_to64_rest();
    lemma_pow2_adds(63, 64);
    assert(0x8000_0000_0000_0000 * 0x1_0000_0000_0000_0000
        == 0x8000_0000_0000_0000_0000_0000_0000_0000int) by (nonlinear_arith);
}

/// The number of bits that a positive integer takes.
fn bit_length(m: u128) -> (n: u32)
    requires
        0 < m,
    ensures
        1 <= n <= 128,
        pow2((n - 1) as nat) <= m < pow2(n as nat),
{
    let mut t: u128 = m;
    let mut n: u32 = 1;
    proof {
        lemma_top_bit();
        lemma_pow2_unfold(128);
        let w = pow2((n - 1) as nat);
        assert(t * w == t && (t + 1) * w == t + 1) by (nonlinear_arith)
            requires
                w == 1,
        ;
    }
    while 1 < t
        invariant
            0 < t,
            1 <= n <= 128,
            t < pow2((129 - n) as nat),
            t * pow2((n - 1) as nat) <= m < (t + 1) * pow2((n - 1) as nat),
        decreases t,
    {
        proof {
            lemma_top_bit();
            let w = pow2((n - 1) as nat) as int;
            let h = (t / 2) as int;
            lemma_pow2_pos((n - 1) as nat);
            lemma_pow2_unfold(n as nat);
            lemma_pow2_unfold((129 - n) as nat);
            lemma_pow2_unfold(1);
            assert(h * (2 * w) <= m) by (nonlinear_arith)
                requires
                    2 * h <= t,
                    0 < w,
                    t * w <= m,
            ;
            assert(m < (h + 1) * (2 * w)) by (nonlinear_arith)
                requires
                    t + 1 <= 2 * h + 2,
                    0 < w,
                    m < (t + 1) * w,
            ;
        }
        t = t / 2;
        n = n + 1;
    }
    proof {
        lemma_pow2_unfold(n as nat);
    }
    n
}

/// A pattern, or infinity where it lies past the largest finite number.
pub open spec fn capped(b: int) -> int {
    if b < INFINITE {
        b
    } else {
        INFINITE as int
    }
}

/// Whether `m`, or a value strictly between `m` and `m + 1` where `inexact`, lies
/// past the middle of `s * w` and `(s + 1) * w`, or on it with `s` odd.
pub open spec fn rounds_up(m: int, inexact: bool, w: int, s: int) -> bool {
    ||| (2 * s + 1) * w < 2 * m
    ||| (2 * s + 1) * w == 2 * m && (inexact || s % 2 == 1)
}

/// Whether `b` is the pattern that `m * 2^e`, or a value strictly between it and
/// `(m + 1) * 2^e` where `inexact`, rounds to from the significand `s` at
/// exponent `u`.
pub open spec fn settled_at(m: int, e: int, inexact: bool, u: nat, s: int, b: int) -> bool {
    let base = u * HIDDEN + s;
    &&& 0 <= s < SIGNIFICANDS
    &&& u == 0 || HIDDEN <= s
    &&& if u <= e {
        &&& !inexact
        &&& s == m * pow2((e - u) as nat)
        &&& b == capped(base)
    } else {
        let w = pow2((u - e) as nat) as int;
        &&& s * w <= m < (s + 1) * w
        &&& b == capped(
            if rounds_up(m, inexact, w, s) {
                base + 1
            } else {
                base
            },
        )
    }
}

/// Whether `b` is the pattern that `m * 2^e`, or a value strictly between it and
/// `(m + 1) * 2^e` where `inexact`, rounds to.
pub open spec fn settles(m: int, e: int, inexact: bool, b: int) -> bool {
    exists|u: nat, s: int| #[trigger] settled_at(m, e, inexact, u, s, b)
}

/// Round a positive integer times a power of two, and possibly a little more.
pub fn settle(m: u128, e: i64, inexact: bool) -> (b: u64)
    requires
        0 < m < 0x8000_0000_0000_0000_0000_0000_0000_0000,
        -4000 <= e <= 4000,
        inexact ==> SIGNIFICANDS <= m,
    ensures
        b <= INFINITE,
        settles(m as int, e as int, inexact, b as int),
{
    let n: i64 = bit_length(m) as i64;
    proof {
        lemma_top_bit();
        if inexact && n <= 53 {
            lemma_pow2_grows(n as nat, 53);
        }
        if 128 <= n {
            lemma_pow2_grows(127, (n - 1) as nat);
        }
    }
    let u: i64 = if 53 < n + e {
        n + e - 53
    } else {
        0
    };
    if u <= e {
        let shift: i64 = e - u;
        proof {
            lemma_pow2_grows((n + shift) as nat, 53);
            lemma_pow2_adds(n as nat, shift as nat);
            lemma_pow2_pos(shift as nat);
            assert(m * pow2(shift as nat) < pow2(n as nat) * pow2(shift as nat))
                by (nonlinear_arith)
                requires
                    m < pow2(n as nat),
                    0 < pow2(shift as nat),
            ;
            if 0 < u {
                lemma_pow2_adds((n - 1) as nat, shift as nat);
                assert((n - 1 + shift) as nat == 52);
                assert(pow2((n - 1) as nat) * pow2(shift as nat) <= m * pow2(shift as nat))
                    by (nonlinear_arith)
                    requires
                        pow2((n - 1) as nat) <= m,
                        0 < pow2(shift as nat),
                ;
            }
        }
        let s: u128 = m * power_of_two(shift as u32);
        let b: u64 = join(u, s as u64, false);
        assert(settled_at(m as int, e as int, inexact, u as nat, s as int, b as int));
        b
    } else {
        let d: i64 = u - e;
        if 128 <= d {
            proof {
                lemma_pow2_unfold(128);
                lemma_pow2_grows(128, d as nat);
                let w = pow2(d as nat) as int;
                assert(0 * w == 0 && (0 + 1) * w == w && (2 * 0 + 1) * w == w) by (nonlinear_arith);
                assert(settled_at(m as int, e as int, inexact, 0, 0, 0));
            }
            0
        } else {
            let w: u128 = power_of_two(d as u32);
            proof {
                lemma_settle_split(m as int, n as int, e as int, u as int, w as int);
            }
            let s: u128 = m / w;
            let r: u128 = m % w;
            let half: u128 = w / 2;
            let up: bool = half < r || (half == r && (inexact || s % 2 == 1));
            proof {
                lemma_pow2_unfold(d as nat);
                assert(m == s * w + r) by {
                    vstd::arithmetic::div_mod::lemma_fundamental_div_mod(m as int, w as int);
                    assert(w * s == s * w) by (nonlinear_arith);
                }
                assert((2 * s + 1) * w == 2 * (s * w) + w) by (nonlinear_arith);
                assert((s + 1) * w == s * w + w) by (nonlinear_arith);
                assert(up == rounds_up(m as int, inexact, w as int, s as int));
            }
            let b: u64 = join(u, s as u64, up);
            assert(settled_at(m as int, e as int, inexact, u as nat, s as int, b as int));
            b
        }
    }
}

/// The pattern of the significand `s` at exponent `u`, or of the next one up.
fn join(u: i64, s: u64, up: bool) -> (b: u64)
    requires
        0 <= u,
        s < SIGNIFICANDS,
        u == 0 || HIDDEN <= s,
    ensures
        b == capped(
            u * HIDDEN + s + if up {
                1int
            } else {
                0
            },
        ),
{
    if 2047 <= u {
        return INFINITE;
    }
    let b: u64 = (u as u64) * HIDDEN + s + if up {
        1
    } else {
        0
    };
    if b < INFINITE {
        b
    } else {
        INFINITE
    }
}

proof fn lemma_pow2_grows(a: nat, b: nat)
    requires
        a <= b,
    ensures
        0 < pow2(a) <= pow2(b),
{
    lemma_pow2_pos(a);
    if a < b {
        lemma_pow2_strictly_increases(a, b);
    }
}

proof fn lemma_settle_split(m: int, n: int, e: int, u: int, w: int)
    requires
        1 <= n <= 127,
        pow2((n - 1) as nat) <= m < pow2(n as nat),
        u == if 53 < n + e {
            n + e - 53
        } else {
            0
        },
        e < u,
        w == pow2((u - e) as nat),
    ensures
        0 < w,
        0 <= m / w < SIGNIFICANDS,
        u == 0 || HIDDEN <= m / w,
{
    let d = u - e;
    lemma_top_bit();
    lemma_pow2_pos(d as nat);
    lemma_pow2_pos((n - 1) as nat);
    lemma_pow2_adds(53, d as nat);
    lemma_pow2_grows(n as nat, (53 + d) as nat);
    assert(m / w < SIGNIFICANDS && 0 <= m / w) by (nonlinear_arith)
        requires
            0 < w,
            0 <= m < SIGNIFICANDS * w,
    ;
    if 0 < u {
        lemma_pow2_adds(52, d as nat);
        assert((n - 1) as nat == 52 + d as nat);
        assert(HIDDEN <= m / w) by (nonlinear_arith)
            requires
                0 < w,
                HIDDEN * w <= m,
        ;
    }
}

/// Whether the ratio `p / q` is `m * 2^e`, or strictly between it and
/// `(m + 1) * 2^e` where `inexact`.
pub open spec fn brackets_ratio(m: int, e: int, inexact: bool, p: int, q: int) -> bool {
    let up = pow2(
        if e < 0 {
            0
        } else {
            e as nat
        },
    ) as int;
    let down = pow2(
        if e < 0 {
            (-e) as nat
        } else {
            0
        },
    ) as int;
    if inexact {
        m * (up * q) < p * down < (m + 1) * (up * q)
    } else {
        p * down == m * (up * q)
    }
}

/// What a significand settles to is nearest to every ratio that it brackets.
pub proof fn lemma_settles_ratio(m: int, e: int, inexact: bool, b: int, p: int, q: int)
    requires
        0 < q,
        0 < m,
        settles(m, e, inexact, b),
        brackets_ratio(m, e, inexact, p, q),
    ensures
        nearest(p, q, b),
{
    let (u, s) = choose|u: nat, s: int| settled_at(m, e, inexact, u, s, b);
    let rise: nat = if e < 0 {
        0
    } else {
        e as nat
    };
    let drop: nat = if e < 0 {
        (-e) as nat
    } else {
        0
    };
    let up = pow2(rise) as int;
    let down = pow2(drop) as int;
    let g = pow2(u) as int;
    lemma_pow2_pos(rise);
    lemma_pow2_pos(drop);
    lemma_pow2_pos(u);
    if u <= e {
        lemma_top_bit();
        lemma_pow2_adds((e - u) as nat, u);
        let k = pow2((e - u) as nat) as int;
        assert(p == s * g * q) by (nonlinear_arith)
            requires
                p * down == m * (up * q),
                down == 1,
                up == k * g,
                s == m * k,
        ;
        assert(s * g * q < (s + 1) * g * q && 2 * (s * g * q) < (2 * s + 1) * g * q)
            by (nonlinear_arith)
            requires
                0 < g,
                0 < q,
        ;
    } else {
        let d = (u - e) as nat;
        let w = pow2(d) as int;
        lemma_pow2_adds(u, drop);
        lemma_pow2_adds(d, rise);
        assert(u + drop == d + rise);
        assert(g * down == w * up);
        let y = up * q;
        assert(0 < y) by (nonlinear_arith)
            requires
                0 < up,
                0 < q,
                y == up * q,
        ;
        lemma_rescale(s, g, q, down, w, up);
        lemma_rescale(s + 1, g, q, down, w, up);
        lemma_rescale(2 * s + 1, g, q, down, w, up);
        let pd = p * down;
        assert(m * y <= pd < (m + 1) * y) by (nonlinear_arith)
            requires
                0 < y,
                m * y == pd || m * y < pd < (m + 1) * y,
        ;
        assert((s * g * q) * down <= pd) by (nonlinear_arith)
            requires
                (s * g * q) * down == (s * w) * y,
                s * w <= m,
                0 < y,
                m * y <= pd,
        ;
        assert(pd < ((s + 1) * g * q) * down) by (nonlinear_arith)
            requires
                ((s + 1) * g * q) * down == ((s + 1) * w) * y,
                m + 1 <= (s + 1) * w,
                0 < y,
                pd < (m + 1) * y,
        ;
        lemma_cancel(s * g * q, p, down);
        lemma_cancel_strict(p, (s + 1) * g * q, down);
        lemma_middle(m, inexact, pd, y, w, s, d);
        assert((2 * p) * down == 2 * pd) by (nonlinear_arith)
            requires
                pd == p * down,
        ;
        let middle = (2 * s + 1) * g * q;
        if 2 * pd < ((2 * s + 1) * w) * y {
            lemma_cancel_strict(2 * p, middle, down);
        } else if 2 * pd > ((2 * s + 1) * w) * y {
            lemma_cancel_strict(middle, 2 * p, down);
        } else {
            lemma_cancel(middle, 2 * p, down);
            lemma_cancel(2 * p, middle, down);
        }
    }
    if u * HIDDEN + s < INFINITE {
        lemma_nearest_of_two(p, q, u, s);
    } else {
        lemma_nearest_overflow(p, q, u, s);
    }
}

proof fn lemma_rescale(c: int, g: int, q: int, down: int, w: int, up: int)
    requires
        g * down == w * up,
    ensures
        (c * g * q) * down == (c * w) * (up * q),
{
    assert((c * g * q) * down == c * (g * down) * q) by (nonlinear_arith);
    assert(c * (w * up) * q == (c * w) * (up * q)) by (nonlinear_arith);
}

proof fn lemma_cancel(a: int, b: int, k: int)
    requires
        0 < k,
        a * k <= b * k,
    ensures
        a <= b,
{
    assert(a <= b) by (nonlinear_arith)
        requires
            0 < k,
            a * k <= b * k,
    ;
}

proof fn lemma_cancel_strict(a: int, b: int, k: int)
    requires
        0 < k,
        a * k < b * k,
    ensures
        a < b,
{
    assert(a < b) by (nonlinear_arith)
        requires
            0 < k,
            a * k < b * k,
    ;
}

/// A value bracketed by `m` and `m + 1` compares with the middle of `s * w` and
/// `(s + 1) * w` as `rounds_up` says, in units of `y`.
proof fn lemma_middle(m: int, inexact: bool, x: int, y: int, w: int, s: int, d: nat)
    requires
        0 < d,
        w == pow2(d),
        0 < y,
        if inexact {
            m * y < x < (m + 1) * y
        } else {
            x == m * y
        },
    ensures
        rounds_up(m, inexact, w, s) && s % 2 == 0 ==> 2 * x > ((2 * s + 1) * w) * y,
        rounds_up(m, inexact, w, s) && s % 2 == 1 ==> 2 * x >= ((2 * s + 1) * w) * y,
        !rounds_up(m, inexact, w, s) && s % 2 == 0 ==> 2 * x <= ((2 * s + 1) * w) * y,
        !rounds_up(m, inexact, w, s) && s % 2 == 1 ==> 2 * x < ((2 * s + 1) * w) * y,
{
    lemma_pow2_unfold(d);
    let h = pow2((d - 1) as nat) as int;
    let c = (2 * s + 1) * w;
    let a = (2 * s + 1) * h;
    assert(c == 2 * a) by (nonlinear_arith)
        requires
            c == (2 * s + 1) * w,
            a == (2 * s + 1) * h,
            w == 2 * h,
    ;
    assert(m < a ==> 2 * x < c * y) by (nonlinear_arith)
        requires
            c == 2 * a,
            0 < y,
            x < (m + 1) * y || x == m * y,
    ;
    assert(a < m ==> c * y < 2 * x) by (nonlinear_arith)
        requires
            c == 2 * a,
            0 < y,
            m * y <= x,
    ;
    assert(a == m && inexact ==> c * y < 2 * x) by (nonlinear_arith)
        requires
            c == 2 * a,
            0 < y,
            inexact ==> m * y < x,
    ;
    assert(a == m && !inexact ==> c * y == 2 * x) by (nonlinear_arith)
        requires
            c == 2 * a,
            !inexact ==> m * y == x,
    ;
}

/// A ratio past the largest finite number by a full step rounds to infinity.
proof fn lemma_nearest_overflow(p: int, q: int, u: nat, s: int)
    requires
        0 < q,
        0 <= s < SIGNIFICANDS,
        u == 0 || HIDDEN <= s,
        INFINITE <= u * HIDDEN + s,
        s * pow2(u) * q <= p,
    ensures
        nearest(p, q, INFINITE as int),
{
    let b = u * HIDDEN + s;
    let top = magnitude(INFINITE as int);
    let before = magnitude(INFINITE - 1);
    let here = magnitude(b);
    lemma_magnitude_of_parts(u, s);
    lemma_magnitude_grows(INFINITE - 1, INFINITE as int);
    if INFINITE < b {
        lemma_magnitude_grows(INFINITE as int, b);
    }
    assert(q * (before + top) < 2 * p) by (nonlinear_arith)
        requires
            0 < q,
            before < top <= here,
            here * q <= p,
    ;
}

/// Whether the square root of `p` is `m * 2^e`, or strictly between it and
/// `(m + 1) * 2^e` where `inexact`.
pub open spec fn brackets_root(m: int, e: int, inexact: bool, p: int) -> bool {
    let up = pow2(
        if e < 0 {
            0
        } else {
            e as nat
        },
    ) as int;
    let down = pow2(
        if e < 0 {
            (-e) as nat
        } else {
            0
        },
    ) as int;
    if inexact {
        (m * up) * (m * up) < p * (down * down) < ((m + 1) * up) * ((m + 1) * up)
    } else {
        p * (down * down) == (m * up) * (m * up)
    }
}

/// What a wide significand settles to is nearest to every square root that it
/// brackets.
pub proof fn lemma_settles_root(m: int, e: int, inexact: bool, b: int, p: int)
    requires
        SIGNIFICANDS <= m,
        settles(m, e, inexact, b),
        brackets_root(m, e, inexact, p),
    ensures
        nearest_root(p, b),
{
    let (u, s) = choose|u: nat, s: int| settled_at(m, e, inexact, u, s, b);
    let rise: nat = if e < 0 {
        0
    } else {
        e as nat
    };
    let drop: nat = if e < 0 {
        (-e) as nat
    } else {
        0
    };
    let up = pow2(rise) as int;
    let down = pow2(drop) as int;
    let g = pow2(u) as int;
    lemma_pow2_pos(rise);
    lemma_pow2_pos(drop);
    lemma_pow2_pos(u);
    if u <= e {
        lemma_pow2_pos((e - u) as nat);
        let k = pow2((e - u) as nat) as int;
        assert(m <= m * k) by (nonlinear_arith)
            requires
                0 < m,
                0 < k,
        ;
    } else {
        let d = (u - e) as nat;
        let w = pow2(d) as int;
        lemma_pow2_pos(d);
        lemma_pow2_adds(u, drop);
        lemma_pow2_adds(d, rise);
        assert(u + drop == d + rise);
        assert(g * down == w * up);
        let k = down * down;
        let x = p * k;
        assert(0 < k) by (nonlinear_arith)
            requires
                0 < down,
                k == down * down,
        ;
        lemma_square_between(m, m + 1, up);
        assert((m * up) * (m * up) <= x < ((m + 1) * up) * ((m + 1) * up));
        assert(0 <= s * w) by (nonlinear_arith)
            requires
                0 <= s,
                0 < w,
        ;
        lemma_square_rescale(s, g, down, w, up);
        lemma_square_rescale(s + 1, g, down, w, up);
        lemma_square_rescale(2 * s + 1, g, down, w, up);
        lemma_square_ordered(s * w, m, up);
        lemma_square_ordered(m + 1, (s + 1) * w, up);
        lemma_cancel((s * g) * (s * g), p, k);
        lemma_cancel_strict(p, ((s + 1) * g) * ((s + 1) * g), k);
        lemma_pow2_unfold(d);
        let h = pow2((d - 1) as nat) as int;
        let a = (2 * s + 1) * h;
        assert((2 * s + 1) * w == 2 * a) by (nonlinear_arith)
            requires
                a == (2 * s + 1) * h,
                w == 2 * h,
        ;
        lemma_pow2_pos((d - 1) as nat);
        assert(0 < a) by (nonlinear_arith)
            requires
                0 <= s,
                0 < h,
                a == (2 * s + 1) * h,
        ;
        assert(((2 * a) * up) * ((2 * a) * up) == 4 * ((a * up) * (a * up))) by (nonlinear_arith);
        let middle = ((2 * s + 1) * g) * ((2 * s + 1) * g);
        assert(middle * k == 4 * ((a * up) * (a * up)));
        assert((4 * p) * k == 4 * x) by (nonlinear_arith)
            requires
                x == p * k,
        ;
        if m < a {
            lemma_square_ordered(m + 1, a, up);
            lemma_cancel_strict(4 * p, middle, k);
        } else if a < m {
            lemma_square_between(a, m, up);
            lemma_cancel_strict(middle, 4 * p, k);
        } else if inexact {
            lemma_cancel_strict(middle, 4 * p, k);
        } else {
            lemma_cancel(middle, 4 * p, k);
            lemma_cancel(4 * p, middle, k);
        }
        if u * HIDDEN + s < INFINITE {
            lemma_nearest_root_of_two(p, u, s);
        } else {
            lemma_nearest_root_overflow(p, u, s);
        }
    }
}

proof fn lemma_square_rescale(c: int, g: int, down: int, w: int, up: int)
    requires
        g * down == w * up,
    ensures
        ((c * g) * (c * g)) * (down * down) == ((c * w) * up) * ((c * w) * up),
{
    assert(((c * g) * (c * g)) * (down * down) == (c * (g * down)) * (c * (g * down)))
        by (nonlinear_arith);
    assert(c * (w * up) == (c * w) * up) by (nonlinear_arith);
}

proof fn lemma_square_ordered(a: int, b: int, k: int)
    requires
        0 <= a <= b,
        0 < k,
    ensures
        (a * k) * (a * k) <= (b * k) * (b * k),
{
    assert(0 <= a * k <= b * k) by (nonlinear_arith)
        requires
            0 <= a <= b,
            0 < k,
    ;
    let x = a * k;
    let y = b * k;
    assert(x * x <= y * y) by (nonlinear_arith)
        requires
            0 <= x <= y,
    ;
}

proof fn lemma_square_between(a: int, b: int, k: int)
    requires
        0 <= a < b,
        0 < k,
    ensures
        (a * k) * (a * k) < (b * k) * (b * k),
{
    assert(0 <= a * k < b * k) by (nonlinear_arith)
        requires
            0 <= a < b,
            0 < k,
    ;
    let x = a * k;
    let y = b * k;
    assert(x * x < y * y) by (nonlinear_arith)
        requires
            0 <= x < y,
    ;
}

/// A square root past the largest finite number by a full step rounds to infinity.
proof fn lemma_nearest_root_overflow(p: int, u: nat, s: int)
    requires
        0 <= s < SIGNIFICANDS,
        u == 0 || HIDDEN <= s,
        INFINITE <= u * HIDDEN + s,
        (s * pow2(u)) * (s * pow2(u)) <= p,
    ensures
        nearest_root(p, INFINITE as int),
{
    let b = u * HIDDEN + s;
    let top = magnitude(INFINITE as int);
    let before = magnitude(INFINITE - 1);
    let here = magnitude(b);
    lemma_magnitude_of_parts(u, s);
    lemma_magnitude_grows(INFINITE - 1, INFINITE as int);
    if INFINITE < b {
        lemma_magnitude_grows(INFINITE as int, b);
    }
    assert((before + top) * (before + top) < 4 * p) by (nonlinear_arith)
        requires
            0 <= before < top <= here,
            here * here <= p,
    ;
}

} // verus!
