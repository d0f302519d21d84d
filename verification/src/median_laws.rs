//! What the evidence of a window of samples is, by counting.

use crate::binary64::{
    absolute, at_most, difference, larger, lemma_product_sign, lemma_sum_kind, less, negated,
    product, sum, Binary64, EPSILON, HALF, ONE, TWO,
};
use crate::nearness::{
    largest, lemma_constants, lemma_difference_near, lemma_number_order, lemma_number_size, lemma_number_sum_beside,
    lemma_product_beside, lemma_product_finite, lemma_product_near, lemma_sum_near, number, roundoff, size, underflow,
    unit,
};
use crate::order::{lemma_pattern_magnitude, lemma_product_with_two, lemma_sum_commutes};
use crate::prediction_laws::{lemma_largest, lemma_number_of_power, lemma_small_numbers};
use crate::probe::{
    bit_order, distance, halfway, median, probe_scale, radius, value_differences, value_rounding,
    Sample,
};
use crate::rounding::{
    lemma_magnitude_grows, lemma_magnitude_step, lemma_nearest_exists, magnitude, round_ratio,
    INFINITE, SIGNIFICANDS,
};
use crate::sample_laws::law_floor_is_the_needed_progress;
use crate::second_order_laws::lemma_halved;
use crate::stall_laws::law_probe_scale_is_evidence;
use crate::tolerance_laws::lemma_times;
use vstd::arithmetic::power2::{lemma2_to64_rest, lemma_pow2_adds, lemma_pow2_pos, pow2};
use vstd::prelude::*;
use vstd::relations::total_ordering;
use vstd::seq_lib::group_to_multiset_ensures;

verus! {

/// How many of the numbers satisfy `p`.
pub open spec fn tally(numbers: Seq<Binary64>, p: spec_fn(Binary64) -> bool) -> nat
    decreases numbers.len(),
{
    if numbers.len() == 0 {
        0
    } else {
        tally(numbers.drop_last(), p) + if p(numbers.last()) {
            1nat
        } else {
            0
        }
    }
}

/// How many of the numbers are below `x`.
pub open spec fn below(numbers: Seq<Binary64>, x: Binary64) -> nat {
    tally(numbers, |y: Binary64| less(y, x))
}

/// How many of the numbers are above `x`.
pub open spec fn beyond(numbers: Seq<Binary64>, x: Binary64) -> nat {
    tally(numbers, |y: Binary64| less(x, y))
}

proof fn lemma_tally_remove(s: Seq<Binary64>, j: int, p: spec_fn(Binary64) -> bool)
    requires
        0 <= j < s.len(),
    ensures
        tally(s, p) == tally(s.remove(j), p) + if p(s[j]) {
            1nat
        } else {
            0
        },
    decreases s.len(),
{
    if j < s.len() - 1 {
        lemma_tally_remove(s.drop_last(), j, p);
        assert(s.remove(j).drop_last() =~= s.drop_last().remove(j));
        assert(s.remove(j).last() == s.last());
    } else {
        assert(s.remove(j) =~= s.drop_last());
    }
}

/// The order of the numbers does not matter to a tally.
proof fn lemma_tally_permuted(s: Seq<Binary64>, t: Seq<Binary64>, p: spec_fn(Binary64) -> bool)
    requires
        s.to_multiset() == t.to_multiset(),
    ensures
        tally(s, p) == tally(t, p),
    decreases s.len(),
{
    broadcast use group_to_multiset_ensures;

    if s.len() == 0 {
        assert(t.len() == 0) by {
            assert(t.to_multiset().len() == t.len());
            assert(s.to_multiset().len() == s.len());
        }
    } else {
        let x = s.last();
        assert(s.to_multiset().count(x) > 0) by {
            assert(s.contains(x));
        }
        assert(t.contains(x));
        let j = choose|j: int| 0 <= j < t.len() && t[j] == x;
        lemma_tally_remove(t, j, p);
        assert(s.remove(s.len() - 1) =~= s.drop_last());
        assert(s.drop_last().to_multiset() =~= s.to_multiset().remove(x));
        assert(t.remove(j).to_multiset() =~= t.to_multiset().remove(x));
        lemma_tally_permuted(s.drop_last(), t.remove(j), p);
    }
}

/// A tally of what only the first `k` numbers can satisfy.
proof fn lemma_tally_first(s: Seq<Binary64>, k: int, p: spec_fn(Binary64) -> bool)
    requires
        0 <= k <= s.len(),
        forall|i: int| k <= i < s.len() ==> !p(#[trigger] s[i]),
    ensures
        tally(s, p) <= k,
    decreases s.len(),
{
    if 0 < s.len() {
        let r = s.drop_last();
        if k == s.len() {
            lemma_tally_first(r, k - 1, p);
        } else {
            assert forall|i: int| k <= i < r.len() implies !p(#[trigger] r[i]) by {
                assert(r[i] == s[i]);
            }
            lemma_tally_first(r, k, p);
            assert(!p(s[s.len() - 1]));
        }
    }
}

/// A tally of what the first `k` numbers cannot satisfy.
proof fn lemma_tally_last(s: Seq<Binary64>, k: int, p: spec_fn(Binary64) -> bool)
    requires
        0 <= k <= s.len(),
        forall|i: int| 0 <= i < k ==> !p(#[trigger] s[i]),
    ensures
        tally(s, p) <= s.len() - k,
    decreases s.len(),
{
    if 0 < s.len() {
        let r = s.drop_last();
        if k == s.len() {
            assert(!p(s[s.len() - 1]));
            assert forall|i: int| 0 <= i < k - 1 implies !p(#[trigger] r[i]) by {
                assert(r[i] == s[i]);
            }
            lemma_tally_last(r, k - 1, p);
        } else {
            assert forall|i: int| 0 <= i < k implies !p(#[trigger] r[i]) by {
                assert(r[i] == s[i]);
            }
            lemma_tally_last(r, k, p);
        }
    }
}

/// Whether a number is one that a magnitude can be: not below zero, and a number.
pub open spec fn plain(x: Binary64) -> bool {
    !x.negative() && !x.nan()
}

proof fn lemma_bit_order()
    ensures
        total_ordering(bit_order()),
{
}

/// In ascending order, the numbers before a place are at most the one there, and those
/// after it at least.
proof fn lemma_ascending(numbers: Seq<Binary64>)
    requires
        forall|i: int| 0 <= i < numbers.len() ==> plain(#[trigger] numbers[i]),
    ensures
        ({
            let s = numbers.sort_by(bit_order());
            &&& s.len() == numbers.len()
            &&& s.to_multiset() == numbers.to_multiset()
            &&& forall|i: int| 0 <= i < s.len() ==> plain(#[trigger] s[i]) && numbers.contains(s[i])
            &&& forall|i: int, j: int|
                0 <= i <= j < s.len() ==> at_most(#[trigger] s[i], #[trigger] s[j])
        }),
{
    broadcast use group_to_multiset_ensures;

    lemma_bit_order();
    numbers.lemma_sort_by_ensures(bit_order());
    let s = numbers.sort_by(bit_order());
    assert(s.len() == s.to_multiset().len() && numbers.len() == numbers.to_multiset().len());
    assert forall|i: int| 0 <= i < s.len() implies plain(#[trigger] s[i]) && numbers.contains(
        s[i],
    ) by {
        assert(s.contains(s[i]));
        assert(numbers.contains(s[i]));
    }
    assert forall|i: int, j: int| 0 <= i <= j < s.len() implies at_most(
        #[trigger] s[i],
        #[trigger] s[j],
    ) by {
        assert(plain(s[i]) && plain(s[j]));
        if i < j {
            assert(bit_order()(s[i], s[j]));
        }
    }
}

/// Halfway between two numbers lies between them, and is half their sum to within a
/// rounding.
proof fn lemma_halfway(a: Binary64, b: Binary64)
    requires
        plain(a),
        plain(b),
        at_most(a, b),
    ensures
        at_most(a, halfway(a, b)),
        at_most(halfway(a, b), b),
        plain(halfway(a, b)),
        b.finite() ==> halfway(a, b).finite() && size(
            (number(a) + number(b)) / (2 as real) - number(halfway(a, b)),
        ) <= (3 as real) * (roundoff() * number(halfway(a, b))) + (2 as real) * underflow(),
{
    lemma_constants();
    lemma_small_numbers();
    lemma_largest();
    let half = Binary64 { bits: HALF };
    let two = Binary64 { bits: TWO };
    let s = sum(a, b);
    lemma_sum_kind(a, b);
    if !b.finite() {
        if a.finite() {
            lemma_product_sign(half, a);
        }
        lemma_infinite_halfway(a, b);
    } else {
        let u = roundoff();
        let x = number(a);
        let y = number(b);
        lemma_number_order(a, b);
        lemma_number_size(a);
        lemma_number_size(b);
        if s.finite() {
            lemma_sum_near(a, b);
            let z = number(s);
            lemma_number_size(s);
            lemma_twice_beside(a, b);
            let h = product(half, s);
            assert(number(half) * z == z / (2 as real)) by (nonlinear_arith)
                requires
                    number(half) == (1 as real) / (2 as real),
            ;
            lemma_product_beside(half, s, a);
            lemma_product_beside(half, s, b);
            lemma_product_near(half, s);
            lemma_number_size(h);
            let w = number(h);
            lemma_times(z, (2 as real) * (w + u * w + underflow()), u);
            let uw = u * w;
            lemma_times(0 as real, w, u);
            assert(u * ((2 as real) * (w + uw + underflow())) == (2 as real) * (uw + u * uw + u
                * underflow())) by (nonlinear_arith)
                requires
                    uw == u * w,
            ;
            lemma_times(u, (1 as real) / (1024 as real), uw);
            lemma_times(u, (1 as real) / (1024 as real), underflow());
        } else {
            lemma_halved_halves(a, b);
            let c = product(half, a);
            let d = product(half, b);
            lemma_number_sum_beside(c, d, a);
            lemma_number_sum_beside(c, d, b);
            lemma_sum_kind(c, d);
            let h = sum(c, d);
            lemma_sum_near(c, d);
            lemma_number_size(h);
            let w = number(h);
            lemma_times(0 as real, w, u);
        }
    }
}

/// Halfway to infinity is infinity.
proof fn lemma_infinite_halfway(a: Binary64, b: Binary64)
    requires
        plain(a),
        plain(b),
        !b.finite(),
    ensures
        halfway(a, b) == b,
{
    let half = Binary64 { bits: HALF };
    lemma_product_sign(half, b);
    lemma_product_sign(half, a);
    reveal(sum);
    assert(product(half, b) == b) by {
        reveal(product);
    }
    if !a.finite() {
        assert(product(half, a) == a) by {
            reveal(product);
        }
    } else {
        lemma_small_numbers();
        lemma_largest();
        lemma_number_size(a);
        assert(number(half) * number(a) == number(a) / (2 as real)) by (nonlinear_arith)
            requires
                number(half) == (1 as real) / (2 as real),
        ;
        lemma_product_finite(half, a);
    }
}

/// A finite sum of two numbers lies between twice the one and twice the other.
proof fn lemma_twice_beside(a: Binary64, b: Binary64)
    requires
        plain(a),
        plain(b),
        b.finite(),
        at_most(a, b),
        sum(a, b).finite(),
    ensures
        (2 as real) * number(a) <= number(sum(a, b)) <= (2 as real) * number(b),
{
    lemma_constants();
    lemma_number_order(a, b);
    lemma_number_size(a);
    lemma_number_size(b);
    let two = Binary64 { bits: TWO };
    let s = sum(a, b);
    let u = unit();
    let i = a.magnitude() as real;
    let j = b.magnitude() as real;
    assert(((2 as real) * i) * u == (2 as real) * (i * u) && ((2 as real) * j) * u == (2 as real)
        * (j * u)) by (nonlinear_arith);
    lemma_product_with_two(a);
    lemma_product_with_two(b);
    lemma_product_sign(two, a);
    lemma_product_sign(two, b);
    let c = product(two, a);
    let d = product(two, b);
    lemma_number_size(c);
    lemma_number_size(d);
    lemma_number_size(s);
    let top = Binary64 { bits: 0x7fef_ffff_ffff_ffff };
    lemma_pattern_magnitude(s, top);
    lemma_magnitude_grows(top.pattern(), INFINITE as int);
    if d.finite() {
        lemma_number_sum_beside(a, b, d);
        lemma_number_order(s, d);
    } else {
        lemma_times(s.magnitude() as real, (2 as real) * j, u);
    }
    if c.finite() {
        lemma_number_sum_beside(a, b, c);
        lemma_number_order(c, s);
    } else {
        lemma_overflowing_sum(a, b);
    }
}

/// Two numbers of which the smaller has no finite double have no finite sum.
proof fn lemma_overflowing_sum(a: Binary64, b: Binary64)
    requires
        plain(a),
        plain(b),
        b.finite(),
        at_most(a, b),
        magnitude(INFINITE as int) <= 2 * a.magnitude(),
    ensures
        !sum(a, b).finite(),
{
    lemma_pattern_magnitude(a, b);
    let exact = a.value() + b.value();
    let top = INFINITE as int;
    reveal(sum);
    lemma_nearest_exists(exact, 1);
    if sum(a, b).finite() {
        let c = round_ratio(exact, 1);
        lemma_magnitude_step(c);
        lemma_magnitude_step(c + 1);
        if c + 1 < top {
            lemma_magnitude_grows(c + 1, top);
        }
    }
}

/// Where a sum overflows, the halves are exact.
proof fn lemma_halved_halves(a: Binary64, b: Binary64)
    requires
        plain(a),
        plain(b),
        b.finite(),
        at_most(a, b),
        !sum(a, b).finite(),
    ensures
        ({
            let half = Binary64 { bits: HALF };
            let c = product(half, a);
            let d = product(half, b);
            &&& c.finite() && d.finite()
            &&& !c.negative() && !d.negative()
            &&& (2 as real) * number(c) == number(a)
            &&& (2 as real) * number(d) == number(b)
            &&& sum(c, d).finite()
        }),
{
    lemma_constants();
    let half = Binary64 { bits: HALF };
    let n = negated(a);
    assert(negated(n) == a);
    lemma_sum_commutes(a, b);
    lemma_halved(b, n);
    let c = product(half, a);
    let d = product(half, b);
    lemma_product_sign(half, a);
    lemma_product_sign(half, b);
    let m = product(half, n);
    assert(c.pattern() == m.pattern() && c == negated(m)) by {
        lemma_product_sign(half, n);
        let x = half.magnitude();
        let y = a.magnitude();
        lemma_pow2_pos(1074);
        lemma_number_size(half);
        lemma_number_size(a);
        assert(0 <= x * y) by (nonlinear_arith)
            requires
                0 <= x,
                0 <= y,
        ;
        lemma_nearest_exists(x * y, pow2(1074) as int);
        reveal(product);
    }
    lemma_sum_commutes(c, d);
    lemma_number_size(c);
    lemma_number_size(d);
    lemma_number_size(a);
    lemma_number_size(b);
    let u = unit();
    let i = c.magnitude() as real;
    let j = d.magnitude() as real;
    assert(((2 as real) * i) * u == (2 as real) * (i * u) && ((2 as real) * j) * u == (2 as real)
        * (j * u)) by (nonlinear_arith);
}

/// Whether `c` is a centre of the numbers: no more than half of them are below it, and no
/// more than half above; of an odd count it is one of them, and of an even count it is
/// half the sum, to within a rounding, of two of them that are next to each other in the
/// middle.
pub open spec fn central(numbers: Seq<Binary64>, c: Binary64) -> bool {
    &&& 2 * below(numbers, c) <= numbers.len()
    &&& 2 * beyond(numbers, c) <= numbers.len()
    &&& numbers.len() % 2 == 1 ==> numbers.contains(c)
    &&& numbers.len() % 2 == 0 ==> exists|a: Binary64, b: Binary64|
        #[trigger] between(numbers, c, a, b)
}

/// Whether `a` and `b` are the two middle ones of the numbers, and `c` is halfway.
pub open spec fn between(numbers: Seq<Binary64>, c: Binary64, a: Binary64, b: Binary64) -> bool {
    &&& numbers.contains(a) && numbers.contains(b)
    &&& 2 * below(numbers, a) <= numbers.len() - 2
    &&& 2 * beyond(numbers, b) <= numbers.len() - 2
    &&& 2 * below(numbers, b) <= numbers.len()
    &&& 2 * beyond(numbers, a) <= numbers.len()
    &&& at_most(a, c) && at_most(c, b)
    &&& b.finite() ==> c.finite() && size((number(a) + number(b)) / (2 as real) - number(c)) <= (
    3 as real) * (roundoff() * number(c)) + (2 as real) * underflow()
}

/// The median is a centre.
pub proof fn law_median_is_central(numbers: Seq<Binary64>)
    requires
        0 < numbers.len(),
        forall|i: int| 0 <= i < numbers.len() ==> plain(#[trigger] numbers[i]),
    ensures
        central(numbers, median(numbers)),
        plain(median(numbers)),
{
    lemma_ascending(numbers);
    let s = numbers.sort_by(bit_order());
    let n = s.len() as int;
    let m = n / 2;
    let c = median(numbers);
    if n % 2 == 1 {
        assert(plain(s[m]) && numbers.contains(s[m]));
        lemma_counts(numbers, c, m, m + 1);
    } else {
        let a = s[m - 1];
        let b = s[m];
        assert(plain(a) && plain(b) && numbers.contains(a) && numbers.contains(b));
        assert(at_most(a, b));
        lemma_halfway(a, b);
        lemma_counts(numbers, c, m, m);
        lemma_counts(numbers, a, m - 1, m);
        lemma_counts(numbers, b, m, m + 1);
        assert(between(numbers, c, a, b));
    }
}

/// Counts around a number that lies at or above the first places in ascending order, and at
/// or below the last.
proof fn lemma_counts(numbers: Seq<Binary64>, c: Binary64, low: int, high: int)
    requires
        forall|i: int| 0 <= i < numbers.len() ==> plain(#[trigger] numbers[i]),
        0 <= low <= numbers.len(),
        0 <= high <= numbers.len(),
        low < numbers.len() ==> at_most(c, numbers.sort_by(bit_order())[low]),
        0 < high ==> at_most(numbers.sort_by(bit_order())[high - 1], c),
    ensures
        below(numbers, c) <= low,
        beyond(numbers, c) <= numbers.len() - high,
{
    lemma_ascending(numbers);
    let s = numbers.sort_by(bit_order());
    let p = |y: Binary64| less(y, c);
    let q = |y: Binary64| less(c, y);
    lemma_tally_permuted(s, numbers, p);
    lemma_tally_permuted(s, numbers, q);
    assert forall|i: int| low <= i < s.len() implies !p(#[trigger] s[i]) by {
        assert(at_most(s[low], s[i]));
    }
    lemma_tally_first(s, low, p);
    assert forall|i: int| 0 <= i < high implies !q(#[trigger] s[i]) by {
        assert(at_most(s[i], s[high - 1]));
    }
    lemma_tally_last(s, high, q);
}

/// The differences of neighbouring finite values are plain, and each is the size of the
/// real difference to within a rounding.
pub proof fn law_value_differences_are_near(recent: Seq<Sample>, i: int)
    requires
        0 <= i < recent.len() - 1,
        recent[i].1.finite(),
        recent[i + 1].1.finite(),
    ensures
        value_differences(recent).len() == recent.len() - 1,
        plain(value_differences(recent)[i]),
        value_differences(recent)[i].finite() ==> {
            let d = number(value_differences(recent)[i]);
            size(size(number(recent[i + 1].1) - number(recent[i].1)) - d) <= roundoff() * d
        },
{
    let a = recent[i + 1].1;
    let b = recent[i].1;
    let d = difference(a, b);
    lemma_sum_kind(a, negated(b));
    if d.finite() {
        lemma_difference_near(a, b);
        lemma_number_size(d);
        lemma_number_size(absolute(d));
        lemma_constants();
        lemma_times(roundoff(), (1 as real) / (1024 as real), size(number(d)));
    }
}

/// The rounding of a value is `2^-52` of one and its size, to within a few roundings.
pub proof fn law_value_rounding_is_relative(best: Binary64)
    requires
        best.finite(),
        (1 as real) + size(number(best)) <= largest(),
    ensures
        ({
            let exact = (2 as real) * roundoff() * ((1 as real) + size(number(best)));
            let rounding = value_rounding(best);
            &&& rounding.finite() && plain(rounding)
            &&& size(exact - number(rounding)) <= (3 as real) * (roundoff() * exact) + (2 as real)
                * underflow()
        }),
{
    let epsilon = Binary64 { bits: EPSILON };
    lemma_number_of_epsilon();
    lemma_constants();
    lemma_largest();
    let w = (1 as real) + size(number(best));
    let r = number(epsilon);
    lemma_times(r, (1 as real) / (4 as real), w);
    law_floor_is_the_needed_progress(epsilon, best);
    let one = Binary64 { bits: ONE };
    lemma_sum_kind(one, absolute(best));
    lemma_product_sign(epsilon, sum(one, absolute(best)));
}

proof fn lemma_number_of_epsilon()
    ensures
        number(Binary64 { bits: EPSILON }) == (2 as real) * roundoff(),
        (Binary64 { bits: EPSILON }).finite(),
{
    lemma_constants();
    lemma_number_of_power(EPSILON, 970);
    lemma_pow2_adds(52, 1022);
    lemma2_to64_rest();
    let p = pow2(1022) as real;
    let q = pow2(1074) as real;
    let u = unit();
    let r = roundoff();
    assert(q == 4503599627370496 as real * p) by (nonlinear_arith)
        requires
            pow2(52) * pow2(1022) == pow2(1074),
            pow2(52) == 4503599627370496,
            p == pow2(1022) as real,
            q == pow2(1074) as real,
    {
        let a = pow2(52) as int;
        let b = pow2(1022) as int;
        assert((a * b) as real == (a as real) * (b as real));
    }
    assert(p * u == (2 as real) * r) by (nonlinear_arith)
        requires
            q == 4503599627370496 as real * p,
            u * q == 1 as real,
            r * (SIGNIFICANDS as real) == 1 as real,
    {
        assert((p * u) * (4503599627370496 as real) == 1 as real);
    }
}

/// The radius of a window is the longest of its steps.
proof fn lemma_radius_is_a_step(recent: Seq<Sample>, n: nat)
    ensures
        radius(recent, n) == (Binary64 { bits: 0 }) || exists|i: int|
            0 < i <= n && radius(recent, n) == distance(
                recent[i - 1].0,
                (#[trigger] recent[i]).0,
            ),
    decreases n,
{
    if 0 < n {
        let before = radius(recent, (n - 1) as nat);
        lemma_radius_is_a_step(recent, (n - 1) as nat);
        let step = distance(recent[n - 1].0, recent[n as int].0);
        assert(radius(recent, n) == larger(before, step));
    }
}

/// The evidence of a window of at least four finite samples: the radius is the longest of
/// the steps between neighbouring points, and the noise floor is a centre of the
/// differences of neighbouring values or the rounding of the incumbent's value, whichever
/// is larger. There is none of fewer samples, nor where no step is longer than zero, one is
/// infinite, or the centre is.
pub proof fn law_evidence_is_the_centre_and_the_longest_step(
    recent: Seq<Sample>,
    best_value: Binary64,
)
    requires
        forall|i: int| 0 <= i < recent.len() ==> (#[trigger] recent[i]).1.finite(),
    ensures
        probe_scale(recent, best_value) matches Some((noise, reached)) ==> {
            &&& 4 <= recent.len()
            &&& exists|c: Binary64|
                {
                    &&& #[trigger] central(value_differences(recent), c)
                    &&& c.finite()
                    &&& at_most(c, noise)
                    &&& at_most(value_rounding(best_value), noise)
                    &&& noise == c || noise == value_rounding(best_value)
                }
            &&& exists|i: int|
                0 < i < recent.len() && reached == distance(
                    recent[i - 1].0,
                    (#[trigger] recent[i]).0,
                )
        },
        probe_scale(recent, best_value) is None <== recent.len() < 4,
        ({
            &&& 4 <= recent.len()
            &&& exists|i: int|
                0 < i < recent.len() && less(
                    Binary64 { bits: 0 },
                    distance(recent[i - 1].0, (#[trigger] recent[i]).0),
                )
            &&& forall|i: int|
                0 < i < recent.len() ==> distance(
                    recent[i - 1].0,
                    (#[trigger] recent[i]).0,
                ).finite()
            &&& forall|i: int|
                0 <= i < recent.len() - 1 ==> (#[trigger] value_differences(recent)[i]).finite()
        }) ==> probe_scale(recent, best_value) is Some,
{
    law_probe_scale_is_evidence(recent, best_value);
    let numbers = value_differences(recent);
    if 4 <= recent.len() {
        assert forall|i: int| 0 <= i < numbers.len() implies plain(#[trigger] numbers[i]) by {
            law_value_differences_are_near(recent, i);
        }
        law_median_is_central(numbers);
        let n = (recent.len() - 1) as nat;
        lemma_radius_is_a_step(recent, n);
        lemma_longest(recent, n);
        let c = median(numbers);
        if forall|i: int| 0 <= i < recent.len() - 1 ==> (#[trigger] numbers[i]).finite() {
            lemma_finite_centre(numbers, c);
        }
    }
}

/// A centre of finite numbers is finite.
proof fn lemma_finite_centre(numbers: Seq<Binary64>, c: Binary64)
    requires
        central(numbers, c),
        forall|i: int| 0 <= i < numbers.len() ==> (#[trigger] numbers[i]).finite(),
    ensures
        c.finite(),
{
    if numbers.len() % 2 == 1 {
        assert(numbers.contains(c));
    } else {
        let (a, b) = choose|a: Binary64, b: Binary64| #[trigger] between(numbers, c, a, b);
        assert(numbers.contains(b));
    }
}

/// No step is longer than the radius.
proof fn lemma_longest(recent: Seq<Sample>, n: nat)
    ensures
        !radius(recent, n).nan(),
        forall|i: int|
            0 < i <= n ==> {
                let step = distance(recent[i - 1].0, (#[trigger] recent[i]).0);
                step.nan() || at_most(step, radius(recent, n))
            },
    decreases n,
{
    if 0 < n {
        lemma_longest(recent, (n - 1) as nat);
    }
}

} // verus!
