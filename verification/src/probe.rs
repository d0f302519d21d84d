//! The scatter of a window of samples: the median difference of neighbouring
//! values and the longest step between neighbouring points.

use crate::arrays::Vector;
use crate::binary64::{
    absolute, at_most, difference, larger, normal, product, quotient, root, sum, Binary64, EPSILON,
    HALF, ONE,
};
use std::collections::VecDeque;
use vstd::prelude::*;
use vstd::seq_lib::{lemma_sorted_unique, to_multiset_update};

verus! {

/// A sampled point and its criterion value.
pub type Sample = (Seq<Binary64>, Binary64);

/// The samples that a window of points and values holds.
pub open spec fn samples(recent: Seq<(Vector, Binary64)>) -> Seq<Sample> {
    Seq::new(recent.len(), |i: int| (recent[i].0@, recent[i].1))
}

/// The sum of the squared differences of the first `n` coordinates.
pub open spec fn squared_distance(a: Seq<Binary64>, b: Seq<Binary64>, n: nat) -> Binary64
    decreases n,
{
    if n == 0 {
        Binary64 { bits: 0 }
    } else {
        let d = difference(a[n - 1], b[n - 1]);
        sum(squared_distance(a, b, (n - 1) as nat), product(d, d))
    }
}

/// The largest of the differences of the first `n` coordinates, in magnitude.
pub open spec fn largest_difference(a: Seq<Binary64>, b: Seq<Binary64>, n: nat) -> Binary64
    decreases n,
{
    if n == 0 {
        Binary64 { bits: 0 }
    } else {
        larger(
            largest_difference(a, b, (n - 1) as nat),
            absolute(difference(a[n - 1], b[n - 1])),
        )
    }
}

/// The sum of the squared differences of the first `n` coordinates, each over `scale`.
pub open spec fn scaled_distance(
    a: Seq<Binary64>,
    b: Seq<Binary64>,
    scale: Binary64,
    n: nat,
) -> Binary64
    decreases n,
{
    if n == 0 {
        Binary64 { bits: 0 }
    } else {
        let d = quotient(difference(a[n - 1], b[n - 1]), scale);
        sum(scaled_distance(a, b, scale, (n - 1) as nat), product(d, d))
    }
}

/// How many coordinates two points both have.
pub open spec fn shared(a: Seq<Binary64>, b: Seq<Binary64>) -> nat {
    if a.len() <= b.len() {
        a.len()
    } else {
        b.len()
    }
}

/// The Euclidean distance of two points, over the coordinates that both have. Where the
/// sum of the squares leaves the range of full precision, the differences are taken over
/// the largest of them.
pub open spec fn distance(a: Seq<Binary64>, b: Seq<Binary64>) -> Binary64 {
    let n = shared(a, b);
    let total = squared_distance(a, b, n);
    let scale = largest_difference(a, b, n);
    if total.nan() || normal(total) {
        root(total)
    } else if scale.zero() || !scale.finite() {
        scale
    } else {
        product(scale, root(scaled_distance(a, b, scale, n)))
    }
}

/// The longest of the steps between the first `n + 1` samples.
pub open spec fn radius(recent: Seq<Sample>, n: nat) -> Binary64
    decreases n,
{
    if n == 0 {
        Binary64 { bits: 0 }
    } else {
        larger(radius(recent, (n - 1) as nat), distance(recent[n - 1].0, recent[n as int].0))
    }
}

/// The magnitudes of the differences between neighbouring values.
pub open spec fn value_differences(recent: Seq<Sample>) -> Seq<Binary64> {
    Seq::new(
        (recent.len() - 1) as nat,
        |i: int| absolute(difference(recent[i + 1].1, recent[i].1)),
    )
}

/// The order of bit patterns, which is the order of nonnegative numbers.
pub open spec fn bit_order() -> spec_fn(Binary64, Binary64) -> bool {
    |a: Binary64, b: Binary64| a.bits <= b.bits
}

/// Halfway between two nonnegative numbers. Where their sum overflows, the halves are
/// added.
pub open spec fn halfway(a: Binary64, b: Binary64) -> Binary64 {
    let half = Binary64 { bits: HALF };
    if sum(a, b).finite() {
        product(half, sum(a, b))
    } else {
        sum(product(half, a), product(half, b))
    }
}

/// The middle of the numbers in ascending order, or halfway between the two middle
/// ones.
pub open spec fn median(numbers: Seq<Binary64>) -> Binary64 {
    let sorted = numbers.sort_by(bit_order());
    let middle = (numbers.len() / 2) as int;
    if numbers.len() % 2 == 1 {
        sorted[middle]
    } else {
        halfway(sorted[middle - 1], sorted[middle])
    }
}

/// The rounding of a value of the incumbent's size.
pub open spec fn value_rounding(best_value: Binary64) -> Binary64 {
    let scale = if best_value.finite() {
        absolute(best_value)
    } else {
        Binary64 { bits: 0 }
    };
    product(Binary64 { bits: EPSILON }, sum(Binary64 { bits: ONE }, scale))
}

/// The noise floor and the probe radius over a window of samples.
pub open spec fn probe_scale(recent: Seq<Sample>, best_value: Binary64) -> Option<
    (Binary64, Binary64),
> {
    let reached = radius(recent, (recent.len() - 1) as nat);
    let middle = median(value_differences(recent));
    if recent.len() < 4 || !reached.finite() || at_most(reached, Binary64 { bits: 0 })
        || !middle.finite() {
        None
    } else {
        Some((larger(middle, value_rounding(best_value)), reached))
    }
}

/// The distance of two points, as an executable value.
fn step_between(a: &Vector, b: &Vector) -> (d: Binary64)
    ensures
        d == distance(a@, b@),
{
    let n: usize = if a.len() <= b.len() {
        a.len()
    } else {
        b.len()
    };
    let mut total: Binary64 = Binary64::from_bits(0);
    let mut scale: Binary64 = Binary64::from_bits(0);
    let mut i: usize = 0;
    while i < n
        invariant
            i <= n,
            n <= a@.len(),
            n <= b@.len(),
            total == squared_distance(a@, b@, i as nat),
            scale == largest_difference(a@, b@, i as nat),
        decreases n - i,
    {
        let d: Binary64 = a.at(i).minus(b.at(i));
        total = total.plus(d.times(d));
        scale = scale.max(d.abs());
        i = i + 1;
    }
    if total.is_nan() || total.is_normal() {
        return total.sqrt();
    }
    if scale.unsigned() == 0 || !scale.is_finite() {
        return scale;
    }
    let mut scaled: Binary64 = Binary64::from_bits(0);
    i = 0;
    while i < n
        invariant
            i <= n,
            n <= a@.len(),
            n <= b@.len(),
            scaled == scaled_distance(a@, b@, scale, i as nat),
        decreases n - i,
    {
        let d: Binary64 = a.at(i).minus(b.at(i)).over(scale);
        scaled = scaled.plus(d.times(d));
        i = i + 1;
    }
    scale.times(scaled.sqrt())
}

/// Halfway between two nonnegative numbers, as an executable value.
fn middle_of(a: Binary64, b: Binary64) -> (x: Binary64)
    ensures
        x == halfway(a, b),
{
    let half: Binary64 = Binary64::from_bits(HALF);
    let total: Binary64 = a.plus(b);
    if total.is_finite() {
        half.times(total)
    } else {
        half.times(a).plus(half.times(b))
    }
}

/// Whether the first `n` numbers are in ascending bit order.
spec fn ascending(numbers: Seq<Binary64>, n: int) -> bool {
    forall|i: int, j: int|
        0 <= i <= j < n ==> (#[trigger] numbers[i]).bits <= (#[trigger] numbers[j]).bits
}

/// Swapping two entries keeps the entries.
proof fn lemma_swap(s: Seq<Binary64>, i: int, j: int)
    requires
        0 <= i < j < s.len(),
    ensures
        s.update(i, s[j]).update(j, s[i]).to_multiset() == s.to_multiset(),
{
    broadcast use vstd::multiset::group_multiset_axioms;

    let once = s.update(i, s[j]);
    to_multiset_update(s, i, s[j]);
    to_multiset_update(once, j, s[i]);
    s.to_multiset_ensures();
    assert(s.contains(s[i]));
    assert(once.update(j, s[i]).to_multiset() =~= s.to_multiset());
}

/// Sort numbers into ascending bit order.
fn sort(numbers: &mut Vec<Binary64>)
    ensures
        final(numbers)@ == old(numbers)@.sort_by(bit_order()),
{
    let ghost start = numbers@;
    let n: usize = numbers.len();
    let mut i: usize = 1;
    while i < n
        invariant
            numbers@.len() == n,
            1 <= i,
            n == 0 || i <= n,
            n == 0 || ascending(numbers@, i as int),
            numbers@.to_multiset() == start.to_multiset(),
        decreases n - i,
    {
        let mut j: usize = i;
        while 0 < j && numbers[j].bits < numbers[j - 1].bits
            invariant
                numbers@.len() == n,
                j <= i < n,
                forall|a: int, b: int|
                    0 <= a <= b <= i && a != j && b != j ==> (#[trigger] numbers@[a]).bits <= (
                    #[trigger] numbers@[b]).bits,
                forall|b: int|
                    j < b <= i ==> numbers@[j as int].bits <= (#[trigger] numbers@[b]).bits,
                numbers@.to_multiset() == start.to_multiset(),
            decreases j,
        {
            let ghost before = numbers@;
            let left: Binary64 = numbers[j - 1];
            let right: Binary64 = numbers[j];
            numbers.set(j - 1, right);
            numbers.set(j, left);
            proof {
                lemma_swap(before, j - 1, j as int);
            }
            j = j - 1;
        }
        i = i + 1;
    }
    proof {
        let leq = bit_order();
        start.lemma_sort_by_ensures(leq);
        lemma_sorted_unique(numbers@, start.sort_by(leq), leq);
    }
}

/// The window's evidence about the criterion's scatter, as an executable value.
pub(crate) fn window_scale(recent: &VecDeque<(Vector, Binary64)>, best_value: Binary64) -> (scale:
    Option<(Binary64, Binary64)>)
    ensures
        scale == probe_scale(samples(recent@), best_value),
{
    let n: usize = recent.len();
    if n < 4 {
        return None;
    }
    let ghost all = samples(recent@);
    let mut diffs: Vec<Binary64> = Vec::with_capacity(n - 1);
    let mut reached: Binary64 = Binary64::from_bits(0);
    let mut i: usize = 1;
    while i < n
        invariant
            n == recent@.len(),
            all == samples(recent@),
            1 <= i <= n,
            diffs@.len() == i - 1,
            forall|a: int| 0 <= a < i - 1 ==> #[trigger] diffs@[a] == value_differences(all)[a],
            reached == radius(all, (i - 1) as nat),
        decreases n - i,
    {
        let prev: &(Vector, Binary64) = &recent[i - 1];
        let next: &(Vector, Binary64) = &recent[i];
        diffs.push(next.1.minus(prev.1).abs());
        reached = reached.max(step_between(&prev.0, &next.0));
        i = i + 1;
    }
    if !reached.is_finite() || reached.is_at_most(Binary64::from_bits(0)) {
        return None;
    }
    assert(diffs@ =~= value_differences(all));
    sort(&mut diffs);
    proof {
        value_differences(all).lemma_sort_by_ensures(bit_order());
        assert(diffs@.len() == value_differences(all).len()) by {
            assert(diffs@.to_multiset().len() == value_differences(all).to_multiset().len());
            diffs@.to_multiset_ensures();
            value_differences(all).to_multiset_ensures();
        }
    }
    let middle: usize = diffs.len() / 2;
    let center: Binary64 = if diffs.len() % 2 == 1 {
        diffs[middle]
    } else {
        middle_of(diffs[middle - 1], diffs[middle])
    };
    if !center.is_finite() {
        return None;
    }
    let scale: Binary64 = if best_value.is_finite() {
        best_value.abs()
    } else {
        Binary64::from_bits(0)
    };
    let rounding: Binary64 = Binary64::from_bits(EPSILON).times(
        Binary64::from_bits(ONE).plus(scale),
    );
    Some((center.max(rounding), reached))
}

} // verus!
