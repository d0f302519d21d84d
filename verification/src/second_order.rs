//! Second-order verdicts a bound-constrained outer search takes at a point.
//!
//! These are the definiteness verdict, the Newton decrement it travels with, and
//! the longest feasible step along a ray. A caller's criterion Hessian is often a
//! derivative of a quantity computed through an inner solve, so its error is not
//! bounded by `√ε·‖H‖`. What the caller can measure, from an identity that is
//! exactly zero in exact arithmetic, is passed as `measured_resolution`, and every
//! verdict here is taken at one owner of the shift that measurement implies,
//! [`certificate_curvature_shift`].

use crate::arrays::{Matrix, Vector};
use crate::binary64::{
    absolute, at_most, difference, larger, lemma_product_sign, lemma_root_of_epsilon, less, normal,
    product, quotient, root, smaller, Binary64, EPSILON, HALF, INFINITY, ONE, TWO,
};
use crate::cholesky::{cholesky, dot, dot_product, factors, is_factor, solution, solve, square};
use vstd::prelude::*;

verus! {

/// The largest magnitude among the first `n` diagonal entries; NaNs are passed over.
pub open spec fn largest_diagonal(h: Seq<Seq<Binary64>>, n: nat) -> Binary64
    decreases n,
{
    if n == 0 {
        Binary64 { bits: 0 }
    } else {
        larger(largest_diagonal(h, (n - 1) as nat), absolute(h[n - 1][n - 1]))
    }
}

/// `√ε·max(max|H_ii|, 1)`.
pub open spec fn arithmetic_shift(h: Seq<Seq<Binary64>>) -> Binary64 {
    product(
        root(Binary64 { bits: EPSILON }),
        larger(largest_diagonal(h, h.len()), Binary64 { bits: ONE }),
    )
}

/// The shift that a definiteness verdict on `h` is taken at.
pub open spec fn curvature_shift(h: Seq<Seq<Binary64>>, measured: Binary64) -> Binary64 {
    if measured.finite() && less(arithmetic_shift(h), measured) {
        measured
    } else {
        arithmetic_shift(h)
    }
}

/// The shift a definiteness verdict on `hessian` is taken at: the larger of the
/// measured resolution and the arithmetic shift `√ε·max(max|H_ii|, 1)`.
///
/// A zero `measured_resolution` gives the arithmetic shift, which is what decides
/// wherever nothing could be measured. The two are combined by `max`, so a
/// measurement can only admit a point the arithmetic shift refused, never refuse
/// one it admitted. A verdict and the shift it was taken at travel together: a
/// second layer judging the same direction at a narrower shift applies a
/// strictly stronger test than the first.
#[must_use]
pub fn certificate_curvature_shift(hessian: &Matrix, measured_resolution: Binary64) -> (shift:
    Binary64)
    requires
        hessian@.len() <= hessian.columns(),
    ensures
        shift == curvature_shift(hessian@, measured_resolution),
{
    let n: usize = hessian.nrows();
    let mut max_diag: Binary64 = Binary64::from_bits(0);
    let mut j: usize = 0;
    while j < n
        invariant
            n == hessian@.len(),
            n <= hessian.columns(),
            j <= n,
            max_diag == largest_diagonal(hessian@, j as nat),
        decreases n - j,
    {
        max_diag = max_diag.max(hessian.at(j, j).abs());
        j = j + 1;
    }
    let arithmetic: Binary64 = Binary64::from_bits(EPSILON).sqrt().times(
        max_diag.max(Binary64::from_bits(ONE)),
    );
    if measured_resolution.is_finite() && arithmetic.is_less(measured_resolution) {
        measured_resolution
    } else {
        arithmetic
    }
}

/// Whether every entry is finite.
pub open spec fn all_finite(entries: Seq<Binary64>) -> bool {
    forall|i: int| 0 <= i < entries.len() ==> (#[trigger] entries[i]).finite()
}

/// Whether a matrix is nonempty, square and finite.
pub open spec fn judgeable(hessian: &Matrix) -> bool {
    &&& 0 < hessian@.len()
    &&& hessian.columns() == hessian@.len()
    &&& forall|i: int| 0 <= i < hessian@.len() ==> all_finite(#[trigger] hessian@[i])
}

/// Test whether a matrix is nonempty, square and finite.
fn is_judgeable(hessian: &Matrix) -> (r: bool)
    ensures
        r == judgeable(hessian),
        r ==> square(hessian@, hessian.columns()),
{
    let n: usize = hessian.nrows();
    if n == 0 || hessian.ncols() != n {
        return false;
    }
    let mut i: usize = 0;
    while i < n
        invariant
            i <= n,
            n == hessian@.len(),
            n == hessian.columns(),
            square(hessian@, n as nat),
            forall|a: int| 0 <= a < i ==> all_finite(#[trigger] hessian@[a]),
        decreases n - i,
    {
        let mut j: usize = 0;
        while j < n
            invariant
                i < n,
                j <= n,
                n == hessian@.len(),
                n == hessian.columns(),
                square(hessian@, n as nat),
                forall|c: int| 0 <= c < j ==> (#[trigger] hessian@[i as int][c]).finite(),
            decreases n - j,
        {
            if !hessian.at(i, j).is_finite() {
                assert(!all_finite(hessian@[i as int]));
                return false;
            }
            j = j + 1;
        }
        assert(all_finite(hessian@[i as int]));
        i = i + 1;
    }
    true
}

/// Whether the shifted matrix factors at the shift of the measurement, or already at
/// the arithmetic shift: a measurement refuses nothing that the arithmetic shift admits.
pub open spec fn admitted(h: Seq<Seq<Binary64>>, measured: Binary64) -> bool {
    factors(h, arithmetic_shift(h), h.len()) || factors(h, curvature_shift(h, measured), h.len())
}

/// Whether `hessian + shift·I` factors, at [`certificate_curvature_shift`]: a
/// negative eigenvalue within the shift is PSD by this standard, and one below
/// it is not. A matrix that factors at the arithmetic shift is PSD at every measured
/// resolution, even where the rounding of a wider shift spoils its factor.
///
/// `None` when the matrix is empty, not square, or not finite.
#[must_use]
pub fn hessian_is_psd_at_resolution(hessian: &Matrix, measured_resolution: Binary64) -> (verdict:
    Option<bool>)
    ensures
        verdict is Some <==> judgeable(hessian),
        verdict matches Some(psd) ==> psd == admitted(hessian@, measured_resolution),
{
    if !is_judgeable(hessian) {
        return None;
    }
    let arithmetic: Binary64 = certificate_curvature_shift(hessian, Binary64::from_bits(0));
    proof {
        lemma_zero_resolution(hessian@);
    }
    if cholesky(hessian, arithmetic).is_some() {
        return Some(true);
    }
    let shift: Binary64 = certificate_curvature_shift(hessian, measured_resolution);
    Some(cholesky(hessian, shift).is_some())
}

/// The quadratic form `gᵀ(H + shift·I)⁻¹g`.
pub open spec fn inverse_form(
    h: Seq<Seq<Binary64>>,
    g: Seq<Binary64>,
    shift: Binary64,
) -> Binary64 {
    dot_product(g, solution(h, shift, g))
}

/// Whether a quadratic form is one that a positive definite factor can give.
pub open spec fn sound_form(quad: Binary64) -> bool {
    quad.finite() && !less(quad, Binary64 { bits: 0 })
}

/// `½·gᵀ(H + shift·I)⁻¹g`, or `None` where the shifted matrix does not factor or
/// the form is negative or not finite.
pub open spec fn shifted_decrease(
    h: Seq<Seq<Binary64>>,
    g: Seq<Binary64>,
    shift: Binary64,
) -> Option<Binary64> {
    if factors(h, shift, h.len()) && sound_form(inverse_form(h, g, shift)) {
        Some(product(Binary64 { bits: HALF }, inverse_form(h, g, shift)))
    } else {
        None
    }
}

/// Whether a Hessian and a gradient belong to one point and are finite.
pub open spec fn matched(hessian: &Matrix, grad: &Vector) -> bool {
    judgeable(hessian) && grad@.len() == hessian@.len() && all_finite(grad@)
}

/// The Newton decrement at the arithmetic shift where the matrix factors at it, or else
/// at the shift of the measured resolution where that is larger.
pub open spec fn predicted_decrease(
    hessian: &Matrix,
    grad: &Vector,
    measured: Binary64,
) -> Option<Binary64> {
    let h = hessian@;
    let g = grad@;
    if !matched(hessian, grad) {
        None
    } else if factors(h, arithmetic_shift(h), h.len()) {
        shifted_decrease(h, g, arithmetic_shift(h))
    } else if less(arithmetic_shift(h), curvature_shift(h, measured)) {
        shifted_decrease(h, g, curvature_shift(h, measured))
    } else {
        None
    }
}

/// The Newton decrement `½·gᵀ(H + shift·I)⁻¹g` at the arithmetic shift.
///
/// `hessian` and `grad` are the analytic Hessian and the KKT-projected gradient
/// at the point. `None` when the shapes are malformed, an entry is not finite,
/// the shifted matrix does not factor, or the quadratic form is not finite or is
/// negative (which a positive definite factor rules out; kept as a roundoff guard).
#[must_use]
pub fn newton_predicted_decrease(hessian: &Matrix, grad: &Vector) -> (decrease: Option<Binary64>)
    ensures
        decrease == if matched(hessian, grad) {
            shifted_decrease(hessian@, grad@, arithmetic_shift(hessian@))
        } else {
            None
        },
        decrease == predicted_decrease(hessian, grad, Binary64 { bits: 0 }),
{
    proof {
        lemma_zero_resolution(hessian@);
    }
    newton_predicted_decrease_at_resolution(hessian, grad, Binary64::from_bits(0))
}

/// [`newton_predicted_decrease`] for a caller whose definiteness verdict was
/// taken at a measured resolution.
///
/// The decrement is taken at the arithmetic shift wherever that factors. Only
/// when it does not is it taken at
/// [`certificate_curvature_shift`]`(H, measured_resolution)`, the shift at which
/// [`hessian_is_psd_at_resolution`] judged the matrix, so a point that verdict
/// accepts always has a decrement, unless the form itself is not finite or rounds
/// below zero. The arithmetic shift goes first because a larger shift shrinks every
/// positive direction's share `g_i²/(λ_i + shift)`
/// ([`crate::exact_laws::law_larger_shift_shrinks_the_exact_decrement`]) and could
/// read real descent along a near-flat positive direction as none. A zero resolution
/// is [`newton_predicted_decrease`] bit for bit.
#[must_use]
pub fn newton_predicted_decrease_at_resolution(
    hessian: &Matrix,
    grad: &Vector,
    measured_resolution: Binary64,
) -> (decrease: Option<Binary64>)
    ensures
        decrease == predicted_decrease(hessian, grad, measured_resolution),
{
    if !is_judgeable(hessian) || grad.len() != hessian.nrows() || !is_all_finite(grad) {
        return None;
    }
    let arithmetic: Binary64 = certificate_curvature_shift(hessian, Binary64::from_bits(0));
    proof {
        lemma_zero_resolution(hessian@);
    }
    match cholesky(hessian, arithmetic) {
        Some(l) => {
            return factored_decrease(&l, grad, Ghost(hessian@), Ghost(arithmetic));
        },
        None => {},
    }
    let resolution: Binary64 = certificate_curvature_shift(hessian, measured_resolution);
    if arithmetic.is_less(resolution) {
        shifted_newton_predicted_decrease(hessian, grad, resolution)
    } else {
        None
    }
}

/// Test whether every entry of a vector is finite.
fn is_all_finite(v: &Vector) -> (r: bool)
    ensures
        r == all_finite(v@),
{
    let n: usize = v.len();
    let mut i: usize = 0;
    while i < n
        invariant
            n == v@.len(),
            i <= n,
            forall|a: int| 0 <= a < i ==> (#[trigger] v@[a]).finite(),
        decreases n - i,
    {
        if !v.at(i).is_finite() {
            assert(!v@[i as int].finite());
            return false;
        }
        i = i + 1;
    }
    true
}

/// `½·gᵀ(H + shift·I)⁻¹g` through a lower Cholesky factor, or `None` when the
/// shifted matrix is not positive definite.
fn shifted_newton_predicted_decrease(
    hessian: &Matrix,
    grad: &Vector,
    shift: Binary64,
) -> (decrease: Option<Binary64>)
    requires
        square(hessian@, hessian.columns()),
        grad@.len() == hessian@.len(),
    ensures
        decrease == shifted_decrease(hessian@, grad@, shift),
{
    match cholesky(hessian, shift) {
        Some(l) => factored_decrease(&l, grad, Ghost(hessian@), Ghost(shift)),
        None => None,
    }
}

/// `½·gᵀ(H + shift·I)⁻¹g` through the lower Cholesky factor `l`, or `None` when the
/// form is negative or not finite.
fn factored_decrease(
    l: &Matrix,
    grad: &Vector,
    Ghost(h): Ghost<Seq<Seq<Binary64>>>,
    Ghost(shift): Ghost<Binary64>,
) -> (decrease: Option<Binary64>)
    requires
        square(l@, l.columns()),
        grad@.len() == l.columns(),
        h.len() == l.columns(),
        factors(h, shift, h.len()),
        is_factor(l@, h, shift, l.columns()),
    ensures
        decrease == shifted_decrease(h, grad@, shift),
{
    let d: Vector = solve(l, grad, Ghost(h), Ghost(shift));
    let quad: Binary64 = dot(grad, &d);
    if !quad.is_finite() || quad.is_less(Binary64::from_bits(0)) {
        return None;
    }
    Some(Binary64::from_bits(HALF).times(quad))
}

/// Whether a number is finite and positive.
pub open spec fn positive(x: Binary64) -> bool {
    x.finite() && less(Binary64 { bits: 0 }, x)
}

/// Test whether a number is finite and positive.
fn is_positive(x: Binary64) -> (r: bool)
    ensures
        r == positive(x),
{
    x.is_finite() && Binary64::from_bits(0).is_less(x)
}

/// `2·objective_resolution / α_max²`.
///
/// Where `α_max²` or `2·objective_resolution` leaves the range of full precision, the
/// factors are taken in an order that keeps the steps before the last in it.
pub open spec fn curvature_floor(alpha_max: Binary64, objective_resolution: Binary64) -> Binary64 {
    let two = Binary64 { bits: TWO };
    let square = product(alpha_max, alpha_max);
    let doubled = product(two, objective_resolution);
    if !normal(square) {
        quotient(product(two, quotient(objective_resolution, alpha_max)), alpha_max)
    } else if !doubled.finite() {
        product(two, quotient(objective_resolution, square))
    } else {
        quotient(doubled, square)
    }
}

/// The largest magnitude of a negative curvature that a criterion known only to
/// within `objective_resolution` cannot resolve over steps up to `alpha_max` along
/// its eigenvector: `2·objective_resolution / α_max²`.
///
/// A curvature `λ < 0` at or under it predicts at most `½|λ|·α_max² ≤
/// objective_resolution` of decrease at the largest step, which the criterion cannot
/// represent ([`negative_curvature_claim`]). It is the one number both a verdict on
/// a single claim and a definiteness test shifted to the criterion's resolution
/// read.
///
/// `None` when `alpha_max` is not a finite positive step or `objective_resolution`
/// is not a finite positive resolution.
#[must_use]
pub fn unresolvable_curvature_magnitude(
    alpha_max: Binary64,
    objective_resolution: Binary64,
) -> (magnitude: Option<Binary64>)
    ensures
        magnitude == if positive(alpha_max) && positive(objective_resolution) {
            Some(curvature_floor(alpha_max, objective_resolution))
        } else {
            None
        },
{
    if !is_positive(alpha_max) || !is_positive(objective_resolution) {
        return None;
    }
    let two: Binary64 = Binary64::from_bits(TWO);
    let square: Binary64 = alpha_max.times(alpha_max);
    let doubled: Binary64 = two.times(objective_resolution);
    Some(
        if !square.is_normal() {
            two.times(objective_resolution.over(alpha_max)).over(alpha_max)
        } else if !doubled.is_finite() {
            two.times(objective_resolution.over(square))
        } else {
            doubled.over(square)
        },
    )
}

/// What a criterion can say about a claim of negative curvature at a stationary
/// point ([`negative_curvature_claim`]).
#[derive(Clone, Copy, Debug, PartialEq)]
pub enum NegativeCurvatureClaim {
    /// The claim predicts a decrease the criterion can represent. Steps from
    /// `alpha_max` down to `alpha_min`, where the prediction reaches the resolution,
    /// are its whole falsifiable range.
    Resolvable { alpha_min: Binary64 },
    /// The largest decrease the claim predicts, `predicted_at_largest = ½|λ_min|·α_max²`,
    /// is at or below the criterion's resolution. No allowed step can produce a
    /// decrease the criterion represents, so the criterion can neither confirm nor
    /// falsify the claim, and a curvature it cannot resolve cannot refuse the point.
    Unresolvable { predicted_at_largest: Binary64 },
}

/// `½|λ_min|·α_max²`. Half of a curvature too small to be halved exactly is taken after
/// the first step.
pub open spec fn largest_prediction(lambda_min: Binary64, alpha_max: Binary64) -> Binary64 {
    let half = Binary64 { bits: HALF };
    let halved = product(half, absolute(lambda_min));
    if normal(halved) {
        product(product(halved, alpha_max), alpha_max)
    } else {
        product(product(half, product(absolute(lambda_min), alpha_max)), alpha_max)
    }
}

/// `½|λ_min|·α_max²`, as an executable value.
fn prediction_at(lambda_min: Binary64, alpha_max: Binary64) -> (predicted: Binary64)
    ensures
        predicted == largest_prediction(lambda_min, alpha_max),
{
    let half: Binary64 = Binary64::from_bits(HALF);
    let halved: Binary64 = half.times(lambda_min.abs());
    if halved.is_normal() {
        halved.times(alpha_max).times(alpha_max)
    } else {
        half.times(lambda_min.abs().times(alpha_max)).times(alpha_max)
    }
}

/// `√(2·objective_resolution)`, also where the doubled resolution overflows.
pub open spec fn root_of_doubled(objective_resolution: Binary64) -> Binary64 {
    let two = Binary64 { bits: TWO };
    let doubled = product(two, objective_resolution);
    if doubled.finite() {
        root(doubled)
    } else {
        product(two, root(product(Binary64 { bits: HALF }, objective_resolution)))
    }
}

/// `√(2·objective_resolution / |λ_min|)`: the root of the quotient, or the quotient of
/// the roots where the quotient leaves the range of full precision.
pub open spec fn balanced_step(lambda_min: Binary64, objective_resolution: Binary64) -> Binary64 {
    let ratio = quotient(
        product(Binary64 { bits: TWO }, objective_resolution),
        absolute(lambda_min),
    );
    if normal(ratio) {
        root(ratio)
    } else {
        quotient(root_of_doubled(objective_resolution), root(absolute(lambda_min)))
    }
}

/// `√(2·objective_resolution / |λ_min|)`, which rounding does not take past `alpha_max`.
pub open spec fn smallest_step(
    lambda_min: Binary64,
    alpha_max: Binary64,
    objective_resolution: Binary64,
) -> Binary64 {
    smaller(balanced_step(lambda_min, objective_resolution), alpha_max)
}

/// The step of [`smallest_step`], as an executable value.
fn step_at_resolution(
    lambda_min: Binary64,
    alpha_max: Binary64,
    objective_resolution: Binary64,
) -> (step: Binary64)
    ensures
        step == smallest_step(lambda_min, alpha_max, objective_resolution),
{
    let two: Binary64 = Binary64::from_bits(TWO);
    let doubled: Binary64 = two.times(objective_resolution);
    let ratio: Binary64 = doubled.over(lambda_min.abs());
    let step: Binary64 = if ratio.is_normal() {
        ratio.sqrt()
    } else {
        let top: Binary64 = if doubled.is_finite() {
            doubled.sqrt()
        } else {
            two.times(Binary64::from_bits(HALF).times(objective_resolution).sqrt())
        };
        top.over(lambda_min.abs().sqrt())
    };
    step.min(alpha_max)
}

/// Whether a claim of negative curvature has a sense: a finite negative curvature,
/// a finite positive step and a finite positive resolution.
pub open spec fn claimable(
    lambda_min: Binary64,
    alpha_max: Binary64,
    objective_resolution: Binary64,
) -> bool {
    &&& lambda_min.finite() && less(lambda_min, Binary64 { bits: 0 })
    &&& positive(alpha_max)
    &&& positive(objective_resolution)
}

/// Whether a negative eigenvalue `lambda_min` of a criterion Hessian at a
/// stationary point is resolvable by the criterion, over steps up to `alpha_max`
/// along its eigenvector.
///
/// Along the eigenvector the quadratic model of the claim is
/// `V(x ± αv) − V(x) ≈ ½λ_min α²`, so it predicts a decrease of at most
/// `½|λ_min|α_max²`. A criterion known only to within `objective_resolution` can
/// represent that decrease only when it is larger:
///
/// ```text
///     resolvable  ⟺  ½|λ_min|·α_max² > objective_resolution
///                 ⟺  |λ_min| > unresolvable_curvature_magnitude(α_max, objective_resolution),
///     α_min = √(2·objective_resolution / |λ_min|)  (at most α_max when resolvable).
/// ```
///
/// This is a statement about the criterion, not the matrix: the matrix's own
/// error enters its verdict through [`certificate_curvature_shift`].
///
/// `None` when `lambda_min` is not a finite negative number, `alpha_max` is not a
/// finite positive step, or `objective_resolution` is not a finite positive
/// resolution.
#[must_use]
pub fn negative_curvature_claim(
    lambda_min: Binary64,
    alpha_max: Binary64,
    objective_resolution: Binary64,
) -> (claim: Option<NegativeCurvatureClaim>)
    ensures
        claim is Some <==> claimable(lambda_min, alpha_max, objective_resolution),
        claim matches Some(claim) ==> claim == if at_most(
            absolute(lambda_min),
            curvature_floor(alpha_max, objective_resolution),
        ) {
            NegativeCurvatureClaim::Unresolvable {
                predicted_at_largest: largest_prediction(lambda_min, alpha_max),
            }
        } else {
            NegativeCurvatureClaim::Resolvable {
                alpha_min: smallest_step(lambda_min, alpha_max, objective_resolution),
            }
        },
{
    if !(lambda_min.is_finite() && lambda_min.is_less(Binary64::from_bits(0))) {
        return None;
    }
    let unresolvable: Binary64 = match unresolvable_curvature_magnitude(
        alpha_max,
        objective_resolution,
    ) {
        Some(magnitude) => magnitude,
        None => {
            return None;
        },
    };
    if lambda_min.abs().is_at_most(unresolvable) {
        return Some(
            NegativeCurvatureClaim::Unresolvable {
                predicted_at_largest: prediction_at(lambda_min, alpha_max),
            },
        );
    }
    Some(
        NegativeCurvatureClaim::Resolvable {
            alpha_min: step_at_resolution(lambda_min, alpha_max, objective_resolution),
        },
    )
}

/// The bound that the coordinate `i` moves towards, where it moves and has one.
pub open spec fn bound_ahead(
    ray: Seq<Binary64>,
    lower: Seq<Binary64>,
    upper: Seq<Binary64>,
    i: int,
) -> Option<Binary64> {
    let zero = Binary64 { bits: 0 };
    if less(zero, ray[i]) {
        if i < upper.len() {
            Some(upper[i])
        } else {
            None
        }
    } else if less(ray[i], zero) {
        if i < lower.len() {
            Some(lower[i])
        } else {
            None
        }
    } else {
        None
    }
}

/// The step at which a coordinate at `x` that moves by `component` meets the bound
/// `limit`. A distance that overflows is halved on the way.
pub open spec fn meeting_step(limit: Binary64, x: Binary64, component: Binary64) -> Binary64 {
    let half = Binary64 { bits: HALF };
    let away = difference(limit, x);
    if !away.finite() && limit.finite() && x.finite() {
        product(
            Binary64 { bits: TWO },
            quotient(difference(product(half, limit), product(half, x)), component),
        )
    } else {
        quotient(away, component)
    }
}

/// The step of [`meeting_step`], as an executable value.
fn step_to_bound(limit: Binary64, x: Binary64, component: Binary64) -> (step: Binary64)
    ensures
        step == meeting_step(limit, x, component),
{
    let half: Binary64 = Binary64::from_bits(HALF);
    let away: Binary64 = limit.minus(x);
    if !away.is_finite() && limit.is_finite() && x.is_finite() {
        Binary64::from_bits(TWO).times(half.times(limit).minus(half.times(x)).over(component))
    } else {
        away.over(component)
    }
}

/// The step at which the coordinate `i` meets the bound `limit`.
pub open spec fn step_to(
    point: Seq<Binary64>,
    ray: Seq<Binary64>,
    limit: Binary64,
    i: int,
) -> Binary64 {
    meeting_step(limit, point[i], ray[i])
}

/// The smallest step at which one of the first `n` coordinates meets its bound;
/// infinite where none does. Steps that are NaNs are passed over.
pub open spec fn reach(
    point: Seq<Binary64>,
    ray: Seq<Binary64>,
    lower: Seq<Binary64>,
    upper: Seq<Binary64>,
    n: nat,
) -> Binary64
    decreases n,
{
    if n == 0 {
        Binary64 { bits: INFINITY }
    } else {
        let before = reach(point, ray, lower, upper, (n - 1) as nat);
        match bound_ahead(ray, lower, upper, n - 1) {
            Some(limit) => smaller(before, step_to(point, ray, limit, n - 1)),
            None => before,
        }
    }
}

/// The longest step along the ray that stays in the box, and no less than zero.
pub open spec fn feasible_step(
    point: Seq<Binary64>,
    ray: Seq<Binary64>,
    lower: Seq<Binary64>,
    upper: Seq<Binary64>,
) -> Binary64 {
    larger(reach(point, ray, lower, upper, point.len()), Binary64 { bits: 0 })
}

/// The largest `α ≥ 0` keeping `point + α·ray` inside the box `[lower, upper]`.
///
/// A coordinate with no bound entry, or a zero ray component, sets no limit, so
/// an unbounded ray returns infinity. A point already outside its box along the
/// ray returns zero.
#[must_use]
pub fn max_feasible_step_along(
    point: &Vector,
    ray: &Vector,
    lower: &Vector,
    upper: &Vector,
) -> (alpha: Binary64)
    requires
        point@.len() <= ray@.len(),
    ensures
        alpha == feasible_step(point@, ray@, lower@, upper@),
{
    let zero: Binary64 = Binary64::from_bits(0);
    let mut alpha: Binary64 = Binary64::from_bits(INFINITY);
    let n: usize = point.len();
    let mut i: usize = 0;
    while i < n
        invariant
            n == point@.len(),
            n <= ray@.len(),
            i <= n,
            zero == (Binary64 { bits: 0 }),
            alpha == reach(point@, ray@, lower@, upper@, i as nat),
        decreases n - i,
    {
        let step: Binary64 = ray.at(i);
        let bound: Option<Binary64> = if zero.is_less(step) {
            entry_of(upper, i)
        } else if step.is_less(zero) {
            entry_of(lower, i)
        } else {
            None
        };
        match bound {
            Some(limit) => {
                alpha = alpha.min(step_to_bound(limit, point.at(i), step));
            },
            None => {},
        }
        i = i + 1;
    }
    alpha.max(zero)
}

/// The entry at place `i`, where there is one.
fn entry_of(v: &Vector, i: usize) -> (x: Option<Binary64>)
    ensures
        x == if i < v@.len() {
            Some(v@[i as int])
        } else {
            None
        },
{
    if i < v.len() {
        Some(v.at(i))
    } else {
        None
    }
}

proof fn lemma_diagonal_sign(h: Seq<Seq<Binary64>>, n: nat)
    ensures
        !largest_diagonal(h, n).negative(),
        !largest_diagonal(h, n).nan(),
    decreases n,
{
    if 0 < n {
        lemma_diagonal_sign(h, (n - 1) as nat);
    }
}

/// The arithmetic shift is a number, and never below zero.
pub proof fn lemma_arithmetic_shift_sign(h: Seq<Seq<Binary64>>)
    ensures
        !arithmetic_shift(h).nan(),
        !arithmetic_shift(h).negative(),
{
    lemma_root_of_epsilon();
    lemma_diagonal_sign(h, h.len());
    lemma_product_sign(
        root(Binary64 { bits: EPSILON }),
        larger(largest_diagonal(h, h.len()), Binary64 { bits: ONE }),
    );
}

/// A zero resolution is judged at the arithmetic shift.
pub proof fn lemma_zero_resolution(h: Seq<Seq<Binary64>>)
    ensures
        curvature_shift(h, Binary64 { bits: 0 }) == arithmetic_shift(h),
{
    lemma_arithmetic_shift_sign(h);
}

} // verus!
