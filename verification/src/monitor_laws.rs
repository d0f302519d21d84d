//! Which answer of the band a verdict rests on.

use crate::binary64::{at_most, less, Binary64};
use crate::stall_model::MonitorState;
use crate::stall_monitor::{StallMonitor, StallVerdict};
use vstd::prelude::*;

verus! {

/// Whether a verdict is what the band says of the incumbent it leaves: an answer at the
/// incumbent's own value has the incumbent's gradient norm inside it where the search has
/// converged, below the norm where an escape is granted, and not around the norm at a
/// floor.
pub open spec fn by_the_band<C, B: Fn(Binary64) -> Binary64>(
    monitor: &StallMonitor<C, B>,
    next: MonitorState<C>,
    verdict: StallVerdict,
) -> bool {
    let norm = next.best_grad_norm;
    match verdict {
        StallVerdict::Continue => true,
        StallVerdict::Converged => exists|band: Binary64|
            #[trigger] monitor.band_answers(next.best_value, band) && norm.finite() && at_most(
                norm,
                band,
            ),
        StallVerdict::Escape { residual_grad_norm, band } => residual_grad_norm == norm
            && monitor.band_answers(next.best_value, band) && norm.finite() && less(band, norm),
        StallVerdict::Floor { residual_grad_norm } => residual_grad_norm == norm && exists|
            band: Binary64,
        |
            #[trigger] monitor.band_answers(next.best_value, band) && !(norm.finite() && at_most(
                norm,
                band,
            )),
    }
}

/// The verdict on a sample is by the band at the incumbent's value.
pub proof fn law_sample_is_judged_by_the_band<C, B: Fn(Binary64) -> Binary64>(
    monitor: &StallMonitor<C, B>,
    point: Seq<Binary64>,
    value: Binary64,
    grad_norm: Binary64,
    trusted: bool,
    curvature_psd: Option<bool>,
    next: MonitorState<C>,
    verdict: StallVerdict,
)
    requires
        monitor@.well_formed(),
        monitor.observes(point, value, grad_norm, trusted, curvature_psd, next, verdict),
    ensures
        by_the_band(monitor, next, verdict),
{
    let (a, b) = choose|a: Binary64, b: Binary64|
        #[trigger] monitor.observes_with(
            point,
            value,
            grad_norm,
            trusted,
            curvature_psd,
            a,
            b,
            next,
            verdict,
        );
    if verdict !is Continue {
        assert(monitor.band_answers(next.best_value, b));
    }
}

/// The verdict on a constrained-stationary sample is by the band at the incumbent's value.
pub proof fn law_stationary_sample_is_judged_by_the_band<C, B: Fn(Binary64) -> Binary64>(
    monitor: &StallMonitor<C, B>,
    point: Seq<Binary64>,
    value: Binary64,
    grad_norm: Binary64,
    trusted: bool,
    curvature_psd: Option<bool>,
    next: MonitorState<C>,
    verdict: StallVerdict,
)
    requires
        monitor@.well_formed(),
        monitor.settles(point, value, grad_norm, trusted, curvature_psd, next, verdict),
    ensures
        by_the_band(monitor, next, verdict),
{
    let (a, b) = choose|a: Binary64, b: Binary64|
        #[trigger] monitor.settles_with(
            point,
            value,
            grad_norm,
            trusted,
            curvature_psd,
            a,
            b,
            next,
            verdict,
        );
    if verdict !is Continue {
        if !trusted || monitor@.regresses(value) {
            assert(monitor.observes(
                point,
                value,
                grad_norm,
                trusted,
                curvature_psd,
                next,
                verdict,
            ));
            law_sample_is_judged_by_the_band(
                monitor,
                point,
                value,
                grad_norm,
                trusted,
                curvature_psd,
                next,
                verdict,
            );
        } else {
            assert(monitor.band_answers(next.best_value, b));
        }
    }
}

/// The verdict on a refused trial is by the band at the incumbent's value.
pub proof fn law_refusal_is_judged_by_the_band<C, B: Fn(Binary64) -> Binary64>(
    monitor: &StallMonitor<C, B>,
    point: Seq<Binary64>,
    next: MonitorState<C>,
    verdict: StallVerdict,
)
    requires
        monitor@.well_formed(),
        monitor.refuses(point, next, verdict) || monitor.blocks(point, next, verdict),
    ensures
        by_the_band(monitor, next, verdict),
{
    if monitor.refuses(point, next, verdict) {
        let band = choose|band: Binary64| #[trigger] monitor.refuses_with(
            point,
            band,
            next,
            verdict,
        );
        if verdict !is Continue {
            assert(monitor.band_answers(next.best_value, band));
        }
    } else {
        let (a, b) = choose|a: Binary64, b: Binary64|
            #[trigger] monitor.blocks_with(point, a, b, next, verdict);
        if verdict !is Continue {
            assert(monitor.band_answers(next.best_value, a));
            if verdict is Converged || verdict is Escape {
                assert(monitor.band_answers(next.best_value, b) || monitor.band_answers(
                    next.best_value,
                    a,
                ));
            }
        }
    }
}

/// A sample counts by the band at its own value: one with a finite gradient norm that makes
/// progress is still counted only where the norm is inside an answer there.
pub proof fn law_sample_counts_by_the_band_at_its_value<C, B: Fn(Binary64) -> Binary64>(
    monitor: &StallMonitor<C, B>,
    point: Seq<Binary64>,
    value: Binary64,
    grad_norm: Binary64,
    curvature_psd: Option<bool>,
    next: MonitorState<C>,
    verdict: StallVerdict,
)
    requires
        value.finite(),
        grad_norm.finite(),
        monitor.observes(point, value, grad_norm, true, curvature_psd, next, verdict),
    ensures
        exists|band: Binary64, other: Binary64|
            #[trigger] monitor.band_answers(value, band) && (next, verdict)
                == #[trigger] monitor@.observed(
                point,
                value,
                grad_norm,
                true,
                curvature_psd,
                band,
                other,
            ),
{
    let (a, b) = choose|a: Binary64, b: Binary64|
        #[trigger] monitor.observes_with(
            point,
            value,
            grad_norm,
            true,
            curvature_psd,
            a,
            b,
            next,
            verdict,
        );
    assert(monitor.band_answers(value, a) && (next, verdict) == monitor@.observed(
        point,
        value,
        grad_norm,
        true,
        curvature_psd,
        a,
        b,
    ));
}

} // verus!
