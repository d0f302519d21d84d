//! Second-order verdicts and a stall monitor for outer optimization loops.
//!
//! [`second_order`] judges a point by its Hessian: definiteness at a resolution,
//! the Newton decrement that travels with the verdict, what a criterion can say
//! about a claim of negative curvature, and the longest feasible step along a ray.
//! [`stall_monitor`] watches a stream of samples and decides when a search has
//! stalled.
//!
//! All numbers are IEEE 754 binary64 numbers held by their bits ([`binary64`]).
//! Every operation on them ([`arithmetic`]) is proved to round the exact result
//! once, to nearest with ties to even ([`rounding`]), so each contract here says
//! what is computed to the last bit.

pub mod arithmetic;
pub mod arrays;
pub mod binary64;
pub mod box_laws;
pub mod cholesky;
pub mod claim_laws;
pub mod decrement_laws;
pub mod definite_laws;
pub mod distance_laws;
pub mod exact;
pub mod exact_laws;
pub mod factor_laws;
pub mod median_laws;
pub mod monitor_laws;
pub mod nearness;
pub mod order;
pub mod prediction_laws;
pub mod probe;
pub mod rounding;
pub mod run_laws;
pub mod sample_laws;
pub mod second_order;
pub mod second_order_laws;
pub mod shift_laws;
pub mod solve_laws;
pub mod stall_laws;
pub mod stall_model;
pub mod stall_monitor;
pub mod step_laws;
pub mod tolerance_laws;
pub mod trial_laws;
pub mod verdict_laws;
pub mod window_laws;

pub use crate::arrays::{Matrix, Vector};
pub use crate::binary64::Binary64;
pub use crate::second_order::{
    certificate_curvature_shift, hessian_is_psd_at_resolution, max_feasible_step_along,
    negative_curvature_claim, newton_predicted_decrease, newton_predicted_decrease_at_resolution,
    unresolvable_curvature_magnitude, NegativeCurvatureClaim,
};
pub use crate::stall_monitor::{
    StallExit, StallMonitor, StallStep, StallVerdict, StepInfo, UnescapableRefusalWindow,
};
