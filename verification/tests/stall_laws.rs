use opt::{Binary64, StallMonitor, StallVerdict, Vector};

const BAND: f64 = 1e-2;

fn of(x: f64) -> Binary64 {
    Binary64::from_bits(x.to_bits())
}

fn num(x: Binary64) -> f64 {
    f64::from_bits(x.to_bits())
}

fn point(x: f64) -> Vector {
    Vector::new(vec![of(x)])
}

fn constant_band(_: Binary64) -> Binary64 {
    of(BAND)
}

/// A band that widens with the value it is asked at.
fn value_band(value: Binary64) -> Binary64 {
    value.abs()
}

type Monitor<C> = StallMonitor<C, fn(Binary64) -> Binary64>;

fn monitor<C>(window: usize) -> Monitor<C> {
    StallMonitor::new(of(1e-6), window, constant_band)
}

fn observe<C>(stall: &mut Monitor<C>, x: f64, value: f64, grad_norm: f64) -> StallVerdict {
    stall.observe(&point(x), of(value), of(grad_norm), true, None)
}

fn seed<C>(stall: &mut Monitor<C>, x: f64, value: f64, grad_norm: f64, psd: Option<bool>) {
    stall.observe_seed(&point(x), of(value), of(grad_norm), psd)
}

fn constrained<C>(stall: &mut Monitor<C>, x: f64, value: f64, grad_norm: f64) -> StallVerdict {
    stall.observe_constrained_stationary(&point(x), of(value), of(grad_norm), true, None)
}

#[test]
fn a_fresh_monitor_holds_what_it_was_made_with_and_nothing_else() {
    let stall: Monitor<()> = StallMonitor::new(of(1e-6), 3, value_band);
    assert_eq!(num(stall.rel_tol()), 1e-6);
    assert_eq!(stall.window(), 3);
    assert_eq!(num(stall.band(of(-0.25))), 0.25);
    assert_eq!(num(stall.best_value()), f64::INFINITY);
    assert_eq!(num(stall.best_grad_norm()), f64::INFINITY);
    assert_eq!(stall.best_point(), None);
    assert_eq!(stall.best_curvature_psd(), None);
    assert_eq!(stall.best_payload(), None);
    assert_eq!(stall.accepted(), 0);
    assert_eq!(stall.refused_streak(), 0);
    assert_eq!(stall.unescapable_streak(), 0);
    assert_eq!(stall.stuck_escapes, 0);
    assert!(!stall.replay_proven());
    assert_eq!(stall.exit(), None);
    assert_eq!(stall.exit_revision(), 0);
    assert!(stall.recent_steps().is_empty());
}

#[test]
fn the_incumbent_only_ever_falls_under_samples() {
    let mut stall = monitor::<()>(100);
    let mut best = f64::INFINITY;
    for (i, value) in [3.0, 4.0, 2.5, 2.5, -1.0, f64::NAN, f64::INFINITY, -0.5, -2.0]
        .iter()
        .enumerate()
    {
        observe(&mut stall, i as f64, *value, 1.0);
        if *value < best {
            best = *value;
            assert_eq!(stall.best_point(), Some(&point(i as f64)));
        }
        assert_eq!(num(stall.best_value()), best);
    }
    assert_eq!(stall.accepted(), 7);
}

#[test]
fn a_sample_without_a_value_resets_both_streaks_only_when_it_is_untrusted() {
    let mut stall = monitor::<()>(3);
    seed(&mut stall, 0.0, 1.0, 0.0, None);
    stall.observe_refused(&point(9.0));
    assert_eq!(stall.refused_streak(), 1);
    let nan = of(f64::NAN);
    assert_eq!(
        stall.observe(&point(1.0), nan, of(0.0), true, None),
        StallVerdict::Continue
    );
    assert_eq!(stall.refused_streak(), 1);
    assert_eq!(
        stall.observe(&point(1.0), nan, of(0.0), false, None),
        StallVerdict::Continue
    );
    assert_eq!(stall.refused_streak(), 0);
    assert_eq!(stall.accepted(), 1);
    assert_eq!(num(stall.best_value()), 1.0);
}

#[test]
fn a_payload_travels_only_with_the_sample_it_was_staged_for() {
    let mut stall = monitor::<u32>(10);
    stall.stage_payload(Some(1));
    seed(&mut stall, 0.0, 1.0, 1.0, None);
    assert_eq!(stall.best_payload(), Some(&1));

    // A sample that is not the incumbent drops what was staged for it.
    stall.stage_payload(Some(2));
    observe(&mut stall, 0.1, 2.0, 1.0);
    assert_eq!(stall.best_payload(), Some(&1));
    observe(&mut stall, 0.2, 0.5, 1.0);
    assert_eq!(stall.best_payload(), None);

    stall.stage_payload(Some(3));
    observe(&mut stall, 0.3, 0.25, 1.0);
    assert_eq!(stall.best_payload(), Some(&3));

    // So does a sample without a finite value, whatever it was shown to be.
    stall.stage_payload(Some(4));
    assert_eq!(
        constrained(&mut stall, 0.4, f64::NAN, 0.0),
        StallVerdict::Continue
    );
    observe(&mut stall, 0.5, 0.125, 1.0);
    assert_eq!(stall.best_payload(), None);

    // A seed without a finite value, and a rejected trial.
    stall.stage_payload(Some(5));
    seed(&mut stall, 0.6, f64::INFINITY, 0.0, None);
    constrained(&mut stall, 0.7, 0.125, 0.0);
    assert_eq!(stall.best_payload(), None);
    stall.stage_payload(Some(6));
    stall.observe_rejected_trial(&point(0.8));
    constrained(&mut stall, 0.9, 0.125, 0.0);
    assert_eq!(stall.best_payload(), None);

    // A refused trial produced no sample, so the payload waits for one.
    stall.stage_payload(Some(7));
    stall.observe_refused(&point(9.0));
    constrained(&mut stall, 1.0, 0.125, 0.0);
    assert_eq!(stall.best_payload(), Some(&7));
}

#[test]
fn the_revision_counts_every_write_of_the_exit() {
    let mut stall = monitor::<()>(2);
    stall.revoke_published_convergence();
    assert_eq!(stall.exit_revision(), 0);
    seed(&mut stall, 0.0, 1.0, 0.0, None);
    assert_eq!(stall.exit_revision(), 1);
    let snapshot = stall.exit().expect("snapshot").clone();
    assert!(!snapshot.converged);
    assert_eq!(snapshot.accepted, 1);
    observe(&mut stall, 0.1, 1.0, 0.0);
    assert_eq!(stall.exit_revision(), 1);
    assert_eq!(stall.exit(), Some(&snapshot));
    assert_eq!(
        observe(&mut stall, 0.2, 1.0, 0.0),
        StallVerdict::Converged
    );
    assert_eq!(stall.exit_revision(), 2);
    assert_eq!(stall.exit().expect("published").accepted, 3);
    // An improvement that also fills the window writes a snapshot and the stop.
    assert_eq!(
        observe(&mut stall, 0.3, 0.5, 0.0),
        StallVerdict::Converged
    );
    assert_eq!(stall.exit_revision(), 4);
    stall.revoke_published_convergence();
    assert_eq!(stall.exit_revision(), 5);
    assert!(!stall.exit().expect("published").converged);
}

#[test]
fn a_deferred_window_opens_again_and_keeps_its_evidence() {
    let mut stall = monitor::<()>(3);
    seed(&mut stall, 0.0, 1.0, 0.0, None);
    observe(&mut stall, 1.0, 1.0, 0.0);
    observe(&mut stall, 3.0, 1.0, 0.0);
    assert_eq!(
        observe(&mut stall, 4.0, 1.0, 0.0),
        StallVerdict::Converged
    );
    let before = stall.exit().expect("published").clone();
    assert!(before.converged);
    assert!(before.probe_scale.is_some());
    stall.defer_filled_window();
    let after = stall.exit().expect("published").clone();
    assert!(!after.converged);
    assert_eq!(after.point, before.point);
    assert_eq!(after.probe_scale, before.probe_scale);
    assert_eq!(stall.best_point(), Some(&point(0.0)));
    assert_eq!(
        observe(&mut stall, 5.0, 1.0, 0.0),
        StallVerdict::Continue
    );
    assert_eq!(
        observe(&mut stall, 6.0, 1.0, 0.0),
        StallVerdict::Continue
    );
    assert_eq!(
        observe(&mut stall, 7.0, 1.0, 0.0),
        StallVerdict::Converged
    );
}

#[test]
fn a_mixed_window_of_refusals_is_decided_as_an_ordinary_one_is() {
    // At a strict saddle both streaks reset and the search continues.
    let mut saddle = monitor::<()>(2);
    seed(&mut saddle, 0.0, 1.0, 1.0, Some(false));
    saddle.observe_refused(&point(9.0));
    assert_eq!(
        saddle.observe_unescapable_refusal(&point(9.0)),
        StallVerdict::Continue
    );
    assert_eq!(saddle.refused_streak(), 0);
    assert_eq!(saddle.stuck_escapes, 0);
    assert_eq!(saddle.exit_revision(), 1);

    // Elsewhere it escapes above the band and stops inside it.
    let mut descending = monitor::<()>(2);
    seed(&mut descending, 0.0, 1.0, 1.0, None);
    descending.observe_refused(&point(9.0));
    assert_eq!(
        descending.observe_unescapable_refusal(&point(9.0)),
        StallVerdict::Escape {
            residual_grad_norm: of(1.0),
            band: of(BAND),
        }
    );
    let mut settled = monitor::<()>(2);
    seed(&mut settled, 0.0, 1.0, 0.0, None);
    settled.observe_refused(&point(9.0));
    assert_eq!(
        settled.observe_unescapable_refusal(&point(9.0)),
        StallVerdict::Converged
    );
}

#[test]
fn an_unescapable_window_stops_with_its_evidence_outside_the_band_and_plainly_inside() {
    let mut none = monitor::<()>(1);
    assert_eq!(
        none.observe_unescapable_refusal(&point(9.0)),
        StallVerdict::Continue
    );
    assert!(none.exit().is_none());

    let mut inside = monitor::<()>(2);
    seed(&mut inside, 0.0, 1.0, 0.0, None);
    inside.observe_unescapable_refusal(&point(9.0));
    assert_eq!(inside.unescapable_streak(), 1);
    assert_eq!(
        inside.observe_unescapable_refusal(&point(9.0)),
        StallVerdict::Converged
    );
    assert_eq!(inside.exit().expect("published").unescapable_window, None);

    // Even at a strict saddle no escape gets past these trials.
    let mut outside = monitor::<()>(2);
    seed(&mut outside, 0.0, 1.0, 1.0, Some(false));
    outside.observe_unescapable_refusal(&point(9.0));
    assert_eq!(
        outside.observe_unescapable_refusal(&point(9.0)),
        StallVerdict::Floor {
            residual_grad_norm: of(1.0),
        }
    );
    let window = outside
        .exit()
        .expect("published")
        .unescapable_window
        .expect("evidence");
    assert_eq!(window.refused_trials, 2);
    assert_eq!(num(window.band), BAND);
}

#[test]
fn an_adopted_sample_is_published_whatever_its_window_decides() {
    let mut stall = monitor::<()>(3);
    seed(&mut stall, 0.0, 1.0, 1.0, None);
    assert!(matches!(
        constrained(&mut stall, 5.0, 1.0, 1.0),
        StallVerdict::Escape { .. }
    ));
    let exit = stall.exit().expect("published");
    assert_eq!(exit.point, point(5.0));
    assert!(!exit.converged);
    assert_eq!(exit.accepted, 2);

    // A rise within the floor is no regression; one beyond it is.
    let mut rising = monitor::<()>(3);
    seed(&mut rising, 0.0, 1.0, 1.0, None);
    assert_eq!(
        constrained(&mut rising, 1.0, 1.0 + 1e-6, 0.0),
        StallVerdict::Converged
    );
    assert_eq!(num(rising.best_value()), 1.0 + 1e-6);
    constrained(&mut rising, 2.0, 1.0 + 1e-5, 0.0);
    assert_eq!(num(rising.best_value()), 1.0 + 1e-6);

    // An untrusted sample is folded as one.
    let mut untrusted = monitor::<()>(3);
    seed(&mut untrusted, 0.0, 1.0, 1.0, None);
    assert_eq!(
        untrusted.observe_constrained_stationary(&point(1.0), of(0.5), of(0.0), false, None),
        StallVerdict::Continue
    );
    assert_eq!(num(untrusted.best_value()), 1.0);
}

#[test]
fn a_proven_replay_is_never_licensed_again() {
    let mut stall = monitor::<()>(1);
    observe(&mut stall, 0.0, 1.0, 1.0);
    assert!(stall.license_continuation());
    assert!(matches!(
        observe(&mut stall, 0.1, 1.0, 1.0),
        StallVerdict::Escape { .. }
    ));
    assert_eq!(
        observe(&mut stall, 0.1, 1.0, 1.0),
        StallVerdict::Floor {
            residual_grad_norm: of(1.0),
        }
    );
    assert!(stall.replay_proven());
    // Even resolved descent does not lift it.
    observe(&mut stall, 0.2, 0.5, 0.5);
    assert!(stall.replay_proven());
    assert!(!stall.license_continuation());
    let stop = stall.unprogressing_stop().expect("stop");
    assert_eq!(stop.point, point(0.2));
    assert_eq!(num(stop.value), 0.5);
    assert_eq!(num(stop.grad_norm), 0.5);
    assert_eq!(stop.accepted, 4);
    assert!(!stop.converged);
    assert_eq!(stop.probe_scale, None);
}

#[test]
fn zeros_of_opposite_sign_are_different_trials() {
    let mut stall = monitor::<()>(1);
    observe(&mut stall, 1.0, 1.0, 1.0);
    assert!(matches!(
        observe(&mut stall, 0.0, 1.0, 1.0),
        StallVerdict::Escape { .. }
    ));
    assert!(matches!(
        observe(&mut stall, -0.0, 1.0, 1.0),
        StallVerdict::Escape { .. }
    ));
    assert!(matches!(
        observe(&mut stall, -0.0, 1.0, 1.0),
        StallVerdict::Floor { .. }
    ));
}

#[test]
fn a_licence_needs_descent_a_smaller_gradient_or_a_saddle() {
    let mut none = monitor::<()>(2);
    assert!(none.license_continuation());
    assert!(!none.license_continuation());
    // Without an incumbent there is nothing to stop at.
    assert!(none.unprogressing_stop().is_none());

    let mut stall = monitor::<()>(2);
    seed(&mut stall, 0.0, 1.0, 1.0, None);
    assert!(stall.unprogressing_stop().is_none());
    observe(&mut stall, 0.1, 0.5, 2.0);
    assert!(stall.license_continuation());
    // A fall within the floor, with a larger gradient, buys nothing.
    observe(&mut stall, 0.2, 0.5 - 1e-9, 3.0);
    assert!(!stall.license_continuation());
}

#[test]
fn a_gradient_that_is_not_finite_is_neither_converged_nor_escaped() {
    let mut stall = monitor::<()>(1);
    observe(&mut stall, 0.0, 1.0, f64::NAN);
    let verdict = observe(&mut stall, 0.1, 1.0, f64::NAN);
    assert!(matches!(verdict, StallVerdict::Floor { residual_grad_norm } if residual_grad_norm.is_nan()));
    assert!(!stall.exit().expect("published").converged);
    assert!(!stall.replay_proven());
    assert_eq!(stall.stuck_escapes, 0);
    // Another sample's gradient says nothing of the incumbent.
    assert!(matches!(
        observe(&mut stall, 0.2, 1.0, 0.0),
        StallVerdict::Floor { residual_grad_norm } if residual_grad_norm.is_nan()
    ));
    assert!(!stall.exit().expect("published").converged);
}

#[test]
fn a_stop_is_converged_only_by_the_incumbents_own_gradient() {
    let mut stall = monitor::<()>(1);
    assert_eq!(
        observe(&mut stall, 0.0, 1.0, f64::INFINITY),
        StallVerdict::Continue
    );
    assert_eq!(
        observe(&mut stall, 0.1, 1.0, 0.0),
        StallVerdict::Floor {
            residual_grad_norm: of(f64::INFINITY),
        }
    );
    let exit = stall.exit().expect("published");
    assert!(!exit.converged);
    assert_eq!(exit.point, point(0.0));
    assert_eq!(num(exit.grad_norm), f64::INFINITY);
    // Positive control: with the gradient at the incumbent the stop is converged.
    let mut settled = monitor::<()>(1);
    observe(&mut settled, 0.0, 1.0, 0.0);
    assert_eq!(
        observe(&mut settled, 0.1, 1.0, f64::INFINITY),
        StallVerdict::Converged
    );
    assert_eq!(num(settled.exit().expect("published").grad_norm), 0.0);
}

#[test]
fn the_unescapable_streak_counts_those_of_the_current_refused_streak() {
    let mut stall = monitor::<()>(10);
    stall.observe_unescapable_refusal(&point(9.0));
    assert_eq!((stall.refused_streak(), stall.unescapable_streak()), (0, 0));
    seed(&mut stall, 0.0, 1.0, 1.0, None);
    stall.observe_unescapable_refusal(&point(9.0));
    assert_eq!((stall.refused_streak(), stall.unescapable_streak()), (1, 1));
    // An ordinary refusal joins the streak and leaves the others in it.
    stall.observe_refused(&point(9.0));
    assert_eq!((stall.refused_streak(), stall.unescapable_streak()), (2, 1));
    stall.observe_unescapable_refusal(&point(9.0));
    assert_eq!((stall.refused_streak(), stall.unescapable_streak()), (3, 2));
    // A trial that evaluated ends it.
    observe(&mut stall, 0.1, 1.0, 1.0);
    assert_eq!((stall.refused_streak(), stall.unescapable_streak()), (0, 0));
    stall.observe_unescapable_refusal(&point(9.0));
    stall.observe_rejected_trial(&point(0.2));
    assert_eq!((stall.refused_streak(), stall.unescapable_streak()), (0, 0));
    stall.observe_unescapable_refusal(&point(9.0));
    stall.observe(&point(0.3), of(f64::NAN), of(1.0), false, None);
    assert_eq!((stall.refused_streak(), stall.unescapable_streak()), (0, 0));
    stall.observe_unescapable_refusal(&point(9.0));
    seed(&mut stall, 0.0, 1.0, 1.0, None);
    assert_eq!((stall.refused_streak(), stall.unescapable_streak()), (0, 0));
    stall.observe_unescapable_refusal(&point(9.0));
    constrained(&mut stall, 0.0, 1.0, 0.0);
    assert_eq!((stall.refused_streak(), stall.unescapable_streak()), (0, 0));

    // So do an escape and a strict saddle's reset.
    let mut escaping = monitor::<()>(2);
    seed(&mut escaping, 0.0, 1.0, 1.0, None);
    escaping.observe_unescapable_refusal(&point(9.0));
    assert!(matches!(
        escaping.observe_refused(&point(9.0)),
        StallVerdict::Escape { .. }
    ));
    assert_eq!((escaping.refused_streak(), escaping.unescapable_streak()), (0, 0));
    let mut saddle = monitor::<()>(2);
    seed(&mut saddle, 0.0, 1.0, 1.0, Some(false));
    saddle.observe_unescapable_refusal(&point(9.0));
    saddle.observe_refused(&point(9.0));
    assert_eq!((saddle.refused_streak(), saddle.unescapable_streak()), (0, 0));
}

#[test]
fn a_window_of_no_samples_is_always_full() {
    let mut stall = monitor::<()>(0);
    assert_eq!(
        observe(&mut stall, 0.0, 1.0, 0.0),
        StallVerdict::Converged
    );
    assert_eq!(stall.observe_refused(&point(9.0)), StallVerdict::Converged);
    assert!(stall.window_probe_scale().is_none());
}

#[test]
fn a_sample_inside_the_band_at_its_own_value_counts_whatever_it_buys() {
    let mut drifting: Monitor<()> = StallMonitor::new(of(1e-6), 2, value_band);
    observe(&mut drifting, 0.0, 8.0, 1.0);
    assert_eq!(
        observe(&mut drifting, 0.1, 4.0, 1.0),
        StallVerdict::Continue
    );
    assert_eq!(
        observe(&mut drifting, 0.2, 2.0, 1.0),
        StallVerdict::Converged
    );
    // Outside its band the same descent opens the window.
    let mut moving: Monitor<()> = StallMonitor::new(of(1e-6), 2, value_band);
    observe(&mut moving, 0.0, 8.0, 100.0);
    observe(&mut moving, 0.1, 4.0, 100.0);
    assert_eq!(
        observe(&mut moving, 0.2, 2.0, 100.0),
        StallVerdict::Continue
    );
}

#[test]
fn the_probe_scale_is_exact() {
    // Four differences: the median is halfway between the middle two.
    let mut stall = monitor::<()>(4);
    for (x, value) in [(0.0, 1.0), (0.5, 2.0), (2.5, 6.0), (2.75, 4.0), (3.75, 20.0)] {
        stall.observe(
            &Vector::new(vec![of(x), of(2.0 * x)]),
            of(value),
            of(1.0),
            true,
            None,
        );
    }
    let (noise, radius) = stall.window_probe_scale().expect("four differences");
    assert_eq!(num(noise), 3.0);
    assert_eq!(num(radius), (4.0f64 + 16.0).sqrt());

    // The window keeps one sample more than it counts, so the oldest step leaves.
    stall.observe(&Vector::new(vec![of(4.0), of(7.5)]), of(21.0), of(1.0), true, None);
    let (noise, _) = stall.window_probe_scale().expect("four differences");
    assert_eq!(num(noise), 3.0);

    // A flat window is floored at the rounding of the incumbent's value.
    let mut flat = monitor::<()>(10);
    for i in 0..4 {
        observe(&mut flat, i as f64, -7.0, 1.0);
    }
    let (noise, radius) = flat.window_probe_scale().expect("three differences");
    assert_eq!(num(noise), f64::EPSILON * 8.0);
    assert_eq!(num(radius), 1.0);

    // A window that did not move, or moved infinitely far, says nothing.
    let mut still = monitor::<()>(10);
    let mut wild = monitor::<()>(10);
    for i in 0..4 {
        observe(&mut still, 1.0, i as f64, 1.0);
        observe(&mut wild, if i % 2 == 0 { 1e308 } else { -1e308 }, i as f64, 1.0);
    }
    assert!(still.window_probe_scale().is_none());
    assert!(wild.window_probe_scale().is_none());
}

#[test]
fn the_probe_radius_is_taken_where_its_square_leaves_the_range() {
    for size in [f64::powi(2.0, 600), f64::powi(2.0, -600)] {
        let mut stall = monitor::<()>(10);
        for i in 0..4 {
            let x = i as f64 * size;
            stall.observe(
                &Vector::new(vec![of(3.0 * x), of(4.0 * x)]),
                of(i as f64),
                of(1.0),
                true,
                None,
            );
        }
        let (noise, radius) = stall.window_probe_scale().expect("three differences");
        assert_eq!(num(noise), 1.0);
        assert_eq!(num(radius), 5.0 * size);
    }
    // The middle of two large differences is taken though their sum overflows.
    let mut steep = monitor::<()>(4);
    for (i, value) in [0.0, 1e308, 0.0, 1.25e308, 0.0].iter().enumerate() {
        observe(&mut steep, i as f64, *value, 1.0);
    }
    let (noise, _) = steep.window_probe_scale().expect("four differences");
    assert_eq!(num(noise), 0.5 * 1e308 + 0.5 * 1.25e308);
}

#[test]
fn the_evidence_is_of_the_latest_seeds_and_trusted_samples() {
    let fold = |stall: &mut Monitor<()>| {
        seed(stall, 0.0, 4.0, 1.0, None);
        observe(stall, 1.0, 4.5, 1.0);
        observe(stall, 3.0, 4.75, 1.0);
        observe(stall, 4.0, 5.75, 1.0);
    };
    let mut plain = monitor::<()>(3);
    fold(&mut plain);
    let expected = plain.window_probe_scale();
    assert_eq!(expected, Some((of(0.5), of(2.0))));
    // Nothing else joins it.
    let mut mixed = monitor::<()>(3);
    mixed.observe_refused(&point(50.0));
    fold(&mut mixed);
    mixed.observe(&point(60.0), of(1.0), of(1.0), false, None);
    mixed.observe(&point(61.0), of(f64::NAN), of(1.0), true, None);
    mixed.observe_rejected_trial(&point(62.0));
    mixed.observe_refused(&point(63.0));
    mixed.observe_unescapable_refusal(&point(64.0));
    seed(&mut mixed, 65.0, f64::NAN, 1.0, None);
    assert_eq!(mixed.window_probe_scale(), expected);
    // A window of at most two holds too few samples for it.
    let mut short = monitor::<()>(2);
    for i in 0..9 {
        observe(&mut short, i as f64, i as f64, 1.0);
        assert!(short.window_probe_scale().is_none());
    }
}

#[test]
fn a_strict_saddle_escape_raises_the_flag_once() {
    let mut stall = monitor::<()>(1);
    seed(&mut stall, 0.0, 1.0, 1.0, Some(false));
    assert!(!stall.take_strict_saddle_refusal());
    stall.observe(&point(0.1), of(1.0), of(1.0), true, Some(false));
    assert!(stall.take_strict_saddle_refusal());
    assert!(!stall.take_strict_saddle_refusal());
    assert_eq!(stall.stuck_escapes(), 1);
    assert_eq!(stall.best_curvature_psd(), Some(false));
}

#[test]
fn the_incumbent_is_the_earliest_lowest_trusted_sample_with_its_payload() {
    let mut stall = monitor::<usize>(100);
    let values = [5.0, 3.0, f64::NAN, 3.0, 4.0, 1.0, 1.0, 2.0];
    for (i, value) in values.iter().enumerate() {
        stall.stage_payload(Some(i));
        // The sample at place four is not trusted, whatever its value.
        let shown = if i == 4 { -9.0 } else { *value };
        stall.observe(&point(i as f64), of(shown), of(i as f64), i != 4, None);
        stall.observe_refused(&point(50.0));
        stall.observe_rejected_trial(&point(60.0));
    }
    assert_eq!(stall.best_point(), Some(&point(5.0)));
    assert_eq!(num(stall.best_value()), 1.0);
    assert_eq!(num(stall.best_grad_norm()), 5.0);
    assert_eq!(stall.best_payload(), Some(&5));
    assert_eq!(stall.accepted(), 6);
}

#[test]
fn nothing_but_a_lower_value_earns_another_licence() {
    let mut stall = monitor::<()>(3);
    seed(&mut stall, 0.0, 1.0, 1.0, None);
    assert!(stall.license_continuation());
    // Trials, refusals, worse samples and deferrals buy nothing, however many come.
    for i in 0..5 {
        observe(&mut stall, i as f64, 1.0, 0.5);
        stall.observe_rejected_trial(&point(7.0));
        stall.observe_refused(&point(9.0));
        stall.observe_unescapable_refusal(&point(9.0));
        stall.defer_filled_window();
        stall.revoke_published_convergence();
        constrained(&mut stall, 8.0, 2.0, 0.0);
        assert!(!stall.license_continuation());
    }
    observe(&mut stall, 0.5, 0.75, 2.0);
    assert!(stall.license_continuation());
    assert!(!stall.license_continuation());
}
