use opt::{Binary64, StallMonitor, StallVerdict, StepInfo, Vector};

const BAND: f64 = 1e-2;

fn of(x: f64) -> Binary64 {
    Binary64::from_bits(x.to_bits())
}

fn num(x: Binary64) -> f64 {
    f64::from_bits(x.to_bits())
}

fn point(x: f64) -> Vector {
    Vector::new(vec![of(x)])
}

fn constant_band(_: Binary64) -> Binary64 {
    of(BAND)
}

type Monitor<C> = StallMonitor<C, fn(Binary64) -> Binary64>;

fn monitor(window: usize) -> Monitor<()> {
    StallMonitor::new(of(1e-6), window, constant_band)
}

fn observe<C>(
    stall: &mut Monitor<C>,
    x: f64,
    value: f64,
    grad_norm: f64,
    trusted: bool,
    psd: Option<bool>,
) -> StallVerdict {
    stall.observe(&point(x), of(value), of(grad_norm), trusted, psd)
}

fn seed<C>(stall: &mut Monitor<C>, x: f64, value: f64, grad_norm: f64, psd: Option<bool>) {
    stall.observe_seed(&point(x), of(value), of(grad_norm), psd)
}

fn constrained<C>(stall: &mut Monitor<C>, x: f64, value: f64, grad_norm: f64) -> StallVerdict {
    stall.observe_constrained_stationary(&point(x), of(value), of(grad_norm), true, None)
}

#[test]
fn the_first_sample_is_the_incumbent_and_the_window_counts_after_it() {
    let mut stall = monitor(2);
    assert_eq!(
        observe(&mut stall, 0.0, 1.0, 0.0, true, None),
        StallVerdict::Continue
    );
    assert_eq!(
        observe(&mut stall, 0.1, 1.0, 0.0, true, None),
        StallVerdict::Continue
    );
    assert_eq!(
        observe(&mut stall, 0.2, 1.0, 0.0, true, None),
        StallVerdict::Converged
    );
    let exit = stall.exit().expect("published");
    assert!(exit.converged);
    assert_eq!(exit.point, point(0.0));
}

#[test]
fn an_untrusted_sample_is_never_the_incumbent_and_resets_the_window() {
    let mut stall = monitor(2);
    observe(&mut stall, 0.0, 1.0, 0.0, true, None);
    observe(&mut stall, 0.1, 1.0, 0.0, true, None);
    assert_eq!(
        observe(&mut stall, 0.2, 0.5, 0.0, false, None),
        StallVerdict::Continue
    );
    assert_eq!(num(stall.best_value()), 1.0);
    // Without the untrusted sample the next trusted one would fill the window.
    // It reset the streak, so two more trusted samples are needed.
    assert_eq!(
        observe(&mut stall, 0.3, 1.0, 0.0, true, None),
        StallVerdict::Continue
    );
    assert_eq!(
        observe(&mut stall, 0.4, 1.0, 0.0, true, None),
        StallVerdict::Converged
    );
}

#[test]
fn an_escape_is_cut_only_when_it_replays_the_same_window_from_a_bit_identical_incumbent() {
    let mut stall = monitor(2);
    observe(&mut stall, 0.0, 1.0, 1.0, true, None);
    observe(&mut stall, 0.1, 1.0, 1.0, true, None);
    assert!(matches!(
        observe(&mut stall, 0.2, 1.0, 1.0, true, None),
        StallVerdict::Escape { .. }
    ));
    assert_eq!(stall.stuck_escapes, 1);
    // The reopened window observes the same trials from the same incumbent:
    // a deterministic procedure replayed from an identical state.
    observe(&mut stall, 0.1, 1.0, 1.0, true, None);
    assert!(matches!(
        observe(&mut stall, 0.2, 1.0, 1.0, true, None),
        StallVerdict::Floor { .. }
    ));
    assert!(stall.replay_proven());
    assert!(!stall.exit().expect("published").converged);

    // Positive control: a reopened window that observes trials the previous
    // one never saw is a search in a different state, however still its
    // incumbent, and earns another escape instead of the cut.
    let mut exploring = monitor(2);
    observe(&mut exploring, 0.0, 1.0, 1.0, true, None);
    observe(&mut exploring, 0.1, 1.0, 1.0, true, None);
    assert!(matches!(
        observe(&mut exploring, 0.2, 1.0, 1.0, true, None),
        StallVerdict::Escape { .. }
    ));
    observe(&mut exploring, 0.3, 1.0, 1.0, true, None);
    assert!(matches!(
        observe(&mut exploring, 0.4, 1.0, 1.0, true, None),
        StallVerdict::Escape { .. }
    ));
    assert_eq!(exploring.stuck_escapes, 2);
    assert!(!exploring.replay_proven());

    // Positive control: an incumbent that moved between the windows (a lower
    // value by less than the floor) earns another escape instead of the cut.
    let mut moving = monitor(2);
    observe(&mut moving, 0.0, 1.0, 1.0, true, None);
    observe(&mut moving, 0.1, 1.0, 1.0, true, None);
    assert!(matches!(
        observe(&mut moving, 0.2, 1.0, 1.0, true, None),
        StallVerdict::Escape { .. }
    ));
    observe(&mut moving, 0.3, 1.0 - 1e-9, 1.0, true, None);
    assert!(matches!(
        observe(&mut moving, 0.4, 1.0 - 1e-9, 1.0, true, None),
        StallVerdict::Escape { .. }
    ));
    assert!(!moving.replay_proven());
}

#[test]
fn a_strict_saddle_incumbent_escapes_until_the_escape_replays() {
    let mut stall = monitor(2);
    observe(&mut stall, 0.0, 1.0, 0.0, true, Some(false));
    observe(&mut stall, 0.1, 1.0, 0.0, true, Some(false));
    assert_eq!(
        observe(&mut stall, 0.2, 1.0, 0.0, true, Some(false)),
        StallVerdict::Continue
    );
    assert!(stall.take_strict_saddle_refusal());
    assert!(!stall.take_strict_saddle_refusal());
    // A window on new trials is the search still exploring the saddle, so it
    // escapes again.
    observe(&mut stall, 0.3, 1.0, 0.0, true, Some(false));
    assert_eq!(
        observe(&mut stall, 0.4, 1.0, 0.0, true, Some(false)),
        StallVerdict::Continue
    );
    assert!(stall.take_strict_saddle_refusal());
    assert!(!stall.replay_proven());
    // The same trials again from the same incumbent are the replay.
    observe(&mut stall, 0.3, 1.0, 0.0, true, Some(false));
    assert_eq!(
        observe(&mut stall, 0.4, 1.0, 0.0, true, Some(false)),
        StallVerdict::Converged
    );
    assert!(stall.replay_proven());

    // Positive control: the same trajectory at a PSD incumbent stops at the first
    // filled window.
    let mut minimum = monitor(2);
    observe(&mut minimum, 0.0, 1.0, 0.0, true, Some(true));
    observe(&mut minimum, 0.1, 1.0, 0.0, true, Some(true));
    assert_eq!(
        observe(&mut minimum, 0.2, 1.0, 0.0, true, Some(true)),
        StallVerdict::Converged
    );
}

#[test]
fn a_rejected_trial_joins_the_replay_identity_and_nothing_else() {
    let mut stall = monitor(2);
    observe(&mut stall, 0.0, 1.0, 1.0, true, None);
    observe(&mut stall, 0.1, 1.0, 1.0, true, None);
    assert!(matches!(
        observe(&mut stall, 0.2, 1.0, 1.0, true, None),
        StallVerdict::Escape { .. }
    ));
    let accepted = stall.accepted();
    // A rejected trial between the windows: not a step, but a point the
    // search observed, so the window that follows is not a replay.
    stall.observe_rejected_trial(&point(0.9));
    assert_eq!(stall.accepted(), accepted, "a rejected trial is not a step");
    assert_eq!(
        observe(&mut stall, 0.1, 1.0, 1.0, true, None),
        StallVerdict::Continue,
        "a rejected trial does not count toward the window"
    );
    assert!(matches!(
        observe(&mut stall, 0.2, 1.0, 1.0, true, None),
        StallVerdict::Escape { .. }
    ));
    assert!(!stall.replay_proven());

    // Its finite value ends a run of refused trials.
    let mut refused = monitor(2);
    seed(&mut refused, 0.0, 1.0, 0.0, None);
    refused.observe_refused(&point(9.0));
    refused.observe_rejected_trial(&point(9.5));
    assert_eq!(refused.refused_streak(), 0);
    assert_eq!(refused.observe_refused(&point(9.0)), StallVerdict::Continue);
}

#[test]
fn a_refused_window_halts_at_the_incumbent_and_not_before_one() {
    let mut none = monitor(2);
    assert_eq!(none.observe_refused(&point(9.0)), StallVerdict::Continue);
    assert_eq!(none.observe_refused(&point(9.0)), StallVerdict::Continue);
    assert!(none.exit().is_none());

    let mut stall = monitor(2);
    seed(&mut stall, 0.0, 1.0, 0.0, None);
    assert_eq!(stall.observe_refused(&point(9.0)), StallVerdict::Continue);
    assert_eq!(stall.observe_refused(&point(9.0)), StallVerdict::Converged);
    assert_eq!(stall.exit().expect("published").point, point(0.0));

    // Positive control: at a strict-saddle incumbent the refused run continues.
    let mut saddle = monitor(2);
    seed(&mut saddle, 0.0, 1.0, 0.0, Some(false));
    saddle.observe_refused(&point(9.0));
    assert_eq!(saddle.observe_refused(&point(9.0)), StallVerdict::Continue);
    assert_eq!(saddle.refused_streak(), 0);
}

#[test]
fn an_all_unescapable_window_stops_without_an_escape_and_a_mixed_one_escapes() {
    let mut pinned = monitor(3);
    seed(&mut pinned, 0.0, 1.0, 1.0, None);
    pinned.observe_unescapable_refusal(&point(1.0));
    pinned.observe_unescapable_refusal(&point(1.0));
    assert!(matches!(
        pinned.observe_unescapable_refusal(&point(1.0)),
        StallVerdict::Floor { .. }
    ));
    assert_eq!(pinned.stuck_escapes, 0);
    let exit = pinned.exit().expect("published");
    assert!(!exit.converged);
    let window = exit.unescapable_window.expect("unescapable evidence");
    assert_eq!(window.refused_trials, 3);
    assert_eq!(num(window.band), BAND);

    // Positive control: one ordinary refusal in the window keeps the escape.
    let mut mixed = monitor(3);
    seed(&mut mixed, 0.0, 1.0, 1.0, None);
    mixed.observe_refused(&point(1.0));
    mixed.observe_unescapable_refusal(&point(1.0));
    assert!(matches!(
        mixed.observe_unescapable_refusal(&point(1.0)),
        StallVerdict::Escape { .. }
    ));
    assert_eq!(mixed.stuck_escapes, 1);
    assert!(mixed.exit().expect("snapshot").unescapable_window.is_none());
}

#[test]
fn the_licence_continues_only_on_descent_contraction_or_a_saddle() {
    let mut stall = monitor(2);
    seed(&mut stall, 0.0, 1.0, 1.0, None);
    assert!(stall.license_continuation());
    assert!(!stall.license_continuation());
    assert!(stall.unprogressing_stop().is_some());

    let mut contracting = monitor(2);
    seed(&mut contracting, 0.0, 1.0, 1.0, None);
    assert!(contracting.license_continuation());
    observe(&mut contracting, 0.1, 1.0 - 1e-9, 0.5, true, None);
    assert!(contracting.license_continuation());

    let mut saddle = monitor(2);
    seed(&mut saddle, 0.0, 1.0, 1.0, Some(false));
    assert!(saddle.license_continuation());
    assert!(saddle.license_continuation());
}

#[test]
fn the_probe_scale_reports_the_median_difference_and_the_largest_step() {
    let mut stall = monitor(4);
    seed(&mut stall, 0.0, 10.0, 1.0, None);
    observe(&mut stall, 0.5, 10.0, 1.0, true, None);
    assert!(stall.window_probe_scale().is_none());
    observe(&mut stall, 0.7, 10.0 + 3e-3, 1.0, true, None);
    observe(&mut stall, 0.8, 10.0 + 1e-3, 1.0, true, None);
    let (noise, radius) = stall.window_probe_scale().expect("three differences");
    assert!((num(noise) - 2e-3).abs() < 1e-12);
    assert!((num(radius) - 0.5).abs() < 1e-12);
}

#[test]
fn a_regressing_constrained_stationary_sample_keeps_the_incumbent() {
    let mut stall = monitor(3);
    seed(&mut stall, 0.0, 1.0, 1.0, None);
    assert!(matches!(
        constrained(&mut stall, 5.0, 2.0, 0.0),
        StallVerdict::Continue
    ));
    assert_eq!(stall.best_point(), Some(&point(0.0)));

    // Positive control: a non-regressing one is adopted and published converged.
    assert_eq!(
        constrained(&mut stall, 5.0, 1.0, 0.0),
        StallVerdict::Converged
    );
    assert_eq!(stall.exit().expect("published").point, point(5.0));
}

#[test]
fn the_window_keeps_the_latest_steps_solver_state() {
    let step = |sigma: f64, alpha: f64| StepInfo {
        iter: 0,
        step_norm: of(alpha),
        predicted_decrease: of(f64::NAN),
        actual_decrease: of(0.0),
        trust_radius: None,
        regularization: Some(of(sigma)),
        line_search_step: Some(of(alpha)),
    };
    let mut stall = monitor(2);
    stall.observe_step(&step(1.0, 0.5));
    stall.observe_step(&step(2.0, 0.25));
    // Positive control: before a third step, the oldest is still held.
    assert_eq!(
        stall
            .recent_steps()
            .iter()
            .next()
            .and_then(|kept| kept.regularization),
        Some(of(1.0))
    );
    stall.observe_step(&step(4.0, 0.125));
    let kept: Vec<_> = stall.recent_steps().iter().copied().collect();
    assert_eq!(kept.len(), 2);
    assert_eq!(kept[0].regularization, Some(of(2.0)));
    assert_eq!(kept[1].regularization, Some(of(4.0)));
    assert_eq!(kept[1].line_search_step, Some(of(0.125)));
    assert_eq!(num(kept[1].step_norm), 0.125);
}
