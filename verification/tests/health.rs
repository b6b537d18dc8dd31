//! The health monitor's state machine.

use nixconsul::check::HealthAction;
use nixconsul::check::health_step;
use nixconsul::check::run_probes;

#[test]
fn failing_probe_of_unmarked_service_marks_and_deregisters() {
    assert_eq!(health_step(false, false), HealthAction::BecomeUnavailable);
}

#[test]
fn failing_probe_of_marked_service_changes_nothing() {
    assert_eq!(health_step(true, false), HealthAction::Keep);
}

#[test]
fn succeeding_probe_of_marked_service_recovers() {
    assert_eq!(health_step(true, true), HealthAction::Recover);
}

#[test]
fn succeeding_probe_of_unmarked_service_changes_nothing() {
    assert_eq!(health_step(false, true), HealthAction::Keep);
}

#[test]
fn down_down_up_marks_once_and_recovers_once() {
    // Probed Unavailable, Unavailable, Available: the store sees exactly one
    // mark and one recovery, in that order.
    let actions = run_probes(false, &vec![false, false, true]);
    assert_eq!(
        actions,
        vec![
            HealthAction::BecomeUnavailable,
            HealthAction::Keep,
            HealthAction::Recover,
        ]
    );
    let marks = actions
        .iter()
        .filter(|a| **a == HealthAction::BecomeUnavailable)
        .count();
    let recoveries = actions.iter().filter(|a| **a == HealthAction::Recover).count();
    assert_eq!(marks, 1);
    assert_eq!(recoveries, 1);
}

#[test]
fn timeout_then_recovery_deregisters_then_clears_the_record() {
    // A timed-out probe asks for the record and the deregistration; the
    // later successful probe only clears the record — re-registration waits
    // for the next reconciliation pass.
    let first = health_step(false, false);
    assert_eq!(first, HealthAction::BecomeUnavailable);
    let second = health_step(true, true);
    assert_eq!(second, HealthAction::Recover);
}

#[test]
fn steady_states_ask_for_nothing() {
    let actions = run_probes(false, &vec![true, true, true]);
    assert_eq!(
        actions,
        vec![HealthAction::Keep, HealthAction::Keep, HealthAction::Keep]
    );
    let actions = run_probes(true, &vec![false, false]);
    assert_eq!(actions, vec![HealthAction::Keep, HealthAction::Keep]);
}
