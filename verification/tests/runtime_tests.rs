//! The periodic runtime: control coalescing, the state slot, and shutdown.

use candlerunner::periodic::{
    coalesce_controls, resolve_step, shutdown_step, Control, PeriodicPhase, ShutdownAction,
    StateHolder,
};

#[test]
fn force_updates_coalesce_into_one_step() {
    // Ten forced updates drained together trigger one step and collect every
    // notify handle once, in order.
    let mut controls: Vec<Control> = Vec::new();
    let mut i: u64 = 0;
    while i < 10 {
        controls.push(Control::ForceUpdate(i));
        i += 1;
    }
    let decision = coalesce_controls(&controls);
    assert!(!decision.stop);
    assert!(decision.run_step);
    assert_eq!(decision.notifies, vec![0, 1, 2, 3, 4, 5, 6, 7, 8, 9]);
}

#[test]
fn stop_wins_over_everything() {
    let controls = vec![
        Control::ForceUpdate(1),
        Control::Update,
        Control::Stop,
        Control::ForceUpdate(2),
    ];
    let decision = coalesce_controls(&controls);
    assert!(decision.stop);
    assert!(!decision.run_step);
    assert_eq!(decision.notifies, vec![1, 2]);
}

#[test]
fn ordinary_ticks_run_one_step() {
    let decision = coalesce_controls(&vec![Control::Update, Control::Update]);
    assert!(!decision.stop);
    assert!(decision.run_step);
    assert!(decision.notifies.is_empty());
}

#[test]
fn empty_drain_does_nothing() {
    let decision = coalesce_controls(&Vec::new());
    assert!(!decision.stop);
    assert!(!decision.run_step);
}

#[test]
fn shutdown_is_idempotent() {
    // The first shutdown stops and joins; a second one is a no-op and does
    // not fail.
    let (phase, action) = shutdown_step(PeriodicPhase::Running);
    assert_eq!(phase, PeriodicPhase::Stopped);
    assert_eq!(action, ShutdownAction::StopAndJoin);
    let (phase2, action2) = shutdown_step(phase);
    assert_eq!(phase2, PeriodicPhase::Stopped);
    assert_eq!(action2, ShutdownAction::Nothing);
}

#[test]
fn state_holder_replaces_snapshots() {
    let mut holder = StateHolder::new(5u64);
    assert_eq!(*holder.get(), 5);
    holder.set(7);
    assert_eq!(*holder.get(), 7);
}

#[test]
fn failed_step_keeps_previous_state() {
    let kept = resolve_step(3u64, Err::<u64, &str>("transient"));
    assert_eq!(kept, 3);
    let next = resolve_step(3u64, Ok::<u64, &str>(9));
    assert_eq!(next, 9);
}
