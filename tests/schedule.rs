use hammer_assets::schedule::{TickAction, WorkerKind, WorkerState};

#[test]
fn overlapping_tick_is_dropped() {
    let mut w = WorkerState::new();
    assert_eq!(w.on_tick(), TickAction::Start);
    assert_eq!(w.on_tick(), TickAction::Skip);
    assert!(w.is_running());
}

#[test]
fn dropped_tick_is_not_queued() {
    let mut w = WorkerState::new();
    assert_eq!(w.on_tick(), TickAction::Start);
    assert_eq!(w.on_tick(), TickAction::Skip);
    assert_eq!(w.on_tick(), TickAction::Skip);
    w.on_finished();
    assert!(!w.is_running());
    assert_eq!(w.on_tick(), TickAction::Start);
    assert_eq!(w.on_tick(), TickAction::Skip);
}

#[test]
fn worker_periods() {
    assert_eq!(WorkerKind::Balance.period_secs(), 300);
    assert_eq!(WorkerKind::Price.period_secs(), 60);
    assert_eq!(WorkerKind::Wallet.period_secs(), 3600);
}
