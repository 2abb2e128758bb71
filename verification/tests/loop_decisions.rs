use kersd::address::Address;
use kersd::cursor::BlockCursor;
use kersd::orchestrator::{
    classify, CollectionOutcome, DrainAction, DrainEvent, TaskOrchestrator, UnitError,
};

fn addr(seed: u8) -> Address {
    Address::from_bytes(vec![seed; 20]).expect("20 bytes")
}

#[test]
fn cursor_advances_only_on_strictly_greater_heights() {
    let mut c = BlockCursor::new(10);
    assert_eq!(c.advance(10), None);
    assert_eq!(c.advance(9), None);
    assert_eq!(c.advance(11), Some(11));
    assert_eq!(c.advance(11), None);
    assert_eq!(c.advance(12), Some(12));
    assert_eq!(c.advance(0), None);
}

#[test]
fn drain_stops_on_timeout_and_empty() {
    let mut o = TaskOrchestrator::new();
    o.spawn_wave(3);
    assert!(matches!(o.drain_step(&DrainEvent::Timeout), DrainAction::StopPolling));
    assert!(matches!(o.drain_step(&DrainEvent::Empty), DrainAction::StopPolling));
}

#[test]
fn drain_continues_and_counts_down_on_finished_units() {
    let mut o = TaskOrchestrator::new();
    o.spawn_wave(2);
    let done = DrainEvent::UnitCompleted(5, addr(1));
    assert!(matches!(o.drain_step(&done), DrainAction::ContinuePolling));
    let failed = DrainEvent::UnitFailed(UnitError::Persist);
    assert!(matches!(o.drain_step(&failed), DrainAction::ContinuePolling));
    assert!(matches!(o.drain_step(&DrainEvent::JoinFailed), DrainAction::ContinuePolling));
}

#[test]
fn outcomes_classify_by_failure_kind() {
    assert!(classify(&DrainEvent::Timeout).is_none());
    assert!(classify(&DrainEvent::Empty).is_none());
    assert!(classify(&DrainEvent::JoinFailed).is_none());
    assert!(matches!(
        classify(&DrainEvent::UnitFailed(UnitError::Snapshot)),
        Some(CollectionOutcome::SnapshotError)
    ));
    assert!(matches!(
        classify(&DrainEvent::UnitFailed(UnitError::Math)),
        Some(CollectionOutcome::MathError)
    ));
    assert!(matches!(
        classify(&DrainEvent::UnitFailed(UnitError::Persist)),
        Some(CollectionOutcome::PersistError)
    ));
    match classify(&DrainEvent::UnitCompleted(42, addr(7))) {
        Some(CollectionOutcome::Success { block, pool }) => {
            assert_eq!(block, 42);
            assert!(pool.eq_bytes(&addr(7)));
        },
        other => panic!("expected a success outcome, got {}", other.is_some()),
    }
}
