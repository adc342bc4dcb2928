use lagbuffer::manual::{EventOrSnapshot, ManualLagBuffer};
use lagbuffer::list_state::{ListAction, ListEvent, ListState};

fn insert(id: usize, value: i32) -> ListEvent {
    ListEvent { id, value, target: 0, action: ListAction::Insert }
}

fn replace(id: usize, target: i32, value: i32) -> ListEvent {
    ListEvent { id, value, target, action: ListAction::Replace }
}

#[test]
fn manual_in_order_application() {
    let mut buffer = ManualLagBuffer::<ListState, 4>::new(ListState::new());

    buffer.update(insert(1, 10));
    buffer.update(insert(2, 20));
    buffer.update(insert(3, 30));

    assert_eq!(buffer.state().data, vec![10, 20, 30]);
}

#[test]
fn manual_replace_action() {
    let mut buffer = ManualLagBuffer::<ListState, 4>::new(ListState::new());

    buffer.update(insert(1, 10));
    buffer.update(insert(2, 20));
    buffer.update(insert(3, 30));
    buffer.update(replace(4, 20, 99));

    assert_eq!(buffer.state().data, vec![10, 99, 30]);
}

#[test]
fn manual_out_of_order_is_a_no_op() {
    // This strategy's documented contract: an out-of-order submission
    // leaves the log, and so the reconstructed state, unchanged.
    let mut buffer = ManualLagBuffer::<ListState, 4>::new(ListState::new());

    buffer.update(insert(1, 10));
    buffer.update(insert(3, 30));
    buffer.update(insert(2, 20)); // dropped

    assert_eq!(buffer.state().data, vec![10, 30]);
}

#[test]
fn manual_zero_events_keeps_initial_state() {
    let buffer = ManualLagBuffer::<ListState, 4>::new(ListState { data: vec![7, 8] });
    assert_eq!(buffer.state().data, vec![7, 8]);
}

#[test]
fn manual_reads_are_idempotent() {
    let mut buffer = ManualLagBuffer::<ListState, 4>::new(ListState::new());
    buffer.update(insert(1, 10));
    buffer.update(insert(2, 20));
    let first = buffer.state();
    let second = buffer.state();
    assert_eq!(first, second);
}

#[test]
fn manual_equal_keys_are_kept() {
    // Events with equal keys are not deduplicated; both are retained and
    // applied in submission order.
    let mut buffer = ManualLagBuffer::<ListState, 4>::new(ListState::new());

    buffer.update(insert(1, 10));
    buffer.update(insert(1, 20));

    assert_eq!(buffer.state().data, vec![10, 20]);
}

#[test]
fn event_or_snapshot_is_snapshot() {
    let snapshot: EventOrSnapshot<ListState> =
        EventOrSnapshot::Snapshot(ListState { data: vec![1] });
    let event: EventOrSnapshot<ListState> = EventOrSnapshot::Event(insert(1, 10));

    assert!(snapshot.is_snapshot());
    assert!(!event.is_snapshot());
    assert_eq!(snapshot.as_snapshot().data, vec![1]);
    assert_eq!(event.as_event().value, 10);
}
