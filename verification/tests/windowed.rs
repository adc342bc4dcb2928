use lagbuffer::double_ended::DoubleEndedLagBuffer;
use lagbuffer::list_state::{ListAction, ListEvent, ListState};

fn insert(id: usize, value: i32) -> ListEvent {
    ListEvent { id, value, target: 0, action: ListAction::Insert }
}

fn replace(id: usize, target: i32, value: i32) -> ListEvent {
    ListEvent { id, value, target, action: ListAction::Replace }
}

#[test]
fn double_ended_test_event_application_in_order() {
    let mut buffer = DoubleEndedLagBuffer::<ListState, 4>::new(ListState::new());

    // Apply 5 insert events in order.
    buffer.update(insert(1, 10));
    buffer.update(insert(2, 20));
    buffer.update(insert(3, 30));
    buffer.update(insert(4, 40));
    buffer.update(insert(5, 50));

    // Verify that the current state is as expected (order matters here).
    assert_eq!(buffer.state_ref().data, vec![10, 20, 30, 40, 50]);
}

#[test]
fn double_ended_test_event_application_out_of_order() {
    let mut buffer = DoubleEndedLagBuffer::<ListState, 4>::new(ListState::new());

    buffer.update(insert(1, 10));
    buffer.update(insert(3, 30));
    buffer.update(insert(2, 20)); // Out-of-order event.

    // The state should reflect that the event with id=2 was applied in the
    // correct order.
    assert_eq!(buffer.state_ref().data, vec![10, 20, 30]);
}

#[test]
fn double_ended_test_replace_action() {
    let mut buffer = DoubleEndedLagBuffer::<ListState, 4>::new(ListState::new());

    buffer.update(insert(1, 10));
    buffer.update(insert(2, 20));
    buffer.update(insert(3, 30));

    // Apply a replace event.
    buffer.update(replace(4, 20, 99));

    // Verify that the replace action was correctly applied.
    assert_eq!(buffer.state_ref().data, vec![10, 99, 30]);
}

#[test]
fn windowed_late_replace_scenario() {
    // Inserts with keys 1, 2, 4, then a replace with key 3 that targets the
    // value 20: the replace is logically before the insert of 30, though it
    // arrives after it.
    let mut buffer = DoubleEndedLagBuffer::<ListState, 4>::new(ListState::new());

    buffer.update(insert(1, 10));
    buffer.update(insert(2, 20));
    buffer.update(insert(4, 30));
    buffer.update(replace(3, 20, 100));

    assert_eq!(buffer.state_ref().data, vec![10, 100, 30]);
}

#[test]
fn windowed_out_of_order_after_eviction() {
    // With capacity 2, the first insert is folded into the trailing
    // snapshot before the out-of-order replace arrives; the replace is
    // merged within the remaining window and the oldest merged event is
    // folded out.
    let mut buffer = DoubleEndedLagBuffer::<ListState, 2>::new(ListState::new());

    buffer.update(insert(1, 10));
    buffer.update(insert(2, 20));
    buffer.update(insert(4, 30));
    buffer.update(replace(3, 20, 100));

    assert_eq!(buffer.state_ref().data, vec![10, 100, 30]);
}

#[test]
fn windowed_zero_events_keeps_initial_state() {
    let buffer = DoubleEndedLagBuffer::<ListState, 4>::new(ListState { data: vec![7, 8] });
    assert_eq!(buffer.state_ref().data, vec![7, 8]);
}

#[test]
fn windowed_reads_are_idempotent() {
    let mut buffer = DoubleEndedLagBuffer::<ListState, 4>::new(ListState::new());
    buffer.update(insert(1, 10));
    buffer.update(insert(2, 20));
    let first = buffer.state_ref().data.clone();
    let second = buffer.state_ref().data.clone();
    assert_eq!(first, second);
}

#[test]
fn windowed_matches_naive_sorted_replay() {
    // An independent reference: sort the full history by key and replay it.
    // The window is larger than the history, so nothing is folded away.
    let keys = [5usize, 1, 3, 2, 8, 6, 7, 4, 9, 10];
    let mut buffer = DoubleEndedLagBuffer::<ListState, 16>::new(ListState::new());
    for &k in keys.iter() {
        buffer.update(insert(k, (k * 10) as i32));
    }
    let mut sorted = keys.to_vec();
    sorted.sort();
    let expected: Vec<i32> = sorted.iter().map(|&k| (k * 10) as i32).collect();
    assert_eq!(buffer.state_ref().data, expected);
}

#[test]
fn windowed_submission_orders_agree() {
    // Submitting in ascending key order takes the fast path; a permuted
    // submission of the same events must still produce the same state.
    let mut in_order = DoubleEndedLagBuffer::<ListState, 4>::new(ListState::new());
    in_order.update(insert(1, 10));
    in_order.update(insert(2, 20));
    in_order.update(insert(3, 30));

    let mut permuted = DoubleEndedLagBuffer::<ListState, 4>::new(ListState::new());
    permuted.update(insert(2, 20));
    permuted.update(insert(3, 30));
    permuted.update(insert(1, 10));

    assert_eq!(in_order.state_ref().data, permuted.state_ref().data);
}
