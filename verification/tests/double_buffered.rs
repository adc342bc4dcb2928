use lagbuffer::{DoubleBufferedLagBuffer, LagBuffer};
use lagbuffer::list_state::{ListAction, ListEvent, ListState};

fn insert(id: usize, value: i32) -> ListEvent {
    ListEvent { id, value, target: 0, action: ListAction::Insert }
}

fn replace(id: usize, target: i32, value: i32) -> ListEvent {
    ListEvent { id, value, target, action: ListAction::Replace }
}

#[test]
fn lib_test_event_application_in_order() {
    let mut buffer = DoubleBufferedLagBuffer::<ListState, 4>::new(ListState::new());

    // Apply 5 insert events in order.
    buffer.update(insert(1, 10));
    buffer.update(insert(2, 20));
    buffer.update(insert(3, 30));
    buffer.update(insert(4, 40));
    buffer.update(insert(5, 50));

    // Verify that the current state is as expected (order matters here).
    assert_eq!(buffer.state().data, vec![10, 20, 30, 40, 50]);

    // Verify that a buffer swap happened and the secondary buffer is cleared.
    assert_eq!(buffer.get_secondary_buffer_len(), 0);
}

#[test]
fn test_same_state() {
    let mut buffer = DoubleBufferedLagBuffer::<ListState, 4>::new(ListState::new());

    // Apply 5 insert events in order.
    buffer.update(insert(1, 10));
    buffer.update(insert(2, 20));
    buffer.update(insert(3, 30));
    buffer.update(insert(4, 40));
    buffer.update(insert(5, 50));

    // Replaying either log onto its base snapshot yields the same state.
    let first = buffer.replay_buffer(0);
    let second = buffer.replay_buffer(1);
    assert_eq!(first, second);
}

#[test]
fn lib_test_event_application_out_of_order() {
    let mut buffer = DoubleBufferedLagBuffer::<ListState, 4>::new(ListState::new());

    buffer.update(insert(1, 10));
    buffer.update(insert(3, 30));
    buffer.update(insert(2, 20)); // Out-of-order event.

    // The state should reflect that the event with id=2 was applied in the
    // correct order.
    assert_eq!(buffer.state().data, vec![10, 20, 30]);
}

#[test]
fn test_buffer_has_half_after_swap() {
    let mut buffer = DoubleBufferedLagBuffer::<ListState, 4>::new(ListState::new());

    // Apply 5 events to trigger a buffer swap.
    buffer.update(insert(1, 10));
    buffer.update(insert(2, 20));
    buffer.update(insert(3, 30));
    buffer.update(insert(4, 40));
    buffer.update(insert(5, 50));

    // After the swap, one more than half of the events are in the active
    // buffer.
    assert_eq!(buffer.get_active_buffer_len(), 3);
}

#[test]
fn lib_test_replace_action() {
    let mut buffer = DoubleBufferedLagBuffer::<ListState, 4>::new(ListState::new());

    buffer.update(insert(1, 10));
    buffer.update(insert(2, 20));
    buffer.update(insert(3, 30));

    // Apply a replace event.
    buffer.update(replace(4, 20, 99));

    // Verify that the replace action was correctly applied.
    assert_eq!(buffer.state().data, vec![10, 99, 30]);
}

#[test]
fn double_buffered_late_replace_scenario() {
    // Inserts with keys 1, 2, 4, then a replace with key 3 that targets the
    // value 20: the replace is logically before the insert of 30, though it
    // arrives after it.
    let mut buffer = DoubleBufferedLagBuffer::<ListState, 4>::new(ListState::new());

    buffer.update(insert(1, 10));
    buffer.update(insert(2, 20));
    buffer.update(insert(4, 30));
    buffer.update(replace(3, 20, 100));

    assert_eq!(buffer.state().data, vec![10, 100, 30]);
}

#[test]
fn double_buffered_active_len_bounded_after_updates() {
    // len(active) <= SIZE holds immediately after every update.
    let mut buffer = DoubleBufferedLagBuffer::<ListState, 4>::new(ListState::new());
    for id in 1..=20usize {
        buffer.update(insert(id, id as i32));
        assert!(buffer.get_active_buffer_len() <= 4);
    }
}

#[test]
fn double_buffered_zero_events_keeps_initial_state() {
    let buffer = DoubleBufferedLagBuffer::<ListState, 4>::new(ListState { data: vec![7, 8] });
    assert_eq!(buffer.state().data, vec![7, 8]);
}

#[test]
fn double_buffered_reads_are_idempotent() {
    let mut buffer = DoubleBufferedLagBuffer::<ListState, 4>::new(ListState::new());
    buffer.update(insert(1, 10));
    buffer.update(insert(2, 20));
    let first = buffer.state().data.clone();
    let second = buffer.state().data.clone();
    assert_eq!(first, second);
}

#[test]
fn double_buffered_submission_orders_agree() {
    // Submitting in ascending key order takes the fast path; a permuted
    // submission of the same events must still produce the same state.
    let mut in_order = DoubleBufferedLagBuffer::<ListState, 4>::new(ListState::new());
    in_order.update(insert(1, 10));
    in_order.update(insert(2, 20));
    in_order.update(insert(3, 30));

    let mut permuted = DoubleBufferedLagBuffer::<ListState, 4>::new(ListState::new());
    permuted.update(insert(2, 20));
    permuted.update(insert(3, 30));
    permuted.update(insert(1, 10));

    assert_eq!(in_order.state().data, permuted.state().data);
}

#[test]
fn double_buffered_out_of_order_before_mirror_boundary() {
    // An out-of-order event older than the mirror's base boundary: the
    // mirror is re-based during the replay, so both logs still replay to
    // the same state and a later swap stays consistent.
    let mut buffer = DoubleBufferedLagBuffer::<ListState, 4>::new(ListState::new());

    buffer.update(insert(2, 20));
    buffer.update(insert(3, 30));
    buffer.update(insert(4, 40)); // mirroring starts here
    buffer.update(insert(1, 10)); // lands before the mirror boundary

    assert_eq!(buffer.state().data, vec![10, 20, 30, 40]);
    assert_eq!(buffer.replay_buffer(0), buffer.replay_buffer(1));

    // Push past the swap and check the state is still the sorted replay.
    buffer.update(insert(5, 50));
    buffer.update(insert(6, 60));
    assert_eq!(buffer.state().data, vec![10, 20, 30, 40, 50, 60]);
}

#[test]
fn double_buffered_matches_naive_sorted_replay() {
    // An independent reference: sort the full history by key and replay it.
    let keys = [5usize, 1, 3, 2, 8, 6, 7, 4, 9, 10];
    let mut buffer = DoubleBufferedLagBuffer::<ListState, 16>::new(ListState::new());
    for &k in keys.iter() {
        buffer.update(insert(k, (k * 10) as i32));
    }
    let mut sorted = keys.to_vec();
    sorted.sort();
    let expected: Vec<i32> = sorted.iter().map(|&k| (k * 10) as i32).collect();
    assert_eq!(buffer.state().data, expected);
}

#[test]
fn lag_buffer_trait_dispatch() {
    let mut buffer = DoubleBufferedLagBuffer::<ListState, 4>::new(ListState::new());
    LagBuffer::update(&mut buffer, insert(1, 10));
    LagBuffer::update(&mut buffer, insert(2, 20));
    let state: &ListState = LagBuffer::state(&buffer);
    assert_eq!(state.data, vec![10, 20]);
}
