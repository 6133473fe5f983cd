//! End-to-end scenarios for the front-end state: literal event sequences
//! and the exact geometry they must leave behind.

use rrprof::event::RRProfTraceEvent;
use rrprof::state::TraceState;
use rrprof::VISIBLE_DURATION;

const CALL: u64 = 0;
const RETURN: u64 = 1;
const GC_START: u64 = 2;
const GC_END: u64 = 3;
const THREAD_SUSPENDED: u64 = 6;
const THREAD_RESUME: u64 = 7;
const THREAD_READY: u64 = 5;

fn ev(code: u64, t: u64, data: u64) -> RRProfTraceEvent {
    RRProfTraceEvent::pack(code, t, data)
}

#[test]
fn single_call_makes_one_closed_box() {
    let mut state = TraceState::new(1 << 20);
    state.process_events(&[ev(CALL, 100, 7), ev(RETURN, 200, 7)]);
    let stack = state.thread_stack(0).expect("thread 0 exists");
    assert_eq!(stack.stack_len(), 0);
    assert_eq!(stack.vertices_len(), 1);
    let b = *stack.vertex(0).unwrap();
    assert_eq!(b.start(), 100);
    assert_eq!(b.end(), 200);
    assert_eq!(b.method_id, 7);
    assert_eq!(b.depth, 0);
    assert!(!b.is_open());
}

#[test]
fn gc_pause_splits_a_call_into_two_boxes() {
    let mut state = TraceState::new(1 << 20);
    state.process_events(&[
        ev(CALL, 100, 1),
        ev(GC_START, 150, 0),
        ev(GC_END, 180, 0),
        ev(RETURN, 200, 1),
    ]);
    let stack = state.thread_stack(0).unwrap();
    assert_eq!(stack.stack_len(), 0);
    assert_eq!(stack.vertices_len(), 2);
    let first = *stack.vertex(0).unwrap();
    let second = *stack.vertex(1).unwrap();
    assert_eq!((first.start(), first.end()), (100, 150));
    assert_eq!((second.start(), second.end()), (180, 200));
    assert_eq!(first.method_id, 1);
    assert_eq!(second.method_id, 1);
    assert_eq!(first.depth, 0);
    assert_eq!(second.depth, 0);
    assert_eq!(stack.used_len(), 2);
}

#[test]
fn mismatched_return_unwinds_both_frames() {
    let mut state = TraceState::new(1 << 20);
    state.process_events(&[ev(CALL, 100, 1), ev(CALL, 110, 2), ev(RETURN, 120, 1)]);
    let stack = state.thread_stack(0).unwrap();
    assert_eq!(stack.stack_len(), 0);
    assert_eq!(stack.vertices_len(), 2);
    let outer = *stack.vertex(0).unwrap();
    let inner = *stack.vertex(1).unwrap();
    assert_eq!((outer.start(), outer.end(), outer.method_id), (100, 120, 1));
    assert_eq!((inner.start(), inner.end(), inner.method_id), (110, 120, 2));
}

#[test]
fn suspend_and_resume_reopen_the_call() {
    let mut state = TraceState::new(1 << 20);
    state.process_events(&[
        ev(THREAD_RESUME, 100, 5),
        ev(CALL, 110, 9),
        ev(THREAD_SUSPENDED, 120, 5),
        ev(THREAD_RESUME, 130, 5),
        ev(RETURN, 140, 9),
    ]);
    let stack = state.thread_stack(5).expect("thread 5 exists");
    assert_eq!(stack.stack_len(), 0);
    assert_eq!(stack.vertices_len(), 2);
    let before = *stack.vertex(0).unwrap();
    let after = *stack.vertex(1).unwrap();
    assert_eq!((before.start(), before.end(), before.method_id, before.depth), (110, 120, 9, 0));
    assert_eq!((after.start(), after.end(), after.method_id, after.depth), (130, 140, 9, 0));
}

#[test]
fn eviction_frees_the_slot_and_forgets_the_depth() {
    let mut state = TraceState::new(1 << 20);
    state.process_events(&[ev(CALL, 100, 1), ev(RETURN, 200, 1)]);
    // right after the return the closed frame's depth is still counted
    assert_eq!(state.thread_stack(0).unwrap().max_visible_depth(), Some(0));
    let now = 200 + VISIBLE_DURATION + 1;
    state.process_events(&[ev(THREAD_READY, now, 0)]);
    state.sync();
    let stack = state.thread_stack(0).unwrap();
    assert_eq!(stack.free_len(), 1);
    assert_eq!(stack.used_len(), 0);
    assert_eq!(stack.pending_len(), 0);
    assert_eq!(stack.max_visible_depth(), None);
    assert_eq!(state.max_depth(), 0);
}

#[test]
fn depth_is_counted_while_visible() {
    let mut state = TraceState::new(1 << 20);
    state.process_events(&[ev(CALL, 100, 1), ev(CALL, 110, 2)]);
    // two open frames: depths 0 and 1 are visible
    assert_eq!(state.max_depth(), 1);
    state.process_events(&[ev(RETURN, 120, 2)]);
    state.sync();
    // the closed depth is still inside the visibility window
    assert_eq!(state.max_depth(), 1);
}

#[test]
fn balanced_calls_leave_no_open_box() {
    let mut state = TraceState::new(1 << 20);
    state.process_events(&[
        ev(CALL, 100, 1),
        ev(CALL, 110, 2),
        ev(RETURN, 120, 2),
        ev(RETURN, 130, 1),
    ]);
    let stack = state.thread_stack(0).unwrap();
    assert_eq!(stack.stack_len(), 0);
    for i in 0..stack.vertices_len() {
        let b = *stack.vertex(i).unwrap();
        assert!(!b.is_open());
        assert!(b.start() <= b.end());
    }
}

#[test]
fn unknown_event_codes_are_ignored() {
    let mut state = TraceState::new(1 << 20);
    state.process_events(&[ev(12, 500, 42)]);
    assert_eq!(state.num_threads(), 0);
    assert_eq!(state.base_time_ns(), 0);
    state.process_events(&[ev(THREAD_READY, 700, 0)]);
    assert_eq!(state.base_time_ns(), 700);
    assert_eq!(state.num_threads(), 0);
}

#[test]
fn calls_before_any_resume_go_to_thread_zero() {
    let mut state = TraceState::new(1 << 20);
    state.process_events(&[ev(CALL, 10, 3)]);
    assert_eq!(state.num_threads(), 1);
    assert!(state.thread_stack(0).is_some());
    assert_eq!(state.thread_stack(0).unwrap().stack_len(), 1);
}

#[test]
fn slot_accounting_holds_through_a_busy_sequence() {
    let mut state = TraceState::new(1 << 20);
    state.process_events(&[
        ev(THREAD_RESUME, 10, 1),
        ev(CALL, 20, 100),
        ev(CALL, 30, 200),
        ev(CALL, 40, 300),
        ev(RETURN, 50, 300),
        ev(CALL, 60, 400),
        ev(RETURN, 70, 400),
        ev(RETURN, 80, 200),
        ev(CALL, 90, 500),
    ]);
    let stack = state.thread_stack(1).unwrap();
    // open frames never outnumber live slots, which never outnumber boxes
    assert!(stack.stack_len() <= stack.used_len());
    assert!(stack.used_len() <= stack.vertices_len());
    // nothing has expired yet, so no slot is free
    assert_eq!(stack.free_len(), 0);
    assert_eq!(stack.stack_len(), 2);
    assert_eq!(stack.used_len(), 5);
    assert_eq!(stack.vertices_len(), 5);
}

#[test]
fn expired_slot_is_reused_by_the_next_call() {
    let mut state = TraceState::new(1 << 20);
    state.process_events(&[ev(CALL, 100, 1), ev(RETURN, 200, 1)]);
    let late = 200 + VISIBLE_DURATION + 1;
    state.process_events(&[ev(CALL, late, 2)]);
    let stack = state.thread_stack(0).unwrap();
    // the expired slot was recycled: still a single box, now for method 2
    assert_eq!(stack.vertices_len(), 1);
    let b = *stack.vertex(0).unwrap();
    assert_eq!(b.method_id, 2);
    assert_eq!(b.start(), late);
    assert!(b.is_open());
}
