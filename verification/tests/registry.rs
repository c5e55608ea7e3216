use elevator_scheduler::app::{
    enqueue_wait_floor, mark_wait_scheduled, remove_wait_floor, EnqueueResult,
};
use elevator_scheduler::conf::MAX_WAIT_FLOOR_NUM;
use elevator_scheduler::floor_btn::{Direction, WaitFloorTxtState};

fn entry(floor: i16, direction: Direction) -> WaitFloorTxtState {
    WaitFloorTxtState { floor, direction, is_scheduled: false }
}

#[test]
fn enqueue_accepts_new_call() {
    let mut q = Vec::new();
    let r = enqueue_wait_floor(&mut q, 7, Direction::Up);
    assert_eq!(r, EnqueueResult::Accepted);
    assert_eq!(q.len(), 1);
    assert_eq!(q[0], entry(7, Direction::Up));
}

#[test]
fn enqueue_rejects_duplicate_and_keeps_registry() {
    let mut q = Vec::new();
    assert_eq!(enqueue_wait_floor(&mut q, 7, Direction::Up), EnqueueResult::Accepted);
    let before = q.clone();
    let r = enqueue_wait_floor(&mut q, 7, Direction::Up);
    assert_eq!(r, EnqueueResult::Duplicate);
    assert_eq!(q, before);
}

#[test]
fn enqueue_same_floor_other_direction_is_new() {
    let mut q = Vec::new();
    assert_eq!(enqueue_wait_floor(&mut q, 7, Direction::Up), EnqueueResult::Accepted);
    assert_eq!(enqueue_wait_floor(&mut q, 7, Direction::Down), EnqueueResult::Accepted);
    assert_eq!(q.len(), 2);
}

#[test]
fn enqueue_full_rejects_and_keeps_registry() {
    let mut q = Vec::new();
    for f in 1..=(MAX_WAIT_FLOOR_NUM as i16) {
        assert_eq!(enqueue_wait_floor(&mut q, f, Direction::Up), EnqueueResult::Accepted);
    }
    assert_eq!(q.len(), MAX_WAIT_FLOOR_NUM);
    let before = q.clone();
    let r = enqueue_wait_floor(&mut q, 35, Direction::Up);
    assert_eq!(r, EnqueueResult::Full);
    assert_eq!(q, before);
}

#[test]
fn mark_scheduled_touches_only_the_match() {
    let mut q = vec![entry(3, Direction::Up), entry(4, Direction::Down), entry(3, Direction::Down)];
    mark_wait_scheduled(&mut q, 3, Direction::Down);
    assert!(!q[0].is_scheduled);
    assert!(!q[1].is_scheduled);
    assert!(q[2].is_scheduled);
}

#[test]
fn remove_served_keeps_order_of_others() {
    let mut q = vec![entry(3, Direction::Up), entry(4, Direction::Down), entry(5, Direction::Up)];
    remove_wait_floor(&mut q, 4, Direction::Down);
    assert_eq!(q, vec![entry(3, Direction::Up), entry(5, Direction::Up)]);
}

#[test]
fn remove_served_is_noop_on_direction_mismatch() {
    let mut q = vec![entry(3, Direction::Up)];
    remove_wait_floor(&mut q, 3, Direction::Down);
    assert_eq!(q, vec![entry(3, Direction::Up)]);
}
