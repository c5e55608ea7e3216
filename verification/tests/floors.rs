use elevator_scheduler::conf::{MAX_FLOOR, MIN_FLOOR};
use elevator_scheduler::floor::{advance_one, floor_diff, Floor};
use elevator_scheduler::floor_btn::Direction;
use elevator_scheduler::state::State;
use elevator_scheduler::util::{random_bool, random_floor, random_num, random_person_num};

#[test]
fn advance_up_skips_zero() {
    assert_eq!(advance_one(-1, true), 1);
}

#[test]
fn advance_down_skips_zero() {
    assert_eq!(advance_one(1, false), -1);
}

#[test]
fn advance_ordinary_steps() {
    assert_eq!(advance_one(5, true), 6);
    assert_eq!(advance_one(5, false), 4);
    assert_eq!(advance_one(-2, true), -1);
    assert_eq!(advance_one(-1, false), -2);
}

#[test]
fn floor_diff_collapses_zero_gap() {
    assert_eq!(floor_diff(-1, 1), 1);
    assert_eq!(floor_diff(1, -1), 1);
    assert_eq!(floor_diff(-4, 40), 43);
    assert_eq!(floor_diff(3, 8), 5);
    assert_eq!(floor_diff(8, 3), 5);
    assert_eq!(floor_diff(7, 7), 0);
}

#[test]
fn floor_value_reads_either_direction() {
    assert_eq!(Floor::Up(7).value(), 7);
    assert_eq!(Floor::Down(-3).value(), -3);
}

#[test]
fn floor_requests_equal_by_floor() {
    assert!(Floor::Up(7) == Floor::Down(7));
    assert!(Floor::Up(7) != Floor::Up(8));
}

#[test]
fn floor_inner_cmp_up_is_descending() {
    assert_eq!(Floor::Up(10).inner_cmp(&Floor::Up(3)), std::cmp::Ordering::Less);
    assert_eq!(Floor::Up(3).inner_cmp(&Floor::Up(10)), std::cmp::Ordering::Greater);
    assert_eq!(Floor::Up(5).inner_cmp(&Floor::Up(5)), std::cmp::Ordering::Equal);
}

#[test]
fn floor_inner_cmp_down_is_ascending() {
    assert_eq!(Floor::Down(3).inner_cmp(&Floor::Down(10)), std::cmp::Ordering::Less);
    assert_eq!(Floor::Down(10).inner_cmp(&Floor::Down(3)), std::cmp::Ordering::Greater);
}

#[test]
fn random_floor_is_valid() {
    for _ in 0..200 {
        let f = random_floor();
        assert!(f != 0);
        assert!(f >= MIN_FLOOR as i32 && f <= MAX_FLOOR as i32);
    }
}

#[test]
fn random_num_within_range() {
    assert_eq!(random_num(3, 3), 3);
    for _ in 0..100 {
        let n = random_num(-2, 4);
        assert!((-2..=4).contains(&n));
    }
}

#[test]
fn random_person_num_within_range() {
    for _ in 0..100 {
        let n = random_person_num();
        assert!((0..=20).contains(&n));
    }
}

#[test]
fn random_bool_runs() {
    let _ = random_bool();
}

#[test]
fn state_and_direction_defaults() {
    assert_eq!(State::default(), State::Stop);
    assert_eq!(Direction::default(), Direction::Up);
}
