use elevator_scheduler::app::ElevatorApp;
use elevator_scheduler::conf::MAX_PERSON_CAPACITY;
use elevator_scheduler::elevator::{Elevator, ElevatorMeta};
use elevator_scheduler::floor::Floor;
use elevator_scheduler::lift::{sort_costs, LiftUpDownCost};
use elevator_scheduler::scheduler::{
    arrange_down_elevator, arrange_up_elevator, cam_elevator_down, can_elevator_up,
    stair_capacity,
};
use elevator_scheduler::state::State;
use elevator_scheduler::up_down_elevator_floor as scan2;
use elevator_scheduler::upDownElevatorFloor as scan1;

fn console_car(no: u8, floor: i16, persons: u8, state: State) -> Elevator {
    Elevator {
        no,
        meta: ElevatorMeta { persons, cur_floor: floor },
        state,
        stop_floors: Vec::new(),
    }
}

#[test]
fn diff_floor_collapses_zero_gap() {
    let m = ElevatorMeta { persons: 0, cur_floor: 5 };
    assert_eq!(m.diff_floor(9), 4);
    // The gap at the non-existent floor 0 is collapsed.
    assert_eq!(m.diff_floor(-3), 7);
    assert_eq!(m.diff_floor(5), 0);
    let edge = ElevatorMeta { persons: 0, cur_floor: -1 };
    assert_eq!(edge.diff_floor(1), 1);
    assert_eq!(edge.diff_floor(-4), 3);
}

#[test]
fn set_person_num_matches_reported_exchange() {
    let mut m = ElevatorMeta { persons: 10, cur_floor: 1 };
    for _ in 0..100 {
        let before = m.persons;
        let (plus, num) = m.set_person_num();
        assert!((1..=8).contains(&num));
        let expected = if plus {
            (before + num).min(MAX_PERSON_CAPACITY)
        } else {
            before.saturating_sub(num)
        };
        assert_eq!(m.persons, expected);
        assert!(m.persons <= MAX_PERSON_CAPACITY);
    }
}

#[test]
fn can_in_depends_on_state_and_side() {
    let resting = console_car(0, 5, 0, State::Stop);
    assert!(resting.can_in(Floor::Up(9)));
    assert!(resting.can_in(Floor::Down(2)));
    let up = console_car(0, 5, 0, State::GoingUp);
    assert!(up.can_in(Floor::Up(9)));
    assert!(!up.can_in(Floor::Up(3)));
    assert!(!up.can_in(Floor::Down(9)));
    let full = console_car(0, 5, MAX_PERSON_CAPACITY, State::Stop);
    assert!(!full.can_in(Floor::Up(9)));
    let down = console_car(0, 5, 0, State::Maintaining);
    assert!(!down.can_in(Floor::Up(9)));
}

#[test]
fn handle_state_follows_first_destination() {
    let mut e = console_car(0, 5, 0, State::Stop);
    assert_eq!(e.handle_state(), None);
    assert!(e.input_floor(9));
    assert_eq!(e.handle_state(), Some(true));
    assert_eq!(e.state, State::GoingUp);

    let mut e2 = console_car(1, 5, 0, State::Stop);
    assert!(e2.input_floor(2));
    assert_eq!(e2.handle_state(), Some(false));
    assert_eq!(e2.state, State::GoingDown);
}

#[test]
fn input_floor_respects_direction_and_bounds() {
    let mut e = console_car(0, 5, 0, State::GoingUp);
    assert!(e.input_floor(9));
    assert!(!e.input_floor(2));
    assert_eq!(e.stop_floors, vec![9]);
    assert!(!e.input_floor(99));
    // The non-existent floor 0 is an input violation.
    assert!(!e.input_floor(0));
    assert_eq!(e.stop_floors, vec![9]);
}

#[test]
fn serve_pickup_rides_and_opens_doors() {
    let mut e = console_car(0, 3, 0, State::Stop);
    assert!(e.input_floor(5));
    assert!(e.input_floor(9));
    // The pickup ride to 6 passes the destination at 5 and serves it.
    assert!(e.serve_pickup(6, true));
    assert_eq!(e.meta.cur_floor, 6);
    assert_eq!(e.state, State::GoingUpSuspend);
    assert_eq!(e.stop_floors, vec![9]);
    // A pickup behind an up run is refused and changes nothing.
    assert!(!e.serve_pickup(2, true));
    assert_eq!(e.meta.cur_floor, 6);
    assert_eq!(e.state, State::GoingUpSuspend);
    assert_eq!(e.stop_floors, vec![9]);
    // A full car picks nobody up.
    let mut full = console_car(1, 3, MAX_PERSON_CAPACITY, State::Stop);
    assert!(!full.serve_pickup(6, true));
    assert_eq!(full.state, State::Stop);
}

#[test]
fn person_updown_step_serves_nearest_first() {
    let mut e = console_car(0, 2, 0, State::Stop);
    assert!(e.input_floor(9));
    assert!(e.input_floor(5));
    let first = e.person_updown_step().unwrap();
    assert_eq!(first, (5, true));
    assert_eq!(e.meta.cur_floor, 5);
    let second = e.person_updown_step().unwrap();
    assert_eq!(second, (9, false));
    assert_eq!(e.state, State::Stop);
    assert_eq!(e.person_updown_step(), None);
}

#[test]
fn candidate_checks_for_pickup() {
    let stairs = vec![8, 12];
    let e = console_car(0, 5, 0, State::Stop);
    assert!(can_elevator_up(&stairs, &e));
    assert!(!cam_elevator_down(&stairs, &e));
    let low = vec![2];
    assert!(cam_elevator_down(&low, &e));
    let full = console_car(0, 5, MAX_PERSON_CAPACITY, State::Stop);
    assert!(!can_elevator_up(&stairs, &full));
}

#[test]
fn stair_capacity_value() {
    assert_eq!(stair_capacity(), 88);
}

#[test]
fn arrange_up_assigns_nearest_car_below() {
    // Cars 0 at floor 2 and 1 at floor 6; waiting floors 4, 8, 9.
    let stairs = vec![4, 8, 9];
    let elevators = vec![(0u8, 2i16), (1u8, 6i16)];
    let ret = arrange_up_elevator(&stairs, &elevators);
    assert_eq!(ret.len(), 2);
    assert_eq!(ret[0].0, 0);
    assert_eq!(ret[0].1, vec![4]);
    assert_eq!(ret[1].0, 1);
    assert_eq!(ret[1].1, vec![8, 9]);
}

#[test]
fn arrange_down_skips_used_cars() {
    // Cars 0 at floor 9 and 1 at floor 5; waiting floors 3 and 7; car 1 is
    // already riding up, so car 0 takes both.
    let stairs = vec![3, 7];
    let elevators = vec![(0u8, 9i16), (1u8, 5i16)];
    let used = vec![1u8];
    let ret = arrange_down_elevator(&stairs, &elevators, &used);
    assert_eq!(ret[0].1, vec![3, 7]);
    assert_eq!(ret[1].1, Vec::<i16>::new());
}

#[test]
fn scan_order_person_before_elevator() {
    let p = scan1::UpDownElevatorFloor { floor: 5, typ: scan1::FloorType::Person };
    let e = scan1::UpDownElevatorFloor { floor: 5, typ: scan1::FloorType::Elevator(0) };
    assert_eq!(p.inner_cmp(&e), std::cmp::Ordering::Less);
    assert_eq!(e.inner_cmp(&p), std::cmp::Ordering::Greater);
    let lower = scan1::UpDownElevatorFloor { floor: 3, typ: scan1::FloorType::Elevator(2) };
    assert_eq!(lower.inner_cmp(&p), std::cmp::Ordering::Less);
    assert_eq!(scan1::FloorType::default(), scan1::FloorType::Person);
}

#[test]
fn scan_order_with_states() {
    let run = scan2::UpDownElevatorFloor {
        floor: 5,
        typ: scan2::FloorType::Elevator(1),
        state: scan2::EState::Running,
    };
    let still = scan2::UpDownElevatorFloor {
        floor: 5,
        typ: scan2::FloorType::Elevator(0),
        state: scan2::EState::Stop,
    };
    assert_eq!(run.inner_cmp(&still), std::cmp::Ordering::Greater);
    assert_eq!(still.inner_cmp(&run), std::cmp::Ordering::Less);
    let run2 = scan2::UpDownElevatorFloor {
        floor: 5,
        typ: scan2::FloorType::Elevator(3),
        state: scan2::EState::Running,
    };
    assert_eq!(run.inner_cmp(&run2), std::cmp::Ordering::Less);
    assert_eq!(scan2::FloorType::default(), scan2::FloorType::Person);
}

#[test]
fn cost_order_prefers_cheap_then_busy() {
    let a = LiftUpDownCost { no: 0, cost: 3, cnt: 1 };
    let b = LiftUpDownCost { no: 1, cost: 5, cnt: 4 };
    assert_eq!(a.partial_cmp(&b), Some(std::cmp::Ordering::Less));
    let c = LiftUpDownCost { no: 2, cost: 3, cnt: 2 };
    // Equal cost: the entry serving more floors ranks first.
    assert_eq!(c.partial_cmp(&a), Some(std::cmp::Ordering::Less));
    assert!(a == LiftUpDownCost { no: 9, cost: 3, cnt: 1 });
}

#[test]
fn sort_costs_ranks_entries() {
    let mut v = vec![
        LiftUpDownCost { no: 0, cost: 9, cnt: 1 },
        LiftUpDownCost { no: 1, cost: 3, cnt: 1 },
        LiftUpDownCost { no: 2, cost: 3, cnt: 4 },
    ];
    sort_costs(&mut v);
    assert_eq!(v.len(), 3);
    assert_eq!(v[0].no, 2);
    assert_eq!(v[1].no, 1);
    assert_eq!(v[2].no, 0);
    for w in v.windows(2) {
        assert!(w[0].cost < w[1].cost || (w[0].cost == w[1].cost && w[0].cnt >= w[1].cnt));
    }
}

#[test]
fn handle_up_floors_ranks_resting_cars() {
    let mut app = ElevatorApp::default();
    for (i, l) in app.lifts.iter_mut().enumerate() {
        l.cur_floor = (i as i16) * 3 + 1;
    }
    // Car floors 1, 4, 7, 10; waiting floors 5 and 8.
    let floors = vec![5, 8];
    let ret = app.handle_up_floors(&floors);
    assert_eq!(ret.len(), 4);
    // The car at 10 has nothing ahead and costs zero; the car at 7 reaches
    // floor 8 at cost one and ranks next.
    assert_eq!(ret[0].no, 3);
    assert_eq!(ret[0].cost, 0);
    assert_eq!(ret[0].cnt, 0);
    assert_eq!(ret[1].no, 2);
    assert_eq!(ret[1].cost, 1);
    assert_eq!(ret[1].cnt, 1);
    let down = app.handle_down_floors(&floors);
    assert_eq!(down.len(), 4);
    // Going down, the car at 10 serves both floors at cost 2 + 5.
    assert!(down.iter().any(|e| e.no == 3 && e.cost == 7 && e.cnt == 2));
}
