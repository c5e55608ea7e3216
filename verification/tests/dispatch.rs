use elevator_scheduler::app::{ElevatorApp, EnqueueResult};
use elevator_scheduler::floor_btn::{Direction, WaitFloorTxtState};
use elevator_scheduler::lift::{Lift, ScheduleStop};
use elevator_scheduler::message::AppMessage;
use elevator_scheduler::state::State;

fn idle_lift(no: usize, floor: i16) -> Lift {
    Lift {
        no,
        state: State::Stop,
        persons: 0,
        cur_floor: floor,
        can_click_btn: false,
        stop_floors: Vec::new(),
        schedule_floors: Vec::new(),
    }
}

fn entry(floor: i16, direction: Direction, is_scheduled: bool) -> WaitFloorTxtState {
    WaitFloorTxtState { floor, direction, is_scheduled }
}

fn bank(lifts: Vec<Lift>, wait: Vec<WaitFloorTxtState>) -> ElevatorApp {
    ElevatorApp { floor: 1, tmp_floor: 1, wait_floors: wait, lifts }
}

/// Single idle car, single up call: the call is scheduled, the car runs up,
/// arrives after five steps, dwells, and the registry empties.
#[test]
fn single_idle_car_single_up_call() {
    let mut app = bank(vec![idle_lift(0, 5)], vec![entry(10, Direction::Up, false)]);
    app.update(AppMessage::Scheduling2(10, Direction::Up));
    assert!(app.wait_floors[0].is_scheduled);
    assert_eq!(app.lifts[0].state, State::GoingUp);
    assert_eq!(
        app.lifts[0].schedule_floors,
        vec![ScheduleStop { floor: 10, direction: Direction::Up }]
    );
    for _ in 0..5 {
        // The assigned floor always lies at or above the running car.
        assert!(app.lifts[0].schedule_floors.iter().all(|s| s.floor >= app.lifts[0].cur_floor));
        app.update(AppMessage::ArriveByOneFloor(0));
        assert!(app.lifts[0].cur_floor != 0);
    }
    assert_eq!(app.lifts[0].cur_floor, 10);
    assert_eq!(app.lifts[0].state, State::GoingUpSuspend);
    assert!(app.wait_floors.is_empty());
    app.update(AppMessage::WaitUserInputFloor(0));
    assert!(
        app.lifts[0].state == State::Stop
            || (app.lifts[0].state == State::GoingUp && !app.lifts[0].stop_floors.is_empty())
    );
}

/// Two idle cars, one call in between: the closer car on the allowed side
/// answers; the other is untouched.
#[test]
fn two_idle_cars_one_call_between() {
    let mut app = bank(
        vec![idle_lift(0, 3), idle_lift(1, 12)],
        vec![entry(7, Direction::Up, false)],
    );
    app.update(AppMessage::Scheduling2(7, Direction::Up));
    assert!(app.wait_floors[0].is_scheduled);
    assert_eq!(app.lifts[0].state, State::GoingUp);
    assert_eq!(
        app.lifts[0].schedule_floors,
        vec![ScheduleStop { floor: 7, direction: Direction::Up }]
    );
    assert_eq!(app.lifts[1].state, State::Stop);
    assert!(app.lifts[1].schedule_floors.is_empty());
}

/// A call behind a car moving up finds no candidate and stays un-scheduled.
#[test]
fn call_behind_moving_car_stays_unscheduled() {
    let mut moving = idle_lift(0, 6);
    moving.state = State::GoingUp;
    moving.schedule_floors = vec![ScheduleStop { floor: 10, direction: Direction::Up }];
    let mut app = bank(
        vec![moving],
        vec![entry(10, Direction::Up, true), entry(4, Direction::Up, false)],
    );
    app.update(AppMessage::Scheduling2(4, Direction::Up));
    assert!(!app.wait_floors[1].is_scheduled);
    assert_eq!(app.lifts[0].schedule_floors.len(), 1);
}

/// Zero-floor skip: one step from `-1` lands on `+1` and the car dwells.
#[test]
fn zero_floor_skip() {
    let mut app = bank(vec![idle_lift(0, -1)], vec![entry(1, Direction::Up, false)]);
    app.update(AppMessage::Scheduling2(1, Direction::Up));
    assert_eq!(app.lifts[0].state, State::GoingUp);
    app.update(AppMessage::ArriveByOneFloor(0));
    assert_eq!(app.lifts[0].cur_floor, 1);
    assert_eq!(app.lifts[0].state, State::GoingUpSuspend);
}

/// A hall call at a resting car's own floor opens the doors right away.
#[test]
fn call_at_own_floor_dwells_immediately() {
    let mut app = bank(vec![idle_lift(0, 5)], vec![entry(5, Direction::Up, false)]);
    let cmds = app.update(AppMessage::Scheduling2(5, Direction::Up));
    assert_eq!(app.lifts[0].state, State::GoingUpSuspend);
    assert!(app.wait_floors[0].is_scheduled);
    // No plain traversal step was requested: the one follow-up waits out
    // the dwell as well.
    assert_eq!(cmds.len(), 1);
    assert!(cmds[0].delay_ms > elevator_scheduler::conf::EVERY_FLOOR_RUN_TIME_IN_MILLISECONDS);
}

/// Direction lock: the first cabin press of a resting car starts the run
/// up; a press below the car is then rejected.
#[test]
fn direction_lock() {
    let mut app = bank(vec![idle_lift(0, 5)], Vec::new());
    let accepted = app.clicked_btn_floor(0, 8);
    assert!(accepted);
    assert_eq!(app.lifts[0].state, State::GoingUp);
    assert_eq!(app.lifts[0].stop_floors, vec![8]);
    let rejected = app.clicked_btn_floor(0, 2);
    assert!(!rejected);
    assert_eq!(app.lifts[0].stop_floors, vec![8]);
    assert_eq!(app.lifts[0].state, State::GoingUp);
}

/// Pressing the same cabin button twice in a running car with another
/// destination is a net no-op.
#[test]
fn cabin_press_twice_toggles_off() {
    let mut running = idle_lift(0, 3);
    running.state = State::GoingUp;
    running.persons = 5;
    running.can_click_btn = true;
    running.stop_floors = vec![5];
    let mut app = bank(vec![running], Vec::new());
    assert!(app.clicked_btn_floor(0, 8));
    assert_eq!(app.lifts[0].stop_floors, vec![5, 8]);
    assert!(app.clicked_btn_floor(0, 8));
    assert_eq!(app.lifts[0].stop_floors, vec![5]);
    assert_eq!(app.lifts[0].state, State::GoingUp);
}

/// The last remaining destination of a running car cannot be toggled off.
#[test]
fn last_cabin_stop_cannot_be_removed() {
    let mut running = idle_lift(0, 3);
    running.state = State::GoingUp;
    running.persons = 5;
    running.can_click_btn = true;
    running.stop_floors = vec![8];
    let mut app = bank(vec![running], Vec::new());
    let accepted = app.clicked_btn_floor(0, 8);
    assert!(!accepted);
    assert_eq!(app.lifts[0].stop_floors, vec![8]);
}

/// A dwell that ends with both stop sets empty leaves the car at rest.
#[test]
fn dwell_with_no_stops_rests() {
    let mut dwelling = idle_lift(0, 9);
    dwelling.state = State::GoingUpSuspend;
    dwelling.persons = 3;
    let mut app = bank(vec![dwelling], Vec::new());
    let cmds = app.update(AppMessage::WaitUserInputFloor(0));
    assert_eq!(app.lifts[0].state, State::Stop);
    assert!(cmds.is_empty());
}

/// A call arriving while every car is in maintenance is kept un-scheduled
/// until a later sweep finds an eligible car.
#[test]
fn maintenance_call_waits_for_sweep() {
    let mut down = idle_lift(0, 5);
    down.state = State::Maintaining;
    let mut app = bank(vec![down], Vec::new());
    app.floor = 7;
    let (res, _cmds) = app.add_to_wait_floor(Direction::Up);
    assert_eq!(res, EnqueueResult::Accepted);
    assert_eq!(app.wait_floors.len(), 1);
    assert_eq!(app.wait_floors[0].floor, 7);
    assert!(!app.wait_floors[0].is_scheduled);
    assert_eq!(app.lifts[0].state, State::Maintaining);
    // The car comes back into service; the periodic sweep picks the call up.
    app.lifts[0].state = State::Stop;
    let cmds = app.update(AppMessage::Scheduling);
    assert_eq!(cmds.len(), 1);
    for c in cmds {
        app.update(c.message);
    }
    assert!(app.wait_floors[0].is_scheduled);
    assert_eq!(app.lifts[0].schedule_floors.len(), 1);
}

/// Capacity backpressure: a full registry answers busy and is unchanged; an
/// arrival that frees an entry lets one more call in.
#[test]
fn capacity_backpressure() {
    let mut serving = idle_lift(0, 1);
    serving.state = State::GoingUpSuspend;
    serving.schedule_floors = vec![ScheduleStop { floor: 1, direction: Direction::Up }];
    let mut wait = vec![entry(1, Direction::Up, true)];
    for f in 2..=30i16 {
        wait.push(entry(f, Direction::Up, false));
    }
    let mut app = bank(vec![serving], wait);
    assert_eq!(app.wait_floors.len(), 30);
    app.floor = 31;
    let (res, _) = app.add_to_wait_floor(Direction::Up);
    assert_eq!(res, EnqueueResult::Full);
    assert_eq!(app.wait_floors.len(), 30);
    assert!(app.wait_floors.iter().all(|e| e.floor != 31));
    // The dwelling car serves floor 1 and frees its entry.
    app.update(AppMessage::ArriveByOneFloor(0));
    assert_eq!(app.wait_floors.len(), 29);
    app.floor = 31;
    let (res2, _) = app.add_to_wait_floor(Direction::Up);
    assert_eq!(res2, EnqueueResult::Accepted);
    assert_eq!(app.wait_floors.len(), 30);
    assert!(app.wait_floors.iter().any(|e| e.floor == 31));
}

/// Exactly one car carries each scheduled call: the winner of the dispatch,
/// and only it.
#[test]
fn scheduled_call_has_one_car() {
    let mut app = bank(
        vec![idle_lift(0, 3), idle_lift(1, 12), idle_lift(2, 20)],
        vec![entry(7, Direction::Up, false)],
    );
    app.update(AppMessage::Scheduling2(7, Direction::Up));
    let holders = app
        .lifts
        .iter()
        .filter(|l| l.schedule_floors.iter().any(|s| s.floor == 7))
        .count();
    assert_eq!(holders, 1);
}

/// The motion sweep nudges exactly the cars that still have somewhere to
/// go.
#[test]
fn motion_sweep_targets_busy_cars() {
    let mut busy = idle_lift(0, 3);
    busy.state = State::GoingUp;
    busy.schedule_floors = vec![ScheduleStop { floor: 9, direction: Direction::Up }];
    let mut app = bank(
        vec![busy, idle_lift(1, 7)],
        vec![entry(9, Direction::Up, true)],
    );
    let cmds = app.update(AppMessage::LiftRunning);
    assert_eq!(cmds.len(), 1);
    assert_eq!(cmds[0].message, AppMessage::ArriveByOneFloor(0));
    assert_eq!(cmds[0].delay_ms, 0);
}

/// A fresh bank is resting everywhere with an empty registry.
#[test]
fn default_bank_is_idle() {
    let app = ElevatorApp::default();
    assert_eq!(app.lifts.len(), elevator_scheduler::conf::MAX_ELEVATOR_NUM);
    assert!(app.wait_floors.is_empty());
    for l in &app.lifts {
        assert_eq!(l.state, State::Stop);
        assert!(l.cur_floor != 0);
        assert!(l.stop_floors.is_empty() && l.schedule_floors.is_empty());
    }
}

/// The hall panel selector skips the non-existent floor 0 and clamps to the
/// building.
#[test]
fn panel_selector_skips_zero() {
    let mut app = bank(vec![idle_lift(0, 5)], Vec::new());
    app.floor = -1;
    app.update(AppMessage::ClickedBtnPlus);
    assert_eq!(app.floor, 1);
    app.update(AppMessage::ClickedBtnSubtract);
    assert_eq!(app.floor, -1);
    app.floor = 40;
    app.update(AppMessage::ClickedBtnPlus);
    assert_eq!(app.floor, 40);
    app.floor = -4;
    app.update(AppMessage::ClickedBtnSubtract);
    assert_eq!(app.floor, -4);
}
