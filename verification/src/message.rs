//! Events exchanged between the core, the timers and the front-end.

use vstd::prelude::*;
use crate::conf::TFloor;
use crate::floor_btn::Direction;

verus! {

/// Console-mode messages between the scheduler and a single car.
#[derive(Clone)]
pub enum Message {
    /// Pick somebody up at this floor who wants to go up.
    Up(TFloor),
    /// Pick people up at these floors, all going up.
    Ups(Vec<TFloor>),
    /// Pick somebody up at this floor who wants to go down.
    Down(TFloor),
    /// Pick people up at these floors, all going down.
    Downs(Vec<TFloor>),
    /// A passenger of this car is about to enter a destination.
    InputtingFloor(TFloor),
    /// A passenger of the car entered this destination floor.
    InputtedFloor(usize, TFloor),
    /// Shut the system down.
    Quit,
}

impl Default for Message {
    fn default() -> (r: Self)
        ensures
            r is Quit,
    {
        Message::Quit
    }
}

/// Events of the event-driven core: button presses, the periodic schedule
/// sweep, and the per-car motion steps.
#[derive(Clone, Copy, Debug, PartialEq, Eq, Structural)]
pub enum AppMessage {
    Noop,
    /// Periodic sweep: retry every un-scheduled hall call.
    Scheduling,
    Scheduled,
    /// The hall panel slider moved to this floor.
    SliderChange(TFloor),
    /// The hall panel slider was released at this floor.
    SliderRelease(TFloor),
    /// Try to commit one car to the hall call at this floor and direction.
    Scheduling2(TFloor, Direction),
    /// Motion step of one car: advance one floor, or arrive and open doors.
    ArriveByOneFloor(usize),
    /// Dwell finished for one car: doors close after the passenger exchange.
    WaitUserInputFloor(usize),
    LiftRunning,
    LiftRunningByOne(usize),
    /// The `+` button of the hall panel.
    ClickedBtnPlus,
    /// The `-` button of the hall panel.
    ClickedBtnSubtract,
    /// The `up` hall button: a hall call at the selected floor.
    ClickedBtnUp,
    /// The `down` hall button: a hall call at the selected floor.
    ClickedBtnDown,
    /// A cabin button: a passenger of this car asks for this floor.
    ClickedBtnFloor(usize, TFloor),
}

/// A delayed follow-up event: the event loop re-enters the core with
/// `message` after `delay_ms` milliseconds.
#[derive(Clone, Copy, Debug, PartialEq, Eq, Structural)]
pub struct FollowUp {
    pub delay_ms: u32,
    pub message: AppMessage,
}

} // verus!
