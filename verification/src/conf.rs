//! Tunable parameters of the elevator bank.

use vstd::prelude::*;

verus! {

/// Floors are small signed integers; `0` is never a valid floor.
pub type TFloor = i16;

/// Number of cars in the bank.
pub const MAX_ELEVATOR_NUM: usize = 4;

/// Highest floor a car can reach.
pub const MAX_FLOOR: TFloor = 40;

/// Lowest floor a car can reach.
pub const MIN_FLOOR: TFloor = -4;

/// Maximum number of passengers a car carries without being overloaded.
pub const MAX_PERSON_CAPACITY: u8 = 18;

/// Extra doors-open dwell time at a served floor, in milliseconds.
pub const SUSPEND_WAIT_IN_MILLISECONDS: u32 = 500;

/// Time a car needs to traverse one floor, in milliseconds.
pub const EVERY_FLOOR_RUN_TIME_IN_MILLISECONDS: u32 = 200;

/// Idle sleep of the event loop between polls, in milliseconds.
pub const ELEVATOR_SLEEP_TIME_IN_MILLISECONDS: u32 = 100;

/// Period of the schedule sweep that retries un-scheduled hall calls, in milliseconds.
pub const SCHEDULE_PERIOD_IN_MILLISECONDS: u32 = 5000;

/// Capacity of the hall-call registry; further calls are rejected as busy.
pub const MAX_WAIT_FLOOR_NUM: usize = 30;

/// True exactly for the floors a car can stand at: within bounds and not `0`.
pub open spec fn valid_floor(f: int) -> bool {
    MIN_FLOOR as int <= f <= MAX_FLOOR as int && f != 0
}

} // verus!
