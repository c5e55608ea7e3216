//! Direction of travel and the entries of the hall-call registry.

use vstd::prelude::*;
use crate::conf::TFloor;

verus! {

/// Desired direction of travel of a hall call.
#[derive(Clone, Copy, Debug, PartialEq, Eq, Structural)]
pub enum Direction {
    Up,
    Down,
}

impl Default for Direction {
    fn default() -> (r: Self)
        ensures
            r == Direction::Up,
    {
        Direction::Up
    }
}

/// One outstanding hall call: a floor, the desired direction, and whether the
/// dispatcher has already committed a car to it.
#[derive(Clone, Copy, Debug, PartialEq, Eq, Structural)]
pub struct WaitFloorTxtState {
    pub floor: TFloor,
    pub direction: Direction,
    pub is_scheduled: bool,
}

} // verus!
