//! Running state of a single car.

use vstd::prelude::*;

verus! {

/// State machine of one car.  `GoingUpSuspend` / `GoingDownSuspend` are the
/// doors-open dwell phases of an up / down run; `Maintaining` cars take part
/// in nothing.
#[derive(Clone, Copy, Debug, PartialEq, Eq, Structural)]
pub enum State {
    Stop,
    GoingUp,
    GoingUpSuspend,
    GoingDown,
    GoingDownSuspend,
    Maintaining,
}

impl Default for State {
    fn default() -> (r: Self)
        ensures
            r == State::Stop,
    {
        State::Stop
    }
}

/// The car is on an upward run (moving or dwelling).
pub open spec fn is_up_state(s: State) -> bool {
    s == State::GoingUp || s == State::GoingUpSuspend
}

/// The car is on a downward run (moving or dwelling).
pub open spec fn is_down_state(s: State) -> bool {
    s == State::GoingDown || s == State::GoingDownSuspend
}

} // verus!
