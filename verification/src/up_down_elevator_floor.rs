//! Shaft events of the dispatcher's scan, with each car's running state:
//! at the same floor a passenger comes before any car, resting cars before
//! running ones, and running cars in number order.

use vstd::prelude::*;
use core::cmp::Ordering;
use crate::conf::TFloor;

verus! {

/// Coarse running state of a car in the scan.
#[derive(Clone, Copy, Debug, PartialEq, Eq, Structural)]
pub enum EState {
    Running,
    Stop,
    Noop,
}

/// What stands at a floor of the scan: a waiting passenger, or a car with
/// its index.
#[derive(Clone, Copy, Debug, PartialEq, Eq, Structural)]
pub enum FloorType {
    Person,
    Elevator(usize),
}

impl Default for FloorType {
    fn default() -> (r: Self)
        ensures
            r == FloorType::Person,
    {
        FloorType::Person
    }
}

/// One event of the dispatcher's shaft scan.
#[derive(Clone, Copy, Debug, PartialEq, Eq, Structural)]
pub struct UpDownElevatorFloor {
    pub floor: TFloor,
    pub typ: FloorType,
    pub state: EState,
}

impl UpDownElevatorFloor {
    /// Scan order: by floor; at the same floor a passenger comes before any
    /// car; among cars, one not running comes before a running one, and two
    /// running cars come in index order.
    pub open spec fn spec_cmp(self, other: Self) -> Ordering {
        if self.floor < other.floor {
            Ordering::Less
        } else if self.floor > other.floor {
            Ordering::Greater
        } else {
            match (self.typ, other.typ) {
                (FloorType::Person, FloorType::Person) => Ordering::Equal,
                (FloorType::Person, FloorType::Elevator(_)) => Ordering::Less,
                (FloorType::Elevator(_), FloorType::Person) => Ordering::Greater,
                (FloorType::Elevator(v1), FloorType::Elevator(v2)) => if self.state
                    == EState::Running {
                    if other.state == EState::Running {
                        if v1 < v2 {
                            Ordering::Less
                        } else if v1 > v2 {
                            Ordering::Greater
                        } else {
                            Ordering::Equal
                        }
                    } else {
                        Ordering::Greater
                    }
                } else {
                    Ordering::Less
                },
            }
        }
    }

    /// Compare two scan events.
    pub fn inner_cmp(&self, other: &Self) -> (r: Ordering)
        ensures
            r == self.spec_cmp(*other),
    {
        if self.floor < other.floor {
            Ordering::Less
        } else if self.floor > other.floor {
            Ordering::Greater
        } else {
            match (self.typ, other.typ) {
                (FloorType::Person, FloorType::Person) => Ordering::Equal,
                (FloorType::Person, FloorType::Elevator(_)) => Ordering::Less,
                (FloorType::Elevator(_), FloorType::Person) => Ordering::Greater,
                (FloorType::Elevator(v1), FloorType::Elevator(v2)) => if matches!(
                    self.state,
                    EState::Running,
                ) {
                    if matches!(other.state, EState::Running) {
                        if v1 < v2 {
                            Ordering::Less
                        } else if v1 > v2 {
                            Ordering::Greater
                        } else {
                            Ordering::Equal
                        }
                    } else {
                        Ordering::Greater
                    }
                } else {
                    Ordering::Less
                },
            }
        }
    }
}


impl PartialOrd for UpDownElevatorFloor {
    /// The scan order, through `inner_cmp`.
    fn partial_cmp(&self, other: &Self) -> Option<Ordering> {
        Some(self.inner_cmp(other))
    }
}

impl vstd::std_specs::cmp::PartialOrdSpecImpl for UpDownElevatorFloor {
    open spec fn obeys_partial_cmp_spec() -> bool {
        true
    }

    open spec fn partial_cmp_spec(&self, other: &Self) -> Option<Ordering> {
        Some(self.spec_cmp(*other))
    }
}

} // verus!
