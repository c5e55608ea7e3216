//! Shaft events of the console-mode sweep: a waiting passenger or a car,
//! ordered by floor with cars after passengers at the same floor.

use vstd::prelude::*;
use core::cmp::Ordering;
use crate::conf::TFloor;

verus! {

/// What stands at a floor of the shaft scan: a waiting passenger, or a car
/// with its number.
#[derive(Clone, Copy, Debug, PartialEq, Eq, Structural)]
pub enum FloorType {
    Person,
    Elevator(u8),
}

impl Default for FloorType {
    fn default() -> (r: Self)
        ensures
            r == FloorType::Person,
    {
        FloorType::Person
    }
}

/// One event of the shaft scan.
#[derive(Clone, Copy, Debug, PartialEq, Eq, Structural)]
pub struct UpDownElevatorFloor {
    pub floor: TFloor,
    pub typ: FloorType,
}

impl UpDownElevatorFloor {
    /// Scan order: by floor; at the same floor a passenger comes before any
    /// car, and cars come in number order.
    pub open spec fn spec_cmp(self, other: Self) -> Ordering {
        if self.floor < other.floor {
            Ordering::Less
        } else if self.floor > other.floor {
            Ordering::Greater
        } else {
            match (self.typ, other.typ) {
                (FloorType::Person, FloorType::Person) => Ordering::Equal,
                (FloorType::Person, FloorType::Elevator(_)) => Ordering::Less,
                (FloorType::Elevator(_), FloorType::Person) => Ordering::Greater,
                (FloorType::Elevator(v1), FloorType::Elevator(v2)) => if v1 < v2 {
                    Ordering::Less
                } else if v1 > v2 {
                    Ordering::Greater
                } else {
                    Ordering::Equal
                },
            }
        }
    }

    /// Compare two shaft events in scan order.
    pub fn inner_cmp(&self, other: &Self) -> (r: Ordering)
        ensures
            r == self.spec_cmp(*other),
    {
        if self.floor < other.floor {
            Ordering::Less
        } else if self.floor > other.floor {
            Ordering::Greater
        } else {
            match (self.typ, other.typ) {
                (FloorType::Person, FloorType::Person) => Ordering::Equal,
                (FloorType::Person, FloorType::Elevator(_)) => Ordering::Less,
                (FloorType::Elevator(_), FloorType::Person) => Ordering::Greater,
                (FloorType::Elevator(v1), FloorType::Elevator(v2)) => if v1 < v2 {
                    Ordering::Less
                } else if v1 > v2 {
                    Ordering::Greater
                } else {
                    Ordering::Equal
                },
            }
        }
    }
}


impl PartialOrd for UpDownElevatorFloor {
    /// The scan order, through `inner_cmp`.
    fn partial_cmp(&self, other: &Self) -> Option<Ordering> {
        Some(self.inner_cmp(other))
    }
}

impl vstd::std_specs::cmp::PartialOrdSpecImpl for UpDownElevatorFloor {
    open spec fn obeys_partial_cmp_spec() -> bool {
        true
    }

    open spec fn partial_cmp_spec(&self, other: &Self) -> Option<Ordering> {
        Some(self.spec_cmp(*other))
    }
}

} // verus!
