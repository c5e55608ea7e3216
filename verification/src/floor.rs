//! A hall request tagged with its direction, ordered by urgency.

use vstd::prelude::*;
use core::cmp::Ordering;
use crate::conf::{valid_floor, TFloor, MAX_FLOOR, MIN_FLOOR};

verus! {

/// One physical step from floor `f` upward or downward; the non-existent
/// floor `0` is skipped, so `-1` steps up to `1` and `1` steps down to `-1`.
pub open spec fn spec_advance_one(f: int, up: bool) -> int {
    if up {
        if f == -1 {
            1
        } else {
            f + 1
        }
    } else {
        if f == 1 {
            -1
        } else {
            f - 1
        }
    }
}

/// Move one floor up or down, skipping the non-existent floor `0`.
pub fn advance_one(f: TFloor, up: bool) -> (r: TFloor)
    requires
        valid_floor(f as int),
        up ==> f < MAX_FLOOR,
        !up ==> f > MIN_FLOOR,
    ensures
        r as int == spec_advance_one(f as int, up),
        valid_floor(r as int),
{
    if up {
        if f == -1 {
            1
        } else {
            f + 1
        }
    } else {
        if f == 1 {
            -1
        } else {
            f - 1
        }
    }
}

/// Number of distinct valid floors a car traverses between `a` and `b`: the
/// plain distance, less one when the gap at floor `0` lies in between.
pub open spec fn spec_floor_diff(a: int, b: int) -> int {
    let lo = if a <= b {
        a
    } else {
        b
    };
    let hi = if a <= b {
        b
    } else {
        a
    };
    if lo < 0 && hi > 0 {
        hi - lo - 1
    } else {
        hi - lo
    }
}

/// Count of physical floors between two valid floors, with the gap at `0`
/// collapsed.
pub fn floor_diff(a: TFloor, b: TFloor) -> (r: i32)
    requires
        valid_floor(a as int),
        valid_floor(b as int),
    ensures
        r == spec_floor_diff(a as int, b as int),
{
    let lo: i32 = if a <= b {
        a as i32
    } else {
        b as i32
    };
    let hi: i32 = if a <= b {
        b as i32
    } else {
        a as i32
    };
    if lo < 0 && hi > 0 {
        hi - lo - 1
    } else {
        hi - lo
    }
}

/// Stepping toward a floor ahead never overshoots it.
pub proof fn lemma_advance_one_toward(f: int, g: int, up: bool)
    requires
        valid_floor(f),
        valid_floor(g),
        up ==> f < g,
        !up ==> f > g,
    ensures
        valid_floor(spec_advance_one(f, up)),
        up ==> spec_advance_one(f, up) <= g,
        !up ==> spec_advance_one(f, up) >= g,
{
}

/// A floor somebody wants to leave, together with the direction they want to
/// travel: `Up(f)` wants to go up from `f`, `Down(f)` down from `f`.
#[derive(Clone, Copy, Debug)]
pub enum Floor {
    Up(TFloor),
    Down(TFloor),
}

impl Floor {
    /// The bare floor number of the request.
    pub open spec fn spec_value(&self) -> TFloor {
        match *self {
            Floor::Up(v) => v,
            Floor::Down(v) => v,
        }
    }

    #[verifier::when_used_as_spec(spec_value)]
    pub fn value(&self) -> (v: TFloor)
        ensures
            v == self.spec_value(),
    {
        match *self {
            Floor::Up(v) => v,
            Floor::Down(v) => v,
        }
    }

    /// Order of service among requests of one direction: up requests are
    /// served highest floor first, down requests lowest floor first.
    pub open spec fn spec_cmp(self, other: Floor) -> Ordering {
        match (self, other) {
            (Floor::Up(v), Floor::Up(o)) => if o < v {
                Ordering::Less
            } else if o > v {
                Ordering::Greater
            } else {
                Ordering::Equal
            },
            _ => if self.spec_value() < other.spec_value() {
                Ordering::Less
            } else if self.spec_value() > other.spec_value() {
                Ordering::Greater
            } else {
                Ordering::Equal
            },
        }
    }

    /// Compare two requests of the same direction: descending by floor for
    /// up requests, ascending for down requests.
    pub fn inner_cmp(&self, other: &Self) -> (r: Ordering)
        requires
            (self is Up) == (other is Up),
        ensures
            r == self.spec_cmp(*other),
    {
        match self {
            Floor::Up(v) => {
                let o = other.value();
                if o < *v {
                    Ordering::Less
                } else if o > *v {
                    Ordering::Greater
                } else {
                    Ordering::Equal
                }
            },
            Floor::Down(v) => {
                let o = other.value();
                if *v < o {
                    Ordering::Less
                } else if *v > o {
                    Ordering::Greater
                } else {
                    Ordering::Equal
                }
            },
        }
    }
}

impl PartialEq for Floor {
    /// Two requests are equal when they name the same floor, whatever the
    /// direction.
    fn eq(&self, other: &Self) -> bool {
        self.value() == other.value()
    }
}

impl vstd::std_specs::cmp::PartialEqSpecImpl for Floor {
    open spec fn obeys_eq_spec() -> bool {
        true
    }

    open spec fn eq_spec(&self, other: &Floor) -> bool {
        self.spec_value() == other.spec_value()
    }
}

impl Eq for Floor {

}

} // verus!
