//! Console-mode car: a single elevator driven by scheduler messages, with
//! its passenger metadata and destination queue.

use vstd::prelude::*;
use crate::conf::{valid_floor, TFloor, MAX_FLOOR, MAX_PERSON_CAPACITY, MIN_FLOOR};
use crate::floor::{spec_floor_diff, Floor};
use crate::state::{is_down_state, is_up_state, State};

verus! {

/// Passenger count and position of a console-mode car.
#[derive(Clone, Copy, Debug, PartialEq, Eq, Structural)]
pub struct ElevatorMeta {
    pub persons: u8,
    pub cur_floor: TFloor,
}

impl Default for ElevatorMeta {
    /// A fresh car: empty, at a random valid floor (never the non-existent
    /// floor `0`).
    fn default() -> (r: Self)
        ensures
            r.persons == 0,
            valid_floor(r.cur_floor as int),
    {
        let f = crate::util::random_floor();
        ElevatorMeta { persons: 0, cur_floor: f as TFloor }
    }
}

impl ElevatorMeta {
    /// Number of physical floors between the car and `floor`, with the gap
    /// at the non-existent floor `0` collapsed.
    pub fn diff_floor(&self, floor: TFloor) -> (r: TFloor)
        requires
            valid_floor(self.cur_floor as int),
            valid_floor(floor as int),
        ensures
            r as int == spec_floor_diff(self.cur_floor as int, floor as int),
            r >= 0,
    {
        let lo = if self.cur_floor <= floor {
            self.cur_floor
        } else {
            floor
        };
        let hi = if self.cur_floor <= floor {
            floor
        } else {
            self.cur_floor
        };
        if lo < 0 && hi > 0 {
            hi - lo - 1
        } else {
            hi - lo
        }
    }

    /// Passenger exchange: a random group of up to eight passengers enters
    /// (clamped to capacity) or leaves (clamped to empty).  Reports whether
    /// the group entered and its size; the new occupancy is exactly the old
    /// one moved by the reported group.
    pub fn set_person_num(&mut self) -> (r: (bool, u8))
        requires
            old(self).persons <= MAX_PERSON_CAPACITY,
        ensures
            final(self).cur_floor == old(self).cur_floor,
            1 <= r.1 <= 8,
            r.0 ==> final(self).persons as int == (if old(self).persons as int + r.1 as int
                > MAX_PERSON_CAPACITY as int {
                MAX_PERSON_CAPACITY as int
            } else {
                old(self).persons as int + r.1 as int
            }),
            !r.0 ==> final(self).persons as int == (if old(self).persons >= r.1 {
                old(self).persons as int - r.1 as int
            } else {
                0int
            }),
            final(self).persons <= MAX_PERSON_CAPACITY,
    {
        let num = crate::util::random_num(1, 8) as u8;
        let plus = crate::util::random_bool();
        if plus {
            let s: i32 = self.persons as i32 + num as i32;
            self.persons = if s > MAX_PERSON_CAPACITY as i32 {
                MAX_PERSON_CAPACITY
            } else {
                s as u8
            };
        } else {
            if self.persons >= num {
                self.persons = self.persons - num;
            } else {
                self.persons = 0;
            }
        }
        (plus, num)
    }
}

/// Console-mode car: metadata, running state, and the queue of destinations
/// its passengers entered.
pub struct Elevator {
    pub no: u8,
    pub meta: ElevatorMeta,
    pub state: State,
    pub stop_floors: Vec<TFloor>,
}

/// The destinations still beyond `floor` after a ride there: going up the
/// ones strictly above it, going down the ones strictly below.
pub open spec fn kept_beyond(stops: Seq<TFloor>, floor: TFloor, is_up: bool) -> Seq<TFloor>
    decreases stops.len(),
{
    if stops.len() <= 0 {
        Seq::empty()
    } else {
        let rest = kept_beyond(stops.drop_last(), floor, is_up);
        if (if is_up {
            stops.last() > floor
        } else {
            stops.last() < floor
        }) {
            rest.push(stops.last())
        } else {
            rest
        }
    }
}

/// Every kept destination lies beyond the served floor and came from the
/// old queue.
proof fn lemma_kept_beyond_elems(stops: Seq<TFloor>, floor: TFloor, is_up: bool)
    ensures
        forall|j: int|
            0 <= j < kept_beyond(stops, floor, is_up).len() ==> (if is_up {
                #[trigger] kept_beyond(stops, floor, is_up)[j] > floor
            } else {
                kept_beyond(stops, floor, is_up)[j] < floor
            }),
        forall|j: int|
            0 <= j < kept_beyond(stops, floor, is_up).len() ==> exists|i: int|
                0 <= i < stops.len() && stops[i] == #[trigger] kept_beyond(stops, floor, is_up)[j],
    decreases stops.len(),
{
    if stops.len() > 0 {
        lemma_kept_beyond_elems(stops.drop_last(), floor, is_up);
        let rest = kept_beyond(stops.drop_last(), floor, is_up);
        assert forall|j: int|
            0 <= j < kept_beyond(stops, floor, is_up).len() implies exists|i: int|
            0 <= i < stops.len() && stops[i] == #[trigger] kept_beyond(stops, floor, is_up)[j] by {
            if j < rest.len() {
                let i = choose|i: int|
                    0 <= i < stops.drop_last().len() && stops.drop_last()[i] == rest[j];
                assert(stops[i] == rest[j]);
            } else {
                assert(stops[stops.len() - 1] == kept_beyond(stops, floor, is_up)[j]);
            }
        }
    }
}

impl Elevator {
    /// The car stands at a valid floor, carries no more than capacity, and
    /// every entered destination is a valid floor on the side of travel the
    /// current run allows.
    pub open spec fn wf(self) -> bool {
        &&& valid_floor(self.meta.cur_floor as int)
        &&& self.meta.persons <= MAX_PERSON_CAPACITY
        &&& forall|i: int|
            0 <= i < self.stop_floors@.len() ==> valid_floor(
                #[trigger] self.stop_floors@[i] as int,
            )
        &&& is_up_state(self.state) ==> forall|i: int|
            0 <= i < self.stop_floors@.len() ==> #[trigger] self.stop_floors@[i]
                >= self.meta.cur_floor
        &&& is_down_state(self.state) ==> forall|i: int|
            0 <= i < self.stop_floors@.len() ==> #[trigger] self.stop_floors@[i]
                <= self.meta.cur_floor
    }

    /// The direction of the next service run, if one can be decided: a
    /// running car keeps its direction; a resting car takes its cue from
    /// the first entered destination (none when that is the car's own
    /// floor); a maintained car serves nobody.
    pub open spec fn step_direction(self) -> Option<bool> {
        match self.state {
            State::GoingUp | State::GoingUpSuspend => Some(true),
            State::GoingDown | State::GoingDownSuspend => Some(false),
            State::Stop => if self.stop_floors@.len() > 0 && self.stop_floors@[0]
                != self.meta.cur_floor {
                Some(self.stop_floors@[0] > self.meta.cur_floor)
            } else {
                None
            },
            State::Maintaining => None,
        }
    }

    /// A fresh console-mode car: resting, empty, at a random floor.
    pub fn new(no: u8) -> (r: Self)
        ensures
            r.no == no,
            r.state == State::Stop,
            r.stop_floors@.len() == 0,
            r.wf(),
    {
        Elevator {
            no,
            meta: ElevatorMeta::default(),
            state: State::Stop,
            stop_floors: Vec::new(),
        }
    }

    /// Whether a waiting passenger at `floor` can board this car: never when
    /// full or maintained; always when resting; on a run only when the car
    /// travels the passenger's way and has not passed the floor yet.
    pub fn can_in(&self, floor: Floor) -> (r: bool)
        ensures
            r == (self.meta.persons < MAX_PERSON_CAPACITY && (match floor {
                Floor::Up(f) => self.state == State::Stop || (is_up_state(self.state)
                    && self.meta.cur_floor <= f),
                Floor::Down(f) => self.state == State::Stop || (is_down_state(self.state)
                    && self.meta.cur_floor >= f),
            })),
    {
        if self.meta.persons >= MAX_PERSON_CAPACITY {
            return false;
        }
        match floor {
            Floor::Up(f) => match self.state {
                State::Maintaining | State::GoingDownSuspend | State::GoingDown => false,
                State::Stop => true,
                State::GoingUp | State::GoingUpSuspend => self.meta.cur_floor <= f,
            },
            Floor::Down(f) => match self.state {
                State::Maintaining | State::GoingUp | State::GoingUpSuspend => false,
                State::Stop => true,
                State::GoingDown | State::GoingDownSuspend => self.meta.cur_floor >= f,
            },
        }
    }

    /// Decide the run direction for the next destination: a resting car
    /// takes its cue from the first entered destination (none when it is the
    /// car's own floor), a running car keeps its direction, and a maintained
    /// car serves nobody.
    pub fn handle_state(&mut self) -> (r: Option<bool>)
        ensures
            final(self).no == old(self).no,
            final(self).meta == old(self).meta,
            final(self).stop_floors@ == old(self).stop_floors@,
            r == old(self).step_direction(),
            match r {
                Some(is_up) => {
                    &&& (old(self).state == State::Stop ==> final(self).state == (if is_up {
                        State::GoingUp
                    } else {
                        State::GoingDown
                    }))
                    &&& (old(self).state != State::Stop ==> final(self).state == old(self).state)
                },
                None => final(self).state == old(self).state,
            },
    {
        match self.state {
            State::Stop => {
                if self.stop_floors.len() == 0 {
                    return None;
                }
                let first = self.stop_floors[0];
                if first == self.meta.cur_floor {
                    return None;
                }
                let is_up = first > self.meta.cur_floor;
                self.state = if is_up {
                    State::GoingUp
                } else {
                    State::GoingDown
                };
                Some(is_up)
            },
            State::GoingUp | State::GoingUpSuspend => Some(true),
            State::GoingDown | State::GoingDownSuspend => Some(false),
            State::Maintaining => None,
        }
    }

    /// A passenger enters destination `floor`: accepted from rest always,
    /// and during a run only when the floor lies the way the car travels;
    /// the non-existent floor `0` and out-of-range floors are rejected.
    pub fn input_floor(&mut self, floor: TFloor) -> (accepted: bool)
        requires
            old(self).wf(),
        ensures
            final(self).wf(),
            final(self).no == old(self).no,
            final(self).meta == old(self).meta,
            final(self).state == old(self).state,
            accepted == (valid_floor(floor as int) && (old(self).state == State::Stop || (
            is_up_state(old(self).state) && floor >= old(self).meta.cur_floor) || (is_down_state(
                old(self).state,
            ) && floor <= old(self).meta.cur_floor))),
            accepted ==> final(self).stop_floors@ == old(self).stop_floors@.push(floor),
            !accepted ==> final(self).stop_floors@ == old(self).stop_floors@,
    {
        if !(MIN_FLOOR <= floor && floor <= MAX_FLOOR && floor != 0) {
            return false;
        }
        match self.state {
            State::Stop => {
                self.stop_floors.push(floor);
                true
            },
            State::GoingUp | State::GoingUpSuspend => {
                if floor >= self.meta.cur_floor {
                    self.stop_floors.push(floor);
                    true
                } else {
                    false
                }
            },
            State::GoingDown | State::GoingDownSuspend => {
                if floor <= self.meta.cur_floor {
                    self.stop_floors.push(floor);
                    true
                } else {
                    false
                }
            },
            State::Maintaining => false,
        }
    }

    /// One pickup of the scheduler's plan: if the waiting passenger at
    /// `floor` can board, ride there in the planned direction — serving any
    /// destination passed on the way — open the doors, and exchange
    /// passengers.
    pub fn serve_pickup(&mut self, floor: TFloor, is_up: bool) -> (served: bool)
        requires
            old(self).wf(),
            valid_floor(floor as int),
        ensures
            final(self).wf(),
            final(self).no == old(self).no,
            served == (old(self).meta.persons < MAX_PERSON_CAPACITY && (if is_up {
                old(self).state == State::Stop || (is_up_state(old(self).state)
                    && old(self).meta.cur_floor <= floor)
            } else {
                old(self).state == State::Stop || (is_down_state(old(self).state)
                    && old(self).meta.cur_floor >= floor)
            })),
            served ==> final(self).meta.cur_floor == floor && final(self).state == (if is_up {
                State::GoingUpSuspend
            } else {
                State::GoingDownSuspend
            }) && final(self).stop_floors@ == kept_beyond(old(self).stop_floors@, floor, is_up)
                && final(self).meta.persons <= MAX_PERSON_CAPACITY,
            !served ==> final(self).meta == old(self).meta && final(self).state == old(self).state
                && final(self).stop_floors@ == old(self).stop_floors@,
    {
        let ghost pre = *self;
        let request = if is_up {
            Floor::Up(floor)
        } else {
            Floor::Down(floor)
        };
        if !self.can_in(request) {
            return false;
        }
        // Destinations the ride passes are served by the same stop-by-stop
        // run; only the ones beyond the pickup floor remain.
        let mut kept: Vec<TFloor> = Vec::new();
        let mut i: usize = 0;
        while i < self.stop_floors.len()
            invariant
                *self == pre,
                0 <= i <= self.stop_floors@.len(),
                kept@ == kept_beyond(self.stop_floors@.take(i as int), floor, is_up),
            decreases self.stop_floors@.len() - i,
        {
            let s = self.stop_floors[i];
            if (is_up && s > floor) || (!is_up && s < floor) {
                kept.push(s);
            }
            proof {
                assert(self.stop_floors@.take(i as int + 1).drop_last() =~= self.stop_floors@.take(
                    i as int,
                ));
                assert(self.stop_floors@.take(i as int + 1).last() == self.stop_floors@[i as int]);
            }
            i = i + 1;
        }
        proof {
            assert(self.stop_floors@.take(self.stop_floors@.len() as int) =~= self.stop_floors@);
        }
        self.stop_floors = kept;
        self.meta.cur_floor = floor;
        self.state = if is_up {
            State::GoingUpSuspend
        } else {
            State::GoingDownSuspend
        };
        self.meta.set_person_num();
        proof {
            lemma_kept_beyond_elems(pre.stop_floors@, floor, is_up);
            assert forall|j: int| 0 <= j < self.stop_floors@.len() implies valid_floor(
                #[trigger] self.stop_floors@[j] as int,
            ) by {
                let i0 = choose|i0: int|
                    0 <= i0 < pre.stop_floors@.len() && pre.stop_floors@[i0]
                        == self.stop_floors@[j];
                assert(valid_floor(pre.stop_floors@[i0] as int));
            }
        }
        true
    }

    /// One service round of the destination queue: decide the direction,
    /// ride to the nearest destination that way — the lowest remaining
    /// going up, the highest going down — and open the doors.  Reports the
    /// floor served and whether more destinations remain; `None`, changing
    /// nothing, exactly when no direction can be decided (empty queue, a
    /// resting car whose first destination is its own floor, or
    /// maintenance).
    pub fn person_updown_step(&mut self) -> (r: Option<(TFloor, bool)>)
        requires
            old(self).wf(),
        ensures
            final(self).wf(),
            final(self).no == old(self).no,
            final(self).meta.persons == old(self).meta.persons,
            match r {
                Some(v) => {
                    &&& old(self).stop_floors@.len() > 0
                    &&& old(self).step_direction() is Some
                    &&& (old(self).step_direction() == Some(true) ==> forall|j: int|
                        0 <= j < old(self).stop_floors@.len() ==> #[trigger] old(
                            self,
                        ).stop_floors@[j] >= v.0)
                    &&& (old(self).step_direction() == Some(false) ==> forall|j: int|
                        0 <= j < old(self).stop_floors@.len() ==> #[trigger] old(
                            self,
                        ).stop_floors@[j] <= v.0)
                    &&& exists|i: int|
                        0 <= i < old(self).stop_floors@.len() && old(self).stop_floors@[i] == v.0
                            && final(self).stop_floors@ == old(self).stop_floors@.remove(i)
                    &&& final(self).meta.cur_floor == v.0
                    &&& v.1 == (final(self).stop_floors@.len() > 0)
                    &&& final(self).state == (if !v.1 {
                        State::Stop
                    } else if old(self).step_direction() == Some(true) {
                        State::GoingUpSuspend
                    } else {
                        State::GoingDownSuspend
                    })
                },
                None => {
                    &&& final(self).meta == old(self).meta
                    &&& final(self).state == old(self).state
                    &&& final(self).stop_floors@ == old(self).stop_floors@
                    &&& (old(self).stop_floors@.len() == 0 || old(self).step_direction() is None)
                },
            },
    {
        if self.stop_floors.len() == 0 {
            return None;
        }
        let dir = self.handle_state();
        match dir {
            None => None,
            Some(is_up) => {
                // The nearest destination the run can serve: lowest
                // remaining floor going up, highest going down.
                let mut best: usize = 0;
                let mut i: usize = 1;
                while i < self.stop_floors.len()
                    invariant
                        0 <= best < i <= self.stop_floors@.len(),
                        forall|j: int|
                            0 <= j < i ==> (if is_up {
                                self.stop_floors@[best as int] <= #[trigger] self.stop_floors@[j]
                            } else {
                                self.stop_floors@[best as int] >= #[trigger] self.stop_floors@[j]
                            }),
                    decreases self.stop_floors@.len() - i,
                {
                    if is_up {
                        if self.stop_floors[i] < self.stop_floors[best] {
                            best = i;
                        }
                    } else {
                        if self.stop_floors[i] > self.stop_floors[best] {
                            best = i;
                        }
                    }
                    i = i + 1;
                }
                let floor = self.stop_floors[best];
                let ghost orig = self.stop_floors@;
                let ghost gbest = best as int;
                self.stop_floors.remove(best);
                let more = self.stop_floors.len() > 0;
                self.meta.cur_floor = floor;
                self.state = if more {
                    if is_up {
                        State::GoingUpSuspend
                    } else {
                        State::GoingDownSuspend
                    }
                } else {
                    State::Stop
                };
                proof {
                    assert(orig[gbest] == floor && self.stop_floors@ == orig.remove(gbest));
                    // Every remaining destination lies at or beyond the
                    // served floor in the direction of travel, since the
                    // nearest one was taken.
                    assert forall|j: int| 0 <= j < self.stop_floors@.len() implies valid_floor(
                        #[trigger] self.stop_floors@[j] as int,
                    ) && (if is_up {
                        self.stop_floors@[j] >= floor
                    } else {
                        self.stop_floors@[j] <= floor
                    }) by {
                        if j < gbest {
                            assert(self.stop_floors@[j] == orig[j]);
                        } else {
                            assert(self.stop_floors@[j] == orig[j + 1]);
                        }
                    }
                }
                Some((floor, more))
            },
        }
    }
}

} // verus!
