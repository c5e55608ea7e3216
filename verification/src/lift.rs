//! One car of the bank: its motion state, passengers, and the two stop sets
//! (cabin-requested floors and dispatcher-assigned floors).

use vstd::prelude::*;
use crate::conf::{valid_floor, TFloor, MAX_FLOOR, MAX_PERSON_CAPACITY, MIN_FLOOR};
use crate::floor_btn::Direction;
use crate::state::{is_down_state, is_up_state, State};

verus! {

/// One dispatcher commitment: serve `floor` for a hall call in `direction`.
#[derive(Clone, Copy, Debug, PartialEq, Eq, Structural)]
pub struct ScheduleStop {
    pub floor: TFloor,
    pub direction: Direction,
}

/// One car.  `stop_floors` are destinations entered from inside the cabin,
/// `schedule_floors` the hall calls the dispatcher committed this car to;
/// both are kept sorted by floor with no duplicate floors.
pub struct Lift {
    pub no: usize,
    pub state: State,
    pub persons: i32,
    pub cur_floor: TFloor,
    /// True while passengers may enter cabin destinations.
    pub can_click_btn: bool,
    pub stop_floors: Vec<TFloor>,
    pub schedule_floors: Vec<ScheduleStop>,
}

impl Lift {
    /// `f` is a cabin-requested stop.
    pub open spec fn cabin_has(self, f: int) -> bool {
        exists|i: int| 0 <= i < self.stop_floors@.len() && self.stop_floors@[i] == f
    }

    /// `f` is an assigned stop for a hall call in direction `d`.
    pub open spec fn sched_has(self, f: int, d: Direction) -> bool {
        exists|i: int|
            0 <= i < self.schedule_floors@.len() && self.schedule_floors@[i].floor == f
                && self.schedule_floors@[i].direction == d
    }

    /// `f` is an assigned stop, whatever the direction.
    pub open spec fn sched_has_floor(self, f: int) -> bool {
        exists|i: int| 0 <= i < self.schedule_floors@.len() && self.schedule_floors@[i].floor == f
    }

    /// `f` is a stop of either kind.
    pub open spec fn has_stop(self, f: int) -> bool {
        self.cabin_has(f) || self.sched_has_floor(f)
    }

    /// Both stop sets are empty.
    pub open spec fn stops_empty(self) -> bool {
        self.stop_floors@.len() == 0 && self.schedule_floors@.len() == 0
    }

    /// Both stop sets are sorted strictly by floor, so floors are unique.
    pub open spec fn sorted_stops(self) -> bool {
        &&& forall|i: int, j: int|
            0 <= i < j < self.stop_floors@.len() ==> self.stop_floors@[i] < self.stop_floors@[j]
        &&& forall|i: int, j: int|
            0 <= i < j < self.schedule_floors@.len() ==> self.schedule_floors@[i].floor
                < self.schedule_floors@[j].floor
    }

    /// Every stop is a floor a car can stand at.
    pub open spec fn stops_valid(self) -> bool {
        &&& forall|i: int|
            0 <= i < self.stop_floors@.len() ==> valid_floor(#[trigger] self.stop_floors@[i] as int)
        &&& forall|i: int|
            0 <= i < self.schedule_floors@.len() ==> valid_floor(
                #[trigger] self.schedule_floors@[i].floor as int,
            )
    }

    /// Direction consistency: on an up run every stop is at or above the car,
    /// on a down run at or below, and a resting or maintained car has none.
    pub open spec fn directed(self) -> bool {
        &&& is_up_state(self.state) ==> {
            &&& forall|i: int|
                0 <= i < self.stop_floors@.len() ==> #[trigger] self.stop_floors@[i]
                    >= self.cur_floor
            &&& forall|i: int|
                0 <= i < self.schedule_floors@.len() ==> (#[trigger] self.schedule_floors@[i]).floor
                    >= self.cur_floor
        }
        &&& is_down_state(self.state) ==> {
            &&& forall|i: int|
                0 <= i < self.stop_floors@.len() ==> #[trigger] self.stop_floors@[i]
                    <= self.cur_floor
            &&& forall|i: int|
                0 <= i < self.schedule_floors@.len() ==> (#[trigger] self.schedule_floors@[i]).floor
                    <= self.cur_floor
        }
        &&& (self.state == State::Stop || self.state == State::Maintaining) ==> self.stops_empty()
    }

    /// Well-formedness of one car.
    pub open spec fn wf(self) -> bool {
        &&& valid_floor(self.cur_floor as int)
        &&& 0 <= self.persons <= MAX_PERSON_CAPACITY as i32
        &&& self.sorted_stops()
        &&& self.stops_valid()
        &&& self.directed()
        &&& (self.state == State::Stop ==> !self.can_click_btn)
    }

    /// A fresh car: resting, empty, at a random valid floor.
    pub fn new(no: usize) -> (r: Self)
        ensures
            r.no == no,
            r.state == State::Stop,
            r.persons == 0,
            !r.can_click_btn,
            r.stops_empty(),
            r.wf(),
    {
        let f = crate::util::random_floor();
        Lift {
            no,
            state: State::Stop,
            persons: 0,
            cur_floor: f as TFloor,
            can_click_btn: false,
            stop_floors: Vec::new(),
            schedule_floors: Vec::new(),
        }
    }

    /// The next floor to serve: the nearest stop ahead.  On an up run (and
    /// from rest) that is the lowest stop, on a down run the highest; a car
    /// in maintenance or with no stops has none.
    pub fn dest_floor(&self) -> (r: Option<TFloor>)
        requires
            self.sorted_stops(),
            self.directed(),
        ensures
            (r is None) <==> (self.stops_empty() || self.state == State::Maintaining),
            match r {
                Some(m) => {
                    &&& self.has_stop(m as int)
                    &&& if is_down_state(self.state) {
                        forall|f: int| self.has_stop(f) ==> f <= m
                    } else {
                        forall|f: int| self.has_stop(f) ==> f >= m
                    }
                },
                None => true,
            },
    {
        if matches!(self.state, State::Maintaining) {
            return None;
        }
        let down = matches!(self.state, State::GoingDown | State::GoingDownSuspend);
        let nc = self.stop_floors.len();
        let ns = self.schedule_floors.len();
        if nc == 0 && ns == 0 {
            return None;
        }
        let r: TFloor;
        if down {
            // Highest stop: the last element of either sorted set.
            let a = if nc > 0 {
                Some(self.stop_floors[nc - 1])
            } else {
                None
            };
            let b = if ns > 0 {
                Some(self.schedule_floors[ns - 1].floor)
            } else {
                None
            };
            r = match (a, b) {
                (Some(x), Some(y)) => if x >= y {
                    x
                } else {
                    y
                },
                (Some(x), None) => x,
                (None, Some(y)) => y,
                (None, None) => self.cur_floor,  // unreachable: some set is non-empty
            };
            proof {
                assert(self.has_stop(r as int)) by {
                    if nc > 0 && (ns == 0 || self.stop_floors@[nc - 1]
                        >= self.schedule_floors@[ns - 1].floor) {
                        assert(self.stop_floors@[nc - 1] == r);
                    } else {
                        assert(self.schedule_floors@[ns - 1].floor == r);
                    }
                }
                assert forall|f: int| self.has_stop(f) implies f <= r by {
                    if self.cabin_has(f) {
                        let i = choose|i: int|
                            0 <= i < self.stop_floors@.len() && self.stop_floors@[i] == f;
                        if i < nc - 1 {
                            assert(self.stop_floors@[i] < self.stop_floors@[nc - 1]);
                        }
                    } else {
                        let i = choose|i: int|
                            0 <= i < self.schedule_floors@.len() && self.schedule_floors@[i].floor
                                == f;
                        if i < ns - 1 {
                            assert(self.schedule_floors@[i].floor < self.schedule_floors@[ns
                                - 1].floor);
                        }
                    }
                }
            }
        } else {
            // Lowest stop: the first element of either sorted set.
            let a = if nc > 0 {
                Some(self.stop_floors[0])
            } else {
                None
            };
            let b = if ns > 0 {
                Some(self.schedule_floors[0].floor)
            } else {
                None
            };
            r = match (a, b) {
                (Some(x), Some(y)) => if x <= y {
                    x
                } else {
                    y
                },
                (Some(x), None) => x,
                (None, Some(y)) => y,
                (None, None) => self.cur_floor,  // unreachable: some set is non-empty
            };
            proof {
                assert(self.has_stop(r as int)) by {
                    if nc > 0 && (ns == 0 || self.stop_floors@[0]
                        <= self.schedule_floors@[0].floor) {
                        assert(self.stop_floors@[0] == r);
                    } else {
                        assert(self.schedule_floors@[0].floor == r);
                    }
                }
                assert forall|f: int| self.has_stop(f) implies f >= r by {
                    if self.cabin_has(f) {
                        let i = choose|i: int|
                            0 <= i < self.stop_floors@.len() && self.stop_floors@[i] == f;
                        if i > 0 {
                            assert(self.stop_floors@[0] < self.stop_floors@[i]);
                        }
                    } else {
                        let i = choose|i: int|
                            0 <= i < self.schedule_floors@.len() && self.schedule_floors@[i].floor
                                == f;
                        if i > 0 {
                            assert(self.schedule_floors@[0].floor
                                < self.schedule_floors@[i].floor);
                        }
                    }
                }
            }
        }
        Some(r)
    }

    /// Remove `floor` from both stop sets; report the direction of the
    /// removed assigned stop, if there was one.
    pub fn remove_floor(&mut self, floor: TFloor) -> (r: Option<Direction>)
        requires
            old(self).sorted_stops(),
        ensures
            final(self).no == old(self).no,
            final(self).state == old(self).state,
            final(self).persons == old(self).persons,
            final(self).cur_floor == old(self).cur_floor,
            final(self).can_click_btn == old(self).can_click_btn,
            final(self).sorted_stops(),
            old(self).stops_valid() ==> final(self).stops_valid(),
            old(self).directed() ==> final(self).directed(),
            forall|f: int| final(self).cabin_has(f) <==> (old(self).cabin_has(f) && f != floor),
            forall|f: int, d: Direction|
                final(self).sched_has(f, d) <==> (old(self).sched_has(f, d) && f != floor),
            forall|f: int|
                final(self).sched_has_floor(f) <==> (old(self).sched_has_floor(f) && f != floor),
            match r {
                Some(d) => old(self).sched_has(floor as int, d),
                None => !old(self).sched_has_floor(floor as int),
            },
    {
        let ghost pre = *self;
        match find_floor_index(&self.stop_floors, floor) {
            Some(i) => {
                self.stop_floors.remove(i);
            },
            None => {},
        }
        proof {
            lemma_remove_cabin(pre, *self, floor);
        }
        let ghost mid = *self;
        let r: Option<Direction> = match find_sched_index(&self.schedule_floors, floor) {
            Some(i) => {
                let d = self.schedule_floors[i].direction;
                self.schedule_floors.remove(i);
                Some(d)
            },
            None => None,
        };
        proof {
            lemma_remove_sched(mid, *self, floor);
            if old(self).stops_valid() {
                assert forall|i: int| 0 <= i < self.stop_floors@.len() implies valid_floor(
                    #[trigger] self.stop_floors@[i] as int,
                ) by {
                    assert(self.cabin_has(self.stop_floors@[i] as int));
                    assert(pre.cabin_has(self.stop_floors@[i] as int));
                    let j = choose|j: int|
                        0 <= j < pre.stop_floors@.len() && pre.stop_floors@[j]
                            == self.stop_floors@[i];
                    assert(valid_floor(pre.stop_floors@[j] as int));
                }
                assert forall|i: int| 0 <= i < self.schedule_floors@.len() implies valid_floor(
                    #[trigger] self.schedule_floors@[i].floor as int,
                ) by {
                    assert(self.sched_has_floor(self.schedule_floors@[i].floor as int));
                    assert(mid.sched_has_floor(self.schedule_floors@[i].floor as int));
                    let j = choose|j: int|
                        0 <= j < mid.schedule_floors@.len() && mid.schedule_floors@[j].floor
                            == self.schedule_floors@[i].floor;
                    assert(valid_floor(mid.schedule_floors@[j].floor as int));
                }
            }
            if old(self).directed() {
                lemma_directed_from_membership(pre, *self);
            }
        }
        r
    }

    /// Add a cabin stop at `floor`, keeping the set sorted.
    pub fn insert_stop_floor(&mut self, floor: TFloor)
        requires
            old(self).sorted_stops(),
            !old(self).cabin_has(floor as int),
        ensures
            final(self).no == old(self).no,
            final(self).state == old(self).state,
            final(self).persons == old(self).persons,
            final(self).cur_floor == old(self).cur_floor,
            final(self).can_click_btn == old(self).can_click_btn,
            final(self).schedule_floors@ == old(self).schedule_floors@,
            final(self).sorted_stops(),
            final(self).stop_floors@.len() == old(self).stop_floors@.len() + 1,
            (old(self).stops_valid() && valid_floor(floor as int)) ==> final(self).stops_valid(),
            forall|f: int| final(self).cabin_has(f) <==> (old(self).cabin_has(f) || f == floor),
    {
        let ghost pre = *self;
        let mut j: usize = 0;
        while j < self.stop_floors.len() && self.stop_floors[j] < floor
            invariant
                *self == pre,
                0 <= j <= self.stop_floors@.len(),
                forall|k: int| 0 <= k < j ==> self.stop_floors@[k] < floor,
            decreases self.stop_floors@.len() - j,
        {
            j = j + 1;
        }
        self.stop_floors.insert(j, floor);
        proof {
            let s = pre.stop_floors@;
            let t = self.stop_floors@;
            // The scan stopped at the first element at or above `floor`;
            // absence of `floor` makes that element strictly greater.
            assert(j < s.len() ==> s[j as int] >= floor);
            assert forall|a: int, b: int| 0 <= a < b < t.len() implies t[a] < t[b] by {
                if b < j {
                } else if a < j && b == j {
                } else if a < j && b > j {
                    assert(t[b] == s[b - 1]);
                    if b - 1 > j as int {
                        assert(s[j as int] <= s[b - 1]);
                    } else {
                        assert(s[j as int] == s[b - 1]);
                    }
                    assert(s[j as int] > floor || s[j as int] == floor);
                    assert(s[j as int] != floor);
                } else if a == j {
                    assert(t[b] == s[b - 1]);
                    assert(s[b - 1] >= s[j as int]);
                    assert(s[j as int] != floor);
                } else {
                    assert(t[a] == s[a - 1] && t[b] == s[b - 1]);
                }
            }
            assert forall|f: int| self.cabin_has(f) implies (pre.cabin_has(f) || f
                == floor) by {
                let k = choose|k: int| 0 <= k < t.len() && t[k] == f;
                if k < j {
                    assert(s[k] == f);
                } else if k == j {
                } else {
                    assert(s[k - 1] == f);
                }
            }
            assert forall|f: int| (pre.cabin_has(f) || f == floor) implies self.cabin_has(
                f,
            ) by {
                if f == floor {
                    assert(t[j as int] == floor);
                } else {
                    let k = choose|k: int| 0 <= k < s.len() && s[k] == f;
                    if k < j {
                        assert(t[k] == f);
                    } else {
                        assert(t[k + 1] == f);
                    }
                }
            }
            if pre.stops_valid() && valid_floor(floor as int) {
                assert forall|i: int| 0 <= i < t.len() implies valid_floor(
                    #[trigger] t[i] as int,
                ) by {
                    if i < j {
                        assert(valid_floor(s[i] as int));
                    } else if i == j {
                    } else {
                        assert(valid_floor(s[i - 1] as int));
                    }
                }
            }
        }
    }

    /// Commit this car to the hall call `(floor, direction)`, keeping the
    /// assigned set sorted.
    pub fn insert_schedule_floor(&mut self, floor: TFloor, direction: Direction)
        requires
            old(self).sorted_stops(),
            !old(self).sched_has_floor(floor as int),
        ensures
            final(self).no == old(self).no,
            final(self).state == old(self).state,
            final(self).persons == old(self).persons,
            final(self).cur_floor == old(self).cur_floor,
            final(self).can_click_btn == old(self).can_click_btn,
            final(self).stop_floors@ == old(self).stop_floors@,
            final(self).sorted_stops(),
            final(self).schedule_floors@.len() == old(self).schedule_floors@.len() + 1,
            (old(self).stops_valid() && valid_floor(floor as int)) ==> final(self).stops_valid(),
            forall|f: int, d: Direction|
                final(self).sched_has(f, d) <==> (old(self).sched_has(f, d) || (f == floor && d
                    == direction)),
            forall|f: int|
                final(self).sched_has_floor(f) <==> (old(self).sched_has_floor(f) || f == floor),
    {
        let ghost pre = *self;
        let mut j: usize = 0;
        while j < self.schedule_floors.len() && self.schedule_floors[j].floor < floor
            invariant
                *self == pre,
                0 <= j <= self.schedule_floors@.len(),
                forall|k: int| 0 <= k < j ==> self.schedule_floors@[k].floor < floor,
            decreases self.schedule_floors@.len() - j,
        {
            j = j + 1;
        }
        self.schedule_floors.insert(j, ScheduleStop { floor, direction });
        proof {
            let s = pre.schedule_floors@;
            let t = self.schedule_floors@;
            assert(j < s.len() ==> s[j as int].floor >= floor);
            assert forall|a: int, b: int| 0 <= a < b < t.len() implies t[a].floor < t[b].floor by {
                if b < j {
                } else if a < j && b == j {
                } else if a < j && b > j {
                    assert(t[b] == s[b - 1]);
                    if b - 1 > j as int {
                        assert(s[j as int].floor <= s[b - 1].floor);
                    } else {
                        assert(s[j as int] == s[b - 1]);
                    }
                    assert(s[j as int].floor != floor);
                } else if a == j {
                    assert(t[b] == s[b - 1]);
                    assert(s[b - 1].floor >= s[j as int].floor);
                    assert(s[j as int].floor != floor);
                } else {
                    assert(t[a] == s[a - 1] && t[b] == s[b - 1]);
                }
            }
            assert forall|f: int, d: Direction| self.sched_has(f, d) implies (pre.sched_has(
                f,
                d,
            ) || (f == floor && d == direction)) by {
                let k = choose|k: int|
                    0 <= k < t.len() && t[k].floor == f && t[k].direction == d;
                if k < j {
                    assert(s[k].floor == f && s[k].direction == d);
                } else if k == j {
                } else {
                    assert(s[k - 1].floor == f && s[k - 1].direction == d);
                }
            }
            assert forall|f: int, d: Direction| (pre.sched_has(f, d) || (f == floor && d
                == direction)) implies self.sched_has(f, d) by {
                if f == floor && d == direction {
                    assert(t[j as int].floor == floor && t[j as int].direction == direction);
                } else {
                    let k = choose|k: int|
                        0 <= k < s.len() && s[k].floor == f && s[k].direction == d;
                    if k < j {
                        assert(t[k].floor == f && t[k].direction == d);
                    } else {
                        assert(t[k + 1].floor == f && t[k + 1].direction == d);
                    }
                }
            }
            assert forall|f: int| self.sched_has_floor(f) implies (pre.sched_has_floor(f)
                || f == floor) by {
                let k = choose|k: int| 0 <= k < t.len() && t[k].floor == f;
                if k < j {
                    assert(s[k].floor == f);
                } else if k == j {
                } else {
                    assert(s[k - 1].floor == f);
                }
            }
            assert forall|f: int| (pre.sched_has_floor(f) || f == floor) implies self.sched_has_floor(f) by {
                if f == floor {
                    assert(t[j as int].floor == floor);
                } else {
                    let k = choose|k: int| 0 <= k < s.len() && s[k].floor == f;
                    if k < j {
                        assert(t[k].floor == f);
                    } else {
                        assert(t[k + 1].floor == f);
                    }
                }
            }
            if pre.stops_valid() && valid_floor(floor as int) {
                assert forall|i: int| 0 <= i < t.len() implies valid_floor(
                    #[trigger] t[i].floor as int,
                ) by {
                    if i < j {
                        assert(valid_floor(s[i].floor as int));
                    } else if i == j {
                    } else {
                        assert(valid_floor(s[i - 1].floor as int));
                    }
                }
            }
        }
    }

    /// Commit this car to the hall call `(floor, direction)`: record the
    /// assigned stop and, from rest, start toward it — or open the doors
    /// right away when the car already stands at the call floor.
    pub fn commit_call(&mut self, floor: TFloor, direction: Direction)
        requires
            old(self).wf(),
            valid_floor(floor as int),
            !old(self).sched_has_floor(floor as int),
            match direction {
                Direction::Up => old(self).state == State::Stop || (is_up_state(old(self).state)
                    && old(self).cur_floor <= floor),
                Direction::Down => old(self).state == State::Stop || (is_down_state(
                    old(self).state,
                ) && old(self).cur_floor >= floor),
            },
        ensures
            final(self).wf(),
            final(self).no == old(self).no,
            final(self).cur_floor == old(self).cur_floor,
            final(self).can_click_btn == old(self).can_click_btn,
            final(self).state == commit_state(
                old(self).state,
                old(self).cur_floor,
                floor as int,
                direction,
            ),
            old(self).cur_floor != floor ==> final(self).persons == old(self).persons,
            forall|g: int| final(self).cabin_has(g) <==> old(self).cabin_has(g),
            forall|g: int, dd: Direction|
                final(self).sched_has(g, dd) <==> (old(self).sched_has(g, dd) || (g == floor as int
                    && dd == direction)),
            forall|g: int|
                final(self).sched_has_floor(g) <==> (old(self).sched_has_floor(g) || g
                    == floor as int),
    {
        let ghost pre = *self;
        self.insert_schedule_floor(floor, direction);
        let ghost mid = *self;
        if matches!(self.state, State::Stop) {
            if self.cur_floor < floor {
                self.state = State::GoingUp;
            } else if self.cur_floor > floor {
                self.state = State::GoingDown;
            } else {
                self.state = match direction {
                    Direction::Up => State::GoingUpSuspend,
                    Direction::Down => State::GoingDownSuspend,
                };
                self.set_persons();
            }
        }
        proof {
            assert(self.schedule_floors@ == mid.schedule_floors@);
            assert(self.stop_floors@ == mid.stop_floors@);
            assert forall|g: int, dd: Direction| #[trigger] self.sched_has(g, dd)
                <==> mid.sched_has(g, dd) by {}
            assert forall|g: int| #[trigger] self.sched_has_floor(g) <==> mid.sched_has_floor(
                g,
            ) by {}
            assert forall|g: int| #[trigger] self.cabin_has(g) <==> mid.cabin_has(g) by {}
            lemma_members_bounded_of_directed(pre);
            if is_up_state(self.state) {
                assert forall|g: int| self.has_stop(g) implies g >= self.cur_floor by {
                    if pre.has_stop(g) {
                        if pre.state == State::Stop {
                            assert(!pre.cabin_has(g) && !pre.sched_has_floor(g));
                        }
                    } else {
                        assert(g == floor as int);
                    }
                }
            }
            if is_down_state(self.state) {
                assert forall|g: int| self.has_stop(g) implies g <= self.cur_floor by {
                    if pre.has_stop(g) {
                        if pre.state == State::Stop {
                            assert(!pre.cabin_has(g) && !pre.sched_has_floor(g));
                        }
                    } else {
                        assert(g == floor as int);
                    }
                }
            }
            assert(!(self.state == State::Stop || self.state == State::Maintaining));
            lemma_directed_if_members_bounded(*self);
        }
    }

    /// The car carries more passengers than its rated capacity.
    pub fn is_overload(&self) -> (r: bool)
        ensures
            r <==> self.persons > MAX_PERSON_CAPACITY as i32,
    {
        self.persons > MAX_PERSON_CAPACITY as i32
    }

    /// Passenger exchange at a dwell: a random number of passengers net
    /// enters or leaves, clamped to `[0, MAX_PERSON_CAPACITY]`.
    pub fn set_persons(&mut self)
        requires
            0 <= old(self).persons <= MAX_PERSON_CAPACITY as i32,
        ensures
            final(self).no == old(self).no,
            final(self).state == old(self).state,
            final(self).cur_floor == old(self).cur_floor,
            final(self).can_click_btn == old(self).can_click_btn,
            final(self).stop_floors@ == old(self).stop_floors@,
            final(self).schedule_floors@ == old(self).schedule_floors@,
            0 <= final(self).persons <= MAX_PERSON_CAPACITY as i32,
    {
        let n = crate::util::random_person_num();
        if crate::util::random_bool() {
            let s = self.persons + n;
            self.persons = if s > MAX_PERSON_CAPACITY as i32 {
                MAX_PERSON_CAPACITY as i32
            } else {
                s
            };
        } else {
            let s = self.persons - n;
            self.persons = if s < 0 {
                0
            } else {
                s
            };
        }
    }
}

/// Membership of both stop sets decides the direction-consistency bounds, so
/// shrinking the sets of an otherwise unchanged car keeps them.
proof fn lemma_directed_from_membership(pre: Lift, post: Lift)
    requires
        pre.directed(),
        post.state == pre.state,
        post.cur_floor == pre.cur_floor,
        forall|f: int| post.cabin_has(f) ==> pre.cabin_has(f),
        forall|f: int| post.sched_has_floor(f) ==> pre.sched_has_floor(f),
    ensures
        post.directed(),
{
    if is_up_state(post.state) {
        assert forall|i: int| 0 <= i < post.stop_floors@.len() implies #[trigger] post.stop_floors@[i]
            >= post.cur_floor by {
            assert(post.cabin_has(post.stop_floors@[i] as int));
            let j = choose|j: int|
                0 <= j < pre.stop_floors@.len() && pre.stop_floors@[j] == post.stop_floors@[i];
        }
        assert forall|i: int| 0 <= i < post.schedule_floors@.len() implies (
        #[trigger] post.schedule_floors@[i]).floor >= post.cur_floor by {
            assert(post.sched_has_floor(post.schedule_floors@[i].floor as int));
            let j = choose|j: int|
                0 <= j < pre.schedule_floors@.len() && pre.schedule_floors@[j].floor
                    == post.schedule_floors@[i].floor;
        }
    }
    if is_down_state(post.state) {
        assert forall|i: int| 0 <= i < post.stop_floors@.len() implies #[trigger] post.stop_floors@[i]
            <= post.cur_floor by {
            assert(post.cabin_has(post.stop_floors@[i] as int));
            let j = choose|j: int|
                0 <= j < pre.stop_floors@.len() && pre.stop_floors@[j] == post.stop_floors@[i];
        }
        assert forall|i: int| 0 <= i < post.schedule_floors@.len() implies (
        #[trigger] post.schedule_floors@[i]).floor <= post.cur_floor by {
            assert(post.sched_has_floor(post.schedule_floors@[i].floor as int));
            let j = choose|j: int|
                0 <= j < pre.schedule_floors@.len() && pre.schedule_floors@[j].floor
                    == post.schedule_floors@[i].floor;
        }
    }
    if post.state == State::Stop || post.state == State::Maintaining {
        if post.stop_floors@.len() > 0 {
            assert(post.cabin_has(post.stop_floors@[0] as int));
            assert(pre.cabin_has(post.stop_floors@[0] as int));
        }
        if post.schedule_floors@.len() > 0 {
            assert(post.sched_has_floor(post.schedule_floors@[0].floor as int));
            assert(pre.sched_has_floor(post.schedule_floors@[0].floor as int));
        }
    }
}

/// Car `l1` is car `l0` after its doors-open passenger exchange.  The
/// sampled occupancy decides what follows: with nobody aboard the cabin
/// requests are cleared and input refused; with passengers aboard and stops
/// remaining the car keeps its run and accepts input; with nothing left to
/// serve the car rests empty.
pub open spec fn dwell_lift_rel(l0: Lift, l1: Lift) -> bool {
    let dir = if l0.state == State::GoingUpSuspend {
        State::GoingUp
    } else {
        State::GoingDown
    };
    &&& l1.no == l0.no
    &&& l1.cur_floor == l0.cur_floor
    &&& l1.schedule_floors@ == l0.schedule_floors@
    &&& 0 <= l1.persons <= MAX_PERSON_CAPACITY as i32
    &&& (l1.state == State::Stop || l1.state == dir)
    &&& (l1.state == State::Stop ==> l1.persons == 0 && !l1.can_click_btn && l1.stop_floors@.len()
        == 0 && l0.schedule_floors@.len() == 0)
    &&& (l1.state == dir && l1.state != State::Stop ==> {
        &&& (l1.persons == 0 ==> l1.stop_floors@.len() == 0 && !l1.can_click_btn)
        &&& (l1.persons > 0 ==> l1.stop_floors@ == l0.stop_floors@ && l1.can_click_btn)
        &&& !(l1.stop_floors@.len() == 0 && l1.schedule_floors@.len() == 0)
    })
    &&& (l0.stop_floors@.len() == 0 && l0.schedule_floors@.len() == 0 ==> l1.state == State::Stop)
}

/// What a cabin press for floor `f` does to a car.  From rest a valid press
/// away from the car's own floor starts the run toward `f`; during a run
/// only floors ahead toggle, and never the last remaining destination off;
/// everything else is refused and changes nothing.
pub open spec fn cabin_press_rel(l0: Lift, l1: Lift, f: int, accepted: bool) -> bool {
    &&& l1.no == l0.no
    &&& l1.persons == l0.persons
    &&& l1.cur_floor == l0.cur_floor
    &&& l1.can_click_btn == l0.can_click_btn
    &&& l1.schedule_floors@ == l0.schedule_floors@
    &&& if !valid_floor(f) {
        !accepted && l1 == l0
    } else {
        match l0.state {
            State::Stop => {
                if f == l0.cur_floor {
                    !accepted && l1 == l0
                } else {
                    &&& accepted
                    &&& l1.state == (if f > l0.cur_floor {
                        State::GoingUp
                    } else {
                        State::GoingDown
                    })
                    &&& forall|g: int| l1.cabin_has(g) <==> (l0.cabin_has(g) || g == f)
                }
            },
            State::GoingUp | State::GoingUpSuspend => {
                if !l0.can_click_btn || f <= l0.cur_floor {
                    !accepted && l1 == l0
                } else {
                    &&& l1.state == l0.state
                    &&& cabin_toggle_rel(l0, l1, f, accepted)
                }
            },
            State::GoingDown | State::GoingDownSuspend => {
                if !l0.can_click_btn || f >= l0.cur_floor {
                    !accepted && l1 == l0
                } else {
                    &&& l1.state == l0.state
                    &&& cabin_toggle_rel(l0, l1, f, accepted)
                }
            },
            State::Maintaining => !accepted && l1 == l0,
        }
    }
}

/// Toggling the cabin stop `f`: off when present (unless it is the last
/// destination), on when absent.
pub open spec fn cabin_toggle_rel(l0: Lift, l1: Lift, f: int, accepted: bool) -> bool {
    if l0.cabin_has(f) {
        if l0.stop_floors@.len() == 1 && l0.schedule_floors@.len() == 0 {
            !accepted && l1.stop_floors@ == l0.stop_floors@
        } else {
            accepted && (forall|g: int| l1.cabin_has(g) <==> (l0.cabin_has(g) && g != f))
        }
    } else {
        accepted && (forall|g: int| l1.cabin_has(g) <==> (l0.cabin_has(g) || g == f))
    }
}

impl Lift {
    /// The doors-open passenger exchange of a dwell: sample who enters and
    /// leaves, decide whether cabin input is accepted, and either resume the
    /// run or rest when nothing is left to serve.
    pub fn dwell_exchange(&mut self)
        requires
            old(self).wf(),
            old(self).state == State::GoingUpSuspend || old(self).state == State::GoingDownSuspend,
        ensures
            final(self).wf(),
            dwell_lift_rel(*old(self), *final(self)),
    {
        let ghost pre = *self;
        self.set_persons();
        if self.persons == 0 {
            // Nobody aboard: stale cabin requests are dropped.
            self.stop_floors = Vec::new();
            self.can_click_btn = false;
        } else {
            self.can_click_btn = true;
        }
        self.state = if matches!(self.state, State::GoingUpSuspend) {
            State::GoingUp
        } else {
            State::GoingDown
        };
        if self.stop_floors.len() == 0 && self.schedule_floors.len() == 0 {
            self.state = State::Stop;
            self.persons = 0;
            self.can_click_btn = false;
        }
        proof {
            if is_up_state(self.state) || is_down_state(self.state) {
                assert forall|g: int| self.has_stop(g) implies (if is_up_state(self.state) {
                    g >= self.cur_floor
                } else {
                    g <= self.cur_floor
                }) by {
                    assert(pre.has_stop(g));
                    lemma_members_bounded_of_directed(pre);
                }
                lemma_directed_if_members_bounded(*self);
            }
        }
    }

    /// A cabin button press for `floor`: from rest the first press starts
    /// the run toward it; during a run only floors ahead may be toggled, and
    /// the last remaining destination cannot be toggled off.
    pub fn cabin_press(&mut self, floor: TFloor) -> (accepted: bool)
        requires
            old(self).wf(),
        ensures
            final(self).wf(),
            cabin_press_rel(*old(self), *final(self), floor as int, accepted),
    {
        let ghost pre = *self;
        if !(MIN_FLOOR <= floor && floor <= MAX_FLOOR && floor != 0) {
            return false;
        }
        match self.state {
            State::Stop => {
                if floor == self.cur_floor {
                    false
                } else {
                    let up = floor > self.cur_floor;
                    self.insert_stop_floor(floor);
                    self.state = if up {
                        State::GoingUp
                    } else {
                        State::GoingDown
                    };
                    proof {
                        assert forall|g: int| self.has_stop(g) implies (if up {
                            g >= self.cur_floor
                        } else {
                            g <= self.cur_floor
                        }) by {
                            if pre.has_stop(g) {
                                assert(!pre.cabin_has(g) && !pre.sched_has_floor(g));
                            }
                        }
                        lemma_directed_if_members_bounded(*self);
                        assert(forall|g: int|
                            self.cabin_has(g) <==> (pre.cabin_has(g) || g == floor as int));
                        assert(cabin_press_rel(pre, *self, floor as int, true));
                    }
                    true
                }
            },
            State::GoingUp | State::GoingUpSuspend => {
                if !self.can_click_btn || floor <= self.cur_floor {
                    false
                } else {
                    self.toggle_cabin_stop(floor)
                }
            },
            State::GoingDown | State::GoingDownSuspend => {
                if !self.can_click_btn || floor >= self.cur_floor {
                    false
                } else {
                    self.toggle_cabin_stop(floor)
                }
            },
            State::Maintaining => false,
        }
    }

    /// Toggle the cabin stop at `floor`; refuse to toggle off the last
    /// remaining destination.
    fn toggle_cabin_stop(&mut self, floor: TFloor) -> (accepted: bool)
        requires
            old(self).wf(),
            valid_floor(floor as int),
            is_up_state(old(self).state) ==> old(self).cur_floor <= floor,
            is_down_state(old(self).state) ==> old(self).cur_floor >= floor,
            is_up_state(old(self).state) || is_down_state(old(self).state),
        ensures
            final(self).wf(),
            final(self).no == old(self).no,
            final(self).state == old(self).state,
            final(self).persons == old(self).persons,
            final(self).cur_floor == old(self).cur_floor,
            final(self).can_click_btn == old(self).can_click_btn,
            final(self).schedule_floors@ == old(self).schedule_floors@,
            if old(self).cabin_has(floor as int) {
                if old(self).stop_floors@.len() == 1 && old(self).schedule_floors@.len() == 0 {
                    !accepted && final(self).stop_floors@ == old(self).stop_floors@
                } else {
                    accepted && (forall|g: int|
                        final(self).cabin_has(g) <==> (old(self).cabin_has(g) && g
                            != floor as int))
                }
            } else {
                accepted && (forall|g: int|
                    final(self).cabin_has(g) <==> (old(self).cabin_has(g) || g == floor as int))
            },
    {
        let ghost pre = *self;
        match find_floor_index(&self.stop_floors, floor) {
            Some(i) => {
                if self.stop_floors.len() == 1 && self.schedule_floors.len() == 0 {
                    // The car must keep a destination while it runs.
                    proof {
                        assert(pre.cabin_has(floor as int));
                    }
                    false
                } else {
                    proof {
                        assert(pre.cabin_has(floor as int));
                    }
                    self.stop_floors.remove(i);
                    proof {
                        lemma_remove_cabin(pre, *self, floor);
                        lemma_members_bounded_of_directed(pre);
                        assert forall|g: int| self.has_stop(g) implies (if is_up_state(
                            self.state,
                        ) {
                            g >= self.cur_floor
                        } else {
                            g <= self.cur_floor
                        }) by {
                            assert(pre.has_stop(g));
                        }
                        lemma_directed_if_members_bounded(*self);
                    }
                    true
                }
            },
            None => {
                self.insert_stop_floor(floor);
                proof {
                    lemma_members_bounded_of_directed(pre);
                    assert forall|g: int| self.has_stop(g) implies (if is_up_state(self.state) {
                        g >= self.cur_floor
                    } else {
                        g <= self.cur_floor
                    }) by {
                        if pre.has_stop(g) {
                        } else {
                            assert(g == floor as int);
                        }
                    }
                    lemma_directed_if_members_bounded(*self);
                }
                true
            },
        }
    }

    /// Nothing left to serve: close the doors and rest.
    pub fn fall_to_rest(&mut self)
        requires
            old(self).stops_empty(),
        ensures
            final(self).no == old(self).no,
            final(self).cur_floor == old(self).cur_floor,
            final(self).stop_floors@ == old(self).stop_floors@,
            final(self).schedule_floors@ == old(self).schedule_floors@,
            final(self).state == State::Stop,
            final(self).persons == 0,
            !final(self).can_click_btn,
            valid_floor(old(self).cur_floor as int) ==> final(self).wf(),
    {
        self.state = State::Stop;
        self.persons = 0;
        self.can_click_btn = false;
    }

    /// Move one physical floor toward the destination `dest`.
    pub fn step_toward(&mut self, dest: TFloor, up: bool)
        requires
            old(self).wf(),
            valid_floor(dest as int),
            up ==> old(self).state == State::GoingUp && old(self).cur_floor < dest,
            !up ==> old(self).state == State::GoingDown && old(self).cur_floor > dest,
            forall|g: int|
                old(self).has_stop(g) ==> (if up {
                    g >= dest
                } else {
                    g <= dest
                }),
        ensures
            final(self).no == old(self).no,
            final(self).state == old(self).state,
            final(self).persons == old(self).persons,
            final(self).can_click_btn == old(self).can_click_btn,
            final(self).stop_floors@ == old(self).stop_floors@,
            final(self).schedule_floors@ == old(self).schedule_floors@,
            final(self).cur_floor as int == crate::floor::spec_advance_one(
                old(self).cur_floor as int,
                up,
            ),
            final(self).wf(),
    {
        let ghost pre = *self;
        self.cur_floor = crate::floor::advance_one(self.cur_floor, up);
        proof {
            crate::floor::lemma_advance_one_toward(pre.cur_floor as int, dest as int, up);
            assert forall|g: int| self.has_stop(g) implies (if up {
                g >= self.cur_floor
            } else {
                g <= self.cur_floor
            }) by {
                assert(pre.has_stop(g));
            }
            lemma_directed_if_members_bounded(*self);
        }
    }

    /// Arrival at the destination: open the doors (enter the dwell phase of
    /// the current run) and strike the floor off both stop sets, reporting
    /// the direction of the removed assigned stop.
    pub fn arrive_suspend(&mut self, dest: TFloor) -> (r: Option<Direction>)
        requires
            old(self).wf(),
            is_up_state(old(self).state) || is_down_state(old(self).state),
        ensures
            final(self).no == old(self).no,
            final(self).cur_floor == old(self).cur_floor,
            final(self).persons == old(self).persons,
            final(self).can_click_btn == old(self).can_click_btn,
            final(self).state == (if old(self).state == State::GoingUp {
                State::GoingUpSuspend
            } else if old(self).state == State::GoingDown {
                State::GoingDownSuspend
            } else {
                old(self).state
            }),
            forall|g: int| final(self).cabin_has(g) <==> (old(self).cabin_has(g) && g != dest),
            forall|g: int, dd: Direction|
                final(self).sched_has(g, dd) <==> (old(self).sched_has(g, dd) && g != dest),
            match r {
                Some(dm) => old(self).sched_has(dest as int, dm),
                None => !old(self).sched_has_floor(dest as int),
            },
            final(self).wf(),
    {
        if matches!(self.state, State::GoingUp) {
            self.state = State::GoingUpSuspend;
        } else if matches!(self.state, State::GoingDown) {
            self.state = State::GoingDownSuspend;
        }
        self.remove_floor(dest)
    }
}

/// State of a car after it commits to the hall call `(f, d)`: a resting car
/// starts toward the call floor, or opens its doors when already there; a
/// moving car keeps its state.
pub open spec fn commit_state(s: State, cur: TFloor, f: int, d: Direction) -> State {
    if s == State::Stop {
        if (cur as int) < f {
            State::GoingUp
        } else if (cur as int) > f {
            State::GoingDown
        } else {
            match d {
                Direction::Up => State::GoingUpSuspend,
                Direction::Down => State::GoingDownSuspend,
            }
        }
    } else {
        s
    }
}

/// Cost of sending a resting car on an up or down sweep: the car's number,
/// the summed distance to the floors it would serve, and how many they are.
#[derive(Clone, Copy, Debug)]
pub struct LiftUpDownCost {
    pub no: usize,
    pub cost: i32,
    pub cnt: usize,
}

/// Rank of sweep costs: cheaper first; at equal cost the car that serves
/// more floors first.
pub open spec fn cost_le(a: LiftUpDownCost, b: LiftUpDownCost) -> bool {
    a.cost < b.cost || (a.cost == b.cost && a.cnt >= b.cnt)
}

impl PartialEq for LiftUpDownCost {
    /// Two costs rank equal when cost and count agree, whatever the car.
    fn eq(&self, other: &Self) -> bool {
        self.cost == other.cost && self.cnt == other.cnt
    }
}

impl vstd::std_specs::cmp::PartialEqSpecImpl for LiftUpDownCost {
    open spec fn obeys_eq_spec() -> bool {
        true
    }

    open spec fn eq_spec(&self, other: &LiftUpDownCost) -> bool {
        self.cost == other.cost && self.cnt == other.cnt
    }
}

impl PartialOrd for LiftUpDownCost {
    /// Cheaper cost first; at equal cost the larger count first.
    fn partial_cmp(&self, other: &Self) -> Option<core::cmp::Ordering> {
        if self.cost < other.cost {
            Some(core::cmp::Ordering::Less)
        } else if self.cost > other.cost {
            Some(core::cmp::Ordering::Greater)
        } else {
            if other.cnt < self.cnt {
                Some(core::cmp::Ordering::Less)
            } else if other.cnt > self.cnt {
                Some(core::cmp::Ordering::Greater)
            } else {
                Some(core::cmp::Ordering::Equal)
            }
        }
    }
}

impl vstd::std_specs::cmp::PartialOrdSpecImpl for LiftUpDownCost {
    open spec fn obeys_partial_cmp_spec() -> bool {
        true
    }

    open spec fn partial_cmp_spec(&self, other: &LiftUpDownCost) -> Option<core::cmp::Ordering> {
        if self.cost < other.cost {
            Some(core::cmp::Ordering::Less)
        } else if self.cost > other.cost {
            Some(core::cmp::Ordering::Greater)
        } else {
            if other.cnt < self.cnt {
                Some(core::cmp::Ordering::Less)
            } else if other.cnt > self.cnt {
                Some(core::cmp::Ordering::Greater)
            } else {
                Some(core::cmp::Ordering::Equal)
            }
        }
    }
}

/// Sort sweep costs into rank order, keeping exactly the same entries.
pub fn sort_costs(v: &mut Vec<LiftUpDownCost>)
    ensures
        final(v)@.len() == old(v)@.len(),
        final(v)@.to_multiset() == old(v)@.to_multiset(),
        forall|a: int, b: int|
            0 <= a < b < final(v)@.len() ==> cost_le(final(v)@[a], final(v)@[b]),
{
    let mut out: Vec<LiftUpDownCost> = Vec::new();
    proof {
        broadcast use vstd::seq_lib::group_to_multiset_ensures;

    }
    while v.len() > 0
        invariant
            out@.len() + v@.len() == old(v)@.len(),
            out@.to_multiset().add(v@.to_multiset()) =~= old(v)@.to_multiset(),
            forall|a: int, b: int| 0 <= a < b < out@.len() ==> cost_le(out@[a], out@[b]),
            forall|a: int, b: int|
                0 <= a < out@.len() && 0 <= b < v@.len() ==> cost_le(out@[a], v@[b]),
        decreases v@.len(),
    {
        // Pick the cheapest remaining entry.
        let mut best: usize = 0;
        let mut i: usize = 1;
        while i < v.len()
            invariant
                v@.len() > 0,
                0 <= best < i <= v@.len(),
                forall|j: int| 0 <= j < i ==> cost_le(v@[best as int], #[trigger] v@[j]),
            decreases v@.len() - i,
        {
            let take = v[i].cost < v[best].cost || (v[i].cost == v[best].cost && v[i].cnt
                > v[best].cnt);
            if take {
                best = i;
            }
            i = i + 1;
        }
        let x = v.remove(best);
        proof {
            broadcast use vstd::seq_lib::group_to_multiset_ensures;

        }
        out.push(x);
    }
    proof {
        assert(v@.to_multiset() =~= vstd::multiset::Multiset::empty());
        assert(out@.to_multiset().add(v@.to_multiset()) =~= out@.to_multiset());
    }
    *v = out;
}

/// Two cars with the same assigned-set contents agree on every assignment
/// membership question.
pub proof fn lemma_same_sched_members(a: Lift, b: Lift)
    requires
        a.schedule_floors@ == b.schedule_floors@,
    ensures
        forall|g: int, dd: Direction| a.sched_has(g, dd) <==> b.sched_has(g, dd),
        forall|g: int| a.sched_has_floor(g) <==> b.sched_has_floor(g),
{
    assert forall|g: int, dd: Direction| a.sched_has(g, dd) <==> b.sched_has(g, dd) by {
        if a.sched_has(g, dd) {
            let j = choose|j: int|
                0 <= j < a.schedule_floors@.len() && a.schedule_floors@[j].floor == g
                    && a.schedule_floors@[j].direction == dd;
            assert(b.schedule_floors@[j].floor == g && b.schedule_floors@[j].direction == dd);
        }
        if b.sched_has(g, dd) {
            let j = choose|j: int|
                0 <= j < b.schedule_floors@.len() && b.schedule_floors@[j].floor == g
                    && b.schedule_floors@[j].direction == dd;
            assert(a.schedule_floors@[j].floor == g && a.schedule_floors@[j].direction == dd);
        }
    }
    assert forall|g: int| a.sched_has_floor(g) <==> b.sched_has_floor(g) by {
        if a.sched_has_floor(g) {
            let j = choose|j: int|
                0 <= j < a.schedule_floors@.len() && a.schedule_floors@[j].floor == g;
            assert(b.schedule_floors@[j].floor == g);
        }
        if b.sched_has_floor(g) {
            let j = choose|j: int|
                0 <= j < b.schedule_floors@.len() && b.schedule_floors@[j].floor == g;
            assert(a.schedule_floors@[j].floor == g);
        }
    }
}

/// Two cars with the same stop-set contents agree on every membership
/// question.
pub proof fn lemma_same_stop_members(a: Lift, b: Lift)
    requires
        a.schedule_floors@ == b.schedule_floors@,
        a.stop_floors@ == b.stop_floors@,
    ensures
        forall|g: int, dd: Direction| a.sched_has(g, dd) <==> b.sched_has(g, dd),
        forall|g: int| a.sched_has_floor(g) <==> b.sched_has_floor(g),
        forall|g: int| a.cabin_has(g) <==> b.cabin_has(g),
        forall|g: int| a.has_stop(g) <==> b.has_stop(g),
{
    assert forall|g: int, dd: Direction| a.sched_has(g, dd) <==> b.sched_has(g, dd) by {
        if a.sched_has(g, dd) {
            let j = choose|j: int|
                0 <= j < a.schedule_floors@.len() && a.schedule_floors@[j].floor == g
                    && a.schedule_floors@[j].direction == dd;
            assert(b.schedule_floors@[j].floor == g && b.schedule_floors@[j].direction == dd);
        }
        if b.sched_has(g, dd) {
            let j = choose|j: int|
                0 <= j < b.schedule_floors@.len() && b.schedule_floors@[j].floor == g
                    && b.schedule_floors@[j].direction == dd;
            assert(a.schedule_floors@[j].floor == g && a.schedule_floors@[j].direction == dd);
        }
    }
    assert forall|g: int| a.sched_has_floor(g) <==> b.sched_has_floor(g) by {
        if a.sched_has_floor(g) {
            let j = choose|j: int|
                0 <= j < a.schedule_floors@.len() && a.schedule_floors@[j].floor == g;
            assert(b.schedule_floors@[j].floor == g);
        }
        if b.sched_has_floor(g) {
            let j = choose|j: int|
                0 <= j < b.schedule_floors@.len() && b.schedule_floors@[j].floor == g;
            assert(a.schedule_floors@[j].floor == g);
        }
    }
    assert forall|g: int| a.cabin_has(g) <==> b.cabin_has(g) by {
        if a.cabin_has(g) {
            let j = choose|j: int| 0 <= j < a.stop_floors@.len() && a.stop_floors@[j] == g;
            assert(b.stop_floors@[j] == g);
        }
        if b.cabin_has(g) {
            let j = choose|j: int| 0 <= j < b.stop_floors@.len() && b.stop_floors@[j] == g;
            assert(a.stop_floors@[j] == g);
        }
    }
}

/// A car holds at most one assigned direction per floor: the assigned set is
/// strictly sorted by floor.
pub proof fn lemma_sched_unique_dir(l: Lift, m: int)
    requires
        l.sorted_stops(),
    ensures
        forall|d1: Direction, d2: Direction|
            l.sched_has(m, d1) && l.sched_has(m, d2) ==> d1 == d2,
{
    assert forall|d1: Direction, d2: Direction|
        l.sched_has(m, d1) && l.sched_has(m, d2) implies d1 == d2 by {
        let j1 = choose|j: int|
            0 <= j < l.schedule_floors@.len() && l.schedule_floors@[j].floor == m
                && l.schedule_floors@[j].direction == d1;
        let j2 = choose|j: int|
            0 <= j < l.schedule_floors@.len() && l.schedule_floors@[j].floor == m
                && l.schedule_floors@[j].direction == d2;
        if j1 < j2 {
            assert(l.schedule_floors@[j1].floor < l.schedule_floors@[j2].floor);
        } else if j2 < j1 {
            assert(l.schedule_floors@[j2].floor < l.schedule_floors@[j1].floor);
        }
    }
}

/// Direction consistency follows from a bound on the members of the stop
/// sets.
pub proof fn lemma_directed_if_members_bounded(l: Lift)
    requires
        is_up_state(l.state) ==> forall|f: int| l.has_stop(f) ==> f >= l.cur_floor,
        is_down_state(l.state) ==> forall|f: int| l.has_stop(f) ==> f <= l.cur_floor,
        (l.state == State::Stop || l.state == State::Maintaining) ==> l.stops_empty(),
    ensures
        l.directed(),
{
    if is_up_state(l.state) {
        assert forall|i: int| 0 <= i < l.stop_floors@.len() implies #[trigger] l.stop_floors@[i]
            >= l.cur_floor by {
            assert(l.cabin_has(l.stop_floors@[i] as int));
            assert(l.has_stop(l.stop_floors@[i] as int));
        }
        assert forall|i: int| 0 <= i < l.schedule_floors@.len() implies (
        #[trigger] l.schedule_floors@[i]).floor >= l.cur_floor by {
            assert(l.sched_has_floor(l.schedule_floors@[i].floor as int));
            assert(l.has_stop(l.schedule_floors@[i].floor as int));
        }
    }
    if is_down_state(l.state) {
        assert forall|i: int| 0 <= i < l.stop_floors@.len() implies #[trigger] l.stop_floors@[i]
            <= l.cur_floor by {
            assert(l.cabin_has(l.stop_floors@[i] as int));
            assert(l.has_stop(l.stop_floors@[i] as int));
        }
        assert forall|i: int| 0 <= i < l.schedule_floors@.len() implies (
        #[trigger] l.schedule_floors@[i]).floor <= l.cur_floor by {
            assert(l.sched_has_floor(l.schedule_floors@[i].floor as int));
            assert(l.has_stop(l.schedule_floors@[i].floor as int));
        }
    }
}

/// Conversely, a direction-consistent car bounds every member of its stop
/// sets by its current floor.
pub proof fn lemma_members_bounded_of_directed(l: Lift)
    requires
        l.directed(),
    ensures
        is_up_state(l.state) ==> forall|f: int| l.has_stop(f) ==> f >= l.cur_floor,
        is_down_state(l.state) ==> forall|f: int| l.has_stop(f) ==> f <= l.cur_floor,
{
    if is_up_state(l.state) {
        assert forall|f: int| l.has_stop(f) implies f >= l.cur_floor by {
            if l.cabin_has(f) {
                let i = choose|i: int| 0 <= i < l.stop_floors@.len() && l.stop_floors@[i] == f;
                assert(l.stop_floors@[i] >= l.cur_floor);
            } else {
                let i = choose|i: int|
                    0 <= i < l.schedule_floors@.len() && l.schedule_floors@[i].floor == f;
                assert(l.schedule_floors@[i].floor >= l.cur_floor);
            }
        }
    }
    if is_down_state(l.state) {
        assert forall|f: int| l.has_stop(f) implies f <= l.cur_floor by {
            if l.cabin_has(f) {
                let i = choose|i: int| 0 <= i < l.stop_floors@.len() && l.stop_floors@[i] == f;
                assert(l.stop_floors@[i] <= l.cur_floor);
            } else {
                let i = choose|i: int|
                    0 <= i < l.schedule_floors@.len() && l.schedule_floors@[i].floor == f;
                assert(l.schedule_floors@[i].floor <= l.cur_floor);
            }
        }
    }
}

/// Index of `floor` in a vector of floors, if present.
fn find_floor_index(v: &Vec<TFloor>, floor: TFloor) -> (r: Option<usize>)
    ensures
        match r {
            Some(i) => i < v@.len() && v@[i as int] == floor,
            None => forall|j: int| 0 <= j < v@.len() ==> v@[j] != floor,
        },
{
    let mut i: usize = 0;
    while i < v.len()
        invariant
            0 <= i <= v@.len(),
            forall|j: int| 0 <= j < i ==> v@[j] != floor,
        decreases v@.len() - i,
    {
        if v[i] == floor {
            return Some(i);
        }
        i = i + 1;
    }
    None
}

/// Index of the assigned stop at `floor`, if present.
fn find_sched_index(v: &Vec<ScheduleStop>, floor: TFloor) -> (r: Option<usize>)
    ensures
        match r {
            Some(i) => i < v@.len() && v@[i as int].floor == floor,
            None => forall|j: int| 0 <= j < v@.len() ==> v@[j].floor != floor,
        },
{
    let mut i: usize = 0;
    while i < v.len()
        invariant
            0 <= i <= v@.len(),
            forall|j: int| 0 <= j < i ==> v@[j].floor != floor,
        decreases v@.len() - i,
    {
        if v[i].floor == floor {
            return Some(i);
        }
        i = i + 1;
    }
    None
}

proof fn lemma_remove_cabin(pre: Lift, post: Lift, floor: TFloor)
    requires
        pre.sorted_stops(),
        post.schedule_floors@ == pre.schedule_floors@,
        (post.stop_floors@ == pre.stop_floors@ && !pre.cabin_has(floor as int)) || (exists|i: int|
            0 <= i < pre.stop_floors@.len() && pre.stop_floors@[i] == floor
                && post.stop_floors@ == pre.stop_floors@.remove(i)),
    ensures
        forall|f: int| post.cabin_has(f) <==> (pre.cabin_has(f) && f != floor),
        forall|i: int, j: int|
            0 <= i < j < post.stop_floors@.len() ==> post.stop_floors@[i] < post.stop_floors@[j],
{
    if post.stop_floors@ == pre.stop_floors@ && !pre.cabin_has(floor as int) {
    } else {
        let i = choose|i: int|
            0 <= i < pre.stop_floors@.len() && pre.stop_floors@[i] == floor
                && post.stop_floors@ == pre.stop_floors@.remove(i);
        let s = pre.stop_floors@;
        assert forall|f: int| post.cabin_has(f) implies (pre.cabin_has(f) && f != floor) by {
            let k = choose|k: int| 0 <= k < post.stop_floors@.len() && post.stop_floors@[k] == f;
            if k < i {
                assert(s[k] == f);
                assert(s[k] < s[i]);
            } else {
                assert(s[k + 1] == f);
                assert(s[i] < s[k + 1]);
            }
        }
        assert forall|f: int| (pre.cabin_has(f) && f != floor) implies post.cabin_has(f) by {
            let k = choose|k: int| 0 <= k < s.len() && s[k] == f;
            if k < i {
                assert(post.stop_floors@[k] == f);
            } else {
                assert(k != i);
                assert(post.stop_floors@[k - 1] == f);
            }
        }
    }
}

proof fn lemma_remove_sched(pre: Lift, post: Lift, floor: TFloor)
    requires
        pre.sorted_stops(),
        post.stop_floors@ == pre.stop_floors@,
        (post.schedule_floors@ == pre.schedule_floors@ && !pre.sched_has_floor(floor as int)) || (
        exists|i: int|
            0 <= i < pre.schedule_floors@.len() && pre.schedule_floors@[i].floor == floor
                && post.schedule_floors@ == pre.schedule_floors@.remove(i)),
    ensures
        forall|f: int, d: Direction| post.sched_has(f, d) <==> (pre.sched_has(f, d) && f != floor),
        forall|f: int| post.sched_has_floor(f) <==> (pre.sched_has_floor(f) && f != floor),
        forall|i: int, j: int|
            0 <= i < j < post.schedule_floors@.len() ==> post.schedule_floors@[i].floor
                < post.schedule_floors@[j].floor,
{
    if post.schedule_floors@ == pre.schedule_floors@ && !pre.sched_has_floor(floor as int) {
        assert forall|f: int, d: Direction| post.sched_has(f, d) implies (pre.sched_has(f, d) && f
            != floor) by {
            assert(pre.sched_has_floor(f));
        }
        assert forall|f: int| post.sched_has_floor(f) implies (pre.sched_has_floor(f) && f
            != floor) by {}
    } else {
        let i = choose|i: int|
            0 <= i < pre.schedule_floors@.len() && pre.schedule_floors@[i].floor == floor
                && post.schedule_floors@ == pre.schedule_floors@.remove(i);
        let s = pre.schedule_floors@;
        assert forall|f: int, d: Direction| post.sched_has(f, d) implies (pre.sched_has(f, d) && f
            != floor) by {
            let k = choose|k: int|
                0 <= k < post.schedule_floors@.len() && post.schedule_floors@[k].floor == f
                    && post.schedule_floors@[k].direction == d;
            if k < i {
                assert(s[k].floor == f && s[k].direction == d);
                assert(s[k].floor < s[i].floor);
            } else {
                assert(s[k + 1].floor == f && s[k + 1].direction == d);
                assert(s[i].floor < s[k + 1].floor);
            }
        }
        assert forall|f: int, d: Direction| (pre.sched_has(f, d) && f != floor) implies
            post.sched_has(f, d) by {
            let k = choose|k: int| 0 <= k < s.len() && s[k].floor == f && s[k].direction == d;
            if k < i {
                assert(post.schedule_floors@[k] == s[k]);
            } else {
                assert(k != i);
                assert(post.schedule_floors@[k - 1] == s[k]);
            }
        }
        assert forall|f: int| post.sched_has_floor(f) implies (pre.sched_has_floor(f) && f
            != floor) by {
            let k = choose|k: int|
                0 <= k < post.schedule_floors@.len() && post.schedule_floors@[k].floor == f;
            let d = post.schedule_floors@[k].direction;
            assert(post.sched_has(f, d));
        }
        assert forall|f: int| (pre.sched_has_floor(f) && f != floor) implies post.sched_has_floor(
            f,
        ) by {
            let k = choose|k: int| 0 <= k < s.len() && s[k].floor == f;
            let d = s[k].direction;
            assert(pre.sched_has(f, d));
            assert(post.sched_has(f, d));
        }
    }
}

} // verus!
