//! Console-mode dispatcher: which cars may pick passengers up, and which
//! waiting floors each car is told to serve.

use vstd::prelude::*;
use crate::conf::{TFloor, MAX_ELEVATOR_NUM, MAX_FLOOR, MAX_PERSON_CAPACITY, MIN_FLOOR};
use crate::elevator::Elevator;
use crate::state::{is_down_state, is_up_state, State};

verus! {

/// How many waiting floors the console mode plans for at once.
pub fn stair_capacity() -> (r: usize)
    ensures
        r as int == ((MAX_FLOOR - MIN_FLOOR) as int / 2) * MAX_ELEVATOR_NUM as int,
{
    (((MAX_FLOOR - MIN_FLOOR) / 2) as usize) * MAX_ELEVATOR_NUM
}

/// The car can go pick somebody up who wants to ride up: it is resting or
/// already on an up run, one more passenger still fits, and at least one
/// waiting floor lies at or above it.
pub fn can_elevator_up(stairs: &Vec<TFloor>, elevator: &Elevator) -> (r: bool)
    ensures
        r == ((elevator.state == State::Stop || is_up_state(elevator.state))
            && elevator.meta.persons as int + 1 < MAX_PERSON_CAPACITY as int && exists|i: int|
            0 <= i < stairs@.len() && #[trigger] stairs@[i] >= elevator.meta.cur_floor),
{
    match elevator.state {
        State::Maintaining | State::GoingDown | State::GoingDownSuspend => false,
        State::Stop | State::GoingUp | State::GoingUpSuspend => {
            if !((elevator.meta.persons as i32) + 1 < MAX_PERSON_CAPACITY as i32) {
                return false;
            }
            let mut i: usize = 0;
            while i < stairs.len()
                invariant
                    elevator.state == State::Stop || is_up_state(elevator.state),
                    elevator.meta.persons as int + 1 < MAX_PERSON_CAPACITY as int,
                    0 <= i <= stairs@.len(),
                    forall|j: int| 0 <= j < i ==> !(#[trigger] stairs@[j] >= elevator.meta.cur_floor),
                decreases stairs@.len() - i,
            {
                if stairs[i] >= elevator.meta.cur_floor {
                    proof {
                        assert(stairs@[i as int] >= elevator.meta.cur_floor);
                    }
                    return true;
                }
                i = i + 1;
            }
            false
        },
    }
}

/// The car can go pick somebody up who wants to ride down: resting or on a
/// down run, one more passenger fits, and a waiting floor lies at or below
/// it.
pub fn cam_elevator_down(stairs: &Vec<TFloor>, elevator: &Elevator) -> (r: bool)
    ensures
        r == ((elevator.state == State::Stop || is_down_state(elevator.state))
            && elevator.meta.persons as int + 1 < MAX_PERSON_CAPACITY as int && exists|i: int|
            0 <= i < stairs@.len() && #[trigger] stairs@[i] <= elevator.meta.cur_floor),
{
    match elevator.state {
        State::Maintaining | State::GoingUp | State::GoingUpSuspend => false,
        State::Stop | State::GoingDown | State::GoingDownSuspend => {
            if !((elevator.meta.persons as i32) + 1 < MAX_PERSON_CAPACITY as i32) {
                return false;
            }
            let mut i: usize = 0;
            while i < stairs.len()
                invariant
                    elevator.state == State::Stop || is_down_state(elevator.state),
                    elevator.meta.persons as int + 1 < MAX_PERSON_CAPACITY as int,
                    0 <= i <= stairs@.len(),
                    forall|j: int| 0 <= j < i ==> !(#[trigger] stairs@[j] <= elevator.meta.cur_floor),
                decreases stairs@.len() - i,
            {
                if stairs[i] <= elevator.meta.cur_floor {
                    proof {
                        assert(stairs@[i as int] <= elevator.meta.cur_floor);
                    }
                    return true;
                }
                i = i + 1;
            }
            false
        },
    }
}

/// Car `j` (of the `(number, floor)` list) takes the up-bound waiting floor
/// `p`: it stands strictly below `p`, and of all such cars it is the
/// highest, ties going to the larger car number.
pub open spec fn is_up_target(elevs: Seq<(u8, TFloor)>, p: int, j: int) -> bool {
    &&& 0 <= j < elevs.len()
    &&& (elevs[j].1 as int) < p
    &&& forall|j2: int|
        0 <= j2 < elevs.len() && j2 != j && ((#[trigger] elevs[j2]).1 as int) < p ==> ((
        elevs[j2].1 as int) < (elevs[j].1 as int) || ((elevs[j2].1 as int) == (elevs[j].1 as int)
            && elevs[j2].0 < elevs[j].0))
}

/// The up-bound waiting floors, in order, that car `j` takes.
pub open spec fn up_portion(stairs: Seq<TFloor>, elevs: Seq<(u8, TFloor)>, j: int) -> Seq<TFloor>
    decreases stairs.len(),
{
    if stairs.len() <= 0 {
        Seq::empty()
    } else {
        let rest = up_portion(stairs.drop_last(), elevs, j);
        if is_up_target(elevs, stairs.last() as int, j) {
            rest.push(stairs.last())
        } else {
            rest
        }
    }
}

/// Car `j` takes the down-bound waiting floor `p`: it is not already riding
/// up for this sweep, stands at or above `p`, and of all such cars it is
/// the lowest, ties going to the smaller car number.
pub open spec fn is_down_target(
    elevs: Seq<(u8, TFloor)>,
    used: Seq<u8>,
    p: int,
    j: int,
) -> bool {
    &&& 0 <= j < elevs.len()
    &&& !used.contains(elevs[j].0)
    &&& (elevs[j].1 as int) >= p
    &&& forall|j2: int|
        0 <= j2 < elevs.len() && j2 != j && !used.contains((#[trigger] elevs[j2]).0) && ((
        elevs[j2]).1 as int) >= p ==> ((elevs[j2].1 as int) > (elevs[j].1 as int) || ((
        elevs[j2].1 as int) == (elevs[j].1 as int) && elevs[j2].0 > elevs[j].0))
}

/// The down-bound waiting floors, in order, that car `j` takes.
pub open spec fn down_portion(
    stairs: Seq<TFloor>,
    elevs: Seq<(u8, TFloor)>,
    used: Seq<u8>,
    j: int,
) -> Seq<TFloor>
    decreases stairs.len(),
{
    if stairs.len() <= 0 {
        Seq::empty()
    } else {
        let rest = down_portion(stairs.drop_last(), elevs, used, j);
        if is_down_target(elevs, used, stairs.last() as int, j) {
            rest.push(stairs.last())
        } else {
            rest
        }
    }
}

/// Car `j` takes the up-bound floor `p`.
fn is_up_target_exec(elevs: &Vec<(u8, TFloor)>, p: TFloor, j: usize) -> (r: bool)
    requires
        j < elevs@.len(),
    ensures
        r == is_up_target(elevs@, p as int, j as int),
{
    if !(elevs[j].1 < p) {
        return false;
    }
    let mut j2: usize = 0;
    while j2 < elevs.len()
        invariant
            j < elevs@.len(),
            elevs@[j as int].1 < p,
            0 <= j2 <= elevs@.len(),
            forall|k: int|
                0 <= k < j2 && k != j && ((#[trigger] elevs@[k]).1 as int) < p ==> ((
                elevs@[k].1 as int) < (elevs@[j as int].1 as int) || ((elevs@[k].1 as int) == (
                elevs@[j as int].1 as int) && elevs@[k].0 < elevs@[j as int].0)),
        decreases elevs@.len() - j2,
    {
        if j2 != j && elevs[j2].1 < p {
            let better = elevs[j2].1 > elevs[j].1 || (elevs[j2].1 == elevs[j].1 && elevs[j2].0
                >= elevs[j].0);
            if better {
                return false;
            }
        }
        j2 = j2 + 1;
    }
    true
}

/// Car `j` takes the down-bound floor `p`, skipping cars in `used`.
fn is_down_target_exec(elevs: &Vec<(u8, TFloor)>, used: &Vec<u8>, p: TFloor, j: usize) -> (r:
    bool)
    requires
        j < elevs@.len(),
    ensures
        r == is_down_target(elevs@, used@, p as int, j as int),
{
    if contains_no(used, elevs[j].0) {
        return false;
    }
    if !(elevs[j].1 >= p) {
        return false;
    }
    let mut j2: usize = 0;
    while j2 < elevs.len()
        invariant
            j < elevs@.len(),
            elevs@[j as int].1 >= p,
            !used@.contains(elevs@[j as int].0),
            0 <= j2 <= elevs@.len(),
            forall|k: int|
                0 <= k < j2 && k != j && !used@.contains((#[trigger] elevs@[k]).0) && ((
                elevs@[k]).1 as int) >= p ==> ((elevs@[k].1 as int) > (elevs@[j as int].1 as int)
                || ((elevs@[k].1 as int) == (elevs@[j as int].1 as int) && elevs@[k].0
                > elevs@[j as int].0)),
        decreases elevs@.len() - j2,
    {
        if j2 != j && !contains_no(used, elevs[j2].0) && elevs[j2].1 >= p {
            let better = elevs[j2].1 < elevs[j].1 || (elevs[j2].1 == elevs[j].1 && elevs[j2].0
                <= elevs[j].0);
            if better {
                return false;
            }
        }
        j2 = j2 + 1;
    }
    true
}

/// The list holds this car number.
fn contains_no(used: &Vec<u8>, no: u8) -> (r: bool)
    ensures
        r == used@.contains(no),
{
    let mut i: usize = 0;
    while i < used.len()
        invariant
            0 <= i <= used@.len(),
            forall|j: int| 0 <= j < i ==> used@[j] != no,
        decreases used@.len() - i,
    {
        if used[i] == no {
            proof {
                assert(used@[i as int] == no);
            }
            return true;
        }
        i = i + 1;
    }
    proof {
        if used@.contains(no) {
            let j = choose|j: int| 0 <= j < used@.len() && used@[j] == no;
        }
    }
    false
}

/// Plan the up sweep: every car of the candidate list is told which
/// up-bound waiting floors to serve — each floor goes to the nearest
/// candidate below it.
pub fn arrange_up_elevator(stairs: &Vec<TFloor>, elevators: &Vec<(u8, TFloor)>) -> (ret: Vec<
    (u8, Vec<TFloor>),
>)
    ensures
        ret@.len() == elevators@.len(),
        forall|j: int| 0 <= j < ret@.len() ==> (#[trigger] ret@[j]).0 == elevators@[j].0,
        forall|j: int|
            0 <= j < ret@.len() ==> (#[trigger] ret@[j]).1@ == up_portion(
                stairs@,
                elevators@,
                j,
            ),
{
    let mut ret: Vec<(u8, Vec<TFloor>)> = Vec::new();
    let mut j: usize = 0;
    while j < elevators.len()
        invariant
            0 <= j <= elevators@.len(),
            ret@.len() == j,
            forall|k: int| 0 <= k < j ==> (#[trigger] ret@[k]).0 == elevators@[k].0,
            forall|k: int|
                0 <= k < j ==> (#[trigger] ret@[k]).1@ == up_portion(stairs@, elevators@, k),
        decreases elevators@.len() - j,
    {
        let mut list: Vec<TFloor> = Vec::new();
        let mut i: usize = 0;
        while i < stairs.len()
            invariant
                j < elevators@.len(),
                0 <= i <= stairs@.len(),
                list@ == up_portion(stairs@.take(i as int), elevators@, j as int),
            decreases stairs@.len() - i,
        {
            if is_up_target_exec(elevators, stairs[i], j) {
                list.push(stairs[i]);
            }
            proof {
                assert(stairs@.take(i as int + 1).drop_last() =~= stairs@.take(i as int));
                assert(stairs@.take(i as int + 1).last() == stairs@[i as int]);
            }
            i = i + 1;
        }
        proof {
            assert(stairs@.take(stairs@.len() as int) =~= stairs@);
        }
        ret.push((elevators[j].0, list));
        j = j + 1;
    }
    ret
}

/// Plan the down sweep: every candidate car not already riding up is told
/// which down-bound waiting floors to serve — each floor goes to the
/// nearest such car at or above it.
pub fn arrange_down_elevator(
    stairs: &Vec<TFloor>,
    elevators: &Vec<(u8, TFloor)>,
    used_elevators: &Vec<u8>,
) -> (ret: Vec<(u8, Vec<TFloor>)>)
    ensures
        ret@.len() == elevators@.len(),
        forall|j: int| 0 <= j < ret@.len() ==> (#[trigger] ret@[j]).0 == elevators@[j].0,
        forall|j: int|
            0 <= j < ret@.len() ==> (#[trigger] ret@[j]).1@ == down_portion(
                stairs@,
                elevators@,
                used_elevators@,
                j,
            ),
{
    let mut ret: Vec<(u8, Vec<TFloor>)> = Vec::new();
    let mut j: usize = 0;
    while j < elevators.len()
        invariant
            0 <= j <= elevators@.len(),
            ret@.len() == j,
            forall|k: int| 0 <= k < j ==> (#[trigger] ret@[k]).0 == elevators@[k].0,
            forall|k: int|
                0 <= k < j ==> (#[trigger] ret@[k]).1@ == down_portion(
                    stairs@,
                    elevators@,
                    used_elevators@,
                    k,
                ),
        decreases elevators@.len() - j,
    {
        let mut list: Vec<TFloor> = Vec::new();
        let mut i: usize = 0;
        while i < stairs.len()
            invariant
                j < elevators@.len(),
                0 <= i <= stairs@.len(),
                list@ == down_portion(
                    stairs@.take(i as int),
                    elevators@,
                    used_elevators@,
                    j as int,
                ),
            decreases stairs@.len() - i,
        {
            if is_down_target_exec(elevators, used_elevators, stairs[i], j) {
                list.push(stairs[i]);
            }
            proof {
                assert(stairs@.take(i as int + 1).drop_last() =~= stairs@.take(i as int));
                assert(stairs@.take(i as int + 1).last() == stairs@[i as int]);
            }
            i = i + 1;
        }
        proof {
            assert(stairs@.take(stairs@.len() as int) =~= stairs@);
        }
        ret.push((elevators[j].0, list));
        j = j + 1;
    }
    ret
}

} // verus!
