//! The event-driven core of the bank: hall-call registry, dispatcher, and
//! per-car motion driver, all reached through one update function.

use vstd::prelude::*;
use crate::conf::{
    valid_floor, TFloor, EVERY_FLOOR_RUN_TIME_IN_MILLISECONDS, MAX_ELEVATOR_NUM, MAX_FLOOR,
    MAX_PERSON_CAPACITY, MAX_WAIT_FLOOR_NUM, MIN_FLOOR, SUSPEND_WAIT_IN_MILLISECONDS,
};
use crate::floor_btn::{Direction, WaitFloorTxtState};
use crate::lift::{
    lemma_directed_if_members_bounded, lemma_members_bounded_of_directed, Lift,
};
use crate::message::{AppMessage, FollowUp};
use crate::state::{is_down_state, is_up_state, State};

verus! {

/// Answer of the registry to a new hall call.
#[derive(Clone, Copy, Debug, PartialEq, Eq, Structural)]
pub enum EnqueueResult {
    /// The call was appended to the registry.
    Accepted,
    /// The same `(floor, direction)` call is already outstanding.
    Duplicate,
    /// The registry is at capacity; the caller sees "busy".
    Full,
}

/// The registry holds a call `(f, d)`.
pub open spec fn wait_has(q: Seq<WaitFloorTxtState>, f: int, d: Direction) -> bool {
    exists|i: int| 0 <= i < q.len() && q[i].floor == f && q[i].direction == d
}

/// The registry holds a call `(f, d)` that no car is committed to yet.
pub open spec fn wait_has_unscheduled(q: Seq<WaitFloorTxtState>, f: int, d: Direction) -> bool {
    exists|i: int| 0 <= i < q.len() && q[i].floor == f && q[i].direction == d && !q[i].is_scheduled
}

/// The registry holds a call `(f, d)` that a car is committed to.
pub open spec fn wait_has_scheduled(q: Seq<WaitFloorTxtState>, f: int, d: Direction) -> bool {
    exists|i: int| 0 <= i < q.len() && q[i].floor == f && q[i].direction == d && q[i].is_scheduled
}

/// Well-formedness of the registry: bounded, valid floors, and no two
/// entries share `(floor, direction)`.
pub open spec fn wait_wf(q: Seq<WaitFloorTxtState>) -> bool {
    &&& q.len() <= MAX_WAIT_FLOOR_NUM
    &&& forall|i: int| 0 <= i < q.len() ==> valid_floor((#[trigger] q[i]).floor as int)
    &&& forall|i: int, j: int|
        0 <= i < j < q.len() ==> !(q[i].floor == q[j].floor && q[i].direction == q[j].direction)
}

/// What `enqueue_wait_floor` does to the registry: reject when full, reject
/// duplicates, otherwise append an un-scheduled entry.
pub open spec fn spec_enqueue(q: Seq<WaitFloorTxtState>, f: TFloor, d: Direction) -> (
    Seq<WaitFloorTxtState>,
    EnqueueResult,
) {
    if q.len() >= MAX_WAIT_FLOOR_NUM {
        (q, EnqueueResult::Full)
    } else if wait_has(q, f as int, d) {
        (q, EnqueueResult::Duplicate)
    } else {
        (q.push(WaitFloorTxtState { floor: f, direction: d, is_scheduled: false }),
        EnqueueResult::Accepted)
    }
}

/// Append the hall call `(floor, direction)` unless the registry is full or
/// already holds it.
pub fn enqueue_wait_floor(q: &mut Vec<WaitFloorTxtState>, floor: TFloor, direction: Direction) -> (r:
    EnqueueResult)
    ensures
        final(q)@ == spec_enqueue(old(q)@, floor, direction).0,
        r == spec_enqueue(old(q)@, floor, direction).1,
{
    if q.len() >= MAX_WAIT_FLOOR_NUM {
        return EnqueueResult::Full;
    }
    let mut i: usize = 0;
    while i < q.len()
        invariant
            q@ == old(q)@,
            q@.len() < MAX_WAIT_FLOOR_NUM,
            0 <= i <= q@.len(),
            forall|j: int| 0 <= j < i ==> !(q@[j].floor == floor && q@[j].direction == direction),
        decreases q@.len() - i,
    {
        if q[i].floor == floor && q[i].direction == direction {
            proof {
                assert(old(q)@[i as int].floor == floor && old(q)@[i as int].direction
                    == direction);
            }
            return EnqueueResult::Duplicate;
        }
        i = i + 1;
    }
    proof {
        assert(!wait_has(old(q)@, floor as int, direction));
    }
    q.push(WaitFloorTxtState { floor, direction, is_scheduled: false });
    EnqueueResult::Accepted
}

/// Mark every registry entry `(floor, direction)` as scheduled.
pub fn mark_wait_scheduled(q: &mut Vec<WaitFloorTxtState>, floor: TFloor, direction: Direction)
    ensures
        final(q)@.len() == old(q)@.len(),
        forall|i: int|
            0 <= i < old(q)@.len() ==> final(q)@[i] == (if old(q)@[i].floor == floor && old(
                q,
            )@[i].direction == direction {
                WaitFloorTxtState { floor, direction, is_scheduled: true }
            } else {
                old(q)@[i]
            }),
{
    let ghost pre = q@;
    let mut i: usize = 0;
    while i < q.len()
        invariant
            0 <= i <= q@.len(),
            q@.len() == pre.len(),
            forall|j: int|
                0 <= j < i ==> q@[j] == (if pre[j].floor == floor && pre[j].direction == direction {
                    WaitFloorTxtState { floor, direction, is_scheduled: true }
                } else {
                    pre[j]
                }),
            forall|j: int| i <= j < pre.len() ==> q@[j] == pre[j],
        decreases q@.len() - i,
    {
        if q[i].floor == floor && q[i].direction == direction {
            q.set(i, WaitFloorTxtState { floor, direction, is_scheduled: true });
        }
        i = i + 1;
    }
}

/// Remove the registry entry `(floor, direction)`, if there is one; the
/// order of the other entries is kept.
pub fn remove_wait_floor(q: &mut Vec<WaitFloorTxtState>, floor: TFloor, direction: Direction)
    requires
        forall|i: int, j: int|
            0 <= i < j < old(q)@.len() ==> !(old(q)@[i].floor == old(q)@[j].floor && old(
                q,
            )@[i].direction == old(q)@[j].direction),
    ensures
        if wait_has(old(q)@, floor as int, direction) {
            exists|i: int|
                0 <= i < old(q)@.len() && old(q)@[i].floor == floor && old(q)@[i].direction
                    == direction && final(q)@ == old(q)@.remove(i)
        } else {
            final(q)@ == old(q)@
        },
{
    let mut i: usize = 0;
    while i < q.len()
        invariant
            q@ == old(q)@,
            0 <= i <= q@.len(),
            forall|j: int| 0 <= j < i ==> !(q@[j].floor == floor && q@[j].direction == direction),
        decreases q@.len() - i,
    {
        if q[i].floor == floor && q[i].direction == direction {
            let ghost gi = i as int;
            q.remove(i);
            proof {
                assert(old(q)@[gi].floor == floor && old(q)@[gi].direction == direction && q@
                    == old(q)@.remove(gi));
            }
            return ;
        }
        i = i + 1;
    }
    proof {
        assert(!wait_has(old(q)@, floor as int, direction));
    }
}

/// How many cars are committed to the hall call `(f, d)`.
pub open spec fn count_assigned(lifts: Seq<Lift>, f: int, d: Direction) -> int
    decreases lifts.len(),
{
    if lifts.len() <= 0 {
        0
    } else {
        count_assigned(lifts.drop_last(), f, d) + if lifts.last().sched_has(f, d) {
            1int
        } else {
            0int
        }
    }
}

pub proof fn lemma_count_bounds(lifts: Seq<Lift>, f: int, d: Direction)
    ensures
        0 <= count_assigned(lifts, f, d) <= lifts.len(),
    decreases lifts.len(),
{
    if lifts.len() > 0 {
        lemma_count_bounds(lifts.drop_last(), f, d);
    }
}

/// A registry with no committed car for `(f, d)` is exactly one where no car
/// carries that assignment.
pub proof fn lemma_count_zero(lifts: Seq<Lift>, f: int, d: Direction)
    ensures
        (count_assigned(lifts, f, d) == 0) <==> (forall|k: int|
            0 <= k < lifts.len() ==> !(#[trigger] lifts[k]).sched_has(f, d)),
    decreases lifts.len(),
{
    if lifts.len() > 0 {
        lemma_count_zero(lifts.drop_last(), f, d);
        lemma_count_bounds(lifts.drop_last(), f, d);
        assert forall|k: int| 0 <= k < lifts.len() - 1 implies lifts.drop_last()[k] == lifts[k] by {}
        if count_assigned(lifts, f, d) == 0 {
            assert forall|k: int| 0 <= k < lifts.len() implies !(#[trigger] lifts[k]).sched_has(
                f,
                d,
            ) by {
                if k < lifts.len() - 1 {
                    assert(lifts.drop_last()[k] == lifts[k]);
                } else {
                    assert(lifts[k] == lifts.last());
                }
            }
        }
        if forall|k: int| 0 <= k < lifts.len() ==> !(#[trigger] lifts[k]).sched_has(f, d) {
            assert(!lifts.last().sched_has(f, d));
            assert forall|k: int| 0 <= k < lifts.drop_last().len() implies !(
            #[trigger] lifts.drop_last()[k]).sched_has(f, d) by {
                assert(lifts.drop_last()[k] == lifts[k]);
            }
        }
    }
}

/// A car carrying the assignment contributes to the count.
pub proof fn lemma_count_member(lifts: Seq<Lift>, f: int, d: Direction, k: int)
    requires
        0 <= k < lifts.len(),
        lifts[k].sched_has(f, d),
    ensures
        count_assigned(lifts, f, d) >= 1,
    decreases lifts.len(),
{
    if k == lifts.len() - 1 {
        lemma_count_bounds(lifts.drop_last(), f, d);
    } else {
        assert(lifts.drop_last()[k] == lifts[k]);
        lemma_count_member(lifts.drop_last(), f, d, k);
    }
}

/// A positive count exhibits a committed car.
pub proof fn lemma_count_pos(lifts: Seq<Lift>, f: int, d: Direction)
    requires
        count_assigned(lifts, f, d) > 0,
    ensures
        exists|k: int| 0 <= k < lifts.len() && (#[trigger] lifts[k]).sched_has(f, d),
    decreases lifts.len(),
{
    if lifts.len() > 0 {
        if lifts.last().sched_has(f, d) {
            assert(lifts[lifts.len() - 1].sched_has(f, d));
        } else {
            lemma_count_pos(lifts.drop_last(), f, d);
            let k = choose|k: int|
                0 <= k < lifts.drop_last().len() && (#[trigger] lifts.drop_last()[k]).sched_has(
                    f,
                    d,
                );
            assert(lifts[k].sched_has(f, d));
        }
    }
}

/// Two distinct committed cars force a count of at least two.
pub proof fn lemma_count_two(lifts: Seq<Lift>, f: int, d: Direction, k1: int, k2: int)
    requires
        0 <= k1 < k2 < lifts.len(),
        lifts[k1].sched_has(f, d),
        lifts[k2].sched_has(f, d),
    ensures
        count_assigned(lifts, f, d) >= 2,
    decreases lifts.len(),
{
    if k2 == lifts.len() - 1 {
        assert(lifts.drop_last()[k1] == lifts[k1]);
        lemma_count_member(lifts.drop_last(), f, d, k1);
    } else {
        assert(lifts.drop_last()[k1] == lifts[k1]);
        assert(lifts.drop_last()[k2] == lifts[k2]);
        lemma_count_two(lifts.drop_last(), f, d, k1, k2);
        lemma_count_bounds(lifts.drop_last(), f, d);
    }
}

/// Replacing one car changes each count by that car's own contribution.
pub proof fn lemma_count_update(lifts: Seq<Lift>, k: int, l: Lift, f: int, d: Direction)
    requires
        0 <= k < lifts.len(),
    ensures
        count_assigned(lifts.update(k, l), f, d) == count_assigned(lifts, f, d) - (if lifts[k].sched_has(
            f,
            d,
        ) {
            1int
        } else {
            0int
        }) + (if l.sched_has(f, d) {
            1int
        } else {
            0int
        }),
    decreases lifts.len(),
{
    let u = lifts.update(k, l);
    if k == lifts.len() - 1 {
        assert(u.drop_last() =~= lifts.drop_last());
        assert(u.last() == l);
    } else {
        assert(u.drop_last() =~= lifts.drop_last().update(k, l));
        assert(u.last() == lifts.last());
        lemma_count_update(lifts.drop_last(), k, l, f, d);
    }
}

/// Number of physical positions between the car and the call floor (the
/// non-existent floor `0` is not collapsed; the value only ranks cars).
pub open spec fn lift_dist(l: Lift, f: int) -> int {
    if l.cur_floor <= f {
        f - l.cur_floor
    } else {
        l.cur_floor - f
    }
}

/// The car is already moving the way the call wants to go.
pub open spec fn moving_pref(l: Lift, d: Direction) -> bool {
    match d {
        Direction::Up => is_up_state(l.state),
        Direction::Down => is_down_state(l.state),
    }
}

/// The car already carries an assignment at `f` for the other direction.
pub open spec fn sched_has_opposite(l: Lift, f: int, d: Direction) -> bool {
    exists|j: int|
        0 <= j < l.schedule_floors@.len() && l.schedule_floors@[j].floor == f
            && l.schedule_floors@[j].direction != d
}

/// The car may serve the hall call `(f, d)`: not overloaded, not already
/// committed to `f` in the other direction, and either resting or moving the
/// call's way with `f` still ahead.  The opposite-direction exclusion keeps
/// each car to one assignment per floor, which the one-car-per-scheduled-call
/// linkage rests on; such a call goes to another car or waits for a later
/// sweep.
pub open spec fn is_candidate(l: Lift, f: int, d: Direction) -> bool {
    &&& l.persons <= MAX_PERSON_CAPACITY as int
    &&& !sched_has_opposite(l, f, d)
    &&& match d {
        Direction::Up => l.state == State::Stop || (is_up_state(l.state) && l.cur_floor <= f),
        Direction::Down => l.state == State::Stop || (is_down_state(l.state) && l.cur_floor
            >= f),
    }
}

/// In the shaft scan for direction `d`, the car appears at or past the call
/// floor (for an up call: at or above it).
pub open spec fn scanned_after(l: Lift, f: int, d: Direction) -> bool {
    match d {
        Direction::Up => l.cur_floor >= f,
        Direction::Down => l.cur_floor <= f,
    }
}

/// Strict preference between two cars of the same scan group: nearer first,
/// then a car already moving the call's way, then the lower number.
pub open spec fn beats(a: Lift, b: Lift, f: int, d: Direction) -> bool {
    ||| lift_dist(a, f) < lift_dist(b, f)
    ||| (lift_dist(a, f) == lift_dist(b, f) && moving_pref(a, d) && !moving_pref(b, d))
    ||| (lift_dist(a, f) == lift_dist(b, f) && (moving_pref(a, d) <==> moving_pref(b, d)) && a.no
        < b.no)
}

/// The dispatch choice: car `k` is a candidate, best of its scan group, and
/// wins against the other group by distance, ties going to the group at or
/// past the call.
pub open spec fn chosen_ok(lifts: Seq<Lift>, k: int, f: int, d: Direction) -> bool {
    &&& 0 <= k < lifts.len()
    &&& is_candidate(lifts[k], f, d)
    &&& if scanned_after(lifts[k], f, d) {
        &&& forall|j: int|
            0 <= j < lifts.len() && j != k && is_candidate(#[trigger] lifts[j], f, d)
                && scanned_after(lifts[j], f, d) ==> beats(lifts[k], lifts[j], f, d)
        &&& forall|j: int|
            0 <= j < lifts.len() && is_candidate(#[trigger] lifts[j], f, d) && !scanned_after(
                lifts[j],
                f,
                d,
            ) ==> lift_dist(lifts[k], f) <= lift_dist(lifts[j], f)
    } else {
        &&& forall|j: int|
            0 <= j < lifts.len() && j != k && is_candidate(#[trigger] lifts[j], f, d)
                && !scanned_after(lifts[j], f, d) ==> beats(lifts[k], lifts[j], f, d)
        &&& forall|j: int|
            0 <= j < lifts.len() && is_candidate(#[trigger] lifts[j], f, d) && scanned_after(
                lifts[j],
                f,
                d,
            ) ==> lift_dist(lifts[k], f) < lift_dist(lifts[j], f)
    }
}

/// The car already carries an assignment at `floor` for the other direction.
fn has_opposite_assignment(l: &Lift, floor: TFloor, direction: Direction) -> (r: bool)
    ensures
        r <==> sched_has_opposite(*l, floor as int, direction),
{
    let mut j: usize = 0;
    while j < l.schedule_floors.len()
        invariant
            0 <= j <= l.schedule_floors@.len(),
            forall|i: int|
                0 <= i < j ==> !(l.schedule_floors@[i].floor == floor
                    && l.schedule_floors@[i].direction != direction),
        decreases l.schedule_floors@.len() - j,
    {
        if l.schedule_floors[j].floor == floor && !(l.schedule_floors[j].direction == direction) {
            proof {
                assert(l.schedule_floors@[j as int].floor == floor && l.schedule_floors@[j as int].direction
                    != direction);
            }
            return true;
        }
        j = j + 1;
    }
    false
}

/// Executable test of `is_candidate`.
fn is_candidate_exec(l: &Lift, floor: TFloor, direction: Direction) -> (r: bool)
    ensures
        r <==> is_candidate(*l, floor as int, direction),
{
    if l.persons > MAX_PERSON_CAPACITY as i32 {
        return false;
    }
    if has_opposite_assignment(l, floor, direction) {
        return false;
    }
    match direction {
        Direction::Up => matches!(l.state, State::Stop) || (matches!(
            l.state,
            State::GoingUp | State::GoingUpSuspend,
        ) && l.cur_floor <= floor),
        Direction::Down => matches!(l.state, State::Stop) || (matches!(
            l.state,
            State::GoingDown | State::GoingDownSuspend,
        ) && l.cur_floor >= floor),
    }
}

/// Executable distance between a car and the call floor.
fn lift_dist_exec(l: &Lift, floor: TFloor) -> (r: i32)
    ensures
        r == lift_dist(*l, floor as int),
{
    let df = floor as i32 - l.cur_floor as i32;
    if df < 0 {
        -df
    } else {
        df
    }
}

/// Executable test of `moving_pref`.
fn moving_pref_exec(l: &Lift, direction: Direction) -> (r: bool)
    ensures
        r <==> moving_pref(*l, direction),
{
    match direction {
        Direction::Up => matches!(l.state, State::GoingUp | State::GoingUpSuspend),
        Direction::Down => matches!(l.state, State::GoingDown | State::GoingDownSuspend),
    }
}

/// Executable test of `beats`.
fn beats_exec(a: &Lift, b: &Lift, floor: TFloor, direction: Direction) -> (r: bool)
    ensures
        r <==> beats(*a, *b, floor as int, direction),
{
    let da = lift_dist_exec(a, floor);
    let db = lift_dist_exec(b, floor);
    if da < db {
        true
    } else if da > db {
        false
    } else {
        let pa = moving_pref_exec(a, direction);
        let pb = moving_pref_exec(b, direction);
        if pa && !pb {
            true
        } else if pa == pb {
            a.no < b.no
        } else {
            false
        }
    }
}

/// The preference between cars is transitive.
proof fn lemma_beats_trans(a: Lift, b: Lift, c: Lift, f: int, d: Direction)
    requires
        beats(a, b, f, d),
        beats(b, c, f, d),
    ensures
        beats(a, c, f, d),
{
}

/// Two cars with different numbers always compare one way or the other.
proof fn lemma_beats_total(a: Lift, b: Lift, f: int, d: Direction)
    requires
        a.no != b.no,
    ensures
        beats(a, b, f, d) || beats(b, a, f, d),
{
}

/// Pick the car for the hall call `(floor, direction)` as the shaft scan of
/// the dispatch policy does: the nearest candidate on each side of the call,
/// the closer of the two winning, distance ties going to the car at or past
/// the call, and ties within a side to a car already moving the call's way,
/// then to the lowest car number.
pub fn choose_lift(lifts: &Vec<Lift>, floor: TFloor, direction: Direction) -> (r: Option<usize>)
    requires
        forall|i: int| 0 <= i < lifts@.len() ==> (#[trigger] lifts@[i]).no == i,
    ensures
        match r {
            Some(k) => chosen_ok(lifts@, k as int, floor as int, direction),
            None => forall|j: int|
                0 <= j < lifts@.len() ==> !is_candidate(#[trigger] lifts@[j], floor as int, direction),
        },
{
    let ghost f = floor as int;
    let mut best_before: Option<usize> = None;
    let mut best_after: Option<usize> = None;
    let mut i: usize = 0;
    while i < lifts.len()
        invariant
            f == floor as int,
            forall|ix: int| 0 <= ix < lifts@.len() ==> (#[trigger] lifts@[ix]).no == ix,
            0 <= i <= lifts@.len(),
            match best_before {
                Some(k) => 0 <= k < i && is_candidate(lifts@[k as int], f, direction)
                    && !scanned_after(lifts@[k as int], f, direction) && forall|j: int|
                    0 <= j < i && j != k && is_candidate(#[trigger] lifts@[j], f, direction)
                        && !scanned_after(lifts@[j], f, direction) ==> beats(
                        lifts@[k as int],
                        lifts@[j],
                        f,
                        direction,
                    ),
                None => forall|j: int|
                    0 <= j < i ==> !(is_candidate(#[trigger] lifts@[j], f, direction)
                        && !scanned_after(lifts@[j], f, direction)),
            },
            match best_after {
                Some(k) => 0 <= k < i && is_candidate(lifts@[k as int], f, direction)
                    && scanned_after(lifts@[k as int], f, direction) && forall|j: int|
                    0 <= j < i && j != k && is_candidate(#[trigger] lifts@[j], f, direction)
                        && scanned_after(lifts@[j], f, direction) ==> beats(
                        lifts@[k as int],
                        lifts@[j],
                        f,
                        direction,
                    ),
                None => forall|j: int|
                    0 <= j < i ==> !(is_candidate(#[trigger] lifts@[j], f, direction)
                        && scanned_after(lifts@[j], f, direction)),
            },
        decreases lifts@.len() - i,
    {
        if is_candidate_exec(&lifts[i], floor, direction) {
            let after = match direction {
                Direction::Up => lifts[i].cur_floor >= floor,
                Direction::Down => lifts[i].cur_floor <= floor,
            };
            if after {
                best_after = match best_after {
                    Some(k) => if beats_exec(&lifts[i], &lifts[k], floor, direction) {
                        proof {
                            assert forall|j: int|
                                0 <= j <= i && j != i && is_candidate(
                                    #[trigger] lifts@[j],
                                    f,
                                    direction,
                                ) && scanned_after(lifts@[j], f, direction) implies beats(
                                lifts@[i as int],
                                lifts@[j],
                                f,
                                direction,
                            ) by {
                                if j != k as int {
                                    lemma_beats_trans(
                                        lifts@[i as int],
                                        lifts@[k as int],
                                        lifts@[j],
                                        f,
                                        direction,
                                    );
                                }
                            }
                        }
                        Some(i)
                    } else {
                        proof {
                            lemma_beats_total(lifts@[i as int], lifts@[k as int], f, direction);
                        }
                        Some(k)
                    },
                    None => Some(i),
                };
            } else {
                best_before = match best_before {
                    Some(k) => if beats_exec(&lifts[i], &lifts[k], floor, direction) {
                        proof {
                            assert forall|j: int|
                                0 <= j <= i && j != i && is_candidate(
                                    #[trigger] lifts@[j],
                                    f,
                                    direction,
                                ) && !scanned_after(lifts@[j], f, direction) implies beats(
                                lifts@[i as int],
                                lifts@[j],
                                f,
                                direction,
                            ) by {
                                if j != k as int {
                                    lemma_beats_trans(
                                        lifts@[i as int],
                                        lifts@[k as int],
                                        lifts@[j],
                                        f,
                                        direction,
                                    );
                                }
                            }
                        }
                        Some(i)
                    } else {
                        proof {
                            lemma_beats_total(lifts@[i as int], lifts@[k as int], f, direction);
                        }
                        Some(k)
                    },
                    None => Some(i),
                };
            }
        }
        i = i + 1;
    }
    match (best_before, best_after) {
        (None, None) => {
            proof {
                assert forall|j: int| 0 <= j < lifts@.len() implies !is_candidate(
                    #[trigger] lifts@[j],
                    f,
                    direction,
                ) by {
                    if scanned_after(lifts@[j], f, direction) {
                    } else {
                    }
                }
            }
            None
        },
        (Some(a), None) => Some(a),
        (None, Some(b)) => Some(b),
        (Some(a), Some(b)) => {
            let da = lift_dist_exec(&lifts[a], floor);
            let db = lift_dist_exec(&lifts[b], floor);
            if db <= da {
                proof {
                    assert forall|j: int|
                        0 <= j < lifts@.len() && is_candidate(#[trigger] lifts@[j], f, direction)
                            && !scanned_after(lifts@[j], f, direction) implies lift_dist(
                        lifts@[b as int],
                        f,
                    ) <= lift_dist(lifts@[j], f) by {
                        if j != a as int {
                            assert(beats(lifts@[a as int], lifts@[j], f, direction));
                        }
                    }
                }
                Some(b)
            } else {
                proof {
                    assert forall|j: int|
                        0 <= j < lifts@.len() && is_candidate(#[trigger] lifts@[j], f, direction)
                            && scanned_after(lifts@[j], f, direction) implies lift_dist(
                        lifts@[a as int],
                        f,
                    ) < lift_dist(lifts@[j], f) by {
                        if j != b as int {
                            assert(beats(lifts@[b as int], lifts@[j], f, direction));
                        }
                    }
                }
                Some(a)
            }
        },
    }
}

/// The whole bank: the hall panel's selected floor, the hall-call registry,
/// and the cars.
pub struct ElevatorApp {
    /// Floor currently selected on the hall panel.
    pub floor: TFloor,
    /// Floor the hall panel slider hovers over.
    pub tmp_floor: TFloor,
    /// Outstanding hall calls, in arrival order.
    pub wait_floors: Vec<WaitFloorTxtState>,
    pub lifts: Vec<Lift>,
}

impl ElevatorApp {
    /// Every car is well-formed and numbered by its position.
    pub open spec fn lifts_wf(self) -> bool {
        &&& 1 <= self.lifts@.len()
        &&& forall|i: int|
            0 <= i < self.lifts@.len() ==> (#[trigger] self.lifts@[i]).wf() && self.lifts@[i].no
                == i
    }

    /// The registry and the cars agree: a scheduled call is assigned to
    /// exactly one car, an un-scheduled call to none, and every assignment a
    /// car carries belongs to a scheduled call.
    pub open spec fn linked(self) -> bool {
        &&& forall|i: int|
            0 <= i < self.wait_floors@.len() ==> count_assigned(
                self.lifts@,
                (#[trigger] self.wait_floors@[i]).floor as int,
                self.wait_floors@[i].direction,
            ) == (if self.wait_floors@[i].is_scheduled {
                1int
            } else {
                0int
            })
        &&& forall|f: int, d: Direction|
            #[trigger] count_assigned(self.lifts@, f, d) > 0 ==> wait_has_scheduled(
                self.wait_floors@,
                f,
                d,
            )
    }

    /// Well-formedness of the whole bank.
    pub open spec fn wf(self) -> bool {
        &&& self.lifts_wf()
        &&& valid_floor(self.floor as int)
        &&& wait_wf(self.wait_floors@)
        &&& self.linked()
    }

    /// The registry and the cars are as they were; only the hall panel
    /// selection may differ.
    pub open spec fn core_unchanged(pre: ElevatorApp, post: ElevatorApp) -> bool {
        &&& post.lifts@ == pre.lifts@
        &&& post.wait_floors@ == pre.wait_floors@
    }
}

/// Effect of a dispatch commit: car `k` was the dispatch choice, it now
/// carries the assignment `(f, d)` and — if it was resting — heads toward
/// the call or opens its doors; the matching registry entry is scheduled;
/// one motion step for car `k` is requested.
pub open spec fn schedule2_commit(
    pre: ElevatorApp,
    post: ElevatorApp,
    k: int,
    f: int,
    d: Direction,
    cmds: Seq<FollowUp>,
) -> bool {
    let l0 = pre.lifts@[k];
    let l1 = post.lifts@[k];
    &&& chosen_ok(pre.lifts@, k, f, d)
    &&& post.lifts@.len() == pre.lifts@.len()
    &&& forall|j: int| 0 <= j < pre.lifts@.len() && j != k ==> post.lifts@[j] == pre.lifts@[j]
    &&& l1.no == l0.no
    &&& l1.cur_floor == l0.cur_floor
    &&& l1.state == crate::lift::commit_state(l0.state, l0.cur_floor, f, d)
    &&& l1.can_click_btn == l0.can_click_btn
    &&& (l0.cur_floor != f ==> l1.persons == l0.persons)
    &&& forall|g: int| l1.cabin_has(g) <==> l0.cabin_has(g)
    &&& forall|g: int, dd: Direction|
        l1.sched_has(g, dd) <==> (l0.sched_has(g, dd) || (g == f && dd == d))
    &&& post.wait_floors@.len() == pre.wait_floors@.len()
    &&& forall|i: int|
        0 <= i < pre.wait_floors@.len() ==> post.wait_floors@[i] == (if pre.wait_floors@[i].floor
            == f && pre.wait_floors@[i].direction == d {
            WaitFloorTxtState {
                floor: pre.wait_floors@[i].floor,
                direction: pre.wait_floors@[i].direction,
                is_scheduled: true,
            }
        } else {
            pre.wait_floors@[i]
        })
    &&& post.floor == pre.floor
    &&& post.tmp_floor == pre.tmp_floor
    &&& cmds.len() == 1
    &&& cmds[0].message == AppMessage::ArriveByOneFloor(l0.no)
    &&& cmds[0].delay_ms as int == (if l0.cur_floor == f {
        EVERY_FLOOR_RUN_TIME_IN_MILLISECONDS as int + SUSPEND_WAIT_IN_MILLISECONDS as int
    } else {
        EVERY_FLOOR_RUN_TIME_IN_MILLISECONDS as int
    })
}

/// What the dispatcher does for the call `(f, d)`: a commit to some car when
/// the call is still outstanding and a candidate exists; otherwise nothing.
pub open spec fn schedule2_rel(
    pre: ElevatorApp,
    post: ElevatorApp,
    f: int,
    d: Direction,
    cmds: Seq<FollowUp>,
) -> bool {
    if wait_has_unscheduled(pre.wait_floors@, f, d) && (exists|k: int|
        0 <= k < pre.lifts@.len() && is_candidate(#[trigger] pre.lifts@[k], f, d)) {
        exists|k: int| schedule2_commit(pre, post, k, f, d, cmds)
    } else {
        &&& post.lifts@ == pre.lifts@
        &&& post.wait_floors@ == pre.wait_floors@
        &&& post.floor == pre.floor
        &&& post.tmp_floor == pre.tmp_floor
        &&& cmds.len() == 0
    }
}

/// Cost of an up sweep from `cur`: summed distance to the waiting floors at
/// or above `cur`, and their number.
pub open spec fn up_cost(floors: Seq<TFloor>, cur: TFloor) -> (int, int)
    decreases floors.len(),
{
    if floors.len() <= 0 {
        (0, 0)
    } else {
        let r = up_cost(floors.drop_last(), cur);
        if floors.last() >= cur {
            (r.0 + floors.last() - cur, r.1 + 1)
        } else {
            r
        }
    }
}

/// Cost of a down sweep from `cur`: summed distance to the waiting floors
/// at or below `cur`, and their number.
pub open spec fn down_cost(floors: Seq<TFloor>, cur: TFloor) -> (int, int)
    decreases floors.len(),
{
    if floors.len() <= 0 {
        (0, 0)
    } else {
        let r = down_cost(floors.drop_last(), cur);
        if floors.last() <= cur {
            (r.0 + cur - floors.last(), r.1 + 1)
        } else {
            r
        }
    }
}

/// One sweep-cost entry per resting car, in car order.
pub open spec fn cost_entries(lifts: Seq<Lift>, floors: Seq<TFloor>, up: bool) -> Seq<
    crate::lift::LiftUpDownCost,
>
    decreases lifts.len(),
{
    if lifts.len() <= 0 {
        Seq::empty()
    } else {
        let rest = cost_entries(lifts.drop_last(), floors, up);
        if lifts.last().state == State::Stop {
            let c = if up {
                up_cost(floors, lifts.last().cur_floor)
            } else {
                down_cost(floors, lifts.last().cur_floor)
            };
            rest.push(
                crate::lift::LiftUpDownCost {
                    no: lifts.last().no,
                    cost: c.0 as i32,
                    cnt: c.1 as usize,
                },
            )
        } else {
            rest
        }
    }
}

proof fn lemma_cost_bounds(floors: Seq<TFloor>, cur: TFloor, up: bool)
    requires
        forall|i: int| 0 <= i < floors.len() ==> MIN_FLOOR <= #[trigger] floors[i] <= MAX_FLOOR,
        MIN_FLOOR <= cur <= MAX_FLOOR,
    ensures
        up ==> 0 <= up_cost(floors, cur).0 <= (MAX_FLOOR - MIN_FLOOR) as int * floors.len(),
        up ==> 0 <= up_cost(floors, cur).1 <= floors.len(),
        !up ==> 0 <= down_cost(floors, cur).0 <= (MAX_FLOOR - MIN_FLOOR) as int * floors.len(),
        !up ==> 0 <= down_cost(floors, cur).1 <= floors.len(),
    decreases floors.len(),
{
    if floors.len() > 0 {
        lemma_cost_bounds(floors.drop_last(), cur, up);
    }
}

/// `m` is the next floor car `l` serves: a stop with every other stop at or
/// beyond it in the car's direction of travel.
pub open spec fn is_dest(l: Lift, m: int) -> bool {
    &&& l.has_stop(m)
    &&& if is_down_state(l.state) {
        forall|g: int| l.has_stop(g) ==> g <= m
    } else {
        forall|g: int| l.has_stop(g) ==> g >= m
    }
}

/// Car `l1` is car `l0` after serving floor `m`: at `m` with the given
/// state, both stop sets stripped of `m`, passengers and the cabin-input
/// flag untouched.
pub open spec fn served_lift(l0: Lift, l1: Lift, m: int, new_state: State) -> bool {
    &&& l1.no == l0.no
    &&& l1.persons == l0.persons
    &&& l1.can_click_btn == l0.can_click_btn
    &&& l1.state == new_state
    &&& l1.cur_floor as int == m
    &&& forall|g: int| l1.cabin_has(g) <==> (l0.cabin_has(g) && g != m)
    &&& forall|g: int, dd: Direction| l1.sched_has(g, dd) <==> (l0.sched_has(g, dd) && g != m)
}

/// The registry after car `l0` served floor `m`: when the car carried an
/// assigned stop there, the matching hall call is removed; otherwise the
/// registry is untouched.
pub open spec fn served_registry(
    preq: Seq<WaitFloorTxtState>,
    postq: Seq<WaitFloorTxtState>,
    l0: Lift,
    m: int,
) -> bool {
    ||| (exists|i: int, dm: Direction|
        0 <= i < preq.len() && l0.sched_has(m, dm) && preq[i].floor == m && preq[i].direction
            == dm && postq == preq.remove(i))
    ||| (!l0.sched_has_floor(m) && postq == preq)
}

/// One dwell request for car `l0` after it arrived.
pub open spec fn dwell_cmd(cmds: Seq<FollowUp>, l0: Lift) -> bool {
    &&& cmds.len() == 1
    &&& cmds[0].message == AppMessage::WaitUserInputFloor(l0.no)
    &&& cmds[0].delay_ms as int == EVERY_FLOOR_RUN_TIME_IN_MILLISECONDS as int
        + SUSPEND_WAIT_IN_MILLISECONDS as int
}

/// One further motion step for car `l0` still in transit.
pub open spec fn step_cmd(cmds: Seq<FollowUp>, l0: Lift) -> bool {
    &&& cmds.len() == 1
    &&& cmds[0].message == AppMessage::ArriveByOneFloor(l0.no)
    &&& cmds[0].delay_ms as int == EVERY_FLOOR_RUN_TIME_IN_MILLISECONDS as int
}

/// The car and registry left exactly as they were.
pub open spec fn arrive_noop(pre: ElevatorApp, post: ElevatorApp, cmds: Seq<FollowUp>) -> bool {
    &&& post.lifts@ == pre.lifts@
    &&& post.wait_floors@ == pre.wait_floors@
    &&& cmds.len() == 0
}

/// One motion step of car `no` toward its destination `m`.
pub open spec fn arrive_step(
    pre: ElevatorApp,
    post: ElevatorApp,
    no: int,
    m: int,
    cmds: Seq<FollowUp>,
) -> bool {
    let l0 = pre.lifts@[no];
    let l1 = post.lifts@[no];
    match l0.state {
        State::GoingUp => {
            if l0.cur_floor == m || crate::floor::spec_advance_one(l0.cur_floor as int, true)
                == m {
                &&& served_lift(l0, l1, m, State::GoingUpSuspend)
                &&& served_registry(pre.wait_floors@, post.wait_floors@, l0, m)
                &&& dwell_cmd(cmds, l0)
            } else {
                &&& l1.no == l0.no
                &&& l1.state == l0.state
                &&& l1.persons == l0.persons
                &&& l1.can_click_btn == l0.can_click_btn
                &&& l1.stop_floors@ == l0.stop_floors@
                &&& l1.schedule_floors@ == l0.schedule_floors@
                &&& l1.cur_floor as int == crate::floor::spec_advance_one(
                    l0.cur_floor as int,
                    true,
                )
                &&& post.wait_floors@ == pre.wait_floors@
                &&& step_cmd(cmds, l0)
            }
        },
        State::GoingDown => {
            if l0.cur_floor == m || crate::floor::spec_advance_one(l0.cur_floor as int, false)
                == m {
                &&& served_lift(l0, l1, m, State::GoingDownSuspend)
                &&& served_registry(pre.wait_floors@, post.wait_floors@, l0, m)
                &&& dwell_cmd(cmds, l0)
            } else {
                &&& l1.no == l0.no
                &&& l1.state == l0.state
                &&& l1.persons == l0.persons
                &&& l1.can_click_btn == l0.can_click_btn
                &&& l1.stop_floors@ == l0.stop_floors@
                &&& l1.schedule_floors@ == l0.schedule_floors@
                &&& l1.cur_floor as int == crate::floor::spec_advance_one(
                    l0.cur_floor as int,
                    false,
                )
                &&& post.wait_floors@ == pre.wait_floors@
                &&& step_cmd(cmds, l0)
            }
        },
        State::GoingUpSuspend | State::GoingDownSuspend => {
            if l0.cur_floor == m {
                &&& served_lift(l0, l1, m, l0.state)
                &&& served_registry(pre.wait_floors@, post.wait_floors@, l0, m)
                &&& dwell_cmd(cmds, l0)
            } else {
                arrive_noop(pre, post, cmds)
            }
        },
        _ => arrive_noop(pre, post, cmds),
    }
}

/// What one `ArriveByOneFloor` event does to car `no`: nothing for a
/// maintained car; a car with nothing to serve falls to rest; otherwise one
/// motion step toward the destination, arrival opening the doors and
/// serving the floor.
pub open spec fn arrive_rel(
    pre: ElevatorApp,
    post: ElevatorApp,
    no: int,
    cmds: Seq<FollowUp>,
) -> bool {
    let l0 = pre.lifts@[no];
    let l1 = post.lifts@[no];
    &&& post.floor == pre.floor
    &&& post.tmp_floor == pre.tmp_floor
    &&& post.lifts@.len() == pre.lifts@.len()
    &&& forall|j: int| 0 <= j < pre.lifts@.len() && j != no ==> post.lifts@[j] == pre.lifts@[j]
    &&& if l0.state == State::Maintaining {
        arrive_noop(pre, post, cmds)
    } else if l0.stops_empty() {
        &&& l1.no == l0.no
        &&& l1.cur_floor == l0.cur_floor
        &&& l1.state == State::Stop
        &&& l1.persons == 0
        &&& !l1.can_click_btn
        &&& l1.stop_floors@ == l0.stop_floors@
        &&& l1.schedule_floors@ == l0.schedule_floors@
        &&& post.wait_floors@ == pre.wait_floors@
        &&& cmds.len() == 0
    } else {
        exists|m: int| #[trigger] is_dest(l0, m) && arrive_step(pre, post, no, m, cmds)
    }
}

/// What one `WaitUserInputFloor` (dwell-end) event does to car `no`: the
/// passenger exchange of `dwell_lift_rel`, then another motion step while
/// stops remain; any car not in a dwell phase ignores the event.
pub open spec fn dwell_rel(
    pre: ElevatorApp,
    post: ElevatorApp,
    no: int,
    cmds: Seq<FollowUp>,
) -> bool {
    let l0 = pre.lifts@[no];
    let l1 = post.lifts@[no];
    &&& post.floor == pre.floor
    &&& post.tmp_floor == pre.tmp_floor
    &&& post.wait_floors@ == pre.wait_floors@
    &&& post.lifts@.len() == pre.lifts@.len()
    &&& forall|j: int| 0 <= j < pre.lifts@.len() && j != no ==> post.lifts@[j] == pre.lifts@[j]
    &&& match l0.state {
        State::GoingUpSuspend | State::GoingDownSuspend => {
            &&& crate::lift::dwell_lift_rel(l0, l1)
            &&& if l1.state == State::Stop {
                cmds.len() == 0
            } else {
                step_cmd(cmds, l0)
            }
        },
        _ => post.lifts@ == pre.lifts@ && cmds.len() == 0,
    }
}

/// Adding a hall call at the panel floor: the registry answer of
/// `spec_enqueue`, a fresh random panel floor, and one dispatch attempt for
/// the call through `schedule2_rel`.
pub open spec fn add_wait_rel(
    pre: ElevatorApp,
    post: ElevatorApp,
    d: Direction,
    r: EnqueueResult,
    cmds: Seq<FollowUp>,
) -> bool {
    &&& r == spec_enqueue(pre.wait_floors@, pre.floor, d).1
    &&& exists|mid: ElevatorApp|
        {
            &&& (#[trigger] mid.lifts@) == pre.lifts@
            &&& mid.wait_floors@ == spec_enqueue(pre.wait_floors@, pre.floor, d).0
            &&& valid_floor(mid.floor as int)
            &&& mid.floor != pre.floor
            &&& mid.tmp_floor == mid.floor
            &&& schedule2_rel(mid, post, pre.floor as int, d, cmds)
        }
}

/// The sweep's follow-up list: one immediate dispatch attempt per
/// un-scheduled hall call, in registry order.
pub open spec fn sweep_cmds(q: Seq<WaitFloorTxtState>) -> Seq<FollowUp>
    decreases q.len(),
{
    if q.len() <= 0 {
        Seq::empty()
    } else {
        let rest = sweep_cmds(q.drop_last());
        if !q.last().is_scheduled {
            rest.push(
                FollowUp {
                    delay_ms: 0,
                    message: AppMessage::Scheduling2(q.last().floor, q.last().direction),
                },
            )
        } else {
            rest
        }
    }
}

/// The motion sweep's follow-up list: one immediate motion step per car
/// that still has somewhere to go — a liveness safety net beside the
/// per-step delays the motion driver emits itself.
pub open spec fn motion_cmds(lifts: Seq<Lift>) -> Seq<FollowUp>
    decreases lifts.len(),
{
    if lifts.len() <= 0 {
        Seq::empty()
    } else {
        let rest = motion_cmds(lifts.drop_last());
        if !lifts.last().stops_empty() {
            rest.push(
                FollowUp { delay_ms: 0, message: AppMessage::ArriveByOneFloor(lifts.last().no) },
            )
        } else {
            rest
        }
    }
}

/// What one event does to the bank.
pub open spec fn update_rel(
    pre: ElevatorApp,
    post: ElevatorApp,
    message: AppMessage,
    cmds: Seq<FollowUp>,
) -> bool {
    match message {
        AppMessage::SliderChange(f) => {
            &&& ElevatorApp::core_unchanged(pre, post)
            &&& post.floor == pre.floor
            &&& post.tmp_floor == (if f != 0 {
                f
            } else {
                pre.tmp_floor
            })
            &&& cmds.len() == 0
        },
        AppMessage::SliderRelease(f) => {
            &&& ElevatorApp::core_unchanged(pre, post)
            &&& post.floor == (if valid_floor(f as int) {
                f
            } else {
                pre.floor
            })
            &&& post.tmp_floor == pre.tmp_floor
            &&& cmds.len() == 0
        },
        AppMessage::ClickedBtnPlus => {
            &&& ElevatorApp::core_unchanged(pre, post)
            &&& post.floor as int == (if pre.floor == -1 {
                1
            } else if pre.floor as int + 1 <= MAX_FLOOR as int {
                pre.floor as int + 1
            } else {
                MAX_FLOOR as int
            })
            &&& post.tmp_floor == post.floor
            &&& cmds.len() == 0
        },
        AppMessage::ClickedBtnSubtract => {
            &&& ElevatorApp::core_unchanged(pre, post)
            &&& post.floor as int == (if pre.floor == 1 {
                -1
            } else if pre.floor as int - 1 >= MIN_FLOOR as int {
                pre.floor as int - 1
            } else {
                MIN_FLOOR as int
            })
            &&& post.tmp_floor == post.floor
            &&& cmds.len() == 0
        },
        AppMessage::ClickedBtnUp => exists|r: EnqueueResult|
            add_wait_rel(pre, post, Direction::Up, r, cmds),
        AppMessage::ClickedBtnDown => exists|r: EnqueueResult|
            add_wait_rel(pre, post, Direction::Down, r, cmds),
        AppMessage::Scheduling => {
            &&& ElevatorApp::core_unchanged(pre, post)
            &&& post.floor == pre.floor
            &&& post.tmp_floor == pre.tmp_floor
            &&& cmds == sweep_cmds(pre.wait_floors@)
        },
        AppMessage::LiftRunning => {
            &&& ElevatorApp::core_unchanged(pre, post)
            &&& post.floor == pre.floor
            &&& post.tmp_floor == pre.tmp_floor
            &&& cmds == motion_cmds(pre.lifts@)
        },
        AppMessage::Scheduling2(f, d) => schedule2_rel(pre, post, f as int, d, cmds),
        AppMessage::ArriveByOneFloor(no) => {
            if no < pre.lifts@.len() {
                arrive_rel(pre, post, no as int, cmds)
            } else {
                ElevatorApp::core_unchanged(pre, post) && post.floor == pre.floor
                    && post.tmp_floor == pre.tmp_floor && cmds.len() == 0
            }
        },
        AppMessage::WaitUserInputFloor(no) => {
            if no < pre.lifts@.len() {
                dwell_rel(pre, post, no as int, cmds)
            } else {
                ElevatorApp::core_unchanged(pre, post) && post.floor == pre.floor
                    && post.tmp_floor == pre.tmp_floor && cmds.len() == 0
            }
        },
        AppMessage::ClickedBtnFloor(no, f) => {
            if no < pre.lifts@.len() {
                &&& post.wait_floors@ == pre.wait_floors@
                &&& post.floor == pre.floor
                &&& post.tmp_floor == pre.tmp_floor
                &&& post.lifts@.len() == pre.lifts@.len()
                &&& forall|j: int|
                    0 <= j < pre.lifts@.len() && j != no ==> post.lifts@[j] == pre.lifts@[j]
                &&& exists|accepted: bool|
                    crate::lift::cabin_press_rel(
                        pre.lifts@[no as int],
                        post.lifts@[no as int],
                        f as int,
                        accepted,
                    )
                &&& cmds.len() == 0
            } else {
                ElevatorApp::core_unchanged(pre, post) && post.floor == pre.floor
                    && post.tmp_floor == pre.tmp_floor && cmds.len() == 0
            }
        },
        _ => {
            &&& ElevatorApp::core_unchanged(pre, post)
            &&& post.floor == pre.floor
            &&& post.tmp_floor == pre.tmp_floor
            &&& cmds.len() == 0
        },
    }
}

/// Removing one registry entry keeps the registry well-formed and leaves
/// every other call, scheduled or not, exactly as it was.
proof fn lemma_wait_remove(preq: Seq<WaitFloorTxtState>, postq: Seq<WaitFloorTxtState>, i: int)
    requires
        wait_wf(preq),
        0 <= i < preq.len(),
        postq == preq.remove(i),
    ensures
        wait_wf(postq),
        forall|g: int, dd: Direction|
            wait_has_scheduled(postq, g, dd) <==> (wait_has_scheduled(preq, g, dd) && !(g
                == preq[i].floor && dd == preq[i].direction)),
        forall|g: int, dd: Direction|
            wait_has(postq, g, dd) <==> (wait_has(preq, g, dd) && !(g == preq[i].floor && dd
                == preq[i].direction)),
        forall|j: int| 0 <= j < i ==> #[trigger] postq[j] == preq[j],
        forall|j: int| i <= j < postq.len() ==> #[trigger] postq[j] == preq[j + 1],
{
    assert forall|g: int, dd: Direction|
        wait_has_scheduled(postq, g, dd) implies (wait_has_scheduled(preq, g, dd) && !(g
        == preq[i].floor && dd == preq[i].direction)) by {
        let j = choose|j: int|
            0 <= j < postq.len() && postq[j].floor == g && postq[j].direction == dd
                && postq[j].is_scheduled;
        if j < i {
            assert(preq[j] == postq[j]);
        } else {
            assert(preq[j + 1] == postq[j]);
        }
    }
    assert forall|g: int, dd: Direction|
        (wait_has_scheduled(preq, g, dd) && !(g == preq[i].floor && dd == preq[i].direction))
        implies wait_has_scheduled(postq, g, dd) by {
        let j = choose|j: int|
            0 <= j < preq.len() && preq[j].floor == g && preq[j].direction == dd
                && preq[j].is_scheduled;
        if j < i {
            assert(postq[j] == preq[j]);
        } else {
            assert(j != i);
            assert(postq[j - 1] == preq[j]);
        }
    }
    assert forall|g: int, dd: Direction|
        wait_has(postq, g, dd) implies (wait_has(preq, g, dd) && !(g == preq[i].floor && dd
        == preq[i].direction)) by {
        let j = choose|j: int|
            0 <= j < postq.len() && postq[j].floor == g && postq[j].direction == dd;
        if j < i {
            assert(preq[j] == postq[j]);
        } else {
            assert(preq[j + 1] == postq[j]);
        }
    }
    assert forall|g: int, dd: Direction|
        (wait_has(preq, g, dd) && !(g == preq[i].floor && dd == preq[i].direction)) implies
        wait_has(postq, g, dd) by {
        let j = choose|j: int| 0 <= j < preq.len() && preq[j].floor == g && preq[j].direction == dd;
        if j < i {
            assert(postq[j] == preq[j]);
        } else {
            assert(j != i);
            assert(postq[j - 1] == preq[j]);
        }
    }
    assert forall|a: int, b: int| 0 <= a < b < postq.len() implies !(postq[a].floor
        == postq[b].floor && postq[a].direction == postq[b].direction) by {
        let a0 = if a < i {
            a
        } else {
            a + 1
        };
        let b0 = if b < i {
            b
        } else {
            b + 1
        };
        assert(preq[a0] == postq[a]);
        assert(preq[b0] == postq[b]);
    }
    assert forall|j: int| 0 <= j < postq.len() implies valid_floor(
        (#[trigger] postq[j]).floor as int,
    ) by {
        let j0 = if j < i {
            j
        } else {
            j + 1
        };
        assert(preq[j0] == postq[j]);
    }
}

impl ElevatorApp {
    /// The registry still holds `(floor, direction)` with no car committed.
    fn has_unscheduled_call(&self, floor: TFloor, direction: Direction) -> (r: bool)
        ensures
            r <==> wait_has_unscheduled(self.wait_floors@, floor as int, direction),
    {
        let mut i: usize = 0;
        while i < self.wait_floors.len()
            invariant
                0 <= i <= self.wait_floors@.len(),
                forall|j: int|
                    0 <= j < i ==> !(self.wait_floors@[j].floor == floor
                        && self.wait_floors@[j].direction == direction
                        && !self.wait_floors@[j].is_scheduled),
            decreases self.wait_floors@.len() - i,
        {
            let e = self.wait_floors[i];
            if e.floor == floor && e.direction == direction && !e.is_scheduled {
                proof {
                    assert(self.wait_floors@[i as int].floor == floor);
                }
                return true;
            }
            i = i + 1;
        }
        false
    }

    /// After car `no` served floor `m` (assignment `dm_opt` removed from the
    /// car, the matching call from the registry), the bank is still
    /// well-formed.
    proof fn lemma_serve_wf(&self, pre: ElevatorApp, no: int, m: int, dm_opt: Option<Direction>)
        requires
            pre.wf(),
            0 <= no < pre.lifts@.len(),
            self.lifts@ == pre.lifts@.update(no, self.lifts@[no]),
            self.lifts@[no].wf(),
            self.lifts@[no].no == pre.lifts@[no].no,
            forall|g: int|
                self.lifts@[no].cabin_has(g) <==> (pre.lifts@[no].cabin_has(g) && g != m),
            forall|g: int, dd: Direction|
                self.lifts@[no].sched_has(g, dd) <==> (pre.lifts@[no].sched_has(g, dd) && g != m),
            match dm_opt {
                Some(dm) => pre.lifts@[no].sched_has(m, dm) && (exists|i: int|
                    0 <= i < pre.wait_floors@.len() && pre.wait_floors@[i].floor == m
                        && pre.wait_floors@[i].direction == dm && self.wait_floors@
                        == pre.wait_floors@.remove(i)),
                None => !pre.lifts@[no].sched_has_floor(m) && self.wait_floors@
                    == pre.wait_floors@,
            },
            self.floor == pre.floor,
        ensures
            self.wf(),
            served_registry(pre.wait_floors@, self.wait_floors@, pre.lifts@[no], m),
    {
        let l0 = pre.lifts@[no];
        let l1 = self.lifts@[no];
        crate::lift::lemma_sched_unique_dir(l0, m);
        assert forall|g: int, dd: Direction| #[trigger]
            count_assigned(self.lifts@, g, dd) == count_assigned(pre.lifts@, g, dd) - (if g == m
                && l0.sched_has(m, dd) {
                1int
            } else {
                0int
            }) by {
            lemma_count_update(pre.lifts@, no, l1, g, dd);
        }
        assert forall|j: int| 0 <= j < self.lifts@.len() implies (#[trigger] self.lifts@[j]).wf()
            && self.lifts@[j].no == j by {
            if j != no {
                assert(self.lifts@[j] == pre.lifts@[j]);
            }
        }
        match dm_opt {
            Some(dm) => {
                let i = choose|i: int|
                    0 <= i < pre.wait_floors@.len() && pre.wait_floors@[i].floor == m
                        && pre.wait_floors@[i].direction == dm && self.wait_floors@
                        == pre.wait_floors@.remove(i);
                lemma_wait_remove(pre.wait_floors@, self.wait_floors@, i);
                // The removed call was scheduled with count one.
                lemma_count_member(pre.lifts@, m, dm, no);
                assert(count_assigned(pre.lifts@, m, dm) == 1) by {
                    assert(count_assigned(pre.lifts@, m, dm) > 0);
                    assert(wait_has_scheduled(pre.wait_floors@, m, dm));
                    let i2 = choose|i2: int|
                        0 <= i2 < pre.wait_floors@.len() && pre.wait_floors@[i2].floor == m
                            && pre.wait_floors@[i2].direction == dm
                            && pre.wait_floors@[i2].is_scheduled;
                    assert(count_assigned(
                        pre.lifts@,
                        pre.wait_floors@[i2].floor as int,
                        pre.wait_floors@[i2].direction,
                    ) == 1);
                }
                // Registry and cars still agree, entry by entry.
                assert forall|j: int| 0 <= j < self.wait_floors@.len() implies count_assigned(
                    self.lifts@,
                    (#[trigger] self.wait_floors@[j]).floor as int,
                    self.wait_floors@[j].direction,
                ) == (if self.wait_floors@[j].is_scheduled {
                    1int
                } else {
                    0int
                }) by {
                    let j0 = if j < i { j } else { j + 1 };
                    assert(self.wait_floors@[j] == pre.wait_floors@[j0]);
                    let e = pre.wait_floors@[j0];
                    assert(count_assigned(pre.lifts@, e.floor as int, e.direction) == (if e.is_scheduled {
                        1int
                    } else {
                        0int
                    }));
                    if e.floor == m {
                        // Same floor as the served call but a distinct entry,
                        // so its direction differs and the car never carried
                        // it.
                        if j0 < i {
                            assert(!(pre.wait_floors@[j0].floor == pre.wait_floors@[i].floor
                                && pre.wait_floors@[j0].direction
                                == pre.wait_floors@[i].direction));
                        } else {
                            assert(!(pre.wait_floors@[i].floor == pre.wait_floors@[j0].floor
                                && pre.wait_floors@[i].direction
                                == pre.wait_floors@[j0].direction));
                        }
                        assert(e.direction != dm);
                        assert(!l0.sched_has(m, e.direction));
                    }
                }
                assert forall|g: int, dd: Direction| #[trigger]
                    count_assigned(self.lifts@, g, dd) > 0 implies wait_has_scheduled(
                    self.wait_floors@,
                    g,
                    dd,
                ) by {
                    assert(count_assigned(pre.lifts@, g, dd) > 0);
                    assert(wait_has_scheduled(pre.wait_floors@, g, dd));
                    if g == m && dd == dm {
                        assert(count_assigned(self.lifts@, g, dd) == 0);
                    }
                }
                assert(0 <= i < pre.wait_floors@.len() && l0.sched_has(m, dm)
                    && pre.wait_floors@[i].floor == m && pre.wait_floors@[i].direction == dm
                    && self.wait_floors@ == pre.wait_floors@.remove(i));
            },
            None => {
                assert forall|g: int, dd: Direction| #[trigger]
                    count_assigned(self.lifts@, g, dd) == count_assigned(pre.lifts@, g, dd) by {
                    if g == m {
                        assert(!l0.sched_has(m, dd));
                    }
                }
                assert forall|j: int| 0 <= j < self.wait_floors@.len() implies count_assigned(
                    self.lifts@,
                    (#[trigger] self.wait_floors@[j]).floor as int,
                    self.wait_floors@[j].direction,
                ) == (if self.wait_floors@[j].is_scheduled {
                    1int
                } else {
                    0int
                }) by {
                    assert(self.wait_floors@[j] == pre.wait_floors@[j]);
                }
                assert(!l0.sched_has_floor(m) && self.wait_floors@ == pre.wait_floors@);
            },
        }
    }

    /// Car `no` stands at its destination `dest` with doors opening: enter
    /// the dwell phase, strike the floor off the stop sets, drop the served
    /// hall call, and request the dwell step.
    fn serve_at(&mut self, no: usize, dest: TFloor) -> (cmds: Vec<FollowUp>)
        requires
            old(self).wf(),
            no < old(self).lifts@.len(),
            is_up_state(old(self).lifts@[no as int].state) || is_down_state(
                old(self).lifts@[no as int].state,
            ),
            old(self).lifts@[no as int].cur_floor == dest,
        ensures
            final(self).wf(),
            final(self).floor == old(self).floor,
            final(self).tmp_floor == old(self).tmp_floor,
            final(self).lifts@.len() == old(self).lifts@.len(),
            forall|j: int|
                0 <= j < old(self).lifts@.len() && j != no ==> final(self).lifts@[j] == old(
                    self,
                ).lifts@[j],
            served_lift(
                old(self).lifts@[no as int],
                final(self).lifts@[no as int],
                dest as int,
                if old(self).lifts@[no as int].state == State::GoingUp {
                    State::GoingUpSuspend
                } else if old(self).lifts@[no as int].state == State::GoingDown {
                    State::GoingDownSuspend
                } else {
                    old(self).lifts@[no as int].state
                },
            ),
            served_registry(
                old(self).wait_floors@,
                final(self).wait_floors@,
                old(self).lifts@[no as int],
                dest as int,
            ),
            dwell_cmd(cmds@, old(self).lifts@[no as int]),
    {
        let ghost pre = *self;
        let rd = self.lifts[no].arrive_suspend(dest);
        proof {
            assert(self.lifts@ == pre.lifts@.update(no as int, self.lifts@[no as int]));
        }
        match rd {
            Some(dm) => {
                proof {
                    lemma_count_member(pre.lifts@, dest as int, dm, no as int);
                    assert(wait_has_scheduled(pre.wait_floors@, dest as int, dm));
                    let i2 = choose|i2: int|
                        0 <= i2 < pre.wait_floors@.len() && pre.wait_floors@[i2].floor == dest
                            && pre.wait_floors@[i2].direction == dm
                            && pre.wait_floors@[i2].is_scheduled;
                    assert(wait_has(pre.wait_floors@, dest as int, dm));
                }
                remove_wait_floor(&mut self.wait_floors, dest, dm);
                proof {
                    self.lemma_serve_wf(pre, no as int, dest as int, Some(dm));
                }
            },
            None => {
                proof {
                    self.lemma_serve_wf(pre, no as int, dest as int, None);
                }
            },
        }
        let mut cmds: Vec<FollowUp> = Vec::new();
        cmds.push(
            FollowUp {
                delay_ms: EVERY_FLOOR_RUN_TIME_IN_MILLISECONDS + SUSPEND_WAIT_IN_MILLISECONDS,
                message: AppMessage::WaitUserInputFloor(no),
            },
        );
        cmds
    }

    /// One motion step of car `no`: a car with nothing to serve falls to
    /// rest; a moving car advances one physical floor toward its
    /// destination, opening the doors and serving the floor on arrival; a
    /// dwelling car at its destination serves it in place.  A maintained
    /// car ignores the event.
    pub fn arrive_by_one_floor(&mut self, no: usize) -> (cmds: Vec<FollowUp>)
        requires
            old(self).wf(),
            no < old(self).lifts@.len(),
        ensures
            final(self).wf(),
            arrive_rel(*old(self), *final(self), no as int, cmds@),
    {
        let ghost pre = *self;
        let ghost l0 = pre.lifts@[no as int];
        if matches!(self.lifts[no].state, State::Maintaining) {
            return Vec::new();
        }
        let dest_opt = self.lifts[no].dest_floor();
        match dest_opt {
            None => {
                self.lifts[no].fall_to_rest();
                proof {
                    assert(self.lifts@ == pre.lifts@.update(no as int, self.lifts@[no as int]));
                    let l1 = self.lifts@[no as int];
                    assert forall|g: int, dd: Direction| #[trigger]
                        count_assigned(self.lifts@, g, dd) == count_assigned(pre.lifts@, g, dd) by {
                        lemma_count_update(pre.lifts@, no as int, l1, g, dd);
                    }
                    assert forall|j: int| 0 <= j < self.lifts@.len() implies (
                    #[trigger] self.lifts@[j]).wf() && self.lifts@[j].no == j by {
                        if j != no as int {
                            assert(self.lifts@[j] == pre.lifts@[j]);
                        }
                    }
                    assert forall|i: int| 0 <= i < self.wait_floors@.len() implies count_assigned(
                        self.lifts@,
                        (#[trigger] self.wait_floors@[i]).floor as int,
                        self.wait_floors@[i].direction,
                    ) == (if self.wait_floors@[i].is_scheduled {
                        1int
                    } else {
                        0int
                    }) by {}
                }
                Vec::new()
            },
            Some(dest) => {
                let ghost m = dest as int;
                let st = self.lifts[no].state;
                match st {
                    State::GoingUp => {
                        if self.lifts[no].cur_floor == dest {
                            let cmds = self.serve_at(no, dest);
                            proof {
                                assert(is_dest(l0, m) && arrive_step(pre, *self, no as int, m, cmds@));
                            }
                            cmds
                        } else {
                            proof {
                                assert(l0.has_stop(m) && m != l0.cur_floor);
                                assert(l0.cur_floor < dest);
                            }
                            self.lifts[no].step_toward(dest, true);
                            proof {
                                assert(self.lifts@ == pre.lifts@.update(
                                    no as int,
                                    self.lifts@[no as int],
                                ));
                                let l1 = self.lifts@[no as int];
                                assert forall|g: int, dd: Direction| #[trigger]
                                    count_assigned(self.lifts@, g, dd) == count_assigned(
                                    pre.lifts@,
                                    g,
                                    dd,
                                ) by {
                                    lemma_count_update(pre.lifts@, no as int, l1, g, dd);
                                }
                                assert forall|j: int| 0 <= j < self.lifts@.len() implies (
                                #[trigger] self.lifts@[j]).wf() && self.lifts@[j].no == j by {
                                    if j != no as int {
                                        assert(self.lifts@[j] == pre.lifts@[j]);
                                    }
                                }
                                assert forall|i: int|
                                    0 <= i < self.wait_floors@.len() implies count_assigned(
                                    self.lifts@,
                                    (#[trigger] self.wait_floors@[i]).floor as int,
                                    self.wait_floors@[i].direction,
                                ) == (if self.wait_floors@[i].is_scheduled {
                                    1int
                                } else {
                                    0int
                                }) by {}
                            }
                            if self.lifts[no].cur_floor == dest {
                                let ghost mid = *self;
                                let cmds = self.serve_at(no, dest);
                                proof {
                                    crate::lift::lemma_same_stop_members(
                                        mid.lifts@[no as int],
                                        l0,
                                    );
                                    assert(is_dest(l0, m) && arrive_step(
                                        pre,
                                        *self,
                                        no as int,
                                        m,
                                        cmds@,
                                    ));
                                }
                                cmds
                            } else {
                                let mut cmds: Vec<FollowUp> = Vec::new();
                                cmds.push(
                                    FollowUp {
                                        delay_ms: EVERY_FLOOR_RUN_TIME_IN_MILLISECONDS,
                                        message: AppMessage::ArriveByOneFloor(no),
                                    },
                                );
                                proof {
                                    assert(is_dest(l0, m) && arrive_step(
                                        pre,
                                        *self,
                                        no as int,
                                        m,
                                        cmds@,
                                    ));
                                }
                                cmds
                            }
                        }
                    },
                    State::GoingDown => {
                        if self.lifts[no].cur_floor == dest {
                            let cmds = self.serve_at(no, dest);
                            proof {
                                assert(is_dest(l0, m) && arrive_step(pre, *self, no as int, m, cmds@));
                            }
                            cmds
                        } else {
                            proof {
                                assert(l0.has_stop(m) && m != l0.cur_floor);
                                assert(l0.cur_floor > dest);
                            }
                            self.lifts[no].step_toward(dest, false);
                            proof {
                                assert(self.lifts@ == pre.lifts@.update(
                                    no as int,
                                    self.lifts@[no as int],
                                ));
                                let l1 = self.lifts@[no as int];
                                assert forall|g: int, dd: Direction| #[trigger]
                                    count_assigned(self.lifts@, g, dd) == count_assigned(
                                    pre.lifts@,
                                    g,
                                    dd,
                                ) by {
                                    lemma_count_update(pre.lifts@, no as int, l1, g, dd);
                                }
                                assert forall|j: int| 0 <= j < self.lifts@.len() implies (
                                #[trigger] self.lifts@[j]).wf() && self.lifts@[j].no == j by {
                                    if j != no as int {
                                        assert(self.lifts@[j] == pre.lifts@[j]);
                                    }
                                }
                                assert forall|i: int|
                                    0 <= i < self.wait_floors@.len() implies count_assigned(
                                    self.lifts@,
                                    (#[trigger] self.wait_floors@[i]).floor as int,
                                    self.wait_floors@[i].direction,
                                ) == (if self.wait_floors@[i].is_scheduled {
                                    1int
                                } else {
                                    0int
                                }) by {}
                            }
                            if self.lifts[no].cur_floor == dest {
                                let ghost mid = *self;
                                let cmds = self.serve_at(no, dest);
                                proof {
                                    crate::lift::lemma_same_stop_members(
                                        mid.lifts@[no as int],
                                        l0,
                                    );
                                    assert(is_dest(l0, m) && arrive_step(
                                        pre,
                                        *self,
                                        no as int,
                                        m,
                                        cmds@,
                                    ));
                                }
                                cmds
                            } else {
                                let mut cmds: Vec<FollowUp> = Vec::new();
                                cmds.push(
                                    FollowUp {
                                        delay_ms: EVERY_FLOOR_RUN_TIME_IN_MILLISECONDS,
                                        message: AppMessage::ArriveByOneFloor(no),
                                    },
                                );
                                proof {
                                    assert(is_dest(l0, m) && arrive_step(
                                        pre,
                                        *self,
                                        no as int,
                                        m,
                                        cmds@,
                                    ));
                                }
                                cmds
                            }
                        }
                    },
                    State::GoingUpSuspend | State::GoingDownSuspend => {
                        if self.lifts[no].cur_floor == dest {
                            let cmds = self.serve_at(no, dest);
                            proof {
                                assert(is_dest(l0, m) && arrive_step(pre, *self, no as int, m, cmds@));
                            }
                            cmds
                        } else {
                            proof {
                                assert(is_dest(l0, m) && arrive_step(
                                    pre,
                                    *self,
                                    no as int,
                                    m,
                                    Seq::<FollowUp>::empty(),
                                ));
                            }
                            Vec::new()
                        }
                    },
                    _ => {
                        // A resting car has no destination, so this arm is
                        // never reached; the relation still holds of it.
                        proof {
                            assert(false);
                        }
                        Vec::new()
                    },
                }
            },
        }
    }

    /// After a change to car `no` that leaves its assigned set untouched,
    /// the bank is still well-formed.
    proof fn lemma_sched_untouched_wf(&self, pre: ElevatorApp, no: int)
        requires
            pre.wf(),
            0 <= no < pre.lifts@.len(),
            self.lifts@ == pre.lifts@.update(no, self.lifts@[no]),
            self.lifts@[no].wf(),
            self.lifts@[no].no == pre.lifts@[no].no,
            self.lifts@[no].schedule_floors@ == pre.lifts@[no].schedule_floors@,
            self.wait_floors@ == pre.wait_floors@,
            self.floor == pre.floor,
        ensures
            self.wf(),
    {
        let l1 = self.lifts@[no];
        crate::lift::lemma_same_sched_members(l1, pre.lifts@[no]);
        assert forall|g: int, dd: Direction| #[trigger]
            count_assigned(self.lifts@, g, dd) == count_assigned(pre.lifts@, g, dd) by {
            lemma_count_update(pre.lifts@, no, l1, g, dd);
        }
        assert forall|j: int| 0 <= j < self.lifts@.len() implies (#[trigger] self.lifts@[j]).wf()
            && self.lifts@[j].no == j by {
            if j != no {
                assert(self.lifts@[j] == pre.lifts@[j]);
            }
        }
        assert forall|i: int| 0 <= i < self.wait_floors@.len() implies count_assigned(
            self.lifts@,
            (#[trigger] self.wait_floors@[i]).floor as int,
            self.wait_floors@[i].direction,
        ) == (if self.wait_floors@[i].is_scheduled {
            1int
        } else {
            0int
        }) by {}
    }

    /// The dwell of car `no` ends: passengers exchange, cabin input opens or
    /// closes, and the car resumes its run or rests when nothing is left.
    pub fn wait_user_input_floor(&mut self, no: usize) -> (cmds: Vec<FollowUp>)
        requires
            old(self).wf(),
            no < old(self).lifts@.len(),
        ensures
            final(self).wf(),
            dwell_rel(*old(self), *final(self), no as int, cmds@),
    {
        let ghost pre = *self;
        let st = self.lifts[no].state;
        match st {
            State::GoingUpSuspend | State::GoingDownSuspend => {
                self.lifts[no].dwell_exchange();
                proof {
                    assert(self.lifts@ == pre.lifts@.update(no as int, self.lifts@[no as int]));
                    self.lemma_sched_untouched_wf(pre, no as int);
                }
                if matches!(self.lifts[no].state, State::Stop) {
                    Vec::new()
                } else {
                    let mut cmds: Vec<FollowUp> = Vec::new();
                    cmds.push(
                        FollowUp {
                            delay_ms: EVERY_FLOOR_RUN_TIME_IN_MILLISECONDS,
                            message: AppMessage::ArriveByOneFloor(no),
                        },
                    );
                    cmds
                }
            },
            _ => Vec::new(),
        }
    }

    /// A cabin button press in car `no` asking for `floor`.
    pub fn clicked_btn_floor(&mut self, no: usize, floor: TFloor) -> (accepted: bool)
        requires
            old(self).wf(),
            no < old(self).lifts@.len(),
        ensures
            final(self).wf(),
            final(self).wait_floors@ == old(self).wait_floors@,
            final(self).floor == old(self).floor,
            final(self).tmp_floor == old(self).tmp_floor,
            final(self).lifts@.len() == old(self).lifts@.len(),
            forall|j: int|
                0 <= j < old(self).lifts@.len() && j != no ==> final(self).lifts@[j] == old(
                    self,
                ).lifts@[j],
            crate::lift::cabin_press_rel(
                old(self).lifts@[no as int],
                final(self).lifts@[no as int],
                floor as int,
                accepted,
            ),
    {
        let ghost pre = *self;
        let accepted = self.lifts[no].cabin_press(floor);
        proof {
            assert(self.lifts@ == pre.lifts@.update(no as int, self.lifts@[no as int]));
            self.lemma_sched_untouched_wf(pre, no as int);
        }
        accepted
    }

    /// Rank the resting cars for an up sweep over the given waiting floors:
    /// one cost entry per resting car, cheapest first.
    pub fn handle_up_floors(&self, floors: &Vec<TFloor>) -> (ret: Vec<crate::lift::LiftUpDownCost>)
        requires
            self.wf(),
            forall|i: int| 0 <= i < floors@.len() ==> MIN_FLOOR <= #[trigger] floors@[i] <= MAX_FLOOR,
            floors@.len() <= 4096,
        ensures
            ret@.to_multiset() == cost_entries(self.lifts@, floors@, true).to_multiset(),
            forall|a: int, b: int|
                0 <= a < b < ret@.len() ==> crate::lift::cost_le(ret@[a], ret@[b]),
    {
        let mut ret = self.cost_entries_exec(floors, true);
        crate::lift::sort_costs(&mut ret);
        ret
    }

    /// Rank the resting cars for a down sweep over the given waiting
    /// floors: one cost entry per resting car, cheapest first.
    pub fn handle_down_floors(&self, floors: &Vec<TFloor>) -> (ret: Vec<
        crate::lift::LiftUpDownCost,
    >)
        requires
            self.wf(),
            forall|i: int| 0 <= i < floors@.len() ==> MIN_FLOOR <= #[trigger] floors@[i] <= MAX_FLOOR,
            floors@.len() <= 4096,
        ensures
            ret@.to_multiset() == cost_entries(self.lifts@, floors@, false).to_multiset(),
            forall|a: int, b: int|
                0 <= a < b < ret@.len() ==> crate::lift::cost_le(ret@[a], ret@[b]),
    {
        let mut ret = self.cost_entries_exec(floors, false);
        crate::lift::sort_costs(&mut ret);
        ret
    }

    /// The sweep-cost entries of the resting cars, in car order.
    fn cost_entries_exec(&self, floors: &Vec<TFloor>, up: bool) -> (ret: Vec<
        crate::lift::LiftUpDownCost,
    >)
        requires
            self.wf(),
            forall|i: int| 0 <= i < floors@.len() ==> MIN_FLOOR <= #[trigger] floors@[i] <= MAX_FLOOR,
            floors@.len() <= 4096,
        ensures
            ret@ == cost_entries(self.lifts@, floors@, up),
    {
        let mut ret: Vec<crate::lift::LiftUpDownCost> = Vec::new();
        let mut k: usize = 0;
        while k < self.lifts.len()
            invariant
                self.wf(),
                forall|i: int|
                    0 <= i < floors@.len() ==> MIN_FLOOR <= #[trigger] floors@[i] <= MAX_FLOOR,
                floors@.len() <= 4096,
                0 <= k <= self.lifts@.len(),
                ret@ == cost_entries(self.lifts@.take(k as int), floors@, up),
            decreases self.lifts@.len() - k,
        {
            if matches!(self.lifts[k].state, State::Stop) {
                let cur = self.lifts[k].cur_floor;
                let mut cost: i32 = 0;
                let mut cnt: usize = 0;
                let mut i: usize = 0;
                while i < floors.len()
                    invariant
                        forall|i2: int|
                            0 <= i2 < floors@.len() ==> MIN_FLOOR <= #[trigger] floors@[i2]
                                <= MAX_FLOOR,
                        floors@.len() <= 4096,
                        MIN_FLOOR <= cur <= MAX_FLOOR,
                        0 <= i <= floors@.len(),
                        cost as int == (if up {
                            up_cost(floors@.take(i as int), cur).0
                        } else {
                            down_cost(floors@.take(i as int), cur).0
                        }),
                        cnt as int == (if up {
                            up_cost(floors@.take(i as int), cur).1
                        } else {
                            down_cost(floors@.take(i as int), cur).1
                        }),
                    decreases floors@.len() - i,
                {
                    proof {
                        assert(floors@.take(i as int + 1).drop_last() =~= floors@.take(i as int));
                        assert(floors@.take(i as int + 1).last() == floors@[i as int]);
                        lemma_cost_bounds(floors@.take(i as int), cur, up);
                        assert(floors@.take(i as int).len() <= 4096);
                    }
                    if up {
                        if floors[i] >= cur {
                            cost = cost + (floors[i] - cur) as i32;
                            cnt = cnt + 1;
                        }
                    } else {
                        if floors[i] <= cur {
                            cost = cost + (cur - floors[i]) as i32;
                            cnt = cnt + 1;
                        }
                    }
                    i = i + 1;
                }
                proof {
                    assert(floors@.take(floors@.len() as int) =~= floors@);
                }
                ret.push(
                    crate::lift::LiftUpDownCost { no: self.lifts[k].no, cost, cnt },
                );
            }
            proof {
                assert(self.lifts@.take(k as int + 1).drop_last() =~= self.lifts@.take(k as int));
                assert(self.lifts@.take(k as int + 1).last() == self.lifts@[k as int]);
            }
            k = k + 1;
        }
        proof {
            assert(self.lifts@.take(self.lifts@.len() as int) =~= self.lifts@);
        }
        ret
    }

    /// Pick a new random panel floor different from the current one.
    pub fn set_random_floor(&mut self)
        requires
            old(self).wf(),
        ensures
            final(self).wf(),
            final(self).lifts@ == old(self).lifts@,
            final(self).wait_floors@ == old(self).wait_floors@,
            valid_floor(final(self).floor as int),
            final(self).floor != old(self).floor,
            final(self).tmp_floor == final(self).floor,
    {
        let f = crate::util::random_floor() as TFloor;
        let nf = if f == self.floor {
            if self.floor == 1 {
                -1
            } else {
                1
            }
        } else {
            f
        };
        self.floor = nf;
        self.tmp_floor = nf;
    }

    /// A hall call at the panel floor: enqueue it, roll the panel to a new
    /// floor, and try to dispatch the call at once.
    pub fn add_to_wait_floor(&mut self, direction: Direction) -> (r: (
        EnqueueResult,
        Vec<FollowUp>,
    ))
        requires
            old(self).wf(),
        ensures
            final(self).wf(),
            add_wait_rel(*old(self), *final(self), direction, r.0, r.1@),
    {
        let ghost pre = *self;
        let floor = self.floor;
        let res = enqueue_wait_floor(&mut self.wait_floors, floor, direction);
        proof {
            // A freshly accepted call is not assigned to any car.
            if res == EnqueueResult::Accepted {
                assert forall|i: int| 0 <= i < self.wait_floors@.len() implies count_assigned(
                    self.lifts@,
                    (#[trigger] self.wait_floors@[i]).floor as int,
                    self.wait_floors@[i].direction,
                ) == (if self.wait_floors@[i].is_scheduled {
                    1int
                } else {
                    0int
                }) by {
                    if i < pre.wait_floors@.len() {
                        assert(self.wait_floors@[i] == pre.wait_floors@[i]);
                    } else {
                        // The new entry: were any car committed to it, the
                        // registry would already hold it as scheduled.
                        lemma_count_bounds(self.lifts@, floor as int, direction);
                        if count_assigned(self.lifts@, floor as int, direction) > 0 {
                            assert(wait_has_scheduled(pre.wait_floors@, floor as int, direction));
                            let j = choose|j: int|
                                0 <= j < pre.wait_floors@.len() && pre.wait_floors@[j].floor
                                    == floor && pre.wait_floors@[j].direction == direction
                                    && pre.wait_floors@[j].is_scheduled;
                            assert(wait_has(pre.wait_floors@, floor as int, direction));
                        }
                    }
                }
                assert forall|a: int, b: int|
                    0 <= a < b < self.wait_floors@.len() implies !(self.wait_floors@[a].floor
                    == self.wait_floors@[b].floor && self.wait_floors@[a].direction
                    == self.wait_floors@[b].direction) by {
                    if b < pre.wait_floors@.len() {
                    } else {
                        assert(self.wait_floors@[a] == pre.wait_floors@[a]);
                        if self.wait_floors@[a].floor == floor && self.wait_floors@[a].direction
                            == direction {
                            assert(wait_has(pre.wait_floors@, floor as int, direction));
                        }
                    }
                }
                assert forall|g: int, dd: Direction| #[trigger]
                    count_assigned(self.lifts@, g, dd) > 0 implies wait_has_scheduled(
                    self.wait_floors@,
                    g,
                    dd,
                ) by {
                    let j = choose|j: int|
                        0 <= j < pre.wait_floors@.len() && pre.wait_floors@[j].floor == g
                            && pre.wait_floors@[j].direction == dd
                            && pre.wait_floors@[j].is_scheduled;
                    assert(self.wait_floors@[j] == pre.wait_floors@[j]);
                }
                assert(self.wf());
            }
        }
        self.set_random_floor();
        let ghost mid = *self;
        let cmds = self.schedule2(floor, direction);
        proof {
            assert(mid.lifts@ == pre.lifts@ && mid.wait_floors@ == spec_enqueue(
                pre.wait_floors@,
                pre.floor,
                direction,
            ).0 && valid_floor(mid.floor as int) && mid.floor != pre.floor && mid.tmp_floor
                == mid.floor && schedule2_rel(mid, *self, pre.floor as int, direction, cmds@));
        }
        (res, cmds)
    }

    /// The periodic sweep: one immediate dispatch attempt for every hall
    /// call still waiting for a car.
    pub fn scheduling_sweep(&self) -> (cmds: Vec<FollowUp>)
        ensures
            cmds@ == sweep_cmds(self.wait_floors@),
    {
        let mut cmds: Vec<FollowUp> = Vec::new();
        let mut i: usize = 0;
        while i < self.wait_floors.len()
            invariant
                0 <= i <= self.wait_floors@.len(),
                cmds@ == sweep_cmds(self.wait_floors@.take(i as int)),
            decreases self.wait_floors@.len() - i,
        {
            let e = self.wait_floors[i];
            if !e.is_scheduled {
                cmds.push(
                    FollowUp {
                        delay_ms: 0,
                        message: AppMessage::Scheduling2(e.floor, e.direction),
                    },
                );
            }
            proof {
                assert(self.wait_floors@.take(i as int + 1).drop_last() =~= self.wait_floors@.take(
                    i as int,
                ));
                assert(self.wait_floors@.take(i as int + 1).last() == self.wait_floors@[i as int]);
            }
            i = i + 1;
        }
        proof {
            assert(self.wait_floors@.take(self.wait_floors@.len() as int) =~= self.wait_floors@);
        }
        cmds
    }

    /// The motion sweep: one immediate motion step for every car that still
    /// has somewhere to go.
    pub fn motion_sweep(&self) -> (cmds: Vec<FollowUp>)
        ensures
            cmds@ == motion_cmds(self.lifts@),
    {
        let mut cmds: Vec<FollowUp> = Vec::new();
        let mut i: usize = 0;
        while i < self.lifts.len()
            invariant
                0 <= i <= self.lifts@.len(),
                cmds@ == motion_cmds(self.lifts@.take(i as int)),
            decreases self.lifts@.len() - i,
        {
            if self.lifts[i].stop_floors.len() > 0 || self.lifts[i].schedule_floors.len() > 0 {
                cmds.push(
                    FollowUp { delay_ms: 0, message: AppMessage::ArriveByOneFloor(self.lifts[i].no) },
                );
            }
            proof {
                assert(self.lifts@.take(i as int + 1).drop_last() =~= self.lifts@.take(i as int));
                assert(self.lifts@.take(i as int + 1).last() == self.lifts@[i as int]);
            }
            i = i + 1;
        }
        proof {
            assert(self.lifts@.take(self.lifts@.len() as int) =~= self.lifts@);
        }
        cmds
    }

    /// The update function of the core: a total function from one event to
    /// the next state and the delayed follow-up events.
    pub fn update(&mut self, message: AppMessage) -> (cmds: Vec<FollowUp>)
        requires
            old(self).wf(),
        ensures
            final(self).wf(),
            update_rel(*old(self), *final(self), message, cmds@),
    {
        match message {
            AppMessage::SliderChange(floor) => {
                if floor != 0 {
                    self.tmp_floor = floor;
                }
                Vec::new()
            },
            AppMessage::SliderRelease(floor) => {
                if MIN_FLOOR <= floor && floor <= MAX_FLOOR && floor != 0 {
                    self.floor = floor;
                }
                Vec::new()
            },
            AppMessage::ClickedBtnPlus => {
                if self.floor == -1 {
                    self.floor = 1;
                } else if self.floor < MAX_FLOOR {
                    self.floor = self.floor + 1;
                }
                self.tmp_floor = self.floor;
                Vec::new()
            },
            AppMessage::ClickedBtnSubtract => {
                if self.floor == 1 {
                    self.floor = -1;
                } else if self.floor > MIN_FLOOR {
                    self.floor = self.floor - 1;
                }
                self.tmp_floor = self.floor;
                Vec::new()
            },
            AppMessage::ClickedBtnUp => {
                let (_res, cmds) = self.add_to_wait_floor(Direction::Up);
                cmds
            },
            AppMessage::ClickedBtnDown => {
                let (_res, cmds) = self.add_to_wait_floor(Direction::Down);
                cmds
            },
            AppMessage::Scheduling => self.scheduling_sweep(),
            AppMessage::LiftRunning => self.motion_sweep(),
            AppMessage::Scheduling2(floor, direction) => self.schedule2(floor, direction),
            AppMessage::ArriveByOneFloor(no) => {
                if no < self.lifts.len() {
                    self.arrive_by_one_floor(no)
                } else {
                    Vec::new()
                }
            },
            AppMessage::WaitUserInputFloor(no) => {
                if no < self.lifts.len() {
                    self.wait_user_input_floor(no)
                } else {
                    Vec::new()
                }
            },
            AppMessage::ClickedBtnFloor(no, floor) => {
                if no < self.lifts.len() {
                    let _accepted = self.clicked_btn_floor(no, floor);
                    Vec::new()
                } else {
                    Vec::new()
                }
            },
            _ => Vec::new(),
        }
    }

    /// Dispatch one outstanding hall call: pick the car the policy ranks
    /// first, commit it, and mark the call scheduled.  A call that is gone
    /// or already scheduled, or one no car can serve, changes nothing.
    pub fn schedule2(&mut self, floor: TFloor, direction: Direction) -> (cmds: Vec<FollowUp>)
        requires
            old(self).wf(),
        ensures
            final(self).wf(),
            schedule2_rel(*old(self), *final(self), floor as int, direction, cmds@),
    {
        let ghost f = floor as int;
        let ghost pre = *self;
        if !self.has_unscheduled_call(floor, direction) {
            return Vec::new();
        }
        match choose_lift(&self.lifts, floor, direction) {
            None => Vec::new(),
            Some(k) => {
                let ghost gi = choose|i: int|
                    0 <= i < pre.wait_floors@.len() && pre.wait_floors@[i].floor == f
                        && pre.wait_floors@[i].direction == direction
                        && !pre.wait_floors@[i].is_scheduled;
                proof {
                    // The entry is valid, so the call floor is valid.
                    assert(valid_floor(pre.wait_floors@[gi].floor as int));
                    // No car carries this assignment yet.
                    assert(count_assigned(pre.lifts@, f, direction) == 0);
                    lemma_count_zero(pre.lifts@, f, direction);
                    // The chosen car has no assignment at this floor at all.
                    assert(!pre.lifts@[k as int].sched_has_floor(f)) by {
                        if pre.lifts@[k as int].sched_has_floor(f) {
                            let j = choose|j: int|
                                0 <= j < pre.lifts@[k as int].schedule_floors@.len()
                                    && pre.lifts@[k as int].schedule_floors@[j].floor == f;
                            if pre.lifts@[k as int].schedule_floors@[j].direction == direction {
                                assert(pre.lifts@[k as int].sched_has(f, direction));
                            } else {
                                assert(sched_has_opposite(pre.lifts@[k as int], f, direction));
                            }
                        }
                    }
                }
                let at_floor = self.lifts[k].cur_floor == floor;
                self.lifts[k].commit_call(floor, direction);
                let ghost l1 = self.lifts@[k as int];
                proof {
                    assert(self.lifts@ == pre.lifts@.update(k as int, l1));
                }
                mark_wait_scheduled(&mut self.wait_floors, floor, direction);
                let mut cmds: Vec<FollowUp> = Vec::new();
                let no = self.lifts[k].no;
                cmds.push(
                    FollowUp {
                        delay_ms: if at_floor {
                            EVERY_FLOOR_RUN_TIME_IN_MILLISECONDS + SUSPEND_WAIT_IN_MILLISECONDS
                        } else {
                            EVERY_FLOOR_RUN_TIME_IN_MILLISECONDS
                        },
                        message: AppMessage::ArriveByOneFloor(no),
                    },
                );
                proof {
                    self.lemma_schedule2_commit_wf(pre, k as int, f, direction, cmds@);
                }
                cmds
            },
        }
    }

    /// After a commit the bank is still well-formed and the commit relation
    /// holds.
    proof fn lemma_schedule2_commit_wf(
        &self,
        pre: ElevatorApp,
        k: int,
        f: int,
        d: Direction,
        cmds: Seq<FollowUp>,
    )
        requires
            pre.wf(),
            0 <= k < pre.lifts@.len(),
            chosen_ok(pre.lifts@, k, f, d),
            count_assigned(pre.lifts@, f, d) == 0,
            self.lifts@ == pre.lifts@.update(k, self.lifts@[k]),
            self.lifts@[k].wf(),
            self.lifts@[k].no == pre.lifts@[k].no,
            self.lifts@[k].cur_floor == pre.lifts@[k].cur_floor,
            self.lifts@[k].can_click_btn == pre.lifts@[k].can_click_btn,
            self.lifts@[k].state == crate::lift::commit_state(
                pre.lifts@[k].state,
                pre.lifts@[k].cur_floor,
                f,
                d,
            ),
            pre.lifts@[k].cur_floor != f ==> self.lifts@[k].persons == pre.lifts@[k].persons,
            forall|g: int| self.lifts@[k].cabin_has(g) <==> pre.lifts@[k].cabin_has(g),
            forall|g: int, dd: Direction|
                self.lifts@[k].sched_has(g, dd) <==> (pre.lifts@[k].sched_has(g, dd) || (g == f
                    && dd == d)),
            self.wait_floors@.len() == pre.wait_floors@.len(),
            forall|i: int|
                0 <= i < pre.wait_floors@.len() ==> self.wait_floors@[i] == (if pre.wait_floors@[i].floor
                    == f && pre.wait_floors@[i].direction == d {
                    WaitFloorTxtState {
                        floor: pre.wait_floors@[i].floor,
                        direction: pre.wait_floors@[i].direction,
                        is_scheduled: true,
                    }
                } else {
                    pre.wait_floors@[i]
                }),
            self.floor == pre.floor,
            self.tmp_floor == pre.tmp_floor,
            wait_has_unscheduled(pre.wait_floors@, f, d),
            cmds.len() == 1,
            cmds[0].message == AppMessage::ArriveByOneFloor(pre.lifts@[k].no),
            cmds[0].delay_ms as int == (if pre.lifts@[k].cur_floor == f {
                EVERY_FLOOR_RUN_TIME_IN_MILLISECONDS as int + SUSPEND_WAIT_IN_MILLISECONDS as int
            } else {
                EVERY_FLOOR_RUN_TIME_IN_MILLISECONDS as int
            }),
        ensures
            self.wf(),
            schedule2_rel(pre, *self, f, d, cmds),
    {
        let l0 = pre.lifts@[k];
        let l1 = self.lifts@[k];
        // Counts change only for the committed pair.
        assert forall|g: int, dd: Direction| #[trigger]
            count_assigned(self.lifts@, g, dd) == count_assigned(pre.lifts@, g, dd) + (if g == f
                && dd == d {
                1int
            } else {
                0int
            }) by {
            lemma_count_update(pre.lifts@, k, l1, g, dd);
            if g == f && dd == d {
                lemma_count_zero(pre.lifts@, g, dd);
            }
        }
        // Registry side: lengths, floors and directions are unchanged.
        assert forall|i: int| 0 <= i < self.wait_floors@.len() implies (
        #[trigger] self.wait_floors@[i]).floor == pre.wait_floors@[i].floor
            && self.wait_floors@[i].direction == pre.wait_floors@[i].direction by {}
        assert(wait_wf(self.wait_floors@)) by {
            assert forall|i: int| 0 <= i < self.wait_floors@.len() implies valid_floor(
                (#[trigger] self.wait_floors@[i]).floor as int,
            ) by {
                assert(valid_floor(pre.wait_floors@[i].floor as int));
            }
        }
        // Every car is still well-formed.
        assert forall|j: int| 0 <= j < self.lifts@.len() implies (#[trigger] self.lifts@[j]).wf()
            && self.lifts@[j].no == j by {
            if j != k {
                assert(self.lifts@[j] == pre.lifts@[j]);
            }
        }
        // The registry and the cars still agree.
        assert forall|i: int| 0 <= i < self.wait_floors@.len() implies count_assigned(
            self.lifts@,
            (#[trigger] self.wait_floors@[i]).floor as int,
            self.wait_floors@[i].direction,
        ) == (if self.wait_floors@[i].is_scheduled {
            1int
        } else {
            0int
        }) by {
            let e0 = pre.wait_floors@[i];
            assert(count_assigned(pre.lifts@, e0.floor as int, e0.direction) == (if e0.is_scheduled {
                1int
            } else {
                0int
            }));
            if e0.floor == f && e0.direction == d {
                assert(!e0.is_scheduled) by {
                    if e0.is_scheduled {
                        assert(count_assigned(pre.lifts@, f, d) == 1);
                    }
                }
            }
        }
        assert forall|g: int, dd: Direction| #[trigger]
            count_assigned(self.lifts@, g, dd) > 0 implies wait_has_scheduled(
            self.wait_floors@,
            g,
            dd,
        ) by {
            if g == f && dd == d {
                let i = choose|i: int|
                    0 <= i < pre.wait_floors@.len() && pre.wait_floors@[i].floor == f
                        && pre.wait_floors@[i].direction == d && !pre.wait_floors@[i].is_scheduled;
                assert(self.wait_floors@[i].is_scheduled && self.wait_floors@[i].floor == f
                    && self.wait_floors@[i].direction == dd);
            } else {
                assert(count_assigned(pre.lifts@, g, dd) > 0);
                let i = choose|i: int|
                    0 <= i < pre.wait_floors@.len() && pre.wait_floors@[i].floor == g
                        && pre.wait_floors@[i].direction == dd && pre.wait_floors@[i].is_scheduled;
                assert(self.wait_floors@[i] == pre.wait_floors@[i]);
            }
        }
        assert(schedule2_commit(pre, *self, k, f, d, cmds));
    }
}

impl Default for ElevatorApp {
    /// A fresh bank: panel at floor 1, empty registry, and the configured
    /// number of resting cars at random floors.
    fn default() -> (r: Self)
        ensures
            r.wf(),
            r.floor == 1,
            r.tmp_floor == 0,
            r.wait_floors@.len() == 0,
            r.lifts@.len() == MAX_ELEVATOR_NUM,
            forall|i: int|
                0 <= i < r.lifts@.len() ==> (#[trigger] r.lifts@[i]).state == State::Stop
                    && r.lifts@[i].stops_empty(),
    {
        let mut lifts: Vec<Lift> = Vec::new();
        let mut no: usize = 0;
        while no < MAX_ELEVATOR_NUM
            invariant
                0 <= no <= MAX_ELEVATOR_NUM,
                lifts@.len() == no,
                forall|i: int|
                    0 <= i < no ==> (#[trigger] lifts@[i]).wf() && lifts@[i].no == i && lifts@[i].state
                        == State::Stop && lifts@[i].stops_empty(),
            decreases MAX_ELEVATOR_NUM - no,
        {
            lifts.push(Lift::new(no));
            no = no + 1;
        }
        let r = ElevatorApp { floor: 1, tmp_floor: 0, wait_floors: Vec::new(), lifts };
        proof {
            assert forall|f: int, d: Direction| #[trigger]
                count_assigned(r.lifts@, f, d) > 0 implies wait_has_scheduled(
                r.wait_floors@,
                f,
                d,
            ) by {
                lemma_count_zero(r.lifts@, f, d);
                assert forall|k: int| 0 <= k < r.lifts@.len() implies !(
                #[trigger] r.lifts@[k]).sched_has(f, d) by {
                    assert(r.lifts@[k].stops_empty());
                }
            }
        }
        r
    }
}

} // verus!
