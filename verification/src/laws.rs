//! The guarantees of the core, stated on their own: invariants that
//! well-formedness carries, and laws that relate successive events.

use vstd::prelude::*;
use crate::app::{
    add_wait_rel, count_assigned, dwell_rel, schedule2_commit, spec_enqueue, wait_wf, ElevatorApp,
    EnqueueResult,
};
use crate::conf::{valid_floor, MAX_WAIT_FLOOR_NUM};
use crate::floor::spec_advance_one;
use crate::floor_btn::Direction;
use crate::lift::{cabin_press_rel, commit_state, Lift};
use crate::state::{is_down_state, is_up_state, State};

verus! {

/// Every car of a well-formed bank stands at a floor within bounds and never
/// at the non-existent floor `0`.
pub proof fn lemma_car_floor_bounds(s: ElevatorApp)
    requires
        s.wf(),
    ensures
        forall|i: int|
            0 <= i < s.lifts@.len() ==> valid_floor((#[trigger] s.lifts@[i]).cur_floor as int),
{
}

/// In a well-formed bank, every stop of a car on an up run lies at or above
/// the car, and every stop of a car on a down run at or below it.
pub proof fn lemma_directed_stops(s: ElevatorApp, i: int)
    requires
        s.wf(),
        0 <= i < s.lifts@.len(),
    ensures
        is_up_state(s.lifts@[i].state) ==> forall|f: int|
            s.lifts@[i].has_stop(f) ==> f >= s.lifts@[i].cur_floor,
        is_down_state(s.lifts@[i].state) ==> forall|f: int|
            s.lifts@[i].has_stop(f) ==> f <= s.lifts@[i].cur_floor,
{
    crate::lift::lemma_members_bounded_of_directed(s.lifts@[i]);
}

/// For every scheduled hall call of a well-formed bank, exactly one car
/// carries the matching assignment.
pub proof fn lemma_scheduled_exactly_one(s: ElevatorApp, i: int)
    requires
        s.wf(),
        0 <= i < s.wait_floors@.len(),
        s.wait_floors@[i].is_scheduled,
    ensures
        exists|k: int|
            0 <= k < s.lifts@.len() && (#[trigger] s.lifts@[k]).sched_has(
                s.wait_floors@[i].floor as int,
                s.wait_floors@[i].direction,
            ),
        forall|k1: int, k2: int|
            (0 <= k1 < s.lifts@.len() && 0 <= k2 < s.lifts@.len() && (
            #[trigger] s.lifts@[k1]).sched_has(
                s.wait_floors@[i].floor as int,
                s.wait_floors@[i].direction,
            ) && (#[trigger] s.lifts@[k2]).sched_has(
                s.wait_floors@[i].floor as int,
                s.wait_floors@[i].direction,
            )) ==> k1 == k2,
{
    let f = s.wait_floors@[i].floor as int;
    let d = s.wait_floors@[i].direction;
    crate::app::lemma_count_pos(s.lifts@, f, d);
    assert forall|k1: int, k2: int|
        (0 <= k1 < s.lifts@.len() && 0 <= k2 < s.lifts@.len() && (
        #[trigger] s.lifts@[k1]).sched_has(f, d) && (#[trigger] s.lifts@[k2]).sched_has(
            f,
            d,
        )) implies k1 == k2 by {
        if k1 < k2 {
            crate::app::lemma_count_two(s.lifts@, f, d, k1, k2);
        } else if k2 < k1 {
            crate::app::lemma_count_two(s.lifts@, f, d, k2, k1);
        }
    }
}

/// Conversely, every assignment a car carries belongs to exactly one
/// outstanding scheduled hall call.
pub proof fn lemma_assignment_has_call(s: ElevatorApp, k: int, f: int, d: Direction)
    requires
        s.wf(),
        0 <= k < s.lifts@.len(),
        s.lifts@[k].sched_has(f, d),
    ensures
        crate::app::wait_has_scheduled(s.wait_floors@, f, d),
{
    crate::app::lemma_count_member(s.lifts@, f, d, k);
}

/// The registry of a well-formed bank is bounded by its capacity and never
/// holds two calls for the same floor and direction.
pub proof fn lemma_registry_bounded_unique(s: ElevatorApp)
    requires
        s.wf(),
    ensures
        s.wait_floors@.len() <= MAX_WAIT_FLOOR_NUM,
        forall|i: int, j: int|
            0 <= i < j < s.wait_floors@.len() ==> !(s.wait_floors@[i].floor
                == s.wait_floors@[j].floor && s.wait_floors@[i].direction
                == s.wait_floors@[j].direction),
{
}

/// A car whose dwell ends with nothing left in either stop set comes to
/// rest.
pub proof fn lemma_dwell_empty_rests(
    pre: ElevatorApp,
    post: ElevatorApp,
    no: int,
    cmds: Seq<crate::message::FollowUp>,
)
    requires
        pre.wf(),
        0 <= no < pre.lifts@.len(),
        dwell_rel(pre, post, no, cmds),
        pre.lifts@[no].state == State::GoingUpSuspend || pre.lifts@[no].state
            == State::GoingDownSuspend,
        post.lifts@[no].stops_empty(),
    ensures
        post.lifts@[no].state == State::Stop,
{
}

/// Registering the same hall call twice leaves the registry exactly as the
/// first call left it, whatever the first answer was.
pub proof fn lemma_enqueue_idempotent(
    q: Seq<crate::floor_btn::WaitFloorTxtState>,
    f: crate::conf::TFloor,
    d: Direction,
)
    ensures
        spec_enqueue(spec_enqueue(q, f, d).0, f, d).0 == spec_enqueue(q, f, d).0,
        spec_enqueue(q, f, d).1 == EnqueueResult::Accepted ==> spec_enqueue(
            spec_enqueue(q, f, d).0,
            f,
            d,
        ).1 != EnqueueResult::Accepted,
{
    let q1 = spec_enqueue(q, f, d).0;
    if spec_enqueue(q, f, d).1 == EnqueueResult::Accepted {
        assert(q1[q1.len() - 1].floor == f && q1[q1.len() - 1].direction == d);
        assert(crate::app::wait_has(q1, f as int, d));
    }
}

/// Pressing the same cabin button twice in a running car with another
/// destination still ahead is a net no-op: the second press toggles the
/// first one off and nothing else of the car changed.
pub proof fn lemma_cabin_press_twice(l0: Lift, l1: Lift, l2: Lift, f: int, acc2: bool)
    requires
        l0.wf(),
        cabin_press_rel(l0, l1, f, true),
        cabin_press_rel(l1, l2, f, acc2),
        is_up_state(l0.state) || is_down_state(l0.state),
        l0.can_click_btn,
        !l0.cabin_has(f),
        !(l0.stop_floors@.len() == 0 && l0.schedule_floors@.len() == 0),
    ensures
        acc2,
        forall|g: int| l2.cabin_has(g) <==> l0.cabin_has(g),
        l2.state == l0.state,
        l2.cur_floor == l0.cur_floor,
        l2.persons == l0.persons,
        l2.can_click_btn == l0.can_click_btn,
        l2.schedule_floors@ == l0.schedule_floors@,
{
    assert(valid_floor(f));
    assert(l1.cabin_has(f));
    // The second press is not a refused last-destination removal: either an
    // assigned stop remains, or a second cabin stop besides `f` does.
    assert(!(l1.stop_floors@.len() == 1 && l1.schedule_floors@.len() == 0)) by {
        if l1.stop_floors@.len() == 1 && l1.schedule_floors@.len() == 0 {
            let g = l0.stop_floors@[0];
            assert(l0.cabin_has(g as int));
            assert(l1.cabin_has(g as int));
            let i1 = choose|i: int| 0 <= i < l1.stop_floors@.len() && l1.stop_floors@[i] == g;
            let i2 = choose|i: int| 0 <= i < l1.stop_floors@.len() && l1.stop_floors@[i] == f;
            assert(i1 == 0 && i2 == 0);
            assert(g as int == f);
        }
    }
}

/// A hall call at a resting car's own floor sends that car straight into the
/// matching dwell state: the doors open with no traversal step.
pub proof fn lemma_call_at_own_floor_dwells(
    pre: ElevatorApp,
    post: ElevatorApp,
    k: int,
    f: int,
    d: Direction,
    cmds: Seq<crate::message::FollowUp>,
)
    requires
        pre.wf(),
        0 <= k < pre.lifts@.len(),
        schedule2_commit(pre, post, k, f, d, cmds),
        pre.lifts@[k].state == State::Stop,
        pre.lifts@[k].cur_floor as int == f,
    ensures
        post.lifts@[k].state == (match d {
            Direction::Up => State::GoingUpSuspend,
            Direction::Down => State::GoingDownSuspend,
        }),
        cmds.len() == 1,
        cmds[0].delay_ms as int == crate::conf::EVERY_FLOOR_RUN_TIME_IN_MILLISECONDS as int
            + crate::conf::SUSPEND_WAIT_IN_MILLISECONDS as int,
{
    assert(post.lifts@[k].state == commit_state(State::Stop, pre.lifts@[k].cur_floor, f, d));
}

/// Moving up from floor `-1` lands on `+1`, and moving down from `+1` lands
/// on `-1`: there is no floor `0`.
pub proof fn lemma_zero_floor_skipped()
    ensures
        spec_advance_one(-1, true) == 1,
        spec_advance_one(1, false) == -1,
{
}

/// A hall call accepted while no car is eligible stays in the registry,
/// un-scheduled, for a later sweep.
pub proof fn lemma_no_candidate_keeps_call(
    pre: ElevatorApp,
    post: ElevatorApp,
    d: Direction,
    r: EnqueueResult,
    cmds: Seq<crate::message::FollowUp>,
)
    requires
        pre.wf(),
        add_wait_rel(pre, post, d, r, cmds),
        r == EnqueueResult::Accepted,
        forall|k: int|
            0 <= k < pre.lifts@.len() ==> !crate::app::is_candidate(
                #[trigger] pre.lifts@[k],
                pre.floor as int,
                d,
            ),
    ensures
        crate::app::wait_has_unscheduled(post.wait_floors@, pre.floor as int, d),
        post.lifts@ == pre.lifts@,
{
    let mid = choose|mid: ElevatorApp|
        {
            &&& (#[trigger] mid.lifts@) == pre.lifts@
            &&& mid.wait_floors@ == spec_enqueue(pre.wait_floors@, pre.floor, d).0
            &&& valid_floor(mid.floor as int)
            &&& mid.floor != pre.floor
            &&& mid.tmp_floor == mid.floor
            &&& crate::app::schedule2_rel(mid, post, pre.floor as int, d, cmds)
        };
    let q1 = spec_enqueue(pre.wait_floors@, pre.floor, d).0;
    assert(q1[q1.len() - 1].floor == pre.floor && q1[q1.len() - 1].direction == d && !q1[q1.len()
        - 1].is_scheduled);
    assert(crate::app::wait_has_unscheduled(mid.wait_floors@, pre.floor as int, d));
    assert(!(exists|k: int|
        0 <= k < mid.lifts@.len() && crate::app::is_candidate(
            #[trigger] mid.lifts@[k],
            pre.floor as int,
            d,
        )));
}

} // verus!
