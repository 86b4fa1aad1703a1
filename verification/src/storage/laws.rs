//! What holds of the store across operations.

use super::memory_store::{
    lists_robots, lists_tasks, moved, robot_numbers, task_id_numbers, task_numbers, trail_after,
    StoreError, StoreView, TrailPoint,
};
use super::tables::enumerates;
use crate::domain::{
    Heartbeat, Location, NodeId, RobotId, RobotStatus, RobotView, TaskId, TaskStatus, TaskView,
};
use vstd::prelude::*;

verus! {

/// One operation on a store.
pub enum StoreStep {
    Register { state: RobotView },
    Heartbeat { hb: Heartbeat },
    Submit { work: TaskView },
    Assign { robot: RobotId, task: TaskId, target: Option<NodeId>, route: Seq<NodeId>, now: u64 },
    Complete { robot: RobotId, task: TaskId },
    Unassign { robot: RobotId, task: TaskId },
    Parole { robot: RobotId, task: TaskId },
    Reclaim { now: u64, timeout_ms: u64, max_retries: u8 },
    Evict { now: u64, timeout_ms: u64 },
}

/// The contents of a store after an operation.
pub open spec fn after(v: StoreView, step: StoreStep) -> StoreView {
    match step {
        StoreStep::Register { state } => v.registered(state),
        StoreStep::Heartbeat { hb } => if v.robots.contains_key(hb.id.0) {
            v.heard(hb)
        } else {
            v
        },
        StoreStep::Submit { work } => v.submitted(work),
        StoreStep::Assign { robot, task, target, route, now } => v.assigned(
            robot,
            task,
            target,
            route,
            now,
        ),
        StoreStep::Complete { robot, task } => if v.tasks.contains_key(task.0) {
            v.completed(robot, task)
        } else {
            v
        },
        StoreStep::Unassign { robot, task } => v.unassigned(robot, task),
        StoreStep::Parole { robot, task } => v.paroled(robot, task),
        StoreStep::Reclaim { now, timeout_ms, max_retries } => v.reclaimed(
            now,
            timeout_ms,
            max_retries,
        ),
        StoreStep::Evict { now, timeout_ms } => v.evicted(now, timeout_ms),
    }
}

/// Whether a robot that is not busy has no task, no target and no route, and whether it has a
/// task if it has a target.
pub open spec fn unbound_unless_busy(r: RobotView) -> bool {
    &&& r.status == RobotStatus::Busy || (r.current_task is None && r.target is None
        && r.route.len() == 0)
    &&& r.target is Some ==> r.current_task is Some
}

/// Whether only busy robots are bound to a task, a target or a route, and a target comes with
/// a task.
pub open spec fn orderly(v: StoreView) -> bool {
    forall|k: u64| #[trigger] v.robots.contains_key(k) ==> unbound_unless_busy(v.robots[k])
}

/// Every operation keeps a store well-formed.
pub proof fn law_operations_keep_the_store_well_formed(v: StoreView, step: StoreStep)
    requires
        v.wf(),
    ensures
        after(v, step).wf(),
{
}

/// Only busy robots have a task, a target or a route, and a target comes with a task: no
/// operation changes that, as long as robots come online that way.
pub proof fn law_only_busy_robots_are_bound(v: StoreView, step: StoreStep)
    requires
        orderly(v),
        step matches StoreStep::Register { state } ==> unbound_unless_busy(state),
    ensures
        orderly(after(v, step)),
{
}

/// Robots never jump: apart from coming online and from its own heartbeat, no operation
/// changes where a robot is.
pub proof fn law_only_heartbeats_move_robots(v: StoreView, step: StoreStep, robot: u64)
    requires
        v.robots.contains_key(robot),
        step matches StoreStep::Register { state } ==> state.id.0 != robot,
        step matches StoreStep::Heartbeat { hb } ==> hb.id.0 != robot,
    ensures
        after(v, step).robots.contains_key(robot),
        after(v, step).robots[robot].location == v.robots[robot].location,
{
}

/// A heartbeat leaves the task, the target and the route of a robot alone, and never makes a
/// busy robot anything else.
pub proof fn law_heartbeats_do_not_disturb_assignments(v: StoreView, hb: Heartbeat, robot: u64)
    requires
        v.robots.contains_key(hb.id.0),
        v.robots.contains_key(robot),
    ensures
        v.heard(hb).robots[robot].current_task == v.robots[robot].current_task,
        v.heard(hb).robots[robot].target == v.robots[robot].target,
        v.heard(hb).robots[robot].route == v.robots[robot].route,
        v.robots[robot].status == RobotStatus::Busy ==> v.heard(hb).robots[robot].status
            == RobotStatus::Busy,
        v.heard(hb).tasks == v.tasks,
{
}

/// Rolling back an assignment restores both tables: the robot is as before, and so is the
/// task.
pub proof fn law_unassign_undoes_assign(
    v: StoreView,
    robot: RobotId,
    task: TaskId,
    target: Option<NodeId>,
    route: Seq<NodeId>,
    now: u64,
)
    requires
        unbound_unless_busy(v.robots[robot.0]),
        v.assign_error(robot, task) is None,
        !v.robots[robot.0].carrying,
        v.tasks[task.0].status == TaskStatus::Pending,
        v.tasks[task.0].assigned_robot is None,
        v.tasks[task.0].assigned_at == 0,
    ensures
        v.assigned(robot, task, target, route, now).unassigned(robot, task).robots == v.robots,
        v.assigned(robot, task, target, route, now).unassigned(robot, task).tasks == v.tasks,
{
    let w = v.assigned(robot, task, target, route, now).unassigned(robot, task);
    let r = v.robots[robot.0];
    assert(w.robots[robot.0].route =~= r.route);
    assert(w.robots[robot.0] =~= r);
    assert(w.robots =~= v.robots);
    assert(w.tasks[task.0] =~= v.tasks[task.0]);
    assert(w.tasks =~= v.tasks);
}

/// Parole is the rollback of an assignment, and is counted.
pub proof fn law_parole_is_a_counted_unassign(v: StoreView, robot: RobotId, task: TaskId)
    ensures
        v.paroled(robot, task).robots == v.unassigned(robot, task).robots,
        v.paroled(robot, task).tasks == v.unassigned(robot, task).tasks,
        v.deadlock_resolved < u64::MAX ==> v.paroled(robot, task).deadlock_resolved
            == v.deadlock_resolved + 1,
{
}

/// After tasks were taken back, none hangs any more.
pub proof fn law_reclaim_leaves_nothing_hanging(
    v: StoreView,
    now: u64,
    timeout_ms: u64,
    max_retries: u8,
    task: u64,
)
    ensures
        !v.reclaimed(now, timeout_ms, max_retries).hangs(task, now, timeout_ms),
{
}

/// Taking back a task never loses it: it waits again, or has been tried `max_retries` times
/// and is given up; and it is never tried more often than that.
pub proof fn law_reclaimed_tasks_wait_or_fail(
    v: StoreView,
    now: u64,
    timeout_ms: u64,
    max_retries: u8,
    task: u64,
)
    requires
        v.hangs(task, now, timeout_ms),
    ensures
        ({
            let t = v.reclaimed(now, timeout_ms, max_retries).tasks[task];
            &&& v.reclaimed(now, timeout_ms, max_retries).tasks.contains_key(task)
            &&& t.assigned_robot is None
            &&& v.tasks[task].retry_count < max_retries ==> t.status == TaskStatus::Pending
                && t.retry_count == v.tasks[task].retry_count + 1 && t.retry_count <= max_retries
            &&& v.tasks[task].retry_count >= max_retries ==> t.status == TaskStatus::Failed
                && t.retry_count == v.tasks[task].retry_count
        }),
{
}

/// A robot whose task is taken back is free for another one, unless it is offline.
pub proof fn law_reclaim_frees_robots(
    v: StoreView,
    now: u64,
    timeout_ms: u64,
    max_retries: u8,
    robot: u64,
)
    requires
        v.robots.contains_key(robot),
        v.held_up(robot, now, timeout_ms),
    ensures
        ({
            let r = v.reclaimed(now, timeout_ms, max_retries).robots[robot];
            &&& r.current_task is None
            &&& r.target is None
            &&& r.route.len() == 0
            &&& r.status == RobotStatus::Idle || r.status == RobotStatus::Offline
        }),
{
}

/// After an eviction no robot is silent without being offline.
pub proof fn law_eviction_leaves_nobody_silent(v: StoreView, now: u64, timeout_ms: u64)
    ensures
        v.evicted(now, timeout_ms).silent(now, timeout_ms) == Set::<u64>::empty(),
        v.evicted(now, timeout_ms).evicted(now, timeout_ms) == v.evicted(now, timeout_ms),
{
    let w = v.evicted(now, timeout_ms);
    assert(w.silent(now, timeout_ms) =~= Set::empty());
    assert(w.evicted(now, timeout_ms).robots =~= w.robots);
}

/// The task of a robot that goes offline hangs from then on, whatever the timeout, so the next
/// round takes it back.
pub proof fn law_an_offline_robot_loses_its_task(
    v: StoreView,
    now: u64,
    timeout_ms: u64,
    robot: RobotId,
    task: u64,
    later: u64,
    task_timeout_ms: u64,
)
    requires
        v.silent(now, timeout_ms).contains(robot.0),
        v.tasks.contains_key(task),
        v.tasks[task].status == TaskStatus::Assigned,
        v.tasks[task].assigned_robot == Some(robot),
    ensures
        v.evicted(now, timeout_ms).hangs(task, later, task_timeout_ms),
{
}

/// Whether a point of a trail is another place than the next one.
pub open spec fn moves_on(trail: Seq<TrailPoint>, i: int) -> bool {
    moved(trail[i].1, trail[i + 1].1)
}

/// Whether each point of a trail is another place than the one before.
pub open spec fn without_pauses(trail: Seq<TrailPoint>) -> bool {
    forall|i: int| 0 <= i < trail.len() - 1 ==> #[trigger] moves_on(trail, i)
}

/// A trail records no place twice in a row, holds no more than its capacity, and ends within
/// the noise of the last report.
pub proof fn law_trails_record_movement(trail: Seq<TrailPoint>, t: u64, location: Location)
    requires
        without_pauses(trail),
        trail.len() <= super::memory_store::TRAIL_CAPACITY,
    ensures
        without_pauses(trail_after(trail, t, location)),
        0 < trail_after(trail, t, location).len() <= super::memory_store::TRAIL_CAPACITY,
        !moved(trail_after(trail, t, location).last().1, location),
{
    let longer = trail.push((t, location));
    let out = trail_after(trail, t, location);
    if !(trail.len() > 0 && !moved(trail.last().1, location)) {
        assert forall|i: int| 0 <= i < out.len() - 1 implies #[trigger] moves_on(out, i) by {
            let d = longer.len() - out.len();
            assert(out[i] == longer[i + d]);
            assert(out[i + 1] == longer[i + 1 + d]);
            if i + 1 + d < trail.len() {
                assert(moves_on(trail, i + d));
            }
        }
        assert(out.last() == longer.last());
    }
}

// ---------------------------------------------------------------- each operation in its fields
/// Coming online puts the robot into the store as it is, and touches no other robot, no task
/// and no counter.
pub proof fn law_registration_adds_the_robot(v: StoreView, r: RobotView, other: u64)
    ensures
        v.registered(r).robots.contains_key(r.id.0),
        v.registered(r).robots[r.id.0] == r,
        other != r.id.0 ==> (v.registered(r).robots.contains_key(other) <==> v.robots.contains_key(
            other,
        )),
        other != r.id.0 && v.robots.contains_key(other) ==> v.registered(r).robots[other]
            == v.robots[other],
        v.registered(r).tasks == v.tasks,
        same_counters(v, v.registered(r)),
        v.registered(r).trail(r.id).len() > 0,
{
}

/// Whether all counters of two stores are equal.
pub open spec fn same_counters(a: StoreView, b: StoreView) -> bool {
    &&& a.heartbeat_count == b.heartbeat_count
    &&& a.task_submit_count == b.task_submit_count
    &&& a.assigned_count == b.assigned_count
    &&& a.completed_count == b.completed_count
    &&& a.deadlock_resolved == b.deadlock_resolved
    &&& a.task_retried == b.task_retried
    &&& a.task_failed == b.task_failed
}

/// A heartbeat says how its robot is: after it the store has the place, the charge, the load
/// and the time of the report, and the status too unless the robot is busy. A robot that
/// reports that it charges or is out of order can be given no task.
pub proof fn law_heartbeats_tell_how_a_robot_is(
    v: StoreView,
    hb: Heartbeat,
    now: u64,
    timeout_ms: u64,
)
    requires
        v.robots.contains_key(hb.id.0),
    ensures
        ({
            let before = v.robots[hb.id.0];
            let after = v.heard(hb).robots[hb.id.0];
            &&& v.heard(hb).robots.contains_key(hb.id.0)
            &&& after.location == hb.location
            &&& after.battery == hb.battery
            &&& after.carrying == hb.carrying
            &&& after.last_heartbeat == hb.timestamp
            &&& before.status == RobotStatus::Busy ==> after.status == RobotStatus::Busy
            &&& before.status != RobotStatus::Busy ==> after.status == hb.status
            &&& before.location.node == hb.location.node ==> after.last_change_ms
                == before.last_change_ms
            &&& before.location.node != hb.location.node ==> after.last_change_ms == hb.timestamp
            &&& after.id == before.id
            &&& after.current_task == before.current_task
            &&& after.target == before.target
            &&& after.route == before.route
            &&& v.heard(hb).tasks == v.tasks
            &&& before.status != RobotStatus::Busy && hb.status != RobotStatus::Idle ==> !v.heard(
                hb,
            ).available(now, timeout_ms).contains(hb.id.0)
            &&& before.status != RobotStatus::Busy && hb.status == RobotStatus::Idle && now
                <= hb.timestamp + timeout_ms ==> v.heard(hb).available(now, timeout_ms).contains(
                hb.id.0,
            )
        }),
{
}

/// A heartbeat is counted, and concerns nobody but its robot.
pub proof fn law_heartbeats_concern_their_robot(v: StoreView, hb: Heartbeat, other: u64)
    requires
        v.robots.contains_key(hb.id.0),
        other != hb.id.0,
    ensures
        v.heard(hb).robots.contains_key(other) <==> v.robots.contains_key(other),
        v.robots.contains_key(other) ==> v.heard(hb).robots[other] == v.robots[other],
        v.heard(hb).trails.contains_key(other) <==> v.trails.contains_key(other),
        v.trails.contains_key(other) ==> v.heard(hb).trails[other] == v.trails[other],
        v.heartbeat_count < u64::MAX ==> v.heard(hb).heartbeat_count == v.heartbeat_count + 1,
        same_counters(StoreView { heartbeat_count: v.heard(hb).heartbeat_count, ..v }, v.heard(hb)),
{
}

/// A task that is handed in is in the store as it is, is counted, and touches nothing else.
pub proof fn law_submission_adds_the_task(v: StoreView, t: TaskView, other: u64)
    ensures
        v.submitted(t).tasks.contains_key(t.id.0),
        v.submitted(t).tasks[t.id.0] == t,
        other != t.id.0 ==> (v.submitted(t).tasks.contains_key(other) <==> v.tasks.contains_key(
            other,
        )),
        other != t.id.0 && v.tasks.contains_key(other) ==> v.submitted(t).tasks[other]
            == v.tasks[other],
        v.submitted(t).robots == v.robots,
        v.submitted(t).trails == v.trails,
        v.task_submit_count < u64::MAX ==> v.submitted(t).task_submit_count == v.task_submit_count
            + 1,
        same_counters(
            StoreView { task_submit_count: v.submitted(t).task_submit_count, ..v },
            v.submitted(t),
        ),
{
}

/// A task can be given to a robot if and only if both are known and the robot is idle; the
/// first of these that fails is the reason.
pub proof fn law_only_idle_robots_take_known_tasks(v: StoreView, robot: RobotId, task: TaskId)
    ensures
        v.assign_error(robot, task) is None <==> v.robots.contains_key(robot.0)
            && v.robots[robot.0].status == RobotStatus::Idle && v.tasks.contains_key(task.0),
        !v.robots.contains_key(robot.0) ==> v.assign_error(robot, task) == Some(
            StoreError::RobotNotFound(robot),
        ),
        v.robots.contains_key(robot.0) && v.robots[robot.0].status != RobotStatus::Idle
            ==> v.assign_error(robot, task) == Some(StoreError::RobotNotAvailable(robot)),
        v.robots.contains_key(robot.0) && v.robots[robot.0].status == RobotStatus::Idle
            && !v.tasks.contains_key(task.0) ==> v.assign_error(robot, task) == Some(
            StoreError::TaskNotFound(task),
        ),
{
}

/// An assignment binds the robot to the task, the target and the route, and the task to the
/// robot; it is counted, and an assignment that fails changes nothing.
pub proof fn law_assignment_binds_robot_and_task(
    v: StoreView,
    robot: RobotId,
    task: TaskId,
    target: Option<NodeId>,
    route: Seq<NodeId>,
    now: u64,
    other: u64,
)
    ensures
        ({
            let w = v.assigned(robot, task, target, route, now);
            let possible = v.robots.contains_key(robot.0) && v.robots[robot.0].status
                == RobotStatus::Idle && v.tasks.contains_key(task.0);
            &&& !possible ==> w == v
            &&& possible ==> {
                let (r0, r) = (v.robots[robot.0], w.robots[robot.0]);
                let (t0, t) = (v.tasks[task.0], w.tasks[task.0]);
                &&& w.robots.contains_key(robot.0)
                &&& r.status == RobotStatus::Busy
                &&& r.current_task == Some(task)
                &&& r.target == target
                &&& r.route == route
                &&& r.location == r0.location
                &&& r.battery == r0.battery
                &&& r.carrying == r0.carrying
                &&& r.last_heartbeat == r0.last_heartbeat
                &&& r.last_change_ms == r0.last_change_ms
                &&& r.id == r0.id
                &&& t.id == t0.id
                &&& w.tasks.contains_key(task.0)
                &&& t.status == TaskStatus::Assigned
                &&& t.assigned_robot == Some(robot)
                &&& t.assigned_at == now
                &&& t.kind == t0.kind
                &&& t.priority == t0.priority
                &&& t.created_at == t0.created_at
                &&& t.retry_count == t0.retry_count
                &&& v.assigned_count < u64::MAX ==> w.assigned_count == v.assigned_count + 1
            }
            &&& other != robot.0 ==> (w.robots.contains_key(other) <==> v.robots.contains_key(
                other,
            ))
            &&& other != robot.0 && v.robots.contains_key(other) ==> w.robots[other]
                == v.robots[other]
            &&& other != task.0 ==> (w.tasks.contains_key(other) <==> v.tasks.contains_key(other))
            &&& other != task.0 && v.tasks.contains_key(other) ==> w.tasks[other] == v.tasks[other]
            &&& w.trails == v.trails
            &&& same_counters(StoreView { assigned_count: w.assigned_count, ..v }, w)
        }),
{
}

/// A task that is reported as done is completed, its robot is idle and free, and nothing else
/// changes but the count.
pub proof fn law_completion_frees_the_robot(
    v: StoreView,
    robot: RobotId,
    task: TaskId,
    other: u64,
)
    requires
        v.tasks.contains_key(task.0),
    ensures
        ({
            let w = v.completed(robot, task);
            &&& w.tasks.contains_key(task.0)
            &&& w.tasks[task.0].status == TaskStatus::Completed
            &&& w.tasks[task.0].kind == v.tasks[task.0].kind
            &&& w.tasks[task.0].assigned_robot == v.tasks[task.0].assigned_robot
            &&& w.tasks[task.0].retry_count == v.tasks[task.0].retry_count
            &&& w.tasks[task.0].id == v.tasks[task.0].id
            &&& w.tasks[task.0].priority == v.tasks[task.0].priority
            &&& w.tasks[task.0].created_at == v.tasks[task.0].created_at
            &&& w.tasks[task.0].assigned_at == v.tasks[task.0].assigned_at
            &&& w.trails == v.trails
            &&& v.robots.contains_key(robot.0) ==> {
                let r = w.robots[robot.0];
                &&& w.robots.contains_key(robot.0)
                &&& r.status == RobotStatus::Idle
                &&& r.current_task is None
                &&& r.target is None
                &&& r.route.len() == 0
                &&& !r.carrying
                &&& r.id == v.robots[robot.0].id
                &&& r.location == v.robots[robot.0].location
                &&& r.battery == v.robots[robot.0].battery
                &&& r.last_heartbeat == v.robots[robot.0].last_heartbeat
                &&& r.last_change_ms == v.robots[robot.0].last_change_ms
            }
            &&& other != robot.0 || !v.robots.contains_key(robot.0) ==> (w.robots.contains_key(
                other,
            ) <==> v.robots.contains_key(other))
            &&& other != robot.0 && v.robots.contains_key(other) ==> w.robots[other]
                == v.robots[other]
            &&& other != task.0 ==> (w.tasks.contains_key(other) <==> v.tasks.contains_key(other))
            &&& other != task.0 && v.tasks.contains_key(other) ==> w.tasks[other] == v.tasks[other]
            &&& v.completed_count < u64::MAX ==> w.completed_count == v.completed_count + 1
            &&& same_counters(StoreView { completed_count: w.completed_count, ..v }, w)
        }),
{
}

/// A rollback leaves the robot free, idle if it was busy, and the task waiting and given to
/// nobody; it concerns no other robot and no other task.
pub proof fn law_rollback_frees_robot_and_task(
    v: StoreView,
    robot: RobotId,
    task: TaskId,
    other: u64,
)
    ensures
        ({
            let w = v.unassigned(robot, task);
            &&& v.robots.contains_key(robot.0) ==> {
                let (r0, r) = (v.robots[robot.0], w.robots[robot.0]);
                &&& w.robots.contains_key(robot.0)
                &&& r0.status == RobotStatus::Busy ==> r.status == RobotStatus::Idle
                &&& r0.status != RobotStatus::Busy ==> r.status == r0.status
                &&& r.current_task is None
                &&& r.target is None
                &&& r.route.len() == 0
                &&& !r.carrying
                &&& r.location == r0.location
                &&& r.battery == r0.battery
                &&& r.last_heartbeat == r0.last_heartbeat
                &&& r.last_change_ms == r0.last_change_ms
                &&& r.id == r0.id
            }
            &&& w.trails == v.trails
            &&& v.tasks.contains_key(task.0) ==> {
                let (t0, t) = (v.tasks[task.0], w.tasks[task.0]);
                &&& w.tasks.contains_key(task.0)
                &&& t.status == TaskStatus::Pending
                &&& t.assigned_robot is None
                &&& t.assigned_at == 0
                &&& t.kind == t0.kind
                &&& t.priority == t0.priority
                &&& t.created_at == t0.created_at
                &&& t.retry_count == t0.retry_count
                &&& t.id == t0.id
            }
            &&& other != robot.0 ==> (w.robots.contains_key(other) <==> v.robots.contains_key(
                other,
            ))
            &&& other != robot.0 && v.robots.contains_key(other) ==> w.robots[other]
                == v.robots[other]
            &&& other != task.0 ==> (w.tasks.contains_key(other) <==> v.tasks.contains_key(other))
            &&& other != task.0 && v.tasks.contains_key(other) ==> w.tasks[other] == v.tasks[other]
            &&& same_counters(v, w)
        }),
{
}

/// Whether nobody is there for a task that was given to `robot`: the robot is unknown or
/// offline, or its last heartbeat is older than the timeout.
pub open spec fn nobody_there(
    robots: Map<u64, RobotView>,
    robot: Option<RobotId>,
    now: u64,
    timeout_ms: u64,
) -> bool {
    match robot {
        None => true,
        Some(id) => !robots.contains_key(id.0) || robots[id.0].status == RobotStatus::Offline || now
            > robots[id.0].last_heartbeat + timeout_ms,
    }
}

/// A task that was given out longer ago than the timeout is taken back, whatever its robot
/// does: it waits again or is given up, belongs to nobody, and is listed as the one or the
/// other.
pub proof fn law_tasks_that_take_too_long_are_taken_back(
    v: StoreView,
    now: u64,
    timeout_ms: u64,
    max_retries: u8,
    task: u64,
)
    requires
        v.tasks.contains_key(task),
        v.tasks[task].status == TaskStatus::Assigned || v.tasks[task].status
            == TaskStatus::Executing,
        v.tasks[task].assigned_at != 0,
        now > v.tasks[task].assigned_at + timeout_ms,
    ensures
        ({
            let t = v.reclaimed(now, timeout_ms, max_retries).tasks[task];
            &&& t.assigned_robot is None
            &&& t.assigned_at == 0
            &&& v.tasks[task].retry_count < max_retries ==> {
                &&& t.status == TaskStatus::Pending
                &&& t.retry_count == v.tasks[task].retry_count + 1
                &&& v.requeued(now, timeout_ms, max_retries).contains(task)
                &&& !v.given_up(now, timeout_ms, max_retries).contains(task)
            }
            &&& v.tasks[task].retry_count >= max_retries ==> {
                &&& t.status == TaskStatus::Failed
                &&& t.retry_count == v.tasks[task].retry_count
                &&& v.given_up(now, timeout_ms, max_retries).contains(task)
                &&& !v.requeued(now, timeout_ms, max_retries).contains(task)
            }
        }),
{
}

/// A task whose robot is gone is taken back, however short the time since it was given out.
pub proof fn law_tasks_of_lost_robots_are_taken_back(
    v: StoreView,
    now: u64,
    timeout_ms: u64,
    max_retries: u8,
    task: u64,
)
    requires
        v.tasks.contains_key(task),
        v.tasks[task].status == TaskStatus::Assigned || v.tasks[task].status
            == TaskStatus::Executing,
        nobody_there(v.robots, v.tasks[task].assigned_robot, now, timeout_ms),
    ensures
        ({
            let t = v.reclaimed(now, timeout_ms, max_retries).tasks[task];
            &&& t.assigned_robot is None
            &&& t.assigned_at == 0
            &&& v.tasks[task].retry_count < max_retries ==> {
                &&& t.status == TaskStatus::Pending
                &&& t.retry_count == v.tasks[task].retry_count + 1
                &&& v.requeued(now, timeout_ms, max_retries).contains(task)
            }
            &&& v.tasks[task].retry_count >= max_retries ==> {
                &&& t.status == TaskStatus::Failed
                &&& v.given_up(now, timeout_ms, max_retries).contains(task)
            }
        }),
{
}

/// A task that nobody works on, or that a robot has had no longer than the timeout and that is
/// heard of, is left alone, and is listed nowhere.
pub proof fn law_tasks_on_time_are_left_alone(
    v: StoreView,
    now: u64,
    timeout_ms: u64,
    max_retries: u8,
    task: u64,
)
    requires
        v.tasks.contains_key(task),
        (v.tasks[task].status != TaskStatus::Assigned && v.tasks[task].status
            != TaskStatus::Executing) || ((v.tasks[task].assigned_at == 0 || now
            <= v.tasks[task].assigned_at + timeout_ms) && !nobody_there(
            v.robots,
            v.tasks[task].assigned_robot,
            now,
            timeout_ms,
        )),
    ensures
        v.reclaimed(now, timeout_ms, max_retries).tasks[task] == v.tasks[task],
        !v.requeued(now, timeout_ms, max_retries).contains(task),
        !v.given_up(now, timeout_ms, max_retries).contains(task),
{
}

/// Taking back a task frees the robot that is bound to it and has been given it, which is then
/// idle unless it is offline; every other robot stays as it is, and no robot and no task comes
/// or goes.
pub proof fn law_taking_back_concerns_the_bound_robot(
    v: StoreView,
    now: u64,
    timeout_ms: u64,
    max_retries: u8,
    robot: u64,
    task: TaskId,
)
    requires
        v.robots.contains_key(robot),
        v.wf(),
    ensures
        ({
            let w = v.reclaimed(now, timeout_ms, max_retries);
            let (r0, r) = (v.robots[robot], w.robots[robot]);
            let mine = r0.current_task == Some(task) && v.tasks.contains_key(task.0)
                && v.tasks[task.0].assigned_robot == Some(RobotId(robot));
            let taken = v.requeued(now, timeout_ms, max_retries).contains(task.0) || v.given_up(
                now,
                timeout_ms,
                max_retries,
            ).contains(task.0);
            &&& w.robots.contains_key(robot)
            &&& mine && taken ==> {
                &&& r.current_task is None
                &&& r.target is None
                &&& r.route.len() == 0
                &&& !r.carrying
                &&& r0.status == RobotStatus::Offline ==> r.status == RobotStatus::Offline
                &&& r0.status != RobotStatus::Offline ==> r.status == RobotStatus::Idle
                &&& r.location == r0.location
                &&& r.battery == r0.battery
                &&& r.last_heartbeat == r0.last_heartbeat
                &&& r.last_change_ms == r0.last_change_ms
                &&& r.id == r0.id
            }
            &&& mine && !taken ==> r == r0
            &&& r0.current_task == Some(task) && !mine ==> r == r0
            &&& r0.current_task is None ==> r == r0
            &&& w.robots.dom() == v.robots.dom()
            &&& w.tasks.dom() == v.tasks.dom()
            &&& w.trails == v.trails
        }),
{
    let w = v.reclaimed(now, timeout_ms, max_retries);
    assert(w.robots.dom() =~= v.robots.dom());
    assert(w.tasks.dom() =~= v.tasks.dom());
}

/// Every task that is taken back is counted, once, as tried again or as given up.
pub proof fn law_tasks_taken_back_are_counted(
    v: StoreView,
    now: u64,
    timeout_ms: u64,
    max_retries: u8,
)
    ensures
        ({
            let w = v.reclaimed(now, timeout_ms, max_retries);
            let again = v.requeued(now, timeout_ms, max_retries).len();
            let never = v.given_up(now, timeout_ms, max_retries).len();
            &&& v.task_retried + again <= u64::MAX ==> w.task_retried == v.task_retried + again
            &&& v.task_failed + never <= u64::MAX ==> w.task_failed == v.task_failed + never
            &&& same_counters(
                StoreView { task_retried: w.task_retried, task_failed: w.task_failed, ..v },
                w,
            )
        }),
{
}

/// A robot that was not heard of for longer than the timeout goes offline and is bound to
/// nothing any more; one that was heard of in time stays as it is. Tasks are left alone.
pub proof fn law_silent_robots_go_offline(v: StoreView, now: u64, timeout_ms: u64, robot: u64)
    requires
        v.robots.contains_key(robot),
    ensures
        ({
            let w = v.evicted(now, timeout_ms);
            let (r0, r) = (v.robots[robot], w.robots[robot]);
            &&& w.robots.contains_key(robot)
            &&& now > r0.last_heartbeat + timeout_ms && r0.status != RobotStatus::Offline ==> {
                &&& r.status == RobotStatus::Offline
                &&& r.current_task is None
                &&& r.target is None
                &&& r.route.len() == 0
                &&& !r.carrying
                &&& r.location == r0.location
                &&& r.last_heartbeat == r0.last_heartbeat
                &&& v.silent(now, timeout_ms).contains(robot)
            }
            &&& now <= r0.last_heartbeat + timeout_ms || r0.status == RobotStatus::Offline ==> {
                &&& r == r0
                &&& !v.silent(now, timeout_ms).contains(robot)
            }
            &&& w.tasks == v.tasks
            &&& same_counters(v, w)
        }),
{
}

/// A robot can be given a task if and only if it is known, idle, and was heard of in time; it
/// is online unless it is offline; and a task waits if and only if it is pending.
pub proof fn law_who_is_free_and_what_waits(
    v: StoreView,
    now: u64,
    timeout_ms: u64,
    robot: u64,
    task: u64,
)
    ensures
        v.available(now, timeout_ms).contains(robot) <==> v.robots.contains_key(robot)
            && v.robots[robot].status == RobotStatus::Idle && now <= v.robots[robot].last_heartbeat
            + timeout_ms,
        v.online().contains(robot) <==> v.robots.contains_key(robot) && v.robots[robot].status
            != RobotStatus::Offline,
        v.pending().contains(task) <==> v.tasks.contains_key(task) && v.tasks[task].status
            == TaskStatus::Pending,
{
}

/// A report from another node, or from more than a hundredth of a metre away, is a new point of
/// the trail; any other report leaves the trail alone. A trail has at most 64 points, and what
/// it loses is its oldest point.
pub proof fn law_trails_hold_the_last_places(trail: Seq<TrailPoint>, t: u64, location: Location)
    requires
        trail.len() <= 64,
    ensures
        ({
            let after = trail_after(trail, t, location);
            let last = trail.last().1;
            let still = trail.len() > 0 && last.node == location.node && -655 <= last.x - location.x
                <= 655 && -655 <= last.y - location.y <= 655;
            &&& still ==> after == trail
            &&& !still ==> after.last() == (t, location)
            &&& !still && trail.len() < 64 ==> after == trail.push((t, location))
            &&& !still && trail.len() == 64 ==> after == trail.push((t, location)).skip(1)
        }),
{
}

/// The trail of a robot grows with its heartbeats.
pub proof fn law_heartbeats_leave_a_trail(v: StoreView, hb: Heartbeat)
    requires
        v.robots.contains_key(hb.id.0),
    ensures
        v.heard(hb).trail(hb.id) == trail_after(v.trail(hb.id), hb.timestamp, hb.location),
{
}

/// A list of robots holds each of them at one place, as the store has it, and nobody else.
pub proof fn law_lists_of_robots_are_complete(
    list: Seq<RobotView>,
    robots: Map<u64, RobotView>,
    which: Set<u64>,
    robot: u64,
) -> (i: int)
    requires
        lists_robots(list, robots, which),
    ensures
        which.contains(robot) ==> 0 <= i < list.len() && list[i] == robots[robot] && list[i].id.0
            == robot,
        forall|j: int| 0 <= j < list.len() ==> which.contains((#[trigger] list[j]).id.0),
        forall|a: int, b: int|
            0 <= a < b < list.len() ==> (#[trigger] list[a]).id != (#[trigger] list[b]).id,
{
    let numbers = robot_numbers(list);
    assert forall|j: int| 0 <= j < list.len() implies which.contains((#[trigger] list[j]).id.0) by {
        assert(numbers.to_set().contains(numbers[j]));
    }
    assert forall|a: int, b: int| 0 <= a < b < list.len() implies (#[trigger] list[a]).id != (
    #[trigger] list[b]).id by {
        assert(numbers[a] != numbers[b]);
    }
    if which.contains(robot) {
        assert(numbers.to_set().contains(robot));
        let i = numbers.index_of(robot);
        assert(numbers[i] == robot);
        assert(list[i] == robots[list[i].id.0]);
        i
    } else {
        0
    }
}

/// A list of tasks holds each of them at one place, as the store has it, and no other.
pub proof fn law_lists_of_tasks_are_complete(
    list: Seq<TaskView>,
    tasks: Map<u64, TaskView>,
    which: Set<u64>,
    task: u64,
) -> (i: int)
    requires
        lists_tasks(list, tasks, which),
    ensures
        which.contains(task) ==> 0 <= i < list.len() && list[i] == tasks[task] && list[i].id.0
            == task,
        forall|j: int| 0 <= j < list.len() ==> which.contains((#[trigger] list[j]).id.0),
        forall|a: int, b: int|
            0 <= a < b < list.len() ==> (#[trigger] list[a]).id != (#[trigger] list[b]).id,
{
    let numbers = task_numbers(list);
    assert forall|j: int| 0 <= j < list.len() implies which.contains((#[trigger] list[j]).id.0) by {
        assert(numbers.to_set().contains(numbers[j]));
    }
    assert forall|a: int, b: int| 0 <= a < b < list.len() implies (#[trigger] list[a]).id != (
    #[trigger] list[b]).id by {
        assert(numbers[a] != numbers[b]);
    }
    if which.contains(task) {
        assert(numbers.to_set().contains(task));
        let i = numbers.index_of(task);
        assert(numbers[i] == task);
        assert(list[i] == tasks[list[i].id.0]);
        i
    } else {
        0
    }
}

/// What the outcome of a round lists as tried again or as given up is listed once, and nothing
/// is missing.
pub proof fn law_lists_of_numbers_are_complete(ids: Seq<TaskId>, which: Set<u64>, task: u64)
    requires
        enumerates(task_id_numbers(ids), which),
    ensures
        ids.contains(TaskId(task)) <==> which.contains(task),
        ids.no_duplicates(),
{
    let numbers = task_id_numbers(ids);
    assert(numbers.to_set().contains(task) <==> which.contains(task));
    if which.contains(task) {
        let i = numbers.index_of(task);
        assert(numbers[i] == task);
        assert(ids[i] == TaskId(task));
    }
    if ids.contains(TaskId(task)) {
        let i = ids.index_of(TaskId(task));
        assert(numbers[i] == task);
    }
    assert forall|a: int, b: int| 0 <= a < b < ids.len() implies ids[a] != ids[b] by {
        assert(numbers[a] != numbers[b]);
    }
}

/// Going offline and being taken back concern robots and tasks alone: a task that is taken back
/// keeps its kind, its priority and its age, and a robot that goes offline its charge.
pub proof fn law_sweeping_keeps_the_rest(
    v: StoreView,
    now: u64,
    timeout_ms: u64,
    max_retries: u8,
    robot: u64,
    task: u64,
)
    ensures
        v.tasks.contains_key(task) ==> {
            let t = v.reclaimed(now, timeout_ms, max_retries).tasks[task];
            &&& t.id == v.tasks[task].id
            &&& t.kind == v.tasks[task].kind
            &&& t.priority == v.tasks[task].priority
            &&& t.created_at == v.tasks[task].created_at
        },
        v.robots.contains_key(robot) ==> {
            let r = v.evicted(now, timeout_ms).robots[robot];
            &&& r.id == v.robots[robot].id
            &&& r.battery == v.robots[robot].battery
            &&& r.last_change_ms == v.robots[robot].last_change_ms
        },
        v.evicted(now, timeout_ms).robots.contains_key(robot) <==> v.robots.contains_key(robot),
        v.evicted(now, timeout_ms).trails == v.trails,
{
}

/// A parole is counted as a resolved deadlock, and in no other counter.
pub proof fn law_paroles_are_counted(v: StoreView, robot: RobotId, task: TaskId)
    ensures
        v.deadlock_resolved < u64::MAX ==> v.paroled(robot, task).deadlock_resolved
            == v.deadlock_resolved + 1,
        same_counters(
            StoreView { deadlock_resolved: v.paroled(robot, task).deadlock_resolved, ..v },
            v.paroled(robot, task),
        ),
        v.paroled(robot, task).robots == v.unassigned(robot, task).robots,
        v.paroled(robot, task).tasks == v.unassigned(robot, task).tasks,
        v.paroled(robot, task).trails == v.trails,
{
}

/// A new store knows nobody, and has counted nothing.
pub proof fn law_a_new_store_is_empty(robot: u64, task: u64)
    ensures
        !StoreView::empty().robots.contains_key(robot),
        !StoreView::empty().tasks.contains_key(task),
        !StoreView::empty().trails.contains_key(robot),
        StoreView::empty().heartbeat_count == 0,
        StoreView::empty().task_submit_count == 0,
        StoreView::empty().assigned_count == 0,
        StoreView::empty().completed_count == 0,
        StoreView::empty().deadlock_resolved == 0,
        StoreView::empty().task_retried == 0,
        StoreView::empty().task_failed == 0,
{
}

} // verus!
