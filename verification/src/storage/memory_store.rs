//! The state store: robots, tasks, trails and counters.
//!
//! Reads hand out copies. Every operation is stated as a function from the contents before
//! to the contents after.

use super::tables::{
    enumerates, lemma_picked, picked, robot_table, robots_entries, robots_get, robots_insert,
    robots_len, robots_new,
    task_table, tasks_entries, tasks_get, tasks_insert, tasks_len, tasks_new, trail_table,
    trails_get, trails_insert, trails_new,
};
use crate::domain::robot::robot_views;
use crate::domain::task::task_views;
use crate::domain::{
    Heartbeat, Location, NodeId, RobotId, RobotState, RobotStatus, RobotView, Task, TaskId,
    TaskStatus, TaskView, TimestampMs,
};
use dashmap::DashMap;
use std::collections::VecDeque;
use vstd::prelude::*;

verus! {

/// A point of a trail: where a robot was, and when.
pub type TrailPoint = (TimestampMs, Location);

/// How many points of a robot's trail are kept.
pub const TRAIL_CAPACITY: usize = 64;

/// Movements of up to this many fixed-point units (a hundredth of a metre) are noise.
pub const TRAIL_NOISE: i64 = 655;

/// Why a store operation failed.
#[derive(Debug, Clone, Copy, PartialEq, Eq, Structural)]
pub enum StoreError {
    RobotNotFound(RobotId),
    TaskNotFound(TaskId),
    RobotNotAvailable(RobotId),
}

/// The tasks that were taken back in one round.
#[derive(Debug)]
pub struct ReclaimOutcome {
    /// Tasks that wait for a robot again.
    pub requeued: Vec<TaskId>,
    /// Tasks that were given up because they had been tried too often.
    pub failed: Vec<TaskId>,
}

impl Clone for ReclaimOutcome {
    fn clone(&self) -> (r: Self)
        ensures
            r.requeued@ == self.requeued@,
            r.failed@ == self.failed@,
    {
        let r = ReclaimOutcome { requeued: self.requeued.clone(), failed: self.failed.clone() };
        assert(r.requeued@ =~= self.requeued@);
        assert(r.failed@ =~= self.failed@);
        r
    }
}

impl Default for ReclaimOutcome {
    fn default() -> (r: Self)
        ensures
            r.requeued@.len() == 0,
            r.failed@.len() == 0,
    {
        ReclaimOutcome { requeued: Vec::new(), failed: Vec::new() }
    }
}

/// The state of all robots and tasks.
pub struct MemoryStore {
    robots: DashMap<u64, RobotState>,
    tasks: DashMap<u64, Task>,
    trails: DashMap<u64, VecDeque<TrailPoint>>,
    heartbeat_count: u64,
    task_submit_count: u64,
    assigned_count: u64,
    completed_count: u64,
    deadlock_resolved: u64,
    task_retried: u64,
    task_failed: u64,
}

/// The mathematical content of a store. The counters wrap around.
#[verifier::ext_equal]
pub struct StoreView {
    pub robots: Map<u64, RobotView>,
    pub tasks: Map<u64, TaskView>,
    pub trails: Map<u64, Seq<TrailPoint>>,
    /// Heartbeats that were applied.
    pub heartbeat_count: u64,
    /// Tasks that were submitted.
    pub task_submit_count: u64,
    /// Assignments that were made.
    pub assigned_count: u64,
    /// Tasks that were completed.
    pub completed_count: u64,
    /// Robots that were paroled out of a deadlock.
    pub deadlock_resolved: u64,
    /// Tasks that were taken back to be tried again.
    pub task_retried: u64,
    /// Tasks that were given up.
    pub task_failed: u64,
}

impl View for MemoryStore {
    type V = StoreView;

    closed spec fn view(&self) -> StoreView {
        StoreView {
            robots: robot_table(self.robots),
            tasks: task_table(self.tasks),
            trails: trail_table(self.trails),
            heartbeat_count: self.heartbeat_count,
            task_submit_count: self.task_submit_count,
            assigned_count: self.assigned_count,
            completed_count: self.completed_count,
            deadlock_resolved: self.deadlock_resolved,
            task_retried: self.task_retried,
            task_failed: self.task_failed,
        }
    }
}

// ---------------------------------------------------------------- robots and tasks on their own
impl RobotView {
    /// The robot without a task, a target, a route or goods, in the given status.
    pub open spec fn freed(self, status: RobotStatus) -> RobotView {
        RobotView {
            status,
            current_task: None,
            target: None,
            route: Seq::empty(),
            carrying: false,
            ..self
        }
    }

    /// The robot after its task was taken away: idle, unless it is offline.
    pub open spec fn let_go(self) -> RobotView {
        self.freed(
            if self.status == RobotStatus::Offline {
                RobotStatus::Offline
            } else {
                RobotStatus::Idle
            },
        )
    }

    /// The robot as it sets out for a task.
    pub open spec fn bound(self, task: TaskId, target: Option<NodeId>, route: Seq<NodeId>) -> RobotView {
        RobotView { status: RobotStatus::Busy, current_task: Some(task), target, route, ..self }
    }

    /// The robot after its heartbeat. A busy robot stays busy, whatever it reports.
    pub open spec fn heard(self, hb: Heartbeat) -> RobotView {
        RobotView {
            location: hb.location,
            battery: hb.battery,
            last_heartbeat: hb.timestamp,
            carrying: hb.carrying,
            status: if self.status == RobotStatus::Busy {
                RobotStatus::Busy
            } else {
                hb.status
            },
            last_change_ms: if self.location.node != hb.location.node {
                hb.timestamp
            } else {
                self.last_change_ms
            },
            ..self
        }
    }
}

impl TaskView {
    /// The task, given to a robot.
    pub open spec fn given_to(self, robot: RobotId, now: u64) -> TaskView {
        TaskView {
            status: TaskStatus::Assigned,
            assigned_robot: Some(robot),
            assigned_at: now,
            ..self
        }
    }

    /// The task, given to nobody, in the given status.
    pub open spec fn taken_back(self, status: TaskStatus) -> TaskView {
        TaskView { status, assigned_robot: None, assigned_at: 0, ..self }
    }

    /// The task after it was taken back for the `retry_count + 1`st time: it waits again, or
    /// is given up once it has been tried `max_retries` times.
    pub open spec fn tried_again(self, max_retries: u8) -> TaskView {
        if self.retry_count >= max_retries {
            self.taken_back(TaskStatus::Failed)
        } else {
            TaskView {
                retry_count: (self.retry_count + 1) as u8,
                ..self.taken_back(TaskStatus::Pending)
            }
        }
    }
}

/// Whether two points of a trail are different places.
pub open spec fn moved(a: Location, b: Location) -> bool {
    ||| a.node != b.node
    ||| a.x - b.x > TRAIL_NOISE
    ||| b.x - a.x > TRAIL_NOISE
    ||| a.y - b.y > TRAIL_NOISE
    ||| b.y - a.y > TRAIL_NOISE
}

/// A trail after a report: a new point is added if it is another place than the last one, and
/// only the newest [`TRAIL_CAPACITY`] points are kept.
pub open spec fn trail_after(trail: Seq<TrailPoint>, t: u64, location: Location) -> Seq<
    TrailPoint,
> {
    if trail.len() > 0 && !moved(trail.last().1, location) {
        trail
    } else {
        let longer = trail.push((t, location));
        if longer.len() > TRAIL_CAPACITY {
            longer.skip(longer.len() - TRAIL_CAPACITY)
        } else {
            longer
        }
    }
}

// ---------------------------------------------------------------- the operations
impl StoreView {
    /// The empty store.
    pub open spec fn empty() -> StoreView {
        StoreView {
            robots: Map::empty(),
            tasks: Map::empty(),
            trails: Map::empty(),
            heartbeat_count: 0,
            task_submit_count: 0,
            assigned_count: 0,
            completed_count: 0,
            deadlock_resolved: 0,
            task_retried: 0,
            task_failed: 0,
        }
    }

    /// What every store satisfies: robots and tasks are found under their own numbers, and a
    /// trail has between one and [`TRAIL_CAPACITY`] points.
    pub open spec fn wf(self) -> bool {
        &&& forall|k: u64| #[trigger]
            self.robots.contains_key(k) ==> self.robots[k].id == RobotId(k)
        &&& forall|k: u64| #[trigger] self.tasks.contains_key(k) ==> self.tasks[k].id == TaskId(k)
        &&& forall|k: u64| #[trigger]
            self.trails.contains_key(k) ==> 0 < self.trails[k].len() <= TRAIL_CAPACITY
    }

    /// The trail of a robot, empty for a robot that was never seen.
    pub open spec fn trail(self, robot: RobotId) -> Seq<TrailPoint> {
        if self.trails.contains_key(robot.0) {
            self.trails[robot.0]
        } else {
            Seq::empty()
        }
    }

    /// The store with one more point of a trail.
    pub open spec fn with_trail_point(self, robot: RobotId, t: u64, location: Location) -> StoreView {
        StoreView {
            trails: self.trails.insert(robot.0, trail_after(self.trail(robot), t, location)),
            ..self
        }
    }

    /// The store after a robot came online.
    pub open spec fn registered(self, r: RobotView) -> StoreView {
        StoreView {
            robots: self.robots.insert(r.id.0, r),
            ..self.with_trail_point(r.id, r.last_heartbeat, r.location)
        }
    }

    /// The store after the heartbeat of a known robot.
    pub open spec fn heard(self, hb: Heartbeat) -> StoreView {
        StoreView {
            robots: self.robots.insert(hb.id.0, self.robots[hb.id.0].heard(hb)),
            heartbeat_count: self.heartbeat_count.wrapping_add(1),
            ..self.with_trail_point(hb.id, hb.timestamp, hb.location)
        }
    }

    /// The store after a task was handed in.
    pub open spec fn submitted(self, t: TaskView) -> StoreView {
        StoreView {
            tasks: self.tasks.insert(t.id.0, t),
            task_submit_count: self.task_submit_count.wrapping_add(1),
            ..self
        }
    }

    /// Why a robot cannot be given a task, if it cannot.
    pub open spec fn assign_error(self, robot: RobotId, task: TaskId) -> Option<StoreError> {
        if !self.robots.contains_key(robot.0) {
            Some(StoreError::RobotNotFound(robot))
        } else if self.robots[robot.0].status != RobotStatus::Idle {
            Some(StoreError::RobotNotAvailable(robot))
        } else if !self.tasks.contains_key(task.0) {
            Some(StoreError::TaskNotFound(task))
        } else {
            None
        }
    }

    /// The store after an attempt to give a task to a robot: both tables are updated, or
    /// nothing changes.
    pub open spec fn assigned(
        self,
        robot: RobotId,
        task: TaskId,
        target: Option<NodeId>,
        route: Seq<NodeId>,
        now: u64,
    ) -> StoreView {
        if self.assign_error(robot, task) is Some {
            self
        } else {
            StoreView {
                robots: self.robots.insert(
                    robot.0,
                    self.robots[robot.0].bound(task, target, route),
                ),
                tasks: self.tasks.insert(task.0, self.tasks[task.0].given_to(robot, now)),
                assigned_count: self.assigned_count.wrapping_add(1),
                ..self
            }
        }
    }

    /// The store after a known task was completed.
    pub open spec fn completed(self, robot: RobotId, task: TaskId) -> StoreView {
        StoreView {
            robots: if self.robots.contains_key(robot.0) {
                self.robots.insert(robot.0, self.robots[robot.0].freed(RobotStatus::Idle))
            } else {
                self.robots
            },
            tasks: self.tasks.insert(
                task.0,
                TaskView { status: TaskStatus::Completed, ..self.tasks[task.0] },
            ),
            completed_count: self.completed_count.wrapping_add(1),
            ..self
        }
    }

    /// The store after an assignment was rolled back.
    pub open spec fn unassigned(self, robot: RobotId, task: TaskId) -> StoreView {
        let r = self.robots[robot.0];
        StoreView {
            robots: if self.robots.contains_key(robot.0) {
                self.robots.insert(
                    robot.0,
                    r.freed(
                        if r.status == RobotStatus::Busy {
                            RobotStatus::Idle
                        } else {
                            r.status
                        },
                    ),
                )
            } else {
                self.robots
            },
            tasks: if self.tasks.contains_key(task.0) {
                self.tasks.insert(task.0, self.tasks[task.0].taken_back(TaskStatus::Pending))
            } else {
                self.tasks
            },
            ..self
        }
    }

    /// The store after a robot was paroled out of a deadlock.
    pub open spec fn paroled(self, robot: RobotId, task: TaskId) -> StoreView {
        StoreView {
            deadlock_resolved: self.deadlock_resolved.wrapping_add(1),
            ..self.unassigned(robot, task)
        }
    }

    /// Whether there is such a task, and it is stuck.
    pub open spec fn hangs(self, task: u64, now: u64, timeout_ms: u64) -> bool {
        self.tasks.contains_key(task) && self.stuck(self.tasks[task], now, timeout_ms)
    }

    /// Whether a task is stuck: it is given to a robot, and either that was too long ago or the
    /// robot is unknown, offline or silent.
    pub open spec fn stuck(self, t: TaskView, now: u64, timeout_ms: u64) -> bool {
        &&& t.status == TaskStatus::Assigned || t.status == TaskStatus::Executing
        &&& ({
            ||| t.assigned_at != 0 && now - t.assigned_at > timeout_ms
            ||| self.gone(t.assigned_robot, now, timeout_ms)
        })
    }

    /// Whether no robot is there to carry out a task that was given to `robot`.
    pub open spec fn gone(self, robot: Option<RobotId>, now: u64, timeout_ms: u64) -> bool {
        match robot {
            Some(id) => {
                ||| !self.robots.contains_key(id.0)
                ||| self.robots[id.0].status == RobotStatus::Offline
                ||| self.robots[id.0].stale(now, timeout_ms)
            },
            None => true,
        }
    }

    /// Whether a robot is bound to a task that hangs and that is given to it.
    pub open spec fn held_up(self, robot: u64, now: u64, timeout_ms: u64) -> bool {
        match self.robots[robot].current_task {
            Some(t) => self.hangs(t.0, now, timeout_ms) && self.tasks[t.0].assigned_robot == Some(
                RobotId(robot),
            ),
            None => false,
        }
    }

    /// The store after `robot` was freed, if it is bound to `task`.
    pub open spec fn released(self, robot: Option<RobotId>, task: TaskId) -> StoreView {
        match robot {
            Some(id) => {
                let r = self.robots[id.0];
                if self.robots.contains_key(id.0) && r.current_task == Some(task) {
                    StoreView { robots: self.robots.insert(id.0, r.let_go()), ..self }
                } else {
                    self
                }
            },
            None => self,
        }
    }

    /// The tasks that hang.
    pub open spec fn hanging(self, now: u64, timeout_ms: u64) -> Set<u64> {
        self.tasks.dom().filter(|k: u64| self.hangs(k, now, timeout_ms))
    }

    /// The store after the task `t` was taken back.
    pub open spec fn reclaimed_one(self, t: TaskView, max_retries: u8) -> StoreView {
        let again = t.retry_count < max_retries;
        StoreView {
            tasks: self.tasks.insert(t.id.0, t.tried_again(max_retries)),
            task_retried: if again {
                self.task_retried.wrapping_add(1)
            } else {
                self.task_retried
            },
            task_failed: if again {
                self.task_failed
            } else {
                self.task_failed.wrapping_add(1)
            },
            ..self.released(t.assigned_robot, t.id)
        }
    }

    /// The tasks that hang and are to be tried again.
    pub open spec fn requeued(self, now: u64, timeout_ms: u64, max_retries: u8) -> Set<u64> {
        self.tasks.dom().filter(
            |k: u64| self.hangs(k, now, timeout_ms) && self.tasks[k].retry_count < max_retries,
        )
    }

    /// The tasks that hang and are given up.
    pub open spec fn given_up(self, now: u64, timeout_ms: u64, max_retries: u8) -> Set<u64> {
        self.tasks.dom().filter(
            |k: u64| self.hangs(k, now, timeout_ms) && self.tasks[k].retry_count >= max_retries,
        )
    }

    /// The store after all tasks that hang were taken back: their robots are free again, or
    /// stay offline, and the tasks wait again or are given up.
    pub open spec fn reclaimed(self, now: u64, timeout_ms: u64, max_retries: u8) -> StoreView {
        StoreView {
            robots: Map::new(
                |k: u64| self.robots.contains_key(k),
                |k: u64|
                    if self.held_up(k, now, timeout_ms) {
                        self.robots[k].let_go()
                    } else {
                        self.robots[k]
                    },
            ),
            tasks: Map::new(
                |k: u64| self.tasks.contains_key(k),
                |k: u64|
                    if self.hangs(k, now, timeout_ms) {
                        self.tasks[k].tried_again(max_retries)
                    } else {
                        self.tasks[k]
                    },
            ),
            task_retried: count_up(
                self.task_retried,
                self.requeued(now, timeout_ms, max_retries).len(),
            ),
            task_failed: count_up(
                self.task_failed,
                self.given_up(now, timeout_ms, max_retries).len(),
            ),
            ..self
        }
    }

    /// The robots that can be given a task.
    pub open spec fn available(self, now: u64, timeout_ms: u64) -> Set<u64> {
        self.robots.dom().filter(
            |k: u64|
                self.robots[k].status == RobotStatus::Idle && !self.robots[k].stale(
                    now,
                    timeout_ms,
                ),
        )
    }

    /// The robots that are not offline.
    pub open spec fn online(self) -> Set<u64> {
        self.robots.dom().filter(|k: u64| self.robots[k].status != RobotStatus::Offline)
    }

    /// The tasks that wait for a robot.
    pub open spec fn pending(self) -> Set<u64> {
        self.tasks.dom().filter(|k: u64| self.tasks[k].status == TaskStatus::Pending)
    }

    /// The robots that have fallen silent.
    pub open spec fn silent(self, now: u64, timeout_ms: u64) -> Set<u64> {
        self.robots.dom().filter(
            |k: u64|
                self.robots[k].stale(now, timeout_ms) && self.robots[k].status
                    != RobotStatus::Offline,
        )
    }

    /// The store after all silent robots went offline.
    pub open spec fn evicted(self, now: u64, timeout_ms: u64) -> StoreView {
        StoreView {
            robots: Map::new(
                |k: u64| self.robots.contains_key(k),
                |k: u64|
                    if self.silent(now, timeout_ms).contains(k) {
                        self.robots[k].freed(RobotStatus::Offline)
                    } else {
                        self.robots[k]
                    },
            ),
            ..self
        }
    }
}

/// A counter after `n` more events. It wraps around.
pub open spec fn count_up(counter: u64, n: nat) -> u64 {
    ((counter + n) % 0x1_0000_0000_0000_0000) as u64
}

// ---------------------------------------------------------------- lists
/// The numbers of robots.
pub open spec fn robot_numbers(list: Seq<RobotView>) -> Seq<u64> {
    list.map_values(|r: RobotView| r.id.0)
}

/// The numbers of tasks.
pub open spec fn task_numbers(list: Seq<TaskView>) -> Seq<u64> {
    list.map_values(|t: TaskView| t.id.0)
}

/// The numbers in a list of robot identifiers.
pub open spec fn robot_id_numbers(ids: Seq<RobotId>) -> Seq<u64> {
    ids.map_values(|id: RobotId| id.0)
}

/// The numbers in a list of task identifiers.
pub open spec fn task_id_numbers(ids: Seq<TaskId>) -> Seq<u64> {
    ids.map_values(|id: TaskId| id.0)
}

/// Whether `list` holds each of the robots `which` once, and nothing else.
pub open spec fn lists_robots(
    list: Seq<RobotView>,
    robots: Map<u64, RobotView>,
    which: Set<u64>,
) -> bool {
    &&& enumerates(robot_numbers(list), which)
    &&& forall|i: int| 0 <= i < list.len() ==> #[trigger] list[i] == robots[list[i].id.0]
}

/// Whether `list` holds each of the tasks `which` once, and nothing else.
pub open spec fn lists_tasks(
    list: Seq<TaskView>,
    tasks: Map<u64, TaskView>,
    which: Set<u64>,
) -> bool {
    &&& enumerates(task_numbers(list), which)
    &&& forall|i: int| 0 <= i < list.len() ==> #[trigger] list[i] == tasks[list[i].id.0]
}

// ---------------------------------------------------------------- selecting
/// The robots of a table that satisfy a condition.
fn select_robots<F: Fn(&RobotState) -> bool>(
    table: &DashMap<u64, RobotState>,
    keep: F,
    Ghost(which): Ghost<Set<u64>>,
) -> (r: Vec<RobotState>)
    requires
        forall|k: u64| #[trigger]
            robot_table(*table).contains_key(k) ==> robot_table(*table)[k].id == RobotId(k),
        forall|x: &RobotState| #[trigger] keep.requires((x,)),
        forall|x: &RobotState, b: bool|
            robot_table(*table).contains_key(x.id.0) && x@ == robot_table(*table)[x.id.0]
                && #[trigger] keep.ensures((x,), b) ==> b == which.contains(x.id.0),
        which.subset_of(robot_table(*table).dom()),
    ensures
        lists_robots(robot_views(r@), robot_table(*table), which),
{
    let entries = robots_entries(table);
    let ghost keys = entries@.map_values(|e: (u64, RobotState)| e.0);
    let mut out: Vec<RobotState> = Vec::new();
    let mut i: usize = 0;
    assert(robot_numbers(robot_views(out@)) =~= Seq::<u64>::empty());
    while i < entries.len()
        invariant
            i <= entries@.len(),
            keys == entries@.map_values(|e: (u64, RobotState)| e.0),
            enumerates(keys, robot_table(*table).dom()),
            forall|j: int|
                0 <= j < entries@.len() ==> (#[trigger] entries@[j]).1@ == robot_table(
                    *table,
                )[entries@[j].0],
            forall|k: u64| #[trigger]
                robot_table(*table).contains_key(k) ==> robot_table(*table)[k].id == RobotId(k),
            forall|x: &RobotState| #[trigger] keep.requires((x,)),
            forall|x: &RobotState, b: bool|
                robot_table(*table).contains_key(x.id.0) && x@ == robot_table(*table)[x.id.0]
                    && #[trigger] keep.ensures((x,), b) ==> b == which.contains(x.id.0),
            forall|j: int|
                0 <= j < out@.len() ==> (#[trigger] out@[j])@ == robot_table(*table)[out@[j].id.0],
            robot_numbers(robot_views(out@)) == picked(keys, which, i as nat),
        decreases entries@.len() - i,
    {
        let ghost before = out@;
        proof {
            assert(keys[i as int] == entries@[i as int].0);
            assert(keys.to_set().contains(keys[i as int]));
            assert(robot_table(*table).contains_key(keys[i as int]));
        }
        let r = &entries[i].1;
        assert(r@ == robot_table(*table)[keys[i as int]]);
        assert(r.id.0 == keys[i as int]);
        if keep(r) {
            let copy = r.clone();
            out.push(copy);
            assert(copy.id == r.id);
            assert(robot_numbers(robot_views(out@)) =~= robot_numbers(robot_views(before)).push(
                keys[i as int],
            ));
        }
        i = i + 1;
    }
    proof {
        lemma_picked(keys, robot_table(*table).dom(), which);
        assert forall|j: int| 0 <= j < out@.len() implies #[trigger] robot_views(out@)[j]
            == robot_table(*table)[robot_views(out@)[j].id.0] by {
            assert(out@[j]@ == robot_table(*table)[out@[j].id.0]);
        }
    }
    out
}

/// The tasks of a table that satisfy a condition.
fn select_tasks<F: Fn(&Task) -> bool>(
    table: &DashMap<u64, Task>,
    keep: F,
    Ghost(which): Ghost<Set<u64>>,
) -> (r: Vec<Task>)
    requires
        forall|k: u64| #[trigger]
            task_table(*table).contains_key(k) ==> task_table(*table)[k].id == TaskId(k),
        forall|x: &Task| #[trigger] keep.requires((x,)),
        forall|x: &Task, b: bool|
            task_table(*table).contains_key(x.id.0) && x@ == task_table(*table)[x.id.0]
                && #[trigger] keep.ensures((x,), b) ==> b == which.contains(x.id.0),
        which.subset_of(task_table(*table).dom()),
    ensures
        lists_tasks(task_views(r@), task_table(*table), which),
{
    let entries = tasks_entries(table);
    let ghost keys = entries@.map_values(|e: (u64, Task)| e.0);
    let mut out: Vec<Task> = Vec::new();
    let mut i: usize = 0;
    assert(task_numbers(task_views(out@)) =~= Seq::<u64>::empty());
    while i < entries.len()
        invariant
            i <= entries@.len(),
            keys == entries@.map_values(|e: (u64, Task)| e.0),
            enumerates(keys, task_table(*table).dom()),
            forall|j: int|
                0 <= j < entries@.len() ==> (#[trigger] entries@[j]).1@ == task_table(
                    *table,
                )[entries@[j].0],
            forall|k: u64| #[trigger]
                task_table(*table).contains_key(k) ==> task_table(*table)[k].id == TaskId(k),
            forall|x: &Task| #[trigger] keep.requires((x,)),
            forall|x: &Task, b: bool|
                task_table(*table).contains_key(x.id.0) && x@ == task_table(*table)[x.id.0]
                    && #[trigger] keep.ensures((x,), b) ==> b == which.contains(x.id.0),
            forall|j: int|
                0 <= j < out@.len() ==> (#[trigger] out@[j])@ == task_table(*table)[out@[j].id.0],
            task_numbers(task_views(out@)) == picked(keys, which, i as nat),
        decreases entries@.len() - i,
    {
        let ghost before = out@;
        proof {
            assert(keys[i as int] == entries@[i as int].0);
            assert(keys.to_set().contains(keys[i as int]));
            assert(task_table(*table).contains_key(keys[i as int]));
        }
        let t = &entries[i].1;
        assert(t@ == task_table(*table)[keys[i as int]]);
        assert(t.id.0 == keys[i as int]);
        if keep(t) {
            let copy = t.clone();
            out.push(copy);
            assert(copy.id == t.id);
            assert(task_numbers(task_views(out@)) =~= task_numbers(task_views(before)).push(
                keys[i as int],
            ));
        }
        i = i + 1;
    }
    proof {
        lemma_picked(keys, task_table(*table).dom(), which);
        assert forall|j: int| 0 <= j < out@.len() implies #[trigger] task_views(out@)[j]
            == task_table(*table)[task_views(out@)[j].id.0] by {
            assert(out@[j]@ == task_table(*table)[out@[j].id.0]);
        }
    }
    out
}

// ---------------------------------------------------------------- the store
fn free_robot(r: &mut RobotState, status: RobotStatus)
    ensures
        final(r)@ == old(r)@.freed(status),
{
    r.current_task = None;
    r.target = None;
    r.route = Vec::new();
    r.carrying = false;
    r.status = status;
    assert(r@ =~= old(r)@.freed(status));
}

fn take_back_task(t: &mut Task, status: TaskStatus)
    ensures
        final(t)@ == old(t)@.taken_back(status),
{
    t.status = status;
    t.assigned_robot = None;
    t.assigned_at = 0;
}

impl MemoryStore {
    /// An empty store.
    pub fn new() -> (r: Self)
        ensures
            r@ == StoreView::empty(),
            r@.wf(),
    {
        let r = Self {
            robots: robots_new(),
            tasks: tasks_new(),
            trails: trails_new(),
            heartbeat_count: 0,
            task_submit_count: 0,
            assigned_count: 0,
            completed_count: 0,
            deadlock_resolved: 0,
            task_retried: 0,
            task_failed: 0,
        };
        proof {
            assert(robot_table(r.robots) =~= Map::empty());
            assert(task_table(r.tasks) =~= Map::empty());
            assert(trail_table(r.trails) =~= Map::empty());
        }
        r
    }

    /// Adds a point to a robot's trail if the robot has moved, and drops the oldest points.
    fn push_trail(&mut self, id: RobotId, t: TimestampMs, location: Location)
        requires
            old(self)@.wf(),
        ensures
            final(self)@ == old(self)@.with_trail_point(id, t, location),
            final(self)@.wf(),
    {
        let mut trail = match trails_get(&self.trails, id.0) {
            Some(trail) => trail,
            None => VecDeque::new(),
        };
        let ghost before = trail@;
        proof {
            assert(before == self@.trail(id));
        }
        let changed = if trail.len() > 0 {
            let last = trail[trail.len() - 1].1;
            let dx: i128 = last.x as i128 - location.x as i128;
            let dy: i128 = last.y as i128 - location.y as i128;
            let noise: i128 = TRAIL_NOISE as i128;
            last.node != location.node || dx > noise || -dx > noise || dy > noise || -dy > noise
        } else {
            true
        };
        if changed {
            trail.push_back((t, location));
            let ghost longer = trail@;
            let mut dropped: usize = 0;
            while trail.len() > TRAIL_CAPACITY
                invariant
                    trail@ == longer.skip(dropped as int),
                    dropped <= longer.len() <= TRAIL_CAPACITY + 1,
                    dropped == 0 || longer.len() - dropped >= TRAIL_CAPACITY,
                decreases trail@.len(),
            {
                trail.pop_front();
                dropped = dropped + 1;
                assert(trail@ =~= longer.skip(dropped as int));
            }
            proof {
                assert(longer =~= before.push((t, location)));
                assert(longer.skip(0) =~= longer);
                assert(trail@ =~= trail_after(before, t, location));
            }
        }
        trails_insert(&mut self.trails, id.0, trail);
        assert(self@.trails =~= old(self)@.with_trail_point(id, t, location).trails);
    }

    /// Adds a robot, or replaces it.
    pub fn register_robot(&mut self, state: RobotState)
        requires
            old(self)@.wf(),
        ensures
            final(self)@ == old(self)@.registered(state@),
            final(self)@.wf(),
    {
        self.push_trail(state.id, state.last_heartbeat, state.location);
        robots_insert(&mut self.robots, state.id.0, state);
    }

    /// Applies a heartbeat to the robot that sent it.
    pub fn apply_heartbeat(&mut self, hb: Heartbeat) -> (r: Result<(), StoreError>)
        requires
            old(self)@.wf(),
        ensures
            final(self)@.wf(),
            old(self)@.robots.contains_key(hb.id.0) ==> r is Ok && final(self)@ == old(
                self,
            )@.heard(hb),
            !old(self)@.robots.contains_key(hb.id.0) ==> r == Err::<(), _>(
                StoreError::RobotNotFound(hb.id),
            ) && final(self)@ == old(self)@,
    {
        match robots_get(&self.robots, hb.id.0) {
            Some(mut robot) => {
                let ghost before = robot@;
                if robot.location.node != hb.location.node {
                    robot.last_change_ms = hb.timestamp;
                }
                robot.location = hb.location;
                robot.battery = hb.battery;
                robot.last_heartbeat = hb.timestamp;
                robot.carrying = hb.carrying;
                if !matches!(robot.status, RobotStatus::Busy) {
                    robot.status = hb.status;
                }
                assert(robot@ =~= before.heard(hb));
                robots_insert(&mut self.robots, hb.id.0, robot);
                self.heartbeat_count = self.heartbeat_count.wrapping_add(1);
                proof {
                    assert(self@.robots == old(self)@.robots.insert(hb.id.0, before.heard(hb)));
                    assert(self@.tasks == old(self)@.tasks);
                    assert(self@.trails == old(self)@.trails);
                    assert(self@.wf());
                }
                self.push_trail(hb.id, hb.timestamp, hb.location);
                assert(self@ =~= old(self)@.heard(hb));
                Ok(())
            },
            None => Err(StoreError::RobotNotFound(hb.id)),
        }
    }

    /// A copy of a robot's state.
    pub fn get_robot(&self, id: RobotId) -> (r: Option<RobotState>)
        ensures
            r is Some <==> self@.robots.contains_key(id.0),
            r matches Some(state) ==> state@ == self@.robots[id.0],
    {
        robots_get(&self.robots, id.0)
    }

    /// Copies of all robots that are idle and have been heard of in time.
    pub fn available_robots(&self, now: u64, timeout_ms: u64) -> (r: Vec<RobotState>)
        requires
            self@.wf(),
        ensures
            lists_robots(robot_views(r@), self@.robots, self@.available(now, timeout_ms)),
    {
        let keep = |s: &RobotState| -> (b: bool)
            ensures
                b == (s.status == RobotStatus::Idle && !s@.stale(now, timeout_ms)),
            { s.status.is_available() && !s.is_stale(now, timeout_ms) };
        select_robots(&self.robots, keep, Ghost(self@.available(now, timeout_ms)))
    }

    /// Adds a task.
    pub fn submit_task(&mut self, task: Task)
        requires
            old(self)@.wf(),
        ensures
            final(self)@ == old(self)@.submitted(task@),
            final(self)@.wf(),
    {
        self.task_submit_count = self.task_submit_count.wrapping_add(1);
        tasks_insert(&mut self.tasks, task.id.0, task);
        proof {
            assert(self@.tasks == old(self)@.tasks.insert(task.id.0, task@));
            assert(self@.robots == old(self)@.robots);
            assert(self@.trails == old(self)@.trails);
        }
    }

    /// A copy of a task.
    pub fn get_task(&self, id: TaskId) -> (r: Option<Task>)
        ensures
            r is Some <==> self@.tasks.contains_key(id.0),
            r matches Some(task) ==> task@ == self@.tasks[id.0],
    {
        tasks_get(&self.tasks, id.0)
    }

    /// Copies of all tasks that wait for a robot.
    pub fn pending_tasks(&self) -> (r: Vec<Task>)
        requires
            self@.wf(),
        ensures
            lists_tasks(task_views(r@), self@.tasks, self@.pending()),
    {
        let keep = |t: &Task| -> (b: bool)
            ensures
                b == (t.status == TaskStatus::Pending),
            { t.is_pending() };
        select_tasks(&self.tasks, keep, Ghost(self@.pending()))
    }

    /// Gives a task to a robot, and returns both as they are then. Both tables are updated, or
    /// neither. The robot's position is left alone: it changes only with the robot's heartbeats.
    pub fn assign(
        &mut self,
        robot_id: RobotId,
        task_id: TaskId,
        route_target: Location,
        route: Vec<NodeId>,
        now: TimestampMs,
    ) -> (r: Result<(RobotState, Task), StoreError>)
        requires
            old(self)@.wf(),
        ensures
            final(self)@ == old(self)@.assigned(robot_id, task_id, route_target.node, route@, now),
            final(self)@.wf(),
            match r {
                Ok((robot, task)) => {
                    &&& old(self)@.assign_error(robot_id, task_id) is None
                    &&& robot@ == final(self)@.robots[robot_id.0]
                    &&& task@ == final(self)@.tasks[task_id.0]
                },
                Err(e) => old(self)@.assign_error(robot_id, task_id) == Some(e),
            },
    {
        let ghost v0 = self@;
        let mut robot = match robots_get(&self.robots, robot_id.0) {
            Some(robot) => robot,
            None => {
                return Err(StoreError::RobotNotFound(robot_id));
            },
        };
        if !robot.status.is_available() {
            return Err(StoreError::RobotNotAvailable(robot_id));
        }
        let mut task = match tasks_get(&self.tasks, task_id.0) {
            Some(task) => task,
            None => {
                return Err(StoreError::TaskNotFound(task_id));
            },
        };
        robot.status = RobotStatus::Busy;
        robot.current_task = Some(task_id);
        robot.target = route_target.node;
        robot.route = route;
        assert(robot@ =~= v0.robots[robot_id.0].bound(task_id, route_target.node, route@));
        let snapshot = robot.clone();
        robots_insert(&mut self.robots, robot_id.0, robot);
        self.assigned_count = self.assigned_count.wrapping_add(1);
        task.status = TaskStatus::Assigned;
        task.assigned_robot = Some(robot_id);
        task.assigned_at = now;
        let task_snapshot = task.clone();
        tasks_insert(&mut self.tasks, task_id.0, task);
        assert(self@.tasks == v0.tasks.insert(
            task_id.0,
            v0.tasks[task_id.0].given_to(robot_id, now),
        ));
        assert(self@ =~= v0.assigned(robot_id, task_id, route_target.node, route@, now));
        Ok((snapshot, task_snapshot))
    }

    /// Marks a task as completed and frees its robot.
    pub fn complete_task(&mut self, robot_id: RobotId, task_id: TaskId) -> (r: Result<
        (),
        StoreError,
    >)
        requires
            old(self)@.wf(),
        ensures
            final(self)@.wf(),
            old(self)@.tasks.contains_key(task_id.0) ==> r is Ok && final(self)@ == old(
                self,
            )@.completed(robot_id, task_id),
            !old(self)@.tasks.contains_key(task_id.0) ==> r == Err::<(), _>(
                StoreError::TaskNotFound(task_id),
            ) && final(self)@ == old(self)@,
    {
        let ghost v0 = self@;
        let mut task = match tasks_get(&self.tasks, task_id.0) {
            Some(task) => task,
            None => {
                return Err(StoreError::TaskNotFound(task_id));
            },
        };
        task.status = TaskStatus::Completed;
        tasks_insert(&mut self.tasks, task_id.0, task);
        assert(self@.robots == v0.robots);
        if let Some(mut robot) = robots_get(&self.robots, robot_id.0) {
            free_robot(&mut robot, RobotStatus::Idle);
            robots_insert(&mut self.robots, robot_id.0, robot);
        }
        self.completed_count = self.completed_count.wrapping_add(1);
        assert(self@ =~= v0.completed(robot_id, task_id));
        Ok(())
    }

    /// Rolls back an assignment: the robot is free where it stands, and the task waits again.
    pub fn unassign(&mut self, robot_id: RobotId, task_id: TaskId)
        requires
            old(self)@.wf(),
        ensures
            final(self)@ == old(self)@.unassigned(robot_id, task_id),
            final(self)@.wf(),
    {
        let ghost v0 = self@;
        if let Some(mut robot) = robots_get(&self.robots, robot_id.0) {
            let status = if matches!(robot.status, RobotStatus::Busy) {
                RobotStatus::Idle
            } else {
                robot.status
            };
            free_robot(&mut robot, status);
            robots_insert(&mut self.robots, robot_id.0, robot);
        }
        assert(self@.tasks == v0.tasks);
        if let Some(mut task) = tasks_get(&self.tasks, task_id.0) {
            take_back_task(&mut task, TaskStatus::Pending);
            tasks_insert(&mut self.tasks, task_id.0, task);
        }
        assert(self@ =~= v0.unassigned(robot_id, task_id));
    }

    /// Takes a robot out of a deadlock: rolls back its assignment and counts it.
    pub fn parole_robot(&mut self, robot_id: RobotId, task_id: TaskId)
        requires
            old(self)@.wf(),
        ensures
            final(self)@ == old(self)@.paroled(robot_id, task_id),
            final(self)@.wf(),
    {
        self.unassign(robot_id, task_id);
        self.deadlock_resolved = self.deadlock_resolved.wrapping_add(1);
    }

    /// Whether no robot is there to carry out a task that was given to `robot`.
    fn is_gone(&self, robot: Option<RobotId>, now: TimestampMs, timeout_ms: u64) -> (r: bool)
        ensures
            r == self@.gone(robot, now, timeout_ms),
    {
        match robot {
            Some(id) => match robots_get(&self.robots, id.0) {
                Some(state) => state.status == RobotStatus::Offline || state.is_stale(
                    now,
                    timeout_ms,
                ),
                None => true,
            },
            None => true,
        }
    }

    /// Whether a task is stuck.
    fn is_stuck(&self, t: &Task, now: TimestampMs, timeout_ms: u64) -> (r: bool)
        ensures
            r == self@.stuck(t@, now, timeout_ms),
    {
        matches!(t.status, TaskStatus::Assigned | TaskStatus::Executing) && ((t.assigned_at != 0
            && now.saturating_sub(t.assigned_at) > timeout_ms) || self.is_gone(
            t.assigned_robot,
            now,
            timeout_ms,
        ))
    }

    /// Frees a robot if it is bound to the given task; an offline robot stays offline.
    fn release_robot(&mut self, robot: Option<RobotId>, task_id: TaskId)
        requires
            old(self)@.wf(),
        ensures
            final(self)@ == old(self)@.released(robot, task_id),
            final(self)@.wf(),
    {
        if let Some(id) = robot {
            if let Some(mut r) = robots_get(&self.robots, id.0) {
                if r.current_task == Some(task_id) {
                    let status = if r.status != RobotStatus::Offline {
                        RobotStatus::Idle
                    } else {
                        RobotStatus::Offline
                    };
                    free_robot(&mut r, status);
                    robots_insert(&mut self.robots, id.0, r);
                }
            }
        }
        assert(self@ =~= old(self)@.released(robot, task_id));
    }

    /// Takes back one task, and says whether it is to be tried again.
    fn reclaim_one(&mut self, t: &Task, max_retries: u8) -> (again: bool)
        requires
            old(self)@.wf(),
            old(self)@.tasks.contains_key(t.id.0),
            old(self)@.tasks[t.id.0] == t@,
        ensures
            again == (t.retry_count < max_retries),
            final(self)@ == old(self)@.reclaimed_one(t@, max_retries),
            final(self)@.wf(),
    {
        let ghost v0 = self@;
        self.release_robot(t.assigned_robot, t.id);
        let mut task = t.clone();
        let again = t.retry_count < max_retries;
        if again {
            take_back_task(&mut task, TaskStatus::Pending);
            task.retry_count = task.retry_count.saturating_add(1);
            self.task_retried = self.task_retried.wrapping_add(1);
        } else {
            take_back_task(&mut task, TaskStatus::Failed);
            self.task_failed = self.task_failed.wrapping_add(1);
        }
        tasks_insert(&mut self.tasks, t.id.0, task);
        assert(self@ =~= v0.reclaimed_one(t@, max_retries));
        again
    }

    /// Takes back all tasks that hang: their robots are freed, and the tasks wait again or,
    /// after too many attempts, are given up.
    pub fn reclaim_stale_tasks(&mut self, now: TimestampMs, timeout_ms: u64, max_retries: u8) -> (r:
        ReclaimOutcome)
        requires
            old(self)@.wf(),
        ensures
            final(self)@ == old(self)@.reclaimed(now, timeout_ms, max_retries),
            final(self)@.wf(),
            enumerates(
                task_id_numbers(r.requeued@),
                old(self)@.requeued(now, timeout_ms, max_retries),
            ),
            enumerates(
                task_id_numbers(r.failed@),
                old(self)@.given_up(now, timeout_ms, max_retries),
            ),
    {
        let ghost v0 = self@;
        let ghost which = v0.hanging(now, timeout_ms);
        let keep = |t: &Task| -> (b: bool)
            ensures
                b == self@.stuck(t@, now, timeout_ms),
            { self.is_stuck(t, now, timeout_ms) };
        let list = select_tasks(&self.tasks, keep, Ghost(which));
        let ghost numbers = task_numbers(task_views(list@));
        let mut requeued: Vec<TaskId> = Vec::new();
        let mut failed: Vec<TaskId> = Vec::new();
        let mut i: usize = 0;
        while i < list.len()
            invariant
                i <= list@.len(),
                v0.wf(),
                self@.wf(),
                which == v0.hanging(now, timeout_ms),
                numbers == task_numbers(task_views(list@)),
                lists_tasks(task_views(list@), v0.tasks, which),
                reclaim_progress(
                    v0,
                    self@,
                    numbers,
                    i as int,
                    requeued@,
                    failed@,
                    now,
                    timeout_ms,
                    max_retries,
                ),
            decreases list@.len() - i,
        {
            let t = &list[i];
            let ghost before = self@;
            let ghost requeued0 = requeued@;
            let ghost failed0 = failed@;
            proof {
                assert(task_views(list@)[i as int] == t@);
                assert(numbers[i as int] == t.id.0);
                assert(numbers.to_set().contains(t.id.0));
                lemma_not_handled(numbers, i as int);
            }
            let again = self.reclaim_one(t, max_retries);
            if again {
                requeued.push(t.id);
            } else {
                failed.push(t.id);
            }
            proof {
                lemma_reclaim_step(
                    v0,
                    before,
                    self@,
                    numbers,
                    i as int,
                    requeued0,
                    failed0,
                    t@,
                    now,
                    timeout_ms,
                    max_retries,
                );
            }
            i = i + 1;
        }
        proof {
            lemma_reclaim_done(
                v0,
                self@,
                numbers,
                requeued@,
                failed@,
                now,
                timeout_ms,
                max_retries,
            );
        }
        ReclaimOutcome { requeued, failed }
    }
}

/// Whether `k` is one of the first `n` numbers.
spec fn handled(numbers: Seq<u64>, n: int, k: u64) -> bool {
    exists|j: int| 0 <= j < n && j < numbers.len() && #[trigger] numbers[j] == k
}

proof fn lemma_not_handled(numbers: Seq<u64>, n: int)
    requires
        numbers.no_duplicates(),
        0 <= n < numbers.len(),
    ensures
        !handled(numbers, n, numbers[n]),
        forall|k: u64| #[trigger]
            handled(numbers, n + 1, k) <==> handled(numbers, n, k) || k == numbers[n],
{
    assert forall|k: u64| #[trigger] handled(numbers, n + 1, k) <==> handled(numbers, n, k) || k
        == numbers[n] by {
        if handled(numbers, n, k) {
            let j = choose|j: int| 0 <= j < n && j < numbers.len() && #[trigger] numbers[j] == k;
            assert(numbers[j] == k);
        }
    }
}

/// The contents after the first `n` of the tasks that hang were taken back.
spec fn reclaim_progress(
    v0: StoreView,
    v: StoreView,
    numbers: Seq<u64>,
    n: int,
    requeued: Seq<TaskId>,
    failed: Seq<TaskId>,
    now: u64,
    timeout_ms: u64,
    max_retries: u8,
) -> bool {
    &&& v == (StoreView {
        robots: v.robots,
        tasks: v.tasks,
        task_retried: count_up(v0.task_retried, requeued.len()),
        task_failed: count_up(v0.task_failed, failed.len()),
        ..v0
    })
    &&& v.robots.dom() == v0.robots.dom()
    &&& v.tasks.dom() == v0.tasks.dom()
    &&& forall|k: u64| #[trigger]
        v0.robots.contains_key(k) ==> v.robots[k] == (if v0.held_up(k, now, timeout_ms) && handled(
            numbers,
            n,
            (v0.robots[k].current_task->0).0,
        ) {
            v0.robots[k].let_go()
        } else {
            v0.robots[k]
        })
    &&& forall|k: u64| #[trigger]
        v0.tasks.contains_key(k) ==> v.tasks[k] == (if handled(numbers, n, k) {
            v0.tasks[k].tried_again(max_retries)
        } else {
            v0.tasks[k]
        })
    &&& requeued.no_duplicates()
    &&& failed.no_duplicates()
    &&& forall|k: u64| #[trigger]
        requeued.contains(TaskId(k)) <==> handled(numbers, n, k) && v0.tasks[k].retry_count
            < max_retries
    &&& forall|k: u64| #[trigger]
        failed.contains(TaskId(k)) <==> handled(numbers, n, k) && v0.tasks[k].retry_count
            >= max_retries
}

/// A list with one more task.
proof fn lemma_pushed_task(list: Seq<TaskId>, x: TaskId)
    requires
        list.no_duplicates(),
        !list.contains(x),
    ensures
        list.push(x).no_duplicates(),
        forall|k: u64| #[trigger]
            list.push(x).contains(TaskId(k)) <==> list.contains(TaskId(k)) || TaskId(k) == x,
{
    let longer = list.push(x);
    assert forall|k: u64| #[trigger]
        longer.contains(TaskId(k)) <==> list.contains(TaskId(k)) || TaskId(k) == x by {
        if list.contains(TaskId(k)) {
            let j = list.index_of(TaskId(k));
            assert(longer[j] == TaskId(k));
        }
        if TaskId(k) == x {
            assert(longer[list.len() as int] == x);
        }
        if longer.contains(TaskId(k)) && TaskId(k) != x {
            let j = longer.index_of(TaskId(k));
            assert(list[j] == TaskId(k));
        }
    }
    assert forall|a: int, b: int|
        0 <= a < longer.len() && 0 <= b < longer.len() && a != b implies longer[a] != longer[b] by {
        if a < list.len() {
            assert(list.contains(list[a]));
        }
        if b < list.len() {
            assert(list.contains(list[b]));
        }
    }
}

/// Taking back one more task.
proof fn lemma_reclaim_step(
    v0: StoreView,
    before: StoreView,
    after: StoreView,
    numbers: Seq<u64>,
    n: int,
    requeued: Seq<TaskId>,
    failed: Seq<TaskId>,
    t: TaskView,
    now: u64,
    timeout_ms: u64,
    max_retries: u8,
)
    requires
        v0.wf(),
        reclaim_progress(
            v0,
            before,
            numbers,
            n,
            requeued,
            failed,
            now,
            timeout_ms,
            max_retries,
        ),
        numbers.no_duplicates(),
        0 <= n < numbers.len(),
        v0.hangs(numbers[n], now, timeout_ms),
        t == v0.tasks[numbers[n]],
        after == before.reclaimed_one(t, max_retries),
    ensures
        reclaim_progress(
            v0,
            after,
            numbers,
            n + 1,
            if t.retry_count < max_retries {
                requeued.push(t.id)
            } else {
                requeued
            },
            if t.retry_count < max_retries {
                failed
            } else {
                failed.push(t.id)
            },
            now,
            timeout_ms,
            max_retries,
        ),
{
    let id = numbers[n];
    lemma_not_handled(numbers, n);
    assert(t.id == TaskId(id));
    assert(before.tasks[id] == t);
    assert(!requeued.contains(TaskId(id)));
    assert(!failed.contains(TaskId(id)));
    if t.retry_count < max_retries {
        lemma_pushed_task(requeued, t.id);
    } else {
        lemma_pushed_task(failed, t.id);
    }
    assert(after.tasks.dom() =~= before.tasks.dom());
    assert forall|k: u64| #[trigger] v0.tasks.contains_key(k) implies after.tasks[k] == (
    if handled(numbers, n + 1, k) {
        v0.tasks[k].tried_again(max_retries)
    } else {
        v0.tasks[k]
    }) by {}
    match t.assigned_robot {
        Some(r) => {
            assert(after.robots.dom() =~= before.robots.dom());
            assert(before.robots.contains_key(r.0) <==> v0.robots.contains_key(r.0));
        },
        None => {},
    }
    assert forall|k: u64| #[trigger] v0.robots.contains_key(k) implies after.robots[k] == (
    if v0.held_up(k, now, timeout_ms) && handled(
        numbers,
        n + 1,
        (v0.robots[k].current_task->0).0,
    ) {
        v0.robots[k].let_go()
    } else {
        v0.robots[k]
    }) by {
        let own = v0.robots[k].current_task;
        assert(before.robots.contains_key(k));
        if own is Some {
            let c = (own->0).0;
            assert(handled(numbers, n + 1, c) <==> handled(numbers, n, c) || c == id);
        }
    }
}

/// Taking back all tasks that hang.
proof fn lemma_reclaim_done(
    v0: StoreView,
    v: StoreView,
    numbers: Seq<u64>,
    requeued: Seq<TaskId>,
    failed: Seq<TaskId>,
    now: u64,
    timeout_ms: u64,
    max_retries: u8,
)
    requires
        v0.wf(),
        reclaim_progress(
            v0,
            v,
            numbers,
            numbers.len() as int,
            requeued,
            failed,
            now,
            timeout_ms,
            max_retries,
        ),
        enumerates(numbers, v0.hanging(now, timeout_ms)),
    ensures
        v == v0.reclaimed(now, timeout_ms, max_retries),
        enumerates(task_id_numbers(requeued), v0.requeued(now, timeout_ms, max_retries)),
        enumerates(task_id_numbers(failed), v0.given_up(now, timeout_ms, max_retries)),
{
    let all = numbers.len() as int;
    let goal = v0.reclaimed(now, timeout_ms, max_retries);
    assert forall|k: u64| #[trigger] handled(numbers, all, k) <==> v0.hangs(
        k,
        now,
        timeout_ms,
    ) by {
        assert(numbers.to_set().contains(k) <==> v0.hanging(now, timeout_ms).contains(k));
        if v0.hangs(k, now, timeout_ms) {
            let j = numbers.index_of(k);
            assert(numbers[j] == k);
        }
        if handled(numbers, all, k) {
            let j = choose|j: int| 0 <= j < all && j < numbers.len() && #[trigger] numbers[j] == k;
            assert(numbers.contains(k));
        }
    }
    lemma_id_numbers(requeued, v0.requeued(now, timeout_ms, max_retries));
    lemma_id_numbers(failed, v0.given_up(now, timeout_ms, max_retries));
    assert(v.robots =~= goal.robots) by {
        assert forall|k: u64| #[trigger] v.robots.contains_key(k) implies v.robots[k]
            == goal.robots[k] by {
            assert(v0.robots.contains_key(k));
            if v0.held_up(k, now, timeout_ms) {
                assert(handled(numbers, all, (v0.robots[k].current_task->0).0));
            }
        }
    }
    assert(v.tasks =~= goal.tasks) by {
        assert forall|k: u64| #[trigger] v.tasks.contains_key(k) implies v.tasks[k]
            == goal.tasks[k] by {
            assert(v0.tasks.contains_key(k));
            assert(handled(numbers, all, k) <==> v0.hangs(k, now, timeout_ms));
        }
    }
}

/// A list of tasks without repetition enumerates the set of its numbers.
proof fn lemma_id_numbers(ids: Seq<TaskId>, set: Set<u64>)
    requires
        ids.no_duplicates(),
        forall|k: u64| #[trigger] ids.contains(TaskId(k)) <==> set.contains(k),
    ensures
        enumerates(task_id_numbers(ids), set),
        ids.len() == set.len(),
{
    let numbers = task_id_numbers(ids);
    assert forall|a: int, b: int|
        0 <= a < numbers.len() && 0 <= b < numbers.len() && a != b implies numbers[a]
        != numbers[b] by {
        assert(ids[a] != ids[b]);
    }
    assert forall|k: u64| numbers.to_set().contains(k) <==> set.contains(k) by {
        if numbers.to_set().contains(k) {
            let j = numbers.index_of(k);
            assert(ids[j] == TaskId(k));
            assert(ids.contains(TaskId(k)));
        }
        if set.contains(k) {
            assert(ids.contains(TaskId(k)));
            let j = ids.index_of(TaskId(k));
            assert(numbers[j] == k);
        }
    }
    assert(numbers.to_set() =~= set);
    numbers.unique_seq_to_set();
}

impl MemoryStore {
    /// Marks all silent robots as offline and says which.
    pub fn evict_stale_robots(&mut self, now: u64, timeout_ms: u64) -> (r: Vec<RobotId>)
        requires
            old(self)@.wf(),
        ensures
            final(self)@ == old(self)@.evicted(now, timeout_ms),
            final(self)@.wf(),
            enumerates(robot_id_numbers(r@), old(self)@.silent(now, timeout_ms)),
    {
        let ghost v0 = self@;
        let ghost which = v0.silent(now, timeout_ms);
        let keep = |s: &RobotState| -> (b: bool)
            ensures
                b == (s@.stale(now, timeout_ms) && s.status != RobotStatus::Offline),
            { s.is_stale(now, timeout_ms) && s.status != RobotStatus::Offline };
        let list = select_robots(&self.robots, keep, Ghost(which));
        let ghost numbers = robot_numbers(robot_views(list@));
        let mut stale: Vec<RobotId> = Vec::new();
        let mut i: usize = 0;
        while i < list.len()
            invariant
                i <= list@.len(),
                v0.wf(),
                self@.wf(),
                which == v0.silent(now, timeout_ms),
                numbers == robot_numbers(robot_views(list@)),
                lists_robots(robot_views(list@), v0.robots, which),
                robot_id_numbers(stale@) == numbers.take(i as int),
                self@ == (StoreView { robots: self@.robots, ..v0 }),
                self@.robots.dom() == v0.robots.dom(),
                forall|k: u64| #[trigger]
                    v0.robots.contains_key(k) ==> self@.robots[k] == (if handled(
                        numbers,
                        i as int,
                        k,
                    ) {
                        v0.robots[k].freed(RobotStatus::Offline)
                    } else {
                        v0.robots[k]
                    }),
            decreases list@.len() - i,
        {
            let ghost before = self@;
            let mut r = list[i].clone();
            let id = r.id;
            proof {
                assert(robot_views(list@)[i as int] == r@);
                assert(numbers[i as int] == id.0);
                assert(numbers.to_set().contains(id.0));
                lemma_not_handled(numbers, i as int);
            }
            free_robot(&mut r, RobotStatus::Offline);
            robots_insert(&mut self.robots, id.0, r);
            let ghost earlier = stale@;
            stale.push(id);
            proof {
                assert(robot_id_numbers(earlier).len() == i);
                assert(earlier.len() == i);
                assert forall|j: int| 0 <= j < i + 1 implies #[trigger] robot_id_numbers(stale@)[j]
                    == numbers.take(i + 1)[j] by {
                    if j < i {
                        assert(robot_id_numbers(earlier)[j] == numbers.take(i as int)[j]);
                    }
                }
                assert(self@.robots == before.robots.insert(
                    id.0,
                    v0.robots[id.0].freed(RobotStatus::Offline),
                ));
                assert(self@.robots.dom() =~= v0.robots.dom());
                assert(robot_id_numbers(stale@) =~= numbers.take(i + 1));
            }
            i = i + 1;
        }
        proof {
            assert(numbers.take(i as int) =~= numbers);
            assert forall|k: u64| #[trigger] handled(numbers, i as int, k) <==> which.contains(
                k,
            ) by {
                assert(numbers.to_set().contains(k) <==> which.contains(k));
                if which.contains(k) {
                    let j = numbers.index_of(k);
                    assert(numbers[j] == k);
                }
                if handled(numbers, i as int, k) {
                    assert(numbers.contains(k));
                }
            }
            assert(self@.robots =~= v0.evicted(now, timeout_ms).robots) by {
                assert forall|k: u64| #[trigger] self@.robots.contains_key(k) implies self@.robots[k]
                    == v0.evicted(now, timeout_ms).robots[k] by {
                    assert(v0.robots.contains_key(k));
                    assert(handled(numbers, i as int, k) <==> which.contains(k));
                }
            }
        }
        stale
    }

    /// Copies of all robots.
    pub fn all_robots(&self) -> (r: Vec<RobotState>)
        requires
            self@.wf(),
        ensures
            lists_robots(robot_views(r@), self@.robots, self@.robots.dom()),
    {
        let keep = |s: &RobotState| -> (b: bool)
            ensures
                b,
            { true };
        select_robots(&self.robots, keep, Ghost(self@.robots.dom()))
    }

    /// Copies of all tasks.
    pub fn all_tasks(&self) -> (r: Vec<Task>)
        requires
            self@.wf(),
        ensures
            lists_tasks(task_views(r@), self@.tasks, self@.tasks.dom()),
    {
        let keep = |t: &Task| -> (b: bool)
            ensures
                b,
            { true };
        select_tasks(&self.tasks, keep, Ghost(self@.tasks.dom()))
    }

    /// The number of robots that are not offline.
    pub fn online_robot_count(&self) -> (r: usize)
        requires
            self@.wf(),
        ensures
            r == self@.online().len(),
    {
        let keep = |s: &RobotState| -> (b: bool)
            ensures
                b == (s.status != RobotStatus::Offline),
            { s.status != RobotStatus::Offline };
        let list = select_robots(&self.robots, keep, Ghost(self@.online()));
        proof {
            robot_numbers(robot_views(list@)).unique_seq_to_set();
        }
        list.len()
    }

    /// The number of robots.
    pub fn robot_count(&self) -> (r: usize)
        ensures
            r == self@.robots.dom().len(),
    {
        robots_len(&self.robots)
    }

    /// The number of tasks.
    pub fn task_count(&self) -> (r: usize)
        ensures
            r == self@.tasks.dom().len(),
    {
        tasks_len(&self.tasks)
    }

    /// The number of heartbeats that were applied.
    pub fn heartbeat_count(&self) -> (r: u64)
        ensures
            r == self@.heartbeat_count,
    {
        self.heartbeat_count
    }

    /// The number of tasks that were submitted.
    pub fn task_submit_count(&self) -> (r: u64)
        ensures
            r == self@.task_submit_count,
    {
        self.task_submit_count
    }

    /// The number of assignments that were made.
    pub fn assigned_count(&self) -> (r: u64)
        ensures
            r == self@.assigned_count,
    {
        self.assigned_count
    }

    /// The number of tasks that were completed.
    pub fn completed_count(&self) -> (r: u64)
        ensures
            r == self@.completed_count,
    {
        self.completed_count
    }

    /// The number of robots that were paroled out of a deadlock.
    pub fn deadlock_resolved_count(&self) -> (r: u64)
        ensures
            r == self@.deadlock_resolved,
    {
        self.deadlock_resolved
    }

    /// The number of tasks that were taken back to be tried again.
    pub fn task_retried_count(&self) -> (r: u64)
        ensures
            r == self@.task_retried,
    {
        self.task_retried
    }

    /// The number of tasks that were given up.
    pub fn task_failed_count(&self) -> (r: u64)
        ensures
            r == self@.task_failed,
    {
        self.task_failed
    }

    /// The number of tasks that wait for a robot.
    pub fn pending_count(&self) -> (r: usize)
        requires
            self@.wf(),
        ensures
            r == self@.pending().len(),
    {
        let list = self.pending_tasks();
        proof {
            task_numbers(task_views(list@)).unique_seq_to_set();
        }
        list.len()
    }

    /// The trail of a robot, from the oldest point to the newest.
    pub fn robot_trail(&self, id: RobotId) -> (r: Vec<TrailPoint>)
        ensures
            r@ == self@.trail(id),
    {
        let mut out: Vec<TrailPoint> = Vec::new();
        if let Some(trail) = trails_get(&self.trails, id.0) {
            let mut i: usize = 0;
            while i < trail.len()
                invariant
                    i <= trail@.len(),
                    out@ == trail@.take(i as int),
                decreases trail@.len() - i,
            {
                out.push(trail[i]);
                i = i + 1;
                assert(out@ =~= trail@.take(i as int));
            }
            assert(out@ =~= trail@);
        }
        out
    }
}

impl Default for MemoryStore {
    /// An empty store.
    fn default() -> (r: Self)
        ensures
            r@ == StoreView::empty(),
            r@.wf(),
    {
        Self::new()
    }
}

impl StoreError {
    /// The text of the error.
    pub open spec fn text(self) -> Seq<char> {
        match self {
            StoreError::RobotNotFound(id) => "机器人不存在: "@ + id.name(),
            StoreError::TaskNotFound(id) => "任务不存在: "@ + id.name(),
            StoreError::RobotNotAvailable(id) => "机器人 "@ + id.name() + " 当前不可分配（非空闲）"@,
        }
    }

    /// The text of the error.
    pub fn message(&self) -> (r: String)
        ensures
            r@ == self.text(),
    {
        let mut out = String::new();
        match self {
            StoreError::RobotNotFound(id) => {
                out.append("机器人不存在: ");
                out.append(id.label().as_str());
            },
            StoreError::TaskNotFound(id) => {
                out.append("任务不存在: ");
                out.append(id.label().as_str());
            },
            StoreError::RobotNotAvailable(id) => {
                out.append("机器人 ");
                out.append(id.label().as_str());
                out.append(" 当前不可分配（非空闲）");
            },
        }
        assert(out@ =~= self.text());
        out
    }
}

} // verus!
