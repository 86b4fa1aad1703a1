//! Tasks: kind, priority, life cycle and the key that orders them.

use super::map::{Location, NodeId};
use super::robot::{copy_nodes, RobotId};
use crate::text::{decimal, decimal_text, pad_left, pad_left_text};
use std::cmp::Ordering;
use vstd::prelude::*;

verus! {

/// Identifier of a task.
#[derive(Debug, Clone, Copy, PartialEq, Eq, Hash, Structural)]
pub struct TaskId(pub u64);

impl TaskId {
    /// The task's name: `TASK-` and its number, with at least six digits.
    pub open spec fn name(self) -> Seq<char> {
        "TASK-"@ + pad_left(decimal(self.0 as nat), 6, '0')
    }

    /// The task's name.
    pub fn label(&self) -> (r: String)
        ensures
            r@ == self.name(),
    {
        let mut out = String::new();
        out.append("TASK-");
        out.append(pad_left_text(&decimal_text(self.0), 6, true).as_str());
        assert(out@ =~= self.name());
        out
    }
}

/// Priority of a task, from the lowest to the highest.
#[derive(Debug, Clone, Copy, PartialEq, Eq, PartialOrd, Ord, Structural)]
pub enum TaskPriority {
    Low,
    Normal,
    High,
    Urgent,
}

impl TaskPriority {
    /// The place of the priority in the order, from 0 for the lowest.
    pub open spec fn level(self) -> nat {
        match self {
            TaskPriority::Low => 0,
            TaskPriority::Normal => 1,
            TaskPriority::High => 2,
            TaskPriority::Urgent => 3,
        }
    }

    /// The priority of a level; everything from 3 on is the highest.
    pub open spec fn of_level(level: nat) -> TaskPriority {
        if level == 0 {
            TaskPriority::Low
        } else if level == 1 {
            TaskPriority::Normal
        } else if level == 2 {
            TaskPriority::High
        } else {
            TaskPriority::Urgent
        }
    }

    /// The place of the priority in the order, from 0 for the lowest.
    pub fn rank(self) -> (r: u8)
        ensures
            r == self.level(),
    {
        match self {
            TaskPriority::Low => 0,
            TaskPriority::Normal => 1,
            TaskPriority::High => 2,
            TaskPriority::Urgent => 3,
        }
    }

    /// The next higher priority; the highest stays.
    pub fn bumped(self) -> (r: Self)
        ensures
            r == TaskPriority::of_level(self.level() + 1),
    {
        match self {
            TaskPriority::Low => TaskPriority::Normal,
            TaskPriority::Normal => TaskPriority::High,
            TaskPriority::High | TaskPriority::Urgent => TaskPriority::Urgent,
        }
    }
}

/// Life cycle of a task.
#[derive(Debug, Clone, Copy, PartialEq, Eq, Structural)]
pub enum TaskStatus {
    /// Waiting for a robot.
    Pending,
    /// Given to a robot.
    Assigned,
    /// Being carried out.
    Executing,
    /// Done.
    Completed,
    /// Given up.
    Failed,
}

/// What a task asks for.
#[derive(Debug)]
pub enum TaskKind {
    /// Fetch goods at one place and bring them to another.
    Transport { pickup: Location, dropoff: Location },
    /// Drive to a charger.
    Charge { charger: NodeId },
    /// Pass a list of nodes.
    Patrol { waypoints: Box<Vec<NodeId>> },
}

/// The mathematical content of a task kind.
#[verifier::ext_equal]
pub enum TaskKindView {
    Transport { pickup: Location, dropoff: Location },
    Charge { charger: NodeId },
    Patrol { waypoints: Seq<NodeId> },
}

impl View for TaskKind {
    type V = TaskKindView;

    open spec fn view(&self) -> TaskKindView {
        match *self {
            TaskKind::Transport { pickup, dropoff } => TaskKindView::Transport { pickup, dropoff },
            TaskKind::Charge { charger } => TaskKindView::Charge { charger },
            TaskKind::Patrol { waypoints } => TaskKindView::Patrol { waypoints: waypoints@ },
        }
    }
}

impl Clone for TaskKind {
    fn clone(&self) -> (r: Self)
        ensures
            r@ == self@,
    {
        match self {
            TaskKind::Transport { pickup, dropoff } => TaskKind::Transport {
                pickup: *pickup,
                dropoff: *dropoff,
            },
            TaskKind::Charge { charger } => TaskKind::Charge { charger: *charger },
            TaskKind::Patrol { waypoints } => TaskKind::Patrol {
                waypoints: Box::new(copy_nodes(waypoints)),
            },
        }
    }
}

/// A task.
#[derive(Debug)]
pub struct Task {
    pub id: TaskId,
    pub kind: TaskKind,
    pub priority: TaskPriority,
    pub status: TaskStatus,
    /// The robot that the task is given to.
    pub assigned_robot: Option<RobotId>,
    /// Time of creation.
    pub created_at: u64,
    /// How many times the task was taken back and tried again.
    pub retry_count: u8,
    /// Time of the last assignment; 0 for a task that is not assigned.
    pub assigned_at: u64,
}

/// The mathematical content of a task.
#[verifier::ext_equal]
pub struct TaskView {
    pub id: TaskId,
    pub kind: TaskKindView,
    pub priority: TaskPriority,
    pub status: TaskStatus,
    pub assigned_robot: Option<RobotId>,
    pub created_at: u64,
    pub retry_count: u8,
    pub assigned_at: u64,
}

impl View for Task {
    type V = TaskView;

    open spec fn view(&self) -> TaskView {
        TaskView {
            id: self.id,
            kind: self.kind@,
            priority: self.priority,
            status: self.status,
            assigned_robot: self.assigned_robot,
            created_at: self.created_at,
            retry_count: self.retry_count,
            assigned_at: self.assigned_at,
        }
    }
}

/// The contents of a list of tasks.
pub open spec fn task_views(tasks: Seq<Task>) -> Seq<TaskView> {
    tasks.map_values(|t: Task| t@)
}

impl Clone for Task {
    fn clone(&self) -> (r: Self)
        ensures
            r@ == self@,
    {
        Task {
            id: self.id,
            kind: self.kind.clone(),
            priority: self.priority,
            status: self.status,
            assigned_robot: self.assigned_robot,
            created_at: self.created_at,
            retry_count: self.retry_count,
            assigned_at: self.assigned_at,
        }
    }
}

/// A node's number for display, or a question mark for a point off the network.
pub open spec fn node_or_unknown(node: Option<NodeId>) -> Seq<char> {
    match node {
        Some(n) => decimal(n.0 as nat),
        None => "?"@,
    }
}

fn node_or_unknown_text(node: Option<NodeId>) -> (r: String)
    ensures
        r@ == node_or_unknown(node),
{
    match node {
        Some(n) => decimal_text(n.0 as u64),
        None => {
            let mut out = String::new();
            out.append("?");
            assert(out@ =~= "?"@);
            out
        },
    }
}

impl TaskView {
    /// A task that waits for a robot.
    pub open spec fn fresh(
        id: TaskId,
        kind: TaskKindView,
        priority: TaskPriority,
        created_at: u64,
    ) -> Self {
        TaskView {
            id,
            kind,
            priority,
            status: TaskStatus::Pending,
            assigned_robot: None,
            created_at,
            retry_count: 0,
            assigned_at: 0,
        }
    }

    /// The priority after a wait: one level more for each full `aging_ms`, up to the
    /// highest. There is no ageing with a step of 0.
    pub open spec fn aged(self, waited_ms: nat, aging_ms: nat) -> TaskPriority {
        if aging_ms == 0 {
            self.priority
        } else {
            TaskPriority::of_level(self.priority.level() + waited_ms / aging_ms)
        }
    }

    /// The priority at the time `now`.
    pub open spec fn priority_at(self, now: u64, aging_ms: u64) -> TaskPriority {
        self.aged(
            if now >= self.created_at {
                (now - self.created_at) as nat
            } else {
                0
            },
            aging_ms as nat,
        )
    }

    /// The first node that a robot has to drive to.
    pub open spec fn goal(self) -> Option<NodeId> {
        match self.kind {
            TaskKindView::Transport { pickup, .. } => pickup.node,
            TaskKindView::Charge { charger } => Some(charger),
            TaskKindView::Patrol { waypoints } => if waypoints.len() > 0 {
                Some(waypoints[0])
            } else {
                None
            },
        }
    }

    /// The description of the task's kind.
    pub open spec fn description(self) -> Seq<char> {
        match self.kind {
            TaskKindView::Transport { pickup, dropoff } => "搬运 N"@ + node_or_unknown(pickup.node)
                + " → N"@ + node_or_unknown(dropoff.node),
            TaskKindView::Charge { charger } => "回充 N"@ + decimal(charger.0 as nat),
            TaskKindView::Patrol { waypoints } => "巡检 "@ + decimal(waypoints.len())
                + " 个航点"@,
        }
    }
}

impl Task {
    /// A new task, waiting for a robot.
    pub fn new(id: TaskId, kind: TaskKind, priority: TaskPriority, created_at: u64) -> (r: Self)
        ensures
            r@ == TaskView::fresh(id, kind@, priority, created_at),
    {
        Self {
            id,
            kind,
            priority,
            status: TaskStatus::Pending,
            assigned_robot: None,
            created_at,
            retry_count: 0,
            assigned_at: 0,
        }
    }

    /// The priority after a wait of `waited_ms`: one level more for each full `aging_ms`,
    /// up to the highest. There is no ageing with a step of 0.
    pub fn effective_priority(&self, waited_ms: u64, aging_ms: u64) -> (r: TaskPriority)
        ensures
            r == self@.aged(waited_ms as nat, aging_ms as nat),
    {
        if aging_ms == 0 {
            return self.priority;
        }
        let steps: u64 = waited_ms / aging_ms;
        let boosts: u64 = if steps < 3 {
            steps
        } else {
            3
        };
        let mut p = self.priority;
        let mut i: u64 = 0;
        while i < boosts
            invariant
                i <= boosts <= 3,
                p == TaskPriority::of_level(self.priority.level() + i as nat),
            decreases boosts - i,
        {
            p = p.bumped();
            i = i + 1;
        }
        p
    }

    /// The priority at the time `now`; a task created later than `now` has not waited.
    pub fn effective_priority_at(&self, now: u64, aging_ms: u64) -> (r: TaskPriority)
        ensures
            r == self@.priority_at(now, aging_ms),
    {
        self.effective_priority(now.saturating_sub(self.created_at), aging_ms)
    }

    /// Whether the task waits for a robot.
    pub fn is_pending(&self) -> (r: bool)
        ensures
            r == (self.status == TaskStatus::Pending),
    {
        matches!(self.status, TaskStatus::Pending)
    }

    /// The first node that a robot has to drive to: the pickup point, the charger, or the
    /// first waypoint.
    pub fn goal_node(&self) -> (r: Option<NodeId>)
        ensures
            r == self@.goal(),
    {
        match &self.kind {
            TaskKind::Transport { pickup, .. } => pickup.node,
            TaskKind::Charge { charger } => Some(*charger),
            TaskKind::Patrol { waypoints } => if waypoints.len() > 0 {
                Some(waypoints[0])
            } else {
                None
            },
        }
    }

    /// A short description of the task's kind.
    pub fn kind_desc(&self) -> (r: String)
        ensures
            r@ == self@.description(),
    {
        let mut out = String::new();
        match &self.kind {
            TaskKind::Transport { pickup, dropoff } => {
                out.append("搬运 N");
                out.append(node_or_unknown_text(pickup.node).as_str());
                out.append(" → N");
                out.append(node_or_unknown_text(dropoff.node).as_str());
            },
            TaskKind::Charge { charger } => {
                out.append("回充 N");
                out.append(decimal_text(charger.0 as u64).as_str());
            },
            TaskKind::Patrol { waypoints } => {
                out.append("巡检 ");
                out.append(decimal_text(waypoints.len() as u64).as_str());
                out.append(" 个航点");
            },
        }
        assert(out@ =~= self@.description());
        out
    }
}

/// Ordering key of a task: the greater key is served first.
#[derive(Debug, Clone, Copy, PartialEq, Eq, Structural)]
pub struct TaskKey {
    pub priority: TaskPriority,
    pub created_at: u64,
    pub id: TaskId,
}

/// How two tasks compare: by priority, and between equals the earlier task is greater.
pub open spec fn key_order(a: TaskKey, b: TaskKey) -> Ordering {
    if a.priority.level() < b.priority.level() {
        Ordering::Less
    } else if a.priority.level() > b.priority.level() {
        Ordering::Greater
    } else if a.created_at > b.created_at {
        Ordering::Less
    } else if a.created_at < b.created_at {
        Ordering::Greater
    } else {
        Ordering::Equal
    }
}

impl PartialOrd for TaskKey {
    fn partial_cmp(&self, other: &Self) -> (r: Option<Ordering>) {
        let a = self.priority.rank();
        let b = other.priority.rank();
        if a < b {
            Some(Ordering::Less)
        } else if a > b {
            Some(Ordering::Greater)
        } else if self.created_at > other.created_at {
            Some(Ordering::Less)
        } else if self.created_at < other.created_at {
            Some(Ordering::Greater)
        } else {
            Some(Ordering::Equal)
        }
    }
}

impl vstd::std_specs::cmp::PartialOrdSpecImpl for TaskKey {
    open spec fn obeys_partial_cmp_spec() -> bool {
        true
    }

    open spec fn partial_cmp_spec(&self, other: &Self) -> Option<Ordering> {
        Some(key_order(*self, *other))
    }
}

} // verus!
