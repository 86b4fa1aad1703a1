//! The scheduling engine: route planning, conflict analysis and the scheduler itself.

pub mod conflict;
pub mod laws;
pub mod matching;
pub mod open_list;
pub mod outbox;
pub mod pathfinding;
pub mod planning_laws;
pub mod scheduler;

use crate::domain::{NodeId, Path, RobotId, Task, TaskId};
use vstd::prelude::*;

pub use conflict::ConflictReport;
pub use outbox::Outbox;
pub use pathfinding::{AStarPathfinder, Pathfinder};
pub use scheduler::Scheduler;

verus! {

/// An event for the scheduler.
#[derive(Debug)]
pub enum SchedulerEvent {
    /// A task was handed in.
    TaskSubmitted(Task),
    /// A robot has finished a task.
    TaskCompleted { robot: RobotId, task: TaskId },
    /// The scheduler is to stop.
    Shutdown,
}

impl Clone for SchedulerEvent {
    fn clone(&self) -> (r: Self)
        ensures
            match *self {
                SchedulerEvent::TaskSubmitted(task) => r matches SchedulerEvent::TaskSubmitted(copy)
                    && copy@ == task@,
                SchedulerEvent::TaskCompleted { .. } => r == *self,
                SchedulerEvent::Shutdown => r == *self,
            },
    {
        match self {
            SchedulerEvent::TaskSubmitted(task) => SchedulerEvent::TaskSubmitted(task.clone()),
            SchedulerEvent::TaskCompleted { robot, task } => SchedulerEvent::TaskCompleted {
                robot: *robot,
                task: *task,
            },
            SchedulerEvent::Shutdown => SchedulerEvent::Shutdown,
        }
    }
}

/// An order for a robot.
#[derive(Debug)]
pub struct Dispatch {
    pub robot: RobotId,
    pub task: TaskId,
    /// The nodes to drive along. For a transport: by way of the pickup to the drop-off.
    pub path: Path,
    /// The node where the robot takes its load; none for other tasks than transports.
    pub pickup: Option<NodeId>,
}

/// The mathematical content of an order.
#[verifier::ext_equal]
pub struct DispatchView {
    pub robot: RobotId,
    pub task: TaskId,
    pub path: Seq<NodeId>,
    pub pickup: Option<NodeId>,
}

impl View for Dispatch {
    type V = DispatchView;

    open spec fn view(&self) -> DispatchView {
        DispatchView {
            robot: self.robot,
            task: self.task,
            path: self.path@,
            pickup: self.pickup,
        }
    }
}

impl Clone for Dispatch {
    fn clone(&self) -> (r: Self)
        ensures
            r@ == self@,
    {
        Dispatch {
            robot: self.robot,
            task: self.task,
            path: self.path.clone(),
            pickup: self.pickup,
        }
    }
}

} // verus!
