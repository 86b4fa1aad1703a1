//! Domain model: the road network, the robots and the tasks.
//!
//! The module depends on no other layer. Identifiers are newtypes, so that a robot
//! number cannot be taken for a task number.

pub mod laws;
pub mod map;
pub mod robot;
pub mod task;

pub use map::{Edge, EdgeList, Location, NodeId, Path, RoadMap};
pub use robot::{Battery, Heartbeat, RobotId, RobotState, RobotStatus, RobotView, TimestampMs};
pub use task::{Task, TaskId, TaskKey, TaskKind, TaskPriority, TaskStatus, TaskView};
