//! Robots: identity, battery, status and the state that a heartbeat refreshes.

use super::map::{Location, NodeId};
use super::task::TaskId;
use crate::text::{decimal, decimal_text, pad_left, pad_left_text};
use vstd::prelude::*;

verus! {

/// Identifier of a robot.
#[derive(Debug, Clone, Copy, PartialEq, Eq, Hash, PartialOrd, Ord, Structural)]
pub struct RobotId(pub u64);

impl RobotId {
    /// The robot's name: `ROBOT-` and its number, with at least four digits.
    pub open spec fn name(self) -> Seq<char> {
        "ROBOT-"@ + pad_left(decimal(self.0 as nat), 4, '0')
    }

    /// The robot's name.
    pub fn label(&self) -> (r: String)
        ensures
            r@ == self.name(),
    {
        let mut out = String::new();
        out.append("ROBOT-");
        out.append(pad_left_text(&decimal_text(self.0), 4, true).as_str());
        assert(out@ =~= self.name());
        out
    }
}

/// A time stamp in milliseconds since the start of the process.
pub type TimestampMs = u64;

/// Battery charge in percent.
#[derive(Debug, Clone, Copy, PartialEq, Eq, PartialOrd, Ord, Structural)]
pub struct Battery(pub u8);

impl Battery {
    /// Below this charge a robot goes to a charger and gets no task.
    pub const LOW_THRESHOLD: u8 = 20;

    /// From this charge on a robot counts as charged.
    pub const FULL_THRESHOLD: u8 = 95;

    /// A charge in percent, at most 100.
    pub fn new(percent: u8) -> (r: Self)
        ensures
            r.0 == (if percent < 100 {
                percent
            } else {
                100
            }),
    {
        if percent < 100 {
            Self(percent)
        } else {
            Self(100)
        }
    }

    /// Whether the charge is below the low threshold.
    pub open spec fn low(self) -> bool {
        self.0 < 20
    }

    /// Whether the charge has reached the full threshold.
    pub open spec fn full(self) -> bool {
        self.0 >= 95
    }

    /// Whether the robot has to be charged.
    pub fn is_low(&self) -> (r: bool)
        ensures
            r == self.low(),
    {
        self.0 < Self::LOW_THRESHOLD
    }

    /// Whether the robot is charged enough to work again.
    pub fn is_full(&self) -> (r: bool)
        ensures
            r == self.full(),
    {
        self.0 >= Self::FULL_THRESHOLD
    }
}

/// Status of a robot.
#[derive(Debug, Clone, Copy, PartialEq, Eq, Structural)]
pub enum RobotStatus {
    /// Online and free.
    Idle,
    /// Carrying out a task.
    Busy,
    /// Charging, or on the way to a charger.
    Charging,
    /// Out of order.
    Error,
    /// No heartbeat for too long.
    Offline,
}

impl RobotStatus {
    /// Whether the scheduler may give the robot a task.
    pub fn is_available(&self) -> (r: bool)
        ensures
            r == (*self == RobotStatus::Idle),
    {
        matches!(self, RobotStatus::Idle)
    }
}

/// The complete state of a robot.
#[derive(Debug)]
pub struct RobotState {
    pub id: RobotId,
    pub status: RobotStatus,
    pub location: Location,
    pub battery: Battery,
    /// Time of the last heartbeat.
    pub last_heartbeat: TimestampMs,
    /// The task that the robot is bound to.
    pub current_task: Option<TaskId>,
    /// The node that the robot is driving to.
    pub target: Option<NodeId>,
    /// The planned route, from the start to the target.
    pub route: Vec<NodeId>,
    /// Time of the last change of node.
    pub last_change_ms: TimestampMs,
    /// Whether the robot carries goods.
    pub carrying: bool,
}

/// The mathematical content of a robot's state.
#[verifier::ext_equal]
pub struct RobotView {
    pub id: RobotId,
    pub status: RobotStatus,
    pub location: Location,
    pub battery: Battery,
    pub last_heartbeat: u64,
    pub current_task: Option<TaskId>,
    pub target: Option<NodeId>,
    pub route: Seq<NodeId>,
    pub last_change_ms: u64,
    pub carrying: bool,
}

impl View for RobotState {
    type V = RobotView;

    open spec fn view(&self) -> RobotView {
        RobotView {
            id: self.id,
            status: self.status,
            location: self.location,
            battery: self.battery,
            last_heartbeat: self.last_heartbeat,
            current_task: self.current_task,
            target: self.target,
            route: self.route@,
            last_change_ms: self.last_change_ms,
            carrying: self.carrying,
        }
    }
}

/// The contents of a list of robots.
pub open spec fn robot_views(robots: Seq<RobotState>) -> Seq<RobotView> {
    robots.map_values(|r: RobotState| r@)
}

/// A copy of a sequence of nodes.
pub fn copy_nodes(nodes: &Vec<NodeId>) -> (r: Vec<NodeId>)
    ensures
        r@ == nodes@,
{
    let mut out: Vec<NodeId> = Vec::new();
    let mut i: usize = 0;
    while i < nodes.len()
        invariant
            i <= nodes@.len(),
            out@ == nodes@.take(i as int),
        decreases nodes@.len() - i,
    {
        out.push(nodes[i]);
        i = i + 1;
        assert(out@ =~= nodes@.take(i as int));
    }
    assert(out@ =~= nodes@);
    out
}

impl Clone for RobotState {
    fn clone(&self) -> (r: Self)
        ensures
            r@ == self@,
    {
        RobotState {
            id: self.id,
            status: self.status,
            location: self.location,
            battery: self.battery,
            last_heartbeat: self.last_heartbeat,
            current_task: self.current_task,
            target: self.target,
            route: copy_nodes(&self.route),
            last_change_ms: self.last_change_ms,
            carrying: self.carrying,
        }
    }
}

impl RobotView {
    /// A robot that has just come online.
    pub open spec fn onboard(id: RobotId, location: Location, battery: Battery, now: u64) -> Self {
        RobotView {
            id,
            status: RobotStatus::Idle,
            location,
            battery,
            last_heartbeat: now,
            current_task: None,
            target: None,
            route: Seq::empty(),
            last_change_ms: now,
            carrying: false,
        }
    }

    /// Whether the last heartbeat is more than `timeout_ms` older than `now`.
    pub open spec fn stale(self, now: u64, timeout_ms: u64) -> bool {
        now - self.last_heartbeat > timeout_ms
    }
}

impl RobotState {
    /// The state of a robot that has just come online: idle, with nothing to do.
    pub fn onboard(id: RobotId, location: Location, battery: Battery, now: TimestampMs) -> (r: Self)
        ensures
            r@ == RobotView::onboard(id, location, battery, now),
    {
        let r = Self {
            id,
            status: RobotStatus::Idle,
            location,
            battery,
            last_heartbeat: now,
            current_task: None,
            target: None,
            route: Vec::new(),
            last_change_ms: now,
            carrying: false,
        };
        assert(r@ =~= RobotView::onboard(id, location, battery, now));
        r
    }

    /// Whether the robot has been silent for longer than the timeout.
    pub fn is_stale(&self, now: TimestampMs, timeout_ms: u64) -> (r: bool)
        ensures
            r == self@.stale(now, timeout_ms),
    {
        now.saturating_sub(self.last_heartbeat) > timeout_ms
    }
}

/// A heartbeat: what a robot reports about itself.
#[derive(Debug, Clone, Copy)]
pub struct Heartbeat {
    pub id: RobotId,
    pub battery: Battery,
    pub location: Location,
    pub status: RobotStatus,
    pub timestamp: TimestampMs,
    /// Whether the robot carries goods.
    pub carrying: bool,
}

} // verus!
