//! The course of a robot's connection: it registers first, then reports.

use super::codec::{ClientMsg, ServerMsg};
use crate::domain::{
    Battery, Heartbeat, Location, RobotId, RobotState, RobotStatus, RobotView, TaskId,
};
use crate::engine::{Dispatch, DispatchView};
use crate::storage::memory_store::StoreView;
use crate::storage::MemoryStore;
use vstd::prelude::*;

verus! {

/// A connection: the robot that has registered on it.
#[derive(Debug)]
pub struct Connection {
    robot: Option<RobotId>,
}

/// What the server has to do for a connection.
#[derive(Debug, Clone, Copy, PartialEq, Eq, Structural)]
pub enum ConnectionAction {
    /// Nothing.
    Nothing,
    /// Open the way down to a robot and confirm its registration.
    Welcome { robot: RobotId },
    /// Tell the scheduler that a task is done.
    Report { robot: RobotId, task: TaskId },
    /// Close the way down to a robot.
    Farewell { robot: RobotId },
}

impl View for Connection {
    type V = Option<RobotId>;

    closed spec fn view(&self) -> Option<RobotId> {
        self.robot
    }
}

/// The registered robot after a message.
pub open spec fn robot_after(robot: Option<RobotId>, msg: ClientMsg) -> Option<RobotId> {
    match (robot, msg) {
        (None, ClientMsg::Register { id, .. }) => Some(id),
        _ => robot,
    }
}

/// The store after a message: the first registration adds the robot, and after it heartbeats
/// of known robots count. Everything else leaves the store alone.
pub open spec fn store_after(
    robot: Option<RobotId>,
    v: StoreView,
    msg: ClientMsg,
    now: u64,
) -> StoreView {
    match (robot, msg) {
        (None, ClientMsg::Register { id, location, battery }) => v.registered(
            RobotView::onboard(id, location, battery, now),
        ),
        (Some(_), ClientMsg::Heartbeat(hb)) => if v.robots.contains_key(hb.id.0) {
            v.heard(hb)
        } else {
            v
        },
        _ => v,
    }
}

/// What the server has to do after a message.
pub open spec fn action_after(robot: Option<RobotId>, msg: ClientMsg) -> ConnectionAction {
    match (robot, msg) {
        (None, ClientMsg::Register { id, .. }) => ConnectionAction::Welcome { robot: id },
        (Some(_), ClientMsg::TaskDone { robot, task }) => ConnectionAction::Report { robot, task },
        _ => ConnectionAction::Nothing,
    }
}

/// What the server has to do when a connection ends.
pub open spec fn action_at_end(robot: Option<RobotId>) -> ConnectionAction {
    match robot {
        Some(robot) => ConnectionAction::Farewell { robot },
        None => ConnectionAction::Nothing,
    }
}

impl Connection {
    /// A connection on which nobody has registered.
    pub fn new() -> (r: Self)
        ensures
            r@ is None,
    {
        Self { robot: None }
    }

    /// The robot that has registered on the connection.
    pub fn robot(&self) -> (r: Option<RobotId>)
        ensures
            r == self@,
    {
        self.robot
    }

    /// Takes in a message.
    pub fn receive(&mut self, store: &mut MemoryStore, msg: ClientMsg, now: u64) -> (r:
        ConnectionAction)
        requires
            old(store)@.wf(),
        ensures
            final(store)@.wf(),
            final(self)@ == robot_after(old(self)@, msg),
            final(store)@ == store_after(old(self)@, old(store)@, msg, now),
            r == action_after(old(self)@, msg),
    {
        match self.robot {
            None => match msg {
                ClientMsg::Register { id, location, battery } => {
                    store.register_robot(RobotState::onboard(id, location, battery, now));
                    self.robot = Some(id);
                    ConnectionAction::Welcome { robot: id }
                },
                _ => ConnectionAction::Nothing,
            },
            Some(_) => match msg {
                ClientMsg::Heartbeat(hb) => {
                    // a heartbeat of an unknown robot changes nothing
                    let _ = store.apply_heartbeat(hb);
                    ConnectionAction::Nothing
                },
                ClientMsg::TaskDone { robot, task } => ConnectionAction::Report { robot, task },
                ClientMsg::Register { .. } => ConnectionAction::Nothing,
            },
        }
    }

    /// What the server has to do when the connection ends.
    pub fn close(&self) -> (r: ConnectionAction)
        ensures
            r == action_at_end(self@),
            r == (match self@ {
                Some(robot) => ConnectionAction::Farewell { robot },
                None => ConnectionAction::Nothing,
            }),
    {
        match self.robot {
            Some(robot) => ConnectionAction::Farewell { robot },
            None => ConnectionAction::Nothing,
        }
    }
}

/// Whether a message says what an order says.
pub open spec fn tells(msg: ServerMsg, order: DispatchView) -> bool {
    match msg {
        ServerMsg::TaskAssign { task, path, pickup } => task == order.task && path@ == order.path
            && pickup == order.pickup,
        _ => false,
    }
}

/// The message that confirms a registration.
pub fn register_ack(robot: RobotId) -> (r: ServerMsg)
    ensures
        r == (ServerMsg::RegisterAck { robot }),
{
    ServerMsg::RegisterAck { robot }
}

/// The message that carries an order to its robot.
pub fn task_assign(order: &Dispatch) -> (r: ServerMsg)
    ensures
        tells(r, order@),
{
    ServerMsg::TaskAssign { task: order.task, path: order.path.to_vec(), pickup: order.pickup }
}

/// Before it registers, a connection has no effect; and it registers at most one robot.
pub proof fn law_the_first_registration_counts(
    robot: Option<RobotId>,
    v: StoreView,
    msg: ClientMsg,
    now: u64,
)
    ensures
        robot is None && !(msg is Register) ==> robot_after(robot, msg) is None && store_after(
            robot,
            v,
            msg,
            now,
        ) == v && action_after(robot, msg) == ConnectionAction::Nothing,
        robot is Some ==> robot_after(robot, msg) == robot,
        robot is Some && msg is Register ==> store_after(robot, v, msg, now) == v && action_after(
            robot,
            msg,
        ) == ConnectionAction::Nothing,
{
}

/// The first registration on a connection brings the robot online: it is known from then on, as
/// it registered itself, idle and free, and is welcomed.
pub proof fn law_a_registration_brings_a_robot_online(
    v: StoreView,
    id: RobotId,
    location: Location,
    battery: Battery,
    now: u64,
)
    ensures
        ({
            let msg = ClientMsg::Register { id, location, battery };
            let w = store_after(None, v, msg, now);
            &&& robot_after(None, msg) == Some(id)
            &&& action_after(None, msg) == (ConnectionAction::Welcome { robot: id })
            &&& w.robots.contains_key(id.0)
            &&& w.robots[id.0].id == id
            &&& w.robots[id.0].location == location
            &&& w.robots[id.0].battery == battery
            &&& w.robots[id.0].status == RobotStatus::Idle
            &&& w.robots[id.0].current_task is None
            &&& w.robots[id.0].last_heartbeat == now
            &&& w.tasks == v.tasks
        }),
{
}

/// Once a robot has registered, a heartbeat of a known robot counts: the store has the place,
/// the charge and the time that it reports. One of an unknown robot is ignored. Neither is
/// answered.
pub proof fn law_heartbeats_count_after_the_registration(
    robot: RobotId,
    v: StoreView,
    hb: Heartbeat,
    now: u64,
)
    ensures
        ({
            let msg = ClientMsg::Heartbeat(hb);
            let w = store_after(Some(robot), v, msg, now);
            &&& action_after(Some(robot), msg) == ConnectionAction::Nothing
            &&& !v.robots.contains_key(hb.id.0) ==> w == v
            &&& v.robots.contains_key(hb.id.0) ==> {
                &&& w.robots[hb.id.0].location == hb.location
                &&& w.robots[hb.id.0].battery == hb.battery
                &&& w.robots[hb.id.0].last_heartbeat == hb.timestamp
                &&& w.tasks == v.tasks
                &&& v.heartbeat_count < u64::MAX ==> w.heartbeat_count == v.heartbeat_count + 1
            }
        }),
{
}

/// Once a robot has registered, a finished task is passed on to the scheduler, and the store is
/// left to it.
pub proof fn law_finished_tasks_are_passed_on(
    registered: RobotId,
    v: StoreView,
    robot: RobotId,
    task: TaskId,
    now: u64,
)
    ensures
        ({
            let msg = ClientMsg::TaskDone { robot, task };
            &&& action_after(Some(registered), msg) == (ConnectionAction::Report { robot, task })
            &&& store_after(Some(registered), v, msg, now) == v
        }),
{
}

/// A message says which task its robot is to carry out, along which nodes and with which
/// pickup; orders that differ in one of these have different messages.
pub proof fn law_messages_tell_orders_apart(msg: ServerMsg, a: DispatchView, b: DispatchView)
    requires
        tells(msg, a),
        tells(msg, b),
    ensures
        a.task == b.task,
        a.path == b.path,
        a.pickup == b.pickup,
{
}

/// The way down to a robot is closed when its connection ends, and it is the way to the robot
/// that was welcomed on that connection.
pub proof fn law_whoever_was_welcomed_gets_a_farewell(msg: ClientMsg, robot: RobotId)
    ensures
        action_after(None, msg) == (ConnectionAction::Welcome { robot }) ==> action_at_end(
            robot_after(None, msg),
        ) == (ConnectionAction::Farewell { robot }),
        action_at_end(Some(robot)) == (ConnectionAction::Farewell { robot }),
        action_at_end(None) == ConnectionAction::Nothing,
{
}

} // verus!
