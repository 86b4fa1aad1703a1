//! What holds of every round of the scheduler.

use super::conflict::{
    is_deadlock, law_a_robot_waits_for_whoever_holds_its_target,
    law_a_robot_without_target_is_in_no_deadlock, next_in, reports_deadlocks, waits,
    waits_for_next, waits_on,
};
use super::matching::{
    gap, is_nearest, is_serving_order, is_victim, law_the_victim_is_unique, located, nearest,
    numbered, planned, task_rank, victim,
};
use super::outbox::{taken, Offer};
use super::pathfinding::Pathfinder;
use super::planning_laws::{
    apart, can_be_planned, law_no_robot_is_nearer_than_the_nearest,
    law_planning_succeeds_whenever_it_can, law_tasks_are_served_by_level_then_age_then_number,
    law_the_least_urgent_robot_is_the_victim, level_at, on_network, rank_of, spot,
};
use super::scheduler::{
    answer_to, candidates, cooldown_end, current_priorities, current_tasks, is_matched,
    is_resolved, is_ticked, lemma_played_offers, pending_after_event, played, proposal,
    round_start, still_cooling, store_after_event, turn, ways_given, with_requeued, without,
    ProposalView, Round, SchedulerView, Standoff,
};
use super::{DispatchView, SchedulerEvent};
use crate::config::SystemConfig;
use crate::domain::map::RoadMapView;
use crate::domain::task::TaskKindView;
use crate::domain::{
    Battery, Heartbeat, Location, NodeId, RobotId, RobotStatus, RobotView, Task, TaskId,
    TaskPriority, TaskStatus, TaskView,
};
use crate::storage::laws::{
    law_tasks_that_take_too_long_are_taken_back, law_unassign_undoes_assign, orderly,
    unbound_unless_busy,
};
use crate::storage::memory_store::{lists_robots, robot_numbers, StoreError, StoreView};
use crate::storage::tables::enumerates;
use vstd::prelude::*;

verus! {

// ---------------------------------------------------------------- matching
/// Whether a task can never be carried out: it has no first node, or one without coordinates.
pub open spec fn leads_nowhere(map: RoadMapView, task: TaskView) -> bool {
    match task.goal() {
        Some(goal) => !map.nodes.contains_key(goal.0),
        None => true,
    }
}

/// Whether the store says what an order says: the robot is busy with the task along the path,
/// and the task is given to the robot.
pub open spec fn is_recorded(v: StoreView, order: DispatchView, now: u64) -> bool {
    let r = v.robots[order.robot.0];
    let t = v.tasks[order.task.0];
    &&& v.robots.contains_key(order.robot.0)
    &&& r.status == RobotStatus::Busy
    &&& r.current_task == Some(order.task)
    &&& r.route == order.path
    &&& v.tasks.contains_key(order.task.0)
    &&& t.status == TaskStatus::Assigned
    &&& t.assigned_robot == Some(order.robot)
    &&& t.assigned_at == now
}

/// Whether an order for the task is among `sent`.
pub open spec fn is_sent(sent: Seq<DispatchView>, task: u64) -> bool {
    exists|i: int| 0 <= i < sent.len() && (#[trigger] sent[i]).task.0 == task
}

/// Whether two stores say the same of a robot.
pub open spec fn same_robot(a: StoreView, b: StoreView, robot: u64) -> bool {
    &&& a.robots.contains_key(robot) <==> b.robots.contains_key(robot)
    &&& a.robots.contains_key(robot) ==> a.robots[robot] == b.robots[robot]
}

/// What holds between two turns of a round that began as `s0` with the robots `ready`.
spec fn round_inv(map: RoadMapView, now: u64, ready: Set<u64>, s0: Round, s: Round) -> bool {
    &&& forall|i: int| 0 <= i < s.free.len() ==> ready.contains((#[trigger] s.free[i]).id.0)
    &&& forall|i: int, j: int|
        0 <= i < j < s.free.len() ==> (#[trigger] s.free[i]).id != (#[trigger] s.free[j]).id
    &&& forall|i: int| 0 <= i < s.sent.len() ==> ready.contains((#[trigger] s.sent[i]).robot.0)
    &&& forall|i: int, j: int|
        0 <= i < s.sent.len() && 0 <= j < s.free.len() ==> (#[trigger] s.sent[i]).robot != (
        #[trigger] s.free[j]).id
    &&& forall|i: int, j: int|
        0 <= i < j < s.sent.len() ==> (#[trigger] s.sent[i]).robot != (#[trigger] s.sent[j]).robot
            && s.sent[i].task != s.sent[j].task
    &&& forall|i: int|
        0 <= i < s.sent.len() ==> {
            &&& s0.pending.contains_key((#[trigger] s.sent[i]).task.0)
            &&& !s.pending.contains_key(s.sent[i].task.0)
            &&& is_recorded(s.store, s.sent[i], now)
        }
    &&& forall|k: u64| #[trigger]
        s.pending.contains_key(k) ==> s0.pending.contains_key(k) && s.pending[k] == s0.pending[k]
    &&& forall|k: u64| #[trigger]
        s0.pending.contains_key(k) ==> s.pending.contains_key(k) || is_sent(s.sent, k)
            || leads_nowhere(map, s0.pending[k])
    &&& forall|k: u64| !ready.contains(k) ==> #[trigger] same_robot(s0.store, s.store, k)
    &&& numbered(s0.pending)
}

/// A list of robots after one left.
proof fn lemma_without(free: Seq<RobotView>, i: int)
    requires
        0 <= i < free.len(),
        forall|a: int, b: int|
            0 <= a < b < free.len() ==> (#[trigger] free[a]).id != (#[trigger] free[b]).id,
    ensures
        forall|a: int, b: int|
            0 <= a < b < without(free, i).len() ==> (#[trigger] without(free, i)[a]).id != (
            #[trigger] without(free, i)[b]).id,
        forall|a: int|
            0 <= a < without(free, i).len() ==> (#[trigger] without(free, i)[a]).id != free[i].id,
        forall|a: int|
            0 <= a < without(free, i).len() ==> exists|b: int|
                0 <= b < free.len() && #[trigger] free[b] == (#[trigger] without(free, i)[a]),
{
    let out = without(free, i);
    let last = free.len() - 1;
    assert forall|a: int| 0 <= a < out.len() implies exists|b: int|
        0 <= b < free.len() && #[trigger] free[b] == (#[trigger] out[a]) by {
        let b = if a == i {
            last
        } else {
            a
        };
        assert(out[a] == free[b]);
    }
    assert forall|a: int, b: int| 0 <= a < b < out.len() implies (#[trigger] out[a]).id != (
    #[trigger] out[b]).id by {
        let a2 = if a == i {
            last
        } else {
            a
        };
        let b2 = if b == i {
            last
        } else {
            b
        };
        assert(out[a] == free[a2]);
        assert(out[b] == free[b2]);
        if a2 < b2 {
            assert(free[a2].id != free[b2].id);
        } else {
            assert(free[b2].id != free[a2].id);
        }
    }
    assert forall|a: int| 0 <= a < out.len() implies (#[trigger] out[a]).id != free[i].id by {
        let a2 = if a == i {
            last
        } else {
            a
        };
        assert(out[a] == free[a2]);
        if a2 < i {
            assert(free[a2].id != free[i].id);
        } else {
            assert(free[i].id != free[a2].id);
        }
    }
}

/// A turn keeps what holds of a round.
proof fn lemma_turn<P: Pathfinder>(
    pf: &P,
    map: RoadMapView,
    now: u64,
    ready: Set<u64>,
    s0: Round,
    s: Round,
    task: u64,
    refused: bool,
)
    requires
        round_inv(map, now, ready, s0, s),
    ensures
        round_inv(map, now, ready, s0, turn(pf, map, now, s, task, refused)),
{
    let t = turn(pf, map, now, s, task, refused);
    if !s.over && s.pending.contains_key(task) {
        match proposal(pf, map, s.free, s.pending[task]) {
            ProposalView::Wait => {},
            ProposalView::Discard => {
                assert(leads_nowhere(map, s0.pending[task]));
            },
            ProposalView::Send { index, order, end } => {
                lemma_nearest_index(pf, map, s.free, s.pending[task]);
                lemma_without(s.free, index);
                assert(order.robot == s.free[index].id);
                assert(order.task == TaskId(task));
                assert(ready.contains(order.robot.0));
                let store = s.store.assigned(order.robot, order.task, end.node, order.path, now);
                assert forall|i: int| 0 <= i < s.sent.len() implies is_recorded(
                    t.store,
                    #[trigger] s.sent[i],
                    now,
                ) by {
                    assert(s.sent[i].robot != s.free[index].id);
                    assert(s.sent[i].task.0 != task);
                    assert(is_recorded(s.store, s.sent[i], now));
                }
                assert forall|k: u64| !ready.contains(k) implies #[trigger] same_robot(
                    s0.store,
                    t.store,
                    k,
                ) by {
                    assert(k != order.robot.0);
                    assert(same_robot(s0.store, s.store, k));
                    assert(same_robot(s.store, store, k));
                    assert(same_robot(store, t.store, k));
                }
                assert forall|i: int| 0 <= i < t.free.len() implies ready.contains(
                    (#[trigger] t.free[i]).id.0,
                ) && s.free.contains(t.free[i]) by {
                    if t.free == without(s.free, index) {
                        let b = choose|b: int|
                            0 <= b < s.free.len() && #[trigger] s.free[b] == without(
                                s.free,
                                index,
                            )[i];
                    } else {
                        assert(t.free[i] == s.free[i]);
                    }
                }
                assert forall|i: int, j: int|
                    0 <= i < s.sent.len() && 0 <= j < t.free.len() implies (
                #[trigger] s.sent[i]).robot != (#[trigger] t.free[j]).id by {
                    let b = s.free.index_of(t.free[j]);
                    assert(s.free[b] == t.free[j]);
                }
                if s.store.assign_error(order.robot, order.task) is None && !refused {
                    assert(is_recorded(t.store, order, now));
                    assert forall|k: u64| #[trigger] s0.pending.contains_key(k) implies t.pending.contains_key(
                        k,
                    ) || is_sent(t.sent, k) || leads_nowhere(map, s0.pending[k]) by {
                        if k == task {
                            assert(t.sent[s.sent.len() as int].task.0 == k);
                        } else if is_sent(s.sent, k) {
                            let i = choose|i: int|
                                0 <= i < s.sent.len() && (#[trigger] s.sent[i]).task.0 == k;
                            assert(t.sent[i] == s.sent[i]);
                        }
                    }
                    assert forall|i: int| 0 <= i < t.sent.len() implies {
                        &&& s0.pending.contains_key((#[trigger] t.sent[i]).task.0)
                        &&& !t.pending.contains_key(t.sent[i].task.0)
                        &&& is_recorded(t.store, t.sent[i], now)
                    } by {
                        if i < s.sent.len() {
                            assert(t.sent[i] == s.sent[i]);
                        }
                    }
                    assert forall|i: int, j: int| 0 <= i < j < t.sent.len() implies (
                    #[trigger] t.sent[i]).robot != (#[trigger] t.sent[j]).robot && t.sent[i].task
                        != t.sent[j].task by {
                        assert(t.sent[i] == s.sent[i]);
                        if j < s.sent.len() {
                            assert(t.sent[j] == s.sent[j]);
                        }
                    }
                    assert forall|i: int, j: int|
                        0 <= i < t.sent.len() && 0 <= j < t.free.len() implies (
                    #[trigger] t.sent[i]).robot != (#[trigger] t.free[j]).id by {
                        let b = choose|b: int|
                            0 <= b < s.free.len() && #[trigger] s.free[b] == t.free[j];
                        if i < s.sent.len() {
                            assert(t.sent[i] == s.sent[i]);
                        }
                    }
                }
            },
        }
    }
}

/// The robot that a proposal sends is one of the free ones.
proof fn lemma_nearest_index<P: Pathfinder>(
    pf: &P,
    map: RoadMapView,
    free: Seq<RobotView>,
    task: TaskView,
)
    ensures
        proposal(pf, map, free, task) matches ProposalView::Send { index, order, .. } ==> 0 <= index
            < free.len() && order.robot == free[index].id && order.task == task.id,
{
}

/// All turns keep what holds of a round.
proof fn lemma_played<P: Pathfinder>(
    pf: &P,
    map: RoadMapView,
    now: u64,
    ready: Set<u64>,
    s0: Round,
    order: Seq<u64>,
    n: nat,
    refused_at: int,
)
    requires
        round_inv(map, now, ready, s0, s0),
    ensures
        round_inv(map, now, ready, s0, played(pf, map, now, s0, order, n, refused_at)),
    decreases n,
{
    if n > 0 {
        let i = (n - 1) as nat;
        lemma_played(pf, map, now, ready, s0, order, i, refused_at);
        lemma_turn(
            pf,
            map,
            now,
            ready,
            s0,
            played(pf, map, now, s0, order, i, refused_at),
            order[i as int],
            refused_at == i,
        );
    }
}

/// The robots that take part in a round of matching: idle, heard of in time, charged and not
/// cooling down.
pub open spec fn ready_robots(
    v: StoreView,
    config: SystemConfig,
    cooldown: Map<u64, u64>,
    now: u64,
) -> Set<u64> {
    candidates(
        v.evicted(now, config.heartbeat_timeout_ms),
        cooldown,
        now,
        config.heartbeat_timeout_ms,
    )
}

/// How a round of matching went.
struct Course {
    /// The robots that could be sent.
    free: Seq<RobotView>,
    /// The tasks in the order of service.
    order: Seq<u64>,
    /// The turn in which the channel refused an order, if it refused one.
    refused_at: int,
}

impl Course {
    /// The beginning of the round.
    spec fn start(self, v: StoreView, pending: Map<u64, TaskView>, offers: Seq<Offer>) -> Round {
        round_start(v, self.free, pending, offers)
    }

    /// The end of a round that began as `s`.
    spec fn end<P: Pathfinder>(self, pf: &P, map: RoadMapView, now: u64, s: Round) -> Round {
        played(pf, map, now, s, self.order, self.order.len(), self.refused_at)
    }
}

/// Every round of matching went in some way.
proof fn lemma_course<P: Pathfinder>(
    pf: &P,
    map: RoadMapView,
    config: SystemConfig,
    cooldown: Map<u64, u64>,
    now: u64,
    v: StoreView,
    pending: Map<u64, TaskView>,
    offers: Seq<Offer>,
    end: Round,
) -> (c: Course)
    requires
        is_matched(pf, map, config, cooldown, now, v, pending, offers, end),
    ensures
        ({
            let swept = v.evicted(now, config.heartbeat_timeout_ms);
            &&& lists_robots(c.free, swept.robots, ready_robots(v, config, cooldown, now))
            &&& is_serving_order(c.order, pending, now, config.priority_aging_ms)
            &&& end == c.end(pf, map, now, c.start(swept, pending, offers))
        }),
{
    let swept = v.evicted(now, config.heartbeat_timeout_ms);
    let (free, order, refused_at) = choose|free: Seq<RobotView>, order: Seq<u64>, refused_at: int|
        {
            &&& lists_robots(free, swept.robots, ready_robots(v, config, cooldown, now))
            &&& is_serving_order(order, pending, now, config.priority_aging_ms)
            &&& end == #[trigger] played(
                pf,
                map,
                now,
                round_start(swept, free, pending, offers),
                order,
                order.len(),
                refused_at,
            )
        };
    Course { free, order, refused_at }
}

/// What holds of a whole round.
proof fn lemma_matched<P: Pathfinder>(
    pf: &P,
    map: RoadMapView,
    config: SystemConfig,
    cooldown: Map<u64, u64>,
    now: u64,
    v: StoreView,
    pending: Map<u64, TaskView>,
    offers: Seq<Offer>,
    end: Round,
) -> (s0: Round)
    requires
        numbered(pending),
        is_matched(pf, map, config, cooldown, now, v, pending, offers, end),
    ensures
        s0.store == v.evicted(now, config.heartbeat_timeout_ms),
        s0.pending == pending,
        round_inv(map, now, ready_robots(v, config, cooldown, now), s0, end),
{
    let swept = v.evicted(now, config.heartbeat_timeout_ms);
    let ready = ready_robots(v, config, cooldown, now);
    let c = lemma_course(pf, map, config, cooldown, now, v, pending, offers, end);
    let free = c.free;
    let s0 = c.start(swept, pending, offers);
    let numbers = robot_numbers(free);
    assert forall|i: int| 0 <= i < free.len() implies ready.contains((#[trigger] free[i]).id.0) by {
        assert(numbers[i] == free[i].id.0);
        assert(numbers.to_set().contains(numbers[i]));
    }
    assert forall|i: int, j: int| 0 <= i < j < free.len() implies (#[trigger] free[i]).id != (
    #[trigger] free[j]).id by {
        assert(numbers[i] == free[i].id.0);
        assert(numbers[j] == free[j].id.0);
        assert(numbers[i] != numbers[j]);
    }
    assert(round_inv(map, now, ready, s0, s0));
    lemma_played(pf, map, now, ready, s0, c.order, c.order.len(), c.refused_at);
    s0
}

/// A round of matching sends orders only to robots that are idle, heard of in time, charged and
/// not cooling down, and leaves all others alone.
pub proof fn law_only_ready_robots_get_orders<P: Pathfinder>(
    pf: &P,
    map: RoadMapView,
    config: SystemConfig,
    cooldown: Map<u64, u64>,
    now: u64,
    v: StoreView,
    pending: Map<u64, TaskView>,
    offers: Seq<Offer>,
    end: Round,
)
    requires
        numbered(pending),
        is_matched(pf, map, config, cooldown, now, v, pending, offers, end),
    ensures
        forall|i: int|
            0 <= i < end.sent.len() ==> ready_robots(v, config, cooldown, now).contains(
                (#[trigger] end.sent[i]).robot.0,
            ),
        forall|k: u64|
            !ready_robots(v, config, cooldown, now).contains(k) ==> #[trigger] same_robot(
                v.evicted(now, config.heartbeat_timeout_ms),
                end.store,
                k,
            ),
{
    let s0 = lemma_matched(pf, map, config, cooldown, now, v, pending, offers, end);
}

/// In a round each robot and each task gets at most one order.
pub proof fn law_nobody_gets_two_orders<P: Pathfinder>(
    pf: &P,
    map: RoadMapView,
    config: SystemConfig,
    cooldown: Map<u64, u64>,
    now: u64,
    v: StoreView,
    pending: Map<u64, TaskView>,
    offers: Seq<Offer>,
    end: Round,
)
    requires
        numbered(pending),
        is_matched(pf, map, config, cooldown, now, v, pending, offers, end),
    ensures
        forall|i: int, j: int|
            0 <= i < j < end.sent.len() ==> (#[trigger] end.sent[i]).robot != (
            #[trigger] end.sent[j]).robot && end.sent[i].task != end.sent[j].task,
{
    let s0 = lemma_matched(pf, map, config, cooldown, now, v, pending, offers, end);
}

/// The store records every order that was sent, and the task of an order no longer waits.
pub proof fn law_orders_are_recorded<P: Pathfinder>(
    pf: &P,
    map: RoadMapView,
    config: SystemConfig,
    cooldown: Map<u64, u64>,
    now: u64,
    v: StoreView,
    pending: Map<u64, TaskView>,
    offers: Seq<Offer>,
    end: Round,
)
    requires
        numbered(pending),
        is_matched(pf, map, config, cooldown, now, v, pending, offers, end),
    ensures
        forall|i: int|
            0 <= i < end.sent.len() ==> is_recorded(end.store, #[trigger] end.sent[i], now)
                && pending.contains_key(end.sent[i].task.0) && !end.pending.contains_key(
                end.sent[i].task.0,
            ),
{
    let s0 = lemma_matched(pf, map, config, cooldown, now, v, pending, offers, end);
}

/// No waiting task is lost: it still waits as it was, or an order for it was sent, or it leads
/// nowhere. And no task is made up.
pub proof fn law_no_waiting_task_is_lost<P: Pathfinder>(
    pf: &P,
    map: RoadMapView,
    config: SystemConfig,
    cooldown: Map<u64, u64>,
    now: u64,
    v: StoreView,
    pending: Map<u64, TaskView>,
    offers: Seq<Offer>,
    end: Round,
)
    requires
        numbered(pending),
        is_matched(pf, map, config, cooldown, now, v, pending, offers, end),
    ensures
        forall|k: u64| #[trigger]
            end.pending.contains_key(k) ==> pending.contains_key(k) && end.pending[k]
                == pending[k],
        forall|k: u64| #[trigger]
            pending.contains_key(k) ==> end.pending.contains_key(k) || is_sent(end.sent, k)
                || leads_nowhere(map, pending[k]),
{
    let s0 = lemma_matched(pf, map, config, cooldown, now, v, pending, offers, end);
}

/// Whether the channel took everything that it was offered after `before`, but perhaps the last
/// offer.
pub open spec fn at_most_one_refusal(before: Seq<Offer>, after: Seq<Offer>) -> bool {
    forall|i: int| before.len() <= i < after.len() - 1 ==> (#[trigger] after[i]).accepted
}

/// A refusal ends the round.
proof fn lemma_refusal_ends_round<P: Pathfinder>(
    pf: &P,
    map: RoadMapView,
    now: u64,
    s: Round,
    order: Seq<u64>,
    n: nat,
    refused_at: int,
)
    ensures
        ({
            let t = played(pf, map, now, s, order, n, refused_at);
            &&& s.offers.len() <= t.offers.len()
            &&& forall|i: int|
                s.offers.len() <= i < t.offers.len() ==> (#[trigger] t.offers[i]).accepted || (i
                    == t.offers.len() - 1 && t.over)
        }),
    decreases n,
{
    if n > 0 {
        lemma_refusal_ends_round(pf, map, now, s, order, (n - 1) as nat, refused_at);
    }
}

/// The channel is offered exactly the orders that a round sends and, at the end of the round,
/// perhaps one that it refuses.
pub proof fn law_orders_reach_the_channel<P: Pathfinder>(
    pf: &P,
    map: RoadMapView,
    config: SystemConfig,
    cooldown: Map<u64, u64>,
    now: u64,
    v: StoreView,
    pending: Map<u64, TaskView>,
    offers: Seq<Offer>,
    end: Round,
)
    requires
        is_matched(pf, map, config, cooldown, now, v, pending, offers, end),
    ensures
        offers.is_prefix_of(end.offers),
        taken(end.offers) == taken(offers) + end.sent,
        at_most_one_refusal(offers, end.offers),
{
    let c = lemma_course(pf, map, config, cooldown, now, v, pending, offers, end);
    let s0 = c.start(v.evicted(now, config.heartbeat_timeout_ms), pending, offers);
    lemma_played_offers(pf, map, now, s0, c.order, c.order.len(), c.refused_at);
    lemma_refusal_ends_round(pf, map, now, s0, c.order, c.order.len(), c.refused_at);
}

/// An order that the channel refuses leaves no trace in the tables: the robot is free as before,
/// the task waits as before, and the round is over. The record of offers says that it was
/// refused.
pub proof fn law_refused_orders_are_rolled_back<P: Pathfinder>(
    pf: &P,
    map: RoadMapView,
    now: u64,
    s: Round,
    task: u64,
)
    requires
        !s.over,
        s.pending.contains_key(task),
        proposal(pf, map, s.free, s.pending[task]) matches ProposalView::Send { order, .. } ==> {
            &&& s.store.assign_error(order.robot, order.task) is None
            &&& unbound_unless_busy(s.store.robots[order.robot.0])
            &&& !s.store.robots[order.robot.0].carrying
            &&& s.store.tasks[order.task.0].status == TaskStatus::Pending
            &&& s.store.tasks[order.task.0].assigned_robot is None
            &&& s.store.tasks[order.task.0].assigned_at == 0
        },
        proposal(pf, map, s.free, s.pending[task]) is Send,
    ensures
        turn(pf, map, now, s, task, true).store.robots == s.store.robots,
        turn(pf, map, now, s, task, true).store.tasks == s.store.tasks,
        turn(pf, map, now, s, task, true).pending == s.pending,
        turn(pf, map, now, s, task, true).free == s.free,
        turn(pf, map, now, s, task, true).sent == s.sent,
        turn(pf, map, now, s, task, true).offers.drop_last() == s.offers,
        !turn(pf, map, now, s, task, true).offers.last().accepted,
        turn(pf, map, now, s, task, true).over,
{
    match proposal(pf, map, s.free, s.pending[task]) {
        ProposalView::Send { index, order, end } => {
            law_unassign_undoes_assign(
                s.store,
                order.robot,
                order.task,
                end.node,
                order.path,
                now,
            );
            assert(turn(pf, map, now, s, task, true).offers.drop_last() =~= s.offers);
        },
        _ => {},
    }
}

// ---------------------------------------------------------------- deadlocks
/// Whether a robot has left the standoff: it is known, has no target and is not busy, gets no
/// task until the end of its cooldown, and the task `t` waits again if it is known.
pub open spec fn has_left(s: Standoff, who: RobotId, t: TaskId, until: u64) -> bool {
    &&& s.store.robots.contains_key(who.0)
    &&& s.store.robots[who.0].target is None
    &&& s.store.robots[who.0].status != RobotStatus::Busy
    &&& s.cooldown.contains_key(who.0)
    &&& s.cooldown[who.0] == until
    &&& s.store.tasks.contains_key(t.0) ==> s.store.tasks[t.0].status == TaskStatus::Pending
        && s.pending.contains_key(t.0) && s.pending[t.0] == s.store.tasks[t.0]
}

/// In every ring the robot that has to give way leaves the standoff, and its task waits again.
pub proof fn law_victims_give_way(
    tasks: Map<u64, TaskId>,
    prio: Map<u64, TaskPriority>,
    now: u64,
    cooldown_ms: u64,
    s: Standoff,
    rings: Seq<Vec<RobotId>>,
    n: nat,
    r: int,
)
    requires
        0 <= r < n <= rings.len(),
        tasks.contains_key(victim(rings[r]@, prio).0),
        s.store.robots.contains_key(victim(rings[r]@, prio).0),
    ensures
        has_left(
            ways_given(tasks, prio, now, cooldown_ms, s, rings, n),
            victim(rings[r]@, prio),
            tasks[victim(rings[r]@, prio).0],
            cooldown_end(now, cooldown_ms),
        ),
    decreases n,
{
    let m = (n - 1) as nat;
    let before = ways_given(tasks, prio, now, cooldown_ms, s, rings, m);
    lemma_robots_stay(tasks, prio, now, cooldown_ms, s, rings, m);
    if r < m {
        law_victims_give_way(tasks, prio, now, cooldown_ms, s, rings, m, r);
    }
}

/// Giving way removes no robot.
proof fn lemma_robots_stay(
    tasks: Map<u64, TaskId>,
    prio: Map<u64, TaskPriority>,
    now: u64,
    cooldown_ms: u64,
    s: Standoff,
    rings: Seq<Vec<RobotId>>,
    n: nat,
)
    ensures
        forall|k: u64| #[trigger]
            s.store.robots.contains_key(k) ==> ways_given(
                tasks,
                prio,
                now,
                cooldown_ms,
                s,
                rings,
                n,
            ).store.robots.contains_key(k),
    decreases n,
{
    if n > 0 {
        lemma_robots_stay(tasks, prio, now, cooldown_ms, s, rings, (n - 1) as nat);
    }
}

/// A robot that has left the standoff is in no deadlock of any later snapshot of the robots.
pub proof fn law_parole_breaks_the_ring(
    s: Standoff,
    who: RobotId,
    t: TaskId,
    until: u64,
    robots: Seq<RobotView>,
    ring: Seq<RobotId>,
)
    requires
        has_left(s, who, t, until),
        lists_robots(robots, s.store.robots, s.store.robots.dom()),
        is_deadlock(waits(robots), ring),
    ensures
        !ring.contains(who),
{
    law_a_robot_without_target_is_in_no_deadlock(robots, ring, who);
}

/// In an orderly store every robot of a deadlock is known and bound to a task, so every
/// deadlock has a victim that can give way.
pub proof fn law_every_deadlock_has_a_victim_with_a_task(
    v: StoreView,
    robots: Seq<RobotView>,
    ring: Seq<RobotId>,
    prio: Map<u64, TaskPriority>,
    who: RobotId,
)
    requires
        orderly(v),
        lists_robots(robots, v.robots, v.robots.dom()),
        is_deadlock(waits(robots), ring),
        is_victim(ring, prio, who),
    ensures
        v.robots.contains_key(who.0),
        current_tasks(v).contains_key(who.0),
{
    let i = ring.index_of(who);
    let next = ring[next_in(ring, i)];
    assert(waits_for_next(waits(robots), ring, i));
    law_a_robot_waits_for_whoever_holds_its_target(robots, who, next);
    let (a, b) = choose|a: int, b: int| #[trigger]
        waits_on(robots, a, b) && robots[a].id == who && robots[b].id == next;
    let numbers = robot_numbers(robots);
    assert(numbers[a] == who.0);
    assert(numbers.to_set().contains(who.0));
    assert(v.robots.contains_key(who.0));
    assert(unbound_unless_busy(v.robots[who.0]));
}

/// Every ring has a robot that has to give way.
pub proof fn lemma_victim_exists(ring: Seq<RobotId>, prio: Map<u64, TaskPriority>)
    requires
        ring.len() > 0,
    ensures
        is_victim(ring, prio, victim(ring, prio)),
    decreases ring.len(),
{
    let last = ring.last();
    if ring.len() == 1 {
        assert(ring.contains(last)) by {
            assert(ring[0] == last);
        }
        assert forall|x: RobotId| #[trigger] ring.contains(x) implies x == last by {}
        assert(is_victim(ring, prio, last));
        law_the_victim_is_unique(ring, prio, last);
    } else {
        let rest = ring.drop_last();
        lemma_victim_exists(rest, prio);
        let v = victim(rest, prio);
        let w = if task_rank(prio, last) < task_rank(prio, v) || (task_rank(prio, last)
            == task_rank(prio, v) && v.0 <= last.0) {
            last
        } else {
            v
        };
        assert(ring[ring.len() - 1] == last);
        let i = rest.index_of(v);
        assert(ring[i] == v);
        assert forall|x: RobotId| #[trigger] ring.contains(x) implies task_rank(prio, w)
            < task_rank(prio, x) || (task_rank(prio, w) == task_rank(prio, x) && x.0 <= w.0) by {
            let j = ring.index_of(x);
            if j < rest.len() {
                assert(rest[j] == x);
                assert(rest.contains(x));
            }
        }
        assert(is_victim(ring, prio, w));
        law_the_victim_is_unique(ring, prio, w);
    }
}

/// Every deadlock that is found in an orderly store is resolved: its victim has left the
/// standoff, cools down, and its task waits again.
pub proof fn law_found_deadlocks_are_resolved(
    config: SystemConfig,
    now: u64,
    s: Standoff,
    end: Standoff,
)
    requires
        orderly(s.store),
        is_resolved(config, now, s, end),
    ensures
        exists|robots: Seq<RobotView>, rings: Seq<Vec<RobotId>>|
            {
                let prio = current_priorities(s.store, now, config.priority_aging_ms);
                &&& lists_robots(robots, s.store.robots, s.store.robots.dom())
                &&& #[trigger] reports_deadlocks(waits(robots), rings)
                &&& forall|r: int|
                    0 <= r < rings.len() ==> is_victim(
                        (#[trigger] rings[r])@,
                        prio,
                        victim(rings[r]@, prio),
                    ) && has_left(
                        end,
                        victim(rings[r]@, prio),
                        current_tasks(s.store)[victim(rings[r]@, prio).0],
                        cooldown_end(now, config.deadlock_cooldown_ms),
                    )
            },
{
    let prio = current_priorities(s.store, now, config.priority_aging_ms);
    let tasks = current_tasks(s.store);
    let (robots, rings) = choose|robots: Seq<RobotView>, rings: Seq<Vec<RobotId>>|
        {
            &&& lists_robots(robots, s.store.robots, s.store.robots.dom())
            &&& #[trigger] reports_deadlocks(waits(robots), rings)
            &&& end == ways_given(
                tasks,
                prio,
                now,
                config.deadlock_cooldown_ms,
                s,
                rings,
                rings.len(),
            )
        };
    assert forall|r: int| 0 <= r < rings.len() implies is_victim(
        (#[trigger] rings[r])@,
        prio,
        victim(rings[r]@, prio),
    ) && has_left(
        end,
        victim(rings[r]@, prio),
        tasks[victim(rings[r]@, prio).0],
        cooldown_end(now, config.deadlock_cooldown_ms),
    ) by {
        lemma_victim_exists(rings[r]@, prio);
        law_every_deadlock_has_a_victim_with_a_task(
            s.store,
            robots,
            rings[r]@,
            prio,
            victim(rings[r]@, prio),
        );
        law_victims_give_way(
            tasks,
            prio,
            now,
            config.deadlock_cooldown_ms,
            s,
            rings,
            rings.len(),
            r,
        );
    }
}

/// A robot gets no order while it cools down.
pub proof fn law_paroled_robots_cool_down(
    v: StoreView,
    cooldown: Map<u64, u64>,
    now: u64,
    timeout_ms: u64,
    robot: u64,
)
    requires
        cooldown.contains_key(robot),
        now < cooldown[robot],
    ensures
        !candidates(v, still_cooling(cooldown, now), now, timeout_ms).contains(robot),
{
}

// ---------------------------------------------------------------- no task is lost
/// Whether every task that the store has as waiting is known to the scheduler, unless it leads
/// nowhere; and whether the scheduler's tasks are the store's.
pub open spec fn all_accounted_for(
    map: RoadMapView,
    v: StoreView,
    pending: Map<u64, TaskView>,
) -> bool {
    &&& forall|k: u64| #[trigger] v.tasks.contains_key(k) ==> is_accounted_for(map, v, pending, k)
    &&& forall|k: u64| #[trigger] pending.contains_key(k) ==> same_task(v, pending, k)
}

/// Whether a task of the store that waits is known to the scheduler or leads nowhere.
pub open spec fn is_accounted_for(
    map: RoadMapView,
    v: StoreView,
    pending: Map<u64, TaskView>,
    k: u64,
) -> bool {
    v.tasks[k].status == TaskStatus::Pending ==> pending.contains_key(k) || leads_nowhere(
        map,
        v.tasks[k],
    )
}

/// Whether a task of the scheduler is in the store, under the same number and of the same kind.
pub open spec fn same_task(v: StoreView, pending: Map<u64, TaskView>, k: u64) -> bool {
    &&& v.tasks.contains_key(k)
    &&& pending[k].id == TaskId(k)
    &&& pending[k].kind == v.tasks[k].kind
}

/// A turn loses no task.
proof fn lemma_turn_accounts<P: Pathfinder>(
    pf: &P,
    map: RoadMapView,
    now: u64,
    s: Round,
    task: u64,
    refused: bool,
)
    requires
        all_accounted_for(map, s.store, s.pending),
    ensures
        ({
            let t = turn(pf, map, now, s, task, refused);
            all_accounted_for(map, t.store, t.pending)
        }),
{
    let t = turn(pf, map, now, s, task, refused);
    if !s.over && s.pending.contains_key(task) {
        assert(same_task(s.store, s.pending, task));
        match proposal(pf, map, s.free, s.pending[task]) {
            ProposalView::Wait => {},
            ProposalView::Discard => {
                assert(leads_nowhere(map, s.store.tasks[task]));
                assert forall|k: u64| #[trigger] t.store.tasks.contains_key(k) implies is_accounted_for(
                    map,
                    t.store,
                    t.pending,
                    k,
                ) by {
                    assert(is_accounted_for(map, s.store, s.pending, k));
                }
                assert forall|k: u64| #[trigger] t.pending.contains_key(k) implies same_task(
                    t.store,
                    t.pending,
                    k,
                ) by {
                    assert(same_task(s.store, s.pending, k));
                }
            },
            ProposalView::Send { index, order, end } => {
                lemma_nearest_index(pf, map, s.free, s.pending[task]);
                assert(order.task == TaskId(task));
                assert forall|k: u64| #[trigger] t.store.tasks.contains_key(k) implies is_accounted_for(
                    map,
                    t.store,
                    t.pending,
                    k,
                ) by {
                    assert(s.store.tasks.contains_key(k));
                    assert(is_accounted_for(map, s.store, s.pending, k));
                }
                assert forall|k: u64| #[trigger] t.pending.contains_key(k) implies same_task(
                    t.store,
                    t.pending,
                    k,
                ) by {
                    assert(s.pending.contains_key(k));
                    assert(same_task(s.store, s.pending, k));
                }
            },
        }
    }
}

/// The turns of a round lose no task.
proof fn lemma_played_accounts<P: Pathfinder>(
    pf: &P,
    map: RoadMapView,
    now: u64,
    s: Round,
    order: Seq<u64>,
    n: nat,
    refused_at: int,
)
    requires
        all_accounted_for(map, s.store, s.pending),
    ensures
        ({
            let t = played(pf, map, now, s, order, n, refused_at);
            all_accounted_for(map, t.store, t.pending)
        }),
    decreases n,
{
    if n > 0 {
        let i = (n - 1) as nat;
        lemma_played_accounts(pf, map, now, s, order, i, refused_at);
        lemma_turn_accounts(
            pf,
            map,
            now,
            played(pf, map, now, s, order, i, refused_at),
            order[i as int],
            refused_at == i,
        );
    }
}

/// Giving way loses no task.
proof fn lemma_ways_given_account(
    map: RoadMapView,
    tasks: Map<u64, TaskId>,
    prio: Map<u64, TaskPriority>,
    now: u64,
    cooldown_ms: u64,
    s: Standoff,
    rings: Seq<Vec<RobotId>>,
    n: nat,
)
    requires
        all_accounted_for(map, s.store, s.pending),
        s.store.wf(),
    ensures
        ({
            let t = ways_given(tasks, prio, now, cooldown_ms, s, rings, n);
            all_accounted_for(map, t.store, t.pending) && t.store.wf()
        }),
    decreases n,
{
    if n > 0 {
        let m = (n - 1) as nat;
        lemma_ways_given_account(map, tasks, prio, now, cooldown_ms, s, rings, m);
        let a = ways_given(tasks, prio, now, cooldown_ms, s, rings, m);
        let b = ways_given(tasks, prio, now, cooldown_ms, s, rings, n);
        let who = victim(rings[n - 1]@, prio);
        if tasks.contains_key(who.0) {
            assert forall|k: u64| #[trigger] b.store.tasks.contains_key(k) implies is_accounted_for(
                map,
                b.store,
                b.pending,
                k,
            ) by {
                assert(a.store.tasks.contains_key(k));
                assert(is_accounted_for(map, a.store, a.pending, k));
            }
            assert forall|k: u64| #[trigger] b.pending.contains_key(k) implies same_task(
                b.store,
                b.pending,
                k,
            ) by {
                if k != tasks[who.0].0 {
                    assert(same_task(a.store, a.pending, k));
                } else if a.pending.contains_key(k) {
                    assert(same_task(a.store, a.pending, k));
                }
            }
        }
    }
}

/// How a tick went: the round of matching and what it led to, and the rings of which one robot
/// each gave way.
struct TickCourse {
    course: Course,
    round: Round,
    rings: Seq<Vec<RobotId>>,
}

/// What a tick finds after it took back the hanging tasks and silent robots went offline.
pub open spec fn swept_store(v: StoreView, config: SystemConfig, now: u64) -> StoreView {
    v.reclaimed(now, config.task_timeout_ms, config.max_task_retries).evicted(
        now,
        config.heartbeat_timeout_ms,
    )
}

/// The robots that can be sent in a tick: idle, heard of in time, charged and not cooling down.
pub open spec fn ready_in_tick(
    v: StoreView,
    config: SystemConfig,
    cooldown: Map<u64, u64>,
    now: u64,
) -> Set<u64> {
    ready_robots(
        v.reclaimed(now, config.task_timeout_ms, config.max_task_retries),
        config,
        still_cooling(cooldown, now),
        now,
    )
}

/// Every tick went in some way. Where deadlocks are not resolved, no robot gave way.
proof fn lemma_tick_course<P: Pathfinder>(
    pf: &P,
    map: RoadMapView,
    config: SystemConfig,
    now: u64,
    v: StoreView,
    s: SchedulerView,
    v2: StoreView,
    s2: SchedulerView,
    sent: Seq<DispatchView>,
) -> (t: TickCourse)
    requires
        is_ticked(pf, map, config, now, v, s, v2, s2, sent),
    ensures
        ({
            let swept = swept_store(v, config, now);
            let pending = with_requeued(s.pending, v, config, now);
            let before = Standoff {
                store: t.round.store,
                cooldown: still_cooling(s.cooldown, now),
                pending: t.round.pending,
            };
            let after = Standoff { store: v2, cooldown: s2.cooldown, pending: s2.pending };
            &&& lists_robots(
                t.course.free,
                swept.robots,
                ready_in_tick(v, config, s.cooldown, now),
            )
            &&& is_serving_order(t.course.order, pending, now, config.priority_aging_ms)
            &&& t.round == t.course.end(
                pf,
                map,
                now,
                t.course.start(swept, pending, s.offers),
            )
            &&& t.round.sent == sent
            &&& t.round.offers == s2.offers
            &&& after == ways_given(
                current_tasks(before.store),
                current_priorities(before.store, now, config.priority_aging_ms),
                now,
                config.deadlock_cooldown_ms,
                before,
                t.rings,
                t.rings.len(),
            )
        }),
{
    let cooling = still_cooling(s.cooldown, now);
    let reclaimed = v.reclaimed(now, config.task_timeout_ms, config.max_task_retries);
    let pending = with_requeued(s.pending, v, config, now);
    let after = Standoff { store: v2, cooldown: s2.cooldown, pending: s2.pending };
    let round = choose|round: Round|
        {
            let before = Standoff { store: round.store, cooldown: cooling, pending: round.pending };
            &&& #[trigger] is_matched(
                pf,
                map,
                config,
                cooling,
                now,
                reclaimed,
                pending,
                s.offers,
                round,
            )
            &&& round.sent == sent
            &&& round.offers == s2.offers
            &&& config.enable_deadlock_resolution ==> is_resolved(config, now, before, after)
            &&& !config.enable_deadlock_resolution ==> before == after
        };
    let before = Standoff { store: round.store, cooldown: cooling, pending: round.pending };
    let course = lemma_course(
        pf,
        map,
        config,
        cooling,
        now,
        reclaimed,
        pending,
        s.offers,
        round,
    );
    if config.enable_deadlock_resolution {
        let (robots, rings) = choose|robots: Seq<RobotView>, rings: Seq<Vec<RobotId>>|
            {
                &&& lists_robots(robots, before.store.robots, before.store.robots.dom())
                &&& #[trigger] reports_deadlocks(waits(robots), rings)
                &&& after == ways_given(
                    current_tasks(before.store),
                    current_priorities(before.store, now, config.priority_aging_ms),
                    now,
                    config.deadlock_cooldown_ms,
                    before,
                    rings,
                    rings.len(),
                )
            };
        TickCourse { course, round, rings }
    } else {
        TickCourse { course, round, rings: Seq::empty() }
    }
}

/// No task is lost in a tick: whatever waits in the store afterwards is known to the scheduler,
/// unless it leads nowhere.
pub proof fn law_a_tick_loses_no_task<P: Pathfinder>(
    pf: &P,
    map: RoadMapView,
    config: SystemConfig,
    now: u64,
    v: StoreView,
    s: SchedulerView,
    v2: StoreView,
    s2: SchedulerView,
    sent: Seq<DispatchView>,
)
    requires
        v.wf(),
        all_accounted_for(map, v, s.pending),
        is_ticked(pf, map, config, now, v, s, v2, s2, sent),
    ensures
        all_accounted_for(map, v2, s2.pending),
{
    let reclaimed = v.reclaimed(now, config.task_timeout_ms, config.max_task_retries);
    let pending = with_requeued(s.pending, v, config, now);
    assert forall|k: u64| #[trigger] reclaimed.tasks.contains_key(k) implies is_accounted_for(
        map,
        reclaimed,
        pending,
        k,
    ) by {
        assert(v.tasks.contains_key(k));
        assert(is_accounted_for(map, v, s.pending, k));
    }
    assert forall|k: u64| #[trigger] pending.contains_key(k) implies same_task(
        reclaimed,
        pending,
        k,
    ) by {
        if s.pending.contains_key(k) {
            assert(same_task(v, s.pending, k));
        }
    }
    let t = lemma_tick_course(pf, map, config, now, v, s, v2, s2, sent);
    let swept = swept_store(v, config, now);
    let start = t.course.start(swept, pending, s.offers);
    assert(all_accounted_for(map, start.store, start.pending)) by {
        assert forall|k: u64| #[trigger] swept.tasks.contains_key(k) implies is_accounted_for(
            map,
            swept,
            pending,
            k,
        ) by {
            assert(is_accounted_for(map, reclaimed, pending, k));
        }
        assert forall|k: u64| #[trigger] pending.contains_key(k) implies same_task(
            swept,
            pending,
            k,
        ) by {
            assert(same_task(reclaimed, pending, k));
        }
    }
    let (order, refused_at) = (t.course.order, t.course.refused_at);
    lemma_played_accounts(pf, map, now, start, order, order.len(), refused_at);
    lemma_played_wf(pf, map, now, start, order, order.len(), refused_at);
    lemma_ways_given_account(
        map,
        current_tasks(t.round.store),
        current_priorities(t.round.store, now, config.priority_aging_ms),
        now,
        config.deadlock_cooldown_ms,
        Standoff {
            store: t.round.store,
            cooldown: still_cooling(s.cooldown, now),
            pending: t.round.pending,
        },
        t.rings,
        t.rings.len(),
    );
}

/// The turns of a round keep a store well-formed.
proof fn lemma_played_wf<P: Pathfinder>(
    pf: &P,
    map: RoadMapView,
    now: u64,
    s: Round,
    order: Seq<u64>,
    n: nat,
    refused_at: int,
)
    requires
        s.store.wf(),
    ensures
        played(pf, map, now, s, order, n, refused_at).store.wf(),
    decreases n,
{
    if n > 0 {
        lemma_played_wf(pf, map, now, s, order, (n - 1) as nat, refused_at);
    }
}

/// A task that is handed in is accounted for, and a task that is completed needs no robot any
/// more.
pub proof fn law_events_lose_no_task(
    map: RoadMapView,
    v: StoreView,
    pending: Map<u64, TaskView>,
    task: TaskView,
    robot: RobotId,
    done: TaskId,
)
    requires
        all_accounted_for(map, v, pending),
    ensures
        all_accounted_for(map, v.submitted(task), pending.insert(task.id.0, task)),
        v.tasks.contains_key(done.0) ==> all_accounted_for(map, v.completed(robot, done), pending),
{
    let a = v.submitted(task);
    let p = pending.insert(task.id.0, task);
    assert forall|k: u64| #[trigger] a.tasks.contains_key(k) implies is_accounted_for(
        map,
        a,
        p,
        k,
    ) by {
        if k != task.id.0 {
            assert(is_accounted_for(map, v, pending, k));
        }
    }
    assert forall|k: u64| #[trigger] p.contains_key(k) implies same_task(a, p, k) by {
        if k != task.id.0 {
            assert(same_task(v, pending, k));
        }
    }
    if v.tasks.contains_key(done.0) {
        let b = v.completed(robot, done);
        assert forall|k: u64| #[trigger] b.tasks.contains_key(k) implies is_accounted_for(
            map,
            b,
            pending,
            k,
        ) by {
            assert(is_accounted_for(map, v, pending, k));
        }
        assert forall|k: u64| #[trigger] pending.contains_key(k) implies same_task(
            b,
            pending,
            k,
        ) by {
            assert(same_task(v, pending, k));
        }
    }
}

// ---------------------------------------------------------------- waiting tasks are sent
/// Whether a robot that is ready stands on the network, and no other one is nearer to a point.
pub open spec fn is_nearest_of(
    map: RoadMapView,
    robots: Map<u64, RobotView>,
    ready: Set<u64>,
    at: Location,
    k: u64,
) -> bool {
    &&& ready.contains(k)
    &&& located(map, robots[k])
    &&& forall|j: u64| #[trigger]
        ready.contains(j) && located(map, robots[j]) ==> gap(map, robots[k], at) <= gap(
            map,
            robots[j],
            at,
        )
}

/// Whether a tick has all that it takes to send the task `t`: the task leads somewhere and no
/// other one waits, a robot is ready, and a route can be planned for those nearest to the
/// first node of the task.
pub open spec fn can_be_sent<P: Pathfinder>(
    pf: &P,
    map: RoadMapView,
    config: SystemConfig,
    now: u64,
    v: StoreView,
    s: SchedulerView,
    t: u64,
) -> bool {
    let pending = with_requeued(s.pending, v, config, now);
    let robots = swept_store(v, config, now).robots;
    let ready = ready_in_tick(v, config, s.cooldown, now);
    &&& pending.contains_key(t)
    &&& forall|k: u64| #[trigger] pending.contains_key(k) ==> k == t
    &&& !leads_nowhere(map, pending[t])
    &&& exists|k: u64| #[trigger] ready.contains(k) && located(map, robots[k])
    &&& forall|k: u64| #[trigger]
        is_nearest_of(map, robots, ready, map.nodes[(pending[t].goal()->0).0], k) ==> planned(
            pf,
            map,
            robots[k].location.node->0,
            pending[t],
        ) is Some
}

/// Whether the channel took everything that it was offered after `before`.
pub open spec fn nothing_refused(before: Seq<Offer>, after: Seq<Offer>) -> bool {
    forall|i: int| before.len() <= i < after.len() ==> (#[trigger] after[i]).accepted
}

/// If a robot stands on the network, one of them is the nearest.
pub proof fn lemma_nearest_exists(map: RoadMapView, robots: Seq<RobotView>, at: Location)
    requires
        exists|i: int| 0 <= i < robots.len() && located(map, #[trigger] robots[i]),
    ensures
        exists|i: int| is_nearest(map, robots, at, i),
    decreases robots.len(),
{
    let rest = robots.drop_last();
    let last = robots.len() - 1;
    if exists|i: int| 0 <= i < rest.len() && located(map, #[trigger] rest[i]) {
        lemma_nearest_exists(map, rest, at);
        let b = choose|i: int| is_nearest(map, rest, at, i);
        assert(rest[b] == robots[b]);
        let n = if located(map, robots[last]) && gap(map, robots[last], at) < gap(
            map,
            robots[b],
            at,
        ) {
            last
        } else {
            b
        };
        assert forall|j: int| 0 <= j < robots.len() && located(map, #[trigger] robots[j]) implies {
            &&& gap(map, robots[n], at) <= gap(map, robots[j], at)
            &&& j < n ==> gap(map, robots[n], at) < gap(map, robots[j], at)
        } by {
            if j < last {
                assert(rest[j] == robots[j]);
            }
        }
        assert(is_nearest(map, robots, at, n));
    } else {
        assert forall|j: int| 0 <= j < last implies !located(map, #[trigger] robots[j]) by {
            assert(rest[j] == robots[j]);
        }
        assert(is_nearest(map, robots, at, last));
    }
}

/// An enumeration of one number.
proof fn lemma_only_one(order: Seq<u64>, all: Set<u64>, t: u64)
    requires
        enumerates(order, all),
        all.contains(t),
        forall|k: u64| #[trigger] all.contains(k) ==> k == t,
    ensures
        order == seq![t],
{
    assert(order.to_set().contains(t));
    assert forall|i: int| 0 <= i < order.len() implies #[trigger] order[i] == t by {
        assert(order.to_set().contains(order[i]));
    }
    if order.len() > 1 {
        assert(order[0] != order[1]);
    }
    assert(order =~= seq![t]);
}

/// A waiting task is sent in a tick that has all that it takes, unless the channel refuses.
pub proof fn law_a_waiting_task_is_sent<P: Pathfinder>(
    pf: &P,
    map: RoadMapView,
    config: SystemConfig,
    now: u64,
    v: StoreView,
    s: SchedulerView,
    v2: StoreView,
    s2: SchedulerView,
    sent: Seq<DispatchView>,
    t: u64,
)
    requires
        v.wf(),
        all_accounted_for(map, v, s.pending),
        is_ticked(pf, map, config, now, v, s, v2, s2, sent),
        can_be_sent(pf, map, config, now, v, s, t),
        nothing_refused(s.offers, s2.offers),
    ensures
        is_sent(sent, t),
{
    let c = lemma_tick_course(pf, map, config, now, v, s, v2, s2, sent);
    let swept = swept_store(v, config, now);
    let pending = with_requeued(s.pending, v, config, now);
    let ready = ready_in_tick(v, config, s.cooldown, now);
    let free = c.course.free;
    let start = c.course.start(swept, pending, s.offers);
    let numbers = robot_numbers(free);
    let task = pending[t];
    let at = map.nodes[(task.goal()->0).0];
    assert(v.tasks.contains_key(t) && task.id == TaskId(t)) by {
        if s.pending.contains_key(t) {
            assert(same_task(v, s.pending, t));
        }
    }
    // the robots
    let some = choose|k: u64| #[trigger] ready.contains(k) && located(map, swept.robots[k]);
    assert(numbers.to_set().contains(some));
    let j = numbers.index_of(some);
    assert(numbers[j] == free[j].id.0);
    assert(free[j] == swept.robots[some]);
    assert(located(map, free[j]));
    lemma_nearest_exists(map, free, at);
    let index = nearest(map, free, at)->0;
    assert(is_nearest(map, free, at, index));
    let robot = free[index].id.0;
    assert(numbers[index] == robot);
    assert(numbers.to_set().contains(robot));
    assert(ready.contains(robot));
    assert(free[index] == swept.robots[robot]);
    assert(is_nearest_of(map, swept.robots, ready, at, robot)) by {
        assert forall|k: u64| #[trigger] ready.contains(k) && located(map, swept.robots[k]) implies gap(
            map,
            swept.robots[robot],
            at,
        ) <= gap(map, swept.robots[k], at) by {
            assert(numbers.to_set().contains(k));
            let m = numbers.index_of(k);
            assert(numbers[m] == free[m].id.0);
            assert(free[m] == swept.robots[k]);
        }
    }
    // the one turn
    lemma_only_one(c.course.order, pending.dom(), t);
    reveal_with_fuel(played, 2);
    let end = turn(pf, map, now, start, t, c.course.refused_at == 0);
    assert(c.round == end);
    match proposal(pf, map, free, task) {
        ProposalView::Send { index: i, order, end: place } => {
            assert(swept.assign_error(order.robot, order.task) is None);
            if c.course.refused_at == 0 {
                assert(end.offers[s.offers.len() as int] == end.offers.last());
            } else {
                assert(end.sent[0].task.0 == t);
            }
        },
        _ => {},
    }
}

/// Whether a task of the scheduler still waits in a later state, as the same piece of work.
pub open spec fn still_waits(
    v: StoreView,
    pending: Map<u64, TaskView>,
    v2: StoreView,
    pending2: Map<u64, TaskView>,
    t: u64,
) -> bool {
    &&& pending.contains_key(t) ==> pending2.contains_key(t)
    &&& v.tasks.contains_key(t) ==> v2.tasks.contains_key(t) && v2.tasks[t].kind
        == v.tasks[t].kind
}

/// The turns of a round leave the work of a task alone.
proof fn lemma_played_kinds<P: Pathfinder>(
    pf: &P,
    map: RoadMapView,
    now: u64,
    s: Round,
    order: Seq<u64>,
    n: nat,
    refused_at: int,
    t: u64,
)
    requires
        s.store.tasks.contains_key(t),
    ensures
        played(pf, map, now, s, order, n, refused_at).store.tasks.contains_key(t),
        played(pf, map, now, s, order, n, refused_at).store.tasks[t].kind
            == s.store.tasks[t].kind,
    decreases n,
{
    if n > 0 {
        lemma_played_kinds(pf, map, now, s, order, (n - 1) as nat, refused_at, t);
    }
}

/// Giving way leaves the work of a task alone, and no task stops waiting.
proof fn lemma_ways_given_keep_waiting(
    tasks: Map<u64, TaskId>,
    prio: Map<u64, TaskPriority>,
    now: u64,
    cooldown_ms: u64,
    s: Standoff,
    rings: Seq<Vec<RobotId>>,
    n: nat,
    t: u64,
)
    ensures
        ({
            let e = ways_given(tasks, prio, now, cooldown_ms, s, rings, n);
            still_waits(s.store, s.pending, e.store, e.pending, t)
        }),
    decreases n,
{
    if n > 0 {
        lemma_ways_given_keep_waiting(
            tasks,
            prio,
            now,
            cooldown_ms,
            s,
            rings,
            (n - 1) as nat,
            t,
        );
    }
}

/// A task waits until it is sent: a tick that does not send it leaves it waiting, unless it
/// leads nowhere.
pub proof fn law_a_task_waits_until_it_is_sent<P: Pathfinder>(
    pf: &P,
    map: RoadMapView,
    config: SystemConfig,
    now: u64,
    v: StoreView,
    s: SchedulerView,
    v2: StoreView,
    s2: SchedulerView,
    sent: Seq<DispatchView>,
    t: u64,
)
    requires
        v.wf(),
        all_accounted_for(map, v, s.pending),
        s.pending.contains_key(t),
        !leads_nowhere(map, v.tasks[t]),
        is_ticked(pf, map, config, now, v, s, v2, s2, sent),
    ensures
        is_sent(sent, t) || still_waits(v, s.pending, v2, s2.pending, t),
{
    let c = lemma_tick_course(pf, map, config, now, v, s, v2, s2, sent);
    let swept = swept_store(v, config, now);
    let reclaimed = v.reclaimed(now, config.task_timeout_ms, config.max_task_retries);
    let cooling = still_cooling(s.cooldown, now);
    let pending = with_requeued(s.pending, v, config, now);
    let start = c.course.start(swept, pending, s.offers);
    let (order, refused_at) = (c.course.order, c.course.refused_at);
    assert(same_task(v, s.pending, t));
    assert(numbered(pending)) by {
        assert forall|k: u64| #[trigger] pending.contains_key(k) implies pending[k].id == TaskId(
            k,
        ) by {
            if s.pending.contains_key(k) {
                assert(same_task(v, s.pending, k));
            }
        }
    }
    assert(is_matched(pf, map, config, cooling, now, reclaimed, pending, s.offers, c.round)) by {
        assert(c.round == played(
            pf,
            map,
            now,
            round_start(swept, c.course.free, pending, s.offers),
            order,
            order.len(),
            refused_at,
        ));
    }
    law_no_waiting_task_is_lost(
        pf,
        map,
        config,
        cooling,
        now,
        reclaimed,
        pending,
        s.offers,
        c.round,
    );
    lemma_played_kinds(pf, map, now, start, order, order.len(), refused_at, t);
    lemma_ways_given_keep_waiting(
        current_tasks(c.round.store),
        current_priorities(c.round.store, now, config.priority_aging_ms),
        now,
        config.deadlock_cooldown_ms,
        Standoff { store: c.round.store, cooldown: cooling, pending: c.round.pending },
        c.rings,
        c.rings.len(),
        t,
    );
    assert(pending.contains_key(t));
    assert(leads_nowhere(map, pending[t]) == leads_nowhere(map, v.tasks[t]));
}

/// What comes between two ticks leaves a task waiting: reports of robots, completed tasks, and
/// new tasks under other numbers.
pub proof fn law_events_leave_tasks_waiting(
    v: StoreView,
    pending: Map<u64, TaskView>,
    t: u64,
    state: RobotView,
    hb: Heartbeat,
    task: TaskView,
    robot: RobotId,
    done: TaskId,
)
    requires
        task.id.0 != t,
    ensures
        still_waits(v, pending, v.registered(state), pending, t),
        still_waits(v, pending, v.heard(hb), pending, t),
        still_waits(v, pending, v.submitted(task), pending.insert(task.id.0, task), t),
        still_waits(v, pending, v.completed(robot, done), pending, t),
{
}

/// One tick: when it was, what it found, what it left behind, and what it sent.
pub struct TickView {
    pub now: u64,
    pub store: StoreView,
    pub scheduler: SchedulerView,
    pub store_after: StoreView,
    pub scheduler_after: SchedulerView,
    pub sent: Seq<DispatchView>,
}

/// Whether `ticks` follow each other, with nothing between them that takes the task `t` away.
pub open spec fn is_run<P: Pathfinder>(
    pf: &P,
    map: RoadMapView,
    config: SystemConfig,
    ticks: Seq<TickView>,
    t: u64,
) -> bool {
    &&& forall|i: int| 0 <= i < ticks.len() ==> #[trigger] is_tick(pf, map, config, ticks[i])
    &&& forall|i: int| 0 < i < ticks.len() ==> #[trigger] leads_on(ticks, i, t)
}

/// Whether a tick is one of a scheduler that has lost no task.
pub open spec fn is_tick<P: Pathfinder>(
    pf: &P,
    map: RoadMapView,
    config: SystemConfig,
    tick: TickView,
) -> bool {
    &&& tick.store.wf()
    &&& all_accounted_for(map, tick.store, tick.scheduler.pending)
    &&& is_ticked(
        pf,
        map,
        config,
        tick.now,
        tick.store,
        tick.scheduler,
        tick.store_after,
        tick.scheduler_after,
        tick.sent,
    )
}

/// Whether the task `t` waits before tick `i` if it waits after the one before.
pub open spec fn leads_on(ticks: Seq<TickView>, i: int, t: u64) -> bool {
    still_waits(
        ticks[i - 1].store_after,
        ticks[i - 1].scheduler_after.pending,
        ticks[i].store,
        ticks[i].scheduler.pending,
        t,
    )
}

/// Whether the last of `ticks` has all that it takes to send the task `t`, and the channel
/// refuses nothing in it.
pub open spec fn ends_well<P: Pathfinder>(
    pf: &P,
    map: RoadMapView,
    config: SystemConfig,
    ticks: Seq<TickView>,
    t: u64,
) -> bool {
    let last = ticks.last();
    &&& can_be_sent(pf, map, config, last.now, last.store, last.scheduler, t)
    &&& nothing_refused(last.scheduler.offers, last.scheduler_after.offers)
}

/// A task that waits is sent in the end: as soon as a tick has all that it takes, an order for
/// it has been sent, in that tick or before.
pub proof fn law_waiting_tasks_are_sent_in_the_end<P: Pathfinder>(
    pf: &P,
    map: RoadMapView,
    config: SystemConfig,
    ticks: Seq<TickView>,
    t: u64,
)
    requires
        ticks.len() > 0,
        is_run(pf, map, config, ticks, t),
        ticks[0].scheduler.pending.contains_key(t),
        !leads_nowhere(map, ticks[0].store.tasks[t]),
        ends_well(pf, map, config, ticks, t),
    ensures
        exists|i: int| 0 <= i < ticks.len() && is_sent((#[trigger] ticks[i]).sent, t),
    decreases ticks.len(),
{
    let first = ticks[0];
    assert(is_tick(pf, map, config, ticks[0]));
    assert(same_task(first.store, first.scheduler.pending, t));
    if ticks.len() == 1 {
        law_a_waiting_task_is_sent(
            pf,
            map,
            config,
            first.now,
            first.store,
            first.scheduler,
            first.store_after,
            first.scheduler_after,
            first.sent,
            t,
        );
    } else {
        law_a_task_waits_until_it_is_sent(
            pf,
            map,
            config,
            first.now,
            first.store,
            first.scheduler,
            first.store_after,
            first.scheduler_after,
            first.sent,
            t,
        );
        if !is_sent(first.sent, t) {
            let rest = ticks.skip(1);
            assert(leads_on(ticks, 1, t));
            assert forall|i: int| 0 <= i < rest.len() implies #[trigger] is_tick(
                pf,
                map,
                config,
                rest[i],
            ) by {
                assert(is_tick(pf, map, config, ticks[i + 1]));
            }
            assert forall|i: int| 0 < i < rest.len() implies #[trigger] leads_on(rest, i, t) by {
                assert(leads_on(ticks, i + 1, t));
            }
            assert(rest.last() == ticks.last());
            assert(rest[0] == ticks[1]);
            assert(leads_nowhere(map, rest[0].store.tasks[t]) == leads_nowhere(
                map,
                first.store.tasks[t],
            ));
            law_waiting_tasks_are_sent_in_the_end(pf, map, config, rest, t);
            let i = choose|i: int| 0 <= i < rest.len() && is_sent((#[trigger] rest[i]).sent, t);
            assert(ticks[i + 1] == rest[i]);
        }
    }
}

/// The task of a robot that was paroled out of a deadlock is scheduled again: as soon as a
/// later tick has all that it takes, an order for it has been sent.
pub proof fn law_paroled_tasks_are_sent_again<P: Pathfinder>(
    pf: &P,
    map: RoadMapView,
    config: SystemConfig,
    parole: TickView,
    who: RobotId,
    t: TaskId,
    until: u64,
    later: Seq<TickView>,
)
    requires
        has_left(
            Standoff {
                store: parole.store_after,
                cooldown: parole.scheduler_after.cooldown,
                pending: parole.scheduler_after.pending,
            },
            who,
            t,
            until,
        ),
        parole.store_after.tasks.contains_key(t.0),
        !leads_nowhere(map, parole.store_after.tasks[t.0]),
        later.len() > 0,
        still_waits(
            parole.store_after,
            parole.scheduler_after.pending,
            later[0].store,
            later[0].scheduler.pending,
            t.0,
        ),
        is_run(pf, map, config, later, t.0),
        ends_well(pf, map, config, later, t.0),
    ensures
        exists|i: int| 0 <= i < later.len() && is_sent((#[trigger] later[i]).sent, t.0),
{
    assert(leads_nowhere(map, later[0].store.tasks[t.0]) == leads_nowhere(
        map,
        parole.store_after.tasks[t.0],
    ));
    law_waiting_tasks_are_sent_in_the_end(pf, map, config, later, t.0);
}

// ---------------------------------------------------------------- order
/// The turns of a round keep a store orderly.
proof fn lemma_played_orderly<P: Pathfinder>(
    pf: &P,
    map: RoadMapView,
    now: u64,
    s: Round,
    order: Seq<u64>,
    n: nat,
    refused_at: int,
)
    requires
        orderly(s.store),
    ensures
        orderly(played(pf, map, now, s, order, n, refused_at).store),
    decreases n,
{
    if n > 0 {
        lemma_played_orderly(pf, map, now, s, order, (n - 1) as nat, refused_at);
    }
}

/// Giving way keeps a store orderly.
proof fn lemma_ways_given_orderly(
    tasks: Map<u64, TaskId>,
    prio: Map<u64, TaskPriority>,
    now: u64,
    cooldown_ms: u64,
    s: Standoff,
    rings: Seq<Vec<RobotId>>,
    n: nat,
)
    requires
        orderly(s.store),
    ensures
        orderly(ways_given(tasks, prio, now, cooldown_ms, s, rings, n).store),
    decreases n,
{
    if n > 0 {
        lemma_ways_given_orderly(tasks, prio, now, cooldown_ms, s, rings, (n - 1) as nat);
    }
}

/// After a tick, as before it, only busy robots have a task, a target or a route, and a target
/// comes with a task.
pub proof fn law_a_tick_keeps_the_store_orderly<P: Pathfinder>(
    pf: &P,
    map: RoadMapView,
    config: SystemConfig,
    now: u64,
    v: StoreView,
    s: SchedulerView,
    v2: StoreView,
    s2: SchedulerView,
    sent: Seq<DispatchView>,
)
    requires
        orderly(v),
        is_ticked(pf, map, config, now, v, s, v2, s2, sent),
    ensures
        orderly(v2),
{
    let t = lemma_tick_course(pf, map, config, now, v, s, v2, s2, sent);
    let swept = swept_store(v, config, now);
    assert(orderly(swept)) by {
        assert forall|k: u64| #[trigger] swept.robots.contains_key(k) implies unbound_unless_busy(
            swept.robots[k],
        ) by {
            assert(v.robots.contains_key(k));
            assert(unbound_unless_busy(v.robots[k]));
        }
    }
    lemma_played_orderly(
        pf,
        map,
        now,
        t.course.start(swept, with_requeued(s.pending, v, config, now), s.offers),
        t.course.order,
        t.course.order.len(),
        t.course.refused_at,
    );
    lemma_ways_given_orderly(
        current_tasks(t.round.store),
        current_priorities(t.round.store, now, config.priority_aging_ms),
        now,
        config.deadlock_cooldown_ms,
        Standoff {
            store: t.round.store,
            cooldown: still_cooling(s.cooldown, now),
            pending: t.round.pending,
        },
        t.rings,
        t.rings.len(),
    );
}

/// Everything starts in order: an empty store with an idle scheduler loses no task and binds no
/// robot, and a robot that comes online is bound to nothing.
pub proof fn law_everything_starts_in_order(
    map: RoadMapView,
    id: RobotId,
    location: Location,
    battery: Battery,
    now: u64,
)
    ensures
        orderly(StoreView::empty()),
        all_accounted_for(map, StoreView::empty(), Map::empty()),
        unbound_unless_busy(RobotView::onboard(id, location, battery, now)),
{
}

// ---------------------------------------------------------------- what a tick achieves
/// Whether an order for the robot is among the first `n` of `sent`.
pub open spec fn has_order(sent: Seq<DispatchView>, n: int, robot: u64) -> bool {
    exists|i: int| 0 <= i < n && i < sent.len() && (#[trigger] sent[i]).robot.0 == robot
}

/// Whether one of two waiting tasks is to be served after the other: its level is lower, or it
/// is the same and the task was created later, or at the same time with a greater number.
pub open spec fn served_after(a: TaskView, b: TaskView, now: u64, aging_ms: u64) -> bool {
    let (la, lb) = (level_at(a, now, aging_ms), level_at(b, now, aging_ms));
    ||| la < lb
    ||| la == lb && a.created_at > b.created_at
    ||| la == lb && a.created_at == b.created_at && a.id.0 > b.id.0
}

/// Whether the channel has refused nothing since the record had `base` offers, as far as the
/// last offer shows.
spec fn goes_on(base: nat, s: Round) -> bool {
    s.offers.len() > base ==> s.offers.last().accepted
}

/// Whether a robot is among the free ones.
spec fn is_free(s: Round, robot: u64) -> bool {
    exists|i: int| 0 <= i < s.free.len() && (#[trigger] s.free[i]).id.0 == robot
}

/// Whether the `m`-th order went to the robot that it had to go to: among those that had no
/// order yet none was nearer to the first node of the task, and the path is the planned one.
spec fn is_right_order<P: Pathfinder>(
    pf: &P,
    map: RoadMapView,
    robots: Map<u64, RobotView>,
    ready: Set<u64>,
    pending: Map<u64, TaskView>,
    sent: Seq<DispatchView>,
    m: int,
) -> bool {
    let o = sent[m];
    let t = pending[o.task.0];
    let r = robots[o.robot.0];
    &&& pending.contains_key(o.task.0)
    &&& ready.contains(o.robot.0)
    &&& t.goal() matches Some(goal) && {
        &&& map.nodes.contains_key(goal.0)
        &&& on_network(map, r)
        &&& forall|q: u64| #[trigger]
            ready.contains(q) && on_network(map, robots[q]) && !has_order(sent, m, q) ==> apart(
                spot(map, r),
                map.nodes[goal.0],
            ) <= apart(spot(map, robots[q]), map.nodes[goal.0])
    }
    &&& planned(pf, map, r.location.node->0, t) matches Some((path, end, pickup)) && path == o.path
        && pickup == o.pickup
}

/// What holds between two turns of a round with the robots `ready` of the store `swept` and the
/// tasks `pending`.
spec fn fair_inv<P: Pathfinder>(
    pf: &P,
    map: RoadMapView,
    swept: StoreView,
    ready: Set<u64>,
    pending: Map<u64, TaskView>,
    base: nat,
    s: Round,
) -> bool {
    &&& base <= s.offers.len()
    &&& forall|i: int|
        0 <= i < s.free.len() ==> ready.contains((#[trigger] s.free[i]).id.0) && s.free[i]
            == swept.robots[s.free[i].id.0]
    &&& forall|i: int, j: int|
        0 <= i < j < s.free.len() ==> (#[trigger] s.free[i]).id != (#[trigger] s.free[j]).id
    &&& goes_on(base, s) ==> forall|i: int|
        0 <= i < s.free.len() ==> s.store.robots.contains_key((#[trigger] s.free[i]).id.0)
            && s.store.robots[s.free[i].id.0] == s.free[i]
    &&& forall|r: u64| #[trigger]
        ready.contains(r) ==> (is_free(s, r) <==> !has_order(s.sent, s.sent.len() as int, r))
    &&& s.over ==> s.free.len() == 0 || !goes_on(base, s)
    &&& !goes_on(base, s) ==> s.over
    &&& s.free.len() == 0 ==> s.over
    &&& forall|k: u64| #[trigger]
        s.pending.contains_key(k) ==> pending.contains_key(k) && s.pending[k] == pending[k]
            && s.store.tasks.contains_key(k)
    &&& forall|k: u64| #[trigger] pending.contains_key(k) ==> pending[k].id.0 == k
    &&& forall|m: int|
        0 <= m < s.sent.len() ==> #[trigger] is_right_order(
            pf,
            map,
            swept.robots,
            ready,
            pending,
            s.sent,
            m,
        )
}

/// The robot that a proposal sends is the nearest free one on the network.
proof fn lemma_proposal_is_nearest<P: Pathfinder>(
    pf: &P,
    map: RoadMapView,
    free: Seq<RobotView>,
    task: TaskView,
)
    ensures
        proposal(pf, map, free, task) matches ProposalView::Send { index, order, end } ==> {
            &&& 0 <= index < free.len()
            &&& order.robot == free[index].id
            &&& order.task == task.id
            &&& on_network(map, free[index])
            &&& task.goal() matches Some(goal) && map.nodes.contains_key(goal.0) && forall|j: int|
                0 <= j < free.len() && on_network(map, #[trigger] free[j]) ==> apart(
                    spot(map, free[index]),
                    map.nodes[goal.0],
                ) <= apart(spot(map, free[j]), map.nodes[goal.0])
            &&& planned(pf, map, free[index].location.node->0, task) == Some(
                (order.path, end, order.pickup),
            )
        },
        proposal(pf, map, free, task) is Discard <==> leads_nowhere(map, task),
        proposal(pf, map, free, task) is Wait ==> {
            ||| forall|j: int| 0 <= j < free.len() ==> !on_network(map, #[trigger] free[j])
            ||| exists|i: int|
                {
                    &&& 0 <= i < free.len()
                    &&& on_network(map, #[trigger] free[i])
                    &&& forall|j: int|
                        0 <= j < free.len() && on_network(map, #[trigger] free[j]) ==> apart(
                            spot(map, free[i]),
                            map.nodes[(task.goal()->0).0],
                        ) <= apart(spot(map, free[j]), map.nodes[(task.goal()->0).0])
                    &&& planned(pf, map, free[i].location.node->0, task) is None
                }
        },
{
    if !leads_nowhere(map, task) {
        let at = map.nodes[(task.goal()->0).0];
        if exists|j: int| 0 <= j < free.len() && on_network(map, #[trigger] free[j]) {
            let some = choose|j: int| 0 <= j < free.len() && on_network(map, #[trigger] free[j]);
            law_no_robot_is_nearer_than_the_nearest(map, free, at, some);
            let i = nearest(map, free, at)->0;
            assert(on_network(map, free[i]));
            assert forall|j: int| 0 <= j < free.len() && on_network(
                map,
                #[trigger] free[j],
            ) implies apart(spot(map, free[i]), at) <= apart(spot(map, free[j]), at) by {
                law_no_robot_is_nearer_than_the_nearest(map, free, at, j);
            }
        } else {
            if nearest(map, free, at) is Some {
                let i = choose|i: int| is_nearest(map, free, at, i);
                assert(is_nearest(map, free, at, i));
                assert(on_network(map, free[i]));
            }
        }
    }
}

/// A turn keeps what holds of a fair round.
proof fn lemma_fair_turn<P: Pathfinder>(
    pf: &P,
    map: RoadMapView,
    now: u64,
    swept: StoreView,
    ready: Set<u64>,
    pending: Map<u64, TaskView>,
    base: nat,
    s: Round,
    task: u64,
    refused: bool,
)
    requires
        fair_inv(pf, map, swept, ready, pending, base, s),
        forall|r: u64| #[trigger]
            ready.contains(r) ==> swept.robots[r].status == RobotStatus::Idle && swept.robots[r].id.0
                == r,
    ensures
        fair_inv(pf, map, swept, ready, pending, base, turn(pf, map, now, s, task, refused)),
{
    let t = turn(pf, map, now, s, task, refused);
    if !s.over && s.pending.contains_key(task) {
        lemma_proposal_is_nearest(pf, map, s.free, s.pending[task]);
        match proposal(pf, map, s.free, s.pending[task]) {
            ProposalView::Wait => {},
            ProposalView::Discard => {},
            ProposalView::Send { index, order, end } => {
                lemma_without(s.free, index);
                let gone = s.free[index].id.0;
                assert(ready.contains(gone));
                assert(s.store.robots.contains_key(gone));
                assert(s.store.assign_error(order.robot, order.task) is None);
                if refused {
                    assert(t.free == s.free && t.sent == s.sent && t.pending == s.pending);
                    assert(!goes_on(base, t));
                    assert forall|k: u64| #[trigger] t.pending.contains_key(k) implies t.store.tasks.contains_key(
                        k,
                    ) by {
                        assert(s.pending.contains_key(k));
                    }
                    assert forall|r: u64| #[trigger] ready.contains(r) implies (is_free(t, r)
                        <==> !has_order(t.sent, t.sent.len() as int, r)) by {
                        assert(is_free(s, r) <==> is_free(t, r));
                    }
                } else {
                    assert(goes_on(base, t));
                    lemma_fair_send(
                        pf,
                        map,
                        now,
                        swept,
                        ready,
                        pending,
                        base,
                        s,
                        task,
                        index,
                        order,
                        end,
                    );
                }
            },
        }
    }
}

/// A turn in which an order is accepted keeps what holds of a fair round.
proof fn lemma_fair_send<P: Pathfinder>(
    pf: &P,
    map: RoadMapView,
    now: u64,
    swept: StoreView,
    ready: Set<u64>,
    pending: Map<u64, TaskView>,
    base: nat,
    s: Round,
    task: u64,
    index: int,
    order: DispatchView,
    end: Location,
)
    requires
        fair_inv(pf, map, swept, ready, pending, base, s),
        forall|r: u64| #[trigger]
            ready.contains(r) ==> swept.robots[r].status == RobotStatus::Idle && swept.robots[r].id.0
                == r,
        !s.over,
        s.pending.contains_key(task),
        proposal(pf, map, s.free, s.pending[task]) == (ProposalView::Send { index, order, end }),
        s.store.assign_error(order.robot, order.task) is None,
    ensures
        fair_inv(pf, map, swept, ready, pending, base, turn(pf, map, now, s, task, false)),
{
    let t = turn(pf, map, now, s, task, false);
    lemma_proposal_is_nearest(pf, map, s.free, s.pending[task]);
    lemma_without(s.free, index);
    let gone = s.free[index].id.0;
    let last = s.sent.len() as int;
    assert(t.free == without(s.free, index));
    assert(t.sent == s.sent.push(order));
    assert forall|i: int| 0 <= i < t.free.len() implies s.free.contains(#[trigger] t.free[i])
        && t.free[i].id.0 != gone by {
        let b = choose|b: int| 0 <= b < s.free.len() && #[trigger] s.free[b] == t.free[i];
        assert(t.free[i].id != s.free[index].id);
    }
    assert forall|i: int| 0 <= i < t.free.len() implies ready.contains((#[trigger] t.free[i]).id.0)
        && t.free[i] == swept.robots[t.free[i].id.0] && t.store.robots.contains_key(t.free[i].id.0)
        && t.store.robots[t.free[i].id.0] == t.free[i] by {
        let b = s.free.index_of(t.free[i]);
        assert(s.free[b] == t.free[i]);
    }
    assert forall|r: u64| #[trigger] ready.contains(r) implies (is_free(t, r) <==> !has_order(
        t.sent,
        t.sent.len() as int,
        r,
    )) by {
        assert(is_free(s, r) <==> !has_order(s.sent, last, r));
        assert(has_order(t.sent, t.sent.len() as int, r) <==> has_order(s.sent, last, r) || r
            == gone) by {
            assert(t.sent[last].robot.0 == gone);
            if has_order(s.sent, last, r) {
                let i = choose|i: int|
                    0 <= i < last && i < s.sent.len() && (#[trigger] s.sent[i]).robot.0 == r;
                assert(t.sent[i].robot.0 == r);
            }
            if has_order(t.sent, t.sent.len() as int, r) && r != gone {
                let i = choose|i: int|
                    0 <= i < t.sent.len() && i < t.sent.len() && (#[trigger] t.sent[i]).robot.0
                        == r;
                assert(s.sent[i].robot.0 == r);
            }
        }
        if is_free(t, r) {
            let i = choose|i: int| 0 <= i < t.free.len() && (#[trigger] t.free[i]).id.0 == r;
            let b = s.free.index_of(t.free[i]);
            assert(s.free[b].id.0 == r);
        }
        if is_free(s, r) && r != gone {
            let b = choose|b: int| 0 <= b < s.free.len() && (#[trigger] s.free[b]).id.0 == r;
            let i = if b == s.free.len() - 1 {
                index
            } else {
                b
            };
            assert(b != index);
            assert(t.free[i] == s.free[b]);
        }
    }
    assert forall|k: u64| #[trigger] t.pending.contains_key(k) implies pending.contains_key(k)
        && t.pending[k] == pending[k] && t.store.tasks.contains_key(k) by {
        assert(s.pending.contains_key(k));
    }
    assert forall|m: int| 0 <= m < t.sent.len() implies #[trigger] is_right_order(
        pf,
        map,
        swept.robots,
        ready,
        pending,
        t.sent,
        m,
    ) by {
        if m < last {
            assert(is_right_order(pf, map, swept.robots, ready, pending, s.sent, m));
            assert(t.sent[m] == s.sent[m]);
            assert forall|q: u64| has_order(t.sent, m, q) <==> has_order(s.sent, m, q) by {
                if has_order(t.sent, m, q) {
                    let i = choose|i: int|
                        0 <= i < m && i < t.sent.len() && (#[trigger] t.sent[i]).robot.0 == q;
                    assert(s.sent[i].robot.0 == q);
                }
                if has_order(s.sent, m, q) {
                    let i = choose|i: int|
                        0 <= i < m && i < s.sent.len() && (#[trigger] s.sent[i]).robot.0 == q;
                    assert(t.sent[i].robot.0 == q);
                }
            }
        } else {
            let goal = s.pending[task].goal()->0;
            assert(order.task.0 == task);
            assert(s.free[index] == swept.robots[gone]);
            assert forall|q: u64| #[trigger] ready.contains(q) && on_network(map, swept.robots[q])
                && !has_order(t.sent, m, q) implies apart(
                spot(map, swept.robots[gone]),
                map.nodes[goal.0],
            ) <= apart(spot(map, swept.robots[q]), map.nodes[goal.0]) by {
                assert(!has_order(s.sent, last, q)) by {
                    if has_order(s.sent, last, q) {
                        let i = choose|i: int|
                            0 <= i < last && i < s.sent.len() && (#[trigger] s.sent[i]).robot.0
                                == q;
                        assert(t.sent[i].robot.0 == q);
                    }
                }
                assert(is_free(s, q));
                let b = choose|b: int| 0 <= b < s.free.len() && (#[trigger] s.free[b]).id.0 == q;
                assert(s.free[b] == swept.robots[q]);
            }
        }
    }
}

/// All turns keep what holds of a fair round.
proof fn lemma_fair<P: Pathfinder>(
    pf: &P,
    map: RoadMapView,
    now: u64,
    swept: StoreView,
    ready: Set<u64>,
    pending: Map<u64, TaskView>,
    base: nat,
    s: Round,
    order: Seq<u64>,
    n: nat,
    refused_at: int,
)
    requires
        fair_inv(pf, map, swept, ready, pending, base, s),
        forall|r: u64| #[trigger]
            ready.contains(r) ==> swept.robots[r].status == RobotStatus::Idle && swept.robots[r].id.0
                == r,
    ensures
        fair_inv(
            pf,
            map,
            swept,
            ready,
            pending,
            base,
            played(pf, map, now, s, order, n, refused_at),
        ),
    decreases n,
{
    if n > 0 {
        let i = (n - 1) as nat;
        lemma_fair(pf, map, now, swept, ready, pending, base, s, order, i, refused_at);
        lemma_fair_turn(
            pf,
            map,
            now,
            swept,
            ready,
            pending,
            base,
            played(pf, map, now, s, order, i, refused_at),
            order[i as int],
            refused_at == i,
        );
    }
}

/// A later state of a round has sent and offered no less, and no more tasks wait.
proof fn lemma_played_grows<P: Pathfinder>(
    pf: &P,
    map: RoadMapView,
    now: u64,
    s: Round,
    order: Seq<u64>,
    i: nat,
    n: nat,
    refused_at: int,
)
    requires
        i <= n,
    ensures
        ({
            let a = played(pf, map, now, s, order, i, refused_at);
            let b = played(pf, map, now, s, order, n, refused_at);
            &&& a.sent.is_prefix_of(b.sent)
            &&& a.offers.is_prefix_of(b.offers)
            &&& forall|k: u64| #[trigger] b.pending.contains_key(k) ==> a.pending.contains_key(k)
        }),
    decreases n,
{
    if i < n {
        lemma_played_grows(pf, map, now, s, order, i, (n - 1) as nat, refused_at);
        let b = played(pf, map, now, s, order, (n - 1) as nat, refused_at);
        let c = played(pf, map, now, s, order, n, refused_at);
        assert(b.sent.is_prefix_of(c.sent));
        assert(b.offers.is_prefix_of(c.offers));
    }
}

/// Whether the `a`-th task that was sent had its turn before turn `i`.
spec fn had_turn(sent: Seq<DispatchView>, order: Seq<u64>, a: int, i: int) -> bool {
    exists|p: int| 0 <= p < i && #[trigger] order[p] == sent[a].task.0
}

/// What was sent in the first turns are tasks that had their turn, in their order.
proof fn lemma_sent_in_order<P: Pathfinder>(
    pf: &P,
    map: RoadMapView,
    now: u64,
    s: Round,
    order: Seq<u64>,
    n: nat,
    refused_at: int,
)
    requires
        s.sent.len() == 0,
        numbered(s.pending),
        n <= order.len(),
    ensures
        ({
            let t = played(pf, map, now, s, order, n, refused_at);
            &&& numbered(t.pending)
            &&& forall|a: int|
                0 <= a < t.sent.len() ==> #[trigger] had_turn(t.sent, order, a, n as int)
            &&& forall|a: int, b: int|
                0 <= a < b < t.sent.len() ==> #[trigger] sent_before(t.sent, order, a, b)
        }),
    decreases n,
{
    if n > 0 {
        let i = (n - 1) as nat;
        lemma_sent_in_order(pf, map, now, s, order, i, refused_at);
        let a0 = played(pf, map, now, s, order, i, refused_at);
        let t = played(pf, map, now, s, order, n, refused_at);
        if !a0.over && a0.pending.contains_key(order[i as int]) {
            lemma_nearest_index(pf, map, a0.free, a0.pending[order[i as int]]);
        }
        assert forall|a: int| 0 <= a < t.sent.len() implies #[trigger] had_turn(
            t.sent,
            order,
            a,
            n as int,
        ) by {
            if a < a0.sent.len() {
                assert(had_turn(a0.sent, order, a, i as int));
                let p = choose|p: int| 0 <= p < i && #[trigger] order[p] == a0.sent[a].task.0;
                assert(order[p] == t.sent[a].task.0);
            } else {
                assert(order[i as int] == t.sent[a].task.0);
            }
        }
        assert forall|a: int, b: int| 0 <= a < b < t.sent.len() implies #[trigger] sent_before(
            t.sent,
            order,
            a,
            b,
        ) by {
            if b < a0.sent.len() {
                assert(sent_before(a0.sent, order, a, b));
                let (p, q) = choose|p: int, q: int|
                    0 <= p < q < order.len() && #[trigger] order[p] == a0.sent[a].task.0
                        && #[trigger] order[q] == a0.sent[b].task.0;
                assert(order[p] == t.sent[a].task.0 && order[q] == t.sent[b].task.0);
            } else {
                assert(had_turn(a0.sent, order, a, i as int));
                let p = choose|p: int| 0 <= p < i && #[trigger] order[p] == a0.sent[a].task.0;
                assert(order[p] == t.sent[a].task.0 && order[i as int] == t.sent[b].task.0);
            }
        }
    }
}

/// Whether the `a`-th task that was sent had its turn before the `b`-th one.
spec fn sent_before(sent: Seq<DispatchView>, order: Seq<u64>, a: int, b: int) -> bool {
    exists|p: int, q: int|
        0 <= p < q < order.len() && #[trigger] order[p] == sent[a].task.0 && #[trigger] order[q]
            == sent[b].task.0
}

/// The tasks that can be served in a tick: those that the scheduler has as waiting, and those
/// that are taken back in the tick.
pub open spec fn served_in_tick(
    v: StoreView,
    s: SchedulerView,
    config: SystemConfig,
    now: u64,
) -> Map<u64, TaskView> {
    with_requeued(s.pending, v, config, now)
}

/// A round begins fairly.
proof fn lemma_fair_start<P: Pathfinder>(
    pf: &P,
    map: RoadMapView,
    swept: StoreView,
    ready: Set<u64>,
    pending: Map<u64, TaskView>,
    offers: Seq<Offer>,
    free: Seq<RobotView>,
)
    requires
        swept.wf(),
        lists_robots(free, swept.robots, ready),
        forall|r: u64| #[trigger]
            ready.contains(r) ==> swept.robots.contains_key(r) && swept.robots[r].status
                == RobotStatus::Idle,
        forall|k: u64| #[trigger]
            pending.contains_key(k) ==> pending[k].id == TaskId(k) && swept.tasks.contains_key(k),
    ensures
        fair_inv(
            pf,
            map,
            swept,
            ready,
            pending,
            offers.len(),
            round_start(swept, free, pending, offers),
        ),
        forall|r: u64| #[trigger]
            ready.contains(r) ==> swept.robots[r].status == RobotStatus::Idle && swept.robots[r].id.0
                == r,
{
    let start = round_start(swept, free, pending, offers);
    let numbers = robot_numbers(free);
    assert forall|r: u64| #[trigger] ready.contains(r) implies swept.robots[r].status
        == RobotStatus::Idle && swept.robots[r].id.0 == r && swept.robots.contains_key(r) by {
        assert(swept.robots.contains_key(r));
    }
    assert forall|i: int| 0 <= i < free.len() implies ready.contains((#[trigger] free[i]).id.0)
        && free[i] == swept.robots[free[i].id.0] && swept.robots.contains_key(free[i].id.0) by {
        assert(numbers[i] == free[i].id.0);
        assert(numbers.to_set().contains(numbers[i]));
    }
    assert forall|i: int, j: int| 0 <= i < j < free.len() implies (#[trigger] free[i]).id != (
    #[trigger] free[j]).id by {
        assert(numbers[i] == free[i].id.0);
        assert(numbers[j] == free[j].id.0);
        assert(numbers[i] != numbers[j]);
    }
    assert forall|r: u64| #[trigger] ready.contains(r) implies (is_free(start, r) <==> !has_order(
        start.sent,
        start.sent.len() as int,
        r,
    )) by {
        assert(numbers.to_set().contains(r));
        let i = numbers.index_of(r);
        assert(numbers[i] == free[i].id.0);
        assert(start.free[i].id.0 == r);
    }
}

/// A round of matching is fair.
proof fn lemma_fair_round<P: Pathfinder>(
    pf: &P,
    map: RoadMapView,
    config: SystemConfig,
    cooldown: Map<u64, u64>,
    now: u64,
    v: StoreView,
    pending: Map<u64, TaskView>,
    offers: Seq<Offer>,
    end: Round,
) -> (c: Course)
    requires
        v.wf(),
        all_known(v, pending),
        is_matched(pf, map, config, cooldown, now, v, pending, offers, end),
    ensures
        ({
            let swept = v.evicted(now, config.heartbeat_timeout_ms);
            let ready = ready_robots(v, config, cooldown, now);
            let start = c.start(swept, pending, offers);
            &&& is_serving_order(c.order, pending, now, config.priority_aging_ms)
            &&& end == c.end(pf, map, now, start)
            &&& numbered(pending)
            &&& fair_inv(pf, map, swept, ready, pending, offers.len(), start)
            &&& forall|r: u64| #[trigger]
                ready.contains(r) ==> swept.robots[r].status == RobotStatus::Idle
                    && swept.robots[r].id.0 == r
        }),
{
    let c = lemma_course(pf, map, config, cooldown, now, v, pending, offers, end);
    let swept = v.evicted(now, config.heartbeat_timeout_ms);
    let ready = ready_robots(v, config, cooldown, now);
    assert(swept.wf());
    assert forall|k: u64| #[trigger] pending.contains_key(k) implies pending[k].id == TaskId(k)
        && swept.tasks.contains_key(k) by {
        assert(v.tasks.contains_key(k));
    }
    lemma_fair_start(pf, map, swept, ready, pending, offers, c.free);
    c
}

/// Whether all waiting tasks have their own numbers and are known to the store.
pub open spec fn all_known(v: StoreView, pending: Map<u64, TaskView>) -> bool {
    forall|k: u64| #[trigger]
        pending.contains_key(k) ==> pending[k].id == TaskId(k) && v.tasks.contains_key(k)
}

/// A tick begins with a fair round.
proof fn lemma_fair_tick<P: Pathfinder>(
    pf: &P,
    map: RoadMapView,
    config: SystemConfig,
    now: u64,
    v: StoreView,
    s: SchedulerView,
    v2: StoreView,
    s2: SchedulerView,
    sent: Seq<DispatchView>,
) -> (t: TickCourse)
    requires
        v.wf(),
        all_accounted_for(map, v, s.pending),
        is_ticked(pf, map, config, now, v, s, v2, s2, sent),
    ensures
        ({
            let swept = swept_store(v, config, now);
            let ready = ready_in_tick(v, config, s.cooldown, now);
            let pending = served_in_tick(v, s, config, now);
            let start = t.course.start(swept, pending, s.offers);
            &&& is_serving_order(t.course.order, pending, now, config.priority_aging_ms)
            &&& t.round == t.course.end(pf, map, now, start)
            &&& t.round.sent == sent
            &&& t.round.offers == s2.offers
            &&& numbered(pending)
            &&& fair_inv(pf, map, swept, ready, pending, s.offers.len(), start)
            &&& forall|r: u64| #[trigger]
                ready.contains(r) ==> swept.robots[r].status == RobotStatus::Idle
                    && swept.robots[r].id.0 == r
        }),
{
    let t = lemma_tick_course(pf, map, config, now, v, s, v2, s2, sent);
    let swept = swept_store(v, config, now);
    let ready = ready_in_tick(v, config, s.cooldown, now);
    let pending = served_in_tick(v, s, config, now);
    assert(swept.wf());
    assert forall|k: u64| #[trigger] pending.contains_key(k) implies pending[k].id == TaskId(k)
        && swept.tasks.contains_key(k) by {
        if s.pending.contains_key(k) {
            assert(same_task(v, s.pending, k));
        }
    }
    lemma_fair_start(pf, map, swept, ready, pending, s.offers, t.course.free);
    t
}

/// Whether a task has a reason to wait when the robots `left` are left: none of them is on the
/// network, or one that is nearest to its first node has no way to carry it out.
pub open spec fn has_reason_to_wait<P: Pathfinder>(
    pf: &P,
    map: RoadMapView,
    robots: Map<u64, RobotView>,
    left: Set<u64>,
    task: TaskView,
) -> bool {
    let at = map.nodes[(task.goal()->0).0];
    (forall|r: u64| #[trigger] left.contains(r) ==> !on_network(map, robots[r])) || (exists|r: u64|
        {
            &&& #[trigger] left.contains(r)
            &&& on_network(map, robots[r])
            &&& forall|q: u64| #[trigger]
                left.contains(q) && on_network(map, robots[q]) ==> apart(spot(map, robots[r]), at)
                    <= apart(spot(map, robots[q]), at)
            &&& !can_be_planned(pf, map, robots[r].location.node->0, task.kind)
        })
}

/// The robots that are left when a round has come to the state `s`.
spec fn left_over(ready: Set<u64>, s: Round) -> Set<u64> {
    Set::new(|r: u64| is_free(s, r) && ready.contains(r))
}

/// A task that was not sent, though its goal is known and the channel refused nothing, waited
/// when its turn came, unless no robot was left.
proof fn lemma_state_at_turn<P: Pathfinder>(
    pf: &P,
    map: RoadMapView,
    now: u64,
    swept: StoreView,
    ready: Set<u64>,
    pending: Map<u64, TaskView>,
    base: nat,
    start: Round,
    order: Seq<u64>,
    refused_at: int,
    i: int,
    end: Round,
)
    requires
        fair_inv(pf, map, swept, ready, pending, base, start),
        forall|r: u64| #[trigger]
            ready.contains(r) ==> swept.robots[r].status == RobotStatus::Idle && swept.robots[r].id.0
                == r,
        start.pending == pending,
        start.sent.len() == 0,
        base == start.offers.len(),
        order.no_duplicates(),
        0 <= i < order.len(),
        pending.contains_key(order[i]),
        !leads_nowhere(map, pending[order[i]]),
        end == played(pf, map, now, start, order, order.len(), refused_at),
        forall|m: int| base <= m < end.offers.len() ==> (#[trigger] end.offers[m]).accepted,
        forall|m: int| 0 <= m < end.sent.len() ==> (#[trigger] end.sent[m]).task.0 != order[i],
    ensures
        ({
            let before = played(pf, map, now, start, order, i as nat, refused_at);
            &&& fair_inv(pf, map, swept, ready, pending, base, before)
            &&& before.over ==> before.free.len() == 0
            &&& !before.over ==> proposal(pf, map, before.free, pending[order[i]]) is Wait
        }),
{
    let k = order[i];
    let before = played(pf, map, now, start, order, i as nat, refused_at);
    let after = played(pf, map, now, start, order, (i + 1) as nat, refused_at);
    lemma_fair(pf, map, now, swept, ready, pending, base, start, order, i as nat, refused_at);
    lemma_played_grows(pf, map, now, start, order, i as nat, order.len(), refused_at);
    lemma_played_grows(pf, map, now, start, order, (i + 1) as nat, order.len(), refused_at);
    assert(goes_on(base, before)) by {
        if before.offers.len() > base {
            let m = before.offers.len() - 1;
            assert(before.offers[m] == end.offers[m]);
        }
    }
    assert(numbered(start.pending)) by {
        assert forall|q: u64| #[trigger] start.pending.contains_key(q) implies start.pending[q].id
            == TaskId(q) by {
            assert(pending[q].id.0 == q);
        }
    }
    lemma_still_waits_at_turn(pf, map, now, start, order, refused_at, i as nat, k);
    if !before.over {
        lemma_waits_or_is_sent(
            pf,
            map,
            now,
            swept,
            ready,
            pending,
            base,
            before,
            k,
            refused_at == i,
        );
        assert(after == turn(pf, map, now, before, k, refused_at == i));
        if proposal(pf, map, before.free, pending[k]) is Send {
            if refused_at == i {
                let m = before.offers.len() as int;
                assert(end.offers[m] == after.offers[m]);
            } else {
                let m = before.sent.len() as int;
                assert(end.sent[m] == after.sent[m]);
            }
        }
    }
}

/// Left at the turn of a task are all ready robots but those with an order for a task that is
/// served earlier.
proof fn lemma_left_at_turn<P: Pathfinder>(
    pf: &P,
    map: RoadMapView,
    now: u64,
    aging_ms: u64,
    swept: StoreView,
    ready: Set<u64>,
    pending: Map<u64, TaskView>,
    base: nat,
    start: Round,
    order: Seq<u64>,
    refused_at: int,
    i: int,
    sent: Seq<DispatchView>,
)
    requires
        fair_inv(
            pf,
            map,
            swept,
            ready,
            pending,
            base,
            played(pf, map, now, start, order, i as nat, refused_at),
        ),
        start.sent.len() == 0,
        start.pending == pending,
        numbered(pending),
        is_serving_order(order, pending, now, aging_ms),
        0 <= i < order.len(),
        sent == played(pf, map, now, start, order, order.len(), refused_at).sent,
    ensures
        forall|r: u64| #[trigger]
            ready.contains(r) && (forall|j: int|
                0 <= j < sent.len() && (#[trigger] sent[j]).robot.0 == r ==> served_after(
                    pending[sent[j].task.0],
                    pending[order[i]],
                    now,
                    aging_ms,
                )) ==> left_over(
                ready,
                played(pf, map, now, start, order, i as nat, refused_at),
            ).contains(r),
{
    let k = order[i];
    let before = played(pf, map, now, start, order, i as nat, refused_at);
    lemma_played_grows(pf, map, now, start, order, i as nat, order.len(), refused_at);
    lemma_sent_in_order(pf, map, now, start, order, i as nat, refused_at);
    assert forall|r: u64| #[trigger] ready.contains(r) && (forall|j: int|
        0 <= j < sent.len() && (#[trigger] sent[j]).robot.0 == r ==> served_after(
            pending[sent[j].task.0],
            pending[k],
            now,
            aging_ms,
        )) implies left_over(ready, before).contains(r) by {
        if has_order(before.sent, before.sent.len() as int, r) {
            let j = choose|j: int|
                0 <= j < before.sent.len() && j < before.sent.len() && (
                #[trigger] before.sent[j]).robot.0 == r;
            assert(sent[j] == before.sent[j]);
            assert(served_after(pending[sent[j].task.0], pending[k], now, aging_ms));
            assert(had_turn(before.sent, order, j, i));
            let q = choose|q: int| 0 <= q < i && #[trigger] order[q] == before.sent[j].task.0;
            law_tasks_are_served_by_level_then_age_then_number(
                order,
                pending,
                now,
                aging_ms,
                q,
                i,
                k,
            );
        }
    }
}

/// If a task waits at its turn, no robot that is left is on the network, or one nearest to its
/// first node cannot carry it out.
proof fn lemma_reason_to_wait<P: Pathfinder>(
    pf: &P,
    map: RoadMapView,
    swept: StoreView,
    ready: Set<u64>,
    pending: Map<u64, TaskView>,
    base: nat,
    s: Round,
    k: u64,
)
    requires
        fair_inv(pf, map, swept, ready, pending, base, s),
        s.over ==> s.free.len() == 0,
        !s.over ==> proposal(pf, map, s.free, pending[k]) is Wait,
    ensures
        has_reason_to_wait(pf, map, swept.robots, left_over(ready, s), pending[k]),
{
    let left = left_over(ready, s);
    let at = map.nodes[(pending[k].goal()->0).0];
    if s.over || forall|j: int| 0 <= j < s.free.len() ==> !on_network(map, #[trigger] s.free[j]) {
        assert forall|r: u64| #[trigger] left.contains(r) implies !on_network(
            map,
            swept.robots[r],
        ) by {
            let j = choose|j: int| 0 <= j < s.free.len() && (#[trigger] s.free[j]).id.0 == r;
            assert(s.free[j] == swept.robots[r]);
        }
    } else {
        lemma_proposal_is_nearest(pf, map, s.free, pending[k]);
        let b = choose|b: int|
            {
                &&& 0 <= b < s.free.len()
                &&& on_network(map, #[trigger] s.free[b])
                &&& forall|j: int|
                    0 <= j < s.free.len() && on_network(map, #[trigger] s.free[j]) ==> apart(
                        spot(map, s.free[b]),
                        at,
                    ) <= apart(spot(map, s.free[j]), at)
                &&& planned(pf, map, s.free[b].location.node->0, pending[k]) is None
            };
        let r = s.free[b].id.0;
        assert(left.contains(r));
        assert(s.free[b] == swept.robots[r]);
        law_planning_succeeds_whenever_it_can(
            pf,
            map,
            swept.robots[r].location.node->0,
            pending[k],
        );
        assert forall|q: u64| #[trigger] left.contains(q) && on_network(
            map,
            swept.robots[q],
        ) implies apart(spot(map, swept.robots[r]), at) <= apart(
            spot(map, swept.robots[q]),
            at,
        ) by {
            let j = choose|j: int| 0 <= j < s.free.len() && (#[trigger] s.free[j]).id.0 == q;
            assert(s.free[j] == swept.robots[q]);
        }
    }
}

/// No task waits without a reason. After a tick in which the channel refused nothing, a task
/// that could have been served and was not sent leads nowhere, or when its turn came none of
/// the robots that were left was on the network, or one of those nearest to its first node had
/// no way to carry it out. Left, at the turn of a task, were all robots that were ready but for
/// those with an order for a task that is served earlier: however many tasks wait, and
/// whatever becomes of the others.
pub proof fn law_no_task_waits_without_a_reason<P: Pathfinder>(
    pf: &P,
    map: RoadMapView,
    config: SystemConfig,
    now: u64,
    v: StoreView,
    s: SchedulerView,
    v2: StoreView,
    s2: SchedulerView,
    sent: Seq<DispatchView>,
    k: u64,
) -> (left: Set<u64>)
    requires
        v.wf(),
        all_accounted_for(map, v, s.pending),
        is_ticked(pf, map, config, now, v, s, v2, s2, sent),
        nothing_refused(s.offers, s2.offers),
        served_in_tick(v, s, config, now).contains_key(k),
        forall|i: int| 0 <= i < sent.len() ==> (#[trigger] sent[i]).task.0 != k,
        served_in_tick(v, s, config, now)[k].goal() matches Some(goal) && map.nodes.contains_key(
            goal.0,
        ),
    ensures
        ({
            let pending = served_in_tick(v, s, config, now);
            let ready = ready_in_tick(v, config, s.cooldown, now);
            let robots = swept_store(v, config, now).robots;
            &&& left.subset_of(ready)
            &&& forall|r: u64| #[trigger]
                ready.contains(r) && (forall|i: int|
                    0 <= i < sent.len() && (#[trigger] sent[i]).robot.0 == r ==> served_after(
                        pending[sent[i].task.0],
                        pending[k],
                        now,
                        config.priority_aging_ms,
                    )) ==> left.contains(r)
            &&& has_reason_to_wait(pf, map, robots, left, pending[k])
        }),
{
    let c = lemma_fair_tick(pf, map, config, now, v, s, v2, s2, sent);
    let swept = swept_store(v, config, now);
    let ready = ready_in_tick(v, config, s.cooldown, now);
    let pending = served_in_tick(v, s, config, now);
    let start = c.course.start(swept, pending, s.offers);
    let (order, refused_at) = (c.course.order, c.course.refused_at);
    assert(order.to_set().contains(k));
    let i = order.index_of(k);
    let before = played(pf, map, now, start, order, i as nat, refused_at);
    lemma_state_at_turn(
        pf,
        map,
        now,
        swept,
        ready,
        pending,
        s.offers.len(),
        start,
        order,
        refused_at,
        i,
        c.round,
    );
    lemma_left_at_turn(
        pf,
        map,
        now,
        config.priority_aging_ms,
        swept,
        ready,
        pending,
        s.offers.len(),
        start,
        order,
        refused_at,
        i,
        sent,
    );
    lemma_reason_to_wait(pf, map, swept, ready, pending, s.offers.len(), before, k);
    left_over(ready, before)
}

/// A turn that proposes an order offers it, and the order is refused or sent.
proof fn lemma_waits_or_is_sent<P: Pathfinder>(
    pf: &P,
    map: RoadMapView,
    now: u64,
    swept: StoreView,
    ready: Set<u64>,
    pending: Map<u64, TaskView>,
    base: nat,
    s: Round,
    k: u64,
    refused: bool,
)
    requires
        fair_inv(pf, map, swept, ready, pending, base, s),
        forall|r: u64| #[trigger]
            ready.contains(r) ==> swept.robots[r].status == RobotStatus::Idle && swept.robots[r].id.0
                == r,
        !s.over,
        s.pending.contains_key(k),
        !leads_nowhere(map, pending[k]),
    ensures
        ({
            let t = turn(pf, map, now, s, k, refused);
            let p = proposal(pf, map, s.free, pending[k]);
            &&& p is Send || p is Wait
            &&& p is Send && refused ==> t.offers.len() == s.offers.len() + 1
                && !t.offers.last().accepted
            &&& p is Send && !refused ==> t.sent.len() == s.sent.len() + 1 && t.sent.last().task.0
                == k
        }),
{
    lemma_proposal_is_nearest(pf, map, s.free, pending[k]);
    match proposal(pf, map, s.free, pending[k]) {
        ProposalView::Send { index, order, end } => {
            assert(ready.contains(s.free[index].id.0));
            assert(s.store.robots.contains_key(s.free[index].id.0));
            assert(s.store.assign_error(order.robot, order.task) is None);
        },
        _ => {},
    }
}

/// A task that is to be served waits until its turn.
proof fn lemma_still_waits_at_turn<P: Pathfinder>(
    pf: &P,
    map: RoadMapView,
    now: u64,
    start: Round,
    order: Seq<u64>,
    refused_at: int,
    i: nat,
    k: u64,
)
    requires
        start.pending.contains_key(k),
        numbered(start.pending),
        i <= order.len(),
        forall|j: int| 0 <= j < i ==> #[trigger] order[j] != k,
    ensures
        played(pf, map, now, start, order, i, refused_at).pending.contains_key(k),
        numbered(played(pf, map, now, start, order, i, refused_at).pending),
    decreases i,
{
    if i > 0 {
        let m = (i - 1) as nat;
        lemma_still_waits_at_turn(pf, map, now, start, order, refused_at, m, k);
        let a = played(pf, map, now, start, order, m, refused_at);
        assert(order[m as int] != k);
        if !a.over && a.pending.contains_key(order[m as int]) {
            lemma_nearest_index(pf, map, a.free, a.pending[order[m as int]]);
        }
    }
}

/// Orders go where they have to go. The robot of an order was ready, stood on the network, and
/// among those that had no order yet none was nearer to the first node of the task; and the
/// path is the one planned from where it stands.
pub proof fn law_orders_go_to_the_nearest_robot<P: Pathfinder>(
    pf: &P,
    map: RoadMapView,
    config: SystemConfig,
    now: u64,
    v: StoreView,
    s: SchedulerView,
    v2: StoreView,
    s2: SchedulerView,
    sent: Seq<DispatchView>,
    m: int,
    q: u64,
)
    requires
        v.wf(),
        all_accounted_for(map, v, s.pending),
        is_ticked(pf, map, config, now, v, s, v2, s2, sent),
        0 <= m < sent.len(),
    ensures
        ({
            let pending = served_in_tick(v, s, config, now);
            let ready = ready_in_tick(v, config, s.cooldown, now);
            let robots = swept_store(v, config, now).robots;
            let o = sent[m];
            let t = pending[o.task.0];
            let r = robots[o.robot.0];
            let at = map.nodes[(t.goal()->0).0];
            &&& pending.contains_key(o.task.0)
            &&& ready.contains(o.robot.0)
            &&& on_network(map, r)
            &&& t.goal() is Some && map.nodes.contains_key((t.goal()->0).0)
            &&& ready.contains(q) && on_network(map, robots[q]) && (forall|j: int|
                0 <= j < m ==> (#[trigger] sent[j]).robot.0 != q) ==> apart(spot(map, r), at)
                <= apart(spot(map, robots[q]), at)
            &&& planned(pf, map, r.location.node->0, t) is Some
            &&& (planned(pf, map, r.location.node->0, t)->0).0 == o.path
            &&& (planned(pf, map, r.location.node->0, t)->0).2 == o.pickup
        }),
{
    let c = lemma_fair_tick(pf, map, config, now, v, s, v2, s2, sent);
    let swept = swept_store(v, config, now);
    let ready = ready_in_tick(v, config, s.cooldown, now);
    let pending = served_in_tick(v, s, config, now);
    let start = c.course.start(swept, pending, s.offers);
    let order = c.course.order;
    lemma_fair(
        pf,
        map,
        now,
        swept,
        ready,
        pending,
        s.offers.len(),
        start,
        order,
        order.len(),
        c.course.refused_at,
    );
    assert(is_right_order(pf, map, swept.robots, ready, pending, sent, m));
    if ready.contains(q) && (forall|j: int| 0 <= j < m ==> (#[trigger] sent[j]).robot.0 != q) {
        assert(!has_order(sent, m, q));
    }
}

/// Orders are sent in the order of service: of two orders of a tick the later one is for a task
/// that is to be served after the other.
pub proof fn law_orders_follow_the_order_of_service<P: Pathfinder>(
    pf: &P,
    map: RoadMapView,
    config: SystemConfig,
    now: u64,
    v: StoreView,
    s: SchedulerView,
    v2: StoreView,
    s2: SchedulerView,
    sent: Seq<DispatchView>,
    a: int,
    b: int,
)
    requires
        v.wf(),
        all_accounted_for(map, v, s.pending),
        is_ticked(pf, map, config, now, v, s, v2, s2, sent),
        0 <= a < b < sent.len(),
    ensures
        served_after(
            served_in_tick(v, s, config, now)[sent[b].task.0],
            served_in_tick(v, s, config, now)[sent[a].task.0],
            now,
            config.priority_aging_ms,
        ),
{
    let c = lemma_fair_tick(pf, map, config, now, v, s, v2, s2, sent);
    let swept = swept_store(v, config, now);
    let pending = served_in_tick(v, s, config, now);
    let start = c.course.start(swept, pending, s.offers);
    let order = c.course.order;
    lemma_sent_in_order(pf, map, now, start, order, order.len(), c.course.refused_at);
    assert(sent_before(sent, order, a, b));
    let (p, q) = choose|p: int, q: int|
        0 <= p < q < order.len() && #[trigger] order[p] == sent[a].task.0 && #[trigger] order[q]
            == sent[b].task.0;
    law_tasks_are_served_by_level_then_age_then_number(
        order,
        pending,
        now,
        config.priority_aging_ms,
        p,
        q,
        order[q],
    );
    assert(order.contains(order[q]));
}

/// Ready in a tick is a robot that is idle once hanging tasks are taken back, was heard of in
/// time, has at least 20 percent of charge, and is not cooling down.
pub proof fn law_who_is_ready_in_a_tick(
    v: StoreView,
    config: SystemConfig,
    cooldown: Map<u64, u64>,
    now: u64,
    r: u64,
)
    ensures
        ({
            let back = v.reclaimed(now, config.task_timeout_ms, config.max_task_retries);
            ready_in_tick(v, config, cooldown, now).contains(r) <==> {
                &&& back.robots.contains_key(r)
                &&& back.robots[r].status == RobotStatus::Idle
                &&& now <= back.robots[r].last_heartbeat + config.heartbeat_timeout_ms
                &&& back.robots[r].battery.0 >= 20
                &&& cooldown.contains_key(r) ==> now >= cooldown[r]
            }
        }),
        ready_in_tick(v, config, cooldown, now).contains(r) ==> swept_store(v, config, now).robots[r]
            == v.reclaimed(now, config.task_timeout_ms, config.max_task_retries).robots[r],
{
}

/// Served in a tick are the tasks that wait already, and those that are taken back from their
/// robots in the tick to be tried again, as they then are.
pub proof fn law_what_is_served_in_a_tick(
    v: StoreView,
    s: SchedulerView,
    config: SystemConfig,
    now: u64,
    k: u64,
)
    ensures
        ({
            let back = v.requeued(now, config.task_timeout_ms, config.max_task_retries);
            let after = v.reclaimed(now, config.task_timeout_ms, config.max_task_retries);
            let served = served_in_tick(v, s, config, now);
            &&& served.contains_key(k) <==> s.pending.contains_key(k) || back.contains(k)
            &&& back.contains(k) ==> served[k] == after.tasks[k]
            &&& s.pending.contains_key(k) && !back.contains(k) ==> served[k] == s.pending[k]
        }),
{
}

/// A tick takes back every task that hangs, whatever else it does: the task waits for the
/// scheduler or is sent again, or it is given up.
pub proof fn law_a_tick_takes_back_what_hangs<P: Pathfinder>(
    pf: &P,
    map: RoadMapView,
    config: SystemConfig,
    now: u64,
    v: StoreView,
    s: SchedulerView,
    v2: StoreView,
    s2: SchedulerView,
    sent: Seq<DispatchView>,
    k: u64,
)
    requires
        v.wf(),
        all_accounted_for(map, v, s.pending),
        is_ticked(pf, map, config, now, v, s, v2, s2, sent),
        v.tasks.contains_key(k),
        v.tasks[k].status == TaskStatus::Assigned || v.tasks[k].status == TaskStatus::Executing,
        v.tasks[k].assigned_at != 0,
        now > v.tasks[k].assigned_at + config.task_timeout_ms,
        v.tasks[k].retry_count < config.max_task_retries,
        !leads_nowhere(map, v.tasks[k]),
    ensures
        is_sent(sent, k) || s2.pending.contains_key(k),
{
    let c = lemma_tick_course(pf, map, config, now, v, s, v2, s2, sent);
    let reclaimed = v.reclaimed(now, config.task_timeout_ms, config.max_task_retries);
    let cooling = still_cooling(s.cooldown, now);
    let pending = with_requeued(s.pending, v, config, now);
    law_tasks_that_take_too_long_are_taken_back(
        v,
        now,
        config.task_timeout_ms,
        config.max_task_retries,
        k,
    );
    law_what_is_served_in_a_tick(v, s, config, now, k);
    assert(numbered(pending)) by {
        assert forall|j: u64| #[trigger] pending.contains_key(j) implies pending[j].id == TaskId(
            j,
        ) by {
            if s.pending.contains_key(j) {
                assert(same_task(v, s.pending, j));
            }
        }
    }
    assert(is_matched(pf, map, config, cooling, now, reclaimed, pending, s.offers, c.round)) by {
        assert(c.round == played(
            pf,
            map,
            now,
            round_start(swept_store(v, config, now), c.course.free, pending, s.offers),
            c.course.order,
            c.course.order.len(),
            c.course.refused_at,
        ));
    }
    law_no_waiting_task_is_lost(
        pf,
        map,
        config,
        cooling,
        now,
        reclaimed,
        pending,
        s.offers,
        c.round,
    );
    lemma_ways_given_keep_waiting(
        current_tasks(c.round.store),
        current_priorities(c.round.store, now, config.priority_aging_ms),
        now,
        config.deadlock_cooldown_ms,
        Standoff { store: c.round.store, cooldown: cooling, pending: c.round.pending },
        c.rings,
        c.rings.len(),
        k,
    );
}

/// In every deadlock that is found the robot gives way whose task is the least urgent once it
/// has aged, and between equals the one with the greatest number: it has no task, no target and
/// no route any more, gets no order before the end of its cooldown, and its task waits again.
pub proof fn law_the_least_urgent_robot_gives_way(
    config: SystemConfig,
    now: u64,
    s: Standoff,
    end: Standoff,
)
    requires
        orderly(s.store),
        is_resolved(config, now, s, end),
    ensures
        exists|robots: Seq<RobotView>, rings: Seq<Vec<RobotId>>|
            {
                &&& lists_robots(robots, s.store.robots, s.store.robots.dom())
                &&& #[trigger] reports_deadlocks(waits(robots), rings)
                &&& forall|r: int|
                    0 <= r < rings.len() ==> gave_way(
                        config,
                        now,
                        s,
                        end,
                        (#[trigger] rings[r])@,
                        victim(
                            rings[r]@,
                            current_priorities(s.store, now, config.priority_aging_ms),
                        ),
                    )
            },
{
    let aging_ms = config.priority_aging_ms;
    let prio = current_priorities(s.store, now, aging_ms);
    law_found_deadlocks_are_resolved(config, now, s, end);
    let (robots, rings) = choose|robots: Seq<RobotView>, rings: Seq<Vec<RobotId>>|
        {
            &&& lists_robots(robots, s.store.robots, s.store.robots.dom())
            &&& #[trigger] reports_deadlocks(waits(robots), rings)
            &&& forall|r: int|
                0 <= r < rings.len() ==> is_victim(
                    (#[trigger] rings[r])@,
                    prio,
                    victim(rings[r]@, prio),
                ) && has_left(
                    end,
                    victim(rings[r]@, prio),
                    current_tasks(s.store)[victim(rings[r]@, prio).0],
                    cooldown_end(now, config.deadlock_cooldown_ms),
                )
        };
    assert forall|r: int| 0 <= r < rings.len() implies gave_way(
        config,
        now,
        s,
        end,
        (#[trigger] rings[r])@,
        victim(rings[r]@, prio),
    ) by {
        let ring = rings[r]@;
        let who = victim(ring, prio);
        assert(ring.contains(who));
        assert forall|x: RobotId| #[trigger] ring.contains(x) implies rank_of(
            s.store,
            who,
            now,
            aging_ms,
        ) < rank_of(s.store, x, now, aging_ms) || (rank_of(s.store, who, now, aging_ms) == rank_of(
            s.store,
            x,
            now,
            aging_ms,
        ) && x.0 <= who.0) by {
            law_the_least_urgent_robot_is_the_victim(s.store, now, aging_ms, ring, x);
        }
        law_every_deadlock_has_a_victim_with_a_task(s.store, robots, ring, prio, who);
    }
}

/// Whether `who` is the robot of a ring that had to give way, and did.
pub open spec fn gave_way(
    config: SystemConfig,
    now: u64,
    s: Standoff,
    end: Standoff,
    ring: Seq<RobotId>,
    who: RobotId,
) -> bool {
    let aging_ms = config.priority_aging_ms;
    &&& ring.contains(who)
    &&& forall|x: RobotId| #[trigger]
        ring.contains(x) ==> rank_of(s.store, who, now, aging_ms) < rank_of(
            s.store,
            x,
            now,
            aging_ms,
        ) || (rank_of(s.store, who, now, aging_ms) == rank_of(s.store, x, now, aging_ms) && x.0
            <= who.0)
    &&& s.store.robots.contains_key(who.0) && s.store.robots[who.0].current_task is Some
    &&& end.store.robots.contains_key(who.0)
    &&& end.store.robots[who.0].status != RobotStatus::Busy
    &&& end.store.robots[who.0].target is None
    &&& end.cooldown.contains_key(who.0)
    &&& end.cooldown[who.0] == (if now + config.deadlock_cooldown_ms <= u64::MAX {
        now + config.deadlock_cooldown_ms
    } else {
        u64::MAX as int
    })
    &&& end.store.tasks.contains_key((s.store.robots[who.0].current_task->0).0) ==> {
        let t = (s.store.robots[who.0].current_task->0).0;
        &&& end.store.tasks[t].status == TaskStatus::Pending
        &&& end.pending.contains_key(t)
    }
}

/// Nobody else has to give way: a robot that is the victim of no ring keeps its task, its
/// target and its cooldown.
pub proof fn law_only_victims_give_way(
    tasks: Map<u64, TaskId>,
    prio: Map<u64, TaskPriority>,
    now: u64,
    cooldown_ms: u64,
    s: Standoff,
    rings: Seq<Vec<RobotId>>,
    n: nat,
    robot: u64,
)
    requires
        n <= rings.len(),
        forall|r: int| 0 <= r < n ==> victim((#[trigger] rings[r])@, prio).0 != robot,
    ensures
        ({
            let e = ways_given(tasks, prio, now, cooldown_ms, s, rings, n);
            &&& same_robot(s.store, e.store, robot)
            &&& e.cooldown.contains_key(robot) <==> s.cooldown.contains_key(robot)
            &&& s.cooldown.contains_key(robot) ==> e.cooldown[robot] == s.cooldown[robot]
        }),
    decreases n,
{
    if n > 0 {
        law_only_victims_give_way(
            tasks,
            prio,
            now,
            cooldown_ms,
            s,
            rings,
            (n - 1) as nat,
            robot,
        );
        assert(victim(rings[n - 1]@, prio).0 != robot);
    }
}

/// A cooldown lasts until its end and no longer.
pub proof fn law_cooldowns_end_in_time(cooldown: Map<u64, u64>, now: u64, robot: u64)
    ensures
        still_cooling(cooldown, now).contains_key(robot) <==> cooldown.contains_key(robot) && now
            < cooldown[robot],
        still_cooling(cooldown, now).contains_key(robot) ==> still_cooling(cooldown, now)[robot]
            == cooldown[robot],
{
}

/// Where deadlocks are not to be resolved, nobody gives way in a tick: no cooldown begins, and no
/// robot loses the order that it was just sent.
pub proof fn law_without_resolution_nobody_gives_way<P: Pathfinder>(
    pf: &P,
    map: RoadMapView,
    config: SystemConfig,
    now: u64,
    v: StoreView,
    s: SchedulerView,
    v2: StoreView,
    s2: SchedulerView,
    sent: Seq<DispatchView>,
    m: int,
)
    requires
        v.wf(),
        all_accounted_for(map, v, s.pending),
        is_ticked(pf, map, config, now, v, s, v2, s2, sent),
        !config.enable_deadlock_resolution,
        0 <= m < sent.len(),
    ensures
        s2.cooldown == still_cooling(s.cooldown, now),
        is_recorded(v2, sent[m], now),
{
    let cooling = still_cooling(s.cooldown, now);
    let reclaimed = v.reclaimed(now, config.task_timeout_ms, config.max_task_retries);
    let pending = with_requeued(s.pending, v, config, now);
    let round = choose|round: Round|
        {
            let before = Standoff { store: round.store, cooldown: cooling, pending: round.pending };
            let after = Standoff { store: v2, cooldown: s2.cooldown, pending: s2.pending };
            &&& #[trigger] is_matched(
                pf,
                map,
                config,
                cooling,
                now,
                reclaimed,
                pending,
                s.offers,
                round,
            )
            &&& round.sent == sent
            &&& round.offers == s2.offers
            &&& config.enable_deadlock_resolution ==> is_resolved(config, now, before, after)
            &&& !config.enable_deadlock_resolution ==> before == after
        };
    assert(numbered(pending)) by {
        assert forall|j: u64| #[trigger] pending.contains_key(j) implies pending[j].id == TaskId(
            j,
        ) by {
            if s.pending.contains_key(j) {
                assert(same_task(v, s.pending, j));
            }
        }
    }
    law_orders_are_recorded(
        pf,
        map,
        config,
        cooling,
        now,
        reclaimed,
        pending,
        s.offers,
        round,
    );
}

/// The node at which a task ends, as the network knows it: the drop-off of a transport, the
/// charger, or the first waypoint of a patrol.
pub open spec fn ends_at(map: RoadMapView, kind: TaskKindView) -> Option<NodeId> {
    match kind {
        TaskKindView::Transport { dropoff, .. } => map.nodes[(dropoff.node->0).0].node,
        TaskKindView::Charge { charger } => map.nodes[charger.0].node,
        TaskKindView::Patrol { waypoints } => map.nodes[waypoints[0].0].node,
    }
}

/// Whether the robot of an order has the end of the task as its target.
spec fn sets_out(
    map: RoadMapView,
    pending: Map<u64, TaskView>,
    store: StoreView,
    order: DispatchView,
) -> bool {
    store.robots[order.robot.0].target == ends_at(map, pending[order.task.0].kind)
}

/// Robots with an order set out, and nothing in the round changes their target.
proof fn lemma_sets_out<P: Pathfinder>(
    pf: &P,
    map: RoadMapView,
    now: u64,
    swept: StoreView,
    ready: Set<u64>,
    pending: Map<u64, TaskView>,
    base: nat,
    s: Round,
    order: Seq<u64>,
    n: nat,
    refused_at: int,
)
    requires
        fair_inv(pf, map, swept, ready, pending, base, s),
        forall|r: u64| #[trigger]
            ready.contains(r) ==> swept.robots[r].status == RobotStatus::Idle && swept.robots[r].id.0
                == r,
        s.sent.len() == 0,
    ensures
        ({
            let t = played(pf, map, now, s, order, n, refused_at);
            forall|m: int|
                0 <= m < t.sent.len() ==> sets_out(map, pending, t.store, #[trigger] t.sent[m])
        }),
    decreases n,
{
    if n > 0 {
        let i = (n - 1) as nat;
        let a = played(pf, map, now, s, order, i, refused_at);
        let t = played(pf, map, now, s, order, n, refused_at);
        lemma_sets_out(
            pf,
            map,
            now,
            swept,
            ready,
            pending,
            base,
            s,
            order,
            i,
            refused_at,
        );
        lemma_fair(pf, map, now, swept, ready, pending, base, s, order, i, refused_at);
        let task = order[i as int];
        if !a.over && a.pending.contains_key(task) {
            lemma_proposal_is_nearest(pf, map, a.free, a.pending[task]);
            match proposal(pf, map, a.free, a.pending[task]) {
                ProposalView::Send { index, order: o, end } => {
                    let gone = a.free[index].id.0;
                    assert(ready.contains(gone));
                    assert(a.store.robots.contains_key(gone));
                    assert(is_free(a, gone));
                    assert(a.store.assign_error(o.robot, o.task) is None);
                    assert(end.node == ends_at(map, a.pending[task].kind)) by {
                        law_planning_succeeds_whenever_it_can(
                            pf,
                            map,
                            a.free[index].location.node->0,
                            a.pending[task],
                        );
                    }
                    assert forall|m: int| 0 <= m < t.sent.len() implies sets_out(
                        map,
                        pending,
                        t.store,
                        #[trigger] t.sent[m],
                    ) by {
                        if m < a.sent.len() {
                            assert(t.sent[m] == a.sent[m]);
                            assert(sets_out(map, pending, a.store, a.sent[m]));
                            assert(has_order(a.sent, a.sent.len() as int, a.sent[m].robot.0));
                            assert(a.sent[m].robot.0 != gone);
                        }
                    }
                },
                _ => {},
            }
        }
    }
}

/// A robot that was sent has the end of its task as its target, with which others see where it
/// is bound for.
pub proof fn law_robots_set_out_for_the_end_of_their_task<P: Pathfinder>(
    pf: &P,
    map: RoadMapView,
    config: SystemConfig,
    cooldown: Map<u64, u64>,
    now: u64,
    v: StoreView,
    pending: Map<u64, TaskView>,
    offers: Seq<Offer>,
    end: Round,
    m: int,
)
    requires
        v.wf(),
        all_known(v, pending),
        is_matched(pf, map, config, cooldown, now, v, pending, offers, end),
        0 <= m < end.sent.len(),
    ensures
        end.store.robots[end.sent[m].robot.0].target == ends_at(
            map,
            pending[end.sent[m].task.0].kind,
        ),
{
    let c = lemma_fair_round(pf, map, config, cooldown, now, v, pending, offers, end);
    let swept = v.evicted(now, config.heartbeat_timeout_ms);
    lemma_sets_out(
        pf,
        map,
        now,
        swept,
        ready_robots(v, config, cooldown, now),
        pending,
        offers.len(),
        c.start(swept, pending, offers),
        c.order,
        c.order.len(),
        c.refused_at,
    );
    assert(sets_out(map, pending, end.store, end.sent[m]));
}

/// A task that leads nowhere waits no longer once a round had the time for it: if the channel
/// refused nothing and a robot that was ready got no order, the round was through with all
/// tasks.
pub proof fn law_hopeless_tasks_are_dropped<P: Pathfinder>(
    pf: &P,
    map: RoadMapView,
    config: SystemConfig,
    cooldown: Map<u64, u64>,
    now: u64,
    v: StoreView,
    pending: Map<u64, TaskView>,
    offers: Seq<Offer>,
    end: Round,
    k: u64,
    robot: u64,
)
    requires
        v.wf(),
        all_known(v, pending),
        is_matched(pf, map, config, cooldown, now, v, pending, offers, end),
        nothing_refused(offers, end.offers),
        ready_robots(v, config, cooldown, now).contains(robot),
        forall|i: int| 0 <= i < end.sent.len() ==> (#[trigger] end.sent[i]).robot.0 != robot,
        pending.contains_key(k),
        match pending[k].goal() {
            Some(goal) => !map.nodes.contains_key(goal.0),
            None => true,
        },
    ensures
        !end.pending.contains_key(k),
{
    let c = lemma_fair_round(pf, map, config, cooldown, now, v, pending, offers, end);
    let swept = v.evicted(now, config.heartbeat_timeout_ms);
    let ready = ready_robots(v, config, cooldown, now);
    let start = c.start(swept, pending, offers);
    let (order, refused_at) = (c.order, c.refused_at);
    let base = offers.len();
    let n = order.len();
    assert(order.to_set().contains(k));
    let i = order.index_of(k);
    let before = played(pf, map, now, start, order, i as nat, refused_at);
    lemma_fair(pf, map, now, swept, ready, pending, base, start, order, i as nat, refused_at);
    lemma_played_grows(pf, map, now, start, order, i as nat, n, refused_at);
    lemma_played_grows(pf, map, now, start, order, (i + 1) as nat, n, refused_at);
    assert(goes_on(base, before)) by {
        if before.offers.len() > base {
            let m = before.offers.len() - 1;
            assert(end.offers[m].accepted);
            assert(before.offers[m] == end.offers[m]);
        }
    }
    assert(!has_order(before.sent, before.sent.len() as int, robot)) by {
        if has_order(before.sent, before.sent.len() as int, robot) {
            let j = choose|j: int|
                0 <= j < before.sent.len() && j < before.sent.len() && (
                #[trigger] before.sent[j]).robot.0 == robot;
            assert(end.sent[j] == before.sent[j]);
        }
    }
    assert(is_free(before, robot));
    assert(!before.over);
    if before.pending.contains_key(k) {
        lemma_proposal_is_nearest(pf, map, before.free, before.pending[k]);
        assert(before.pending[k] == pending[k]);
    }
    assert(!played(pf, map, now, start, order, (i + 1) as nat, refused_at).pending.contains_key(k));
}

/// Rounds leave robots that are offline alone.
proof fn lemma_offline_stays<P: Pathfinder>(
    pf: &P,
    map: RoadMapView,
    now: u64,
    s: Round,
    order: Seq<u64>,
    n: nat,
    refused_at: int,
    robot: u64,
)
    requires
        s.store.robots.contains_key(robot),
        s.store.robots[robot].status == RobotStatus::Offline,
    ensures
        ({
            let t = played(pf, map, now, s, order, n, refused_at);
            &&& t.store.robots.contains_key(robot)
            &&& t.store.robots[robot].status == RobotStatus::Offline
        }),
    decreases n,
{
    if n > 0 {
        lemma_offline_stays(pf, map, now, s, order, (n - 1) as nat, refused_at, robot);
    }
}

/// Giving way leaves robots offline that are.
proof fn lemma_offline_gives_no_way(
    tasks: Map<u64, TaskId>,
    prio: Map<u64, TaskPriority>,
    now: u64,
    cooldown_ms: u64,
    s: Standoff,
    rings: Seq<Vec<RobotId>>,
    n: nat,
    robot: u64,
)
    requires
        s.store.robots.contains_key(robot),
        s.store.robots[robot].status == RobotStatus::Offline,
    ensures
        ({
            let e = ways_given(tasks, prio, now, cooldown_ms, s, rings, n);
            &&& e.store.robots.contains_key(robot)
            &&& e.store.robots[robot].status == RobotStatus::Offline
        }),
    decreases n,
{
    if n > 0 {
        lemma_offline_gives_no_way(
            tasks,
            prio,
            now,
            cooldown_ms,
            s,
            rings,
            (n - 1) as nat,
            robot,
        );
    }
}

/// After a tick every robot is offline that was not heard of for longer than the timeout.
pub proof fn law_a_tick_leaves_nobody_silent<P: Pathfinder>(
    pf: &P,
    map: RoadMapView,
    config: SystemConfig,
    now: u64,
    v: StoreView,
    s: SchedulerView,
    v2: StoreView,
    s2: SchedulerView,
    sent: Seq<DispatchView>,
    robot: u64,
)
    requires
        is_ticked(pf, map, config, now, v, s, v2, s2, sent),
        v.robots.contains_key(robot),
        now > v.robots[robot].last_heartbeat + config.heartbeat_timeout_ms,
    ensures
        v2.robots.contains_key(robot),
        v2.robots[robot].status == RobotStatus::Offline,
{
    let t = lemma_tick_course(pf, map, config, now, v, s, v2, s2, sent);
    let swept = swept_store(v, config, now);
    assert(swept.robots.contains_key(robot));
    assert(swept.robots[robot].status == RobotStatus::Offline);
    lemma_offline_stays(
        pf,
        map,
        now,
        t.course.start(swept, with_requeued(s.pending, v, config, now), s.offers),
        t.course.order,
        t.course.order.len(),
        t.course.refused_at,
        robot,
    );
    lemma_offline_gives_no_way(
        current_tasks(t.round.store),
        current_priorities(t.round.store, now, config.priority_aging_ms),
        now,
        config.deadlock_cooldown_ms,
        Standoff {
            store: t.round.store,
            cooldown: still_cooling(s.cooldown, now),
            pending: t.round.pending,
        },
        t.rings,
        t.rings.len(),
        robot,
    );
}

/// A tick resolves deadlocks if it has to: after its round, in every ring that is found the
/// robot whose task is the least urgent once it has aged has given way.
pub proof fn law_a_tick_resolves_deadlocks<P: Pathfinder>(
    pf: &P,
    map: RoadMapView,
    config: SystemConfig,
    now: u64,
    v: StoreView,
    s: SchedulerView,
    v2: StoreView,
    s2: SchedulerView,
    sent: Seq<DispatchView>,
) -> (found: (Round, Seq<RobotView>, Seq<Vec<RobotId>>))
    requires
        orderly(v),
        is_ticked(pf, map, config, now, v, s, v2, s2, sent),
        config.enable_deadlock_resolution,
    ensures
        ({
            let (round, robots, rings) = found;
            let cooling = still_cooling(s.cooldown, now);
            let before = Standoff { store: round.store, cooldown: cooling, pending: round.pending };
            let after = Standoff { store: v2, cooldown: s2.cooldown, pending: s2.pending };
            &&& is_matched(
                pf,
                map,
                config,
                cooling,
                now,
                v.reclaimed(now, config.task_timeout_ms, config.max_task_retries),
                served_in_tick(v, s, config, now),
                s.offers,
                round,
            )
            &&& round.sent == sent
            &&& lists_robots(robots, round.store.robots, round.store.robots.dom())
            &&& reports_deadlocks(waits(robots), rings)
            &&& forall|r: int|
                0 <= r < rings.len() ==> gave_way(
                    config,
                    now,
                    before,
                    after,
                    (#[trigger] rings[r])@,
                    victim(
                        rings[r]@,
                        current_priorities(round.store, now, config.priority_aging_ms),
                    ),
                )
        }),
{
    let cooling = still_cooling(s.cooldown, now);
    let reclaimed = v.reclaimed(now, config.task_timeout_ms, config.max_task_retries);
    let pending = with_requeued(s.pending, v, config, now);
    let after = Standoff { store: v2, cooldown: s2.cooldown, pending: s2.pending };
    let round = choose|round: Round|
        {
            let before = Standoff { store: round.store, cooldown: cooling, pending: round.pending };
            &&& #[trigger] is_matched(
                pf,
                map,
                config,
                cooling,
                now,
                reclaimed,
                pending,
                s.offers,
                round,
            )
            &&& round.sent == sent
            &&& round.offers == s2.offers
            &&& config.enable_deadlock_resolution ==> is_resolved(config, now, before, after)
            &&& !config.enable_deadlock_resolution ==> before == after
        };
    let before = Standoff { store: round.store, cooldown: cooling, pending: round.pending };
    let c = lemma_course(
        pf,
        map,
        config,
        cooling,
        now,
        reclaimed,
        pending,
        s.offers,
        round,
    );
    let swept = swept_store(v, config, now);
    assert(orderly(swept)) by {
        assert forall|k: u64| #[trigger] swept.robots.contains_key(k) implies unbound_unless_busy(
            swept.robots[k],
        ) by {
            assert(v.robots.contains_key(k));
            assert(unbound_unless_busy(v.robots[k]));
        }
    }
    lemma_played_orderly(
        pf,
        map,
        now,
        c.start(swept, pending, s.offers),
        c.order,
        c.order.len(),
        c.refused_at,
    );
    law_the_least_urgent_robot_gives_way(config, now, before, after);
    let (robots, rings) = choose|robots: Seq<RobotView>, rings: Seq<Vec<RobotId>>|
        {
            &&& lists_robots(robots, before.store.robots, before.store.robots.dom())
            &&& #[trigger] reports_deadlocks(waits(robots), rings)
            &&& forall|r: int|
                0 <= r < rings.len() ==> gave_way(
                    config,
                    now,
                    before,
                    after,
                    (#[trigger] rings[r])@,
                    victim(
                        rings[r]@,
                        current_priorities(before.store, now, config.priority_aging_ms),
                    ),
                )
        };
    (round, robots, rings)
}

/// A task that is handed in is known and waits from then on, as it was handed in; nobody else
/// is concerned, and the scheduler goes on.
pub proof fn law_a_submitted_task_waits(
    v: StoreView,
    pending: Map<u64, TaskView>,
    task: Task,
    other: u64,
)
    ensures
        ({
            let event = SchedulerEvent::TaskSubmitted(task);
            let (w, p) = (store_after_event(v, event), pending_after_event(pending, event));
            &&& w.tasks.contains_key(task.id.0)
            &&& w.tasks[task.id.0] == task@
            &&& p.contains_key(task.id.0)
            &&& p[task.id.0] == task@
            &&& other != task.id.0 ==> (p.contains_key(other) <==> pending.contains_key(other))
            &&& other != task.id.0 && pending.contains_key(other) ==> p[other] == pending[other]
            &&& other != task.id.0 && v.tasks.contains_key(other) ==> w.tasks.contains_key(other)
                && w.tasks[other] == v.tasks[other]
            &&& w.robots == v.robots
            &&& answer_to(v, event) == Ok::<bool, StoreError>(true)
        }),
{
}

/// A known task that is reported as finished is completed, and its robot is idle and free. An
/// unknown one is named in the answer, and changes nothing. What waits goes on waiting.
pub proof fn law_a_finished_task_is_completed(
    v: StoreView,
    pending: Map<u64, TaskView>,
    robot: RobotId,
    task: TaskId,
)
    ensures
        ({
            let event = SchedulerEvent::TaskCompleted { robot, task };
            let w = store_after_event(v, event);
            &&& pending_after_event(pending, event) == pending
            &&& v.tasks.contains_key(task.0) ==> {
                &&& answer_to(v, event) == Ok::<bool, StoreError>(true)
                &&& w.tasks.contains_key(task.0)
                &&& w.tasks[task.0].status == TaskStatus::Completed
                &&& v.robots.contains_key(robot.0) ==> {
                    &&& w.robots.contains_key(robot.0)
                    &&& w.robots[robot.0].status == RobotStatus::Idle
                    &&& w.robots[robot.0].current_task is None
                    &&& w.robots[robot.0].target is None
                }
                &&& v.completed_count < u64::MAX ==> w.completed_count == v.completed_count + 1
            }
            &&& !v.tasks.contains_key(task.0) ==> {
                &&& answer_to(v, event) == Err::<bool, StoreError>(StoreError::TaskNotFound(task))
                &&& w == v
            }
        }),
{
}

/// The scheduler stops when it is told to, and only then; that changes nothing.
pub proof fn law_only_a_shutdown_stops_the_scheduler(
    v: StoreView,
    pending: Map<u64, TaskView>,
    event: SchedulerEvent,
)
    ensures
        answer_to(v, event) == Ok::<bool, StoreError>(false) <==> event is Shutdown,
        event is Shutdown ==> store_after_event(v, event) == v && pending_after_event(
            pending,
            event,
        ) == pending,
{
}

/// The same of a single round: after a round in which the channel refused nothing, a task that
/// still waits had a reason to wait with the robots that were left at its turn. These are all
/// that were ready, but for those with an order for a task that is served earlier.
pub proof fn law_in_a_round_no_task_waits_without_a_reason<P: Pathfinder>(
    pf: &P,
    map: RoadMapView,
    config: SystemConfig,
    cooldown: Map<u64, u64>,
    now: u64,
    v: StoreView,
    pending: Map<u64, TaskView>,
    offers: Seq<Offer>,
    end: Round,
    k: u64,
) -> (left: Set<u64>)
    requires
        v.wf(),
        all_known(v, pending),
        is_matched(pf, map, config, cooldown, now, v, pending, offers, end),
        nothing_refused(offers, end.offers),
        end.pending.contains_key(k),
        pending[k].goal() matches Some(goal) && map.nodes.contains_key(goal.0),
    ensures
        ({
            let ready = ready_robots(v, config, cooldown, now);
            let robots = v.evicted(now, config.heartbeat_timeout_ms).robots;
            &&& left.subset_of(ready)
            &&& forall|r: u64| #[trigger]
                ready.contains(r) && (forall|i: int|
                    0 <= i < end.sent.len() && (#[trigger] end.sent[i]).robot.0 == r
                        ==> served_after(
                        pending[end.sent[i].task.0],
                        pending[k],
                        now,
                        config.priority_aging_ms,
                    )) ==> left.contains(r)
            &&& has_reason_to_wait(pf, map, robots, left, pending[k])
        }),
{
    let c = lemma_fair_round(pf, map, config, cooldown, now, v, pending, offers, end);
    law_no_waiting_task_is_lost(pf, map, config, cooldown, now, v, pending, offers, end);
    law_orders_are_recorded(pf, map, config, cooldown, now, v, pending, offers, end);
    let swept = v.evicted(now, config.heartbeat_timeout_ms);
    let ready = ready_robots(v, config, cooldown, now);
    let start = c.start(swept, pending, offers);
    assert(pending.contains_key(k));
    assert(c.order.to_set().contains(k));
    let i = c.order.index_of(k);
    let before = played(pf, map, now, start, c.order, i as nat, c.refused_at);
    lemma_state_at_turn(
        pf,
        map,
        now,
        swept,
        ready,
        pending,
        offers.len(),
        start,
        c.order,
        c.refused_at,
        i,
        end,
    );
    lemma_left_at_turn(
        pf,
        map,
        now,
        config.priority_aging_ms,
        swept,
        ready,
        pending,
        offers.len(),
        start,
        c.order,
        c.refused_at,
        i,
        end.sent,
    );
    lemma_reason_to_wait(pf, map, swept, ready, pending, offers.len(), before, k);
    left_over(ready, before)
}

/// A task is sent however many others wait: if the channel refuses nothing, each ready robot on
/// the network can carry it out, and one of them gets no order or only one for a task that is
/// served later, then an order for it is sent.
pub proof fn law_a_task_is_sent_however_many_others_wait<P: Pathfinder>(
    pf: &P,
    map: RoadMapView,
    config: SystemConfig,
    now: u64,
    v: StoreView,
    s: SchedulerView,
    v2: StoreView,
    s2: SchedulerView,
    sent: Seq<DispatchView>,
    k: u64,
    robot: u64,
)
    requires
        v.wf(),
        all_accounted_for(map, v, s.pending),
        is_ticked(pf, map, config, now, v, s, v2, s2, sent),
        nothing_refused(s.offers, s2.offers),
        served_in_tick(v, s, config, now).contains_key(k),
        served_in_tick(v, s, config, now)[k].goal() matches Some(goal) && map.nodes.contains_key(
            goal.0,
        ),
        forall|r: u64| #[trigger]
            ready_in_tick(v, config, s.cooldown, now).contains(r) && on_network(
                map,
                swept_store(v, config, now).robots[r],
            ) ==> can_be_planned(
                pf,
                map,
                swept_store(v, config, now).robots[r].location.node->0,
                served_in_tick(v, s, config, now)[k].kind,
            ),
        ready_in_tick(v, config, s.cooldown, now).contains(robot),
        on_network(map, swept_store(v, config, now).robots[robot]),
        forall|i: int|
            0 <= i < sent.len() && (#[trigger] sent[i]).robot.0 == robot ==> served_after(
                served_in_tick(v, s, config, now)[sent[i].task.0],
                served_in_tick(v, s, config, now)[k],
                now,
                config.priority_aging_ms,
            ),
    ensures
        exists|i: int| 0 <= i < sent.len() && (#[trigger] sent[i]).task.0 == k,
{
    if forall|i: int| 0 <= i < sent.len() ==> (#[trigger] sent[i]).task.0 != k {
        let left = law_no_task_waits_without_a_reason(
            pf,
            map,
            config,
            now,
            v,
            s,
            v2,
            s2,
            sent,
            k,
        );
        assert(left.contains(robot));
        let ready = ready_in_tick(v, config, s.cooldown, now);
        assert forall|r: u64| #[trigger] left.contains(r) implies ready.contains(r) by {}
    }
}

/// A task that the store does not know cannot be given out: its turn costs the robot that was to
/// be sent its place in the round, and changes nothing else. The round goes on.
pub proof fn law_an_unknown_task_does_not_end_the_round<P: Pathfinder>(
    pf: &P,
    map: RoadMapView,
    now: u64,
    s: Round,
    task: u64,
    refused: bool,
)
    requires
        !s.over,
        s.pending.contains_key(task),
        s.pending[task].id.0 == task,
        !s.store.tasks.contains_key(task),
        proposal(pf, map, s.free, s.pending[task]) is Send,
    ensures
        ({
            let t = turn(pf, map, now, s, task, refused);
            let gone = proposal(pf, map, s.free, s.pending[task])->order.robot;
            &&& t.store == s.store
            &&& t.pending == s.pending
            &&& t.sent == s.sent
            &&& t.offers == s.offers
            &&& !t.over
            &&& t.free.len() + 1 == s.free.len()
            &&& forall|i: int|
                0 <= i < s.free.len() && (#[trigger] s.free[i]).id != gone ==> t.free.contains(
                    s.free[i],
                )
        }),
{
    lemma_proposal_is_nearest(pf, map, s.free, s.pending[task]);
    match proposal(pf, map, s.free, s.pending[task]) {
        ProposalView::Send { index, order, end } => {
            let t = turn(pf, map, now, s, task, refused);
            assert(t.free == without(s.free, index));
            assert forall|i: int|
                0 <= i < s.free.len() && (#[trigger] s.free[i]).id
                    != order.robot implies t.free.contains(s.free[i]) by {
                let j = if i == s.free.len() - 1 {
                    index
                } else {
                    i
                };
                assert(i != index);
                assert(t.free[j] == s.free[i]);
            }
        },
        _ => {},
    }
}

/// Giving way concerns the tasks of the victims alone: a task that none of them was bound to
/// stays as it is, and waits afterwards if and only if it waited before.
pub proof fn law_only_the_tasks_of_victims_are_taken_back(
    tasks: Map<u64, TaskId>,
    prio: Map<u64, TaskPriority>,
    now: u64,
    cooldown_ms: u64,
    s: Standoff,
    rings: Seq<Vec<RobotId>>,
    n: nat,
    k: u64,
)
    requires
        n <= rings.len(),
        forall|r: int|
            0 <= r < n && tasks.contains_key(victim((#[trigger] rings[r])@, prio).0)
                ==> tasks[victim(rings[r]@, prio).0].0 != k,
    ensures
        ({
            let e = ways_given(tasks, prio, now, cooldown_ms, s, rings, n);
            &&& e.store.tasks.contains_key(k) <==> s.store.tasks.contains_key(k)
            &&& s.store.tasks.contains_key(k) ==> e.store.tasks[k] == s.store.tasks[k]
            &&& e.pending.contains_key(k) <==> s.pending.contains_key(k)
            &&& s.pending.contains_key(k) ==> e.pending[k] == s.pending[k]
        }),
    decreases n,
{
    if n > 0 {
        law_only_the_tasks_of_victims_are_taken_back(
            tasks,
            prio,
            now,
            cooldown_ms,
            s,
            rings,
            (n - 1) as nat,
            k,
        );
        let who = victim(rings[n - 1]@, prio);
        assert(tasks.contains_key(who.0) ==> tasks[who.0].0 != k);
    }
}

} // verus!
