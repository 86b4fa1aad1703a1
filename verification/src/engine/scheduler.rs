//! The scheduler: takes events in, and at every tick takes back tasks that hang, matches
//! waiting tasks with free robots, and resolves deadlocks.

use super::conflict::{analyze, reports_deadlocks, waits};
use super::matching::{
    is_serving_order, nearest, nearest_robot, numbered, pick_victim, plan_task_route, planned,
    serving_order, victim, waiting,
};
use super::outbox::{lemma_taken_push, offer, taken, Offer, Outbox};
use super::pathfinding::Pathfinder;
use super::{Dispatch, DispatchView, SchedulerEvent};
use crate::config::SystemConfig;
use crate::domain::map::RoadMapView;
use crate::domain::robot::robot_views;
use crate::domain::{
    Location, RoadMap, RobotId, RobotState, RobotView, Task, TaskId, TaskPriority, TaskView,
};
use crate::storage::memory_store::{lists_robots, robot_numbers, task_id_numbers, StoreView};
use crate::storage::tables::{enumerates, lemma_picked, picked};
use crate::storage::{MemoryStore, StoreError};
use crate::table::wide_keys;
use std::collections::HashMap;
use vstd::prelude::*;

verus! {

broadcast use vstd::std_specs::hash::group_hash_axioms;

// ---------------------------------------------------------------- one task
/// What to do about a waiting task.
#[derive(Debug)]
pub enum Proposal {
    /// Nothing now: no robot is on the network, or there is no route.
    Wait,
    /// Forget the task: it leads nowhere.
    Discard,
    /// Send the robot at place `index` of the free ones, which ends up at `end`.
    Send { index: usize, order: Dispatch, end: Location },
}

/// The mathematical content of a proposal.
#[verifier::ext_equal]
pub enum ProposalView {
    Wait,
    Discard,
    Send { index: int, order: DispatchView, end: Location },
}

impl View for Proposal {
    type V = ProposalView;

    open spec fn view(&self) -> ProposalView {
        match *self {
            Proposal::Wait => ProposalView::Wait,
            Proposal::Discard => ProposalView::Discard,
            Proposal::Send { index, order, end } => ProposalView::Send {
                index: index as int,
                order: order@,
                end,
            },
        }
    }
}

/// What to do about a task: send the robot nearest to its first node, if a route can be
/// planned.
pub open spec fn proposal<P: Pathfinder>(
    pf: &P,
    map: RoadMapView,
    free: Seq<RobotView>,
    task: TaskView,
) -> ProposalView {
    match task.goal() {
        None => ProposalView::Discard,
        Some(goal) => if !map.nodes.contains_key(goal.0) {
            ProposalView::Discard
        } else {
            match nearest(map, free, map.nodes[goal.0]) {
                None => ProposalView::Wait,
                Some(index) => match planned(
                    pf,
                    map,
                    free[index].location.node->0,
                    task,
                ) {
                    None => ProposalView::Wait,
                    Some((path, end, pickup)) => ProposalView::Send {
                        index,
                        order: DispatchView { robot: free[index].id, task: task.id, path, pickup },
                        end,
                    },
                },
            }
        },
    }
}

/// Decides what to do about a task.
pub fn propose<P: Pathfinder>(pf: &P, map: &RoadMap, free: &Vec<RobotState>, task: &Task) -> (r:
    Proposal)
    requires
        map@.wf(),
    ensures
        r@ == proposal(pf, map@, robot_views(free@), task@),
        r matches Proposal::Send { index, .. } ==> index < free@.len(),
{
    let first_node = match task.goal_node() {
        Some(n) => n,
        None => {
            return Proposal::Discard;
        },
    };
    let first_loc = match map.node_location(first_node) {
        Some(loc) => *loc,
        None => {
            return Proposal::Discard;
        },
    };
    let index = match nearest_robot(map, free.as_slice(), &first_loc) {
        Some(i) => i,
        None => {
            return Proposal::Wait;
        },
    };
    assert(robot_views(free@)[index as int] == free@[index as int]@);
    let robot_node = match free[index].location.node {
        Some(n) => n,
        None => {
            return Proposal::Wait;
        },
    };
    match plan_task_route(pf, map, robot_node, task) {
        Some((path, end, pickup)) => Proposal::Send {
            index,
            order: Dispatch { robot: free[index].id, task: task.id, path, pickup },
            end,
        },
        None => Proposal::Wait,
    }
}

/// A list of robots after the one at place `i` left and the last one took its place.
pub open spec fn without(free: Seq<RobotView>, i: int) -> Seq<RobotView> {
    free.update(i, free.last()).drop_last()
}

/// Settles an order that was offered to a robot after the assignment was recorded. If it was
/// accepted, the robot is no longer free and the task no longer waits; if it was refused, the
/// assignment is rolled back.
pub fn settle(
    store: &mut MemoryStore,
    free: &mut Vec<RobotState>,
    pending: &mut HashMap<u64, Task>,
    index: usize,
    robot: RobotId,
    task: TaskId,
    accepted: bool,
)
    requires
        old(store)@.wf(),
        index < old(free)@.len(),
    ensures
        final(store)@.wf(),
        accepted ==> {
            &&& final(store)@ == old(store)@
            &&& robot_views(final(free)@) == without(robot_views(old(free)@), index as int)
            &&& waiting(final(pending)@) == waiting(old(pending)@).remove(task.0)
        },
        !accepted ==> {
            &&& final(store)@ == old(store)@.unassigned(robot, task)
            &&& final(free)@ == old(free)@
            &&& final(pending)@ == old(pending)@
        },
{
    if accepted {
        free.swap_remove(index);
        pending.remove(&task.0);
        proof {
            assert(robot_views(free@) =~= without(robot_views(old(free)@), index as int));
            assert(waiting(pending@) =~= waiting(old(pending)@).remove(task.0));
        }
    } else {
        store.unassign(robot, task);
    }
}

// ---------------------------------------------------------------- a round
/// What a round of matching works on.
#[verifier::ext_equal]
pub struct Round {
    pub store: StoreView,
    /// The robots that can still be sent.
    pub free: Seq<RobotView>,
    /// The tasks that still wait.
    pub pending: Map<u64, TaskView>,
    /// The orders that were accepted in this round.
    pub sent: Seq<DispatchView>,
    /// All that was ever offered to the channel, with its answers.
    pub offers: Seq<Offer>,
    /// Whether the round has ended early.
    pub over: bool,
}

/// The contents of a list of orders.
pub open spec fn orders(sent: Seq<Dispatch>) -> Seq<DispatchView> {
    sent.map_values(|d: Dispatch| d@)
}

/// A round after one more task had its turn. `refused` says whether an order, if one was
/// offered, was refused: then the round is over.
pub open spec fn turn<P: Pathfinder>(
    pf: &P,
    map: RoadMapView,
    now: u64,
    s: Round,
    task: u64,
    refused: bool,
) -> Round {
    if s.over || !s.pending.contains_key(task) {
        s
    } else {
        match proposal(pf, map, s.free, s.pending[task]) {
            ProposalView::Wait => s,
            ProposalView::Discard => Round { pending: s.pending.remove(task), ..s },
            ProposalView::Send { index, order, end } => {
                let store = s.store.assigned(order.robot, order.task, end.node, order.path, now);
                if s.store.assign_error(order.robot, order.task) is Some {
                    Round { free: without(s.free, index), ..s }
                } else if refused {
                    Round {
                        store: store.unassigned(order.robot, order.task),
                        offers: s.offers.push(Offer { order, accepted: false }),
                        over: true,
                        ..s
                    }
                } else {
                    Round {
                        store,
                        free: without(s.free, index),
                        pending: s.pending.remove(task),
                        sent: s.sent.push(order),
                        offers: s.offers.push(Offer { order, accepted: true }),
                        over: s.free.len() == 1,
                    }
                }
            },
        }
    }
}

/// A round after the first `n` tasks of `order` had their turn, where the order offered in
/// turn `refused_at` was refused.
pub open spec fn played<P: Pathfinder>(
    pf: &P,
    map: RoadMapView,
    now: u64,
    s: Round,
    order: Seq<u64>,
    n: nat,
    refused_at: int,
) -> Round
    decreases n,
{
    if n == 0 {
        s
    } else {
        let i = (n - 1) as nat;
        turn(pf, map, now, played(pf, map, now, s, order, i, refused_at), order[i as int], refused_at
            == i)
    }
}

/// The robots that take part in a round: idle, heard of in time, charged, and not cooling
/// down.
pub open spec fn candidates(
    v: StoreView,
    cooldown: Map<u64, u64>,
    now: u64,
    timeout_ms: u64,
) -> Set<u64> {
    v.available(now, timeout_ms).filter(
        |k: u64|
            !v.robots[k].battery.low() && (cooldown.contains_key(k) ==> now >= cooldown[k]),
    )
}

/// The beginning of a round, before which the channel was offered `offers`. Without a robot it
/// is over at once.
pub open spec fn round_start(
    v: StoreView,
    free: Seq<RobotView>,
    pending: Map<u64, TaskView>,
    offers: Seq<Offer>,
) -> Round {
    Round { store: v, free, pending, sent: Seq::empty(), offers, over: free.len() == 0 }
}

/// Whether a round of matching can lead from the store `v`, the tasks `pending` and the record
/// `offers` of what the channel was offered to `end`. The free robots are listed in no
/// particular order, and the channel may refuse one order, as the record of `end` then says.
pub open spec fn is_matched<P: Pathfinder>(
    pf: &P,
    map: RoadMapView,
    config: SystemConfig,
    cooldown: Map<u64, u64>,
    now: u64,
    v: StoreView,
    pending: Map<u64, TaskView>,
    offers: Seq<Offer>,
    end: Round,
) -> bool {
    let swept = v.evicted(now, config.heartbeat_timeout_ms);
    exists|free: Seq<RobotView>, order: Seq<u64>, refused_at: int|
        {
            &&& lists_robots(
                free,
                swept.robots,
                candidates(swept, cooldown, now, config.heartbeat_timeout_ms),
            )
            &&& is_serving_order(order, pending, now, config.priority_aging_ms)
            &&& end == #[trigger] played(
                pf,
                map,
                now,
                round_start(swept, free, pending, offers),
                order,
                order.len(),
                refused_at,
            )
        }
}

/// Gives one task its turn, and says whether the round is over.
fn serve_task<P: Pathfinder>(
    store: &mut MemoryStore,
    map: &RoadMap,
    pf: &P,
    outbox: &mut Outbox,
    free: &mut Vec<RobotState>,
    pending: &mut HashMap<u64, Task>,
    sent: &mut Vec<Dispatch>,
    id: u64,
    now: u64,
) -> (r: (bool, Ghost<bool>))
    requires
        map@.wf(),
        old(store)@.wf(),
        numbered(waiting(old(pending)@)),
    ensures
        final(store)@.wf(),
        numbered(waiting(final(pending)@)),
        r.1@ ==> r.0,
        (Round {
            store: final(store)@,
            free: robot_views(final(free)@),
            pending: waiting(final(pending)@),
            sent: orders(final(sent)@),
            offers: final(outbox).offers(),
            over: r.0,
        }) == turn(
            pf,
            map@,
            now,
            Round {
                store: old(store)@,
                free: robot_views(old(free)@),
                pending: waiting(old(pending)@),
                sent: orders(old(sent)@),
                offers: old(outbox).offers(),
                over: false,
            },
            id,
            r.1@,
        ),
{
    let ghost free0 = robot_views(free@);
    let ghost pending0 = waiting(pending@);
    let ghost sent0 = orders(sent@);
    let p = match pending.get(&id) {
        Some(task) => {
            assert(pending0[id] == task@);
            propose(pf, map, free, task)
        },
        None => {
            return (false, Ghost(false));
        },
    };
    let ghost content = p@;
    assert(pending0.contains_key(id));
    assert(content == proposal(pf, map@, free0, pending0[id]));
    match p {
        Proposal::Wait => (false, Ghost(false)),
        Proposal::Discard => {
            pending.remove(&id);
            assert(waiting(pending@) =~= pending0.remove(id));
            (false, Ghost(false))
        },
        Proposal::Send { index, order, end } => {
            let robot = order.robot;
            let task = order.task;
            proof {
                assert(content == ProposalView::Send { index: index as int, order: order@, end });
                assert(task == TaskId(id));
            }
            match store.assign(robot, task, end, order.path.to_vec(), now) {
                Ok(_) => {
                    let copy = order.clone();
                    let accepted = offer(outbox, copy);
                    settle(store, free, pending, index, robot, task, accepted);
                    if accepted {
                        sent.push(order);
                        assert(orders(sent@) =~= sent0.push(order@));
                        (free.len() == 0, Ghost(false))
                    } else {
                        (true, Ghost(true))
                    }
                },
                Err(_) => {
                    free.swap_remove(index);
                    assert(robot_views(free@) =~= without(free0, index as int));
                    (false, Ghost(false))
                },
            }
        },
    }
}

/// Before the refusal a round goes as if there were none.
proof fn lemma_played_before_refusal<P: Pathfinder>(
    pf: &P,
    map: RoadMapView,
    now: u64,
    s: Round,
    order: Seq<u64>,
    n: nat,
    refused_at: int,
)
    requires
        refused_at >= n,
    ensures
        played(pf, map, now, s, order, n, refused_at) == played(pf, map, now, s, order, n, -1),
    decreases n,
{
    if n > 0 {
        lemma_played_before_refusal(pf, map, now, s, order, (n - 1) as nat, refused_at);
    }
}

/// Whether the record of offers has grown since `before`, by the orders that were sent and by
/// refused ones.
pub open spec fn records_orders(before: Seq<Offer>, s: Round) -> bool {
    &&& before.is_prefix_of(s.offers)
    &&& taken(s.offers) == taken(before) + s.sent
}

/// The record of offers of a round holds what was sent.
pub proof fn lemma_played_offers<P: Pathfinder>(
    pf: &P,
    map: RoadMapView,
    now: u64,
    s: Round,
    order: Seq<u64>,
    n: nat,
    refused_at: int,
)
    requires
        s.sent.len() == 0,
    ensures
        records_orders(s.offers, played(pf, map, now, s, order, n, refused_at)),
    decreases n,
{
    if n == 0 {
        assert(taken(s.offers) + s.sent =~= taken(s.offers));
    } else {
        let i = (n - 1) as nat;
        lemma_played_offers(pf, map, now, s, order, i, refused_at);
        let a = played(pf, map, now, s, order, i, refused_at);
        let b = played(pf, map, now, s, order, n, refused_at);
        if b.offers != a.offers {
            lemma_taken_push(a.offers, b.offers.last());
            assert(b.offers =~= a.offers.push(b.offers.last()));
            assert(taken(b.offers) =~= taken(s.offers) + b.sent);
            assert(s.offers.is_prefix_of(b.offers));
        }
    }
}

/// When a round is over, nothing changes any more.
proof fn lemma_played_over<P: Pathfinder>(
    pf: &P,
    map: RoadMapView,
    now: u64,
    s: Round,
    order: Seq<u64>,
    n: nat,
    m: nat,
    refused_at: int,
)
    requires
        n <= m,
        played(pf, map, now, s, order, n, refused_at).over,
    ensures
        played(pf, map, now, s, order, m, refused_at) == played(
            pf,
            map,
            now,
            s,
            order,
            n,
            refused_at,
        ),
    decreases m,
{
    if n < m {
        lemma_played_over(pf, map, now, s, order, n, (m - 1) as nat, refused_at);
    }
}

/// The robots of a list that are charged and not cooling down.
fn retain_ready(
    list: &Vec<RobotState>,
    cooldown: &HashMap<u64, u64>,
    now: u64,
    Ghost(robots): Ghost<Map<u64, RobotView>>,
    Ghost(all): Ghost<Set<u64>>,
    Ghost(which): Ghost<Set<u64>>,
) -> (r: Vec<RobotState>)
    requires
        lists_robots(robot_views(list@), robots, all),
        which == all.filter(
            |k: u64|
                !robots[k].battery.low() && (cooldown@.contains_key(k) ==> now >= cooldown@[k]),
        ),
    ensures
        lists_robots(robot_views(r@), robots, which),
{
    let ghost views = robot_views(list@);
    let ghost keys = robot_numbers(views);
    let mut out: Vec<RobotState> = Vec::new();
    let mut i: usize = 0;
    assert(robot_numbers(robot_views(out@)) =~= Seq::<u64>::empty());
    while i < list.len()
        invariant
            i <= list@.len(),
            views == robot_views(list@),
            keys == robot_numbers(views),
            lists_robots(views, robots, all),
            which == all.filter(
                |k: u64|
                    !robots[k].battery.low() && (cooldown@.contains_key(k) ==> now >= cooldown@[k]),
            ),
            forall|j: int|
                0 <= j < out@.len() ==> (#[trigger] out@[j])@ == robots[out@[j].id.0],
            robot_numbers(robot_views(out@)) == picked(keys, which, i as nat),
        decreases list@.len() - i,
    {
        let ghost before = out@;
        let r = &list[i];
        proof {
            assert(views[i as int] == r@);
            assert(keys[i as int] == r.id.0);
            assert(keys.to_set().contains(keys[i as int]));
        }
        let cooling = match cooldown.get(&r.id.0) {
            Some(until) => now < *until,
            None => false,
        };
        if !r.battery.is_low() && !cooling {
            let copy = r.clone();
            out.push(copy);
            assert(copy.id == r.id);
            assert(robot_numbers(robot_views(out@)) =~= robot_numbers(robot_views(before)).push(
                keys[i as int],
            ));
        }
        i = i + 1;
    }
    proof {
        lemma_picked(keys, all, which);
        assert forall|j: int| 0 <= j < out@.len() implies #[trigger] robot_views(out@)[j]
            == robots[robot_views(out@)[j].id.0] by {
            assert(out@[j]@ == robots[out@[j].id.0]);
        }
    }
    out
}

/// One round of matching: silent robots go offline, and the waiting tasks are given, in the
/// order of service, each to the nearest free robot, by offering the order to `outbox`. Returns
/// the orders that were accepted.
pub fn run_matching<P: Pathfinder>(
    store: &mut MemoryStore,
    map: &RoadMap,
    pathfinder: &P,
    outbox: &mut Outbox,
    config: &SystemConfig,
    pending: &mut HashMap<u64, Task>,
    cooldown: &HashMap<u64, u64>,
    now: u64,
) -> (sent: Vec<Dispatch>)
    requires
        map@.wf(),
        old(store)@.wf(),
        numbered(waiting(old(pending)@)),
    ensures
        final(store)@.wf(),
        numbered(waiting(final(pending)@)),
        exists|end: Round| #[trigger]
            is_matched(
                pathfinder,
                map@,
                *config,
                cooldown@,
                now,
                old(store)@,
                waiting(old(pending)@),
                old(outbox).offers(),
                end,
            ) && end.store == final(store)@ && end.pending == waiting(final(pending)@) && end.sent
                == orders(sent@) && end.offers == final(outbox).offers(),
        old(outbox).offers().is_prefix_of(final(outbox).offers()),
        taken(final(outbox).offers()) == taken(old(outbox).offers()) + orders(sent@),
{
    let ghost v0 = store@;
    let ghost pending0 = waiting(pending@);
    store.evict_stale_robots(now, config.heartbeat_timeout_ms);
    let ghost swept = v0.evicted(now, config.heartbeat_timeout_ms);
    let idle = store.available_robots(now, config.heartbeat_timeout_ms);
    let ghost which = candidates(swept, cooldown@, now, config.heartbeat_timeout_ms);
    let mut free = retain_ready(
        &idle,
        cooldown,
        now,
        Ghost(swept.robots),
        Ghost(swept.available(now, config.heartbeat_timeout_ms)),
        Ghost(which),
    );
    let ghost free0 = robot_views(free@);
    let order = serving_order(pending, now, config.priority_aging_ms);
    let ghost offers0 = outbox.offers();
    let ghost start = round_start(swept, free0, pending0, offers0);
    let mut sent: Vec<Dispatch> = Vec::new();
    let mut over = free.len() == 0;
    let ghost mut refused_at: int = -1;
    let mut n: usize = 0;
    assert(orders(sent@) =~= Seq::empty());
    while n < order.len() && !over
        invariant
            n <= order@.len(),
            map@.wf(),
            store@.wf(),
            numbered(waiting(pending@)),
            (Round {
                store: store@,
                free: robot_views(free@),
                pending: waiting(pending@),
                sent: orders(sent@),
                offers: outbox.offers(),
                over,
            }) == played(pathfinder, map@, now, start, order@, n as nat, refused_at),
            refused_at == -1 || over,
        decreases order@.len() - n,
    {
        let (stop, refused) = serve_task(
            store,
            map,
            pathfinder,
            outbox,
            &mut free,
            pending,
            &mut sent,
            order[n],
            now,
        );
        proof {
            if refused@ {
                refused_at = n as int;
                lemma_played_before_refusal(
                    pathfinder,
                    map@,
                    now,
                    start,
                    order@,
                    n as nat,
                    refused_at,
                );
            }
        }
        over = stop;
        n = n + 1;
    }
    proof {
        let end = played(pathfinder, map@, now, start, order@, n as nat, refused_at);
        if over {
            lemma_played_over(
                pathfinder,
                map@,
                now,
                start,
                order@,
                n as nat,
                order@.len(),
                refused_at,
            );
        }
        assert(end == played(
            pathfinder,
            map@,
            now,
            round_start(swept, free0, pending0, offers0),
            order@,
            order@.len(),
            refused_at,
        ));
        assert(is_matched(pathfinder, map@, *config, cooldown@, now, v0, pending0, offers0, end));
        lemma_played_offers(pathfinder, map@, now, start, order@, order@.len(), refused_at);
    }
    sent
}

// ---------------------------------------------------------------- deadlocks
/// What the resolution of deadlocks works on.
#[verifier::ext_equal]
pub struct Standoff {
    pub store: StoreView,
    /// Until when robots get no task.
    pub cooldown: Map<u64, u64>,
    /// The tasks that wait.
    pub pending: Map<u64, TaskView>,
}

/// The tasks that robots are bound to.
pub open spec fn current_tasks(v: StoreView) -> Map<u64, TaskId> {
    Map::new(
        |k: u64| v.robots.contains_key(k) && v.robots[k].current_task is Some,
        |k: u64| v.robots[k].current_task->0,
    )
}

/// The priorities of the tasks that robots are bound to; the lowest for an unknown task.
pub open spec fn current_priorities(v: StoreView, now: u64, aging_ms: u64) -> Map<
    u64,
    TaskPriority,
> {
    Map::new(
        |k: u64| v.robots.contains_key(k) && v.robots[k].current_task is Some,
        |k: u64| priority_of_task(v, v.robots[k].current_task->0, now, aging_ms),
    )
}

/// The priority of a task at the time `now`; the lowest for an unknown task.
pub open spec fn priority_of_task(v: StoreView, t: TaskId, now: u64, aging_ms: u64) -> TaskPriority {
    if v.tasks.contains_key(t.0) {
        v.tasks[t.0].priority_at(now, aging_ms)
    } else {
        TaskPriority::Low
    }
}

/// The end of a cooldown that begins now.
pub open spec fn cooldown_end(now: u64, cooldown_ms: u64) -> u64 {
    now.saturating_add(cooldown_ms)
}

/// A standoff after robot `who` of a ring gave way: it is paroled, cools down, and its task
/// waits again. `tasks` are the tasks that the robots were bound to at first.
pub open spec fn gives_way(
    tasks: Map<u64, TaskId>,
    now: u64,
    cooldown_ms: u64,
    s: Standoff,
    who: RobotId,
) -> Standoff {
    if !tasks.contains_key(who.0) {
        s
    } else {
        let t = tasks[who.0];
        let store = s.store.paroled(who, t);
        Standoff {
            store,
            cooldown: s.cooldown.insert(who.0, cooldown_end(now, cooldown_ms)),
            pending: if store.tasks.contains_key(t.0) {
                s.pending.insert(t.0, store.tasks[t.0])
            } else {
                s.pending
            },
        }
    }
}

/// A standoff after one robot of each of the first `n` rings gave way.
pub open spec fn ways_given(
    tasks: Map<u64, TaskId>,
    prio: Map<u64, TaskPriority>,
    now: u64,
    cooldown_ms: u64,
    s: Standoff,
    rings: Seq<Vec<RobotId>>,
    n: nat,
) -> Standoff
    decreases n,
{
    if n == 0 {
        s
    } else {
        let before = ways_given(tasks, prio, now, cooldown_ms, s, rings, (n - 1) as nat);
        gives_way(tasks, now, cooldown_ms, before, victim(rings[n - 1]@, prio))
    }
}

/// Whether the resolution of the deadlocks in `s` can lead to `end`. The robots are looked at
/// in no particular order.
pub open spec fn is_resolved(config: SystemConfig, now: u64, s: Standoff, end: Standoff) -> bool {
    exists|robots: Seq<RobotView>, rings: Seq<Vec<RobotId>>|
        {
            &&& lists_robots(robots, s.store.robots, s.store.robots.dom())
            &&& #[trigger] reports_deadlocks(waits(robots), rings)
            &&& end == ways_given(
                current_tasks(s.store),
                current_priorities(s.store, now, config.priority_aging_ms),
                now,
                config.deadlock_cooldown_ms,
                s,
                rings,
                rings.len(),
            )
        }
}

/// The tasks that robots are bound to, and the priorities of those tasks.
fn bound_tasks(store: &MemoryStore, robots: &Vec<RobotState>, now: u64, aging_ms: u64) -> (r: (
    HashMap<u64, TaskId>,
    HashMap<u64, TaskPriority>,
))
    requires
        lists_robots(robot_views(robots@), store@.robots, store@.robots.dom()),
    ensures
        r.0@ == current_tasks(store@),
        r.1@ == current_priorities(store@, now, aging_ms),
{
    let ghost views = robot_views(robots@);
    let ghost numbers = robot_numbers(views);
    let ghost v = store@;
    let mut tasks: HashMap<u64, TaskId> = HashMap::new();
    let mut prio: HashMap<u64, TaskPriority> = HashMap::new();
    let mut i: usize = 0;
    while i < robots.len()
        invariant
            i <= robots@.len(),
            v == store@,
            views == robot_views(robots@),
            numbers == robot_numbers(views),
            lists_robots(views, v.robots, v.robots.dom()),
            tasks@.dom() == prio@.dom(),
            forall|k: u64| #[trigger]
                tasks@.contains_key(k) <==> v.robots[k].current_task is Some && exists|j: int|
                    0 <= j < i && #[trigger] numbers[j] == k,
            forall|k: u64| #[trigger]
                tasks@.contains_key(k) ==> tasks@[k] == v.robots[k].current_task->0 && prio@[k]
                    == priority_of_task(v, v.robots[k].current_task->0, now, aging_ms),
        decreases robots@.len() - i,
    {
        let r = &robots[i];
        let ghost tasks0 = tasks@;
        proof {
            assert(views[i as int] == r@);
            assert(numbers[i as int] == r.id.0);
            assert(v.robots[r.id.0] == r@);
        }
        if let Some(t) = r.current_task {
            let p = match store.get_task(t) {
                Some(task) => task.effective_priority_at(now, aging_ms),
                None => TaskPriority::Low,
            };
            tasks.insert(r.id.0, t);
            prio.insert(r.id.0, p);
            assert(tasks@.dom() =~= prio@.dom());
        }
        proof {
            assert forall|k: u64| #[trigger]
                tasks@.contains_key(k) <==> v.robots[k].current_task is Some && exists|j: int|
                    0 <= j < i + 1 && #[trigger] numbers[j] == k by {
                assert(tasks0.contains_key(k) <==> v.robots[k].current_task is Some
                    && exists|j: int| 0 <= j < i && #[trigger] numbers[j] == k);
                if tasks@.contains_key(k) && k == r.id.0 {
                    assert(numbers[i as int] == k);
                }
            }
        }
        i = i + 1;
    }
    proof {
        assert forall|k: u64| #[trigger] v.robots.contains_key(k) <==> exists|j: int|
            0 <= j < i && #[trigger] numbers[j] == k by {
            assert(numbers.to_set().contains(k) <==> v.robots.dom().contains(k));
            if v.robots.contains_key(k) {
                let j = numbers.index_of(k);
                assert(numbers[j] == k);
            }
        }
        assert(tasks@ =~= current_tasks(v));
        assert(prio@ =~= current_priorities(v, now, aging_ms)) by {
            assert forall|k: u64| prio@.contains_key(k) <==> current_priorities(
                v,
                now,
                aging_ms,
            ).contains_key(k) by {
                assert(tasks@.contains_key(k) <==> prio@.contains_key(k));
            }
            assert forall|k: u64| prio@.contains_key(k) implies prio@[k] == current_priorities(
                v,
                now,
                aging_ms,
            )[k] by {
                assert(tasks@.contains_key(k));
            }
        }
    }
    (tasks, prio)
}

/// Lets one robot of a ring give way.
fn give_way(
    store: &mut MemoryStore,
    cooldown: &mut HashMap<u64, u64>,
    pending: &mut HashMap<u64, Task>,
    tasks: &HashMap<u64, TaskId>,
    who: RobotId,
    now: u64,
    cooldown_ms: u64,
)
    requires
        old(store)@.wf(),
        numbered(waiting(old(pending)@)),
    ensures
        final(store)@.wf(),
        numbered(waiting(final(pending)@)),
        (Standoff {
            store: final(store)@,
            cooldown: final(cooldown)@,
            pending: waiting(final(pending)@),
        }) == gives_way(
            tasks@,
            now,
            cooldown_ms,
            Standoff {
                store: old(store)@,
                cooldown: old(cooldown)@,
                pending: waiting(old(pending)@),
            },
            who,
        ),
{
    if let Some(t) = tasks.get(&who.0) {
        let task = *t;
        store.parole_robot(who, task);
        cooldown.insert(who.0, now.saturating_add(cooldown_ms));
        if let Some(waits_again) = store.get_task(task) {
            let ghost before = waiting(pending@);
            pending.insert(task.0, waits_again);
            assert(waiting(pending@) =~= before.insert(task.0, waits_again@));
        }
    }
}

/// Resolves deadlocks: in each ring of robots that wait for each other one robot is paroled,
/// gets no task for a while, and its task waits again.
pub fn resolve_deadlocks(
    store: &mut MemoryStore,
    config: &SystemConfig,
    cooldown: &mut HashMap<u64, u64>,
    pending: &mut HashMap<u64, Task>,
    now: u64,
)
    requires
        old(store)@.wf(),
        numbered(waiting(old(pending)@)),
    ensures
        final(store)@.wf(),
        numbered(waiting(final(pending)@)),
        is_resolved(
            *config,
            now,
            Standoff {
                store: old(store)@,
                cooldown: old(cooldown)@,
                pending: waiting(old(pending)@),
            },
            Standoff {
                store: final(store)@,
                cooldown: final(cooldown)@,
                pending: waiting(final(pending)@),
            },
        ),
{
    let ghost s0 = Standoff {
        store: store@,
        cooldown: cooldown@,
        pending: waiting(pending@),
    };
    let robots = store.all_robots();
    let ghost views = robot_views(robots@);
    let report = analyze(robots.as_slice());
    let rings = report.deadlock_cycles;
    let (tasks, prio) = bound_tasks(store, &robots, now, config.priority_aging_ms);
    let mut n: usize = 0;
    while n < rings.len()
        invariant
            n <= rings@.len(),
            store@.wf(),
            numbered(waiting(pending@)),
            reports_deadlocks(waits(views), rings@),
            (Standoff {
                store: store@,
                cooldown: cooldown@,
                pending: waiting(pending@),
            }) == ways_given(
                tasks@,
                prio@,
                now,
                config.deadlock_cooldown_ms,
                s0,
                rings@,
                n as nat,
            ),
        decreases rings@.len() - n,
    {
        if let Some(who) = pick_victim(rings[n].as_slice(), &prio) {
            give_way(store, cooldown, pending, &tasks, who, now, config.deadlock_cooldown_ms);
        }
        n = n + 1;
    }
}

/// The scheduler.
pub struct Scheduler<P: Pathfinder> {
    pathfinder: P,
    config: SystemConfig,
    outbox: Outbox,
    pending: HashMap<u64, Task>,
    cooldown: HashMap<u64, u64>,
}

/// The mathematical content of a scheduler.
#[verifier::ext_equal]
pub struct SchedulerView {
    /// The tasks that wait for a robot.
    pub pending: Map<u64, TaskView>,
    /// Until when robots get no task.
    pub cooldown: Map<u64, u64>,
    /// All that was ever offered to the channel, with its answers.
    pub offers: Seq<Offer>,
}

impl<P: Pathfinder> View for Scheduler<P> {
    type V = SchedulerView;

    closed spec fn view(&self) -> SchedulerView {
        SchedulerView {
            pending: waiting(self.pending@),
            cooldown: self.cooldown@,
            offers: self.outbox.offers(),
        }
    }
}

/// What one tick did.
#[derive(Debug)]
pub struct TickReport {
    /// Tasks that were given up.
    pub failed: Vec<TaskId>,
    /// Orders that were accepted.
    pub sent: Vec<Dispatch>,
}

/// The cooldowns that have not ended.
pub open spec fn still_cooling(cooldown: Map<u64, u64>, now: u64) -> Map<u64, u64> {
    cooldown.restrict(Set::new(|k: u64| cooldown.contains_key(k) && now < cooldown[k]))
}

/// The waiting tasks, with those that are taken back from their robots.
pub open spec fn with_requeued(
    pending: Map<u64, TaskView>,
    v: StoreView,
    config: SystemConfig,
    now: u64,
) -> Map<u64, TaskView> {
    let back = v.requeued(now, config.task_timeout_ms, config.max_task_retries);
    let tasks = v.reclaimed(now, config.task_timeout_ms, config.max_task_retries).tasks;
    Map::new(
        |k: u64| pending.contains_key(k) || back.contains(k),
        |k: u64|
            if back.contains(k) {
                tasks[k]
            } else {
                pending[k]
            },
    )
}

/// Whether a tick can lead from the store `v` and the scheduler `s` to the store `v2` and the
/// scheduler `s2`, with the orders `sent`: hanging tasks are taken back, waiting tasks are
/// matched with free robots, and deadlocks are resolved.
pub open spec fn is_ticked<P: Pathfinder>(
    pf: &P,
    map: RoadMapView,
    config: SystemConfig,
    now: u64,
    v: StoreView,
    s: SchedulerView,
    v2: StoreView,
    s2: SchedulerView,
    sent: Seq<DispatchView>,
) -> bool {
    let cooling = still_cooling(s.cooldown, now);
    let reclaimed = v.reclaimed(now, config.task_timeout_ms, config.max_task_retries);
    exists|round: Round|
        {
            let before = Standoff { store: round.store, cooldown: cooling, pending: round.pending };
            let after = Standoff { store: v2, cooldown: s2.cooldown, pending: s2.pending };
            &&& #[trigger] is_matched(
                pf,
                map,
                config,
                cooling,
                now,
                reclaimed,
                with_requeued(s.pending, v, config, now),
                s.offers,
                round,
            )
            &&& round.sent == sent
            &&& round.offers == s2.offers
            &&& config.enable_deadlock_resolution ==> is_resolved(config, now, before, after)
            &&& !config.enable_deadlock_resolution ==> before == after
        }
}

/// The store after an event: a submitted task is added, and a known task that is finished is
/// completed.
pub open spec fn store_after_event(v: StoreView, event: SchedulerEvent) -> StoreView {
    match event {
        SchedulerEvent::TaskSubmitted(task) => v.submitted(task@),
        SchedulerEvent::TaskCompleted { robot, task } => if v.tasks.contains_key(task.0) {
            v.completed(robot, task)
        } else {
            v
        },
        SchedulerEvent::Shutdown => v,
    }
}

/// The waiting tasks after an event: a submitted task waits.
pub open spec fn pending_after_event(pending: Map<u64, TaskView>, event: SchedulerEvent) -> Map<
    u64,
    TaskView,
> {
    match event {
        SchedulerEvent::TaskSubmitted(task) => pending.insert(task.id.0, task@),
        _ => pending,
    }
}

/// Whether the scheduler goes on after an event, or which task was unknown.
pub open spec fn answer_to(v: StoreView, event: SchedulerEvent) -> Result<bool, StoreError> {
    match event {
        SchedulerEvent::TaskCompleted { task, .. } if !v.tasks.contains_key(task.0) => Err(
            StoreError::TaskNotFound(task),
        ),
        SchedulerEvent::Shutdown => Ok(false),
        _ => Ok(true),
    }
}

impl<P: Pathfinder> Scheduler<P> {
    /// The route planner.
    pub closed spec fn planner(&self) -> &P {
        &self.pathfinder
    }

    /// The settings.
    pub closed spec fn settings(&self) -> SystemConfig {
        self.config
    }

    /// What every scheduler satisfies: waiting tasks are found under their own numbers.
    pub open spec fn wf(&self) -> bool {
        numbered(self@.pending)
    }

    /// A scheduler with no waiting task, whose orders go to `dispatch`.
    pub fn new(pathfinder: P, config: SystemConfig, dispatch: flume::Sender<Dispatch>) -> (r: Self)
        ensures
            r@.pending == Map::<u64, TaskView>::empty(),
            r@.cooldown == Map::<u64, u64>::empty(),
            r@.offers == Seq::<Offer>::empty(),
            *r.planner() == pathfinder,
            r.settings() == config,
            r.wf(),
    {
        let r = Self {
            pathfinder,
            config,
            outbox: Outbox::new(dispatch),
            pending: HashMap::new(),
            cooldown: HashMap::new(),
        };
        assert(r@.pending =~= Map::empty());
        r
    }

    /// Takes in an event. `Ok(true)` means that the scheduler goes on, `Ok(false)` that it is
    /// to stop. An error says that an unknown task was reported as completed; the scheduler
    /// goes on.
    pub fn handle_event(&mut self, store: &mut MemoryStore, event: SchedulerEvent) -> (r: Result<
        bool,
        StoreError,
    >)
        requires
            old(self).wf(),
            old(store)@.wf(),
        ensures
            final(self).wf(),
            final(store)@.wf(),
            final(self).planner() == old(self).planner(),
            final(self).settings() == old(self).settings(),
            final(self)@.cooldown == old(self)@.cooldown,
            final(self)@.offers == old(self)@.offers,
            final(self)@.pending == pending_after_event(old(self)@.pending, event),
            final(store)@ == store_after_event(old(store)@, event),
            r == answer_to(old(store)@, event),
            match event {
                SchedulerEvent::TaskSubmitted(task) => {
                    &&& r == Ok::<bool, StoreError>(true)
                    &&& final(store)@ == old(store)@.submitted(task@)
                    &&& final(self)@.pending == old(self)@.pending.insert(task.id.0, task@)
                },
                SchedulerEvent::TaskCompleted { robot, task } => {
                    &&& final(self)@ == old(self)@
                    &&& old(store)@.tasks.contains_key(task.0) ==> r == Ok::<bool, StoreError>(
                        true,
                    ) && final(store)@ == old(store)@.completed(robot, task)
                    &&& !old(store)@.tasks.contains_key(task.0) ==> r == Err::<bool, StoreError>(
                        StoreError::TaskNotFound(task),
                    ) && final(store)@ == old(store)@
                },
                SchedulerEvent::Shutdown => {
                    &&& r == Ok::<bool, StoreError>(false)
                    &&& final(self)@ == old(self)@
                    &&& final(store)@ == old(store)@
                },
            },
    {
        match event {
            SchedulerEvent::TaskSubmitted(task) => {
                let id = task.id.0;
                let ghost before = self@.pending;
                store.submit_task(task.clone());
                self.pending.insert(id, task);
                assert(self@.pending =~= before.insert(id, task@));
                Ok(true)
            },
            SchedulerEvent::TaskCompleted { robot, task } => {
                match store.complete_task(robot, task) {
                    Ok(_) => Ok(true),
                    Err(e) => Err(e),
                }
            },
            SchedulerEvent::Shutdown => Ok(false),
        }
    }

    /// Forgets the cooldowns that have ended.
    fn drop_cooldowns(&mut self, now: u64)
        ensures
            final(self)@.pending == old(self)@.pending,
            final(self)@.cooldown == still_cooling(old(self)@.cooldown, now),
            final(self)@.offers == old(self)@.offers,
            final(self).planner() == old(self).planner(),
            final(self).settings() == old(self).settings(),
    {
        let ghost before = self.cooldown@;
        let keys = wide_keys(&self.cooldown);
        let mut i: usize = 0;
        while i < keys.len()
            invariant
                i <= keys@.len(),
                keys@.no_duplicates(),
                keys@.to_set() == before.dom(),
                before == old(self).cooldown@,
                self.pending == old(self).pending,
                self.outbox == old(self).outbox,
                self.pathfinder == old(self).pathfinder,
                self.config == old(self).config,
                forall|k: u64| #[trigger]
                    self.cooldown@.contains_key(k) <==> before.contains_key(k) && (now < before[k]
                        || !(exists|j: int| 0 <= j < i && #[trigger] keys@[j] == k)),
                forall|k: u64| #[trigger]
                    self.cooldown@.contains_key(k) ==> self.cooldown@[k] == before[k],
            decreases keys@.len() - i,
        {
            let k = keys[i];
            let ghost earlier = self.cooldown@;
            proof {
                assert(keys@.to_set().contains(keys@[i as int]));
                assert(earlier.contains_key(k)) by {
                    if exists|j: int| 0 <= j < i && #[trigger] keys@[j] == k {
                        let j = choose|j: int| 0 <= j < i && #[trigger] keys@[j] == k;
                        assert(keys@[j] != keys@[i as int]);
                    }
                }
            }
            let ended = match self.cooldown.get(&k) {
                Some(until) => now >= *until,
                None => false,
            };
            if ended {
                self.cooldown.remove(&k);
            }
            proof {
                assert forall|x: u64| #[trigger]
                    self.cooldown@.contains_key(x) <==> before.contains_key(x) && (now < before[x]
                        || !(exists|j: int| 0 <= j < i + 1 && #[trigger] keys@[j] == x)) by {
                    assert(earlier.contains_key(x) <==> before.contains_key(x) && (now < before[x]
                        || !(exists|j: int| 0 <= j < i && #[trigger] keys@[j] == x)));
                    assert(keys@[i as int] == k);
                }
            }
            i = i + 1;
        }
        proof {
            assert forall|k: u64| #[trigger] self.cooldown@.contains_key(k) <==> still_cooling(
                before,
                now,
            ).contains_key(k) by {
                if before.contains_key(k) {
                    assert(keys@.to_set().contains(k));
                    let j = keys@.index_of(k);
                    assert(keys@[j] == k);
                }
            }
            assert(self.cooldown@ =~= still_cooling(before, now));
        }
    }

    /// Puts tasks that were taken back into the queue.
    fn requeue(&mut self, store: &MemoryStore, ids: &Vec<TaskId>, Ghost(back): Ghost<Set<u64>>)
        requires
            store@.wf(),
            old(self).wf(),
            enumerates(task_id_numbers(ids@), back),
            back.subset_of(store@.tasks.dom()),
        ensures
            final(self).wf(),
            final(self)@.cooldown == old(self)@.cooldown,
            final(self)@.offers == old(self)@.offers,
            final(self).planner() == old(self).planner(),
            final(self).settings() == old(self).settings(),
            final(self)@.pending == Map::new(
                |k: u64| old(self)@.pending.contains_key(k) || back.contains(k),
                |k: u64|
                    if back.contains(k) {
                        store@.tasks[k]
                    } else {
                        old(self)@.pending[k]
                    },
            ),
    {
        let ghost before = self@.pending;
        let ghost numbers = task_id_numbers(ids@);
        let mut i: usize = 0;
        while i < ids.len()
            invariant
                i <= ids@.len(),
                store@.wf(),
                self.wf(),
                before == old(self)@.pending,
                numbers == task_id_numbers(ids@),
                enumerates(numbers, back),
                back.subset_of(store@.tasks.dom()),
                self.cooldown == old(self).cooldown,
                self.outbox == old(self).outbox,
                self.pathfinder == old(self).pathfinder,
                self.config == old(self).config,
                forall|k: u64| #[trigger]
                    self@.pending.contains_key(k) <==> before.contains_key(k) || exists|j: int|
                        0 <= j < i && #[trigger] numbers[j] == k,
                forall|k: u64| #[trigger]
                    self@.pending.contains_key(k) ==> self@.pending[k] == (if exists|j: int|
                        0 <= j < i && #[trigger] numbers[j] == k {
                        store@.tasks[k]
                    } else {
                        before[k]
                    }),
            decreases ids@.len() - i,
        {
            let id = ids[i];
            let ghost earlier = self@.pending;
            proof {
                assert(numbers[i as int] == id.0);
                assert(numbers.to_set().contains(id.0));
            }
            if let Some(t) = store.get_task(id) {
                self.pending.insert(id.0, t);
                assert(self@.pending =~= earlier.insert(id.0, t@));
            }
            proof {
                assert forall|k: u64| #[trigger]
                    self@.pending.contains_key(k) <==> before.contains_key(k) || exists|j: int|
                        0 <= j < i + 1 && #[trigger] numbers[j] == k by {
                    assert(earlier.contains_key(k) <==> before.contains_key(k) || exists|j: int|
                        0 <= j < i && #[trigger] numbers[j] == k);
                }
                assert forall|k: u64| #[trigger] self@.pending.contains_key(k) implies self@.pending[k]
                    == (if exists|j: int| 0 <= j < i + 1 && #[trigger] numbers[j] == k {
                    store@.tasks[k]
                } else {
                    before[k]
                }) by {
                    if k != id.0 {
                        assert(earlier.contains_key(k));
                    }
                }
            }
            i = i + 1;
        }
        proof {
            assert forall|k: u64| back.contains(k) <==> exists|j: int|
                0 <= j < i && #[trigger] numbers[j] == k by {
                assert(numbers.to_set().contains(k) <==> back.contains(k));
                if back.contains(k) {
                    let j = numbers.index_of(k);
                    assert(numbers[j] == k);
                }
            }
            assert(self@.pending =~= Map::new(
                |k: u64| old(self)@.pending.contains_key(k) || back.contains(k),
                |k: u64|
                    if back.contains(k) {
                        store@.tasks[k]
                    } else {
                        old(self)@.pending[k]
                    },
            ));
        }
    }

    /// One tick: takes back tasks that hang, matches waiting tasks with free robots, and
    /// resolves deadlocks if the settings say so.
    pub fn tick(&mut self, store: &mut MemoryStore, map: &RoadMap, now: u64) -> (r: TickReport)
        requires
            old(self).wf(),
            old(store)@.wf(),
            map@.wf(),
        ensures
            final(self).wf(),
            final(store)@.wf(),
            final(self).planner() == old(self).planner(),
            final(self).settings() == old(self).settings(),
            is_ticked(
                old(self).planner(),
                map@,
                old(self).settings(),
                now,
                old(store)@,
                old(self)@,
                final(store)@,
                final(self)@,
                orders(r.sent@),
            ),
            old(self)@.offers.is_prefix_of(final(self)@.offers),
            taken(final(self)@.offers) == taken(old(self)@.offers) + orders(r.sent@),
            enumerates(
                task_id_numbers(r.failed@),
                old(store)@.given_up(
                    now,
                    old(self).settings().task_timeout_ms,
                    old(self).settings().max_task_retries,
                ),
            ),
    {
        let ghost v0 = store@;
        let ghost s0 = self@;
        self.drop_cooldowns(now);
        let outcome = store.reclaim_stale_tasks(
            now,
            self.config.task_timeout_ms,
            self.config.max_task_retries,
        );
        let ghost back = v0.requeued(
            now,
            self.config.task_timeout_ms,
            self.config.max_task_retries,
        );
        self.requeue(store, &outcome.requeued, Ghost(back));
        let ghost v1 = store@;
        let ghost pending1 = self@.pending;
        let ghost cooling = self@.cooldown;
        assert(pending1 =~= with_requeued(s0.pending, v0, self.config, now));
        let sent = run_matching(
            store,
            map,
            &self.pathfinder,
            &mut self.outbox,
            &self.config,
            &mut self.pending,
            &self.cooldown,
            now,
        );
        let ghost round = choose|end: Round| #[trigger]
            is_matched(
                &self.pathfinder,
                map@,
                self.config,
                cooling,
                now,
                v1,
                pending1,
                s0.offers,
                end,
            ) && end.store == store@ && end.pending == self@.pending && end.sent == orders(sent@)
                && end.offers == self@.offers;
        if self.config.enable_deadlock_resolution {
            resolve_deadlocks(store, &self.config, &mut self.cooldown, &mut self.pending, now);
        }
        proof {
            assert(is_matched(
                old(self).planner(),
                map@,
                old(self).settings(),
                still_cooling(s0.cooldown, now),
                now,
                v1,
                with_requeued(s0.pending, v0, old(self).settings(), now),
                s0.offers,
                round,
            ));
        }
        TickReport { failed: outcome.failed, sent }
    }
}

} // verus!
