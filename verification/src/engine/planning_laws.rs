//! What holds of routes, plans, choices and conflicts, told by the nodes, edges and fields that
//! they are made of.

use super::conflict::{
    is_deadlock, is_report, law_a_robot_waits_for_whoever_holds_its_target, lists_shared_places,
    next_in, occupants, place_of, reported_together, robots_at, same_members, touched, waits,
    waits_for, waits_for_next, waits_of_first, waits_on, ConflictReport,
};
use super::matching::{
    destination, is_nearest, is_serving_order, is_victim, key_at, nearest, planned, served_before,
    task_rank, victim,
};
use super::pathfinding::{
    a_star, cost_of, is_cheapest_route, is_drive, is_route, law_a_star_finds_what_is_reachable,
    law_a_star_is_optimal, reachable, AStarPathfinder, Pathfinder,
};
use super::scheduler::{current_priorities, current_tasks};
use crate::domain::laws::law_distances_are_euclidean;
use crate::domain::map::RoadMapView;
use crate::domain::task::TaskKindView;
use crate::domain::{
    Edge, Location, NodeId, RobotId, RobotStatus, RobotView, TaskPriority, TaskView,
};
use crate::storage::memory_store::StoreView;
use vstd::prelude::*;

verus! {

// ---------------------------------------------------------------- routes
/// A way through a network: nodes, and for each step an edge of the network from one node to
/// the next.
pub open spec fn is_way(
    map: RoadMapView,
    nodes: Seq<NodeId>,
    edges: Seq<Edge>,
    start: NodeId,
    goal: NodeId,
) -> bool {
    &&& nodes.len() == edges.len() + 1
    &&& nodes[0] == start
    &&& nodes[nodes.len() - 1] == goal
    &&& forall|i: int| 0 <= i < edges.len() ==> #[trigger] is_step(map, nodes, edges, i)
}

/// Whether the `i`-th edge leads from the `i`-th node to the next one.
pub open spec fn is_step(map: RoadMapView, nodes: Seq<NodeId>, edges: Seq<Edge>, i: int) -> bool {
    &&& map.edges.contains_key(nodes[i].0)
    &&& exists|k: int|
        0 <= k < map.edges[nodes[i].0].len() && #[trigger] map.edges[nodes[i].0][k] == edges[i]
    &&& edges[i].to == nodes[i + 1]
}

/// A drive is a way through the network, and each way is a drive.
proof fn lemma_ways_are_drives(
    map: RoadMapView,
    nodes: Seq<NodeId>,
    edges: Seq<Edge>,
    start: NodeId,
    goal: NodeId,
)
    ensures
        is_way(map, nodes, edges, start, goal) <==> is_drive(map, nodes, edges, start, goal),
{
    if is_way(map, nodes, edges, start, goal) {
        assert forall|i: int| 0 <= i < edges.len() implies {
            &&& map.out(nodes[i].0).contains(#[trigger] edges[i])
            &&& edges[i].to == nodes[i + 1]
        } by {
            assert(is_step(map, nodes, edges, i));
        }
    }
    if is_drive(map, nodes, edges, start, goal) {
        assert forall|i: int| 0 <= i < edges.len() implies #[trigger] is_step(
            map,
            nodes,
            edges,
            i,
        ) by {
            let out = map.out(nodes[i].0);
            assert(out.contains(edges[i]));
            let k = out.index_of(edges[i]);
            assert(map.edges[nodes[i].0][k] == edges[i]);
        }
    }
}

/// What a drive costs is the sum of what its edges cost.
pub proof fn law_costs_add_up(edges: Seq<Edge>, edge: Edge)
    ensures
        cost_of(Seq::<Edge>::empty()) == 0,
        cost_of(edges.push(edge)) == cost_of(edges) + edge.cost,
{
    assert(edges.push(edge).drop_last() =~= edges);
}

/// Wherever there is a way to a goal with coordinates, the search finds one, and it costs no
/// more than the other.
pub proof fn law_no_way_is_cheaper_than_the_one_found(
    map: RoadMapView,
    start: NodeId,
    goal: NodeId,
    nodes: Seq<NodeId>,
    edges: Seq<Edge>,
) -> (found: (Seq<NodeId>, Seq<Edge>))
    requires
        map.wf(),
        map.nodes.contains_key(goal.0),
        is_way(map, nodes, edges, start, goal),
    ensures
        a_star(map, start, goal) == Some(found.0),
        is_way(map, found.0, found.1, start, goal),
        cost_of(found.1) <= cost_of(edges),
{
    lemma_ways_are_drives(map, nodes, edges, start, goal);
    assert(is_route(map, nodes, start, goal));
    assert(reachable(map, start, goal));
    law_a_star_finds_what_is_reachable(map, start, goal);
    law_a_star_is_optimal(map, start, goal);
    let best = a_star(map, start, goal)->0;
    assert(is_cheapest_route(map, best, start, goal));
    let way = choose|way: Seq<Edge>|
        {
            &&& #[trigger] is_drive(map, best, way, start, goal)
            &&& forall|nodes2: Seq<NodeId>, edges2: Seq<Edge>| #[trigger]
                is_drive(map, nodes2, edges2, start, goal) ==> cost_of(way) <= cost_of(edges2)
        };
    lemma_ways_are_drives(map, best, way, start, goal);
    (best, way)
}

/// What the search finds is a way through the network from the start to the goal; to itself a
/// node needs no step, and to another node without coordinates nothing is found.
pub proof fn law_what_is_found_is_a_way(map: RoadMapView, start: NodeId, goal: NodeId) -> (edges:
    Seq<Edge>)
    requires
        map.wf(),
    ensures
        a_star(map, start, goal) matches Some(nodes) ==> is_way(map, nodes, edges, start, goal),
        a_star(map, start, start) == Some(seq![start]),
        start != goal && !map.nodes.contains_key(goal.0) ==> a_star(map, start, goal) is None,
{
    super::pathfinding::law_a_star_returns_a_route(map, start, goal);
    if let Some(nodes) = a_star(map, start, goal) {
        let edges = choose|e: Seq<Edge>| is_drive(map, nodes, e, start, goal);
        lemma_ways_are_drives(map, nodes, edges, start, goal);
        edges
    } else {
        Seq::empty()
    }
}

// ---------------------------------------------------------------- plans
/// Whether a robot at `from` can be sent on a task: the planner has a route for each leg, and
/// the last node has coordinates.
pub open spec fn can_be_planned<P: Pathfinder>(
    pf: &P,
    map: RoadMapView,
    from: NodeId,
    kind: TaskKindView,
) -> bool {
    match kind {
        TaskKindView::Transport { pickup, dropoff } => {
            &&& pickup.node matches Some(pick) && dropoff.node matches Some(drop) && {
                &&& pf.route(map, from, pick) is Some
                &&& pick != drop ==> pf.route(map, pick, drop) is Some
                &&& map.nodes.contains_key(drop.0)
            }
        },
        TaskKindView::Charge { charger } => {
            &&& map.nodes.contains_key(charger.0)
            &&& pf.route(map, from, charger) is Some
        },
        TaskKindView::Patrol { waypoints } => {
            &&& waypoints.len() > 0
            &&& map.nodes.contains_key(waypoints[0].0)
            &&& pf.route(map, from, waypoints[0]) is Some
        },
    }
}

/// Planning succeeds whenever it can. A charging trip is the route to the charger, a patrol the
/// route to its first waypoint, and a transport the route to the pickup with the one from there
/// to the drop-off behind it, where the pickup occurs once.
pub proof fn law_planning_succeeds_whenever_it_can<P: Pathfinder>(
    pf: &P,
    map: RoadMapView,
    from: NodeId,
    task: TaskView,
)
    ensures
        planned(pf, map, from, task) is Some <==> can_be_planned(pf, map, from, task.kind),
        task.kind matches TaskKindView::Charge { charger } ==> (can_be_planned(
            pf,
            map,
            from,
            task.kind,
        ) ==> planned(pf, map, from, task) == Some(
            (pf.route(map, from, charger)->0, map.nodes[charger.0], None::<NodeId>),
        )),
        task.kind matches TaskKindView::Patrol { waypoints } ==> (can_be_planned(
            pf,
            map,
            from,
            task.kind,
        ) ==> planned(pf, map, from, task) == Some(
            (
                pf.route(map, from, waypoints[0])->0,
                map.nodes[waypoints[0].0],
                None::<NodeId>,
            ),
        )),
        task.kind matches TaskKindView::Transport { pickup, dropoff } ==> (can_be_planned(
            pf,
            map,
            from,
            task.kind,
        ) ==> {
            let (path, end, load) = planned(pf, map, from, task)->0;
            let (pick, drop) = (pickup.node->0, dropoff.node->0);
            let first = pf.route(map, from, pick)->0;
            let second = pf.route(map, pick, drop)->0;
            &&& end == map.nodes[drop.0]
            &&& load == Some(pick)
            &&& pick == drop ==> path == first
            &&& pick != drop && second.len() > 0 ==> path == first + second.skip(1)
        }),
{
}

/// A plan leads along edges of the network from the robot over the pickup, if there is one, to
/// the place where the task ends.
pub proof fn law_plans_are_ways<P: Pathfinder>(
    pf: &P,
    map: RoadMapView,
    from: NodeId,
    task: TaskView,
) -> (edges: Seq<Edge>)
    requires
        map.wf(),
        planned(pf, map, from, task) is Some,
    ensures
        ({
            let (path, end, load) = planned(pf, map, from, task)->0;
            match task.kind {
                TaskKindView::Transport { pickup, dropoff } => {
                    &&& pickup.node is Some && dropoff.node is Some
                    &&& is_way(map, path, edges, from, dropoff.node->0)
                    &&& path.contains(pickup.node->0)
                    &&& load == pickup.node
                    &&& end == map.nodes[(dropoff.node->0).0]
                },
                TaskKindView::Charge { charger } => {
                    &&& is_way(map, path, edges, from, charger)
                    &&& load is None
                    &&& end == map.nodes[charger.0]
                },
                TaskKindView::Patrol { waypoints } => {
                    &&& waypoints.len() > 0
                    &&& is_way(map, path, edges, from, waypoints[0])
                    &&& load is None
                    &&& end == map.nodes[waypoints[0].0]
                },
            }
        }),
{
    super::matching::law_planned_routes_lead_to_the_destination(pf, map, from, task);
    let (path, end, load) = planned(pf, map, from, task)->0;
    let goal = destination(task)->0;
    let edges = choose|e: Seq<Edge>| is_drive(map, path, e, from, goal);
    lemma_ways_are_drives(map, path, edges, from, goal);
    edges
}

// ---------------------------------------------------------------- the order of service
/// The level of a task's priority at a time: that of its own priority, raised by one for each
/// full ageing step since its creation, and at most 3.
pub open spec fn level_at(t: TaskView, now: u64, aging_ms: u64) -> int {
    let own = match t.priority {
        TaskPriority::Low => 0int,
        TaskPriority::Normal => 1,
        TaskPriority::High => 2,
        TaskPriority::Urgent => 3,
    };
    let raised = if aging_ms == 0 || now <= t.created_at {
        own
    } else {
        own + (now - t.created_at) / (aging_ms as int)
    };
    if raised < 3 {
        raised
    } else {
        3
    }
}

/// The level is that of the priority which counts at the time.
pub proof fn law_the_aged_priority_counts(t: TaskView, now: u64, aging_ms: u64)
    ensures
        t.priority_at(now, aging_ms).level() == level_at(t, now, aging_ms),
{
    if aging_ms > 0 {
        if now > t.created_at {
            let w = now - t.created_at;
            assert(w / (aging_ms as int) >= 0) by (nonlinear_arith)
                requires
                    w >= 0,
                    aging_ms > 0,
            ;
        } else {
            assert(0nat / (aging_ms as nat) == 0) by (nonlinear_arith)
                requires
                    aging_ms > 0,
            ;
        }
    }
}

/// Every waiting task is served once. Of two tasks the one with the higher level is served
/// first, between equal levels the one that was created earlier, and between tasks of the same
/// time the one with the smaller number.
pub proof fn law_tasks_are_served_by_level_then_age_then_number(
    order: Seq<u64>,
    pending: Map<u64, TaskView>,
    now: u64,
    aging_ms: u64,
    i: int,
    j: int,
    k: u64,
)
    requires
        is_serving_order(order, pending, now, aging_ms),
        forall|k: u64| #[trigger] pending.contains_key(k) ==> pending[k].id.0 == k,
        0 <= i < j < order.len(),
    ensures
        ({
            let (a, b) = (pending[order[i]], pending[order[j]]);
            let (la, lb) = (level_at(a, now, aging_ms), level_at(b, now, aging_ms));
            &&& la >= lb
            &&& la == lb ==> a.created_at <= b.created_at
            &&& la == lb && a.created_at == b.created_at ==> order[i] < order[j]
            &&& order[i] != order[j]
            &&& pending.contains_key(order[i])
            &&& pending.contains_key(k) <==> order.contains(k)
        }),
{
    let (a, b) = (pending[order[i]], pending[order[j]]);
    law_the_aged_priority_counts(a, now, aging_ms);
    law_the_aged_priority_counts(b, now, aging_ms);
    assert(order.to_set().contains(order[i]));
    assert(order.to_set().contains(order[j]));
    assert(served_before(key_at(a, now, aging_ms), key_at(b, now, aging_ms)));
    assert(pending.dom().contains(k) <==> order.to_set().contains(k));
}

// ---------------------------------------------------------------- the nearest robot
/// The square of the distance between two points.
pub open spec fn apart(a: Location, b: Location) -> int {
    (a.x - b.x) * (a.x - b.x) + (a.y - b.y) * (a.y - b.y)
}

/// Whether a robot stands on a node with coordinates.
pub open spec fn on_network(map: RoadMapView, r: RobotView) -> bool {
    match r.location.node {
        Some(n) => map.nodes.contains_key(n.0),
        None => false,
    }
}

/// Where the node of a robot is.
pub open spec fn spot(map: RoadMapView, r: RobotView) -> Location {
    map.nodes[(r.location.node->0).0]
}

/// The robot that is chosen stands on the network, and no other one there is nearer. If none is
/// chosen, none stands on the network.
pub proof fn law_no_robot_is_nearer_than_the_nearest(
    map: RoadMapView,
    robots: Seq<RobotView>,
    target: Location,
    j: int,
)
    requires
        0 <= j < robots.len(),
        on_network(map, robots[j]),
    ensures
        nearest(map, robots, target) matches Some(i) ==> {
            &&& 0 <= i < robots.len()
            &&& on_network(map, robots[i])
            &&& apart(spot(map, robots[i]), target) <= apart(spot(map, robots[j]), target)
            &&& j < i ==> apart(spot(map, robots[i]), target) < apart(
                spot(map, robots[j]),
                target,
            )
        },
        nearest(map, robots, target) is Some,
{
    super::laws::lemma_nearest_exists(map, robots, target);
    let i = nearest(map, robots, target)->0;
    assert(is_nearest(map, robots, target, i));
    law_distances_are_euclidean(spot(map, robots[i]), target);
    law_distances_are_euclidean(spot(map, robots[j]), target);
}

// ---------------------------------------------------------------- who gives way
/// The rank of a robot in a deadlock: the level of the task that it is bound to, and 0 if it is
/// bound to none that is known.
pub open spec fn rank_of(v: StoreView, robot: RobotId, now: u64, aging_ms: u64) -> int {
    if v.robots.contains_key(robot.0) {
        match v.robots[robot.0].current_task {
            Some(t) => if v.tasks.contains_key(t.0) {
                level_at(v.tasks[t.0], now, aging_ms)
            } else {
                0
            },
            None => 0,
        }
    } else {
        0
    }
}

/// The rank by which the victim of a ring is chosen is that of its task as it has aged.
pub proof fn law_ranks_are_aged(v: StoreView, robot: RobotId, now: u64, aging_ms: u64)
    ensures
        task_rank(current_priorities(v, now, aging_ms), robot) == rank_of(
            v,
            robot,
            now,
            aging_ms,
        ),
{
    if v.robots.contains_key(robot.0) {
        if let Some(t) = v.robots[robot.0].current_task {
            if v.tasks.contains_key(t.0) {
                law_the_aged_priority_counts(v.tasks[t.0], now, aging_ms);
            }
        }
    }
}

/// The victim of a ring is one of its robots. None has a lower rank, and of those with the same
/// rank it has the greatest number. So a robot whose task has aged to the top never gives way
/// to one whose task has not.
pub proof fn law_the_least_urgent_robot_is_the_victim(
    v: StoreView,
    now: u64,
    aging_ms: u64,
    ring: Seq<RobotId>,
    x: RobotId,
)
    requires
        ring.contains(x),
    ensures
        ({
            let who = victim(ring, current_priorities(v, now, aging_ms));
            &&& ring.contains(who)
            &&& rank_of(v, who, now, aging_ms) <= rank_of(v, x, now, aging_ms)
            &&& rank_of(v, who, now, aging_ms) == rank_of(v, x, now, aging_ms) ==> x.0 <= who.0
        }),
{
    let prio = current_priorities(v, now, aging_ms);
    let who = victim(ring, prio);
    super::laws::lemma_victim_exists(ring, prio);
    assert(is_victim(ring, prio, who));
    law_ranks_are_aged(v, who, now, aging_ms);
    law_ranks_are_aged(v, x, now, aging_ms);
}

/// What a robot is bound to is what its state says.
pub proof fn law_current_tasks_are_those_of_the_robots(v: StoreView, robot: u64)
    ensures
        current_tasks(v).contains_key(robot) <==> v.robots.contains_key(robot)
            && v.robots[robot].current_task is Some,
        current_tasks(v).contains_key(robot) ==> Some(current_tasks(v)[robot])
            == v.robots[robot].current_task,
{
}

// ---------------------------------------------------------------- conflicts
/// How many of the first `n` robots stand on a node, or with `goals` how many busy ones drive
/// there.
pub open spec fn how_many(robots: Seq<RobotView>, goals: bool, node: NodeId, n: nat) -> nat
    decreases n,
{
    if n == 0 {
        0
    } else {
        let r = robots[n - 1];
        how_many(robots, goals, node, (n - 1) as nat) + (if (goals && r.status == RobotStatus::Busy
            && r.target == Some(node)) || (!goals && r.status != RobotStatus::Offline
            && r.location.node == Some(node)) {
            1nat
        } else {
            0
        })
    }
}

/// The robots at a place are as many as stand there.
proof fn lemma_how_many(robots: Seq<RobotView>, goals: bool, node: u32)
    ensures
        robots_at(robots, goals, node).len() == how_many(
            robots,
            goals,
            NodeId(node),
            robots.len(),
        ),
    decreases robots.len(),
{
    if robots.len() > 0 {
        let rest = robots.drop_last();
        lemma_how_many(rest, goals, node);
        lemma_how_many_of_first(robots, rest, goals, node, rest.len());
    }
}

/// How many of the first robots stand somewhere depends on these alone.
proof fn lemma_how_many_of_first(
    a: Seq<RobotView>,
    b: Seq<RobotView>,
    goals: bool,
    node: u32,
    n: nat,
)
    requires
        n <= a.len(),
        n <= b.len(),
        forall|i: int| 0 <= i < n ==> #[trigger] a[i] == b[i],
    ensures
        how_many(a, goals, NodeId(node), n) == how_many(b, goals, NodeId(node), n),
    decreases n,
{
    if n > 0 {
        lemma_how_many_of_first(a, b, goals, node, (n - 1) as nat);
        assert(a[n - 1] == b[n - 1]);
    }
}

/// A report lists a node as crowded if and only if more than one robot stands on it, and as
/// contested if and only if more than one busy robot drives there; it lists as many robots as
/// there are, and names no node twice.
pub proof fn law_shared_nodes_are_reported(
    robots: Seq<RobotView>,
    report: ConflictReport,
    node: NodeId,
    i: int,
)
    requires
        is_report(robots, report),
    ensures
        how_many(robots, false, node, robots.len()) > 1 <==> exists|k: int|
            0 <= k < report.crowded@.len() && (#[trigger] report.crowded@[k]).0 == node,
        how_many(robots, true, node, robots.len()) > 1 <==> exists|k: int|
            0 <= k < report.contested@.len() && (#[trigger] report.contested@[k]).0 == node,
        0 <= i < report.crowded@.len() ==> report.crowded@[i].1@.len() == how_many(
            robots,
            false,
            report.crowded@[i].0,
            robots.len(),
        ),
        0 <= i < report.contested@.len() ==> report.contested@[i].1@.len() == how_many(
            robots,
            true,
            report.contested@[i].0,
            robots.len(),
        ),
        forall|a: int, b: int|
            0 <= a < b < report.crowded@.len() ==> (#[trigger] report.crowded@[a]).0 != (
            #[trigger] report.crowded@[b]).0,
        forall|a: int, b: int|
            0 <= a < b < report.contested@.len() ==> (#[trigger] report.contested@[a]).0 != (
            #[trigger] report.contested@[b]).0,
{
    lemma_shared(robots, report.crowded@, false, node, i);
    lemma_shared(robots, report.contested@, true, node, i);
}

proof fn lemma_shared(
    robots: Seq<RobotView>,
    list: Seq<(NodeId, Vec<RobotId>)>,
    goals: bool,
    node: NodeId,
    i: int,
)
    requires
        lists_shared_places(list, robots, goals),
    ensures
        how_many(robots, goals, node, robots.len()) > 1 <==> exists|k: int|
            0 <= k < list.len() && (#[trigger] list[k]).0 == node,
        0 <= i < list.len() ==> list[i].1@.len() == how_many(
            robots,
            goals,
            list[i].0,
            robots.len(),
        ),
{
    lemma_how_many(robots, goals, node.0);
    if exists|k: int| 0 <= k < list.len() && (#[trigger] list[k]).0 == node {
        let k = choose|k: int| 0 <= k < list.len() && (#[trigger] list[k]).0 == node;
        assert(robots_at(robots, goals, list[k].0.0).len() > 1);
    }
    if 0 <= i < list.len() {
        lemma_how_many(robots, goals, list[i].0.0);
        list[i].1@.to_multiset_ensures();
        robots_at(robots, goals, list[i].0.0).to_multiset_ensures();
    }
}

/// A robot that a report lists at a crowded node stands there and is not offline, and one that
/// it lists at a contested node is busy and drives there; and none of them is left out.
pub proof fn law_reported_robots_are_there(
    robots: Seq<RobotView>,
    report: ConflictReport,
    i: int,
    id: RobotId,
)
    requires
        is_report(robots, report),
    ensures
        0 <= i < report.crowded@.len() ==> (report.crowded@[i].1@.contains(id) <==> exists|j: int|
            0 <= j < robots.len() && (#[trigger] robots[j]).id == id && robots[j].status
                != RobotStatus::Offline && robots[j].location.node == Some(report.crowded@[i].0)),
        0 <= i < report.contested@.len() ==> (report.contested@[i].1@.contains(id) <==> exists|
            j: int,
        |
            0 <= j < robots.len() && (#[trigger] robots[j]).id == id && robots[j].status
                == RobotStatus::Busy && robots[j].target == Some(report.contested@[i].0)),
{
    if 0 <= i < report.crowded@.len() {
        let (node, there) = (report.crowded@[i].0, report.crowded@[i].1@);
        super::conflict::lemma_robots_at(robots, false, node.0, id);
        lemma_same_items(there, robots_at(robots, false, node.0), id);
    }
    if 0 <= i < report.contested@.len() {
        let (node, there) = (report.contested@[i].0, report.contested@[i].1@);
        super::conflict::lemma_robots_at(robots, true, node.0, id);
        lemma_same_items(there, robots_at(robots, true, node.0), id);
    }
}

proof fn lemma_same_items(a: Seq<RobotId>, b: Seq<RobotId>, id: RobotId)
    requires
        a.to_multiset() == b.to_multiset(),
    ensures
        a.contains(id) <==> b.contains(id),
{
    a.to_multiset_ensures();
    b.to_multiset_ensures();
    assert(a.contains(id) <==> a.to_multiset().count(id) > 0);
    assert(b.contains(id) <==> b.to_multiset().count(id) > 0);
}

/// The pairs of waiting robots in a report are those of a busy robot and another one that
/// stands on its target.
pub proof fn law_reported_waits_are_those_of_the_snapshot(
    robots: Seq<RobotView>,
    report: ConflictReport,
    a: RobotId,
    b: RobotId,
)
    requires
        is_report(robots, report),
    ensures
        report.wait_edges@.contains((a, b)) <==> a != b && exists|i: int, j: int|
            0 <= i < robots.len() && 0 <= j < robots.len() && (#[trigger] robots[i]).id == a && (
            #[trigger] robots[j]).id == b && robots[i].status == RobotStatus::Busy
                && robots[i].target is Some && robots[j].status != RobotStatus::Offline
                && robots[j].location.node == robots[i].target,
{
    law_a_robot_waits_for_whoever_holds_its_target(robots, a, b);
    if report.wait_edges@.contains((a, b)) {
        let (i, j) = choose|i: int, j: int| #[trigger]
            waits_on(robots, i, j) && robots[i].id == a && robots[j].id == b;
        assert(robots[i].id == a && robots[j].id == b);
    }
    if a != b && exists|i: int, j: int|
        0 <= i < robots.len() && 0 <= j < robots.len() && (#[trigger] robots[i]).id == a && (
        #[trigger] robots[j]).id == b && robots[i].status == RobotStatus::Busy
            && robots[i].target is Some && robots[j].status != RobotStatus::Offline
            && robots[j].location.node == robots[i].target {
        let (i, j) = choose|i: int, j: int|
            0 <= i < robots.len() && 0 <= j < robots.len() && (#[trigger] robots[i]).id == a && (
            #[trigger] robots[j]).id == b && robots[i].status == RobotStatus::Busy
                && robots[i].target is Some && robots[j].status != RobotStatus::Offline
                && robots[j].location.node == robots[i].target;
        assert(waits_on(robots, i, j));
    }
}

/// Whether the robots of `ring`, at least two of them and all different, stand in each other's
/// way: each waits for the next, and the last for the first.
pub open spec fn is_ring(waits: Seq<(RobotId, RobotId)>, ring: Seq<RobotId>) -> bool {
    &&& ring.len() >= 2
    &&& forall|i: int, j: int| 0 <= i < j < ring.len() ==> ring[i] != ring[j]
    &&& forall|i: int| 0 <= i < ring.len() - 1 ==> #[trigger] passes_on(waits, ring, i)
    &&& waits.contains((ring[ring.len() - 1], ring[0]))
}

/// Whether a robot of a list waits for the one behind it.
pub open spec fn passes_on(waits: Seq<(RobotId, RobotId)>, ring: Seq<RobotId>, i: int) -> bool {
    waits.contains((ring[i], ring[i + 1]))
}

proof fn lemma_rings(waits: Seq<(RobotId, RobotId)>, ring: Seq<RobotId>)
    ensures
        is_ring(waits, ring) <==> is_deadlock(waits, ring),
{
    if is_ring(waits, ring) {
        assert forall|i: int| 0 <= i < ring.len() implies #[trigger] waits_for_next(
            waits,
            ring,
            i,
        ) by {
            if i + 1 < ring.len() {
                assert(passes_on(waits, ring, i));
            }
        }
        assert(ring.no_duplicates()) by {
            assert forall|i: int, j: int|
                0 <= i < ring.len() && 0 <= j < ring.len() && i != j implies ring[i]
                != ring[j] by {
                if i < j {
                    assert(ring[i] != ring[j]);
                } else {
                    assert(ring[j] != ring[i]);
                }
            }
        }
    }
    if is_deadlock(waits, ring) {
        assert forall|i: int| 0 <= i < ring.len() - 1 implies #[trigger] passes_on(
            waits,
            ring,
            i,
        ) by {
            assert(waits_for_next(waits, ring, i));
        }
        assert(waits_for_next(waits, ring, ring.len() - 1));
    }
}

/// Every reported ring is a ring of robots that wait for each other. At most 64 are reported;
/// and if there are fewer, then in every ring of robots that wait for each other one of them is
/// reported together with the one that it waits for.
pub proof fn law_rings_are_reported(
    robots: Seq<RobotView>,
    report: ConflictReport,
    r: int,
    ring: Seq<RobotId>,
) -> (i: int)
    requires
        is_report(robots, report),
    ensures
        report.deadlock_cycles@.len() <= 64,
        0 <= r < report.deadlock_cycles@.len() ==> is_ring(
            report.wait_edges@,
            report.deadlock_cycles@[r]@,
        ),
        report.deadlock_cycles@.len() < 64 && is_ring(report.wait_edges@, ring) ==> {
            &&& 0 <= i < ring.len()
            &&& exists|q: int|
                0 <= q < report.deadlock_cycles@.len() && (
                #[trigger] report.deadlock_cycles@[q])@.contains(ring[i])
                    && report.deadlock_cycles@[q]@.contains(
                    ring[if i + 1 < ring.len() {
                        i + 1
                    } else {
                        0
                    }],
                )
        },
{
    let rings = report.deadlock_cycles@;
    if 0 <= r < rings.len() {
        lemma_rings(report.wait_edges@, rings[r]@);
    }
    lemma_rings(report.wait_edges@, ring);
    if rings.len() < 64 && is_ring(report.wait_edges@, ring) {
        assert(touched(rings, ring));
        let i = choose|i: int|
            0 <= i < ring.len() && #[trigger] reported_together(
                rings,
                ring[i],
                ring[next_in(ring, i)],
            );
        i
    } else {
        0
    }
}

/// No ring is reported twice: of two reported rings one holds a robot that the other does not.
pub proof fn law_no_ring_is_reported_twice(
    robots: Seq<RobotView>,
    report: ConflictReport,
    r: int,
    q: int,
) -> (id: RobotId)
    requires
        is_report(robots, report),
        0 <= r < q < report.deadlock_cycles@.len(),
    ensures
        report.deadlock_cycles@[r]@.contains(id) != report.deadlock_cycles@[q]@.contains(id),
{
    let (a, b) = (report.deadlock_cycles@[r]@, report.deadlock_cycles@[q]@);
    assert(!same_members(a, b));
    choose|id: RobotId| a.contains(id) != b.contains(id)
}

/// The planner of the system finds a way wherever there is one to a goal with coordinates, and
/// none that is dearer than another.
pub proof fn law_the_planner_finds_a_cheapest_way(
    planner: AStarPathfinder,
    map: RoadMapView,
    start: NodeId,
    goal: NodeId,
    nodes: Seq<NodeId>,
    edges: Seq<Edge>,
) -> (found: Seq<Edge>)
    requires
        map.wf(),
        map.nodes.contains_key(goal.0),
        is_way(map, nodes, edges, start, goal),
    ensures
        planner.route(map, start, goal) is Some,
        is_way(map, planner.route(map, start, goal)->0, found, start, goal),
        cost_of(found) <= cost_of(edges),
{
    law_no_way_is_cheaper_than_the_one_found(map, start, goal, nodes, edges).1
}

/// The waits of a snapshot are listed robot by robot: those of the first robots come first, and
/// what a further one adds are its own waits.
pub proof fn law_waits_are_listed_robot_by_robot(robots: Seq<RobotView>, k: nat, i: int)
    requires
        k < robots.len(),
    ensures
        waits(robots) == waits_of_first(robots, robots.len()),
        waits_of_first(robots, 0).len() == 0,
        waits_of_first(robots, k).is_prefix_of(waits_of_first(robots, k + 1)),
        waits_of_first(robots, k).len() <= i < waits_of_first(robots, k + 1).len()
            ==> waits_of_first(robots, k + 1)[i].0 == robots[k as int].id,
{
    let (before, after) = (waits_of_first(robots, k), waits_of_first(robots, k + 1));
    let r = robots[k as int];
    if r.status == RobotStatus::Busy && r.target is Some {
        let holders = occupants(robots, (r.target->0).0);
        lemma_waits_begin_with_the_robot(r.id, holders);
        assert(after =~= before + waits_for(r.id, holders));
    }
}

/// All that a robot waits for is listed under its identifier.
proof fn lemma_waits_begin_with_the_robot(id: RobotId, holders: Seq<RobotId>)
    ensures
        forall|i: int|
            0 <= i < waits_for(id, holders).len() ==> (#[trigger] waits_for(id, holders)[i]).0
                == id,
    decreases holders.len(),
{
    if holders.len() > 0 {
        let before = waits_for(id, holders.drop_last());
        let all = waits_for(id, holders);
        lemma_waits_begin_with_the_robot(id, holders.drop_last());
        assert forall|i: int| 0 <= i < all.len() implies (#[trigger] all[i]).0 == id by {
            if i < before.len() {
                assert(all[i] == before[i]);
            }
        }
    }
}

} // verus!
