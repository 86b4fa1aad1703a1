//! Matching of waiting tasks with free robots: who is served first, which robot goes, and
//! along which route.

use super::pathfinding::{is_drive, is_route, Pathfinder};
use crate::domain::map::{squared_distance, RoadMapView};
use crate::domain::robot::robot_views;
use crate::domain::task::{key_order, TaskKindView};
use crate::domain::{
    Edge, Location, NodeId, Path, RoadMap, RobotId, RobotState, RobotView, Task, TaskId, TaskKey,
    TaskKind, TaskPriority, TaskView,
};
use crate::storage::tables::enumerates;
use crate::table::wide_keys;
use std::cmp::Ordering;
use std::collections::HashMap;
use vstd::prelude::*;

verus! {

broadcast use vstd::std_specs::hash::group_hash_axioms;

// ---------------------------------------------------------------- order of service
/// The contents of a table of tasks.
pub open spec fn waiting(pending: Map<u64, Task>) -> Map<u64, TaskView> {
    pending.map_values(|t: Task| t@)
}

/// Whether tasks are found under their own numbers.
pub open spec fn numbered(pending: Map<u64, TaskView>) -> bool {
    forall|k: u64| #[trigger] pending.contains_key(k) ==> pending[k].id == TaskId(k)
}

/// The key of a task at the time `now`.
pub open spec fn key_at(t: TaskView, now: u64, aging_ms: u64) -> TaskKey {
    TaskKey { priority: t.priority_at(now, aging_ms), created_at: t.created_at, id: t.id }
}

/// Whether the task with key `a` is served before the one with key `b`: the higher priority
/// first, then the earlier task, then the smaller number.
pub open spec fn served_before(a: TaskKey, b: TaskKey) -> bool {
    key_order(a, b) == Ordering::Greater || (key_order(a, b) == Ordering::Equal && a.id.0 < b.id.0)
}

/// Whether `order` names each waiting task once, in the order of service.
pub open spec fn is_serving_order(
    order: Seq<u64>,
    pending: Map<u64, TaskView>,
    now: u64,
    aging_ms: u64,
) -> bool {
    &&& enumerates(order, pending.dom())
    &&& forall|i: int, j: int|
        0 <= i < j < order.len() ==> served_before(
            key_at(pending[#[trigger] order[i]], now, aging_ms),
            key_at(pending[#[trigger] order[j]], now, aging_ms),
        )
}

fn serves_first(a: &TaskKey, b: &TaskKey) -> (r: bool)
    ensures
        r == served_before(*a, *b),
{
    match a.partial_cmp(b) {
        Some(Ordering::Greater) => true,
        Some(Ordering::Equal) => a.id.0 < b.id.0,
        _ => false,
    }
}

/// The key of a task at the time `now`.
fn task_key(t: &Task, now: u64, aging_ms: u64) -> (r: TaskKey)
    ensures
        r == key_at(t@, now, aging_ms),
{
    TaskKey {
        priority: t.effective_priority_at(now, aging_ms),
        created_at: t.created_at,
        id: t.id,
    }
}

/// Whether keys stand in the order of service.
spec fn in_order(keys: Seq<TaskKey>) -> bool {
    forall|i: int, j: int|
        0 <= i < j < keys.len() ==> served_before(#[trigger] keys[i], #[trigger] keys[j])
}

/// Whether a task's key is among `keys`.
spec fn has_key(keys: Seq<TaskKey>, id: u64) -> bool {
    exists|j: int| 0 <= j < keys.len() && (#[trigger] keys[j]).id.0 == id
}

/// Puts a key into its place.
fn insert_key(keys: &mut Vec<TaskKey>, x: TaskKey)
    requires
        in_order(old(keys)@),
        !has_key(old(keys)@, x.id.0),
    ensures
        in_order(final(keys)@),
        forall|id: u64| #[trigger]
            has_key(final(keys)@, id) <==> has_key(old(keys)@, id) || id == x.id.0,
        forall|j: int|
            0 <= j < final(keys)@.len() ==> #[trigger] final(keys)@[j] == x || old(keys)@.contains(
                final(keys)@[j],
            ),
{
    let ghost before = keys@;
    let mut i: usize = keys.len();
    while i > 0 && serves_first(&x, &keys[i - 1])
        invariant
            i <= keys@.len(),
            keys@ == before,
            forall|j: int| i <= j < keys@.len() ==> served_before(x, #[trigger] keys@[j]),
        decreases i,
    {
        i = i - 1;
    }
    keys.insert(i, x);
    proof {
        assert(keys@ =~= before.insert(i as int, x));
        assert forall|j: int| 0 <= j < i implies served_before(#[trigger] before[j], x) by {
            assert(!served_before(x, before[i - 1]));
            assert(before[i - 1].id.0 != x.id.0);
            assert(served_before(before[i - 1], x));
            if j < i - 1 {
                assert(served_before(before[j], before[i - 1]));
            }
        }
        assert forall|a: int, b: int| 0 <= a < b < keys@.len() implies served_before(
            #[trigger] keys@[a],
            #[trigger] keys@[b],
        ) by {
            if a != i && b != i {
                let a2 = if a < i {
                    a
                } else {
                    a - 1
                };
                let b2 = if b < i {
                    b
                } else {
                    b - 1
                };
                assert(served_before(before[a2], before[b2]));
            } else if a == i {
                assert(keys@[b] == before[b - 1]);
            } else {
                assert(keys@[a] == before[a]);
            }
        }
        assert forall|id: u64| #[trigger] has_key(keys@, id) <==> has_key(before, id) || id
            == x.id.0 by {
            if has_key(before, id) {
                let j = choose|j: int| 0 <= j < before.len() && (#[trigger] before[j]).id.0 == id;
                let j2 = if j < i {
                    j
                } else {
                    j + 1
                };
                assert(keys@[j2].id.0 == id);
            }
            if id == x.id.0 {
                assert(keys@[i as int].id.0 == id);
            }
            if has_key(keys@, id) && id != x.id.0 {
                let j = choose|j: int| 0 <= j < keys@.len() && (#[trigger] keys@[j]).id.0 == id;
                let j2 = if j < i {
                    j
                } else {
                    j - 1
                };
                assert(before[j2].id.0 == id);
            }
        }
        assert forall|j: int| 0 <= j < keys@.len() implies #[trigger] keys@[j] == x
            || before.contains(keys@[j]) by {
            if j != i {
                let j2 = if j < i {
                    j
                } else {
                    j - 1
                };
                assert(keys@[j] == before[j2]);
            }
        }
    }
}

/// The waiting tasks in the order of service.
pub fn serving_order(pending: &HashMap<u64, Task>, now: u64, aging_ms: u64) -> (r: Vec<u64>)
    requires
        numbered(waiting(pending@)),
    ensures
        is_serving_order(r@, waiting(pending@), now, aging_ms),
{
    let ghost tasks = waiting(pending@);
    let keys = wide_keys(pending);
    let mut out: Vec<TaskKey> = Vec::new();
    let mut k: usize = 0;
    while k < keys.len()
        invariant
            k <= keys@.len(),
            tasks == waiting(pending@),
            numbered(tasks),
            keys@.no_duplicates(),
            keys@.to_set() == pending@.dom(),
            in_order(out@),
            forall|j: int|
                0 <= j < out@.len() ==> #[trigger] out@[j] == key_at(
                    tasks[out@[j].id.0],
                    now,
                    aging_ms,
                ),
            forall|id: u64| #[trigger]
                has_key(out@, id) <==> exists|m: int| 0 <= m < k && #[trigger] keys@[m] == id,
        decreases keys@.len() - k,
    {
        let id = keys[k];
        proof {
            assert(keys@.to_set().contains(keys@[k as int]));
            assert(pending@.contains_key(id));
            assert(tasks.contains_key(id));
        }
        if let Some(t) = pending.get(&id) {
            let x = task_key(t, now, aging_ms);
            let ghost before = out@;
            proof {
                if has_key(before, id) {
                    let m = choose|m: int| 0 <= m < k && #[trigger] keys@[m] == id;
                    assert(keys@[m] != keys@[k as int]);
                }
            }
            insert_key(&mut out, x);
            proof {
                assert forall|j: int| 0 <= j < out@.len() implies #[trigger] out@[j] == key_at(
                    tasks[out@[j].id.0],
                    now,
                    aging_ms,
                ) by {
                    if out@[j] != x {
                        let j2 = before.index_of(out@[j]);
                        assert(before[j2] == out@[j]);
                    }
                }
                assert forall|y: u64| #[trigger]
                    has_key(out@, y) <==> exists|m: int|
                        0 <= m < k + 1 && #[trigger] keys@[m] == y by {
                    assert(has_key(out@, y) <==> has_key(before, y) || y == id);
                    if y == id {
                        assert(keys@[k as int] == y);
                    }
                }
            }
        }
        k = k + 1;
    }
    let mut order: Vec<u64> = Vec::new();
    let mut n: usize = 0;
    while n < out.len()
        invariant
            n <= out@.len(),
            order@.len() == n,
            forall|j: int| 0 <= j < n ==> #[trigger] order@[j] == out@[j].id.0,
        decreases out@.len() - n,
    {
        order.push(out[n].id.0);
        n = n + 1;
    }
    proof {
        assert forall|i: int, j: int| 0 <= i < j < order@.len() implies served_before(
            key_at(tasks[#[trigger] order@[i]], now, aging_ms),
            key_at(tasks[#[trigger] order@[j]], now, aging_ms),
        ) by {
            assert(served_before(out@[i], out@[j]));
        }
        assert forall|i: int, j: int|
            0 <= i < order@.len() && 0 <= j < order@.len() && i != j implies order@[i]
            != order@[j] by {
            if i < j {
                assert(served_before(out@[i], out@[j]));
            } else {
                assert(served_before(out@[j], out@[i]));
            }
        }
        assert forall|y: u64| order@.to_set().contains(y) <==> tasks.dom().contains(y) by {
            if order@.to_set().contains(y) {
                let j = order@.index_of(y);
                assert(order@[j] == y);
                assert(has_key(out@, y));
                let m = choose|m: int| 0 <= m < k && #[trigger] keys@[m] == y;
                assert(keys@.to_set().contains(y));
            }
            if tasks.dom().contains(y) {
                assert(keys@.to_set().contains(y));
                let m = keys@.index_of(y);
                assert(keys@[m] == y);
                assert(has_key(out@, y));
                let j = choose|j: int| 0 <= j < out@.len() && (#[trigger] out@[j]).id.0 == y;
                assert(order@[j] == y);
            }
        }
        assert(order@.to_set() =~= tasks.dom());
    }
    order
}

/// The order of service leaves no choice: two lists of the same waiting tasks are equal.
pub proof fn law_the_serving_order_is_unique(
    a: Seq<u64>,
    b: Seq<u64>,
    pending: Map<u64, TaskView>,
    now: u64,
    aging_ms: u64,
)
    requires
        is_serving_order(a, pending, now, aging_ms),
        is_serving_order(b, pending, now, aging_ms),
    ensures
        a == b,
    decreases a.len(),
{
    a.unique_seq_to_set();
    b.unique_seq_to_set();
    if a.len() > 0 {
        let x = a.last();
        let y = b.last();
        assert(a.to_set().contains(x));
        assert(b.to_set().contains(y));
        assert(b.contains(x));
        assert(a.contains(y));
        let i = a.index_of(y);
        let j = b.index_of(x);
        if x != y {
            assert(served_before(key_at(pending[a[i]], now, aging_ms), key_at(pending[x], now, aging_ms)));
            assert(served_before(key_at(pending[b[j]], now, aging_ms), key_at(pending[y], now, aging_ms)));
        }
        let rest = pending.remove(x);
        lemma_order_without_last(a, pending, now, aging_ms);
        lemma_order_without_last(b, pending, now, aging_ms);
        law_the_serving_order_is_unique(a.drop_last(), b.drop_last(), rest, now, aging_ms);
        assert(a =~= a.drop_last().push(x));
        assert(b =~= b.drop_last().push(y));
    } else {
        assert(a =~= b);
    }
}

/// Without its last task an order of service is one of the others.
proof fn lemma_order_without_last(
    a: Seq<u64>,
    pending: Map<u64, TaskView>,
    now: u64,
    aging_ms: u64,
)
    requires
        is_serving_order(a, pending, now, aging_ms),
        a.len() > 0,
    ensures
        is_serving_order(a.drop_last(), pending.remove(a.last()), now, aging_ms),
{
    let x = a.last();
    let c = a.drop_last();
    let rest = pending.remove(x);
    assert forall|i: int| 0 <= i < c.len() implies #[trigger] c[i] == a[i] && c[i] != x by {}
    assert forall|k: u64| c.to_set().contains(k) <==> rest.dom().contains(k) by {
        if c.to_set().contains(k) {
            let i = c.index_of(k);
            assert(a[i] == k);
            assert(a.to_set().contains(k));
            assert(c[i] != x);
        }
        if rest.dom().contains(k) {
            assert(a.to_set().contains(k));
            let i = a.index_of(k);
            assert(c[i] == k);
        }
    }
    assert(c.to_set() =~= rest.dom());
}

/// Nobody starves: a task that has waited for three ageing steps has the highest priority.
pub proof fn law_waiting_tasks_reach_the_top(t: TaskView, now: u64, aging_ms: u64)
    requires
        aging_ms > 0,
        now - t.created_at >= 3 * aging_ms,
    ensures
        t.priority_at(now, aging_ms) == TaskPriority::Urgent,
{
    let waited = (now - t.created_at) as nat;
    let step = aging_ms as nat;
    assert(waited / step >= 3) by (nonlinear_arith)
        requires
            waited >= 3 * step,
            step > 0,
    ;
}

// ---------------------------------------------------------------- the nearest robot
/// Whether a robot stands on a node of the network.
pub open spec fn located(map: RoadMapView, r: RobotView) -> bool {
    r.location.node is Some && map.nodes.contains_key((r.location.node->0).0)
}

/// How far a robot's node is from a point, squared.
pub open spec fn gap(map: RoadMapView, r: RobotView, target: Location) -> nat {
    squared_distance(map.nodes[(r.location.node->0).0], target)
}

/// Whether the robot at place `i` is the first of those nearest to a point.
pub open spec fn is_nearest(
    map: RoadMapView,
    robots: Seq<RobotView>,
    target: Location,
    i: int,
) -> bool {
    &&& 0 <= i < robots.len()
    &&& located(map, robots[i])
    &&& forall|j: int|
        0 <= j < robots.len() && located(map, #[trigger] robots[j]) ==> {
            &&& gap(map, robots[i], target) <= gap(map, robots[j], target)
            &&& j < i ==> gap(map, robots[i], target) < gap(map, robots[j], target)
        }
}

/// The place of the first of the robots nearest to a point, if any robot is on the network.
pub open spec fn nearest(map: RoadMapView, robots: Seq<RobotView>, target: Location) -> Option<
    int,
> {
    if exists|i: int| is_nearest(map, robots, target, i) {
        Some(choose|i: int| is_nearest(map, robots, target, i))
    } else {
        None
    }
}

/// Finds the robot nearest to `target`, in a straight line from the node that it stands on.
pub fn nearest_robot(map: &RoadMap, robots: &[RobotState], target: &Location) -> (r: Option<usize>)
    ensures
        match r {
            Some(i) => is_nearest(map@, robot_views(robots@), *target, i as int),
            None => forall|i: int|
                0 <= i < robots@.len() ==> !located(map@, #[trigger] robots@[i]@),
        },
        match r {
            Some(i) => nearest(map@, robot_views(robots@), *target) == Some(i as int),
            None => nearest(map@, robot_views(robots@), *target) is None,
        },
{
    let ghost all = robot_views(robots@);
    let mut best: Option<(usize, Location)> = None;
    let mut i: usize = 0;
    while i < robots.len()
        invariant
            i <= robots@.len(),
            all == robot_views(robots@),
            match best {
                Some((b, l)) => {
                    &&& b < i
                    &&& is_nearest(map@, all.take(i as int), *target, b as int)
                    &&& l == map@.nodes[(all[b as int].location.node->0).0]
                },
                None => forall|j: int| 0 <= j < i ==> !located(map@, #[trigger] all[j]),
            },
        decreases robots@.len() - i,
    {
        let ghost before = all.take(i as int);
        let ghost after = all.take(i + 1);
        proof {
            assert(all[i as int] == robots@[i as int]@);
            assert forall|j: int| 0 <= j < i implies #[trigger] before[j] == all[j] && after[j]
                == all[j] by {}
            assert(after[i as int] == all[i as int]);
        }
        let ghost earlier = best;
        if let Some(rn) = robots[i].location.node {
            if let Some(rl) = map.node_location(rn) {
                let closer = match best {
                    Some((_, l)) => rl.is_nearer(&l, target),
                    None => true,
                };
                if closer {
                    best = Some((i, *rl));
                }
            }
        }
        proof {
            if let Some((b, l)) = best {
                assert forall|j: int|
                    0 <= j < after.len() && located(map@, #[trigger] after[j]) implies {
                    &&& gap(map@, after[b as int], *target) <= gap(map@, after[j], *target)
                    &&& j < b ==> gap(map@, after[b as int], *target) < gap(
                        map@,
                        after[j],
                        *target,
                    )
                } by {
                    if j < i {
                        assert(before[j] == after[j]);
                    }
                }
                assert(is_nearest(map@, after, *target, b as int));
            }
        }
        i = i + 1;
    }
    proof {
        assert(all.take(i as int) =~= all);
        if let Some((b, l)) = best {
            lemma_nearest_unique(map@, all, *target, b as int);
        } else {
            assert forall|j: int| 0 <= j < robots@.len() implies !located(
                map@,
                #[trigger] robots@[j]@,
            ) by {
                assert(all[j] == robots@[j]@);
            }
        }
    }
    match best {
        Some((b, _)) => Some(b),
        None => None,
    }
}

proof fn lemma_nearest_unique(map: RoadMapView, robots: Seq<RobotView>, target: Location, i: int)
    requires
        is_nearest(map, robots, target, i),
    ensures
        nearest(map, robots, target) == Some(i),
{
    let j = choose|j: int| is_nearest(map, robots, target, j);
    assert(is_nearest(map, robots, target, j));
    assert(located(map, robots[i]));
    assert(located(map, robots[j]));
}

// ---------------------------------------------------------------- the route
/// The route of a task for a robot at `from`: the nodes, the end point and, for a transport,
/// the pickup node. A transport goes by way of its pickup to its drop-off, and the pickup
/// occurs once where the two legs meet. There is none if a leg cannot be planned.
pub open spec fn planned<P: Pathfinder>(
    pf: &P,
    map: RoadMapView,
    from: NodeId,
    task: TaskView,
) -> Option<(Seq<NodeId>, Location, Option<NodeId>)> {
    match task.kind {
        TaskKindView::Transport { pickup, dropoff } => match (pickup.node, dropoff.node) {
            (Some(pick), Some(drop)) => {
                let first = pf.route(map, from, pick);
                let second = pf.route(map, pick, drop);
                if first is None || (pick != drop && second is None) || !map.nodes.contains_key(
                    drop.0,
                ) {
                    None
                } else if pick == drop {
                    Some((first->0, map.nodes[drop.0], Some(pick)))
                } else {
                    Some((joined(first->0, second->0), map.nodes[drop.0], Some(pick)))
                }
            },
            _ => None,
        },
        _ => match task.goal() {
            Some(goal) => {
                let way = pf.route(map, from, goal);
                if way is None || !map.nodes.contains_key(goal.0) {
                    None
                } else {
                    Some((way->0, map.nodes[goal.0], None))
                }
            },
            None => None,
        },
    }
}

/// Two legs in one, without the first node of the second.
pub open spec fn joined(first: Seq<NodeId>, second: Seq<NodeId>) -> Seq<NodeId> {
    first + second.skip(
        if second.len() > 0 {
            1
        } else {
            0
        },
    )
}

/// Plans the complete route of a task for a robot at `from`.
pub fn plan_task_route<P: Pathfinder>(pf: &P, map: &RoadMap, from: NodeId, task: &Task) -> (r:
    Option<(Path, Location, Option<NodeId>)>)
    requires
        map@.wf(),
    ensures
        match r {
            Some((path, end, pickup)) => planned(pf, map@, from, task@) == Some(
                (path@, end, pickup),
            ),
            None => planned(pf, map@, from, task@) is None,
        },
{
    match &task.kind {
        TaskKind::Transport { pickup, dropoff } => {
            let pick = match pickup.node {
                Some(n) => n,
                None => {
                    return None;
                },
            };
            let drop = match dropoff.node {
                Some(n) => n,
                None => {
                    return None;
                },
            };
            let mut full = match pf.find_path(map, from, pick) {
                Some(p) => p,
                None => {
                    return None;
                },
            };
            if pick != drop {
                let leg = match pf.find_path(map, pick, drop) {
                    Some(p) => p,
                    None => {
                        return None;
                    },
                };
                full.extend_from(&leg, 1);
            }
            match map.node_location(drop) {
                Some(end) => Some((full, *end, Some(pick))),
                None => None,
            }
        },
        _ => {
            let goal = match task.goal_node() {
                Some(n) => n,
                None => {
                    return None;
                },
            };
            let path = match pf.find_path(map, from, goal) {
                Some(p) => p,
                None => {
                    return None;
                },
            };
            match map.node_location(goal) {
                Some(end) => Some((path, *end, None)),
                None => None,
            }
        },
    }
}

/// The node where a task ends.
pub open spec fn destination(task: TaskView) -> Option<NodeId> {
    match task.kind {
        TaskKindView::Transport { dropoff, .. } => dropoff.node,
        _ => task.goal(),
    }
}

/// Two routes that meet make one route.
pub proof fn lemma_joined_routes(
    map: RoadMapView,
    first: Seq<NodeId>,
    second: Seq<NodeId>,
    a: NodeId,
    b: NodeId,
    c: NodeId,
)
    requires
        is_route(map, first, a, b),
        is_route(map, second, b, c),
    ensures
        is_route(map, joined(first, second), a, c),
        joined(first, second).contains(b),
{
    let e1 = choose|e: Seq<Edge>| is_drive(map, first, e, a, b);
    let e2 = choose|e: Seq<Edge>| is_drive(map, second, e, b, c);
    let nodes = joined(first, second);
    let edges = e1 + e2;
    assert(nodes.len() == first.len() + second.len() - 1);
    assert forall|i: int| 0 <= i < first.len() implies #[trigger] nodes[i] == first[i] by {}
    assert forall|i: int| first.len() - 1 <= i < nodes.len() implies #[trigger] nodes[i]
        == second[i - (first.len() - 1)] by {}
    assert forall|i: int| 0 <= i < edges.len() implies {
        &&& map.out(nodes[i].0).contains(#[trigger] edges[i])
        &&& edges[i].to == nodes[i + 1]
    } by {
        if i < e1.len() {
            assert(edges[i] == e1[i]);
            assert(nodes[i] == first[i]);
            assert(nodes[i + 1] == first[i + 1]);
        } else {
            let m = i - e1.len();
            assert(edges[i] == e2[m]);
            assert(nodes[i] == second[m]);
            assert(nodes[i + 1] == second[m + 1]);
        }
    }
    assert(nodes.last() == second.last());
    assert(is_drive(map, nodes, edges, a, c));
    assert(nodes[first.len() - 1] == b);
}

/// A planned route leads along edges of the network from the robot to the place where the task
/// ends, and a transport passes its pickup.
pub proof fn law_planned_routes_lead_to_the_destination<P: Pathfinder>(
    pf: &P,
    map: RoadMapView,
    from: NodeId,
    task: TaskView,
)
    requires
        map.wf(),
        planned(pf, map, from, task) is Some,
    ensures
        ({
            let (path, end, pickup) = planned(pf, map, from, task)->0;
            &&& destination(task) is Some
            &&& is_route(map, path, from, destination(task)->0)
            &&& map.nodes.contains_key((destination(task)->0).0)
            &&& end == map.nodes[(destination(task)->0).0]
            &&& task.kind is Transport <==> pickup is Some
            &&& pickup matches Some(pick) ==> task.goal() == Some(pick) && path.contains(pick)
        }),
{
    match task.kind {
        TaskKindView::Transport { pickup, dropoff } => {
            let pick = pickup.node->0;
            let drop = dropoff.node->0;
            pf.lemma_finds_routes(map, from, pick);
            pf.lemma_finds_routes(map, pick, drop);
            let first = pf.route(map, from, pick)->0;
            if pick == drop {
                let e = choose|e: Seq<Edge>| is_drive(map, first, e, from, pick);
                assert(first[first.len() - 1] == pick);
            } else {
                lemma_joined_routes(
                    map,
                    first,
                    pf.route(map, pick, drop)->0,
                    from,
                    pick,
                    drop,
                );
            }
        },
        _ => {
            pf.lemma_finds_routes(map, from, task.goal()->0);
        },
    }
}

// ---------------------------------------------------------------- the victim of a deadlock
/// The rank of a robot's task; the lowest for a robot without one.
pub open spec fn task_rank(prio: Map<u64, TaskPriority>, id: RobotId) -> nat {
    if prio.contains_key(id.0) {
        prio[id.0].level()
    } else {
        0
    }
}

/// Whether `v` has to give way: no robot of the ring has a lower rank, nor the same rank and a
/// greater number.
pub open spec fn is_victim(ring: Seq<RobotId>, prio: Map<u64, TaskPriority>, v: RobotId) -> bool {
    &&& ring.contains(v)
    &&& forall|x: RobotId| #[trigger]
        ring.contains(x) ==> task_rank(prio, v) < task_rank(prio, x) || (task_rank(prio, v)
            == task_rank(prio, x) && x.0 <= v.0)
}

/// The robot of a ring that has to give way.
pub open spec fn victim(ring: Seq<RobotId>, prio: Map<u64, TaskPriority>) -> RobotId {
    choose|v: RobotId| is_victim(ring, prio, v)
}

/// At most one robot of a ring has to give way.
pub proof fn law_the_victim_is_unique(
    ring: Seq<RobotId>,
    prio: Map<u64, TaskPriority>,
    v: RobotId,
)
    requires
        is_victim(ring, prio, v),
    ensures
        victim(ring, prio) == v,
{
    let w = victim(ring, prio);
    assert(is_victim(ring, prio, w));
}

/// Picks the robot of a ring that has to give way: the one with the least important task, and
/// between equals the one with the greatest number.
pub fn pick_victim(cycle: &[RobotId], prio: &HashMap<u64, TaskPriority>) -> (r: Option<RobotId>)
    ensures
        r is None <==> cycle@.len() == 0,
        r matches Some(v) ==> is_victim(cycle@, prio@, v) && v == victim(cycle@, prio@),
{
    let mut best: Option<(RobotId, u8)> = None;
    let mut i: usize = 0;
    while i < cycle.len()
        invariant
            i <= cycle@.len(),
            best is None <==> i == 0,
            best matches Some((v, p)) ==> {
                &&& p == task_rank(prio@, v)
                &&& exists|j: int| 0 <= j < i && #[trigger] cycle@[j] == v
                &&& forall|j: int|
                    0 <= j < i ==> p < task_rank(prio@, #[trigger] cycle@[j]) || (p == task_rank(
                        prio@,
                        cycle@[j],
                    ) && cycle@[j].0 <= v.0)
            },
        decreases cycle@.len() - i,
    {
        let x = cycle[i];
        let p: u8 = match prio.get(&x.0) {
            Some(p) => p.rank(),
            None => TaskPriority::Low.rank(),
        };
        assert(cycle@[i as int] == x);
        let better = match best {
            Some((v, bp)) => p < bp || (p == bp && x.0 >= v.0),
            None => true,
        };
        if better {
            best = Some((x, p));
        }
        i = i + 1;
    }
    match best {
        Some((v, _)) => {
            proof {
                assert forall|x: RobotId| #[trigger] cycle@.contains(x) implies task_rank(prio@, v)
                    < task_rank(prio@, x) || (task_rank(prio@, v) == task_rank(prio@, x) && x.0
                    <= v.0) by {
                    let j = cycle@.index_of(x);
                    assert(cycle@[j] == x);
                }
                assert(is_victim(cycle@, prio@, v));
                law_the_victim_is_unique(cycle@, prio@, v);
            }
            Some(v)
        },
        None => None,
    }
}

} // verus!
