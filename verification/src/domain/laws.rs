//! What holds of the road network, the robots and the tasks on their own.

use super::map::{
    covers_distance, distance, edges_along, is_bounding_box, lists_nodes, squared_distance, Edge,
    Location, NodeId, RoadMapView,
};
use super::robot::{Battery, RobotId, RobotStatus, RobotView};
use super::task::{
    key_order, TaskId, TaskKey, TaskKindView, TaskPriority, TaskStatus, TaskView,
};
use crate::text::{
    decimal, law_decimals_stand_for_their_number, law_leading_zeros_do_not_count, number_of,
    pad_left, repeated,
};
use std::cmp::Ordering;
use vstd::prelude::*;

verus! {

// ---------------------------------------------------------------- priorities
/// The four priorities are told apart by their levels, from 0 for the lowest to 3 for the
/// highest; every level from 3 on is that of the highest.
pub proof fn law_levels_tell_priorities_apart(p: TaskPriority, level: nat)
    ensures
        TaskPriority::Low.level() == 0,
        TaskPriority::Normal.level() == 1,
        TaskPriority::High.level() == 2,
        TaskPriority::Urgent.level() == 3,
        TaskPriority::of_level(p.level()) == p,
        TaskPriority::of_level(level).level() == (if level < 3 {
            level
        } else {
            3
        }),
{
}

/// A task ages by one level with every full step that it waits, until it has the highest
/// priority. Before the first full step it has its own priority, and so it always has where
/// the step is 0.
pub proof fn law_every_step_of_waiting_raises_a_task(t: TaskView, waited_ms: nat, aging_ms: nat)
    ensures
        t.aged(waited_ms, 0) == t.priority,
        waited_ms < aging_ms ==> t.aged(waited_ms, aging_ms) == t.priority,
        aging_ms > 0 ==> t.aged(waited_ms + aging_ms, aging_ms).level() == (if t.aged(
            waited_ms,
            aging_ms,
        ).level() < 3 {
            t.aged(waited_ms, aging_ms).level() + 1
        } else {
            3
        }),
{
    if aging_ms > 0 {
        let q = waited_ms / aging_ms;
        let r = waited_ms % aging_ms;
        vstd::arithmetic::div_mod::lemma_fundamental_div_mod(waited_ms as int, aging_ms as int);
        assert((q + 1) * aging_ms == aging_ms * q + aging_ms) by (nonlinear_arith);
        vstd::arithmetic::div_mod::lemma_fundamental_div_mod_converse(
            (waited_ms + aging_ms) as int,
            aging_ms as int,
            (q + 1) as int,
            r as int,
        );
        if waited_ms < aging_ms {
            assert(q == 0) by (nonlinear_arith)
                requires
                    q == waited_ms / aging_ms,
                    0 <= waited_ms < aging_ms,
            ;
        }
    }
}

/// The longer a task waits, the higher its priority; it never falls below the task's own.
pub proof fn law_ageing_never_lowers_a_task(t: TaskView, short: nat, long: nat, aging_ms: nat)
    requires
        short <= long,
    ensures
        t.priority.level() <= t.aged(short, aging_ms).level() <= t.aged(long, aging_ms).level(),
{
    if aging_ms > 0 {
        vstd::arithmetic::div_mod::lemma_div_is_ordered(
            short as int,
            long as int,
            aging_ms as int,
        );
        assert(short / aging_ms >= 0) by (nonlinear_arith)
            requires
                aging_ms > 0,
        ;
    }
}

/// What counts for a task's priority is the time since its creation; before that it has not
/// waited.
pub proof fn law_waiting_begins_with_creation(t: TaskView, now: u64, aging_ms: u64)
    ensures
        now <= t.created_at ==> t.priority_at(now, aging_ms) == t.priority,
        now >= t.created_at ==> t.priority_at(now, aging_ms) == t.aged(
            (now - t.created_at) as nat,
            aging_ms as nat,
        ),
{
    if now <= t.created_at && aging_ms > 0 {
        assert(0nat / (aging_ms as nat) == 0) by (nonlinear_arith)
            requires
                aging_ms > 0,
        ;
    }
}

// ---------------------------------------------------------------- the order of tasks
/// Of two tasks the one with the higher priority comes first, whenever they were created, and
/// between equal priorities the one that was created earlier.
pub proof fn law_priority_comes_before_age(a: TaskKey, b: TaskKey)
    ensures
        a.priority == TaskPriority::Urgent && b.priority != TaskPriority::Urgent ==> key_order(a, b)
            == Ordering::Greater,
        a.priority == TaskPriority::High && (b.priority == TaskPriority::Low || b.priority
            == TaskPriority::Normal) ==> key_order(a, b) == Ordering::Greater,
        a.priority == TaskPriority::Normal && b.priority == TaskPriority::Low ==> key_order(a, b)
            == Ordering::Greater,
        a.priority == b.priority && a.created_at < b.created_at ==> key_order(a, b)
            == Ordering::Greater,
        a.priority == b.priority && a.created_at == b.created_at ==> key_order(a, b)
            == Ordering::Equal,
        key_order(a, b) == Ordering::Greater <==> key_order(b, a) == Ordering::Less,
{
}

// ---------------------------------------------------------------- tasks
/// The first node of a transport is its pickup, that of a charging trip the charger, and that
/// of a patrol the first waypoint.
pub proof fn law_a_task_begins_at_its_first_node(t: TaskView)
    ensures
        t.kind matches TaskKindView::Transport { pickup, .. } ==> t.goal() == pickup.node,
        t.kind matches TaskKindView::Charge { charger } ==> t.goal() == Some(charger),
        t.kind matches TaskKindView::Patrol { waypoints } ==> {
            &&& waypoints.len() == 0 ==> t.goal() is None
            &&& waypoints.len() > 0 ==> t.goal() == Some(waypoints[0])
        },
{
}

/// A new task waits, belongs to nobody, and has never been tried.
pub proof fn law_new_tasks_wait(
    id: TaskId,
    kind: TaskKindView,
    priority: TaskPriority,
    created_at: u64,
)
    ensures
        ({
            let t = TaskView::fresh(id, kind, priority, created_at);
            &&& t.id == id
            &&& t.kind == kind
            &&& t.priority == priority
            &&& t.created_at == created_at
            &&& t.status == TaskStatus::Pending
            &&& t.assigned_robot is None
            &&& t.assigned_at == 0
            &&& t.retry_count == 0
        }),
{
}

// ---------------------------------------------------------------- robots
/// A robot comes online idle and free, where it says that it is, and heard of now.
pub proof fn law_robots_come_online_free(
    id: RobotId,
    location: Location,
    battery: Battery,
    now: u64,
)
    ensures
        ({
            let r = RobotView::onboard(id, location, battery, now);
            &&& r.id == id
            &&& r.location == location
            &&& r.battery == battery
            &&& r.status == RobotStatus::Idle
            &&& r.current_task is None
            &&& r.target is None
            &&& r.route.len() == 0
            &&& !r.carrying
            &&& r.last_heartbeat == now
            &&& r.last_change_ms == now
        }),
{
}

/// A robot is silent from the moment on at which its last heartbeat is older than the timeout,
/// and each heartbeat ends its silence.
pub proof fn law_silence_begins_after_the_timeout(r: RobotView, now: u64, timeout_ms: u64)
    ensures
        r.stale(now, timeout_ms) <==> now > r.last_heartbeat + timeout_ms,
        !r.stale(r.last_heartbeat, timeout_ms),
{
}

/// A charge is low below 20 percent and full from 95 percent on.
pub proof fn law_low_and_full_charges(b: Battery)
    ensures
        b.low() <==> b.0 < 20,
        b.full() <==> b.0 >= 95,
        Battery::LOW_THRESHOLD == 20,
        Battery::FULL_THRESHOLD == 95,
{
}

// ---------------------------------------------------------------- distances
/// The square of a distance is the sum of the squares of the differences in both coordinates;
/// a distance is that of a right-angled triangle, rounded down, and is the same both ways.
pub proof fn law_distances_are_euclidean(a: Location, b: Location)
    ensures
        squared_distance(a, b) == (a.x - b.x) * (a.x - b.x) + (a.y - b.y) * (a.y - b.y),
        squared_distance(a, b) == squared_distance(b, a),
        squared_distance(a, b) == 0 <==> a.x == b.x && a.y == b.y,
        distance(a, b) * distance(a, b) <= squared_distance(a, b) < (distance(a, b) + 1) * (distance(
            a,
            b,
        ) + 1),
{
    let (dx, dy) = (a.x - b.x, a.y - b.y);
    let (ex, ey) = (b.x - a.x, b.y - a.y);
    assert(dx * dx >= 0 && dy * dy >= 0) by (nonlinear_arith);
    assert(dx * dx == ex * ex && dy * dy == ey * ey) by (nonlinear_arith)
        requires
            dx == -ex,
            dy == -ey,
    ;
    assert(dx * dx == 0 <==> dx == 0) by (nonlinear_arith);
    assert(dy * dy == 0 <==> dy == 0) by (nonlinear_arith);
    super::map::lemma_floor_sqrt(squared_distance(a, b));
}

// ---------------------------------------------------------------- the network
/// A node that is set is where it was set, and nothing else changes.
pub proof fn law_setting_a_node_changes_that_node(map: RoadMapView, id: NodeId, loc: Location, n: u32)
    ensures
        map.with_node(id, loc).nodes.contains_key(id.0),
        map.with_node(id, loc).nodes[id.0] == loc,
        n != id.0 ==> (map.with_node(id, loc).nodes.contains_key(n) <==> map.nodes.contains_key(n)),
        n != id.0 && map.nodes.contains_key(n) ==> map.with_node(id, loc).nodes[n] == map.nodes[n],
        map.with_node(id, loc).edges == map.edges,
{
}

/// A new edge leaves the node that it starts from, behind the edges that were there before. It
/// leads one way only: nothing else leaves another node than before.
pub proof fn law_a_new_edge_leaves_its_start(map: RoadMapView, edge: Edge, n: u32)
    ensures
        map.with_edge(edge).out(edge.from.0) == map.out(edge.from.0).push(edge),
        n != edge.from.0 ==> map.with_edge(edge).out(n) == map.out(n),
        map.with_edge(edge).edges.contains_key(edge.from.0),
        map.with_edge(edge).edges.contains_key(edge.to.0),
        map.with_edge(edge).nodes == map.nodes,
{
}

/// An edge covers its distance if and only if it costs no less than the straight line between
/// its ends.
pub proof fn law_an_edge_covers_its_distance(map: RoadMapView, n: u32, edge: Edge)
    requires
        map.nodes.contains_key(n),
        map.nodes.contains_key(edge.to.0),
    ensures
        ({
            let (a, b) = (map.nodes[n], map.nodes[edge.to.0]);
            covers_distance(map, n, edge) <==> (a.x - b.x) * (a.x - b.x) + (a.y - b.y) * (a.y
                - b.y) <= edge.cost * edge.cost
        }),
{
    law_distances_are_euclidean(map.nodes[n], map.nodes[edge.to.0]);
}

// ---------------------------------------------------------------- names
/// The name of a robot is a prefix and its number, with zeros in front up to four digits; so
/// the number can be read off the name.
pub proof fn law_robot_names_tell_the_number(id: RobotId)
    ensures
        "ROBOT-"@.is_prefix_of(id.name()),
        id.name().len() >= 10,
        number_of(id.name().skip(6)) == id.0,
{
    reveal_strlit("ROBOT-");
    let digits = decimal(id.0 as nat);
    law_decimals_stand_for_their_number(id.0 as nat);
    law_leading_zeros_do_not_count(
        digits,
        if digits.len() < 4 {
            (4 - digits.len()) as nat
        } else {
            0
        },
    );
    assert(id.name().skip(6) =~= pad_left(digits, 4, '0'));
    assert(repeated('0', 4 - digits.len()) =~= repeated(
        '0',
        if digits.len() < 4 {
            4 - digits.len()
        } else {
            0
        },
    ));
}

/// The name of a task is a prefix and its number, with zeros in front up to six digits; so the
/// number can be read off the name.
pub proof fn law_task_names_tell_the_number(id: TaskId)
    ensures
        "TASK-"@.is_prefix_of(id.name()),
        id.name().len() >= 11,
        number_of(id.name().skip(5)) == id.0,
{
    reveal_strlit("TASK-");
    let digits = decimal(id.0 as nat);
    law_decimals_stand_for_their_number(id.0 as nat);
    law_leading_zeros_do_not_count(
        digits,
        if digits.len() < 6 {
            (6 - digits.len()) as nat
        } else {
            0
        },
    );
    assert(id.name().skip(5) =~= pad_left(digits, 6, '0'));
    assert(repeated('0', 6 - digits.len()) =~= repeated(
        '0',
        if digits.len() < 6 {
            6 - digits.len()
        } else {
            0
        },
    ));
}

/// A description begins with what kind of task it is, and names the nodes of a transport, the
/// charger, or the number of waypoints.
pub proof fn law_descriptions_name_the_nodes(t: TaskView)
    ensures
        t.kind matches TaskKindView::Transport { pickup, dropoff } ==> {
            let a = if pickup.node is Some {
                decimal((pickup.node->0).0 as nat)
            } else {
                "?"@
            };
            let b = if dropoff.node is Some {
                decimal((dropoff.node->0).0 as nat)
            } else {
                "?"@
            };
            &&& ("搬运 N"@ + a + " → N"@).is_prefix_of(t.description())
            &&& t.description().skip((a.len() + 8) as int) == b
        },
        t.kind matches TaskKindView::Charge { charger } ==> t.description().take(4) == "回充 N"@
            && t.description().skip(4) == decimal(charger.0 as nat),
        t.kind matches TaskKindView::Patrol { waypoints } ==> (("巡检 "@ + decimal(
            waypoints.len(),
        )).is_prefix_of(t.description()) && t.description().len() == 7 + decimal(
            waypoints.len(),
        ).len()),
{
    reveal_strlit("搬运 N");
    reveal_strlit(" → N");
    reveal_strlit("回充 N");
    reveal_strlit("巡检 ");
    reveal_strlit(" 个航点");
    match t.kind {
        TaskKindView::Transport { pickup, dropoff } => {
            let a = if pickup.node is Some {
                decimal((pickup.node->0).0 as nat)
            } else {
                "?"@
            };
            let b = if dropoff.node is Some {
                decimal((dropoff.node->0).0 as nat)
            } else {
                "?"@
            };
            assert(t.description().skip((a.len() + 8) as int) =~= b);
        },
        TaskKindView::Charge { charger } => {
            assert(t.description().take(4) =~= "回充 N"@);
            assert(t.description().skip(4) =~= decimal(charger.0 as nat));
        },
        TaskKindView::Patrol { .. } => {},
    }
}

// ---------------------------------------------------------------- lists and boxes
/// A list of nodes holds each node of the network at one place, with its point, and no other.
pub proof fn law_lists_of_nodes_are_complete(
    list: Seq<(NodeId, Location)>,
    nodes: Map<u32, Location>,
    n: u32,
) -> (i: int)
    requires
        lists_nodes(list, nodes),
    ensures
        nodes.contains_key(n) ==> 0 <= i < list.len() && list[i] == (NodeId(n), nodes[n]),
        !nodes.contains_key(n) ==> forall|j: int|
            0 <= j < list.len() ==> (#[trigger] list[j]).0 != NodeId(n),
        forall|j: int|
            0 <= j < list.len() && j != i && nodes.contains_key(n) ==> (#[trigger] list[j]).0
                != NodeId(n),
{
    if nodes.contains_key(n) {
        choose|i: int| 0 <= i < list.len() && (#[trigger] list[i]).0.0 == n
    } else {
        0
    }
}

/// The box around the nodes holds every node, and is the smallest one that does.
pub proof fn law_a_box_is_no_larger_than_it_has_to_be(
    nodes: Map<u32, Location>,
    min_x: int,
    min_y: int,
    max_x: int,
    max_y: int,
    a: int,
    b: int,
    c: int,
    d: int,
)
    requires
        is_bounding_box(nodes, min_x, min_y, max_x, max_y),
    ensures
        forall|n: u32| #[trigger]
            nodes.contains_key(n) ==> min_x <= nodes[n].x <= max_x && min_y <= nodes[n].y <= max_y,
        (forall|n: u32| #[trigger]
            nodes.contains_key(n) ==> a <= nodes[n].x <= c && b <= nodes[n].y <= d) ==> a <= min_x
            && b <= min_y && max_x <= c && max_y <= d,
{
}

/// The edges along a walk are those of the nodes on it, all of them and in that order.
pub proof fn law_edges_are_listed_node_by_node(edges: Map<u32, Seq<Edge>>, walk: Seq<u32>, n: u32)
    ensures
        edges_along(edges, Seq::empty()).len() == 0,
        edges_along(edges, walk.push(n)) == edges_along(edges, walk) + edges[n],
{
    assert(walk.push(n).drop_last() =~= walk);
}

} // verus!
