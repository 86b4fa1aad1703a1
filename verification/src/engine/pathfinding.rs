//! Route search over the road network.
//!
//! [`Pathfinder`] is the interface that the scheduler plans with; [`AStarPathfinder`]
//! implements it by A* search, and finds cheapest routes.

use super::open_list::{
    entry_le, is_least, least, lemma_least_unique, OpenEntry, OpenList,
};
use crate::domain::map::{
    costs_cover_distances, distance, floor_sqrt, lemma_floor_sqrt, squared_distance, RoadMapView,
};
use crate::domain::{Edge, Location, NodeId, Path, RoadMap};
use std::collections::HashMap;
use vstd::multiset::Multiset;
use vstd::prelude::*;

verus! {

broadcast use vstd::std_specs::hash::group_hash_axioms;

// ---------------------------------------------------------------- routes
/// Whether each of `edges` leads from one of `nodes` to the next.
pub open spec fn joins(map: RoadMapView, nodes: Seq<NodeId>, edges: Seq<Edge>) -> bool {
    &&& nodes.len() == edges.len() + 1
    &&& forall|i: int|
        0 <= i < edges.len() ==> {
            &&& map.out(nodes[i].0).contains(#[trigger] edges[i])
            &&& edges[i].to == nodes[i + 1]
        }
}

/// The cost of driving along `edges`.
pub open spec fn cost_of(edges: Seq<Edge>) -> nat
    decreases edges.len(),
{
    if edges.len() == 0 {
        0
    } else {
        cost_of(edges.drop_last()) + edges.last().cost as nat
    }
}

/// Whether `nodes`, driven along `edges`, leads from `start` to `goal`.
pub open spec fn is_drive(
    map: RoadMapView,
    nodes: Seq<NodeId>,
    edges: Seq<Edge>,
    start: NodeId,
    goal: NodeId,
) -> bool {
    &&& joins(map, nodes, edges)
    &&& nodes[0] == start
    &&& nodes.last() == goal
}

/// Whether `nodes` is a route from `start` to `goal`: each node is joined to the next.
pub open spec fn is_route(
    map: RoadMapView,
    nodes: Seq<NodeId>,
    start: NodeId,
    goal: NodeId,
) -> bool {
    exists|edges: Seq<Edge>| is_drive(map, nodes, edges, start, goal)
}

/// Whether there is a route from `start` to `goal`.
pub open spec fn reachable(map: RoadMapView, start: NodeId, goal: NodeId) -> bool {
    exists|nodes: Seq<NodeId>| is_route(map, nodes, start, goal)
}

/// Whether `nodes` is a route from `start` to `goal` than which none is cheaper.
pub open spec fn is_cheapest_route(
    map: RoadMapView,
    nodes: Seq<NodeId>,
    start: NodeId,
    goal: NodeId,
) -> bool {
    exists|edges: Seq<Edge>|
        {
            &&& #[trigger] is_drive(map, nodes, edges, start, goal)
            &&& forall|nodes2: Seq<NodeId>, edges2: Seq<Edge>| #[trigger]
                is_drive(map, nodes2, edges2, start, goal) ==> cost_of(edges) <= cost_of(edges2)
        }
}

// ---------------------------------------------------------------- the search
/// The state of a search.
#[verifier::ext_equal]
pub struct SearchState {
    /// The least known cost of reaching a node.
    pub g: Map<u32, u128>,
    /// The node before a node on the cheapest known way to it.
    pub from: Map<u32, u32>,
    /// The entries to be looked at.
    pub open: Multiset<OpenEntry>,
    /// When the cost of a node was last written.
    pub stamp: Map<u32, nat>,
    /// How many times a cost was written.
    pub clock: nat,
}

/// The estimated cost from a node to the goal: the straight line. It is 0 for a node without
/// coordinates, and everywhere on a network with an edge that is cheaper than its straight
/// line, where the distance can be more than a route costs.
pub open spec fn estimate(map: RoadMapView, node: u32, goal: NodeId) -> nat {
    if costs_cover_distances(map) && map.nodes.contains_key(node) {
        distance(map.nodes[node], map.nodes[goal.0])
    } else {
        0
    }
}

/// The open entry of a node that is reached at the cost `g`.
pub open spec fn entry_for(map: RoadMapView, goal: NodeId, node: u32, g: u128) -> OpenEntry {
    ((g + estimate(map, node, goal)) as u128, node)
}

/// The state in which a search begins.
pub open spec fn search_start(map: RoadMapView, start: NodeId, goal: NodeId) -> SearchState {
    SearchState {
        g: Map::empty().insert(start.0, 0u128),
        from: Map::empty(),
        open: Multiset::empty().insert(entry_for(map, goal, start.0, 0)),
        stamp: Map::empty().insert(start.0, 0nat),
        clock: 1,
    }
}

/// Whether going to `edge.to` along `edge`, at the cost `g` of its start, is cheaper than
/// every known way.
pub open spec fn improves(s: SearchState, edge: Edge, g: u128) -> bool {
    !s.g.contains_key(edge.to.0) || g + edge.cost < s.g[edge.to.0]
}

/// The state after one edge out of `node`, which is reached at the cost `g`, was tried.
pub open spec fn relax(
    map: RoadMapView,
    goal: NodeId,
    s: SearchState,
    node: u32,
    g: u128,
    edge: Edge,
) -> SearchState {
    if improves(s, edge, g) {
        let t = (g + edge.cost) as u128;
        SearchState {
            g: s.g.insert(edge.to.0, t),
            from: s.from.insert(edge.to.0, node),
            open: s.open.insert(entry_for(map, goal, edge.to.0, t)),
            stamp: s.stamp.insert(edge.to.0, s.clock),
            clock: s.clock + 1,
        }
    } else {
        s
    }
}

/// The state after the first `k` edges out of `node` were tried.
pub open spec fn relax_first(
    map: RoadMapView,
    goal: NodeId,
    s: SearchState,
    node: u32,
    k: nat,
) -> SearchState
    decreases k,
{
    if k == 0 {
        s
    } else {
        let t = relax_first(map, goal, s, node, (k - 1) as nat);
        relax(map, goal, t, node, s.g[node], map.out(node)[k - 1])
    }
}

/// The state after the entry `x` was taken out and its node's edges were tried.
pub open spec fn expand(
    map: RoadMapView,
    goal: NodeId,
    s: SearchState,
    x: OpenEntry,
) -> SearchState {
    let t = SearchState { open: s.open.remove(x), ..s };
    relax_first(map, goal, t, x.1, map.out(x.1).len())
}

/// The way to `node` that the state holds, from the start of the search on.
pub open spec fn way_to(s: SearchState, node: u32) -> Seq<NodeId>
    decreases s.g[node], s.stamp[node],
{
    if s.from.contains_key(node) {
        let p = s.from[node];
        if s.g[p] < s.g[node] || (s.g[p] == s.g[node] && s.stamp[p] < s.stamp[node]) {
            way_to(s, p).push(NodeId(node))
        } else {
            seq![NodeId(node)]
        }
    } else {
        seq![NodeId(node)]
    }
}

/// What a search returns that has come to the state `s` and takes at most `fuel` more
/// nodes; nothing if it would take more.
pub open spec fn search(
    map: RoadMapView,
    goal: NodeId,
    s: SearchState,
    fuel: nat,
) -> Option<Option<Seq<NodeId>>>
    decreases fuel,
{
    let x = least(s.open);
    if s.open.len() == 0 {
        Some(None)
    } else if x.1 == goal.0 {
        Some(Some(way_to(s, goal.0)))
    } else if !map.edges.contains_key(x.1) {
        Some(None)
    } else if fuel == 0 {
        None
    } else {
        search(map, goal, expand(map, goal, s, x), (fuel - 1) as nat)
    }
}

/// The route that A* search finds: it always goes on with the least entry of the open
/// list, and ends when that is the goal's or when nothing is left.
pub open spec fn a_star(map: RoadMapView, start: NodeId, goal: NodeId) -> Option<Seq<NodeId>> {
    if start == goal {
        Some(seq![start])
    } else if !map.nodes.contains_key(goal.0) {
        None
    } else {
        let s = search_start(map, start, goal);
        let fuel = choose|fuel: nat| search(map, goal, s, fuel) is Some;
        search(map, goal, s, fuel)->0
    }
}

// ---------------------------------------------------------------- sums over all nodes
/// The sum of `f` over the node numbers below `n`.
spec fn sum_below(f: spec_fn(u32) -> nat, n: nat) -> nat
    decreases n,
{
    if n == 0 {
        0
    } else {
        sum_below(f, (n - 1) as nat) + f((n - 1) as u32)
    }
}

/// The number of node numbers.
spec fn node_space() -> nat {
    0x1_0000_0000
}

/// If two functions differ at one place, their sums differ by the same amount.
proof fn lemma_sum_change(f: spec_fn(u32) -> nat, f2: spec_fn(u32) -> nat, v: u32, n: nat)
    requires
        forall|w: u32| w != v ==> #[trigger] f(w) == f2(w),
        n <= node_space(),
    ensures
        v < n ==> sum_below(f2, n) + f(v) == sum_below(f, n) + f2(v),
        v >= n ==> sum_below(f2, n) == sum_below(f, n),
    decreases n,
{
    if n > 0 {
        lemma_sum_change(f, f2, v, (n - 1) as nat);
        let last = (n - 1) as u32;
        if last != v {
            assert(f(last) == f2(last));
        }
    }
}

/// A sum of at most ones is at most the number of its terms.
proof fn lemma_sum_of_ones(f: spec_fn(u32) -> nat, n: nat)
    requires
        forall|w: u32| #[trigger] f(w) <= 1,
        n <= node_space(),
    ensures
        sum_below(f, n) <= n,
    decreases n,
{
    if n > 0 {
        lemma_sum_of_ones(f, (n - 1) as nat);
    }
}

/// One for each node that the search has reached.
spec fn reached(s: SearchState) -> spec_fn(u32) -> nat {
    |v: u32|
        if s.g.contains_key(v) {
            1nat
        } else {
            0nat
        }
}

/// How many nodes the search has reached.
spec fn reached_count(s: SearchState) -> nat {
    sum_below(reached(s), node_space())
}

/// A bound on the cost of every node that the search has not reached yet.
spec fn far() -> nat {
    0x40_0000_0000_0000_0000_0000_0000
}

/// The known cost of each node.
spec fn known_cost(s: SearchState) -> spec_fn(u32) -> nat {
    |v: u32|
        if s.g.contains_key(v) {
            s.g[v] as nat
        } else {
            far()
        }
}

/// What is left for the search to improve: it shrinks with each improvement.
spec fn potential(s: SearchState) -> nat {
    sum_below(known_cost(s), node_space())
}

// ---------------------------------------------------------------- invariant of the search
/// The node before `v` on the known way to it comes earlier than `v`, and an edge leads
/// from it to `v`.
spec fn from_ok(map: RoadMapView, s: SearchState, v: u32) -> bool {
    let p = s.from[v];
    &&& s.g.contains_key(p)
    &&& exists|i: int|
        0 <= i < map.out(p).len() && {
            let e = #[trigger] map.out(p)[i];
            &&& e.to.0 == v
            &&& (s.g[p] + e.cost < s.g[v] || (s.g[p] + e.cost == s.g[v] && s.stamp[p] < s.stamp[v]))
        }
}

/// The first `k` edges out of `v` offer no improvement.
spec fn tried(map: RoadMapView, s: SearchState, v: u32, k: int) -> bool {
    forall|i: int|
        0 <= i < k && i < map.out(v).len() ==> {
            let e = #[trigger] map.out(v)[i];
            s.g.contains_key(e.to.0) && s.g[e.to.0] <= s.g[v] + e.cost
        }
}

/// What holds at every point of a search, but for the node `busy`, of whose edges the first
/// `k` have been tried.
spec fn search_inv(
    map: RoadMapView,
    start: NodeId,
    goal: NodeId,
    s: SearchState,
    busy: Option<(u32, int)>,
) -> bool {
    &&& s.g.contains_key(start.0)
    &&& s.g[start.0] == 0
    &&& forall|v: u32| #[trigger] s.g.contains_key(v) && v != start.0 ==> map.edges.contains_key(v)
    &&& forall|v: u32| #[trigger]
        s.from.contains_key(v) <==> s.g.contains_key(v) && v != start.0
    &&& forall|v: u32| #[trigger] s.from.contains_key(v) ==> from_ok(map, s, v)
    &&& forall|v: u32| #[trigger] s.g.contains_key(v) ==> s.stamp.contains_key(v)
    &&& forall|v: u32| #[trigger] s.g.contains_key(v) ==> s.stamp[v] < s.clock
    &&& forall|v: u32| #[trigger]
        s.g.contains_key(v) ==> s.g[v] <= reached_count(s) * 0x1_0000_0000_0000_0000
    &&& forall|x: OpenEntry| #[trigger]
        s.open.contains(x) ==> s.g.contains_key(x.1) && x.0 >= s.g[x.1] + estimate(map, x.1, goal)
    &&& forall|v: u32| #[trigger]
        s.g.contains_key(v) ==> {
            ||| s.open.contains(entry_for(map, goal, v, s.g[v]))
            ||| v != goal.0 && tried(
                map,
                s,
                v,
                match busy {
                    Some((b, k)) => if v == b {
                        k
                    } else {
                        map.out(v).len() as int
                    },
                    None => map.out(v).len() as int,
                },
            )
        }
}

/// The reached nodes are no more than there are numbers, and so every cost is small.
proof fn lemma_costs_small(
    map: RoadMapView,
    start: NodeId,
    goal: NodeId,
    s: SearchState,
    busy: Option<(u32, int)>,
    v: u32,
)
    requires
        search_inv(map, start, goal, s, busy),
        s.g.contains_key(v),
    ensures
        s.g[v] <= 0x1_0000_0000_0000_0000_0000_0000,
        s.g[v] + estimate(map, v, goal) < far(),
        estimate(map, v, goal) < 0x2_0000_0000_0000_0000,
{
    lemma_sum_of_ones(reached(s), node_space());
    let count = reached_count(s);
    assert(count * 0x1_0000_0000_0000_0000 <= 0x1_0000_0000 * 0x1_0000_0000_0000_0000)
        by (nonlinear_arith)
        requires
            count <= 0x1_0000_0000,
    ;
    lemma_estimate_small(map, v, goal);
}

/// An estimate is less than 2^65 units.
proof fn lemma_estimate_small(map: RoadMapView, v: u32, goal: NodeId)
    ensures
        estimate(map, v, goal) < 0x2_0000_0000_0000_0000,
{
    if costs_cover_distances(map) && map.nodes.contains_key(v) {
        let a = map.nodes[v];
        let b = map.nodes[goal.0];
        let d = squared_distance(a, b);
        let dx = a.x - b.x;
        let dy = a.y - b.y;
        assert(0 <= dx * dx <= 0x1_0000_0000_0000_0000 * 0x1_0000_0000_0000_0000) by (nonlinear_arith)
            requires
                -0x1_0000_0000_0000_0000 <= dx <= 0x1_0000_0000_0000_0000,
        ;
        assert(0 <= dy * dy <= 0x1_0000_0000_0000_0000 * 0x1_0000_0000_0000_0000) by (nonlinear_arith)
            requires
                -0x1_0000_0000_0000_0000 <= dy <= 0x1_0000_0000_0000_0000,
        ;
        lemma_floor_sqrt(d);
        let r = floor_sqrt(d);
        if r >= 0x2_0000_0000_0000_0000 {
            assert(r * r >= 0x2_0000_0000_0000_0000 * 0x2_0000_0000_0000_0000) by (nonlinear_arith)
                requires
                    r >= 0x2_0000_0000_0000_0000,
            ;
        }
    }
}

/// A search begins in a state with the invariant.
proof fn lemma_start_inv(map: RoadMapView, start: NodeId, goal: NodeId)
    requires
        map.wf(),
        start != goal,
    ensures
        search_inv(map, start, goal, search_start(map, start, goal), None),
{
    let s = search_start(map, start, goal);
    lemma_estimate_small(map, start.0, goal);
    assert(s.open.contains(entry_for(map, goal, start.0, 0)));
    assert forall|x: OpenEntry| #[trigger] s.open.contains(x) implies x == entry_for(
        map,
        goal,
        start.0,
        0,
    ) by {}
}

/// Trying one more edge of the busy node keeps the invariant, and what is left to improve
/// shrinks or the state stays as it is.
proof fn lemma_relax(
    map: RoadMapView,
    start: NodeId,
    goal: NodeId,
    s: SearchState,
    node: u32,
    k: int,
)
    requires
        map.wf(),
        start != goal,
        node != goal.0,
        search_inv(map, start, goal, s, Some((node, k))),
        s.g.contains_key(node),
        0 <= k < map.out(node).len(),
    ensures
        ({
            let t = relax(map, goal, s, node, s.g[node], map.out(node)[k]);
            &&& search_inv(map, start, goal, t, Some((node, k + 1)))
            &&& t.g.contains_key(node)
            &&& t.g[node] == s.g[node]
            &&& t == s || potential(t) < potential(s)
        }),
{
    let e = map.out(node)[k];
    let g = s.g[node];
    let to = e.to.0;
    let t = relax(map, goal, s, node, g, e);
    lemma_costs_small(map, start, goal, s, Some((node, k)), node);
    lemma_estimate_small(map, to, goal);
    assert(map.edges.contains_key(to));
    if improves(s, e, g) {
        let c = (g + e.cost) as u128;
        assert(to != node);
        assert(to != start.0);
        // the counts
        lemma_sum_change(reached(s), reached(t), to, node_space());
        lemma_sum_change(known_cost(s), known_cost(t), to, node_space());
        assert(reached_count(t) >= reached_count(s));
        if s.g.contains_key(to) {
            lemma_costs_small(map, start, goal, s, Some((node, k)), to);
        } else {
            assert(reached_count(t) == reached_count(s) + 1);
            assert(c < far());
        }
        assert(potential(t) < potential(s));
        assert forall|v: u32| #[trigger] t.g.contains_key(v) implies t.g[v] <= reached_count(t)
            * 0x1_0000_0000_0000_0000 by {
            assert(s.g[node] <= reached_count(s) * 0x1_0000_0000_0000_0000);
            if v != to {
                assert(s.g.contains_key(v));
            } else if s.g.contains_key(to) {
                assert(s.g[to] <= reached_count(s) * 0x1_0000_0000_0000_0000);
            }
        }
        // predecessors
        assert forall|v: u32| #[trigger] t.from.contains_key(v) implies from_ok(map, t, v) by {
            if v == to {
                assert(map.out(node)[k] == e);
                assert(t.stamp[node] == s.stamp[node]);
            } else {
                assert(s.from.contains_key(v));
                let p = s.from[v];
                let i = choose|i: int|
                    0 <= i < map.out(p).len() && {
                        let d = #[trigger] map.out(p)[i];
                        &&& d.to.0 == v
                        &&& (s.g[p] + d.cost < s.g[v] || (s.g[p] + d.cost == s.g[v] && s.stamp[p]
                            < s.stamp[v]))
                    };
                let d = map.out(p)[i];
                assert(t.from[v] == p);
                if p == to {
                    assert(t.g[p] + d.cost < t.g[v]);
                }
            }
        }
        // open entries
        assert forall|x: OpenEntry| #[trigger] t.open.contains(x) implies t.g.contains_key(x.1)
            && x.0 >= t.g[x.1] + estimate(map, x.1, goal) by {
            if x != entry_for(map, goal, to, c) {
                assert(s.open.contains(x));
            }
        }
        // every reached node
        assert forall|v: u32| #[trigger] t.g.contains_key(v) implies {
            ||| t.open.contains(entry_for(map, goal, v, t.g[v]))
            ||| v != goal.0 && tried(
                map,
                t,
                v,
                if v == node {
                    k + 1
                } else {
                    map.out(v).len() as int
                },
            )
        } by {
            if v != to {
                assert(s.g.contains_key(v));
                if s.open.contains(entry_for(map, goal, v, s.g[v])) {
                    assert(t.open.contains(entry_for(map, goal, v, t.g[v])));
                } else {
                    let upto = if v == node {
                        k
                    } else {
                        map.out(v).len() as int
                    };
                    assert(tried(map, s, v, upto));
                    assert forall|i: int|
                        0 <= i < (if v == node {
                            k + 1
                        } else {
                            upto
                        }) && i < map.out(v).len() implies {
                        let d = #[trigger] map.out(v)[i];
                        t.g.contains_key(d.to.0) && t.g[d.to.0] <= t.g[v] + d.cost
                    } by {
                        if v == node && i == k {
                        } else {
                            assert(s.g.contains_key(map.out(v)[i].to.0));
                        }
                    }
                }
            }
        }
    } else {
        assert(t == s);
        assert(s.g.contains_key(to) && s.g[to] <= g + e.cost);
    }
}

/// Trying the first `k` edges of a node keeps the invariant.
proof fn lemma_relax_first(
    map: RoadMapView,
    start: NodeId,
    goal: NodeId,
    s: SearchState,
    node: u32,
    k: nat,
)
    requires
        map.wf(),
        start != goal,
        node != goal.0,
        search_inv(map, start, goal, s, Some((node, 0))),
        s.g.contains_key(node),
        k <= map.out(node).len(),
    ensures
        ({
            let t = relax_first(map, goal, s, node, k);
            &&& search_inv(map, start, goal, t, Some((node, k as int)))
            &&& t.g.contains_key(node)
            &&& t.g[node] == s.g[node]
            &&& t == s || potential(t) < potential(s)
        }),
    decreases k,
{
    if k > 0 {
        lemma_relax_first(map, start, goal, s, node, (k - 1) as nat);
        let t = relax_first(map, goal, s, node, (k - 1) as nat);
        lemma_relax(map, start, goal, t, node, k - 1);
    }
}

/// Taking out an open entry leaves its node busy, with none of its edges tried.
proof fn lemma_take(map: RoadMapView, start: NodeId, goal: NodeId, s: SearchState, x: OpenEntry)
    requires
        search_inv(map, start, goal, s, None),
        s.open.contains(x),
        x.1 != goal.0,
    ensures
        ({
            let t = SearchState { open: s.open.remove(x), ..s };
            &&& search_inv(map, start, goal, t, Some((x.1, 0)))
            &&& t.g.contains_key(x.1)
            &&& potential(t) == potential(s)
            &&& t.open.len() < s.open.len()
        }),
{
    let t = SearchState { open: s.open.remove(x), ..s };
    assert(reached(t) =~= reached(s));
    assert(known_cost(t) =~= known_cost(s));
    assert forall|y: OpenEntry| #[trigger] t.open.contains(y) implies s.open.contains(y) by {}
    assert forall|v: u32| #[trigger] t.g.contains_key(v) implies {
        ||| t.open.contains(entry_for(map, goal, v, t.g[v]))
        ||| v != goal.0 && tried(
            map,
            t,
            v,
            if v == x.1 {
                0
            } else {
                map.out(v).len() as int
            },
        )
    } by {
        assert(s.g.contains_key(v));
        if v != x.1 && s.open.contains(entry_for(map, goal, v, s.g[v])) {
            assert(entry_for(map, goal, v, s.g[v]) != x);
        }
    }
}

/// Expanding the least entry keeps the invariant and brings the search nearer to its end.
proof fn lemma_expand(map: RoadMapView, start: NodeId, goal: NodeId, s: SearchState, x: OpenEntry)
    requires
        map.wf(),
        start != goal,
        search_inv(map, start, goal, s, None),
        s.open.contains(x),
        x.1 != goal.0,
    ensures
        search_inv(map, start, goal, expand(map, goal, s, x), None),
        potential(expand(map, goal, s, x)) < potential(s) || (potential(expand(map, goal, s, x))
            == potential(s) && expand(map, goal, s, x).open.len() < s.open.len()),
{
    let t = SearchState { open: s.open.remove(x), ..s };
    lemma_take(map, start, goal, s, x);
    lemma_relax_first(map, start, goal, t, x.1, map.out(x.1).len());
}

// ---------------------------------------------------------------- the end of the search
/// A multiset that is not empty has a least entry.
proof fn lemma_least_exists(m: Multiset<OpenEntry>)
    requires
        m.len() > 0,
    ensures
        is_least(m, least(m)),
    decreases m.len(),
{
    let y = m.choose();
    assert(m.contains(y));
    let rest = m.remove(y);
    if rest.len() == 0 {
        assert forall|z: OpenEntry| #[trigger] m.contains(z) implies z == y by {
            if z != y {
                assert(rest.count(z) == m.count(z));
            }
        }
        assert(is_least(m, y));
    } else {
        lemma_least_exists(rest);
        let z = least(rest);
        let w = if entry_le(y, z) {
            y
        } else {
            z
        };
        assert forall|v: OpenEntry| #[trigger] m.contains(v) implies entry_le(w, v) by {
            if v != y {
                assert(rest.count(v) == m.count(v));
                assert(rest.contains(v));
            }
        }
        assert(m.contains(z)) by {
            assert(rest.contains(z));
        }
        assert(is_least(m, w));
    }
}

/// The cost of two pieces is the cost of the whole.
proof fn lemma_cost_of_parts(a: Seq<Edge>, b: Seq<Edge>)
    ensures
        cost_of(a + b) == cost_of(a) + cost_of(b),
    decreases b.len(),
{
    if b.len() == 0 {
        assert(a + b =~= a);
    } else {
        assert((a + b).drop_last() =~= a + b.drop_last());
        lemma_cost_of_parts(a, b.drop_last());
    }
}

/// The known way to a reached node is a route, and costs no more than the known cost.
proof fn lemma_way(
    map: RoadMapView,
    start: NodeId,
    goal: NodeId,
    s: SearchState,
    v: u32,
) -> (edges: Seq<Edge>)
    requires
        search_inv(map, start, goal, s, None),
        s.g.contains_key(v),
    ensures
        is_drive(map, way_to(s, v), edges, start, NodeId(v)),
        cost_of(edges) <= s.g[v],
    decreases s.g[v], s.stamp[v],
{
    if v == start.0 {
        assert(!s.from.contains_key(v));
        Seq::empty()
    } else {
        assert(s.from.contains_key(v));
        let p = s.from[v];
        assert(from_ok(map, s, v));
        let i = choose|i: int|
            0 <= i < map.out(p).len() && {
                let d = #[trigger] map.out(p)[i];
                &&& d.to.0 == v
                &&& (s.g[p] + d.cost < s.g[v] || (s.g[p] + d.cost == s.g[v] && s.stamp[p]
                    < s.stamp[v]))
            };
        let e = map.out(p)[i];
        let before = lemma_way(map, start, goal, s, p);
        let edges = before.push(e);
        let nodes = way_to(s, v);
        assert(nodes == way_to(s, p).push(NodeId(v)));
        assert forall|j: int| 0 <= j < edges.len() implies {
            &&& map.out(nodes[j].0).contains(#[trigger] edges[j])
            &&& edges[j].to == nodes[j + 1]
        } by {
            if j < before.len() {
                assert(edges[j] == before[j]);
            } else {
                assert(nodes[j] == way_to(s, p).last());
            }
        }
        assert(edges.drop_last() =~= before);
        edges
    }
}

/// The known way to a node leads over no node twice: each was reached at less cost than the
/// next, or at the same cost and earlier.
proof fn lemma_way_repeats_nothing(s: SearchState, v: u32)
    ensures
        way_to(s, v).no_duplicates(),
        forall|n: NodeId| #[trigger]
            way_to(s, v).contains(n) ==> s.g[n.0] < s.g[v] || (s.g[n.0] == s.g[v] && s.stamp[n.0]
                <= s.stamp[v]),
    decreases s.g[v], s.stamp[v],
{
    let way = way_to(s, v);
    let p = s.from[v];
    if s.from.contains_key(v) && (s.g[p] < s.g[v] || (s.g[p] == s.g[v] && s.stamp[p]
        < s.stamp[v])) {
        lemma_way_repeats_nothing(s, p);
        let before = way_to(s, p);
        assert(way == before.push(NodeId(v)));
        assert(!before.contains(NodeId(v)));
        assert forall|n: NodeId| #[trigger] way.contains(n) implies s.g[n.0] < s.g[v] || (s.g[n.0]
            == s.g[v] && s.stamp[n.0] <= s.stamp[v]) by {
            let i = way.index_of(n);
            if i < before.len() {
                assert(before[i] == n);
                assert(before.contains(n));
            }
        }
    } else {
        assert(way == seq![NodeId(v)]);
    }
}

/// The product of two sums of two squares, as a sum of two squares.
proof fn lemma_sums_of_squares(ax: int, ay: int, bx: int, by: int)
    ensures
        (ax * ax + ay * ay) * (bx * bx + by * by) == (ax * bx + ay * by) * (ax * bx + ay * by) + (ax
            * by - ay * bx) * (ax * by - ay * bx),
{
    let (p, q, u, w) = (ax * bx, ay * by, ax * by, ay * bx);
    let (a, b, c, d) = (ax * ax, ay * ay, bx * bx, by * by);
    assert((a + b) * (c + d) == a * c + a * d + b * c + b * d) by (nonlinear_arith);
    assert((ax * ax) * (bx * bx) == (ax * bx) * (ax * bx)) by (nonlinear_arith);
    assert((ax * ax) * (by * by) == (ax * by) * (ax * by)) by (nonlinear_arith);
    assert((ay * ay) * (bx * bx) == (ay * bx) * (ay * bx)) by (nonlinear_arith);
    assert((ay * ay) * (by * by) == (ay * by) * (ay * by)) by (nonlinear_arith);
    assert((ax * bx) * (ay * by) == (ax * by) * (ay * bx)) by (nonlinear_arith);
    assert((p + q) * (p + q) == p * p + q * q + 2 * (p * q)) by (nonlinear_arith);
    assert((u - w) * (u - w) == u * u + w * w - 2 * (u * w)) by (nonlinear_arith);
}

/// Two sides of a triangle are together no shorter than the third.
proof fn lemma_triangle(ax: int, ay: int, bx: int, by: int, c: int, d: int)
    requires
        c >= 0,
        d >= 0,
        c * c >= ax * ax + ay * ay,
        d * d >= bx * bx + by * by,
    ensures
        (c + d) * (c + d) >= (ax + bx) * (ax + bx) + (ay + by) * (ay + by),
{
    let dot = ax * bx + ay * by;
    let cross = ax * by - ay * bx;
    let m = ax * ax + ay * ay;
    let n = bx * bx + by * by;
    lemma_sums_of_squares(ax, ay, bx, by);
    assert(cross * cross >= 0) by (nonlinear_arith);
    assert(m >= 0) by (nonlinear_arith)
        requires
            m == ax * ax + ay * ay,
    ;
    assert(n >= 0) by (nonlinear_arith)
        requires
            n == bx * bx + by * by,
    ;
    assert((c * c) * (d * d) >= m * n) by (nonlinear_arith)
        requires
            c * c >= m,
            d * d >= n,
            m >= 0,
            n >= 0,
    ;
    assert((c * d) * (c * d) == (c * c) * (d * d)) by (nonlinear_arith);
    assert(c * d >= 0) by (nonlinear_arith)
        requires
            c >= 0,
            d >= 0,
    ;
    let cd = c * d;
    if dot > cd {
        assert(dot * dot > cd * cd) by (nonlinear_arith)
            requires
                dot > cd,
                cd >= 0,
        ;
    }
    assert((c + d) * (c + d) == c * c + d * d + 2 * cd) by (nonlinear_arith)
        requires
            cd == c * d,
    ;
    assert((ax + bx) * (ax + bx) + (ay + by) * (ay + by) == m + n + 2 * dot) by (nonlinear_arith)
        requires
            m == ax * ax + ay * ay,
            n == bx * bx + by * by,
            dot == ax * bx + ay * by,
    ;
}

/// Where no edge is cheaper than its straight line, neither is a drive to the goal.
proof fn lemma_drive_covers_distance(
    map: RoadMapView,
    nodes: Seq<NodeId>,
    edges: Seq<Edge>,
    goal: NodeId,
)
    requires
        map.wf(),
        costs_cover_distances(map),
        joins(map, nodes, edges),
        nodes.last() == goal,
        map.nodes.contains_key(goal.0),
        map.nodes.contains_key(nodes[0].0),
    ensures
        cost_of(edges) * cost_of(edges) >= squared_distance(
            map.nodes[nodes[0].0],
            map.nodes[goal.0],
        ),
    decreases edges.len(),
{
    if edges.len() == 0 {
        let a = map.nodes[goal.0];
        assert((a.x - a.x) * (a.x - a.x) + (a.y - a.y) * (a.y - a.y) == 0) by (nonlinear_arith);
    } else {
        let e = edges[0];
        let rest = edges.skip(1);
        let on = nodes.skip(1);
        assert(map.out(nodes[0].0).contains(edges[0]));
        let i = map.out(nodes[0].0).index_of(e);
        assert(map.edges[nodes[0].0][i] == e);
        assert(e.to == nodes[1]);
        assert forall|j: int| 0 <= j < rest.len() implies {
            &&& map.out(on[j].0).contains(#[trigger] rest[j])
            &&& rest[j].to == on[j + 1]
        } by {
            assert(rest[j] == edges[j + 1]);
        }
        lemma_drive_covers_distance(map, on, rest, goal);
        let a = map.nodes[nodes[0].0];
        let b = map.nodes[nodes[1].0];
        let c = map.nodes[goal.0];
        let first: Seq<Edge> = seq![e];
        assert(edges =~= first + rest);
        lemma_cost_of_parts(first, rest);
        assert(first.drop_last() =~= Seq::<Edge>::empty());
        assert(cost_of(first) == e.cost as nat) by {
            reveal_with_fuel(cost_of, 2);
        }
        assert(e.cost * e.cost >= squared_distance(a, b));
        lemma_squares(a, b);
        lemma_squares(b, c);
        lemma_squares(a, c);
        lemma_triangle(
            a.x - b.x,
            a.y - b.y,
            b.x - c.x,
            b.y - c.y,
            e.cost as int,
            cost_of(rest) as int,
        );
    }
}

/// A sum of squares is not negative.
proof fn lemma_squares(a: Location, b: Location)
    ensures
        squared_distance(a, b) == (a.x - b.x) * (a.x - b.x) + (a.y - b.y) * (a.y - b.y),
{
    assert((a.x - b.x) * (a.x - b.x) >= 0) by (nonlinear_arith);
    assert((a.y - b.y) * (a.y - b.y) >= 0) by (nonlinear_arith);
}

/// The estimate is at most the cost of any drive to the goal.
proof fn lemma_estimate_admissible(
    map: RoadMapView,
    nodes: Seq<NodeId>,
    edges: Seq<Edge>,
    goal: NodeId,
)
    requires
        map.wf(),
        joins(map, nodes, edges),
        nodes.last() == goal,
        map.nodes.contains_key(goal.0),
    ensures
        estimate(map, nodes[0].0, goal) <= cost_of(edges),
{
    if costs_cover_distances(map) && map.nodes.contains_key(nodes[0].0) {
        lemma_drive_covers_distance(map, nodes, edges, goal);
        let d = squared_distance(map.nodes[nodes[0].0], map.nodes[goal.0]);
        lemma_floor_sqrt(d);
        let r = floor_sqrt(d);
        let c = cost_of(edges);
        if r > c {
            assert(r * r > c * c) by (nonlinear_arith)
                requires
                    r > c,
                    c >= 0,
            ;
        }
    }
}

/// When the goal's entry is the least one, the known cost of the goal is at most the cost of
/// any drive that has been followed up to its node `i`.
proof fn lemma_goal_known_cheapest(
    map: RoadMapView,
    start: NodeId,
    goal: NodeId,
    s: SearchState,
    x: OpenEntry,
    nodes: Seq<NodeId>,
    edges: Seq<Edge>,
    i: int,
)
    requires
        map.wf(),
        map.nodes.contains_key(goal.0),
        search_inv(map, start, goal, s, None),
        is_least(s.open, x),
        x.1 == goal.0,
        is_drive(map, nodes, edges, start, goal),
        0 <= i <= edges.len(),
        s.g.contains_key(nodes[i].0),
        s.g[nodes[i].0] <= cost_of(edges.take(i)),
    ensures
        s.g[goal.0] <= cost_of(edges),
    decreases edges.len() - i,
{
    let v = nodes[i].0;
    assert(edges =~= edges.take(i) + edges.skip(i));
    lemma_cost_of_parts(edges.take(i), edges.skip(i));
    if s.open.contains(entry_for(map, goal, v, s.g[v])) {
        let rest = edges.skip(i);
        let on = nodes.skip(i);
        assert forall|j: int| 0 <= j < rest.len() implies {
            &&& map.out(on[j].0).contains(#[trigger] rest[j])
            &&& rest[j].to == on[j + 1]
        } by {
            assert(rest[j] == edges[i + j]);
        }
        lemma_estimate_admissible(map, on, rest, goal);
        lemma_costs_small(map, start, goal, s, None, v);
        assert(entry_le(x, entry_for(map, goal, v, s.g[v])));
        assert(s.open.contains(x));
    } else if i < edges.len() {
        assert(map.out(v).contains(edges[i]));
        let k = map.out(v).index_of(edges[i]);
        assert(map.out(v)[k] == edges[i]);
        assert(edges.take(i + 1).drop_last() =~= edges.take(i));
        lemma_goal_known_cheapest(map, start, goal, s, x, nodes, edges, i + 1);
    }
}

/// When no entry is left, every node of a drive from the start has been reached and is not
/// the goal.
proof fn lemma_all_tried(
    map: RoadMapView,
    start: NodeId,
    goal: NodeId,
    s: SearchState,
    nodes: Seq<NodeId>,
    edges: Seq<Edge>,
    i: int,
)
    requires
        search_inv(map, start, goal, s, None),
        s.open.len() == 0,
        joins(map, nodes, edges),
        nodes[0] == start,
        0 <= i < nodes.len(),
    ensures
        s.g.contains_key(nodes[i].0),
        nodes[i] != goal,
    decreases i,
{
    if i > 0 {
        lemma_all_tried(map, start, goal, s, nodes, edges, i - 1);
        let v = nodes[i - 1].0;
        assert(map.out(v).contains(edges[i - 1]));
        let k = map.out(v).index_of(edges[i - 1]);
        assert(map.out(v)[k] == edges[i - 1]);
        assert(!s.open.contains(entry_for(map, goal, v, s.g[v])));
    }
    assert(!s.open.contains(entry_for(map, goal, nodes[i].0, s.g[nodes[i].0])));
}

/// What a finished search has found is what it was asked for.
pub open spec fn found_right(
    map: RoadMapView,
    start: NodeId,
    goal: NodeId,
    r: Option<Seq<NodeId>>,
) -> bool {
    match r {
        Some(nodes) => {
            &&& is_route(map, nodes, start, goal)
            &&& is_cheapest_route(map, nodes, start, goal)
            &&& nodes.no_duplicates()
        },
        None => !reachable(map, start, goal),
    }
}

/// Where a search ends, it ends with the right result.
proof fn lemma_search_end(map: RoadMapView, start: NodeId, goal: NodeId, s: SearchState)
    requires
        map.wf(),
        start != goal,
        map.nodes.contains_key(goal.0),
        search_inv(map, start, goal, s, None),
        search(map, goal, s, 0) is Some,
    ensures
        found_right(map, start, goal, search(map, goal, s, 0)->0),
{
    let x = least(s.open);
    if s.open.len() == 0 {
        assert forall|nodes: Seq<NodeId>| !is_route(map, nodes, start, goal) by {
            if is_route(map, nodes, start, goal) {
                let edges = choose|edges: Seq<Edge>| is_drive(map, nodes, edges, start, goal);
                lemma_all_tried(map, start, goal, s, nodes, edges, nodes.len() - 1);
            }
        }
    } else {
        lemma_least_exists(s.open);
        assert(s.open.contains(x));
        if x.1 == goal.0 {
            let edges = lemma_way(map, start, goal, s, goal.0);
            lemma_way_repeats_nothing(s, goal.0);
            let nodes = way_to(s, goal.0);
            assert(is_drive(map, nodes, edges, start, goal));
            assert forall|nodes2: Seq<NodeId>, edges2: Seq<Edge>| #[trigger]
                is_drive(map, nodes2, edges2, start, goal) implies cost_of(edges) <= cost_of(
                edges2,
            ) by {
                assert(edges2.take(0) =~= Seq::<Edge>::empty());
                lemma_goal_known_cheapest(map, start, goal, s, x, nodes2, edges2, 0);
            }
        } else {
            assert(x.1 == start.0);
            assert forall|nodes: Seq<NodeId>| !is_route(map, nodes, start, goal) by {
                if is_route(map, nodes, start, goal) {
                    let edges = choose|edges: Seq<Edge>| is_drive(map, nodes, edges, start, goal);
                    assert(edges.len() > 0);
                    assert(map.out(nodes[0].0).contains(edges[0]));
                }
            }
        }
    }
}

/// More fuel does not change the result of a search.
proof fn lemma_search_fuel(map: RoadMapView, goal: NodeId, s: SearchState, a: nat, b: nat)
    requires
        search(map, goal, s, a) is Some,
        a <= b,
    ensures
        search(map, goal, s, b) == search(map, goal, s, a),
    decreases a,
{
    let x = least(s.open);
    if s.open.len() == 0 || x.1 == goal.0 || !map.edges.contains_key(x.1) {
    } else {
        lemma_search_fuel(
            map,
            goal,
            expand(map, goal, s, x),
            (a - 1) as nat,
            (b - 1) as nat,
        );
    }
}

/// A search ends, and with the right result.
proof fn lemma_search(map: RoadMapView, start: NodeId, goal: NodeId, s: SearchState) -> (fuel: nat)
    requires
        map.wf(),
        start != goal,
        map.nodes.contains_key(goal.0),
        search_inv(map, start, goal, s, None),
    ensures
        search(map, goal, s, fuel) is Some,
        found_right(map, start, goal, search(map, goal, s, fuel)->0),
    decreases potential(s), s.open.len(),
{
    let x = least(s.open);
    if s.open.len() == 0 || x.1 == goal.0 || !map.edges.contains_key(x.1) {
        lemma_search_end(map, start, goal, s);
        0
    } else {
        lemma_least_exists(s.open);
        lemma_expand(map, start, goal, s, x);
        let fuel = lemma_search(map, start, goal, expand(map, goal, s, x));
        fuel + 1
    }
}

/// What an A* search finds is right, whatever fuel its definition picks.
proof fn lemma_a_star(map: RoadMapView, start: NodeId, goal: NodeId)
    requires
        map.wf(),
        start != goal,
        map.nodes.contains_key(goal.0),
    ensures
        found_right(map, start, goal, a_star(map, start, goal)),
{
    let s = search_start(map, start, goal);
    lemma_start_inv(map, start, goal);
    let fuel = lemma_search(map, start, goal, s);
    let picked = choose|f: nat| search(map, goal, s, f) is Some;
    if fuel <= picked {
        lemma_search_fuel(map, goal, s, fuel, picked);
    } else {
        lemma_search_fuel(map, goal, s, picked, fuel);
    }
}

/// A single node is a route to itself at no cost.
proof fn lemma_stay(map: RoadMapView, start: NodeId)
    ensures
        is_cheapest_route(map, seq![start], start, start),
        is_route(map, seq![start], start, start),
{
    assert(is_drive(map, seq![start], Seq::<Edge>::empty(), start, start));
}

// ---------------------------------------------------------------- laws of the search
/// What A* search returns is a route from the start to the goal: every two neighbours on it
/// are joined by an edge.
pub proof fn law_a_star_returns_a_route(map: RoadMapView, start: NodeId, goal: NodeId)
    requires
        map.wf(),
    ensures
        a_star(map, start, goal) matches Some(nodes) ==> is_route(map, nodes, start, goal),
{
    if start == goal {
        lemma_stay(map, start);
    } else if map.nodes.contains_key(goal.0) {
        lemma_a_star(map, start, goal);
    }
}

/// A* search finds a route exactly when there is one; to a goal without coordinates it finds
/// only the way of a robot that is there already.
pub proof fn law_a_star_finds_what_is_reachable(map: RoadMapView, start: NodeId, goal: NodeId)
    requires
        map.wf(),
    ensures
        a_star(map, start, goal) is Some <==> start == goal || (map.nodes.contains_key(goal.0)
            && reachable(map, start, goal)),
{
    if start == goal {
        lemma_stay(map, start);
    } else if map.nodes.contains_key(goal.0) {
        lemma_a_star(map, start, goal);
    }
}

/// A* search returns a cheapest route.
pub proof fn law_a_star_is_optimal(map: RoadMapView, start: NodeId, goal: NodeId)
    requires
        map.wf(),
    ensures
        a_star(map, start, goal) matches Some(nodes) ==> is_cheapest_route(map, nodes, start, goal),
{
    if start == goal {
        lemma_stay(map, start);
    } else if map.nodes.contains_key(goal.0) {
        lemma_a_star(map, start, goal);
    }
}

/// A* search ends: after some number of nodes it has its result, and however many more it
/// could take, that result is the one of [`a_star`].
pub proof fn law_a_star_ends(map: RoadMapView, start: NodeId, goal: NodeId) -> (steps: nat)
    requires
        map.wf(),
        start != goal,
        map.nodes.contains_key(goal.0),
    ensures
        forall|fuel: nat|
            steps <= fuel ==> #[trigger] search(map, goal, search_start(map, start, goal), fuel)
                == Some(a_star(map, start, goal)),
        forall|fuel: nat| #[trigger]
            search(map, goal, search_start(map, start, goal), fuel) matches Some(found) ==> found
                == a_star(map, start, goal),
{
    let s = search_start(map, start, goal);
    lemma_start_inv(map, start, goal);
    let steps = lemma_search(map, start, goal, s);
    assert forall|fuel: nat| steps <= fuel implies #[trigger] search(map, goal, s, fuel) == Some(
        a_star(map, start, goal),
    ) by {
        lemma_search_fuel(map, goal, s, steps, fuel);
        lemma_outcome(map, start, goal, s, fuel);
    }
    assert forall|fuel: nat| #[trigger] search(map, goal, s, fuel) is Some implies search(
        map,
        goal,
        s,
        fuel,
    ) == Some(a_star(map, start, goal)) by {
        lemma_outcome(map, start, goal, s, fuel);
    }
    steps
}

/// A route that A* search finds leads over no node twice.
pub proof fn law_a_star_repeats_no_node(map: RoadMapView, start: NodeId, goal: NodeId)
    requires
        map.wf(),
    ensures
        a_star(map, start, goal) matches Some(nodes) ==> nodes.no_duplicates(),
{
    if start != goal && map.nodes.contains_key(goal.0) {
        lemma_a_star(map, start, goal);
    }
}

// ---------------------------------------------------------------- the pathfinders
/// The nodes of a route, if there is one.
pub open spec fn nodes_of(path: Option<Path>) -> Option<Seq<NodeId>> {
    match path {
        Some(p) => Some(p@),
        None => None,
    }
}

/// A way of planning routes. The scheduler works with every implementation.
pub trait Pathfinder: Send + Sync {
    /// The route that the planner finds from `start` to `goal`.
    spec fn route(&self, map: RoadMapView, start: NodeId, goal: NodeId) -> Option<Seq<NodeId>>;

    /// What the planner finds is a route.
    proof fn lemma_finds_routes(&self, map: RoadMapView, start: NodeId, goal: NodeId)
        requires
            map.wf(),
        ensures
            self.route(map, start, goal) matches Some(nodes) ==> is_route(map, nodes, start, goal),
    ;

    /// Plans a route from `start` to `goal`.
    fn find_path(&self, map: &RoadMap, start: NodeId, goal: NodeId) -> (r: Option<Path>)
        requires
            map@.wf(),
        ensures
            nodes_of(r) == self.route(map@, start, goal),
    ;
}

/// A* search with the Euclidean distance as its heuristic, as far as the distance never
/// overestimates a cost. It finds a cheapest route.
pub struct AStarPathfinder;

/// The estimated cost from a node to the goal at `goal_loc`: the straight line where `straight`
/// says that no route is cheaper, and 0 elsewhere and for a node without coordinates.
fn heuristic(
    map: &RoadMap,
    from: NodeId,
    goal_loc: &Location,
    straight: bool,
    Ghost(goal): Ghost<NodeId>,
) -> (r: u128)
    requires
        map@.nodes.contains_key(goal.0),
        *goal_loc == map@.nodes[goal.0],
        straight == costs_cover_distances(map@),
    ensures
        r == estimate(map@, from.0, goal),
        r < 0x2_0000_0000_0000_0000,
{
    if !straight {
        return 0;
    }
    match map.node_location(from) {
        Some(loc) => loc.distance_to(goal_loc),
        None => 0,
    }
}

/// The way to `goal` that the predecessors in `came_from` describe.
fn reconstruct(
    came_from: &HashMap<u32, u32>,
    goal: NodeId,
    start: NodeId,
    Ghost(map): Ghost<RoadMapView>,
    Ghost(s): Ghost<SearchState>,
) -> (r: Path)
    requires
        came_from@ == s.from,
        search_inv(map, start, goal, s, None),
        s.g.contains_key(goal.0),
    ensures
        r@ == way_to(s, goal.0),
{
    let mut reversed: Vec<NodeId> = Vec::new();
    let mut current: u32 = goal.0;
    assert(way_to(s, goal.0) =~= way_to(s, current) + reversed@.reverse());
    loop
        invariant_except_break
            came_from@ == s.from,
            search_inv(map, start, goal, s, None),
            s.g.contains_key(current),
            way_to(s, goal.0) == way_to(s, current) + reversed@.reverse(),
        ensures
            way_to(s, goal.0) == reversed@.reverse(),
        decreases s.g[current], s.stamp[current],
    {
        let ghost before = reversed@;
        reversed.push(NodeId(current));
        proof {
            assert(reversed@.reverse() =~= seq![NodeId(current)] + before.reverse());
        }
        if current == start.0 {
            assert(way_to(s, current) =~= seq![NodeId(current)]);
            break;
        }
        match came_from.get(&current) {
            Some(prev) => {
                assert(s.from.contains_key(current));
                assert(from_ok(map, s, current));
                assert(way_to(s, goal.0) =~= way_to(s, *prev) + reversed@.reverse());
                current = *prev;
            },
            None => {
                assert(way_to(s, current) =~= seq![NodeId(current)]);
                break;
            },
        }
    }
    let mut path = Path::new();
    let mut i: usize = reversed.len();
    while i > 0
        invariant
            i <= reversed@.len(),
            path@ == reversed@.reverse().take(reversed@.len() - i),
        decreases i,
    {
        i = i - 1;
        path.push(reversed[i]);
        assert(path@ =~= reversed@.reverse().take(reversed@.len() - i));
    }
    assert(path@ =~= reversed@.reverse());
    path
}

impl Pathfinder for AStarPathfinder {
    open spec fn route(&self, map: RoadMapView, start: NodeId, goal: NodeId) -> Option<Seq<NodeId>> {
        a_star(map, start, goal)
    }

    proof fn lemma_finds_routes(&self, map: RoadMapView, start: NodeId, goal: NodeId) {
        law_a_star_returns_a_route(map, start, goal);
    }

    fn find_path(&self, map: &RoadMap, start: NodeId, goal: NodeId) -> (r: Option<Path>)
        ensures
            r matches Some(path) ==> is_cheapest_route(map@, path@, start, goal),
            r is Some <==> start == goal || (map@.nodes.contains_key(goal.0) && reachable(
                map@,
                start,
                goal,
            )),
    {
        if start == goal {
            proof {
                lemma_stay(map@, start);
            }
            let mut path = Path::new();
            path.push(start);
            assert(path@ =~= seq![start]);
            return Some(path);
        }
        let goal_loc = match map.node_location(goal) {
            Some(loc) => *loc,
            None => {
                return None;
            },
        };
        let straight = map.covers_distances();
        let ghost m = map@;
        let ghost first = search_start(m, start, goal);
        let mut g_score: HashMap<u32, u128> = HashMap::new();
        let mut came_from: HashMap<u32, u32> = HashMap::new();
        let mut open = OpenList::new();
        g_score.insert(start.0, 0);
        let h0 = heuristic(map, start, &goal_loc, straight, Ghost(goal));
        open.push((h0, start.0));
        let ghost mut s = first;
        let ghost mut steps: nat = 0;
        proof {
            lemma_a_star(m, start, goal);
            lemma_start_inv(m, start, goal);
            assert(g_score@ =~= s.g);
            assert(came_from@ =~= s.from);
            assert(open@ =~= s.open);
        }
        loop
            invariant
                m == map@,
                m.wf(),
                start != goal,
                m.nodes.contains_key(goal.0),
                goal_loc == m.nodes[goal.0],
                straight == costs_cover_distances(m),
                open.wf(),
                g_score@ == s.g,
                came_from@ == s.from,
                open@ == s.open,
                search_inv(m, start, goal, s, None),
                first == search_start(m, start, goal),
                found_right(m, start, goal, a_star(m, start, goal)),
                forall|fuel: nat| #[trigger]
                    search(m, goal, s, fuel) == search(m, goal, first, steps + fuel),
            decreases potential(s), s.open.len(),
        {
            let ghost before = s;
            let (est, current) = match open.pop() {
                Some(x) => x,
                None => {
                    proof {
                        assert(search(m, goal, s, 0) == Some(None::<Seq<NodeId>>));
                        lemma_outcome(m, start, goal, first, steps);
                    }
                    return None;
                },
            };
            proof {
                lemma_least_unique(s.open, (est, current));
                assert(s.open.contains((est, current)));
            }
            if current == goal.0 {
                let path = reconstruct(&came_from, goal, start, Ghost(m), Ghost(s));
                proof {
                    assert(search(m, goal, s, 0) == Some(Some(way_to(s, goal.0))));
                    lemma_outcome(m, start, goal, first, steps);
                }
                return Some(path);
            }
            let edges = match map.edges_from(NodeId(current)) {
                Some(list) => list.as_slice(),
                None => {
                    proof {
                        assert(search(m, goal, s, 0) == Some(None::<Seq<NodeId>>));
                        lemma_outcome(m, start, goal, first, steps);
                    }
                    return None;
                },
            };
            let current_g = match g_score.get(&current) {
                Some(g) => *g,
                None => {
                    assert(false);
                    return None;
                },
            };
            let ghost taken = SearchState { open: s.open.remove((est, current)), ..s };
            proof {
                lemma_take(m, start, goal, s, (est, current));
                s = taken;
            }
            let mut k: usize = 0;
            while k < edges.len()
                invariant
                    k <= edges@.len(),
                    edges@ == m.out(current),
                    m == map@,
                    m.wf(),
                    start != goal,
                    current != goal.0,
                    m.nodes.contains_key(goal.0),
                    goal_loc == m.nodes[goal.0],
                    straight == costs_cover_distances(m),
                    open.wf(),
                    g_score@ == s.g,
                    came_from@ == s.from,
                    open@ == s.open,
                    search_inv(m, start, goal, taken, Some((current, 0))),
                    taken.g.contains_key(current),
                    current_g == taken.g[current],
                    s == relax_first(m, goal, taken, current, k as nat),
                decreases edges@.len() - k,
            {
                let edge = edges[k];
                proof {
                    lemma_relax_first(m, start, goal, taken, current, k as nat);
                    lemma_costs_small(m, start, goal, s, Some((current, k as int)), current);
                    lemma_estimate_small(m, edge.to.0, goal);
                }
                let tentative_g: u128 = current_g + edge.cost as u128;
                let better = match g_score.get(&edge.to.0) {
                    Some(known) => tentative_g < *known,
                    None => true,
                };
                if better {
                    came_from.insert(edge.to.0, current);
                    g_score.insert(edge.to.0, tentative_g);
                    let h = heuristic(map, edge.to, &goal_loc, straight, Ghost(goal));
                    open.push((tentative_g + h, edge.to.0));
                }
                proof {
                    s = relax(m, goal, s, current, current_g, edge);
                    assert(s == relax_first(m, goal, taken, current, (k + 1) as nat));
                }
                k = k + 1;
            }
            proof {
                lemma_expand(m, start, goal, before, (est, current));
                assert(s == expand(m, goal, before, (est, current)));
                assert forall|fuel: nat| #[trigger] search(m, goal, s, fuel) == search(
                    m,
                    goal,
                    first,
                    steps + 1 + fuel,
                ) by {
                    assert(search(m, goal, before, fuel + 1) == search(
                        m,
                        goal,
                        first,
                        steps + (fuel + 1),
                    ));
                }
                steps = steps + 1;
            }
        }
    }
}

/// A search that has ended after `steps` nodes is the one in the definition of [`a_star`].
proof fn lemma_outcome(
    map: RoadMapView,
    start: NodeId,
    goal: NodeId,
    first: SearchState,
    steps: nat,
)
    requires
        start != goal,
        map.nodes.contains_key(goal.0),
        first == search_start(map, start, goal),
        search(map, goal, first, steps) is Some,
    ensures
        search(map, goal, first, steps) == Some(a_star(map, start, goal)),
{
    let picked = choose|f: nat| search(map, goal, first, f) is Some;
    if steps <= picked {
        lemma_search_fuel(map, goal, first, steps, picked);
    } else {
        lemma_search_fuel(map, goal, first, picked, steps);
    }
}

} // verus!
