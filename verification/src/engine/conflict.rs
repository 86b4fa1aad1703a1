//! Conflicts and deadlocks between robots, read off one snapshot of their states.
//!
//! * A node is *crowded* if several robots stand on it.
//! * A node is *contested* if several busy robots drive to it.
//! * A busy robot *waits* for every other robot that stands on its target. A ring of
//!   robots that wait for each other is a *deadlock*.

use crate::domain::robot::robot_views;
use crate::domain::{NodeId, RobotId, RobotState, RobotStatus, RobotView};
use crate::table::{small_keys, wide_keys};
use std::collections::{HashMap, HashSet};
use vstd::prelude::*;

verus! {

broadcast use vstd::std_specs::hash::group_hash_axioms;

/// Upper bound on the number of reported deadlock cycles.
pub const MAX_CYCLES: usize = 64;

/// What one analysis found.
#[derive(Debug, Clone)]
pub struct ConflictReport {
    /// Crowded nodes with the robots on them, sorted by number.
    pub crowded: Vec<(NodeId, Vec<RobotId>)>,
    /// Contested nodes with the busy robots that drive there, sorted by number.
    pub contested: Vec<(NodeId, Vec<RobotId>)>,
    /// Pairs of a waiting robot and the robot that it waits for.
    pub wait_edges: Vec<(RobotId, RobotId)>,
    /// Deadlocks: each robot waits for the next one, and the last for the first.
    pub deadlock_cycles: Vec<Vec<RobotId>>,
}

impl Default for ConflictReport {
    fn default() -> (r: Self)
        ensures
            r.crowded@.len() == 0,
            r.contested@.len() == 0,
            r.wait_edges@.len() == 0,
            r.deadlock_cycles@.len() == 0,
    {
        ConflictReport {
            crowded: Vec::new(),
            contested: Vec::new(),
            wait_edges: Vec::new(),
            deadlock_cycles: Vec::new(),
        }
    }
}

// ---------------------------------------------------------------- what a snapshot says
/// The node that a robot stands on (unless it is offline) or, with `goals`, the node that a
/// busy robot drives to.
pub open spec fn place_of(r: RobotView, goals: bool) -> Option<NodeId> {
    if goals {
        if r.status == RobotStatus::Busy {
            r.target
        } else {
            None
        }
    } else {
        if r.status == RobotStatus::Offline {
            None
        } else {
            r.location.node
        }
    }
}

/// The robots at a place, in the order of the snapshot.
pub open spec fn robots_at(robots: Seq<RobotView>, goals: bool, node: u32) -> Seq<RobotId>
    decreases robots.len(),
{
    if robots.len() == 0 {
        Seq::empty()
    } else {
        let before = robots_at(robots.drop_last(), goals, node);
        if place_of(robots.last(), goals) == Some(NodeId(node)) {
            before.push(robots.last().id)
        } else {
            before
        }
    }
}

/// The robots that stand on a node.
pub open spec fn occupants(robots: Seq<RobotView>, node: u32) -> Seq<RobotId> {
    robots_at(robots, false, node)
}

/// Whether robots are sorted by number.
pub open spec fn sorted_by_number(ids: Seq<RobotId>) -> bool {
    forall|i: int, j: int| 0 <= i < j < ids.len() ==> (#[trigger] ids[i]).0 <= (#[trigger] ids[j]).0
}

/// Whether `list` names each place with more than one robot once, with its robots sorted.
pub open spec fn lists_shared_places(
    list: Seq<(NodeId, Vec<RobotId>)>,
    robots: Seq<RobotView>,
    goals: bool,
) -> bool {
    &&& forall|i: int|
        #![trigger list[i]]
        0 <= i < list.len() ==> {
            let there = robots_at(robots, goals, list[i].0.0);
            &&& there.len() > 1
            &&& sorted_by_number(list[i].1@)
            &&& list[i].1@.to_multiset() == there.to_multiset()
        }
    &&& forall|i: int, j: int|
        #![trigger list[i], list[j]]
        0 <= i < j < list.len() ==> list[i].0 != list[j].0
    &&& forall|n: u32|
        (#[trigger] robots_at(robots, goals, n)).len() > 1 ==> exists|i: int|
            0 <= i < list.len() && (#[trigger] list[i]).0.0 == n
}

/// The pairs of the robot `id` with each of `holders` but itself.
pub open spec fn waits_for(id: RobotId, holders: Seq<RobotId>) -> Seq<(RobotId, RobotId)>
    decreases holders.len(),
{
    if holders.len() == 0 {
        Seq::empty()
    } else {
        let before = waits_for(id, holders.drop_last());
        if holders.last() != id {
            before.push((id, holders.last()))
        } else {
            before
        }
    }
}

/// The pairs of waiting robot and holder for the first `k` robots of a snapshot.
pub open spec fn waits_of_first(robots: Seq<RobotView>, k: nat) -> Seq<(RobotId, RobotId)>
    decreases k,
{
    if k == 0 {
        Seq::empty()
    } else {
        let r = robots[k - 1];
        let before = waits_of_first(robots, (k - 1) as nat);
        match place_of(r, true) {
            Some(t) => before + waits_for(r.id, occupants(robots, t.0)),
            None => before,
        }
    }
}

/// All pairs of waiting robot and holder.
pub open spec fn waits(robots: Seq<RobotView>) -> Seq<(RobotId, RobotId)> {
    waits_of_first(robots, robots.len())
}

/// Whether the robots of `ring`, at least two and each once, wait for each other in a ring.
pub open spec fn is_deadlock(edges: Seq<(RobotId, RobotId)>, ring: Seq<RobotId>) -> bool {
    &&& ring.len() >= 2
    &&& ring.no_duplicates()
    &&& forall|i: int| 0 <= i < ring.len() ==> #[trigger] waits_for_next(edges, ring, i)
}

/// Whether the robot at place `i` of a ring waits for the next one.
pub open spec fn waits_for_next(
    edges: Seq<(RobotId, RobotId)>,
    ring: Seq<RobotId>,
    i: int,
) -> bool {
    edges.contains((ring[i], ring[next_in(ring, i)]))
}

/// The place after `i` in a ring.
pub open spec fn next_in(ring: Seq<RobotId>, i: int) -> int {
    if i + 1 < ring.len() {
        i + 1
    } else {
        0
    }
}

/// Whether two rings have the same robots.
pub open spec fn same_members(a: Seq<RobotId>, b: Seq<RobotId>) -> bool {
    forall|x: RobotId| #[trigger] a.contains(x) <==> #[trigger] b.contains(x)
}

/// Whether some reported ring holds both robots.
pub open spec fn reported_together(rings: Seq<Vec<RobotId>>, a: RobotId, b: RobotId) -> bool {
    exists|r: int|
        0 <= r < rings.len() && (#[trigger] rings[r])@.contains(a) && rings[r]@.contains(b)
}

/// Whether two robots of `ring`, one waiting for the other, are reported together.
pub open spec fn touched(rings: Seq<Vec<RobotId>>, ring: Seq<RobotId>) -> bool {
    exists|i: int|
        0 <= i < ring.len() && #[trigger] reported_together(
            rings,
            ring[i],
            ring[next_in(ring, i)],
        )
}

/// What the reported rings are: deadlocks, no two of the same robots, at most
/// [`MAX_CYCLES`]; and, unless that many are reported, every deadlock contains a robot and
/// the one it waits for that are reported in one ring.
pub open spec fn reports_deadlocks(
    edges: Seq<(RobotId, RobotId)>,
    rings: Seq<Vec<RobotId>>,
) -> bool {
    &&& rings.len() <= MAX_CYCLES
    &&& forall|r: int| 0 <= r < rings.len() ==> is_deadlock(edges, (#[trigger] rings[r])@)
    &&& forall|r: int, q: int|
        0 <= r < q < rings.len() ==> !same_members(
            (#[trigger] rings[r])@,
            (#[trigger] rings[q])@,
        )
    &&& rings.len() < MAX_CYCLES ==> forall|ring: Seq<RobotId>| #[trigger]
        is_deadlock(edges, ring) ==> touched(rings, ring)
}

/// The result of an analysis.
pub open spec fn is_report(robots: Seq<RobotView>, report: ConflictReport) -> bool {
    &&& lists_shared_places(report.crowded@, robots, false)
    &&& lists_shared_places(report.contested@, robots, true)
    &&& report.wait_edges@ == waits(robots)
    &&& reports_deadlocks(waits(robots), report.deadlock_cycles@)
}

// ---------------------------------------------------------------- sorting
/// The robots sorted by number.
pub fn sorted_robots(v: &Vec<RobotId>) -> (r: Vec<RobotId>)
    ensures
        sorted_by_number(r@),
        r@.to_multiset() == v@.to_multiset(),
{
    let mut out: Vec<RobotId> = Vec::new();
    let mut k: usize = 0;
    assert(v@.take(0) =~= Seq::<RobotId>::empty());
    while k < v.len()
        invariant
            k <= v@.len(),
            sorted_by_number(out@),
            out@.to_multiset() == v@.take(k as int).to_multiset(),
        decreases v@.len() - k,
    {
        let x = v[k];
        let mut i: usize = out.len();
        while i > 0 && out[i - 1].0 > x.0
            invariant
                i <= out@.len(),
                sorted_by_number(out@),
                forall|j: int| i <= j < out@.len() ==> x.0 < (#[trigger] out@[j]).0,
            decreases i,
        {
            i = i - 1;
        }
        let ghost before = out@;
        out.insert(i, x);
        proof {
            assert(out@ =~= before.insert(i as int, x));
            vstd::seq_lib::to_multiset_insert(before, i as int, x);
            assert(v@.take(k + 1) =~= v@.take(k as int).push(x));
            vstd::seq_lib::to_multiset_build(v@.take(k as int), x);
            assert forall|a: int, b: int| 0 <= a < b < out@.len() implies (#[trigger] out@[a]).0
                <= (#[trigger] out@[b]).0 by {
                let a2 = if a < i {
                    a
                } else {
                    a - 1
                };
                let b2 = if b < i {
                    b
                } else {
                    b - 1
                };
                if a != i {
                    assert(out@[a] == before[a2]);
                }
                if b != i {
                    assert(out@[b] == before[b2]);
                }
                if b == i && i > 0 {
                    assert(before[a].0 <= before[i - 1].0);
                }
            }
        }
        k = k + 1;
    }
    assert(v@.take(k as int) =~= v@);
    out
}

// ---------------------------------------------------------------- places
fn place_node(r: &RobotState, goals: bool) -> (n: Option<NodeId>)
    ensures
        n == place_of(r@, goals),
{
    if goals {
        if r.status == RobotStatus::Busy {
            r.target
        } else {
            None
        }
    } else {
        if r.status == RobotStatus::Offline {
            None
        } else {
            r.location.node
        }
    }
}

/// Whether `groups` holds, for every place with robots, the robots there.
spec fn groups_robots(
    groups: Map<u32, Vec<RobotId>>,
    robots: Seq<RobotView>,
    goals: bool,
) -> bool {
    forall|n: u32| #[trigger]
        robots_at(robots, goals, n) == (if groups.contains_key(n) {
            groups[n]@
        } else {
            Seq::empty()
        })
}

/// The robots of each place.
fn group_by_place(robots: &[RobotState], goals: bool) -> (groups: HashMap<u32, Vec<RobotId>>)
    ensures
        groups_robots(groups@, robot_views(robots@), goals),
{
    let ghost all = robot_views(robots@);
    let mut groups: HashMap<u32, Vec<RobotId>> = HashMap::new();
    let mut i: usize = 0;
    while i < robots.len()
        invariant
            i <= robots@.len(),
            all == robot_views(robots@),
            groups_robots(groups@, all.take(i as int), goals),
        decreases robots@.len() - i,
    {
        let ghost before = groups@;
        proof {
            assert(all.take(i + 1).drop_last() =~= all.take(i as int));
            assert(all.take(i + 1).last() == robots@[i as int]@);
        }
        if let Some(n) = place_node(&robots[i], goals) {
            let mut list = match groups.remove(&n.0) {
                Some(list) => list,
                None => Vec::new(),
            };
            list.push(robots[i].id);
            groups.insert(n.0, list);
            proof {
                assert(robots_at(all.take(i as int), goals, n.0) == (if before.contains_key(n.0) {
                    before[n.0]@
                } else {
                    Seq::empty()
                }));
                assert(list@ =~= robots_at(all.take(i as int), goals, n.0).push(
                    robots@[i as int].id,
                ));
            }
        }
        proof {
            assert forall|n: u32| #[trigger]
                robots_at(all.take(i + 1), goals, n) == (if groups@.contains_key(n) {
                    groups@[n]@
                } else {
                    Seq::empty()
                }) by {
                assert(robots_at(all.take(i as int), goals, n) == (if before.contains_key(n) {
                    before[n]@
                } else {
                    Seq::empty()
                }));
            }
        }
        i = i + 1;
    }
    assert(all.take(i as int) =~= all);
    groups
}

/// The places with more than one robot.
fn shared_places(
    groups: &HashMap<u32, Vec<RobotId>>,
    Ghost(robots): Ghost<Seq<RobotView>>,
    Ghost(goals): Ghost<bool>,
) -> (list: Vec<(NodeId, Vec<RobotId>)>)
    requires
        groups_robots(groups@, robots, goals),
    ensures
        lists_shared_places(list@, robots, goals),
{
    let keys = small_keys(groups);
    let mut list: Vec<(NodeId, Vec<RobotId>)> = Vec::new();
    let mut k: usize = 0;
    while k < keys.len()
        invariant
            k <= keys@.len(),
            keys@.no_duplicates(),
            keys@.to_set() == groups@.dom(),
            groups_robots(groups@, robots, goals),
            forall|i: int|
                #![trigger list@[i]]
                0 <= i < list@.len() ==> {
                    let there = robots_at(robots, goals, list@[i].0.0);
                    &&& there.len() > 1
                    &&& sorted_by_number(list@[i].1@)
                    &&& list@[i].1@.to_multiset() == there.to_multiset()
                    &&& exists|j: int| 0 <= j < k && #[trigger] keys@[j] == list@[i].0.0
                },
            forall|i: int, j: int|
                #![trigger list@[i], list@[j]]
                0 <= i < j < list@.len() ==> list@[i].0 != list@[j].0,
            forall|j: int|
                #![trigger keys@[j]]
                0 <= j < k && robots_at(robots, goals, keys@[j]).len() > 1 ==> exists|i: int|
                    0 <= i < list@.len() && (#[trigger] list@[i]).0.0 == keys@[j],
        decreases keys@.len() - k,
    {
        let n = keys[k];
        let ghost before = list@;
        proof {
            assert(keys@.to_set().contains(keys@[k as int]));
            assert(groups@.contains_key(n));
        }
        if let Some(there) = groups.get(&n) {
            assert(there@ == robots_at(robots, goals, n));
            if there.len() > 1 {
                let sorted = sorted_robots(there);
                list.push((NodeId(n), sorted));
                proof {
                    assert(list@[list@.len() - 1].0.0 == n);
                    assert forall|i: int| 0 <= i < before.len() implies #[trigger] list@[i]
                        == before[i] by {}
                    assert forall|j: int|
                        #![trigger keys@[j]]
                        0 <= j < k && robots_at(robots, goals, keys@[j]).len()
                            > 1 implies exists|i: int|
                        0 <= i < list@.len() && (#[trigger] list@[i]).0.0 == keys@[j] by {
                        let i = choose|i: int|
                            0 <= i < before.len() && (#[trigger] before[i]).0.0 == keys@[j];
                        assert(list@[i].0.0 == keys@[j]);
                    }
                }
            }
        }
        k = k + 1;
    }
    proof {
        assert forall|n: u32|
            (#[trigger] robots_at(robots, goals, n)).len() > 1 implies exists|i: int|
            0 <= i < list@.len() && (#[trigger] list@[i]).0.0 == n by {
            assert(groups@.contains_key(n));
            assert(keys@.to_set().contains(n));
            let j = keys@.index_of(n);
            assert(keys@[j] == n);
        }
    }
    list
}

// ---------------------------------------------------------------- rings
/// Whether every robot of `a` occurs in `b`.
fn all_occur(a: &Vec<RobotId>, b: &Vec<RobotId>) -> (r: bool)
    ensures
        r == (forall|x: RobotId| #[trigger] a@.contains(x) ==> b@.contains(x)),
{
    let mut i: usize = 0;
    while i < a.len()
        invariant
            i <= a@.len(),
            forall|j: int| 0 <= j < i ==> b@.contains(#[trigger] a@[j]),
        decreases a@.len() - i,
    {
        let x = a[i];
        let mut k: usize = 0;
        let mut found = false;
        while k < b.len()
            invariant
                k <= b@.len(),
                found == (exists|j: int| 0 <= j < k && #[trigger] b@[j] == x),
            decreases b@.len() - k,
        {
            if b[k] == x {
                found = true;
            }
            k = k + 1;
        }
        if !found {
            assert(a@.contains(x));
            assert(!b@.contains(x));
            return false;
        }
        i = i + 1;
    }
    true
}

/// Whether two rings have the same robots.
fn have_same_members(a: &Vec<RobotId>, b: &Vec<RobotId>) -> (r: bool)
    ensures
        r == same_members(a@, b@),
{
    let r = all_occur(a, b) && all_occur(b, a);
    proof {
        if same_members(a@, b@) {
            assert forall|x: RobotId| #[trigger] a@.contains(x) implies b@.contains(x) by {}
            assert forall|x: RobotId| #[trigger] b@.contains(x) implies a@.contains(x) by {}
        }
    }
    r
}

/// Whether `adj` lists, for each waiting robot, the robots that it waits for.
spec fn agrees(adj: Map<u64, Vec<RobotId>>, edges: Seq<(RobotId, RobotId)>) -> bool {
    forall|u: RobotId, v: RobotId|
        #![trigger edges.contains((u, v))]
        #![trigger adj[u.0]@.contains(v)]
        edges.contains((u, v)) <==> adj.contains_key(u.0) && adj[u.0]@.contains(v)
}

/// The numbers of all robots that wait or are waited for.
spec fn involved(edges: Seq<(RobotId, RobotId)>) -> Set<u64> {
    edges.map_values(|e: (RobotId, RobotId)| e.0.0).to_set().union(
        edges.map_values(|e: (RobotId, RobotId)| e.1.0).to_set(),
    )
}

proof fn lemma_involved(edges: Seq<(RobotId, RobotId)>)
    ensures
        involved(edges).finite(),
        forall|u: RobotId, v: RobotId| #[trigger]
            edges.contains((u, v)) ==> involved(edges).contains(u.0) && involved(edges).contains(
                v.0,
            ),
{
    let from = edges.map_values(|e: (RobotId, RobotId)| e.0.0);
    let to = edges.map_values(|e: (RobotId, RobotId)| e.1.0);
    vstd::seq_lib::seq_to_set_is_finite(from);
    vstd::seq_lib::seq_to_set_is_finite(to);
    assert forall|u: RobotId, v: RobotId| #[trigger] edges.contains((u, v)) implies involved(
        edges,
    ).contains(u.0) && involved(edges).contains(v.0) by {
        let i = edges.index_of((u, v));
        assert(from[i] == u.0);
        assert(to[i] == v.0);
        assert(from.to_set().contains(u.0));
        assert(to.to_set().contains(v.0));
    }
}

/// The reported rings are deadlocks, no two of the same robots, and not too many.
spec fn rings_ok(edges: Seq<(RobotId, RobotId)>, rings: Seq<Vec<RobotId>>) -> bool {
    &&& rings.len() <= MAX_CYCLES
    &&& forall|r: int| 0 <= r < rings.len() ==> is_deadlock(edges, (#[trigger] rings[r])@)
    &&& forall|r: int, q: int|
        0 <= r < q < rings.len() ==> !same_members(
            (#[trigger] rings[r])@,
            (#[trigger] rings[q])@,
        )
}

/// Whether `v` is one of the first `i` of `finished`.
spec fn finished_before(finished: Seq<RobotId>, i: int, v: RobotId) -> bool {
    exists|j: int| 0 <= j < i && j < finished.len() && #[trigger] finished[j] == v
}

/// Whether the robot at place `i` of a path waits for the next one.
spec fn linked(edges: Seq<(RobotId, RobotId)>, path: Seq<RobotId>, i: int) -> bool {
    edges.contains((path[i], path[i + 1]))
}

/// What holds between two steps of the depth-first search: the robots in progress form a
/// path of waits, and a finished robot waits only for robots that were finished before it
/// or that are reported together with it.
#[verifier::opaque]
spec fn visit_inv(
    edges: Seq<(RobotId, RobotId)>,
    color: Map<u64, u8>,
    path: Seq<RobotId>,
    rings: Seq<Vec<RobotId>>,
    finished: Seq<RobotId>,
) -> bool {
    &&& path.no_duplicates()
    &&& forall|i: int| 0 <= i < path.len() - 1 ==> #[trigger] linked(edges, path, i)
    &&& forall|v: RobotId| #[trigger]
        path.contains(v) <==> color.contains_key(v.0) && color[v.0] == 1
    &&& forall|v: RobotId| #[trigger]
        finished.contains(v) <==> color.contains_key(v.0) && color[v.0] == 2
    &&& forall|v: u64| #[trigger] color.contains_key(v) ==> color[v] == 1 || color[v] == 2
    &&& rings_ok(edges, rings)
    &&& rings.len() < MAX_CYCLES ==> forall|i: int, v: RobotId|
        #![trigger edges.contains((finished[i], v))]
        0 <= i < finished.len() && edges.contains((finished[i], v)) && v != finished[i] ==> {
            ||| finished_before(finished, i, v)
            ||| reported_together(rings, finished[i], v)
        }
}

/// Whether `b` begins with `a`.
spec fn extends<T>(a: Seq<T>, b: Seq<T>) -> bool {
    a.len() <= b.len() && forall|i: int| 0 <= i < a.len() ==> #[trigger] b[i] == a[i]
}

/// A longer report reports at least as much.
proof fn lemma_reported_longer(
    a: Seq<Vec<RobotId>>,
    b: Seq<Vec<RobotId>>,
    u: RobotId,
    v: RobotId,
)
    requires
        extends(a, b),
        reported_together(a, u, v),
    ensures
        reported_together(b, u, v),
{
    let r = choose|r: int|
        0 <= r < a.len() && (#[trigger] a[r])@.contains(u) && a[r]@.contains(v);
    assert(b[r] == a[r]);
}

/// Adds the ring that closes when the last robot of `path` waits for `v`, which is on the
/// path already, unless the ring is known or the report is full.
fn report_ring(
    path: &Vec<RobotId>,
    v: RobotId,
    result: &mut Vec<Vec<RobotId>>,
    Ghost(edges): Ghost<Seq<(RobotId, RobotId)>>,
)
    requires
        rings_ok(edges, old(result)@),
        path@.no_duplicates(),
        forall|i: int| 0 <= i < path@.len() - 1 ==> #[trigger] linked(edges, path@, i),
        path@.contains(v),
        path@.last() != v,
        edges.contains((path@.last(), v)),
    ensures
        rings_ok(edges, final(result)@),
        extends(old(result)@, final(result)@),
        final(result)@.len() < MAX_CYCLES ==> reported_together(
            final(result)@,
            path@.last(),
            v,
        ),
{
    if result.len() >= MAX_CYCLES {
        return ;
    }
    let len: usize = path.len();
    let mut idx: usize = 0;
    while path[idx] != v
        invariant
            idx < len,
            len == path@.len(),
            path@.contains(v),
            forall|j: int| 0 <= j < idx ==> #[trigger] path@[j] != v,
        decreases path@.len() - idx,
    {
        proof {
            let at = path@.index_of(v);
            assert(path@[at] == v);
            assert(at > idx);
        }
        idx = idx + 1;
    }
    let mut ring: Vec<RobotId> = Vec::new();
    let mut i: usize = idx;
    while i < path.len()
        invariant
            idx <= i <= path@.len(),
            ring@ == path@.subrange(idx as int, i as int),
        decreases path@.len() - i,
    {
        ring.push(path[i]);
        i = i + 1;
        assert(ring@ =~= path@.subrange(idx as int, i as int));
    }
    let ghost u = path@.last();
    proof {
        assert(ring@[ring@.len() - 1] == u);
        assert(ring@[0] == v);
        assert(ring@.contains(u));
        assert(ring@.contains(v));
        assert forall|j: int| 0 <= j < ring@.len() implies #[trigger] waits_for_next(
            edges,
            ring@,
            j,
        ) by {
            if j + 1 < ring@.len() {
                assert(linked(edges, path@, idx + j));
                assert(ring@[j] == path@[idx + j]);
                assert(ring@[j + 1] == path@[idx + j + 1]);
            }
        }
        assert forall|a: int, b: int|
            0 <= a < ring@.len() && 0 <= b < ring@.len() && a != b implies ring@[a] != ring@[b] by {
            assert(ring@[a] == path@[idx + a]);
            assert(ring@[b] == path@[idx + b]);
        }
        assert(is_deadlock(edges, ring@));
    }
    let mut r: usize = 0;
    while r < result.len()
        invariant
            r <= result@.len(),
            result@ == old(result)@,
            result@.len() < MAX_CYCLES,
            rings_ok(edges, result@),
            ring@.contains(u),
            ring@.contains(v),
            path@.len() > 0,
            u == path@.last(),
            forall|q: int| 0 <= q < r ==> !same_members((#[trigger] result@[q])@, ring@),
        decreases result@.len() - r,
    {
        if have_same_members(&result[r], &ring) {
            assert(result@[r as int]@.contains(u));
            assert(result@[r as int]@.contains(v));
            return ;
        }
        r = r + 1;
    }
    let ghost before = result@;
    result.push(ring);
    proof {
        let last = before.len() as int;
        assert(result@[last] == ring);
        assert forall|q: int| 0 <= q < result@.len() implies is_deadlock(
            edges,
            (#[trigger] result@[q])@,
        ) by {
            if q < last {
                assert(result@[q] == before[q]);
            }
        }
        assert forall|a: int, b: int| 0 <= a < b < result@.len() implies !same_members(
            (#[trigger] result@[a])@,
            (#[trigger] result@[b])@,
        ) by {
            assert(result@[a] == before[a]);
            if b < last {
                assert(result@[b] == before[b]);
            }
        }
    }
}

/// A robot is in progress, finished or new according to its mark.
proof fn lemma_marks(
    edges: Seq<(RobotId, RobotId)>,
    color: Map<u64, u8>,
    path: Seq<RobotId>,
    rings: Seq<Vec<RobotId>>,
    finished: Seq<RobotId>,
    v: RobotId,
)
    requires
        visit_inv(edges, color, path, rings, finished),
    ensures
        path.contains(v) <==> color.contains_key(v.0) && color[v.0] == 1,
        finished.contains(v) <==> color.contains_key(v.0) && color[v.0] == 2,
        color.contains_key(v.0) ==> color[v.0] == 1 || color[v.0] == 2,
        rings_ok(edges, rings),
        path.no_duplicates(),
        forall|i: int| 0 <= i < path.len() - 1 ==> #[trigger] linked(edges, path, i),
{
    reveal(visit_inv);
}

/// Beginning the visit of a new robot.
proof fn lemma_enter(
    edges: Seq<(RobotId, RobotId)>,
    color: Map<u64, u8>,
    path: Seq<RobotId>,
    rings: Seq<Vec<RobotId>>,
    finished: Seq<RobotId>,
    u: RobotId,
)
    requires
        visit_inv(edges, color, path, rings, finished),
        !color.contains_key(u.0),
        path.len() > 0 ==> edges.contains((path.last(), u)),
    ensures
        visit_inv(edges, color.insert(u.0, 1), path.push(u), rings, finished),
{
    reveal(visit_inv);
    let p = path.push(u);
    let c = color.insert(u.0, 1);
    assert(!path.contains(u));
    assert forall|a: int, b: int| 0 <= a < p.len() && 0 <= b < p.len() && a != b implies p[a]
        != p[b] by {
        if a < path.len() {
            assert(path.contains(path[a]));
        }
        if b < path.len() {
            assert(path.contains(path[b]));
        }
    }
    assert forall|i: int| 0 <= i < p.len() - 1 implies #[trigger] linked(edges, p, i) by {
        assert(p[i] == path[i]);
        if i + 1 < path.len() {
            assert(linked(edges, path, i));
            assert(p[i + 1] == path[i + 1]);
        }
    }
    assert forall|v: RobotId| #[trigger]
        p.contains(v) <==> c.contains_key(v.0) && c[v.0] == 1 by {
        if p.contains(v) {
            let i = p.index_of(v);
            if i < path.len() {
                assert(path[i] == v);
                assert(path.contains(v));
            }
        }
        if c.contains_key(v.0) && c[v.0] == 1 {
            if v.0 == u.0 {
                assert(p[path.len() as int] == v);
            } else {
                assert(path.contains(v));
                let i = path.index_of(v);
                assert(p[i] == v);
            }
        }
    }
    assert forall|v: RobotId| #[trigger]
        finished.contains(v) <==> c.contains_key(v.0) && c[v.0] == 2 by {
        assert(finished.contains(v) <==> color.contains_key(v.0) && color[v.0] == 2);
    }
}

/// A longer report keeps the invariant.
proof fn lemma_report_grows(
    edges: Seq<(RobotId, RobotId)>,
    color: Map<u64, u8>,
    path: Seq<RobotId>,
    rings: Seq<Vec<RobotId>>,
    longer: Seq<Vec<RobotId>>,
    finished: Seq<RobotId>,
)
    requires
        visit_inv(edges, color, path, rings, finished),
        rings_ok(edges, longer),
        extends(rings, longer),
    ensures
        visit_inv(edges, color, path, longer, finished),
{
    reveal(visit_inv);
    if longer.len() < MAX_CYCLES {
        assert forall|i: int, w: RobotId|
            #![trigger edges.contains((finished[i], w))]
            0 <= i < finished.len() && edges.contains((finished[i], w)) && w
                != finished[i] implies {
            ||| finished_before(finished, i, w)
            ||| reported_together(longer, finished[i], w)
        } by {
            if reported_together(rings, finished[i], w) {
                lemma_reported_longer(rings, longer, finished[i], w);
            }
        }
    }
}

/// Whether robot `v`, for which `u` waits, has been dealt with.
spec fn dealt_with(
    u: RobotId,
    v: RobotId,
    rings: Seq<Vec<RobotId>>,
    finished: Seq<RobotId>,
) -> bool {
    ||| v == u
    ||| finished.contains(v)
    ||| reported_together(rings, u, v)
}

/// Ending the visit of the last robot in progress.
proof fn lemma_leave(
    edges: Seq<(RobotId, RobotId)>,
    color: Map<u64, u8>,
    path: Seq<RobotId>,
    rings: Seq<Vec<RobotId>>,
    finished: Seq<RobotId>,
    u: RobotId,
)
    requires
        visit_inv(edges, color, path.push(u), rings, finished),
        rings.len() < MAX_CYCLES ==> forall|v: RobotId| #[trigger]
            edges.contains((u, v)) ==> dealt_with(u, v, rings, finished),
    ensures
        visit_inv(edges, color.insert(u.0, 2), path, rings, finished.push(u)),
{
    reveal(visit_inv);
    let p = path.push(u);
    let c = color.insert(u.0, 2);
    let done = finished.push(u);
    assert(p[path.len() as int] == u);
    assert(p.contains(u));
    assert(!finished.contains(u));
    assert forall|a: int, b: int| 0 <= a < path.len() && 0 <= b < path.len() && a != b implies path[a]
        != path[b] by {
        assert(p[a] == path[a]);
        assert(p[b] == path[b]);
    }
    assert forall|i: int| 0 <= i < path.len() - 1 implies #[trigger] linked(edges, path, i) by {
        assert(linked(edges, p, i));
        assert(p[i] == path[i]);
        assert(p[i + 1] == path[i + 1]);
    }
    assert forall|v: RobotId| #[trigger]
        path.contains(v) <==> c.contains_key(v.0) && c[v.0] == 1 by {
        if path.contains(v) {
            let i = path.index_of(v);
            assert(p[i] == v);
            assert(p.contains(v));
            assert(v != u) by {
                assert(p[i] != p[path.len() as int]);
            }
        }
        if c.contains_key(v.0) && c[v.0] == 1 {
            assert(v.0 != u.0);
            assert(p.contains(v));
            let i = p.index_of(v);
            assert(i < path.len());
            assert(path[i] == v);
        }
    }
    assert forall|v: RobotId| #[trigger]
        done.contains(v) <==> c.contains_key(v.0) && c[v.0] == 2 by {
        if done.contains(v) {
            let i = done.index_of(v);
            if i < finished.len() {
                assert(finished[i] == v);
                assert(finished.contains(v));
            }
        }
        if c.contains_key(v.0) && c[v.0] == 2 {
            if v.0 == u.0 {
                assert(done[finished.len() as int] == v);
            } else {
                assert(finished.contains(v));
                let i = finished.index_of(v);
                assert(done[i] == v);
            }
        }
    }
    if rings.len() < MAX_CYCLES {
        assert forall|i: int, v: RobotId|
            #![trigger edges.contains((done[i], v))]
            0 <= i < done.len() && edges.contains((done[i], v)) && v != done[i] implies {
            ||| finished_before(done, i, v)
            ||| reported_together(rings, done[i], v)
        } by {
            if i < finished.len() {
                assert(done[i] == finished[i]);
                assert(edges.contains((finished[i], v)));
                if finished_before(finished, i, v) {
                    let j = choose|j: int|
                        0 <= j < i && j < finished.len() && #[trigger] finished[j] == v;
                    assert(done[j] == v);
                }
            } else {
                assert(done[i] == u);
                assert(edges.contains((u, v)));
                assert(dealt_with(u, v, rings, finished));
                if finished.contains(v) {
                    let j = finished.index_of(v);
                    assert(done[j] == v);
                }
            }
        }
    }
}

/// What has been dealt with stays so.
proof fn lemma_dealt_with_stays(
    u: RobotId,
    v: RobotId,
    rings: Seq<Vec<RobotId>>,
    finished: Seq<RobotId>,
    rings2: Seq<Vec<RobotId>>,
    finished2: Seq<RobotId>,
)
    requires
        dealt_with(u, v, rings, finished),
        extends(rings, rings2),
        extends(finished, finished2),
    ensures
        dealt_with(u, v, rings2, finished2),
{
    if finished.contains(v) {
        let j = finished.index_of(v);
        assert(finished2[j] == v);
    } else if reported_together(rings, u, v) {
        lemma_reported_longer(rings, rings2, u, v);
    }
}

/// How many robots are still new.
spec fn new_count(edges: Seq<(RobotId, RobotId)>, color: Map<u64, u8>) -> nat {
    involved(edges).difference(color.dom()).len()
}

/// Marking more robots leaves no more new ones, and marking a new one leaves fewer.
proof fn lemma_new_count(
    edges: Seq<(RobotId, RobotId)>,
    color: Map<u64, u8>,
    color2: Map<u64, u8>,
    u: u64,
)
    requires
        involved(edges).contains(u),
        forall|v: u64| #[trigger] color.contains_key(v) ==> color2.contains_key(v),
        color2.contains_key(u),
    ensures
        new_count(edges, color2) <= new_count(edges, color),
        !color.contains_key(u) ==> new_count(edges, color2) < new_count(edges, color),
{
    lemma_involved(edges);
    let a = involved(edges).difference(color.dom());
    let b = involved(edges).difference(color2.dom());
    assert forall|v: u64| b.contains(v) implies a.contains(v) by {}
    vstd::set_lib::lemma_len_subset(b, a);
    if !color.contains_key(u) {
        assert(b.subset_of(a.remove(u)));
        vstd::set_lib::lemma_len_subset(b, a.remove(u));
    }
}

/// Visits a robot and all robots that it waits for, directly or through others, and reports
/// the rings that close.
fn dfs(
    u: RobotId,
    adj: &HashMap<u64, Vec<RobotId>>,
    color: &mut HashMap<u64, u8>,
    path: &mut Vec<RobotId>,
    result: &mut Vec<Vec<RobotId>>,
    Ghost(edges): Ghost<Seq<(RobotId, RobotId)>>,
    Ghost(finished): Ghost<Seq<RobotId>>,
) -> (r: Ghost<Seq<RobotId>>)
    requires
        agrees(adj@, edges),
        visit_inv(edges, old(color)@, old(path)@, old(result)@, finished),
        !old(color)@.contains_key(u.0),
        involved(edges).contains(u.0),
        old(path)@.len() > 0 ==> edges.contains((old(path)@.last(), u)),
    ensures
        visit_inv(edges, final(color)@, final(path)@, final(result)@, r@),
        final(path)@ == old(path)@,
        extends(old(result)@, final(result)@),
        extends(finished, r@),
        r@.contains(u),
        forall|v: u64| #[trigger]
            old(color)@.contains_key(v) ==> final(color)@.contains_key(v),
    decreases new_count(edges, old(color)@),
{
    let ghost color0 = color@;
    let ghost path0 = path@;
    let ghost result0 = result@;
    let ghost mut fin = finished;
    color.insert(u.0, 1);
    path.push(u);
    proof {
        lemma_enter(edges, color0, path0, result@, fin, u);
        lemma_new_count(edges, color0, color@, u.0);
    }
    if let Some(nbrs) = adj.get(&u.0) {
        let mut k: usize = 0;
        while k < nbrs.len()
            invariant
                agrees(adj@, edges),
                adj@.contains_key(u.0),
                nbrs@ == adj@[u.0]@,
                visit_inv(edges, color@, path@, result@, fin),
                path@ == path0.push(u),
                extends(result0, result@),
                extends(finished, fin),
                forall|v: u64| #[trigger] color0.contains_key(v) ==> color@.contains_key(v),
                new_count(edges, color@) < new_count(edges, color0),
                color0 == old(color)@,
                k <= nbrs@.len(),
                result@.len() < MAX_CYCLES ==> forall|i: int|
                    0 <= i < k ==> dealt_with(u, #[trigger] nbrs@[i], result@, fin),
            ensures
                k == nbrs@.len() || result@.len() >= MAX_CYCLES,
            decreases nbrs@.len() - k,
        {
            let v = nbrs[k];
            proof {
                assert(nbrs@.contains(v));
                assert(adj@[u.0]@.contains(v));
                assert(edges.contains((u, v)));
                lemma_involved(edges);
                lemma_marks(edges, color@, path@, result@, fin, v);
            }
            let state: u8 = match color.get(&v.0) {
                Some(c) => *c,
                None => 0,
            };
            let ghost result1 = result@;
            let ghost color1 = color@;
            let ghost fin1 = fin;
            if state == 0 {
                if result.len() >= MAX_CYCLES {
                    break;
                }
                let after = dfs(v, adj, color, path, result, Ghost(edges), Ghost(fin));
                proof {
                    fin = after@;
                    lemma_marks(edges, color@, path@, result@, fin, v);
                    lemma_new_count(edges, color1, color@, v.0);
                }
            } else if state == 1 {
                if v != u {
                    report_ring(path, v, result, Ghost(edges));
                    proof {
                        lemma_report_grows(edges, color@, path@, result1, result@, fin);
                    }
                }
            }
            proof {
                if result@.len() < MAX_CYCLES {
                    assert(dealt_with(u, v, result@, fin));
                    assert forall|i: int| 0 <= i < k + 1 implies dealt_with(
                        u,
                        #[trigger] nbrs@[i],
                        result@,
                        fin,
                    ) by {
                        if i < k {
                            lemma_dealt_with_stays(u, nbrs@[i], result1, fin1, result@, fin);
                        }
                    }
                }
            }
            k = k + 1;
        }
        proof {
            if result@.len() < MAX_CYCLES {
                assert forall|v: RobotId| #[trigger] edges.contains((u, v)) implies dealt_with(
                    u,
                    v,
                    result@,
                    fin,
                ) by {
                    assert(adj@[u.0]@.contains(v));
                    let i = nbrs@.index_of(v);
                    assert(nbrs@[i] == v);
                }
            }
        }
    } else {
        proof {
            assert forall|v: RobotId| #[trigger] edges.contains((u, v)) implies dealt_with(
                u,
                v,
                result@,
                fin,
            ) by {
                assert(adj@.contains_key(u.0));
            }
        }
    }
    let ghost color2 = color@;
    path.pop();
    color.insert(u.0, 2);
    proof {
        assert(path@ =~= path0);
        lemma_leave(edges, color2, path0, result@, fin, u);
        assert(fin.push(u)[fin.len() as int] == u);
        assert forall|i: int| 0 <= i < finished.len() implies #[trigger] fin.push(u)[i]
            == finished[i] by {
            assert(fin[i] == finished[i]);
        }
    }
    Ghost(fin.push(u))
}

/// In a ring none of whose pairs is reported, each robot was finished before the one that
/// waits for it.
proof fn lemma_finished_backwards(
    edges: Seq<(RobotId, RobotId)>,
    color: Map<u64, u8>,
    rings: Seq<Vec<RobotId>>,
    finished: Seq<RobotId>,
    ring: Seq<RobotId>,
    a: int,
    k: int,
) -> (b: int)
    requires
        visit_inv(edges, color, Seq::empty(), rings, finished),
        rings.len() < MAX_CYCLES,
        is_deadlock(edges, ring),
        !touched(rings, ring),
        0 <= a < finished.len(),
        finished[a] == ring[0],
        0 <= k < ring.len(),
    ensures
        0 <= b <= a - k,
        finished[b] == ring[k],
    decreases k,
{
    if k == 0 {
        a
    } else {
        let c = lemma_finished_backwards(edges, color, rings, finished, ring, a, k - 1);
        lemma_finished_next(edges, color, rings, finished, ring, c, k - 1)
    }
}

/// In a ring none of whose pairs is reported, the robot after place `i` was finished before
/// the one at place `i`.
proof fn lemma_finished_next(
    edges: Seq<(RobotId, RobotId)>,
    color: Map<u64, u8>,
    rings: Seq<Vec<RobotId>>,
    finished: Seq<RobotId>,
    ring: Seq<RobotId>,
    c: int,
    i: int,
) -> (b: int)
    requires
        visit_inv(edges, color, Seq::empty(), rings, finished),
        rings.len() < MAX_CYCLES,
        is_deadlock(edges, ring),
        !touched(rings, ring),
        0 <= i < ring.len(),
        0 <= c < finished.len(),
        finished[c] == ring[i],
    ensures
        0 <= b < c,
        finished[b] == ring[next_in(ring, i)],
{
    reveal(visit_inv);
    let v = ring[next_in(ring, i)];
    assert(waits_for_next(edges, ring, i));
    assert(edges.contains((finished[c], v)));
    assert(!reported_together(rings, ring[i], v));
    assert(v != ring[i]);
    assert(finished_before(finished, c, v));
    choose|j: int| 0 <= j < c && j < finished.len() && #[trigger] finished[j] == v
}

/// A deadlock whose first robot is finished is touched: otherwise that robot would be finished
/// before itself.
proof fn lemma_finished_deadlock_touched(
    edges: Seq<(RobotId, RobotId)>,
    color: Map<u64, u8>,
    rings: Seq<Vec<RobotId>>,
    finished: Seq<RobotId>,
    ring: Seq<RobotId>,
    a: int,
)
    requires
        visit_inv(edges, color, Seq::empty(), rings, finished),
        rings.len() < MAX_CYCLES,
        is_deadlock(edges, ring),
        0 <= a < finished.len(),
        finished[a] == ring[0],
    ensures
        touched(rings, ring),
    decreases a,
{
    if !touched(rings, ring) {
        let last = ring.len() - 1;
        let b = lemma_finished_backwards(edges, color, rings, finished, ring, a, last);
        let again = lemma_finished_next(edges, color, rings, finished, ring, b, last);
        lemma_finished_deadlock_touched(edges, color, rings, finished, ring, again);
    }
}

/// Where all waiting robots are finished and the report is not full, every deadlock is
/// touched by the report.
proof fn lemma_every_deadlock_touched(
    adj: Map<u64, Vec<RobotId>>,
    edges: Seq<(RobotId, RobotId)>,
    color: Map<u64, u8>,
    rings: Seq<Vec<RobotId>>,
    finished: Seq<RobotId>,
    ring: Seq<RobotId>,
)
    requires
        agrees(adj, edges),
        visit_inv(edges, color, Seq::empty(), rings, finished),
        rings.len() < MAX_CYCLES,
        forall|u: u64| #[trigger] adj.contains_key(u) ==> color.contains_key(u),
        is_deadlock(edges, ring),
    ensures
        touched(rings, ring),
{
    let first = ring[0];
    assert(waits_for_next(edges, ring, 0));
    assert(adj.contains_key(first.0));
    lemma_marks(edges, color, Seq::empty(), rings, finished, first);
    assert(!Seq::<RobotId>::empty().contains(first));
    assert(finished.contains(first));
    let a = finished.index_of(first);
    lemma_finished_deadlock_touched(edges, color, rings, finished, ring, a);
}

/// The deadlocks in a graph of waits.
fn find_cycles(
    adj: &HashMap<u64, Vec<RobotId>>,
    Ghost(edges): Ghost<Seq<(RobotId, RobotId)>>,
) -> (r: Vec<Vec<RobotId>>)
    requires
        agrees(adj@, edges),
        forall|u: u64| #[trigger] adj@.contains_key(u) ==> adj@[u]@.len() > 0,
    ensures
        reports_deadlocks(edges, r@),
{
    let mut color: HashMap<u64, u8> = HashMap::new();
    let mut path: Vec<RobotId> = Vec::new();
    let mut result: Vec<Vec<RobotId>> = Vec::new();
    let ghost mut fin: Seq<RobotId> = Seq::empty();
    let roots = wide_keys(adj);
    proof {
        reveal(visit_inv);
        assert(visit_inv(edges, color@, path@, result@, fin));
        lemma_involved(edges);
    }
    let mut k: usize = 0;
    while k < roots.len()
        invariant
            agrees(adj@, edges),
            forall|u: u64| #[trigger] adj@.contains_key(u) ==> adj@[u]@.len() > 0,
            roots@.to_set() == adj@.dom(),
            k <= roots@.len(),
            path@ == Seq::<RobotId>::empty(),
            visit_inv(edges, color@, path@, result@, fin),
            forall|j: int| 0 <= j < k ==> color@.contains_key(#[trigger] roots@[j]),
        ensures
            k == roots@.len() || result@.len() >= MAX_CYCLES,
        decreases roots@.len() - k,
    {
        let root = RobotId(roots[k]);
        proof {
            assert(roots@.to_set().contains(roots@[k as int]));
            let v = adj@[root.0]@[0];
            assert(adj@[root.0]@.contains(v));
            assert(edges.contains((root, v)));
            lemma_involved(edges);
            lemma_marks(edges, color@, path@, result@, fin, root);
            assert(!path@.contains(root));
        }
        let visited = color.contains_key(&root.0);
        if !visited {
            let after = dfs(root, adj, &mut color, &mut path, &mut result, Ghost(edges), Ghost(fin));
            proof {
                fin = after@;
                lemma_marks(edges, color@, path@, result@, fin, root);
            }
            if result.len() >= MAX_CYCLES {
                break;
            }
        }
        k = k + 1;
    }
    proof {
        lemma_marks(edges, color@, path@, result@, fin, RobotId(0));
        if result@.len() < MAX_CYCLES {
            assert forall|u: u64| #[trigger] adj@.contains_key(u) implies color@.contains_key(u) by {
                assert(roots@.to_set().contains(u));
                let j = roots@.index_of(u);
                assert(roots@[j] == u);
            }
            assert forall|ring: Seq<RobotId>| #[trigger] is_deadlock(edges, ring) implies touched(
                result@,
                ring,
            ) by {
                lemma_every_deadlock_touched(adj@, edges, color@, result@, fin, ring);
            }
        }
    }
    result
}

// ---------------------------------------------------------------- the analysis
/// Records that `u` waits for `v`.
fn add_wait(
    adj: &mut HashMap<u64, Vec<RobotId>>,
    edges: &mut Vec<(RobotId, RobotId)>,
    u: RobotId,
    v: RobotId,
)
    requires
        agrees(old(adj)@, old(edges)@),
        forall|w: u64| #[trigger] old(adj)@.contains_key(w) ==> old(adj)@[w]@.len() > 0,
    ensures
        final(edges)@ == old(edges)@.push((u, v)),
        agrees(final(adj)@, final(edges)@),
        forall|w: u64| #[trigger] final(adj)@.contains_key(w) ==> final(adj)@[w]@.len() > 0,
{
    let ghost adj0 = adj@;
    let ghost edges0 = edges@;
    edges.push((u, v));
    let mut list = match adj.remove(&u.0) {
        Some(list) => list,
        None => Vec::new(),
    };
    let ghost listed = list@;
    list.push(v);
    adj.insert(u.0, list);
    proof {
        assert forall|a: RobotId, b: RobotId|
            #![trigger edges@.contains((a, b))]
            #![trigger adj@[a.0]@.contains(b)]
            edges@.contains((a, b)) <==> adj@.contains_key(a.0) && adj@[a.0]@.contains(b) by {
            if edges@.contains((a, b)) {
                let i = edges@.index_of((a, b));
                if i < edges0.len() {
                    assert(edges0[i] == (a, b));
                    assert(edges0.contains((a, b)));
                    if a.0 == u.0 {
                        let j = listed.index_of(b);
                        assert(list@[j] == b);
                    }
                } else {
                    assert(list@[listed.len() as int] == v);
                }
            }
            if adj@.contains_key(a.0) && adj@[a.0]@.contains(b) {
                if a.0 == u.0 {
                    let j = list@.index_of(b);
                    if j < listed.len() {
                        assert(listed[j] == b);
                        assert(listed.contains(b));
                        assert(edges0.contains((a, b)));
                        let i = edges0.index_of((a, b));
                        assert(edges@[i] == (a, b));
                    } else {
                        assert(edges@[edges0.len() as int] == (a, b));
                    }
                } else {
                    assert(edges0.contains((a, b)));
                    let i = edges0.index_of((a, b));
                    assert(edges@[i] == (a, b));
                }
            }
        }
    }
}

/// Records that `id` waits for each of `holders` but itself.
fn add_waits(
    adj: &mut HashMap<u64, Vec<RobotId>>,
    edges: &mut Vec<(RobotId, RobotId)>,
    id: RobotId,
    holders: &Vec<RobotId>,
)
    requires
        agrees(old(adj)@, old(edges)@),
        forall|w: u64| #[trigger] old(adj)@.contains_key(w) ==> old(adj)@[w]@.len() > 0,
    ensures
        final(edges)@ == old(edges)@ + waits_for(id, holders@),
        agrees(final(adj)@, final(edges)@),
        forall|w: u64| #[trigger] final(adj)@.contains_key(w) ==> final(adj)@[w]@.len() > 0,
{
    let mut i: usize = 0;
    proof {
        assert(holders@.take(0) =~= Seq::<RobotId>::empty());
        assert(edges@ =~= old(edges)@ + waits_for(id, holders@.take(0)));
    }
    while i < holders.len()
        invariant
            i <= holders@.len(),
            edges@ == old(edges)@ + waits_for(id, holders@.take(i as int)),
            agrees(adj@, edges@),
            forall|w: u64| #[trigger] adj@.contains_key(w) ==> adj@[w]@.len() > 0,
        decreases holders@.len() - i,
    {
        let h = holders[i];
        proof {
            assert(holders@.take(i + 1).drop_last() =~= holders@.take(i as int));
            assert(holders@.take(i + 1).last() == h);
        }
        if h != id {
            add_wait(adj, edges, id, h);
            assert(edges@ =~= old(edges)@ + waits_for(id, holders@.take(i + 1)));
        }
        i = i + 1;
    }
    assert(holders@.take(i as int) =~= holders@);
}

/// Analyses a snapshot of robots.
pub fn analyze(robots: &[RobotState]) -> (r: ConflictReport)
    ensures
        is_report(robot_views(robots@), r),
{
    let ghost all = robot_views(robots@);
    let occupancy = group_by_place(robots, false);
    let crowded = shared_places(&occupancy, Ghost(all), Ghost(false));
    let goals = group_by_place(robots, true);
    let contested = shared_places(&goals, Ghost(all), Ghost(true));
    let mut adj: HashMap<u64, Vec<RobotId>> = HashMap::new();
    let mut wait_edges: Vec<(RobotId, RobotId)> = Vec::new();
    let mut i: usize = 0;
    while i < robots.len()
        invariant
            i <= robots@.len(),
            all == robot_views(robots@),
            groups_robots(occupancy@, all, false),
            agrees(adj@, wait_edges@),
            forall|w: u64| #[trigger] adj@.contains_key(w) ==> adj@[w]@.len() > 0,
            wait_edges@ == waits_of_first(all, i as nat),
        decreases robots@.len() - i,
    {
        assert(all[i as int] == robots@[i as int]@);
        if let Some(t) = place_node(&robots[i], true) {
            assert(robots_at(all, false, t.0) == (if occupancy@.contains_key(t.0) {
                occupancy@[t.0]@
            } else {
                Seq::empty()
            }));
            if let Some(holders) = occupancy.get(&t.0) {
                add_waits(&mut adj, &mut wait_edges, robots[i].id, holders);
            } else {
                assert(waits_for(robots@[i as int].id, Seq::empty()) =~= Seq::empty());
                assert(wait_edges@ =~= wait_edges@ + Seq::<(RobotId, RobotId)>::empty());
            }
        }
        i = i + 1;
    }
    let deadlock_cycles = find_cycles(&adj, Ghost(wait_edges@));
    ConflictReport { crowded, contested, wait_edges, deadlock_cycles }
}

impl ConflictReport {
    /// Whether the analysis found any risk.
    pub open spec fn issue(self) -> bool {
        self.crowded@.len() > 0 || self.contested@.len() > 0 || self.deadlock_cycles@.len() > 0
    }

    /// Whether a robot is part of a reported deadlock.
    pub open spec fn in_deadlock(self, number: u64) -> bool {
        exists|r: int|
            0 <= r < self.deadlock_cycles@.len() && (#[trigger] self.deadlock_cycles@[r])@.contains(
                RobotId(number),
            )
    }

    /// Whether the analysis found any risk.
    pub fn has_issue(&self) -> (r: bool)
        ensures
            r == self.issue(),
    {
        self.crowded.len() > 0 || self.contested.len() > 0 || self.deadlock_cycles.len() > 0
    }

    /// The numbers of all robots that are part of a reported deadlock.
    pub fn deadlock_robots(&self) -> (r: HashSet<u64>)
        ensures
            forall|n: u64| #[trigger] r@.contains(n) <==> self.in_deadlock(n),
    {
        let mut out: HashSet<u64> = HashSet::new();
        let mut c: usize = 0;
        while c < self.deadlock_cycles.len()
            invariant
                c <= self.deadlock_cycles@.len(),
                forall|n: u64| #[trigger]
                    out@.contains(n) <==> exists|r: int|
                        0 <= r < c && (#[trigger] self.deadlock_cycles@[r])@.contains(RobotId(n)),
            decreases self.deadlock_cycles@.len() - c,
        {
            let ring = &self.deadlock_cycles[c];
            let ghost before = out@;
            let mut i: usize = 0;
            while i < ring.len()
                invariant
                    i <= ring@.len(),
                    forall|n: u64| #[trigger]
                        out@.contains(n) <==> before.contains(n) || ring@.take(i as int).contains(
                            RobotId(n),
                        ),
                decreases ring@.len() - i,
            {
                let ghost so_far = out@;
                let x = ring[i].0;
                out.insert(x);
                proof {
                    assert(ring@.take(i + 1) =~= ring@.take(i as int).push(ring@[i as int]));
                    assert forall|n: u64| #[trigger]
                        out@.contains(n) <==> before.contains(n) || ring@.take(i + 1).contains(
                            RobotId(n),
                        ) by {
                        assert(so_far.contains(n) <==> before.contains(n) || ring@.take(
                            i as int,
                        ).contains(RobotId(n)));
                        let id = RobotId(n);
                        if ring@.take(i as int).contains(id) {
                            let j = ring@.take(i as int).index_of(id);
                            assert(ring@.take(i + 1)[j] == id);
                        }
                        if ring@.take(i + 1).contains(id) && n != x {
                            let j = ring@.take(i + 1).index_of(id);
                            assert(ring@.take(i as int)[j] == id);
                        }
                        if n == x {
                            assert(ring@.take(i + 1)[i as int] == id);
                        }
                    }
                }
                i = i + 1;
            }
            proof {
                assert(ring@.take(i as int) =~= ring@);
                assert forall|n: u64| #[trigger]
                    out@.contains(n) <==> exists|r: int|
                        0 <= r < c + 1 && (#[trigger] self.deadlock_cycles@[r])@.contains(
                            RobotId(n),
                        ) by {
                    assert(before.contains(n) <==> exists|r: int|
                        0 <= r < c && (#[trigger] self.deadlock_cycles@[r])@.contains(
                            RobotId(n),
                        ));
                    assert(self.deadlock_cycles@[c as int]@ == ring@);
                }
            }
            c = c + 1;
        }
        out
    }
}

// ---------------------------------------------------------------- laws
/// Whether the robot at place `i` of a snapshot is busy with a target that the robot at place
/// `j` stands on, and they are different robots.
pub open spec fn waits_on(robots: Seq<RobotView>, i: int, j: int) -> bool {
    &&& 0 <= i < robots.len()
    &&& 0 <= j < robots.len()
    &&& robots[i].status == RobotStatus::Busy
    &&& robots[i].target is Some
    &&& robots[j].status != RobotStatus::Offline
    &&& robots[j].location.node == robots[i].target
    &&& robots[i].id != robots[j].id
}

/// A robot is at a place if and only if the snapshot says so.
pub proof fn lemma_robots_at(robots: Seq<RobotView>, goals: bool, node: u32, id: RobotId)
    ensures
        robots_at(robots, goals, node).contains(id) <==> exists|j: int|
            0 <= j < robots.len() && (#[trigger] robots[j]).id == id && place_of(robots[j], goals)
                == Some(NodeId(node)),
    decreases robots.len(),
{
    if robots.len() > 0 {
        let rest = robots.drop_last();
        let before = robots_at(rest, goals, node);
        let there = robots_at(robots, goals, node);
        let last = robots.len() - 1;
        lemma_robots_at(rest, goals, node, id);
        if there.contains(id) {
            let m = there.index_of(id);
            if m < before.len() {
                assert(before[m] == id);
                assert(before.contains(id));
                let j = choose|j: int|
                    0 <= j < rest.len() && (#[trigger] rest[j]).id == id && place_of(rest[j], goals)
                        == Some(NodeId(node));
                assert(robots[j] == rest[j]);
            } else {
                assert(robots[last].id == id);
            }
        }
        if exists|j: int|
            0 <= j < robots.len() && (#[trigger] robots[j]).id == id && place_of(robots[j], goals)
                == Some(NodeId(node)) {
            let j = choose|j: int|
                0 <= j < robots.len() && (#[trigger] robots[j]).id == id && place_of(
                    robots[j],
                    goals,
                ) == Some(NodeId(node));
            if j < last {
                assert(rest[j] == robots[j]);
                assert(before.contains(id));
                let m = before.index_of(id);
                assert(there[m] == id);
            } else {
                assert(there[before.len() as int] == id);
            }
        }
    }
}

/// A robot waits for each holder but itself.
proof fn lemma_waits_for(id: RobotId, holders: Seq<RobotId>, a: RobotId, b: RobotId)
    ensures
        waits_for(id, holders).contains((a, b)) <==> a == id && b != id && holders.contains(b),
    decreases holders.len(),
{
    let all = waits_for(id, holders);
    if holders.len() > 0 {
        let rest = holders.drop_last();
        let before = waits_for(id, rest);
        lemma_waits_for(id, rest, a, b);
        if all.contains((a, b)) {
            let m = all.index_of((a, b));
            if m < before.len() {
                assert(before[m] == (a, b));
                assert(rest.contains(b));
                let j = rest.index_of(b);
                assert(holders[j] == b);
            } else {
                assert(holders[holders.len() - 1] == b);
            }
        }
        if a == id && b != id && holders.contains(b) {
            let j = holders.index_of(b);
            if j < rest.len() {
                assert(rest[j] == b);
                let m = before.index_of((a, b));
                assert(all[m] == (a, b));
            } else {
                assert(all[before.len() as int] == (a, b));
            }
        }
    }
}

proof fn lemma_waits_of_first(robots: Seq<RobotView>, k: nat, a: RobotId, b: RobotId)
    requires
        k <= robots.len(),
    ensures
        waits_of_first(robots, k).contains((a, b)) <==> exists|i: int, j: int|
            i < k && #[trigger] waits_on(robots, i, j) && robots[i].id == a && robots[j].id == b,
    decreases k,
{
    if k > 0 {
        let r = robots[k - 1];
        let before = waits_of_first(robots, (k - 1) as nat);
        let all = waits_of_first(robots, k);
        lemma_waits_of_first(robots, (k - 1) as nat, a, b);
        match place_of(r, true) {
            Some(t) => {
                let more = waits_for(r.id, occupants(robots, t.0));
                lemma_waits_for(r.id, occupants(robots, t.0), a, b);
                lemma_robots_at(robots, false, t.0, b);
                if all.contains((a, b)) {
                    let m = all.index_of((a, b));
                    if m < before.len() {
                        assert(before[m] == (a, b));
                    } else {
                        assert(more[m - before.len()] == (a, b));
                        assert(more.contains((a, b)));
                        let j = choose|j: int|
                            0 <= j < robots.len() && (#[trigger] robots[j]).id == b && place_of(
                                robots[j],
                                false,
                            ) == Some(NodeId(t.0));
                        assert(waits_on(robots, k - 1, j));
                    }
                }
                if exists|i: int, j: int|
                    i < k && #[trigger] waits_on(robots, i, j) && robots[i].id == a && robots[j].id
                        == b {
                    let (i, j) = choose|i: int, j: int|
                        i < k && #[trigger] waits_on(robots, i, j) && robots[i].id == a
                            && robots[j].id == b;
                    if i < k - 1 {
                        assert(before.contains((a, b)));
                        let m = before.index_of((a, b));
                        assert(all[m] == (a, b));
                    } else {
                        assert(place_of(robots[j], false) == Some(NodeId(t.0)));
                        assert(more.contains((a, b)));
                        let m = more.index_of((a, b));
                        assert(all[before.len() + m] == (a, b));
                    }
                }
            },
            None => {},
        }
    }
}

/// One robot waits for another if and only if it is busy, and the other stands on its target.
pub proof fn law_a_robot_waits_for_whoever_holds_its_target(
    robots: Seq<RobotView>,
    a: RobotId,
    b: RobotId,
)
    ensures
        waits(robots).contains((a, b)) <==> exists|i: int, j: int| #[trigger]
            waits_on(robots, i, j) && robots[i].id == a && robots[j].id == b,
{
    lemma_waits_of_first(robots, robots.len(), a, b);
}

/// The report names a deadlock if and only if there is one.
pub proof fn law_deadlocks_are_detected(robots: Seq<RobotView>, report: ConflictReport)
    requires
        is_report(robots, report),
    ensures
        report.deadlock_cycles@.len() > 0 <==> exists|ring: Seq<RobotId>| #[trigger]
            is_deadlock(waits(robots), ring),
{
    if report.deadlock_cycles@.len() > 0 {
        assert(is_deadlock(waits(robots), report.deadlock_cycles@[0]@));
    }
}

/// A robot that is not busy, or has no target, is in no deadlock.
pub proof fn law_a_robot_without_target_is_in_no_deadlock(
    robots: Seq<RobotView>,
    ring: Seq<RobotId>,
    id: RobotId,
)
    requires
        is_deadlock(waits(robots), ring),
        forall|i: int|
            0 <= i < robots.len() && (#[trigger] robots[i]).id == id ==> robots[i].status
                != RobotStatus::Busy || robots[i].target is None,
    ensures
        !ring.contains(id),
{
    if ring.contains(id) {
        let i = ring.index_of(id);
        assert(waits_for_next(waits(robots), ring, i));
        law_a_robot_waits_for_whoever_holds_its_target(robots, id, ring[next_in(ring, i)]);
    }
}

} // verus!
