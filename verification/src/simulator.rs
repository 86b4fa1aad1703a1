//! Virtual robots: where they drive, what they report, and when they charge; and random tasks
//! for them.

use crate::domain::laws::law_distances_are_euclidean;
use crate::domain::map::{lists_nodes, squared_distance, RoadMapView};
use crate::domain::task::TaskKindView;
use crate::domain::{
    Battery, Edge, Heartbeat, Location, NodeId, RoadMap, RobotId, RobotStatus, Task, TaskId,
    TaskKind, TaskPriority, TaskStatus, TaskView,
};
use crate::engine::pathfinding::{a_star, is_drive, is_route, law_a_star_returns_a_route};
use crate::engine::planning_laws::{apart, is_way, law_no_way_is_cheaper_than_the_one_found};
use crate::engine::{AStarPathfinder, Pathfinder};
use crate::storage::memory_store::StoreView;
use rand::Rng;
use vstd::prelude::*;

verus! {

/// Driving time from node to node, in milliseconds.
pub const MS_PER_NODE: u64 = 160;

/// By how many percent a charger raises the charge at each heartbeat.
pub const CHARGE_STEP: u8 = 10;

/// How many extra beats a robot stays at the pickup to take its load.
pub const LOAD_DWELL: u64 = 2;

/// One report of a virtual robot.
#[derive(Debug, Clone, Copy, PartialEq, Eq, Structural)]
pub struct Report {
    pub location: Location,
    pub battery: Battery,
    pub status: RobotStatus,
    pub carrying: bool,
    /// Whether the robot drives or loads for [`MS_PER_NODE`] after the report.
    pub pause: bool,
}

impl Report {
    /// The heartbeat of robot `id` with this report.
    pub open spec fn as_heartbeat(self, id: RobotId, now: u64) -> Heartbeat {
        Heartbeat {
            id,
            battery: self.battery,
            location: self.location,
            status: self.status,
            timestamp: now,
            carrying: self.carrying,
        }
    }

    /// The heartbeat of robot `id` with this report.
    pub fn heartbeat(&self, id: RobotId, now: u64) -> (r: Heartbeat)
        ensures
            r == self.as_heartbeat(id, now),
            r == (Heartbeat {
                id,
                battery: self.battery,
                location: self.location,
                status: self.status,
                timestamp: now,
                carrying: self.carrying,
            }),
    {
        Heartbeat {
            id,
            battery: self.battery,
            location: self.location,
            status: self.status,
            timestamp: now,
            carrying: self.carrying,
        }
    }
}

// ---------------------------------------------------------------- driving
/// A charge after one more node.
pub open spec fn drained(b: Battery) -> Battery {
    Battery(
        if b.0 > 0 {
            (b.0 - 1) as u8
        } else {
            0
        },
    )
}

/// Where a robot is after the first `n` nodes of a path, and its charge. A node without
/// coordinates leaves it where it was.
pub open spec fn driven(
    map: RoadMapView,
    location: Location,
    battery: Battery,
    path: Seq<NodeId>,
    n: nat,
) -> (Location, Battery)
    decreases n,
{
    if n == 0 {
        (location, battery)
    } else {
        let (l, b) = driven(map, location, battery, path, (n - 1) as nat);
        let node = path[n - 1].0;
        (
            if map.nodes.contains_key(node) {
                map.nodes[node]
            } else {
                l
            },
            drained(b),
        )
    }
}

/// Whether the pickup is among the first `n` nodes of a path.
pub open spec fn loaded(path: Seq<NodeId>, pickup: Option<NodeId>, n: nat) -> bool {
    exists|i: int| 0 <= i < n && Some(#[trigger] path[i]) == pickup
}

/// The reports along the first `n` nodes of a path: one at each node, and [`LOAD_DWELL`] more
/// at the pickup, from where on the robot carries goods.
pub open spec fn drive_reports(
    map: RoadMapView,
    location: Location,
    battery: Battery,
    path: Seq<NodeId>,
    status: RobotStatus,
    pickup: Option<NodeId>,
    n: nat,
) -> Seq<Report>
    decreases n,
{
    if n == 0 {
        Seq::empty()
    } else {
        let i = (n - 1) as nat;
        let before = drive_reports(map, location, battery, path, status, pickup, i);
        let (l, b) = driven(map, location, battery, path, n);
        let report = Report {
            location: l,
            battery: b,
            status,
            carrying: loaded(path, pickup, i),
            pause: true,
        };
        if !loaded(path, pickup, i) && Some(path[i as int]) == pickup {
            let dwell = Report { carrying: true, ..report };
            before.push(report).push(dwell).push(dwell)
        } else {
            before.push(report)
        }
    }
}

/// Drives along a path node by node, and returns the reports on the way.
pub fn drive(
    map: &RoadMap,
    location: &mut Location,
    battery: &mut Battery,
    path: &[NodeId],
    status: RobotStatus,
    pickup: Option<NodeId>,
) -> (r: Vec<Report>)
    ensures
        r@ == drive_reports(
            map@,
            *old(location),
            *old(battery),
            path@,
            status,
            pickup,
            path@.len(),
        ),
        (*final(location), *final(battery)) == driven(
            map@,
            *old(location),
            *old(battery),
            path@,
            path@.len(),
        ),
{
    let ghost (l0, b0) = (*location, *battery);
    let mut reports: Vec<Report> = Vec::new();
    let mut carrying = false;
    let mut i: usize = 0;
    while i < path.len()
        invariant
            i <= path@.len(),
            reports@ == drive_reports(map@, l0, b0, path@, status, pickup, i as nat),
            (*location, *battery) == driven(map@, l0, b0, path@, i as nat),
            carrying == loaded(path@, pickup, i as nat),
        decreases path@.len() - i,
    {
        let n = path[i];
        if let Some(l) = map.node_location(n) {
            *location = *l;
        }
        *battery = Battery(battery.0.saturating_sub(1));
        let report = Report {
            location: *location,
            battery: *battery,
            status,
            carrying,
            pause: true,
        };
        reports.push(report);
        let here = match pickup {
            Some(p) => p == n,
            None => false,
        };
        if !carrying && here {
            carrying = true;
            let dwell = Report {
                location: *location,
                battery: *battery,
                status,
                carrying: true,
                pause: true,
            };
            let ghost before = reports@;
            let mut k: u64 = 0;
            while k < LOAD_DWELL
                invariant
                    k <= LOAD_DWELL,
                    reports@.len() == before.len() + k,
                    forall|j: int| 0 <= j < before.len() ==> #[trigger] reports@[j] == before[j],
                    forall|j: int|
                        before.len() <= j < reports@.len() ==> #[trigger] reports@[j] == dwell,
                decreases LOAD_DWELL - k,
            {
                reports.push(dwell);
                k = k + 1;
            }
            assert(reports@ =~= before.push(dwell).push(dwell));
        }
        proof {
            assert(path@[i as int] == n);
            assert(loaded(path@, pickup, (i + 1) as nat) <==> loaded(path@, pickup, i as nat)
                || Some(path@[i as int]) == pickup) by {
                if loaded(path@, pickup, i as nat) {
                    let j = choose|j: int| 0 <= j < i && Some(#[trigger] path@[j]) == pickup;
                    assert(Some(path@[j]) == pickup);
                }
            }
        }
        i = i + 1;
    }
    reports
}

// ---------------------------------------------------------------- charging
/// Whether `i` is the first of the chargers nearest to a point.
pub open spec fn is_nearest_charger(chargers: Seq<Location>, from: Location, i: int) -> bool {
    &&& 0 <= i < chargers.len()
    &&& forall|j: int|
        0 <= j < chargers.len() ==> {
            &&& squared_distance(chargers[i], from) <= squared_distance(#[trigger] chargers[j], from)
            &&& j < i ==> squared_distance(chargers[i], from) < squared_distance(chargers[j], from)
        }
}

/// The first of the chargers nearest to a point.
pub open spec fn charger_near(chargers: Seq<Location>, from: Location) -> Option<Location> {
    if chargers.len() == 0 {
        None
    } else {
        Some(chargers[choose|i: int| is_nearest_charger(chargers, from, i)])
    }
}

/// Finds the charger nearest to a point, in a straight line.
pub fn nearest_charger(chargers: &[Location], from: Location) -> (r: Option<Location>)
    ensures
        r == charger_near(chargers@, from),
        r matches Some(l) ==> exists|i: int| #[trigger]
            is_nearest_charger(chargers@, from, i) && l == chargers@[i],
{
    let mut best: Option<usize> = None;
    let mut i: usize = 0;
    while i < chargers.len()
        invariant
            i <= chargers@.len(),
            best is None <==> i == 0,
            best matches Some(b) ==> is_nearest_charger(chargers@.take(i as int), from, b as int),
        decreases chargers@.len() - i,
    {
        let ghost before = chargers@.take(i as int);
        let ghost after = chargers@.take(i + 1);
        let closer = match best {
            Some(b) => chargers[i].is_nearer(&chargers[b], &from),
            None => true,
        };
        proof {
            let n = if closer {
                i as int
            } else {
                best->0 as int
            };
            assert forall|j: int| 0 <= j < after.len() implies {
                &&& squared_distance(after[n], from) <= squared_distance(#[trigger] after[j], from)
                &&& j < n ==> squared_distance(after[n], from) < squared_distance(after[j], from)
            } by {
                if j < i {
                    assert(after[j] == before[j]);
                }
            }
        }
        if closer {
            best = Some(i);
        }
        i = i + 1;
    }
    match best {
        Some(b) => {
            proof {
                assert(chargers@.take(i as int) =~= chargers@);
                assert(is_nearest_charger(chargers@, from, b as int));
                let c = choose|c: int| is_nearest_charger(chargers@, from, c);
                assert(is_nearest_charger(chargers@, from, c));
                assert(squared_distance(chargers@[c], from) <= squared_distance(chargers@[b as int], from));
                assert(squared_distance(chargers@[b as int], from) <= squared_distance(chargers@[c], from));
                assert(c == b);
            }
            Some(chargers[b])
        },
        None => None,
    }
}

/// A charge after one beat at a charger.
pub open spec fn charged(b: Battery) -> Battery {
    Battery(
        if b.0 + CHARGE_STEP < 100 {
            (b.0 + CHARGE_STEP) as u8
        } else {
            100
        },
    )
}

// ---------------------------------------------------------------- the robot
/// A virtual robot.
#[derive(Debug, Clone, Copy, PartialEq, Eq, Structural)]
pub struct VirtualRobot {
    pub location: Location,
    pub battery: Battery,
    /// Whether the robot is at a charger.
    pub charging: bool,
}

/// The way of a robot to the nearest charger: none if it is off the network, there is no
/// charger, or there is no route.
pub open spec fn way_to_charger(map: RoadMapView, chargers: Seq<Location>, from: Location) -> Option<
    Seq<NodeId>,
> {
    match charger_near(chargers, from) {
        Some(c) => match (from.node, c.node) {
            (Some(a), Some(b)) => a_star(map, a, b),
            _ => None,
        },
        None => None,
    }
}

impl VirtualRobot {
    /// The report of a robot that stays where it is.
    pub open spec fn standing(self, status: RobotStatus) -> Report {
        Report {
            location: self.location,
            battery: self.battery,
            status,
            carrying: false,
            pause: false,
        }
    }

    /// The robot after a beat, and its reports.
    pub open spec fn beaten(self, map: RoadMapView, chargers: Seq<Location>) -> (
        VirtualRobot,
        Seq<Report>,
    ) {
        if self.charging {
            let battery = charged(self.battery);
            let next = VirtualRobot { battery, charging: !battery.full(), ..self };
            (next, seq![next.standing(RobotStatus::Charging)])
        } else if self.battery.low() {
            match way_to_charger(map, chargers, self.location) {
                Some(path) => {
                    let (location, battery) = driven(
                        map,
                        self.location,
                        self.battery,
                        path,
                        path.len(),
                    );
                    let next = VirtualRobot { location, battery, charging: true };
                    (
                        next,
                        drive_reports(
                            map,
                            self.location,
                            self.battery,
                            path,
                            RobotStatus::Charging,
                            None,
                            path.len(),
                        ).push(next.standing(RobotStatus::Charging)),
                    )
                },
                None => {
                    let next = VirtualRobot { charging: true, ..self };
                    (next, seq![next.standing(RobotStatus::Charging)])
                },
            }
        } else {
            (self, seq![self.standing(RobotStatus::Idle)])
        }
    }

    /// The robot after it drove along the path of an order, and its reports.
    pub open spec fn carried_out(
        self,
        map: RoadMapView,
        path: Seq<NodeId>,
        pickup: Option<NodeId>,
    ) -> (VirtualRobot, Seq<Report>) {
        let (location, battery) = driven(map, self.location, self.battery, path, path.len());
        (
            VirtualRobot { location, battery, ..self },
            drive_reports(
                map,
                self.location,
                self.battery,
                path,
                RobotStatus::Busy,
                pickup,
                path.len(),
            ),
        )
    }

    /// The report of a robot that stays where it is.
    fn stand(&self, status: RobotStatus) -> (r: Report)
        ensures
            r == self.standing(status),
    {
        Report {
            location: self.location,
            battery: self.battery,
            status,
            carrying: false,
            pause: false,
        }
    }

    /// One beat: at a charger the charge rises until the robot is charged; a robot with a low
    /// charge drives to the nearest charger; any other robot reports that it is idle. A robot
    /// that cannot get to a charger stays where it is. Returns the reports to send.
    pub fn beat(&mut self, map: &RoadMap, chargers: &[Location]) -> (r: Vec<Report>)
        requires
            map@.wf(),
        ensures
            (*final(self), r@) == old(self).beaten(map@, chargers@),
    {
        let ghost before = *self;
        let mut reports: Vec<Report> = Vec::new();
        if self.charging {
            let raised: u16 = self.battery.0 as u16 + CHARGE_STEP as u16;
            self.battery = if raised < 100 {
                Battery(raised as u8)
            } else {
                Battery(100)
            };
            if self.battery.is_full() {
                self.charging = false;
            }
            reports.push(self.stand(RobotStatus::Charging));
            assert(reports@ =~= seq![self.standing(RobotStatus::Charging)]);
        } else if self.battery.is_low() {
            self.charging = true;
            let path = match nearest_charger(chargers, self.location) {
                Some(c) => match (self.location.node, c.node) {
                    (Some(from), Some(to)) => AStarPathfinder.find_path(map, from, to),
                    _ => None,
                },
                None => None,
            };
            match path {
                Some(p) => {
                    let mut location = self.location;
                    let mut battery = self.battery;
                    reports = drive(
                        map,
                        &mut location,
                        &mut battery,
                        p.as_slice(),
                        RobotStatus::Charging,
                        None,
                    );
                    self.location = location;
                    self.battery = battery;
                    reports.push(self.stand(RobotStatus::Charging));
                },
                None => {
                    reports.push(self.stand(RobotStatus::Charging));
                    assert(reports@ =~= seq![self.standing(RobotStatus::Charging)]);
                },
            }
        } else {
            reports.push(self.stand(RobotStatus::Idle));
            assert(reports@ =~= seq![self.standing(RobotStatus::Idle)]);
        }
        reports
    }

    /// Carries out a task: drives along its path, and takes the load at the pickup. Returns the
    /// reports to send before the task is reported as done.
    pub fn carry_out(&mut self, map: &RoadMap, path: &[NodeId], pickup: Option<NodeId>) -> (r: Vec<
        Report,
    >)
        ensures
            (*final(self), r@) == old(self).carried_out(map@, path@, pickup),
    {
        let mut location = self.location;
        let mut battery = self.battery;
        let reports = drive(
            map,
            &mut location,
            &mut battery,
            path,
            RobotStatus::Busy,
            pickup,
        );
        self.location = location;
        self.battery = battery;
        reports
    }
}

// ---------------------------------------------------------------- random tasks
/// `rand::Rng::random_range` on the thread's generator: a number below `n`, which is all that
/// is claimed of it.
#[verifier::external_body]
fn draw(n: usize) -> (r: usize)
    requires
        n > 0,
    ensures
        r < n,
{
    rand::rng().random_range(0..n)
}

/// The robot that starts at a point with the given charge, which is at most 100 percent.
pub open spec fn started(at: Location, percent: u8) -> VirtualRobot {
    VirtualRobot {
        location: at,
        battery: Battery(
            if percent < 100 {
                percent
            } else {
                100
            },
        ),
        charging: false,
    }
}

/// The robot that starts at the `place`-th of the listed nodes with the given charge, which is
/// at most 100 percent.
pub fn start_robot(nodes: &Vec<(NodeId, Location)>, place: usize, percent: u8) -> (r: VirtualRobot)
    requires
        place < nodes@.len(),
    ensures
        r == started(nodes@[place as int].1, percent),
        r == (VirtualRobot {
            location: nodes@[place as int].1,
            battery: Battery(
                if percent < 100 {
                    percent
                } else {
                    100
                },
            ),
            charging: false,
        }),
{
    VirtualRobot { location: nodes[place].1, battery: Battery::new(percent), charging: false }
}

/// A robot at a random node, with a random charge from 60 to 100 percent.
pub fn random_robot(map: &RoadMap) -> (r: VirtualRobot)
    requires
        map@.nodes.dom().len() > 0,
    ensures
        60 <= r.battery.0 <= 100,
        !r.charging,
        exists|n: u32| #[trigger] map@.nodes.contains_key(n) && r.location == map@.nodes[n],
{
    let nodes = map.all_node_locations();
    proof {
        lemma_some_node_listed(nodes@, map@.nodes);
    }
    let place: usize = draw(nodes.len());
    let extra: usize = draw(41);
    let r = start_robot(&nodes, place, 60 + extra as u8);
    proof {
        assert(map@.nodes.contains_key(nodes@[place as int].0.0));
    }
    r
}

/// If there is a node, a node is listed.
proof fn lemma_some_node_listed(list: Seq<(NodeId, Location)>, nodes: Map<u32, Location>)
    requires
        lists_nodes(list, nodes),
        nodes.dom().len() > 0,
    ensures
        list.len() > 0,
{
    if list.len() == 0 {
        assert forall|n: u32| !nodes.dom().contains(n) by {
            if nodes.contains_key(n) {
                let i = choose|i: int| 0 <= i < list.len() && (#[trigger] list[i]).0.0 == n;
            }
        }
        assert(nodes.dom() =~= Set::<u32>::empty());
    }
}

/// The priority for a drawn number: 0 to 2 in rising order, and the highest for the rest.
pub fn drawn_priority(n: usize) -> (r: TaskPriority)
    ensures
        r == TaskPriority::of_level(n as nat),
{
    match n {
        0 => TaskPriority::Low,
        1 => TaskPriority::Normal,
        2 => TaskPriority::High,
        _ => TaskPriority::Urgent,
    }
}

/// The transport from one point to another.
pub open spec fn transport(
    id: TaskId,
    from: Location,
    to: Location,
    level: nat,
    now: u64,
) -> TaskView {
    TaskView::fresh(
        id,
        TaskKindView::Transport { pickup: from, dropoff: to },
        TaskPriority::of_level(level),
        now,
    )
}

/// The transport between two of the listed nodes.
pub fn drawn_task(
    nodes: &Vec<(NodeId, Location)>,
    id: TaskId,
    from: usize,
    to: usize,
    priority: usize,
    now: u64,
) -> (r: Task)
    requires
        from < nodes@.len(),
        to < nodes@.len(),
    ensures
        r@ == transport(
            id,
            nodes@[from as int].1,
            nodes@[to as int].1,
            priority as nat,
            now,
        ),
        r@ == TaskView::fresh(
            id,
            TaskKindView::Transport {
                pickup: nodes@[from as int].1,
                dropoff: nodes@[to as int].1,
            },
            TaskPriority::of_level(priority as nat),
            now,
        ),
{
    Task::new(
        id,
        TaskKind::Transport { pickup: nodes[from].1, dropoff: nodes[to].1 },
        drawn_priority(priority),
        now,
    )
}

/// A transport between random nodes with a random priority. Its number is taken from `seq`,
/// which moves on.
pub fn make_random_task(map: &RoadMap, seq: &mut u64, now: u64) -> (r: Task)
    requires
        map@.nodes.dom().len() > 0,
    ensures
        *final(seq) == old(seq).wrapping_add(1),
        exists|a: u32, b: u32, p: TaskPriority|
            #![trigger map@.nodes.contains_key(a), map@.nodes.contains_key(b), p.level()]
            map@.nodes.contains_key(a) && map@.nodes.contains_key(b) && r@ == TaskView::fresh(
                TaskId(*old(seq)),
                TaskKindView::Transport { pickup: map@.nodes[a], dropoff: map@.nodes[b] },
                p,
                now,
            ),
{
    let id = TaskId(*seq);
    *seq = seq.wrapping_add(1);
    let nodes = map.all_node_locations();
    proof {
        lemma_some_node_listed(nodes@, map@.nodes);
    }
    let from: usize = draw(nodes.len());
    let to: usize = draw(nodes.len());
    let priority: usize = draw(4);
    let r = drawn_task(&nodes, id, from, to, priority, now);
    proof {
        let a = nodes@[from as int].0.0;
        let b = nodes@[to as int].0.0;
        let p = TaskPriority::of_level(priority as nat);
        assert(map@.nodes.contains_key(a));
        assert(map@.nodes.contains_key(b));
        let level = p.level();
    }
    r
}

// ---------------------------------------------------------------- laws
/// Whether the point of every node knows its node.
pub open spec fn points_know_their_nodes(map: RoadMapView) -> bool {
    forall|n: u32| #[trigger]
        map.nodes.contains_key(n) ==> map.nodes[n].node == Some(NodeId(n))
}

/// Whether every node of a path has coordinates.
pub open spec fn all_placed(map: RoadMapView, path: Seq<NodeId>) -> bool {
    forall|i: int| 0 <= i < path.len() ==> map.nodes.contains_key((#[trigger] path[i]).0)
}

/// Whether an edge leads from one node to the other.
pub open spec fn has_edge(map: RoadMapView, m: NodeId, n: NodeId) -> bool {
    exists|e: Edge| #[trigger] map.out(m.0).contains(e) && e.to == n
}

/// Whether a robot can get from one point to the other without passing a further node: it
/// stays, or drives along one edge.
pub open spec fn one_step(map: RoadMapView, a: Location, b: Location) -> bool {
    ||| a == b
    ||| match (a.node, b.node) {
        (Some(m), Some(n)) => has_edge(map, m, n),
        _ => false,
    }
}

/// Whether the report after the `i`-th one is one step away.
pub open spec fn steps_on(map: RoadMapView, reports: Seq<Report>, i: int) -> bool {
    one_step(map, reports[i].location, reports[i + 1].location)
}

/// The reports along a path end where the robot is.
proof fn lemma_reports(
    map: RoadMapView,
    location: Location,
    battery: Battery,
    path: Seq<NodeId>,
    status: RobotStatus,
    pickup: Option<NodeId>,
    edges: Seq<Edge>,
    from: NodeId,
    goal: NodeId,
    n: nat,
)
    requires
        n <= path.len(),
        is_drive(map, path, edges, from, goal),
        all_placed(map, path),
        points_know_their_nodes(map),
    ensures
        ({
            let reports = drive_reports(map, location, battery, path, status, pickup, n);
            &&& n > 0 ==> reports.len() > 0
            &&& n > 0 ==> reports[0].location == map.nodes[path[0].0]
            &&& n > 0 ==> reports.last().location == map.nodes[path[n - 1].0]
            &&& forall|i: int| 0 <= i < reports.len() - 1 ==> #[trigger] steps_on(map, reports, i)
        }),
    decreases n,
{
    if n > 0 {
        let i = (n - 1) as nat;
        lemma_reports(map, location, battery, path, status, pickup, edges, from, goal, i);
        let before = drive_reports(map, location, battery, path, status, pickup, i);
        let after = drive_reports(map, location, battery, path, status, pickup, n);
        let here = map.nodes[path[i as int].0];
        assert(driven(map, location, battery, path, n).0 == here);
        assert forall|k: int| before.len() <= k < after.len() implies (
        #[trigger] after[k]).location == here by {}
        assert forall|k: int| 0 <= k < before.len() implies #[trigger] after[k] == before[k] by {}
        assert forall|k: int| 0 <= k < after.len() - 1 implies #[trigger] steps_on(
            map,
            after,
            k,
        ) by {
            if k + 1 < before.len() {
                assert(steps_on(map, before, k));
                assert(after[k] == before[k]);
                assert(after[k + 1] == before[k + 1]);
            } else if k < before.len() {
                assert(after[k] == before[k]);
                assert(after[k + 1].location == here);
                assert(i > 0);
                assert(after[k] == before.last());
                assert(map.nodes.contains_key(path[i - 1].0));
                assert(map.nodes.contains_key(path[i as int].0));
                let e = edges[i - 1];
                assert(after[k].location.node == Some(path[i - 1]));
                assert(after[k + 1].location.node == Some(path[i as int]));
                assert(map.out(path[i - 1].0).contains(e));
                assert(e.to == path[i as int]);
                assert(has_edge(map, path[i - 1], path[i as int]));
            } else {
                assert(after[k].location == here);
                assert(after[k + 1].location == here);
            }
        }
    }
}

/// Robots never jump: on a route that starts where the robot stands, each report is at most
/// one edge away from the one before, the first one is at the start, and the last one is at
/// the goal.
pub proof fn law_drives_do_not_jump(
    map: RoadMapView,
    location: Location,
    battery: Battery,
    path: Seq<NodeId>,
    status: RobotStatus,
    pickup: Option<NodeId>,
    from: NodeId,
    goal: NodeId,
)
    requires
        is_route(map, path, from, goal),
        all_placed(map, path),
        points_know_their_nodes(map),
    ensures
        ({
            let reports = drive_reports(map, location, battery, path, status, pickup, path.len());
            &&& reports.len() > 0
            &&& reports[0].location == map.nodes[from.0]
            &&& reports.last().location == map.nodes[goal.0]
            &&& forall|i: int| 0 <= i < reports.len() - 1 ==> #[trigger] steps_on(map, reports, i)
        }),
{
    let edges = choose|e: Seq<Edge>| is_drive(map, path, e, from, goal);
    lemma_reports(
        map,
        location,
        battery,
        path,
        status,
        pickup,
        edges,
        from,
        goal,
        path.len(),
    );
}

/// Whether both ends of every edge have coordinates.
pub open spec fn ends_placed(map: RoadMapView) -> bool {
    forall|n: u32, i: int|
        #![trigger map.edges[n][i]]
        map.edges.contains_key(n) && 0 <= i < map.edges[n].len() ==> map.nodes.contains_key(n)
            && map.nodes.contains_key(map.edges[n][i].to.0)
}

/// Whether a point is that of its node.
pub open spec fn at_node(map: RoadMapView, l: Location) -> bool {
    match l.node {
        Some(n) => map.nodes.contains_key(n.0) && map.nodes[n.0] == l,
        None => false,
    }
}

/// Whether a robot at `from` can have made the reports without a jump: the first is at most one
/// step away, and each is at most one step away from the one before.
pub open spec fn without_jumps(map: RoadMapView, from: Location, reports: Seq<Report>) -> bool {
    &&& reports.len() > 0 ==> one_step(map, from, reports[0].location)
    &&& forall|i: int| 0 <= i < reports.len() - 1 ==> #[trigger] steps_on(map, reports, i)
}

/// Where both ends of every edge have coordinates, so has every node of a route.
proof fn lemma_route_placed(map: RoadMapView, path: Seq<NodeId>, from: NodeId, goal: NodeId)
    requires
        ends_placed(map),
        map.nodes.contains_key(from.0),
        is_route(map, path, from, goal),
    ensures
        all_placed(map, path),
{
    let edges = choose|e: Seq<Edge>| is_drive(map, path, e, from, goal);
    assert forall|i: int| 0 <= i < path.len() implies map.nodes.contains_key(
        (#[trigger] path[i]).0,
    ) by {
        if i > 0 {
            let out = map.out(path[i - 1].0);
            assert(out.contains(edges[i - 1]));
            let k = out.index_of(edges[i - 1]);
            assert(map.edges[path[i - 1].0][k] == edges[i - 1]);
        }
    }
}

/// A drive along a route from where the robot stands makes no jump, and ends at the goal.
proof fn lemma_drive_from_here(
    map: RoadMapView,
    location: Location,
    battery: Battery,
    path: Seq<NodeId>,
    status: RobotStatus,
    pickup: Option<NodeId>,
    goal: NodeId,
)
    requires
        ends_placed(map),
        points_know_their_nodes(map),
        at_node(map, location),
        is_route(map, path, location.node->0, goal),
    ensures
        ({
            let reports = drive_reports(map, location, battery, path, status, pickup, path.len());
            let end = driven(map, location, battery, path, path.len()).0;
            &&& without_jumps(map, location, reports)
            &&& at_node(map, end)
            &&& reports.len() > 0
            &&& reports.last().location == end
        }),
{
    let from = location.node->0;
    lemma_route_placed(map, path, from, goal);
    law_drives_do_not_jump(map, location, battery, path, status, pickup, from, goal);
    let last = path.len() - 1;
    assert(map.nodes.contains_key(path[last].0));
    assert(path[last] == goal);
}

/// A beat makes no jump, also when the robot drives to a charger: the first report is at most
/// one edge away from where the robot stood, and each report from the one before. Afterwards
/// the robot stands where it reported last.
pub proof fn law_beats_do_not_jump(map: RoadMapView, chargers: Seq<Location>, robot: VirtualRobot)
    requires
        map.wf(),
        ends_placed(map),
        points_know_their_nodes(map),
        at_node(map, robot.location),
    ensures
        ({
            let (next, reports) = robot.beaten(map, chargers);
            &&& without_jumps(map, robot.location, reports)
            &&& at_node(map, next.location)
            &&& reports.len() > 0
            &&& reports.last().location == next.location
        }),
{
    let (next, reports) = robot.beaten(map, chargers);
    if !robot.charging && robot.battery.low() {
        if let Some(path) = way_to_charger(map, chargers, robot.location) {
            let from = robot.location.node->0;
            let to = (charger_near(chargers, robot.location)->0).node->0;
            law_a_star_returns_a_route(map, from, to);
            lemma_drive_from_here(
                map,
                robot.location,
                robot.battery,
                path,
                RobotStatus::Charging,
                None,
                to,
            );
            let driving = drive_reports(
                map,
                robot.location,
                robot.battery,
                path,
                RobotStatus::Charging,
                None,
                path.len(),
            );
            assert forall|i: int| 0 <= i < reports.len() - 1 implies #[trigger] steps_on(
                map,
                reports,
                i,
            ) by {
                assert(reports[i] == driving[i]);
                if i + 1 < driving.len() {
                    assert(steps_on(map, driving, i));
                    assert(reports[i + 1] == driving[i + 1]);
                }
            }
            assert(reports[0] == driving[0]);
        }
    }
}

/// What a virtual robot does: a beat, or an order that it carries out.
pub enum Act {
    Beat,
    Order { path: Seq<NodeId>, pickup: Option<NodeId> },
}

/// A robot after one act, and its reports.
pub open spec fn acted(
    map: RoadMapView,
    chargers: Seq<Location>,
    robot: VirtualRobot,
    act: Act,
) -> (VirtualRobot, Seq<Report>) {
    match act {
        Act::Beat => robot.beaten(map, chargers),
        Act::Order { path, pickup } => robot.carried_out(map, path, pickup),
    }
}

/// A robot after the first `n` acts, and all its reports.
pub open spec fn lived(
    map: RoadMapView,
    chargers: Seq<Location>,
    robot: VirtualRobot,
    acts: Seq<Act>,
    n: nat,
) -> (VirtualRobot, Seq<Report>)
    decreases n,
{
    if n == 0 {
        (robot, Seq::empty())
    } else {
        let (before, reports) = lived(map, chargers, robot, acts, (n - 1) as nat);
        let (after, more) = acted(map, chargers, before, acts[n - 1]);
        (after, reports + more)
    }
}

/// Whether an act makes sense for a robot: an order has to be a route from where it stands.
pub open spec fn starts_here(map: RoadMapView, robot: VirtualRobot, act: Act) -> bool {
    match act {
        Act::Beat => true,
        Act::Order { path, .. } => robot.location.node is Some && exists|goal: NodeId|
            #[trigger] is_route(map, path, robot.location.node->0, goal),
    }
}

/// Whether every order of a robot starts where the robot then stands.
pub open spec fn orders_start_here(
    map: RoadMapView,
    chargers: Seq<Location>,
    robot: VirtualRobot,
    acts: Seq<Act>,
) -> bool {
    forall|i: int|
        0 <= i < acts.len() ==> starts_here(
            map,
            lived(map, chargers, robot, acts, i as nat).0,
            #[trigger] acts[i],
        )
}

/// One act makes no jump, and the robot stands where it reported last.
proof fn lemma_acted(map: RoadMapView, chargers: Seq<Location>, robot: VirtualRobot, act: Act)
    requires
        map.wf(),
        ends_placed(map),
        points_know_their_nodes(map),
        at_node(map, robot.location),
        starts_here(map, robot, act),
    ensures
        ({
            let (next, reports) = acted(map, chargers, robot, act);
            &&& without_jumps(map, robot.location, reports)
            &&& at_node(map, next.location)
            &&& reports.len() > 0
            &&& reports.last().location == next.location
        }),
{
    match act {
        Act::Beat => {
            law_beats_do_not_jump(map, chargers, robot);
        },
        Act::Order { path, pickup } => {
            let goal = choose|goal: NodeId| #[trigger]
                is_route(map, path, robot.location.node->0, goal);
            lemma_drive_from_here(
                map,
                robot.location,
                robot.battery,
                path,
                RobotStatus::Busy,
                pickup,
                goal,
            );
        },
    }
}

/// Reports without jumps, one list after the other, make no jump.
proof fn lemma_reports_joined(
    map: RoadMapView,
    from: Location,
    first: Seq<Report>,
    between: Location,
    second: Seq<Report>,
)
    requires
        without_jumps(map, from, first),
        without_jumps(map, between, second),
        between == (if first.len() > 0 {
            first.last().location
        } else {
            from
        }),
    ensures
        without_jumps(map, from, first + second),
{
    let all = first + second;
    assert forall|i: int| 0 <= i < all.len() - 1 implies #[trigger] steps_on(map, all, i) by {
        if i + 1 < first.len() {
            assert(steps_on(map, first, i));
        } else if i < first.len() {
            assert(all[i] == first.last());
            assert(all[i + 1] == second[0]);
        } else {
            assert(all[i] == second[i - first.len()]);
            assert(all[i + 1] == second[i + 1 - first.len()]);
            assert(steps_on(map, second, i - first.len()));
        }
    }
    if first.len() == 0 {
        assert(all =~= second);
    }
}

/// The first acts of a robot make no jump, and it stands where it reported last.
proof fn lemma_lived(
    map: RoadMapView,
    chargers: Seq<Location>,
    robot: VirtualRobot,
    acts: Seq<Act>,
    n: nat,
)
    requires
        map.wf(),
        ends_placed(map),
        points_know_their_nodes(map),
        at_node(map, robot.location),
        orders_start_here(map, chargers, robot, acts),
        n <= acts.len(),
    ensures
        ({
            let (after, reports) = lived(map, chargers, robot, acts, n);
            &&& without_jumps(map, robot.location, reports)
            &&& at_node(map, after.location)
            &&& after.location == (if reports.len() > 0 {
                reports.last().location
            } else {
                robot.location
            })
        }),
    decreases n,
{
    if n > 0 {
        let m = (n - 1) as nat;
        lemma_lived(map, chargers, robot, acts, m);
        let (before, reports) = lived(map, chargers, robot, acts, m);
        let (after, more) = acted(map, chargers, before, acts[m as int]);
        assert(starts_here(map, before, acts[m as int]));
        lemma_acted(map, chargers, before, acts[m as int]);
        lemma_reports_joined(map, robot.location, reports, before.location, more);
        assert((reports + more).last() == more.last());
    }
}

/// Robots never jump, whatever they do: over all its beats and orders, the drives to chargers
/// among them, each report of a robot is at the node of the report before or one edge away from
/// it, and the first one is at most one edge away from where the robot came online.
pub proof fn law_robots_never_jump(
    map: RoadMapView,
    chargers: Seq<Location>,
    robot: VirtualRobot,
    acts: Seq<Act>,
)
    requires
        map.wf(),
        ends_placed(map),
        points_know_their_nodes(map),
        at_node(map, robot.location),
        orders_start_here(map, chargers, robot, acts),
    ensures
        without_jumps(
            map,
            robot.location,
            lived(map, chargers, robot, acts, acts.len()).1,
        ),
{
    lemma_lived(map, chargers, robot, acts, acts.len());
}

/// A robot carries goods in a report only from the pickup on: an order without pickup never
/// makes it carry anything.
pub proof fn law_only_transports_carry(
    map: RoadMapView,
    location: Location,
    battery: Battery,
    path: Seq<NodeId>,
    status: RobotStatus,
    n: nat,
)
    ensures
        forall|i: int|
            0 <= i < drive_reports(map, location, battery, path, status, None, n).len()
                ==> !(#[trigger] drive_reports(map, location, battery, path, status, None, n)[i]).carrying,
    decreases n,
{
    if n > 0 {
        law_only_transports_carry(map, location, battery, path, status, (n - 1) as nat);
    }
}

/// The charge after `n` beats at a charger.
pub open spec fn charged_for(b: Battery, n: nat) -> Battery
    decreases n,
{
    if n == 0 {
        b
    } else {
        charged(charged_for(b, (n - 1) as nat))
    }
}

/// A charge rises by a step with each beat, up to the full charge.
proof fn lemma_charged_for(b: Battery, n: nat)
    ensures
        charged_for(b, n).0 >= n * CHARGE_STEP || charged_for(b, n).0 >= 100,
    decreases n,
{
    if n > 0 {
        lemma_charged_for(b, (n - 1) as nat);
    }
}

/// A robot at a charger is charged after ten beats, however empty it was.
pub proof fn law_charging_ends(b: Battery)
    ensures
        charged_for(b, 10).full(),
{
    lemma_charged_for(b, 10);
}

/// Every node costs one percent of charge, down to none; nodes without coordinates too.
pub proof fn law_every_node_costs_a_percent(
    map: RoadMapView,
    location: Location,
    battery: Battery,
    path: Seq<NodeId>,
    n: nat,
)
    ensures
        driven(map, location, battery, path, n).1.0 == (if n <= battery.0 {
            battery.0 - n
        } else {
            0
        }),
    decreases n,
{
    if n > 0 {
        law_every_node_costs_a_percent(map, location, battery, path, (n - 1) as nat);
    }
}

/// After some nodes of its path a robot is at the last of them that has coordinates, and where
/// it started if none has.
pub proof fn law_a_robot_is_where_it_drove(
    map: RoadMapView,
    location: Location,
    battery: Battery,
    path: Seq<NodeId>,
    n: nat,
    last: int,
)
    requires
        -1 <= last < n <= path.len(),
        last >= 0 ==> map.nodes.contains_key(path[last].0),
        forall|i: int| last < i < n ==> !map.nodes.contains_key((#[trigger] path[i]).0),
    ensures
        driven(map, location, battery, path, n).0 == (if last >= 0 {
            map.nodes[path[last].0]
        } else {
            location
        }),
    decreases n,
{
    if n > 0 {
        if last < n - 1 {
            assert(!map.nodes.contains_key(path[n - 1].0));
            law_a_robot_is_where_it_drove(map, location, battery, path, (n - 1) as nat, last);
        }
    }
}

/// Whether `p` is the first of the first `n` places of a path where the pickup stands; `n`
/// itself if it stands at none.
pub open spec fn is_first_visit(path: Seq<NodeId>, pickup: Option<NodeId>, n: nat, p: nat) -> bool {
    &&& p <= n
    &&& p < n ==> pickup == Some(path[p as int])
    &&& forall|i: int| 0 <= i < p ==> pickup != Some(#[trigger] path[i])
}

/// Which node of a path a report is about: one report for each node, and two more for the
/// pickup at place `p`.
pub open spec fn reported_node(p: nat, k: int) -> int {
    if k <= p {
        k
    } else if k <= p + 2 {
        p as int
    } else {
        k - 2
    }
}

/// A robot reports once at each node of its path, and twice more at the pickup when it gets
/// there first. A report says where the robot is at that node and what charge it then has; the
/// robot carries goods in those two reports and in all later ones, and in none before.
pub proof fn law_reports_follow_the_path(
    map: RoadMapView,
    location: Location,
    battery: Battery,
    path: Seq<NodeId>,
    status: RobotStatus,
    pickup: Option<NodeId>,
    n: nat,
    p: nat,
)
    requires
        n <= path.len(),
        is_first_visit(path, pickup, n, p),
    ensures
        ({
            let reports = drive_reports(map, location, battery, path, status, pickup, n);
            &&& reports.len() == n + (if p < n {
                2int
            } else {
                0
            })
            &&& forall|k: int|
                0 <= k < reports.len() ==> {
                    let at = driven(
                        map,
                        location,
                        battery,
                        path,
                        (reported_node(p, k) + 1) as nat,
                    );
                    &&& (#[trigger] reports[k]).location == at.0
                    &&& reports[k].battery == at.1
                    &&& reports[k].status == status
                    &&& reports[k].carrying == (k > p)
                    &&& reports[k].pause
                }
        }),
    decreases n,
{
    if n > 0 {
        let m = (n - 1) as nat;
        let before = drive_reports(map, location, battery, path, status, pickup, m);
        let after = drive_reports(map, location, battery, path, status, pickup, n);
        let q = if p < m {
            p
        } else {
            m
        };
        law_reports_follow_the_path(map, location, battery, path, status, pickup, m, q);
        assert(loaded(path, pickup, m) <==> p < m) by {
            if p < m {
                assert(Some(path[p as int]) == pickup);
            }
            if loaded(path, pickup, m) {
                let j = choose|j: int| 0 <= j < m && Some(#[trigger] path[j]) == pickup;
                assert(j >= p);
            }
        }
        assert forall|k: int| 0 <= k < after.len() implies {
            let at = driven(map, location, battery, path, (reported_node(p, k) + 1) as nat);
            &&& (#[trigger] after[k]).location == at.0
            &&& after[k].battery == at.1
            &&& after[k].status == status
            &&& after[k].carrying == (k > p)
            &&& after[k].pause
        } by {
            if k < before.len() {
                assert(after[k] == before[k]);
            }
        }
    }
}

/// The chargers are searched by straight distance: there is a nearest one if there is any, no
/// other is nearer, and the first of the nearest ones is taken.
pub proof fn law_no_charger_is_nearer(chargers: Seq<Location>, from: Location) -> (i: int)
    ensures
        chargers.len() == 0 ==> charger_near(chargers, from) is None,
        chargers.len() > 0 ==> {
            &&& 0 <= i < chargers.len()
            &&& charger_near(chargers, from) == Some(chargers[i])
            &&& forall|j: int|
                0 <= j < chargers.len() ==> apart(chargers[i], from) <= apart(
                    #[trigger] chargers[j],
                    from,
                )
            &&& forall|j: int|
                0 <= j < i ==> apart(chargers[i], from) < apart(#[trigger] chargers[j], from)
        },
{
    if chargers.len() > 0 {
        lemma_some_charger_is_nearest(chargers, from);
        let i = choose|i: int| is_nearest_charger(chargers, from, i);
        assert(is_nearest_charger(chargers, from, i));
        law_distances_are_euclidean(chargers[i], from);
        assert forall|j: int| 0 <= j < chargers.len() implies {
            &&& apart(chargers[i], from) <= apart(#[trigger] chargers[j], from)
            &&& j < i ==> apart(chargers[i], from) < apart(chargers[j], from)
        } by {
            law_distances_are_euclidean(chargers[j], from);
        }
        i
    } else {
        0
    }
}

/// If there is a charger, one is the first of the nearest.
proof fn lemma_some_charger_is_nearest(chargers: Seq<Location>, from: Location)
    requires
        chargers.len() > 0,
    ensures
        exists|i: int| is_nearest_charger(chargers, from, i),
    decreases chargers.len(),
{
    let last = chargers.len() - 1;
    let rest = chargers.drop_last();
    if rest.len() == 0 {
        assert(is_nearest_charger(chargers, from, 0));
    } else {
        lemma_some_charger_is_nearest(rest, from);
        let b = choose|i: int| is_nearest_charger(rest, from, i);
        assert(is_nearest_charger(rest, from, b));
        let n = if squared_distance(chargers[last], from) < squared_distance(rest[b], from) {
            last
        } else {
            b
        };
        assert forall|j: int| 0 <= j < chargers.len() implies {
            &&& squared_distance(chargers[n], from) <= squared_distance(
                #[trigger] chargers[j],
                from,
            )
            &&& j < n ==> squared_distance(chargers[n], from) < squared_distance(chargers[j], from)
        } by {
            if j < last {
                assert(chargers[j] == rest[j]);
            }
        }
        assert(is_nearest_charger(chargers, from, n));
    }
}

/// A robot at a charger gains ten percent with each beat, up to a hundred, says that it charges,
/// and leaves the charger with 95 percent or more. It stays where it is.
pub proof fn law_a_robot_at_a_charger_is_charged(
    map: RoadMapView,
    chargers: Seq<Location>,
    robot: VirtualRobot,
)
    requires
        robot.charging,
    ensures
        ({
            let (next, reports) = robot.beaten(map, chargers);
            &&& next.battery.0 == (if robot.battery.0 <= 90 {
                robot.battery.0 + 10
            } else {
                100
            })
            &&& next.charging <==> next.battery.0 < 95
            &&& next.location == robot.location
            &&& reports.len() == 1
            &&& reports[0].status == RobotStatus::Charging
            &&& reports[0].battery == next.battery
            &&& reports[0].location == robot.location
            &&& !reports[0].carrying && !reports[0].pause
        }),
{
}

/// A robot away from a charger with at least 20 percent stays as it is, and says that it is
/// idle.
pub proof fn law_a_robot_with_charge_is_idle(
    map: RoadMapView,
    chargers: Seq<Location>,
    robot: VirtualRobot,
)
    requires
        !robot.charging,
        robot.battery.0 >= 20,
    ensures
        ({
            let (next, reports) = robot.beaten(map, chargers);
            &&& next == robot
            &&& reports.len() == 1
            &&& reports[0].status == RobotStatus::Idle
            &&& reports[0].battery == robot.battery
            &&& reports[0].location == robot.location
            &&& !reports[0].carrying && !reports[0].pause
        }),
{
}

/// A robot with less than 20 percent goes charging. If a way leads to the nearest charger it
/// ends up there, with one percent less for each node of a way; in every report it says that
/// it charges, and it carries nothing.
pub proof fn law_a_robot_low_on_charge_drives_to_the_nearest_charger(
    map: RoadMapView,
    chargers: Seq<Location>,
    robot: VirtualRobot,
    nodes: Seq<NodeId>,
    edges: Seq<Edge>,
) -> (way: Seq<NodeId>)
    requires
        map.wf(),
        !robot.charging,
        robot.battery.0 < 20,
        chargers.len() > 0,
        charger_near(chargers, robot.location)->0.node is Some,
        robot.location.node is Some,
        is_way(
            map,
            nodes,
            edges,
            robot.location.node->0,
            charger_near(chargers, robot.location)->0.node->0,
        ),
        map.nodes.contains_key((charger_near(chargers, robot.location)->0.node->0).0),
    ensures
        ({
            let to = charger_near(chargers, robot.location)->0.node->0;
            let (next, reports) = robot.beaten(map, chargers);
            &&& is_route(map, way, robot.location.node->0, to)
            &&& next.charging
            &&& next.location == map.nodes[to.0]
            &&& next.battery.0 == (if way.len() <= robot.battery.0 {
                robot.battery.0 - way.len()
            } else {
                0
            })
            &&& reports.len() == way.len() + 1
            &&& reports.last().location == next.location
            &&& reports.last().battery == next.battery
            &&& forall|k: int|
                0 <= k < reports.len() ==> (#[trigger] reports[k]).status == RobotStatus::Charging
                    && !reports[k].carrying && (reports[k].pause <==> k < way.len())
        }),
{
    let from = robot.location.node->0;
    let to = charger_near(chargers, robot.location)->0.node->0;
    let (found, _) = law_no_way_is_cheaper_than_the_one_found(map, from, to, nodes, edges);
    law_a_star_returns_a_route(map, from, to);
    let n = found.len();
    law_every_node_costs_a_percent(map, robot.location, robot.battery, found, n);
    assert(found[n - 1] == to);
    law_a_robot_is_where_it_drove(map, robot.location, robot.battery, found, n, n - 1);
    law_reports_follow_the_path(
        map,
        robot.location,
        robot.battery,
        found,
        RobotStatus::Charging,
        None,
        n,
        n,
    );
    found
}

/// A robot with less than 20 percent that no way leads to the nearest charger waits for charge
/// where it is.
pub proof fn law_a_robot_without_a_way_charges_where_it_is(
    map: RoadMapView,
    chargers: Seq<Location>,
    robot: VirtualRobot,
)
    requires
        map.wf(),
        !robot.charging,
        robot.battery.0 < 20,
        chargers.len() == 0 || robot.location.node is None || charger_near(
            chargers,
            robot.location,
        )->0.node is None || forall|way: Seq<NodeId>|
            !is_route(
                map,
                way,
                robot.location.node->0,
                charger_near(chargers, robot.location)->0.node->0,
            ),
    ensures
        ({
            let (next, reports) = robot.beaten(map, chargers);
            &&& next.charging
            &&& next.location == robot.location
            &&& next.battery == robot.battery
            &&& reports.len() == 1
            &&& reports[0].status == RobotStatus::Charging
            &&& reports[0].battery == robot.battery
            &&& reports[0].location == robot.location
        }),
{
    if chargers.len() > 0 && robot.location.node is Some && charger_near(
        chargers,
        robot.location,
    )->0.node is Some {
        law_a_star_returns_a_route(
            map,
            robot.location.node->0,
            charger_near(chargers, robot.location)->0.node->0,
        );
    }
}

/// An order is carried out along its path: the robot ends where the path leads, has one percent
/// less for each node, says that it is busy, and charges no more and no less than before.
pub proof fn law_orders_are_carried_out(
    map: RoadMapView,
    robot: VirtualRobot,
    path: Seq<NodeId>,
    pickup: Option<NodeId>,
    p: nat,
)
    requires
        path.len() > 0,
        map.nodes.contains_key(path.last().0),
        is_first_visit(path, pickup, path.len(), p),
    ensures
        ({
            let (next, reports) = robot.carried_out(map, path, pickup);
            &&& next.location == map.nodes[path.last().0]
            &&& next.battery.0 == (if path.len() <= robot.battery.0 {
                robot.battery.0 - path.len()
            } else {
                0
            })
            &&& next.charging == robot.charging
            &&& reports.len() == path.len() + (if p < path.len() {
                2int
            } else {
                0
            })
            &&& reports.last().location == next.location
            &&& reports.last().battery == next.battery
            &&& forall|k: int|
                0 <= k < reports.len() ==> (#[trigger] reports[k]).status == RobotStatus::Busy
                    && reports[k].carrying == (k > p)
        }),
{
    let n = path.len();
    law_every_node_costs_a_percent(map, robot.location, robot.battery, path, n);
    law_a_robot_is_where_it_drove(map, robot.location, robot.battery, path, n, n - 1);
    law_reports_follow_the_path(
        map,
        robot.location,
        robot.battery,
        path,
        RobotStatus::Busy,
        pickup,
        n,
        p,
    );
}

/// A heartbeat says what the report says, of the robot and at the time that it is sent: the
/// store has it so afterwards, as far as the robot is not busy.
pub proof fn law_heartbeats_say_what_was_reported(
    v: StoreView,
    report: Report,
    id: RobotId,
    now: u64,
)
    requires
        v.robots.contains_key(id.0),
    ensures
        ({
            let hb = report.as_heartbeat(id, now);
            let r = v.heard(hb).robots[id.0];
            &&& hb.id == id
            &&& hb.status == report.status
            &&& r.location == report.location
            &&& r.battery == report.battery
            &&& r.carrying == report.carrying
            &&& r.last_heartbeat == now
            &&& v.robots[id.0].status != RobotStatus::Busy ==> r.status == report.status
        }),
{
}

/// A robot starts where it is put, away from the chargers, with the charge that it is given and
/// no more than a hundred percent; so with 20 percent or more its first beat says that it is
/// idle there.
pub proof fn law_robots_start_where_they_are_put(
    map: RoadMapView,
    chargers: Seq<Location>,
    at: Location,
    percent: u8,
)
    ensures
        started(at, percent).location == at,
        !started(at, percent).charging,
        percent <= 100 ==> started(at, percent).battery.0 == percent,
        percent > 100 ==> started(at, percent).battery.0 == 100,
        percent >= 20 ==> {
            let (next, reports) = started(at, percent).beaten(map, chargers);
            &&& next == started(at, percent)
            &&& reports.len() == 1
            &&& reports[0].status == RobotStatus::Idle
            &&& reports[0].location == at
        },
{
}

/// A transport begins where it is to begin and ends where it is to end, waits, and has the
/// priority of its level.
pub proof fn law_transports_lead_from_one_point_to_another(
    id: TaskId,
    from: Location,
    to: Location,
    level: nat,
    now: u64,
)
    ensures
        ({
            let t = transport(id, from, to, level, now);
            &&& t.id == id
            &&& t.kind == (TaskKindView::Transport { pickup: from, dropoff: to })
            &&& t.goal() == from.node
            &&& t.status == TaskStatus::Pending
            &&& t.assigned_robot is None
            &&& t.created_at == now
            &&& t.priority == (if level == 0 {
                TaskPriority::Low
            } else if level == 1 {
                TaskPriority::Normal
            } else if level == 2 {
                TaskPriority::High
            } else {
                TaskPriority::Urgent
            })
        }),
{
}

} // verus!
