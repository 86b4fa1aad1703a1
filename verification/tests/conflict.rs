use agv_scheduler::domain::map::UNITS_PER_METRE;
use agv_scheduler::domain::{
    Battery, Location, NodeId, RobotId, RobotState, RobotStatus, TaskId,
};
use agv_scheduler::engine::conflict::{analyze, sorted_robots, ConflictReport, MAX_CYCLES};

fn at(n: u32) -> Location {
    Location::at_node(NodeId(n), n as i64 * UNITS_PER_METRE, 0)
}

fn busy(id: u64, at_node: u32, target: u32) -> RobotState {
    RobotState {
        id: RobotId(id),
        status: RobotStatus::Busy,
        location: at(at_node),
        battery: Battery::new(80),
        last_heartbeat: 0,
        current_task: Some(TaskId(id * 10)),
        target: Some(NodeId(target)),
        route: Vec::new(),
        last_change_ms: 0,
        carrying: false,
    }
}

#[test]
fn detects_two_cycle_deadlock() {
    let robots = vec![busy(1, 1, 2), busy(2, 2, 1)];
    let rep = analyze(&robots);
    assert_eq!(rep.deadlock_cycles.len(), 1, "应检出恰好一个死锁环");
    let cycle = &rep.deadlock_cycles[0];
    assert_eq!(cycle.len(), 2);
    assert!(rep.deadlock_robots().len() == 2);
    assert!(rep.has_issue());
}

#[test]
fn no_cycle_for_one_way_wait() {
    let robots = vec![busy(1, 1, 2), busy(2, 2, 3)];
    let rep = analyze(&robots);
    assert!(rep.deadlock_cycles.is_empty(), "单向等待不应被判为死锁");
    assert_eq!(rep.wait_edges.len(), 1);
}

#[test]
fn detects_crowded_node() {
    let mut a = busy(1, 1, 2);
    let mut b = busy(2, 1, 3);
    a.target = None;
    b.target = None;
    a.status = RobotStatus::Idle;
    b.status = RobotStatus::Idle;
    let rep = analyze(&[a, b]);
    assert_eq!(rep.crowded.len(), 1);
    assert_eq!(rep.crowded[0].1.len(), 2);
}

#[test]
fn detects_three_cycle() {
    let robots = vec![busy(1, 1, 2), busy(2, 2, 3), busy(3, 3, 1)];
    let rep = analyze(&robots);
    assert_eq!(rep.deadlock_cycles.len(), 1);
    assert_eq!(rep.deadlock_cycles[0].len(), 3);
}

#[test]
fn detects_contested_targets_in_order() {
    let robots = vec![busy(9, 1, 7), busy(4, 2, 7), busy(5, 3, 8)];
    let rep = analyze(&robots);
    assert_eq!(rep.contested.len(), 1);
    assert_eq!(rep.contested[0].0, NodeId(7));
    assert_eq!(rep.contested[0].1, vec![RobotId(4), RobotId(9)]);
    assert!(rep.crowded.is_empty());
    assert!(rep.wait_edges.is_empty());
    assert!(rep.has_issue());
}

#[test]
fn offline_robots_hold_no_node() {
    let mut a = busy(1, 2, 5);
    a.status = RobotStatus::Offline;
    let rep = analyze(&[a, busy(2, 1, 2)]);
    assert!(rep.wait_edges.is_empty());
    assert!(rep.contested.is_empty());
    assert!(!rep.has_issue());
}

#[test]
fn a_robot_does_not_wait_for_itself() {
    let rep = analyze(&[busy(1, 1, 1)]);
    assert!(rep.wait_edges.is_empty());
    assert!(rep.deadlock_cycles.is_empty());
}

#[test]
fn a_wait_names_everyone_on_the_target() {
    let mut x = busy(2, 5, 9);
    x.status = RobotStatus::Charging;
    let rep = analyze(&[busy(1, 1, 5), x, busy(3, 5, 1)]);
    assert_eq!(
        rep.wait_edges,
        vec![
            (RobotId(1), RobotId(2)),
            (RobotId(1), RobotId(3)),
            (RobotId(3), RobotId(1))
        ]
    );
    assert_eq!(rep.deadlock_cycles.len(), 1);
    let in_ring = rep.deadlock_robots();
    assert!(in_ring.contains(&1) && in_ring.contains(&3) && !in_ring.contains(&2));
}

#[test]
fn the_report_of_deadlocks_is_bounded() {
    // pairs that block each other: more than the report has room for
    let mut robots = Vec::new();
    for p in 0..100u32 {
        robots.push(busy(2 * p as u64, 2 * p, 2 * p + 1));
        robots.push(busy(2 * p as u64 + 1, 2 * p + 1, 2 * p));
    }
    let rep = analyze(&robots);
    assert_eq!(rep.deadlock_cycles.len(), MAX_CYCLES);
    for ring in rep.deadlock_cycles.iter() {
        assert_eq!(ring.len(), 2);
    }
}

#[test]
fn robots_are_sorted_by_number() {
    let v = vec![RobotId(3), RobotId(1), RobotId(2), RobotId(1)];
    assert_eq!(
        sorted_robots(&v),
        vec![RobotId(1), RobotId(1), RobotId(2), RobotId(3)]
    );
}

#[test]
fn a_report_can_be_copied() {
    let nothing = ConflictReport::default();
    assert!(!nothing.has_issue());
    let report = analyze(&[busy(1, 1, 2), busy(2, 2, 1)]);
    let copy = report.clone();
    assert_eq!(copy.deadlock_cycles, report.deadlock_cycles);
    assert_eq!(copy.wait_edges, report.wait_edges);
    assert!(copy.has_issue());
}
