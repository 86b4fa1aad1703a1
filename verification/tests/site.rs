use agv_scheduler::domain::map::UNITS_PER_METRE;
use agv_scheduler::domain::{
    Battery, Location, NodeId, RoadMap, RobotId, RobotStatus, TaskKind, TaskPriority, TaskStatus,
    TaskId,
};
use agv_scheduler::engine::{AStarPathfinder, Pathfinder};
use agv_scheduler::metrics::{MetricsHistory, Sample, HISTORY_CAPACITY};
use agv_scheduler::service::{build_grid_map, charger_nodes, corner_nodes};
use agv_scheduler::simulator::{
    drawn_priority, drawn_task, drive, make_random_task, nearest_charger, random_robot,
    start_robot, VirtualRobot,
};
use agv_scheduler::storage::MemoryStore;

const M: i64 = UNITS_PER_METRE;

#[test]
fn a_grid_has_nodes_and_lanes() {
    let map = build_grid_map(3, 2);
    assert_eq!(map.node_count(), 6);
    assert_eq!(map.all_edges().len(), 14);
    let p = map.node_location(NodeId(4)).unwrap();
    assert_eq!((p.x, p.y, p.node), (M, M, Some(NodeId(4))));
    let out: Vec<u32> = map
        .edges_from(NodeId(4))
        .unwrap()
        .as_slice()
        .iter()
        .map(|e| e.to.0)
        .collect();
    assert_eq!(out, vec![3, 1, 5]);
    for e in map.all_edges() {
        assert_eq!(e.cost, M as u64);
    }
    let wide = build_grid_map(65_536, 1);
    assert_eq!(wide.node_count(), 65_536);
    assert_eq!(wide.all_edges().len(), 131_070);
    assert_eq!(wide.node_location(NodeId(65_535)).unwrap().x, 65_535 * M);
    assert_eq!(charger_nodes(&wide), vec![NodeId(0), NodeId(65_535)]);
    assert_eq!(build_grid_map(0, 5).node_count(), 0);
    assert!(build_grid_map(1, 1).edges_from(NodeId(0)).is_none());
}

#[test]
fn chargers_are_the_corners() {
    let map = build_grid_map(12, 7);
    assert_eq!(
        charger_nodes(&map),
        vec![NodeId(0), NodeId(11), NodeId(72), NodeId(83)]
    );
    assert_eq!(
        charger_nodes(&build_grid_map(4, 1)),
        vec![NodeId(0), NodeId(3)]
    );
    assert!(charger_nodes(&RoadMap::new()).is_empty());
}

#[test]
fn a_corner_needs_a_node_near_it() {
    let at = |n: u32, x: i64, y: i64| (NodeId(n), Location::at_node(NodeId(n), x, y));
    // an L of three nodes: the fourth corner is empty
    let locs = vec![at(1, 0, 0), at(2, 10 * M, 655), at(3, 0, 10 * M)];
    assert_eq!(corner_nodes(&locs), vec![NodeId(1), NodeId(2), NodeId(3)]);
    let locs = vec![at(1, 0, 0), at(2, 10 * M, 656), at(3, 0, 10 * M)];
    assert_eq!(corner_nodes(&locs), vec![NodeId(1), NodeId(3)]);
}

#[test]
fn a_drive_reports_every_node() {
    let map = build_grid_map(4, 1);
    let mut loc = *map.node_location(NodeId(0)).unwrap();
    let mut battery = Battery(2);
    let path = [NodeId(0), NodeId(1), NodeId(2), NodeId(3)];
    let reports = drive(
        &map,
        &mut loc,
        &mut battery,
        &path,
        RobotStatus::Busy,
        Some(NodeId(1)),
    );
    let nodes: Vec<u32> = reports
        .iter()
        .map(|r| r.location.node.unwrap().0)
        .collect();
    assert_eq!(nodes, vec![0, 1, 1, 1, 2, 3]);
    let carrying: Vec<bool> = reports.iter().map(|r| r.carrying).collect();
    assert_eq!(carrying, vec![false, false, true, true, true, true]);
    let charge: Vec<u8> = reports.iter().map(|r| r.battery.0).collect();
    assert_eq!(charge, vec![1, 0, 0, 0, 0, 0]);
    assert!(reports.iter().all(|r| r.pause));
    assert_eq!(loc.node, Some(NodeId(3)));
    assert_eq!(battery, Battery(0));
    let hb = reports[4].heartbeat(RobotId(7), 99);
    assert_eq!(hb.id, RobotId(7));
    assert_eq!(hb.timestamp, 99);
    assert_eq!(hb.status, RobotStatus::Busy);
    assert!(hb.carrying);
}

#[test]
fn an_unknown_node_does_not_move_a_robot() {
    let map = build_grid_map(2, 1);
    let mut loc = *map.node_location(NodeId(0)).unwrap();
    let mut battery = Battery(50);
    let reports = drive(
        &map,
        &mut loc,
        &mut battery,
        &[NodeId(9)],
        RobotStatus::Busy,
        None,
    );
    assert_eq!(reports.len(), 1);
    assert_eq!(loc.node, Some(NodeId(0)));
    assert_eq!(battery, Battery(49));
}

#[test]
fn a_low_robot_drives_to_the_nearest_charger() {
    let map = build_grid_map(5, 1);
    let chargers = vec![
        *map.node_location(NodeId(0)).unwrap(),
        *map.node_location(NodeId(4)).unwrap(),
    ];
    let mut r = VirtualRobot {
        location: *map.node_location(NodeId(3)).unwrap(),
        battery: Battery(10),
        charging: false,
    };
    let reports = r.beat(&map, &chargers);
    assert_eq!(reports.len(), 3);
    assert_eq!(reports[0].location.node, Some(NodeId(3)));
    assert_eq!(reports[1].location.node, Some(NodeId(4)));
    assert_eq!(reports[2].location.node, Some(NodeId(4)));
    assert!(!reports[2].pause);
    assert!(reports.iter().all(|x| x.status == RobotStatus::Charging));
    assert!(r.charging);
    assert_eq!(r.battery, Battery(8));
    let mut beats = 0;
    while r.charging {
        r.beat(&map, &chargers);
        beats += 1;
    }
    assert_eq!(beats, 9);
    assert_eq!(r.battery, Battery(98));
    let idle = r.beat(&map, &chargers);
    assert_eq!(idle.len(), 1);
    assert_eq!(idle[0].status, RobotStatus::Idle);
}

#[test]
fn a_robot_that_cannot_reach_a_charger_stays() {
    let map = build_grid_map(2, 1);
    let far = Location::at_node(NodeId(50), 100 * M, 0);
    let start = *map.node_location(NodeId(0)).unwrap();
    let mut r = VirtualRobot {
        location: start,
        battery: Battery(5),
        charging: false,
    };
    let reports = r.beat(&map, &[far]);
    assert_eq!(reports.len(), 1);
    assert_eq!(r.location, start);
    assert!(r.charging);
    assert_eq!(nearest_charger(&[], start), None);
    assert_eq!(nearest_charger(&[far, start], start), Some(start));
    // less than a unit decides, and between equals the first one
    let a = Location::at_node(NodeId(1), 1, 10);
    let b = Location::at_node(NodeId(2), 0, 10);
    let c = Location::at_node(NodeId(3), 10, 0);
    let origin = Location::at_node(NodeId(0), 0, 0);
    assert_eq!(nearest_charger(&[a, b, c], origin), Some(b));
    assert_eq!(nearest_charger(&[a, c, b], origin), Some(c));
}

#[test]
fn a_robot_carries_out_an_order() {
    let map = build_grid_map(3, 1);
    let nodes = map.all_node_locations();
    let place = nodes.iter().position(|(n, _)| *n == NodeId(0)).unwrap();
    assert_eq!(start_robot(&nodes, place, 250).battery, Battery(100));
    let mut r = start_robot(&nodes, place, 90);
    let reports = r.carry_out(&map, &[NodeId(0), NodeId(1), NodeId(2)], Some(NodeId(2)));
    assert_eq!(reports.len(), 5);
    assert_eq!(r.location.node, Some(NodeId(2)));
    assert_eq!(r.battery, Battery(87));
    assert!(reports.iter().all(|x| x.status == RobotStatus::Busy));
}

#[test]
fn a_robot_moves_one_node_at_a_time() {
    let map = build_grid_map(5, 4);
    let chargers: Vec<Location> = charger_nodes(&map)
        .iter()
        .map(|n| *map.node_location(*n).unwrap())
        .collect();
    let mut r = VirtualRobot {
        location: *map.node_location(NodeId(12)).unwrap(),
        battery: Battery(30),
        charging: false,
    };
    let mut seen = vec![r.location.node.unwrap()];
    let mut charging = false;
    for goal in [3u32, 16, 4, 19, 0] {
        let mut reports = r.beat(&map, &chargers);
        let here = r.location.node.unwrap();
        let path = AStarPathfinder
            .find_path(&map, here, NodeId(goal))
            .unwrap()
            .to_vec();
        reports.extend(r.carry_out(&map, &path, Some(NodeId(goal))));
        reports.extend(r.beat(&map, &chargers));
        charging |= reports.iter().any(|x| x.status == RobotStatus::Charging);
        seen.extend(reports.iter().map(|x| x.location.node.unwrap()));
    }
    assert!(charging);
    for w in seen.windows(2) {
        let (ax, ay) = (w[0].0 % 5, w[0].0 / 5);
        let (bx, by) = (w[1].0 % 5, w[1].0 / 5);
        assert!(ax.abs_diff(bx) + ay.abs_diff(by) <= 1);
    }
}

#[test]
fn random_robots_and_tasks_are_on_the_map() {
    let map = build_grid_map(4, 3);
    let mut seq = 7;
    let mut seen = [false; 4];
    for i in 0..200u64 {
        let r = random_robot(&map);
        assert!(r.battery.0 >= 60 && r.battery.0 <= 100);
        assert!(map.node_location(r.location.node.unwrap()).is_some());
        let t = make_random_task(&map, &mut seq, 1_000 + i);
        assert_eq!(t.id, TaskId(7 + i));
        assert_eq!(t.created_at, 1_000 + i);
        assert_eq!(t.status, TaskStatus::Pending);
        seen[t.priority.rank() as usize] = true;
        match t.kind {
            TaskKind::Transport { pickup, dropoff } => {
                assert!(map.node_location(pickup.node.unwrap()).is_some());
                assert!(map.node_location(dropoff.node.unwrap()).is_some());
            }
            other => panic!("{:?}", other),
        }
    }
    assert_eq!(seq, 207);
    assert_eq!(seen, [true; 4]);
}

#[test]
fn draws_become_tasks() {
    let map = build_grid_map(2, 2);
    let nodes = map.all_node_locations();
    let t = drawn_task(&nodes, TaskId(3), 1, 2, 2, 50);
    assert_eq!(t.priority, TaskPriority::High);
    match t.kind {
        TaskKind::Transport { pickup, dropoff } => {
            assert_eq!(pickup, nodes[1].1);
            assert_eq!(dropoff, nodes[2].1);
        }
        other => panic!("{:?}", other),
    }
    assert_eq!(drawn_priority(0), TaskPriority::Low);
    assert_eq!(drawn_priority(1), TaskPriority::Normal);
    assert_eq!(drawn_priority(3), TaskPriority::Urgent);
}

#[test]
fn the_history_keeps_the_newest_samples() {
    let store = MemoryStore::new();
    let mut h = MetricsHistory::default();
    for t in 0..(HISTORY_CAPACITY as u64 + 10) {
        h.push(Sample::take(&store, t));
    }
    let s = h.snapshot();
    assert_eq!(s.len(), HISTORY_CAPACITY);
    assert_eq!(s[0].t_ms, 10);
    assert_eq!(s[HISTORY_CAPACITY - 1].t_ms, HISTORY_CAPACITY as u64 + 9);
    assert!(MetricsHistory::new().snapshot().is_empty());
}

#[test]
fn a_sample_reads_the_counters() {
    let map = build_grid_map(2, 2);
    let mut store = MemoryStore::new();
    let mut seq = 1;
    store.submit_task(make_random_task(&map, &mut seq, 0));
    store.submit_task(make_random_task(&map, &mut seq, 0));
    store.register_robot(agv_scheduler::domain::RobotState::onboard(
        RobotId(1),
        *map.node_location(NodeId(0)).unwrap(),
        Battery(80),
        0,
    ));
    let s = Sample::take(&store, 42);
    assert_eq!(s.t_ms, 42);
    assert_eq!(s.submitted, 2);
    assert_eq!(s.pending, 2);
    assert_eq!(s.online, 1);
    assert_eq!(s.completed, 0);
}
