use agv_scheduler::config::{millis, SystemConfig};
use agv_scheduler::domain::map::{bounding_box, UNITS_PER_METRE};
use agv_scheduler::domain::{
    Battery, Edge, Location, NodeId, Path, RoadMap, RobotId, RobotState, RobotStatus, Task, TaskId,
    TaskKey, TaskKind, TaskPriority, TaskStatus,
};

const M: i64 = UNITS_PER_METRE;

fn transport_task(priority: TaskPriority) -> Task {
    let a = Location::at_node(NodeId(1), 0, 0);
    let b = Location::at_node(NodeId(2), M, M);
    Task::new(
        TaskId(1),
        TaskKind::Transport {
            pickup: a,
            dropoff: b,
        },
        priority,
        0,
    )
}

#[test]
fn effective_priority_ages_and_caps() {
    let t = transport_task(TaskPriority::Low);
    assert_eq!(t.effective_priority(0, 1000), TaskPriority::Low);
    assert_eq!(t.effective_priority(1_500, 1000), TaskPriority::Normal);
    assert_eq!(t.effective_priority(2_500, 1000), TaskPriority::High);
    assert_eq!(t.effective_priority(9_000, 1000), TaskPriority::Urgent);
    let u = transport_task(TaskPriority::Urgent);
    assert_eq!(u.effective_priority(99_000, 1000), TaskPriority::Urgent);
    assert_eq!(t.effective_priority(99_000, 0), TaskPriority::Low);
}

#[test]
fn task_key_orders_by_priority_then_fcfs() {
    let hi = TaskKey {
        priority: TaskPriority::High,
        created_at: 100,
        id: TaskId(1),
    };
    let lo = TaskKey {
        priority: TaskPriority::Low,
        created_at: 0,
        id: TaskId(2),
    };
    assert!(hi > lo, "高优先级排序键应更大（先出）");
    let early = TaskKey {
        priority: TaskPriority::Normal,
        created_at: 10,
        id: TaskId(3),
    };
    let late = TaskKey {
        priority: TaskPriority::Normal,
        created_at: 20,
        id: TaskId(4),
    };
    assert!(early > late, "同优先级下早创建者排序键应更大（FCFS）");
}

#[test]
fn priorities_bump_up_to_urgent() {
    assert_eq!(TaskPriority::Low.bumped(), TaskPriority::Normal);
    assert_eq!(TaskPriority::Normal.bumped(), TaskPriority::High);
    assert_eq!(TaskPriority::High.bumped(), TaskPriority::Urgent);
    assert_eq!(TaskPriority::Urgent.bumped(), TaskPriority::Urgent);
}

#[test]
fn a_very_long_wait_still_counts() {
    let t = transport_task(TaskPriority::Low);
    assert_eq!(t.effective_priority(1 << 33, 1), TaskPriority::Urgent);
    assert_eq!(t.effective_priority_at(2_999, 1000), TaskPriority::High);
}

#[test]
fn labels_are_padded() {
    assert_eq!(RobotId(7).label(), "ROBOT-0007");
    assert_eq!(RobotId(12345).label(), "ROBOT-12345");
    assert_eq!(TaskId(42).label(), "TASK-000042");
    assert_eq!(NodeId(3).label(), "N3");
}

#[test]
fn battery_is_capped_and_has_thresholds() {
    assert_eq!(Battery::new(80).0, 80);
    assert_eq!(Battery::new(250).0, 100);
    assert!(Battery(19).is_low());
    assert!(!Battery(20).is_low());
    assert!(Battery(95).is_full());
    assert!(!Battery(94).is_full());
}

#[test]
fn only_idle_robots_are_available() {
    assert!(RobotStatus::Idle.is_available());
    assert!(!RobotStatus::Busy.is_available());
    assert!(!RobotStatus::Charging.is_available());
    assert!(!RobotStatus::Error.is_available());
    assert!(!RobotStatus::Offline.is_available());
}

#[test]
fn a_robot_is_stale_only_after_the_timeout() {
    let r = RobotState::onboard(RobotId(1), Location::at_node(NodeId(1), 0, 0), Battery(80), 100);
    assert!(!r.is_stale(150, 50));
    assert!(r.is_stale(151, 50));
    assert!(!r.is_stale(20, 50));
    assert_eq!(r.status, RobotStatus::Idle);
    assert_eq!(r.last_change_ms, 100);
}

#[test]
fn kinds_are_described() {
    let t = transport_task(TaskPriority::Low);
    assert_eq!(t.kind_desc(), "搬运 N1 → N2");
    assert_eq!(t.goal_node(), Some(NodeId(1)));
    let c = Task::new(
        TaskId(2),
        TaskKind::Charge { charger: NodeId(9) },
        TaskPriority::High,
        5,
    );
    assert_eq!(c.kind_desc(), "回充 N9");
    assert_eq!(c.goal_node(), Some(NodeId(9)));
    let p = Task::new(
        TaskId(3),
        TaskKind::Patrol {
            waypoints: Box::new(vec![NodeId(4), NodeId(5)]),
        },
        TaskPriority::High,
        5,
    );
    assert_eq!(p.kind_desc(), "巡检 2 个航点");
    assert_eq!(p.goal_node(), Some(NodeId(4)));
    let empty = Task::new(
        TaskId(4),
        TaskKind::Patrol {
            waypoints: Box::new(Vec::new()),
        },
        TaskPriority::High,
        5,
    );
    assert_eq!(empty.goal_node(), None);
    assert_eq!(empty.status, TaskStatus::Pending);
    assert!(empty.is_pending());
}

#[test]
fn a_copy_of_a_network_is_the_same_network() {
    let mut map = RoadMap::default();
    assert_eq!(map.node_count(), 0);
    map.add_node(NodeId(1), Location::at_node(NodeId(1), 0, 0));
    map.add_node(NodeId(2), Location::at_node(NodeId(2), M, 0));
    for cost in [3, 5] {
        map.add_edge(Edge {
            from: NodeId(1),
            to: NodeId(2),
            cost,
        });
    }
    let copy = map.clone();
    map.add_node(NodeId(3), Location::at_node(NodeId(3), 0, M));
    assert_eq!(copy.node_count(), 2);
    assert_eq!(copy.node_location(NodeId(2)), map.node_location(NodeId(2)));
    let out = copy.edges_from(NodeId(1)).unwrap().as_slice();
    assert_eq!(out, map.edges_from(NodeId(1)).unwrap().as_slice());
    assert_eq!(out.len(), 2);
    assert!(copy.edges_from(NodeId(2)).unwrap().as_slice().is_empty());
    assert!(format!("{:?}", copy).contains("NodeId(2)"));
}

#[test]
fn distance_is_euclidean() {
    let a = Location::at_node(NodeId(1), 0, 0);
    let b = Location::at_node(NodeId(2), 3 * M, 4 * M);
    assert_eq!(a.distance_to(&b), 5 * M as u128);
    let far = Location::at_node(NodeId(3), i32::MIN as i64, i32::MIN as i64);
    let near = Location::at_node(NodeId(4), i32::MAX as i64, i32::MAX as i64);
    assert_eq!(far.distance_to(&near), 6_074_000_998);
    let far = Location::at_node(NodeId(3), i64::MIN, i64::MIN);
    let near = Location::at_node(NodeId(4), i64::MAX, i64::MAX);
    assert_eq!(far.distance_to(&near), 26087635650665564423);
    assert_eq!(near.distance_to(&near), 0);
    assert!(near.is_nearer(&far, &near));
    assert!(!far.is_nearer(&near, &near));
    assert!(!far.is_nearer(&far, &near));
    assert!(a.is_nearer(&far, &near));
    let almost = Location::at_node(NodeId(5), i64::MIN, i64::MIN + 1);
    assert!(almost.is_nearer(&far, &near));
    assert!(!far.is_nearer(&almost, &near));
}

#[test]
fn a_map_keeps_nodes_and_edges() {
    let mut map = RoadMap::new();
    assert_eq!(map.bounds(), None);
    map.add_node(NodeId(1), Location::at_node(NodeId(1), 5, 6));
    map.add_node(NodeId(1), Location::at_node(NodeId(1), 7, 8));
    map.add_node(NodeId(2), Location::at_node(NodeId(2), -3, 20));
    map.add_edge(Edge {
        from: NodeId(1),
        to: NodeId(2),
        cost: 10,
    });
    map.add_edge(Edge {
        from: NodeId(1),
        to: NodeId(3),
        cost: 11,
    });
    assert_eq!(map.node_count(), 2);
    assert_eq!(map.node_location(NodeId(1)).unwrap().x, 7);
    assert!(map.node_location(NodeId(3)).is_none());
    let out = map.edges_from(NodeId(1)).unwrap().as_slice();
    assert_eq!(out.len(), 2);
    assert_eq!(out[0].to, NodeId(2));
    assert_eq!(out[1].to, NodeId(3));
    assert_eq!(map.edges_from(NodeId(3)).unwrap().as_slice().len(), 0);
    assert!(map.edges_from(NodeId(4)).is_none());
    assert_eq!(map.all_edges().len(), 2);
    assert_eq!(map.all_node_locations().len(), 2);
    assert_eq!(map.bounds(), Some((-3, 8, 7, 20)));
    assert_eq!(bounding_box(&map.all_node_locations()), (-3, 8, 7, 20));
}

#[test]
fn a_path_grows_beyond_its_inline_room() {
    let mut p = Path::new();
    for n in 0..12 {
        p.push(NodeId(n));
    }
    assert_eq!(p.len(), 12);
    assert_eq!(p.as_slice()[11], NodeId(11));
    let mut q = Path::new();
    q.push(NodeId(100));
    q.extend_from(&p, 10);
    assert_eq!(q.to_vec(), vec![NodeId(100), NodeId(10), NodeId(11)]);
    let copy = q.clone();
    assert_eq!(copy.to_vec(), q.to_vec());
}

#[test]
fn the_default_configuration() {
    let c = SystemConfig::default();
    assert_eq!(c.listen_addr, "127.0.0.1:0");
    assert_eq!(c.heartbeat_timeout_ms, 5_000);
    assert_eq!(c.scheduler_tick_ms, 5);
    assert_eq!(c.event_channel_capacity, 65_536);
    assert_eq!(c.task_timeout_ms, 8_000);
    assert_eq!(c.max_task_retries, 3);
    assert_eq!(c.priority_aging_ms, 4_000);
    assert_eq!(c.deadlock_cooldown_ms, 1_500);
    assert!(c.clone().enable_deadlock_resolution);
    assert_eq!(millis(1_500).as_secs(), 1);
    assert_eq!(millis(1_500).subsec_millis(), 500);
}
