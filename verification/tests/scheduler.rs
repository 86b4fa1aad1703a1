use agv_scheduler::config::SystemConfig;
use agv_scheduler::domain::{
    Battery, Edge, Heartbeat, Location, NodeId, RoadMap, RobotId, RobotState, RobotStatus, Task,
    TaskId, TaskKind, TaskPriority, TaskStatus,
};
use agv_scheduler::engine::matching::{nearest_robot, pick_victim, plan_task_route, serving_order};
use agv_scheduler::engine::scheduler::{
    propose, resolve_deadlocks, run_matching, settle, Proposal,
};
use agv_scheduler::engine::{AStarPathfinder, Dispatch, Outbox, Scheduler, SchedulerEvent};
use agv_scheduler::service::build_grid_map;
use agv_scheduler::storage::{MemoryStore, StoreError};
use std::collections::HashMap;

fn point(map: &RoadMap, n: u32) -> Location {
    *map.node_location(NodeId(n)).unwrap()
}

fn robot_at(map: &RoadMap, id: u64, n: u32) -> RobotState {
    RobotState::onboard(RobotId(id), point(map, n), Battery(80), 0)
}

fn transport(map: &RoadMap, id: u64, from: u32, to: u32, priority: TaskPriority) -> Task {
    Task::new(
        TaskId(id),
        TaskKind::Transport {
            pickup: point(map, from),
            dropoff: point(map, to),
        },
        priority,
        0,
    )
}

#[test]
fn pick_victim_prefers_lowest_priority_then_largest_id() {
    let r1 = RobotId(1);
    let r2 = RobotId(2);
    let r3 = RobotId(3);
    let mut prio = HashMap::new();
    prio.insert(r1.0, TaskPriority::Urgent);
    prio.insert(r2.0, TaskPriority::Low);
    prio.insert(r3.0, TaskPriority::Low);
    let cycle = [r1, r2, r3];
    assert_eq!(pick_victim(&cycle, &prio), Some(r3));

    let mut p2 = HashMap::new();
    p2.insert(r1.0, TaskPriority::High);
    p2.insert(r2.0, TaskPriority::Low);
    p2.insert(r3.0, TaskPriority::Urgent);
    assert_eq!(pick_victim(&[r1, r2, r3], &p2), Some(r2));

    assert_eq!(pick_victim(&[r1, r2], &HashMap::new()), Some(r2));
    assert_eq!(pick_victim(&[], &prio), None);
}

#[test]
fn plan_task_route_stitches_pickup_and_dropoff() {
    let map = build_grid_map(4, 1);
    let loc = |n: u32| map.node_location(NodeId(n)).copied().unwrap();
    let task = Task::new(
        TaskId(1),
        TaskKind::Transport {
            pickup: loc(1),
            dropoff: loc(3),
        },
        TaskPriority::Normal,
        0,
    );
    let (path, final_loc, pickup) =
        plan_task_route(&AStarPathfinder, &map, NodeId(0), &task).unwrap();
    assert_eq!(pickup, Some(NodeId(1)));
    assert_eq!(final_loc, loc(3));
    assert_eq!(
        path.as_slice(),
        &[NodeId(0), NodeId(1), NodeId(2), NodeId(3)]
    );
    assert_eq!(
        path.as_slice().iter().filter(|&&n| n == NodeId(1)).count(),
        1
    );
}

#[test]
fn plans_for_other_kinds_have_no_pickup() {
    let map = build_grid_map(3, 1);
    let charge = Task::new(
        TaskId(1),
        TaskKind::Charge { charger: NodeId(2) },
        TaskPriority::Low,
        0,
    );
    let (path, end, pickup) = plan_task_route(&AStarPathfinder, &map, NodeId(0), &charge).unwrap();
    assert_eq!(path.to_vec(), vec![NodeId(0), NodeId(1), NodeId(2)]);
    assert_eq!(end, point(&map, 2));
    assert_eq!(pickup, None);
    let same = transport(&map, 2, 1, 1, TaskPriority::Low);
    let (path, end, pickup) = plan_task_route(&AStarPathfinder, &map, NodeId(0), &same).unwrap();
    assert_eq!(path.to_vec(), vec![NodeId(0), NodeId(1)]);
    assert_eq!(end, point(&map, 1));
    assert_eq!(pickup, Some(NodeId(1)));
    let off = Task::new(
        TaskId(3),
        TaskKind::Transport {
            pickup: point(&map, 1),
            dropoff: Location {
                x: 0,
                y: 0,
                node: None,
            },
        },
        TaskPriority::Low,
        0,
    );
    assert!(plan_task_route(&AStarPathfinder, &map, NodeId(0), &off).is_none());
    let island = Task::new(
        TaskId(4),
        TaskKind::Charge {
            charger: NodeId(77),
        },
        TaskPriority::Low,
        0,
    );
    assert!(plan_task_route(&AStarPathfinder, &map, NodeId(0), &island).is_none());
}

#[test]
fn the_nearest_robot_is_found() {
    let map = build_grid_map(5, 1);
    let robots = vec![
        robot_at(&map, 1, 4),
        robot_at(&map, 2, 1),
        robot_at(&map, 3, 3),
    ];
    assert_eq!(nearest_robot(&map, &robots, &point(&map, 2)), Some(1));
    assert_eq!(nearest_robot(&map, &robots, &point(&map, 4)), Some(0));
    let mut lost = robot_at(&map, 4, 0);
    lost.location.node = None;
    assert_eq!(nearest_robot(&map, &[lost], &point(&map, 0)), None);
    assert_eq!(nearest_robot(&map, &[], &point(&map, 0)), None);
    // less than a unit decides
    let mut map = RoadMap::new();
    map.add_node(NodeId(1), Location::at_node(NodeId(1), 1, 10));
    map.add_node(NodeId(2), Location::at_node(NodeId(2), 0, 10));
    let robots = vec![robot_at(&map, 1, 1), robot_at(&map, 2, 2)];
    let origin = Location::at_node(NodeId(0), 0, 0);
    assert_eq!(nearest_robot(&map, &robots, &origin), Some(1));
}

#[test]
fn tasks_are_served_by_aged_priority_then_age_then_number() {
    let map = build_grid_map(2, 2);
    let mut pending = HashMap::new();
    let mut put = |id: u64, p: TaskPriority, created: u64| {
        let mut t = transport(&map, id, 0, 1, p);
        t.created_at = created;
        pending.insert(id, t);
    };
    put(5, TaskPriority::Low, 0);
    put(4, TaskPriority::High, 9_000);
    put(3, TaskPriority::High, 8_000);
    put(2, TaskPriority::High, 9_000);
    put(1, TaskPriority::Normal, 9_500);
    assert_eq!(
        serving_order(&pending, 10_000, 4_000),
        vec![5, 3, 2, 4, 1]
    );
    assert_eq!(serving_order(&pending, 10_000, 0), vec![3, 2, 4, 1, 5]);
}

#[test]
fn a_proposal_sends_the_nearest_robot() {
    let map = build_grid_map(5, 1);
    let free = vec![robot_at(&map, 1, 4), robot_at(&map, 2, 0)];
    let task = transport(&map, 9, 1, 3, TaskPriority::Normal);
    match propose(&AStarPathfinder, &map, &free, &task) {
        Proposal::Send { index, order, end } => {
            assert_eq!(index, 1);
            assert_eq!(order.robot, RobotId(2));
            assert_eq!(order.task, TaskId(9));
            assert_eq!(
                order.path.to_vec(),
                vec![NodeId(0), NodeId(1), NodeId(2), NodeId(3)]
            );
            assert_eq!(order.pickup, Some(NodeId(1)));
            assert_eq!(end, point(&map, 3));
        }
        other => panic!("{:?}", other),
    }
    let nowhere = Task::new(
        TaskId(1),
        TaskKind::Charge { charger: NodeId(9) },
        TaskPriority::Low,
        0,
    );
    assert!(matches!(
        propose(&AStarPathfinder, &map, &free, &nowhere),
        Proposal::Discard
    ));
    assert!(matches!(
        propose(&AStarPathfinder, &map, &Vec::new(), &task),
        Proposal::Wait
    ));
}

#[test]
fn settling_accepts_or_rolls_back() {
    let map = build_grid_map(3, 1);
    let mut store = MemoryStore::new();
    store.register_robot(robot_at(&map, 1, 0));
    store.submit_task(transport(&map, 9, 1, 2, TaskPriority::Low));
    let mut free = store.available_robots(0, 100);
    let mut pending = HashMap::new();
    pending.insert(9, store.get_task(TaskId(9)).unwrap());
    store
        .assign(RobotId(1), TaskId(9), point(&map, 2), vec![NodeId(0)], 3)
        .unwrap();
    settle(
        &mut store,
        &mut free,
        &mut pending,
        0,
        RobotId(1),
        TaskId(9),
        false,
    );
    assert_eq!(free.len(), 1);
    assert_eq!(pending.len(), 1);
    assert_eq!(
        store.get_robot(RobotId(1)).unwrap().status,
        RobotStatus::Idle
    );
    assert_eq!(
        store.get_task(TaskId(9)).unwrap().status,
        TaskStatus::Pending
    );
    store
        .assign(RobotId(1), TaskId(9), point(&map, 2), vec![NodeId(0)], 3)
        .unwrap();
    settle(
        &mut store,
        &mut free,
        &mut pending,
        0,
        RobotId(1),
        TaskId(9),
        true,
    );
    assert!(free.is_empty());
    assert!(pending.is_empty());
    assert_eq!(
        store.get_robot(RobotId(1)).unwrap().status,
        RobotStatus::Busy
    );
}

#[test]
fn matching_skips_robots_that_are_not_ready() {
    let map = build_grid_map(6, 1);
    let config = SystemConfig::default();
    let (tx, rx) = flume::bounded::<Dispatch>(16);
    let mut store = MemoryStore::new();
    let now = 10_000;
    let mut low = robot_at(&map, 1, 0);
    low.battery = Battery(10);
    low.last_heartbeat = now;
    let mut cooling = robot_at(&map, 2, 0);
    cooling.last_heartbeat = now;
    let silent = robot_at(&map, 3, 0);
    let mut ready = robot_at(&map, 4, 5);
    ready.last_heartbeat = now;
    for r in [low, cooling, silent, ready] {
        store.register_robot(r);
    }
    let task = transport(&map, 7, 0, 1, TaskPriority::Low);
    store.submit_task(task.clone());
    let mut pending = HashMap::new();
    pending.insert(7, task);
    let mut cooldown = HashMap::new();
    cooldown.insert(2, now + 1);
    let sent = run_matching(
        &mut store,
        &map,
        &AStarPathfinder,
        &mut Outbox::new(tx),
        &config,
        &mut pending,
        &cooldown,
        now,
    );
    assert_eq!(sent.len(), 1);
    assert_eq!(sent[0].robot, RobotId(4));
    assert!(pending.is_empty());
    let order = rx.try_recv().unwrap();
    assert_eq!(order.task, TaskId(7));
    assert_eq!(order.robot, RobotId(4));
    assert_eq!(order.path.to_vec(), sent[0].path.to_vec());
    assert_eq!(
        order.path.to_vec(),
        [5, 4, 3, 2, 1, 0, 1].map(NodeId).to_vec()
    );
    assert_eq!(order.pickup, Some(NodeId(0)));
    assert!(rx.try_recv().is_err());
    assert_eq!(
        store.get_robot(RobotId(3)).unwrap().status,
        RobotStatus::Offline
    );
    let t = store.get_task(TaskId(7)).unwrap();
    assert_eq!(t.assigned_robot, Some(RobotId(4)));
    assert_eq!(t.assigned_at, now);
}

#[test]
fn a_full_channel_ends_the_round_without_loss() {
    let map = build_grid_map(6, 1);
    let config = SystemConfig::default();
    let (tx, rx) = flume::bounded::<Dispatch>(1);
    let mut store = MemoryStore::new();
    let mut pending = HashMap::new();
    for id in 1..=3 {
        store.register_robot(robot_at(&map, id, id as u32));
        let t = transport(&map, 10 + id, 0, 5, TaskPriority::Normal);
        store.submit_task(t.clone());
        pending.insert(10 + id, t);
    }
    let sent = run_matching(
        &mut store,
        &map,
        &AStarPathfinder,
        &mut Outbox::new(tx),
        &config,
        &mut pending,
        &HashMap::new(),
        5,
    );
    assert_eq!(sent.len(), 1);
    assert_eq!(sent[0].task, TaskId(11));
    assert_eq!(sent[0].robot, RobotId(1));
    assert_eq!(pending.len(), 2);
    assert_eq!(store.pending_count(), 2);
    assert_eq!(store.available_robots(5, 5_000).len(), 2);
    assert_eq!(store.assigned_count(), 2);
    assert_eq!(rx.len(), 1);
    assert_eq!(rx.try_recv().unwrap().task, TaskId(11));
}

#[test]
fn tasks_that_lead_nowhere_are_dropped() {
    let map = build_grid_map(3, 1);
    let (tx, _rx) = flume::bounded::<Dispatch>(4);
    let mut store = MemoryStore::new();
    store.register_robot(robot_at(&map, 1, 0));
    let lost = Task::new(
        TaskId(1),
        TaskKind::Patrol {
            waypoints: Box::new(Vec::new()),
        },
        TaskPriority::Urgent,
        0,
    );
    let good = transport(&map, 2, 1, 2, TaskPriority::Low);
    store.submit_task(lost.clone());
    store.submit_task(good.clone());
    let mut pending = HashMap::new();
    pending.insert(1, lost);
    pending.insert(2, good);
    let sent = run_matching(
        &mut store,
        &map,
        &AStarPathfinder,
        &mut Outbox::new(tx),
        &SystemConfig::default(),
        &mut pending,
        &HashMap::new(),
        5,
    );
    assert_eq!(sent.len(), 1);
    assert!(pending.is_empty());
    assert_eq!(store.get_task(TaskId(1)).unwrap().status, TaskStatus::Pending);
}

/// Two robots that stand on each other's targets.
fn standoff(map: &RoadMap) -> (MemoryStore, SystemConfig) {
    let mut store = MemoryStore::new();
    store.register_robot(robot_at(map, 1, 0));
    store.register_robot(robot_at(map, 2, 1));
    store.submit_task(transport(map, 10, 1, 1, TaskPriority::Urgent));
    store.submit_task(transport(map, 20, 0, 0, TaskPriority::Low));
    store
        .assign(RobotId(1), TaskId(10), point(map, 1), vec![NodeId(0), NodeId(1)], 1)
        .unwrap();
    store
        .assign(RobotId(2), TaskId(20), point(map, 0), vec![NodeId(1), NodeId(0)], 1)
        .unwrap();
    (store, SystemConfig::default())
}

#[test]
fn a_deadlock_is_resolved_and_the_task_waits_again() {
    let map = build_grid_map(2, 1);
    let (mut store, config) = standoff(&map);
    let mut cooldown = HashMap::new();
    let mut pending = HashMap::new();
    resolve_deadlocks(&mut store, &config, &mut cooldown, &mut pending, 100);
    let loser = store.get_robot(RobotId(2)).unwrap();
    assert_eq!(loser.status, RobotStatus::Idle);
    assert_eq!(loser.target, None);
    assert_eq!(
        store.get_robot(RobotId(1)).unwrap().status,
        RobotStatus::Busy
    );
    assert_eq!(cooldown.get(&2), Some(&1_600));
    assert!(cooldown.get(&1).is_none());
    assert_eq!(pending.get(&20).unwrap().status, TaskStatus::Pending);
    assert_eq!(store.deadlock_resolved_count(), 1);
    // the ring is broken: nothing more to resolve
    resolve_deadlocks(&mut store, &config, &mut cooldown, &mut pending, 101);
    assert_eq!(store.deadlock_resolved_count(), 1);
}

#[test]
fn a_tick_matches_and_resolves() {
    let map = build_grid_map(2, 1);
    let (mut store, config) = standoff(&map);
    let (tx, _rx) = flume::bounded::<Dispatch>(16);
    let mut scheduler = Scheduler::new(AStarPathfinder, config, tx);
    let report = scheduler.tick(&mut store, &map, 100);
    assert!(report.sent.is_empty());
    assert!(report.failed.is_empty());
    assert_eq!(store.deadlock_resolved_count(), 1);
    // during its cooldown the robot gets no task, although its own task waits
    let report = scheduler.tick(&mut store, &map, 200);
    assert!(report.sent.is_empty());
    let report = scheduler.tick(&mut store, &map, 1_600);
    assert_eq!(report.sent.len(), 1);
    assert_eq!(report.sent[0].robot, RobotId(2));
    assert_eq!(report.sent[0].task, TaskId(20));
}

#[test]
fn without_resolution_deadlocks_stay() {
    let map = build_grid_map(2, 1);
    let (mut store, mut config) = standoff(&map);
    config.enable_deadlock_resolution = false;
    let (tx, _rx) = flume::bounded::<Dispatch>(16);
    let mut scheduler = Scheduler::new(AStarPathfinder, config, tx);
    scheduler.tick(&mut store, &map, 100);
    assert_eq!(store.deadlock_resolved_count(), 0);
    assert_eq!(
        store.get_robot(RobotId(2)).unwrap().status,
        RobotStatus::Busy
    );
}

#[test]
fn events_reach_the_store() {
    let map = build_grid_map(4, 1);
    let (tx, rx) = flume::bounded::<Dispatch>(16);
    let mut store = MemoryStore::new();
    store.register_robot(robot_at(&map, 1, 0));
    let mut scheduler = Scheduler::new(AStarPathfinder, SystemConfig::default(), tx);
    let task = transport(&map, 5, 1, 3, TaskPriority::Normal);
    assert_eq!(
        scheduler.handle_event(&mut store, SchedulerEvent::TaskSubmitted(task)),
        Ok(true)
    );
    assert_eq!(store.task_submit_count(), 1);
    let report = scheduler.tick(&mut store, &map, 10);
    assert_eq!(report.sent.len(), 1);
    let order = rx.try_recv().unwrap();
    assert_eq!(order.pickup, Some(NodeId(1)));
    assert_eq!(
        scheduler.handle_event(
            &mut store,
            SchedulerEvent::TaskCompleted {
                robot: RobotId(1),
                task: TaskId(5)
            }
        ),
        Ok(true)
    );
    assert_eq!(store.completed_count(), 1);
    assert_eq!(
        scheduler.handle_event(
            &mut store,
            SchedulerEvent::TaskCompleted {
                robot: RobotId(1),
                task: TaskId(6)
            }
        ),
        Err(StoreError::TaskNotFound(TaskId(6)))
    );
    assert_eq!(
        scheduler.handle_event(&mut store, SchedulerEvent::Shutdown),
        Ok(false)
    );
}

#[test]
fn a_tick_takes_back_the_task_of_a_lost_robot() {
    let map = build_grid_map(4, 1);
    let (tx, _rx) = flume::bounded::<Dispatch>(16);
    let mut store = MemoryStore::new();
    store.register_robot(robot_at(&map, 1, 0));
    let mut scheduler = Scheduler::new(AStarPathfinder, SystemConfig::default(), tx);
    let task = transport(&map, 5, 1, 3, TaskPriority::Normal);
    scheduler
        .handle_event(&mut store, SchedulerEvent::TaskSubmitted(task))
        .unwrap();
    assert_eq!(scheduler.tick(&mut store, &map, 10).sent.len(), 1);
    // the robot falls silent: it goes offline, and its task is free again
    assert!(scheduler.tick(&mut store, &map, 6_000).sent.is_empty());
    assert_eq!(
        store.get_robot(RobotId(1)).unwrap().status,
        RobotStatus::Offline
    );
    assert!(scheduler.tick(&mut store, &map, 6_005).sent.is_empty());
    assert_eq!(
        store.get_task(TaskId(5)).unwrap().status,
        TaskStatus::Pending
    );
    assert_eq!(store.task_retried_count(), 1);
    // it comes back and gets the task
    store
        .apply_heartbeat(Heartbeat {
            id: RobotId(1),
            battery: Battery(80),
            location: point(&map, 0),
            status: RobotStatus::Idle,
            timestamp: 6_010,
            carrying: false,
        })
        .unwrap();
    assert_eq!(scheduler.tick(&mut store, &map, 6_015).sent.len(), 1);
}

#[test]
fn an_unreachable_task_waits() {
    let mut map = build_grid_map(2, 1);
    map.add_node(NodeId(9), Location::at_node(NodeId(9), 500_000, 0));
    map.add_edge(Edge {
        from: NodeId(9),
        to: NodeId(0),
        cost: 600_000,
    });
    let (tx, _rx) = flume::bounded::<Dispatch>(4);
    let mut store = MemoryStore::new();
    store.register_robot(robot_at(&map, 1, 0));
    let mut scheduler = Scheduler::new(AStarPathfinder, SystemConfig::default(), tx);
    let t = transport(&map, 5, 9, 0, TaskPriority::Normal);
    scheduler
        .handle_event(&mut store, SchedulerEvent::TaskSubmitted(t))
        .unwrap();
    assert!(scheduler.tick(&mut store, &map, 10).sent.is_empty());
    store.register_robot(robot_at(&map, 2, 9));
    assert_eq!(scheduler.tick(&mut store, &map, 15).sent.len(), 1);
}

#[test]
fn events_can_be_copied() {
    let map = build_grid_map(2, 1);
    let event = SchedulerEvent::TaskSubmitted(transport(&map, 7, 0, 1, TaskPriority::High));
    match event.clone() {
        SchedulerEvent::TaskSubmitted(t) => {
            assert_eq!(t.id, TaskId(7));
            assert_eq!(t.priority, TaskPriority::High);
        }
        other => panic!("{other:?}"),
    }
    let done = SchedulerEvent::TaskCompleted {
        robot: RobotId(1),
        task: TaskId(2),
    };
    assert!(matches!(
        done.clone(),
        SchedulerEvent::TaskCompleted {
            robot: RobotId(1),
            task: TaskId(2)
        }
    ));
    assert!(matches!(
        SchedulerEvent::Shutdown.clone(),
        SchedulerEvent::Shutdown
    ));
}
