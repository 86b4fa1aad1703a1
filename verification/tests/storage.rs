use agv_scheduler::domain::map::UNITS_PER_METRE;
use agv_scheduler::domain::{
    Battery, Heartbeat, Location, NodeId, RobotId, RobotState, RobotStatus, Task, TaskId, TaskKind,
    TaskPriority, TaskStatus,
};
use agv_scheduler::storage::memory_store::ReclaimOutcome;
use agv_scheduler::storage::{MemoryStore, StoreError};

fn loc(n: u32) -> Location {
    Location::at_node(NodeId(n), n as i64 * UNITS_PER_METRE, 0)
}

fn onboard(store: &mut MemoryStore, id: u64) {
    store.register_robot(RobotState::onboard(
        RobotId(id),
        loc(1),
        Battery::new(80),
        0,
    ));
}

fn transport(store: &mut MemoryStore, tid: u64) {
    store.submit_task(Task::new(
        TaskId(tid),
        TaskKind::Transport {
            pickup: loc(2),
            dropoff: loc(3),
        },
        TaskPriority::Normal,
        0,
    ));
}

fn beat(id: u64, node: u32, status: RobotStatus, timestamp: u64) -> Heartbeat {
    Heartbeat {
        id: RobotId(id),
        battery: Battery(55),
        location: loc(node),
        status,
        timestamp,
        carrying: true,
    }
}

#[test]
fn unassign_rolls_back_both_tables() {
    let mut store = MemoryStore::new();
    onboard(&mut store, 1);
    transport(&mut store, 100);

    store
        .assign(RobotId(1), TaskId(100), loc(2), vec![NodeId(2)], 7)
        .expect("assign 应成功");
    assert_eq!(
        store.get_robot(RobotId(1)).unwrap().status,
        RobotStatus::Busy
    );
    assert_eq!(
        store.get_task(TaskId(100)).unwrap().status,
        TaskStatus::Assigned
    );

    store.unassign(RobotId(1), TaskId(100));
    let r = store.get_robot(RobotId(1)).unwrap();
    assert_eq!(r.status, RobotStatus::Idle);
    assert_eq!(r.current_task, None);
    assert_eq!(r.target, None);
    let t = store.get_task(TaskId(100)).unwrap();
    assert_eq!(t.status, TaskStatus::Pending);
    assert_eq!(t.assigned_robot, None);
}

#[test]
fn reclaim_requeues_until_limit_then_fails() {
    let mut store = MemoryStore::new();
    onboard(&mut store, 1);
    transport(&mut store, 100);
    let start = 5;
    store
        .assign(RobotId(1), TaskId(100), loc(2), vec![NodeId(2)], start)
        .unwrap();
    let now = start + 10_000_000;

    let out = store.reclaim_stale_tasks(now, 8_000, 2);
    assert_eq!(out.requeued, vec![TaskId(100)]);
    assert!(out.failed.is_empty());
    assert_eq!(store.get_task(TaskId(100)).unwrap().retry_count, 1);
    assert_eq!(store.task_retried_count(), 1);

    store
        .assign(RobotId(1), TaskId(100), loc(2), vec![NodeId(2)], start)
        .unwrap();
    let out = store.reclaim_stale_tasks(now + 1, 8_000, 2);
    assert_eq!(out.requeued, vec![TaskId(100)]);
    store
        .assign(RobotId(1), TaskId(100), loc(2), vec![NodeId(2)], start)
        .unwrap();
    let out = store.reclaim_stale_tasks(now + 2, 8_000, 2);
    assert_eq!(out.failed, vec![TaskId(100)]);
    assert_eq!(
        store.get_task(TaskId(100)).unwrap().status,
        TaskStatus::Failed
    );
    assert_eq!(store.task_failed_count(), 1);
}

#[test]
fn parole_increments_deadlock_counter() {
    let mut store = MemoryStore::new();
    onboard(&mut store, 7);
    transport(&mut store, 500);
    store
        .assign(RobotId(7), TaskId(500), loc(2), vec![NodeId(2)], 1)
        .unwrap();
    store.parole_robot(RobotId(7), TaskId(500));
    assert_eq!(
        store.get_robot(RobotId(7)).unwrap().status,
        RobotStatus::Idle
    );
    assert_eq!(
        store.get_task(TaskId(500)).unwrap().status,
        TaskStatus::Pending
    );
    assert_eq!(store.deadlock_resolved_count(), 1);
}

#[test]
fn assign_says_why_it_failed() {
    let mut store = MemoryStore::new();
    assert_eq!(
        store
            .assign(RobotId(1), TaskId(1), loc(2), Vec::new(), 1)
            .unwrap_err(),
        StoreError::RobotNotFound(RobotId(1))
    );
    onboard(&mut store, 1);
    assert_eq!(
        store
            .assign(RobotId(1), TaskId(1), loc(2), vec![NodeId(2)], 1)
            .unwrap_err(),
        StoreError::TaskNotFound(TaskId(1))
    );
    let robot = store.get_robot(RobotId(1)).unwrap();
    assert_eq!(robot.status, RobotStatus::Idle);
    assert_eq!(robot.current_task, None);
    assert_eq!(robot.target, None);
    assert!(robot.route.is_empty());
    assert_eq!(store.assigned_count(), 0);
    transport(&mut store, 1);
    assert!(store
        .assign(RobotId(1), TaskId(1), loc(2), vec![NodeId(2)], 1)
        .is_ok());
    assert_eq!(
        store
            .assign(RobotId(1), TaskId(1), loc(2), Vec::new(), 1)
            .unwrap_err(),
        StoreError::RobotNotAvailable(RobotId(1))
    );
    assert_eq!(store.assigned_count(), 1);
    assert_eq!(
        StoreError::RobotNotFound(RobotId(1)).message(),
        "机器人不存在: ROBOT-0001"
    );
    assert_eq!(
        StoreError::TaskNotFound(TaskId(1)).message(),
        "任务不存在: TASK-000001"
    );
    assert_eq!(
        StoreError::RobotNotAvailable(RobotId(1)).message(),
        "机器人 ROBOT-0001 当前不可分配（非空闲）"
    );
}

#[test]
fn assign_returns_both_sides_and_moves_nobody() {
    let mut store = MemoryStore::new();
    onboard(&mut store, 1);
    transport(&mut store, 100);
    let (r, t) = store
        .assign(RobotId(1), TaskId(100), loc(3), vec![NodeId(1), NodeId(3)], 77)
        .unwrap();
    assert_eq!(r.location, loc(1));
    assert_eq!(r.target, Some(NodeId(3)));
    assert_eq!(r.route, vec![NodeId(1), NodeId(3)]);
    assert_eq!(r.current_task, Some(TaskId(100)));
    assert_eq!(t.assigned_robot, Some(RobotId(1)));
    assert_eq!(t.assigned_at, 77);
    assert_eq!(store.assigned_count(), 1);
}

#[test]
fn completing_frees_the_robot() {
    let mut store = MemoryStore::new();
    onboard(&mut store, 1);
    transport(&mut store, 100);
    store
        .assign(RobotId(1), TaskId(100), loc(3), vec![NodeId(1)], 1)
        .unwrap();
    store.complete_task(RobotId(1), TaskId(100)).unwrap();
    let r = store.get_robot(RobotId(1)).unwrap();
    assert_eq!(r.status, RobotStatus::Idle);
    assert!(r.route.is_empty());
    assert_eq!(r.target, None);
    assert_eq!(
        store.get_task(TaskId(100)).unwrap().status,
        TaskStatus::Completed
    );
    assert_eq!(store.completed_count(), 1);
    assert_eq!(
        store.complete_task(RobotId(1), TaskId(5)).unwrap_err(),
        StoreError::TaskNotFound(TaskId(5))
    );
    assert_eq!(store.completed_count(), 1);
    assert!(store.complete_task(RobotId(9), TaskId(100)).is_ok());
}

#[test]
fn heartbeats_do_not_override_busy() {
    let mut store = MemoryStore::new();
    onboard(&mut store, 1);
    transport(&mut store, 100);
    store
        .assign(RobotId(1), TaskId(100), loc(3), vec![NodeId(1)], 1)
        .unwrap();
    store
        .apply_heartbeat(beat(1, 2, RobotStatus::Idle, 50))
        .unwrap();
    let r = store.get_robot(RobotId(1)).unwrap();
    assert_eq!(r.status, RobotStatus::Busy);
    assert_eq!(r.current_task, Some(TaskId(100)));
    assert_eq!(r.location, loc(2));
    assert_eq!(r.last_change_ms, 50);
    assert_eq!(r.battery, Battery(55));
    assert!(r.carrying);
    store
        .apply_heartbeat(beat(1, 2, RobotStatus::Idle, 60))
        .unwrap();
    let r = store.get_robot(RobotId(1)).unwrap();
    assert_eq!(r.last_change_ms, 50);
    assert_eq!(r.last_heartbeat, 60);
    assert_eq!(store.heartbeat_count(), 2);
    assert_eq!(
        store
            .apply_heartbeat(beat(9, 2, RobotStatus::Idle, 60))
            .unwrap_err(),
        StoreError::RobotNotFound(RobotId(9))
    );
    assert_eq!(store.heartbeat_count(), 2);
}

#[test]
fn trails_record_movement_and_are_bounded() {
    let mut store = MemoryStore::new();
    onboard(&mut store, 1);
    assert_eq!(store.robot_trail(RobotId(1)), vec![(0, loc(1))]);
    store
        .apply_heartbeat(beat(1, 1, RobotStatus::Idle, 10))
        .unwrap();
    assert_eq!(store.robot_trail(RobotId(1)).len(), 1);
    let mut near = beat(1, 1, RobotStatus::Idle, 11);
    near.location.x += 655;
    store.apply_heartbeat(near).unwrap();
    assert_eq!(store.robot_trail(RobotId(1)).len(), 1);
    near.location.x += 1;
    store.apply_heartbeat(near).unwrap();
    assert_eq!(store.robot_trail(RobotId(1)).len(), 2);
    for n in 2..102 {
        store
            .apply_heartbeat(beat(1, n, RobotStatus::Idle, n as u64))
            .unwrap();
    }
    let trail = store.robot_trail(RobotId(1));
    assert_eq!(trail.len(), 64);
    assert_eq!(trail[63], (101, loc(101)));
    assert_eq!(trail[0], (38, loc(38)));
    assert!(store.robot_trail(RobotId(2)).is_empty());
}

#[test]
fn eviction_takes_silent_robots_offline() {
    let mut store = MemoryStore::new();
    onboard(&mut store, 1);
    store.register_robot(RobotState::onboard(RobotId(2), loc(1), Battery(80), 900));
    transport(&mut store, 100);
    store
        .assign(RobotId(1), TaskId(100), loc(3), vec![NodeId(1), NodeId(3)], 1)
        .unwrap();
    assert_eq!(store.online_robot_count(), 2);
    assert_eq!(store.evict_stale_robots(1_000, 500), vec![RobotId(1)]);
    let r = store.get_robot(RobotId(1)).unwrap();
    assert_eq!(r.status, RobotStatus::Offline);
    assert_eq!(r.current_task, None);
    assert!(r.route.is_empty());
    assert_eq!(store.online_robot_count(), 1);
    assert!(store.evict_stale_robots(1_000, 500).is_empty());
    // the task of the robot that went offline is taken back at once
    let out = store.reclaim_stale_tasks(1_000, 1_000_000, 3);
    assert_eq!(out.requeued, vec![TaskId(100)]);
    let again = store.reclaim_stale_tasks(1_000, 1_000_000, 3);
    assert!(again.requeued.is_empty() && again.failed.is_empty());
    // a heartbeat brings the robot back
    store
        .apply_heartbeat(beat(1, 2, RobotStatus::Idle, 1_001))
        .unwrap();
    assert_eq!(store.online_robot_count(), 2);
}

#[test]
fn a_task_in_time_is_not_taken_back() {
    let mut store = MemoryStore::new();
    onboard(&mut store, 1);
    transport(&mut store, 100);
    store
        .assign(RobotId(1), TaskId(100), loc(3), vec![NodeId(1)], 1)
        .unwrap();
    let out = store.reclaim_stale_tasks(8_000, 8_000, 3);
    assert!(out.requeued.is_empty() && out.failed.is_empty());
    let out = store.reclaim_stale_tasks(8_002, 8_000, 3);
    assert_eq!(out.requeued, vec![TaskId(100)]);
    assert_eq!(
        store.get_robot(RobotId(1)).unwrap().status,
        RobotStatus::Idle
    );
}

#[test]
fn lists_and_counts_agree() {
    let mut store = MemoryStore::default();
    for id in 1..=5 {
        onboard(&mut store, id);
    }
    for t in 10..=12 {
        transport(&mut store, t);
    }
    store
        .assign(RobotId(2), TaskId(11), loc(3), vec![NodeId(1)], 1)
        .unwrap();
    assert_eq!(store.robot_count(), 5);
    assert_eq!(store.task_count(), 3);
    assert_eq!(store.task_submit_count(), 3);
    assert_eq!(store.pending_count(), 2);
    let mut free: Vec<u64> = store
        .available_robots(0, 100)
        .iter()
        .map(|r| r.id.0)
        .collect();
    free.sort();
    assert_eq!(free, vec![1, 3, 4, 5]);
    assert!(store.available_robots(1_000, 100).is_empty());
    let mut pending: Vec<u64> = store.pending_tasks().iter().map(|t| t.id.0).collect();
    pending.sort();
    assert_eq!(pending, vec![10, 12]);
    let mut all: Vec<u64> = store.all_robots().iter().map(|r| r.id.0).collect();
    all.sort();
    assert_eq!(all, vec![1, 2, 3, 4, 5]);
    assert_eq!(store.all_tasks().len(), 3);
    assert!(store.get_robot(RobotId(6)).is_none());
    assert!(store.get_task(TaskId(13)).is_none());
}

#[test]
fn registering_again_replaces_the_robot() {
    let mut store = MemoryStore::new();
    onboard(&mut store, 1);
    store.register_robot(RobotState::onboard(RobotId(1), loc(4), Battery(30), 9));
    assert_eq!(store.robot_count(), 1);
    let r = store.get_robot(RobotId(1)).unwrap();
    assert_eq!(r.battery, Battery(30));
    assert_eq!(r.location, loc(4));
    assert_eq!(store.robot_trail(RobotId(1)).len(), 2);
}

#[test]
fn an_outcome_can_be_copied() {
    let nothing = ReclaimOutcome::default();
    assert!(nothing.requeued.is_empty() && nothing.failed.is_empty());
    let outcome = ReclaimOutcome {
        requeued: vec![TaskId(1), TaskId(2)],
        failed: vec![TaskId(3)],
    };
    let copy = outcome.clone();
    assert_eq!(copy.requeued, vec![TaskId(1), TaskId(2)]);
    assert_eq!(copy.failed, vec![TaskId(3)]);
}
