use agv_scheduler::dashboard::{
    anim_world, build_series, conflict_line, count_all, destinations, details, event_line,
    find_robot, in_order, map_hint, markers, prio_str, robot_items, robot_row, robots_title,
    status_code, status_str, task_items, task_row, task_status_code, task_status_str, tasks_title,
    RatePoint, RatioPoint,
};
use agv_scheduler::domain::map::UNITS_PER_METRE;
use agv_scheduler::domain::{
    Battery, Location, NodeId, RobotId, RobotState, RobotStatus, Task, TaskId, TaskKind,
    TaskPriority, TaskStatus,
};
use agv_scheduler::engine::conflict::analyze;
use agv_scheduler::metrics::Sample;
use agv_scheduler::service::build_grid_map;

const M: i64 = UNITS_PER_METRE;

fn at(n: u32) -> Location {
    Location::at_node(NodeId(n), n as i64 * M, 0)
}

fn busy(id: u64, node: u32, target: u32) -> RobotState {
    let mut r = RobotState::onboard(RobotId(id), at(node), Battery(80), 0);
    r.status = RobotStatus::Busy;
    r.current_task = Some(TaskId(id * 10));
    r.target = Some(NodeId(target));
    r
}

fn task(id: u64, status: TaskStatus) -> Task {
    let mut t = Task::new(
        TaskId(id),
        TaskKind::Transport {
            pickup: at(4),
            dropoff: at(5),
        },
        TaskPriority::High,
        0,
    );
    t.status = status;
    t
}

#[test]
fn rows_are_aligned() {
    let mut r = busy(7, 12, 3);
    assert_eq!(robot_row(&r), "#7    忙碌   80%  N12    #70");
    r.carrying = true;
    r.current_task = None;
    r.location.node = None;
    r.battery = Battery(100);
    r.id = RobotId(12345);
    assert_eq!(robot_row(&r), "#12345 忙碌  100%  -      - 📦");
    let mut t = task(42, TaskStatus::Pending);
    assert_eq!(task_row(&t), "#42     高   待处理    -");
    t.assigned_robot = Some(RobotId(3));
    t.status = TaskStatus::Failed;
    assert_eq!(task_row(&t), "#42     高   失败     #3");
}

#[test]
fn codes_and_names() {
    assert_eq!(status_code(RobotStatus::Offline), 4);
    assert_eq!(status_code(RobotStatus::Idle), 0);
    assert_eq!(status_str(RobotStatus::Error), "故障");
    assert_eq!(task_status_code(TaskStatus::Completed), 3);
    assert_eq!(task_status_str(TaskStatus::Executing), "执行中");
    assert_eq!(prio_str(TaskPriority::Urgent), "紧急");
}

#[test]
fn counters_count() {
    let mut off = busy(3, 1, 2);
    off.status = RobotStatus::Offline;
    let mut idle = busy(4, 1, 2);
    idle.status = RobotStatus::Idle;
    let robots = vec![busy(1, 1, 2), busy(2, 2, 3), off, idle];
    let tasks = vec![
        task(1, TaskStatus::Pending),
        task(2, TaskStatus::Assigned),
        task(3, TaskStatus::Executing),
        task(4, TaskStatus::Completed),
        task(5, TaskStatus::Failed),
    ];
    let c = count_all(&robots, &tasks);
    assert_eq!((c.online, c.idle, c.busy), (3, 1, 2));
    assert_eq!((c.pending, c.running, c.done), (1, 2, 1));
}

#[test]
fn robots_are_shown_in_order() {
    let robots = vec![busy(9, 1, 2), busy(2, 2, 1), busy(5, 2, 7)];
    let report = analyze(&robots);
    let items = robot_items(&robots, &report, true, Some(RobotId(5)));
    let ids: Vec<u64> = items.iter().map(|i| i.id).collect();
    assert_eq!(ids, vec![2, 5, 9]);
    assert!(items[0].deadlocked && items[2].deadlocked && !items[1].deadlocked);
    assert!(items[0].crowded && items[1].crowded && !items[2].crowded);
    assert!(items[1].selected && !items[0].selected);
    assert_eq!(items[2].tag, "#9");
    assert_eq!(items[2].row, robot_row(&robots[0]));
    let plain = robot_items(&robots, &report, false, None);
    assert!(plain.iter().all(|i| !i.deadlocked && !i.crowded && !i.selected));
    assert_eq!(
        destinations(&robots, Some(RobotId(2))),
        vec![(NodeId(2), false), (NodeId(1), true), (NodeId(7), false)]
    );
}

#[test]
fn tasks_are_listed_newest_first() {
    let tasks: Vec<Task> = (1..=250).map(|i| task(i, TaskStatus::Pending)).collect();
    let items = task_items(&tasks);
    assert_eq!(items.len(), 200);
    assert_eq!(items[0].row, task_row(&tasks[249]));
    assert_eq!(items[199].row, task_row(&tasks[50]));
    assert_eq!(items[0].status, 0);
    assert_eq!(in_order(&vec![3, 1, 3, 2], false), vec![1, 3, 0, 2]);
    assert_eq!(in_order(&vec![3, 1, 3, 2], true), vec![0, 2, 3, 1]);
}

#[test]
fn conflicts_are_marked_and_told() {
    let robots = vec![busy(1, 1, 2), busy(2, 2, 1), busy(3, 2, 1)];
    let report = analyze(&robots);
    let m = markers(&report, true);
    assert_eq!(m.len(), 2);
    assert_eq!((m[0].node, m[0].kind), (NodeId(2), 0));
    assert_eq!(m[0].label, "×2");
    assert_eq!((m[1].node, m[1].kind), (NodeId(1), 1));
    assert_eq!(m[1].label, "?2");
    assert!(markers(&report, false).is_empty());
    let none = String::new();
    let some = event_line(1, 0, 2);
    assert_eq!(some, "解除死锁 1 · 任务失败 2");
    assert_eq!(event_line(0, 0, 0), "");
    assert_eq!(event_line(0, 5, 0), "回收重试 5");
    assert_eq!(event_line(1, 2, 3), "解除死锁 1 · 回收重试 2 · 任务失败 3");
    assert_eq!(conflict_line(false, &report, &none), "");
    assert_eq!(
        conflict_line(false, &report, &some),
        "调度事件：累计 解除死锁 1 · 任务失败 2"
    );
    let dead: usize = report.deadlock_cycles.iter().map(|c| c.len()).sum();
    assert_eq!(
        conflict_line(true, &report, &none),
        format!("⚠ 风险：拥挤节点 1 · 目标争用 1 · 死锁机器人 {}", dead)
    );
    assert_eq!(
        conflict_line(true, &report, &some),
        format!(
            "⚠ 风险：拥挤节点 1 · 目标争用 1 · 死锁机器人 {}  |  累计 解除死锁 1 · 任务失败 2",
            dead
        )
    );
    let calm = analyze(&[busy(1, 1, 2)]);
    assert_eq!(conflict_line(true, &calm, &none), "");
}

#[test]
fn titles_and_hints() {
    assert_eq!(robots_title(5), "机器人明细 (5)");
    assert_eq!(tasks_title(0), "任务看板 (0)");
    assert_eq!(map_hint(12), "在线 12 台 · 点击机器人查看轨迹与详情");
}

#[test]
fn details_describe_the_selected_robot() {
    let mut r = busy(3, 1, 2);
    let tasks = vec![task(1, TaskStatus::Pending), task(30, TaskStatus::Assigned)];
    let d = details(&r, &tasks, 17);
    assert_eq!(d.title, "ROBOT-0003");
    assert_eq!(d.status, "状态：忙碌");
    assert_eq!(d.battery, "电量：80%");
    assert_eq!(d.node, "所在节点：N1");
    assert_eq!(d.target, "目的地：N2");
    assert_eq!(d.trail, "轨迹点：17 个采样");
    assert_eq!(
        d.task,
        "当前任务 #30 · 搬运 N4 → N5 · 优先级 高 · 空载 · 取 N4"
    );
    r.carrying = true;
    assert_eq!(
        details(&r, &tasks, 0).task,
        "当前任务 #30 · 搬运 N4 → N5 · 优先级 高 · 载货中 · 取 N4"
    );
    r.current_task = None;
    r.target = None;
    let d = details(&r, &tasks, 0);
    assert_eq!(d.task, "当前无绑定任务（空闲）");
    assert_eq!(d.target, "目的地：-");
    let robots = vec![busy(1, 1, 2), r];
    assert_eq!(find_robot(&robots, RobotId(3)), Some(1));
    assert_eq!(find_robot(&robots, RobotId(4)), None);
}

#[test]
fn robots_glide_along_their_routes() {
    let map = build_grid_map(3, 1);
    let mut r = busy(1, 1, 0);
    r.route = vec![NodeId(2), NodeId(1), NodeId(0)];
    r.last_change_ms = 1_000;
    assert_eq!(anim_world(&map, &r, 1_000), (M, 0));
    assert_eq!(anim_world(&map, &r, 1_080), (M / 2, 0));
    assert_eq!(anim_world(&map, &r, 1_160), (0, 0));
    assert_eq!(anim_world(&map, &r, 9_000), (0, 0));
    assert_eq!(anim_world(&map, &r, 10), (M, 0));
    r.route = vec![NodeId(0), NodeId(1)];
    assert_eq!(anim_world(&map, &r, 1_080), (M, 0));
    r.route = vec![NodeId(1), NodeId(2)];
    assert_eq!(anim_world(&map, &r, 1_040), (M + M / 4, 0));
}

#[test]
fn curves_are_differences() {
    let s = |t_ms: u64, heartbeats: u64, assigned: u64, completed: u64, submitted: u64| Sample {
        t_ms,
        heartbeats,
        submitted,
        assigned,
        completed,
        online: 0,
        pending: 0,
        deadlock_resolved: 0,
        task_retried: 0,
    };
    let samples = vec![
        s(1_000, 10, 1, 0, 2),
        s(1_500, 25, 1, 1, 4),
        s(1_500, 30, 2, 1, 4),
        s(2_500, 20, 5, 2, 4),
    ];
    let c = build_series(&samples);
    assert_eq!(
        c.heartbeats,
        vec![
            RatePoint {
                t_ms: 500,
                count: 15,
                dt_ms: 500
            },
            RatePoint {
                t_ms: 1_500,
                count: 0,
                dt_ms: 1_000
            }
        ]
    );
    assert_eq!(c.assigned[1].count, 3);
    assert_eq!(c.completed.len(), 4);
    assert_eq!(
        c.completed[3],
        RatioPoint {
            t_ms: 1_500,
            part: 2,
            whole: 4
        }
    );
}
