//! What the monitoring panel shows: rows, counters, lines of text and animated positions.
//!
//! Everything here is computed from one snapshot of the state. Where it appears on the screen
//! is the panel's business.

use crate::domain::map::RoadMapView;
use crate::domain::robot::robot_views;
use crate::domain::task::task_views;
use crate::domain::{
    Location, NodeId, RoadMap, RobotId, RobotState, RobotStatus, RobotView, Task, TaskId,
    TaskPriority, TaskStatus, TaskView,
};
use crate::engine::ConflictReport;
use crate::metrics::Sample;
use crate::storage::memory_store::{robot_numbers, task_numbers};
use crate::text::{
    decimal, decimal_text, law_decimals_tell_numbers_apart, law_small_numbers_are_short, pad_left,
    pad_left_text, pad_right, pad_right_text,
};
use std::collections::HashSet;
use vstd::prelude::*;

verus! {

broadcast use vstd::std_specs::hash::group_hash_axioms;

// ---------------------------------------------------------------- codes and names
/// The number by which the panel colours a robot.
pub fn status_code(s: RobotStatus) -> (r: i32)
    ensures
        r == (match s {
            RobotStatus::Idle => 0i32,
            RobotStatus::Busy => 1,
            RobotStatus::Charging => 2,
            RobotStatus::Error => 3,
            RobotStatus::Offline => 4,
        }),
{
    match s {
        RobotStatus::Idle => 0,
        RobotStatus::Busy => 1,
        RobotStatus::Charging => 2,
        RobotStatus::Error => 3,
        RobotStatus::Offline => 4,
    }
}

/// The name of a robot's status.
pub open spec fn status_name(s: RobotStatus) -> Seq<char> {
    match s {
        RobotStatus::Idle => "空闲"@,
        RobotStatus::Busy => "忙碌"@,
        RobotStatus::Charging => "充电"@,
        RobotStatus::Error => "故障"@,
        RobotStatus::Offline => "离线"@,
    }
}

/// The name of a robot's status.
pub fn status_str(s: RobotStatus) -> (r: &'static str)
    ensures
        r@ == status_name(s),
{
    match s {
        RobotStatus::Idle => "空闲",
        RobotStatus::Busy => "忙碌",
        RobotStatus::Charging => "充电",
        RobotStatus::Error => "故障",
        RobotStatus::Offline => "离线",
    }
}

/// The number by which the panel colours a task.
pub open spec fn task_code(t: TaskStatus) -> i32 {
    match t {
        TaskStatus::Pending => 0,
        TaskStatus::Assigned => 1,
        TaskStatus::Executing => 2,
        TaskStatus::Completed => 3,
        TaskStatus::Failed => 4,
    }
}

/// The number by which the panel colours a task.
pub fn task_status_code(t: TaskStatus) -> (r: i32)
    ensures
        r == task_code(t),
{
    match t {
        TaskStatus::Pending => 0,
        TaskStatus::Assigned => 1,
        TaskStatus::Executing => 2,
        TaskStatus::Completed => 3,
        TaskStatus::Failed => 4,
    }
}

/// The name of a task's status.
pub open spec fn task_status_name(t: TaskStatus) -> Seq<char> {
    match t {
        TaskStatus::Pending => "待处理"@,
        TaskStatus::Assigned => "已分配"@,
        TaskStatus::Executing => "执行中"@,
        TaskStatus::Completed => "已完成"@,
        TaskStatus::Failed => "失败"@,
    }
}

/// The name of a task's status.
pub fn task_status_str(t: TaskStatus) -> (r: &'static str)
    ensures
        r@ == task_status_name(t),
{
    match t {
        TaskStatus::Pending => "待处理",
        TaskStatus::Assigned => "已分配",
        TaskStatus::Executing => "执行中",
        TaskStatus::Completed => "已完成",
        TaskStatus::Failed => "失败",
    }
}

/// The name of a priority.
pub open spec fn priority_name(p: TaskPriority) -> Seq<char> {
    match p {
        TaskPriority::Low => "低"@,
        TaskPriority::Normal => "中"@,
        TaskPriority::High => "高"@,
        TaskPriority::Urgent => "紧急"@,
    }
}

/// The name of a priority.
pub fn prio_str(p: TaskPriority) -> (r: &'static str)
    ensures
        r@ == priority_name(p),
{
    match p {
        TaskPriority::Low => "低",
        TaskPriority::Normal => "中",
        TaskPriority::High => "高",
        TaskPriority::Urgent => "紧急",
    }
}

/// A text in a string of its own.
fn text(s: &str) -> (r: String)
    ensures
        r@ == s@,
{
    let mut out = String::new();
    out.append(s);
    assert(out@ =~= s@);
    out
}

/// The label of a node: `N` and its number, or a dash for none.
pub open spec fn node_label(node: Option<NodeId>) -> Seq<char> {
    match node {
        Some(n) => "N"@ + decimal(n.0 as nat),
        None => "-"@,
    }
}

fn node_label_text(node: Option<NodeId>) -> (r: String)
    ensures
        r@ == node_label(node),
{
    match node {
        Some(n) => n.label(),
        None => text("-"),
    }
}

/// The label of a number: `#` and the number, or a dash for none.
pub open spec fn number_label(n: Option<u64>) -> Seq<char> {
    match n {
        Some(n) => "#"@ + decimal(n as nat),
        None => "-"@,
    }
}

fn number_label_text(n: Option<u64>) -> (r: String)
    ensures
        r@ == number_label(n),
{
    match n {
        Some(n) => {
            let mut out = text("#");
            out.append(decimal_text(n).as_str());
            out
        },
        None => text("-"),
    }
}

// ---------------------------------------------------------------- rows
/// The row of a robot: number, status, charge, node, task, and a box if it carries goods.
pub open spec fn robot_row_text(r: RobotView) -> Seq<char> {
    "#"@ + pad_right(decimal(r.id.0 as nat), 4) + " "@ + pad_right(status_name(r.status), 3) + " "@
        + pad_left(decimal(r.battery.0 as nat), 3, ' ') + "%  "@ + pad_right(
        node_label(r.location.node),
        6,
    ) + " "@ + number_label(
        match r.current_task {
            Some(t) => Some(t.0),
            None => None,
        },
    ) + (if r.carrying {
        " 📦"@
    } else {
        ""@
    })
}

/// The row of a robot.
pub fn robot_row(r: &RobotState) -> (row: String)
    ensures
        row@ == robot_row_text(r@),
{
    let task = match r.current_task {
        Some(t) => Some(t.0),
        None => None,
    };
    let mut out = text("#");
    out.append(pad_right_text(&decimal_text(r.id.0), 4).as_str());
    out.append(" ");
    out.append(pad_right_text(&text(status_str(r.status)), 3).as_str());
    out.append(" ");
    out.append(pad_left_text(&decimal_text(r.battery.0 as u64), 3, false).as_str());
    out.append("%  ");
    out.append(pad_right_text(&node_label_text(r.location.node), 6).as_str());
    out.append(" ");
    out.append(number_label_text(task).as_str());
    if r.carrying {
        out.append(" 📦");
    } else {
        out.append("");
    }
    assert(out@ =~= robot_row_text(r@));
    out
}

/// The row of a task: number, priority, status and robot.
pub open spec fn task_row_text(t: TaskView) -> Seq<char> {
    "#"@ + pad_right(decimal(t.id.0 as nat), 6) + " "@ + pad_right(priority_name(t.priority), 3)
        + " "@ + pad_right(task_status_name(t.status), 6) + " "@ + number_label(
        match t.assigned_robot {
            Some(r) => Some(r.0),
            None => None,
        },
    )
}

/// The row of a task.
pub fn task_row(t: &Task) -> (row: String)
    ensures
        row@ == task_row_text(t@),
{
    let robot = match t.assigned_robot {
        Some(r) => Some(r.0),
        None => None,
    };
    let mut out = text("#");
    out.append(pad_right_text(&decimal_text(t.id.0), 6).as_str());
    out.append(" ");
    out.append(pad_right_text(&text(prio_str(t.priority)), 3).as_str());
    out.append(" ");
    out.append(pad_right_text(&text(task_status_str(t.status)), 6).as_str());
    out.append(" ");
    out.append(number_label_text(robot).as_str());
    assert(out@ =~= task_row_text(t@));
    out
}

// ---------------------------------------------------------------- counters
/// How many elements satisfy a condition.
pub open spec fn count_where<T>(s: Seq<T>, f: spec_fn(T) -> bool) -> nat
    decreases s.len(),
{
    if s.len() == 0 {
        0
    } else {
        count_where(s.drop_last(), f) + (if f(s.last()) {
            1nat
        } else {
            0
        })
    }
}

/// The counters of the panel.
#[derive(Debug, Clone, Copy, PartialEq, Eq, Structural)]
pub struct Counters {
    /// Robots that are not offline.
    pub online: usize,
    /// Robots that are idle.
    pub idle: usize,
    /// Robots that are busy.
    pub busy: usize,
    /// Tasks that wait for a robot.
    pub pending: usize,
    /// Tasks that robots work on.
    pub running: usize,
    /// Tasks that are done.
    pub done: usize,
}

/// Whether the counters count what they say.
pub open spec fn counts(c: Counters, robots: Seq<RobotView>, tasks: Seq<TaskView>) -> bool {
    &&& c.online == count_where(robots, |r: RobotView| r.status != RobotStatus::Offline)
    &&& c.idle == count_where(robots, |r: RobotView| r.status == RobotStatus::Idle)
    &&& c.busy == count_where(robots, |r: RobotView| r.status == RobotStatus::Busy)
    &&& c.pending == count_where(tasks, |t: TaskView| t.status == TaskStatus::Pending)
    &&& c.running == count_where(
        tasks,
        |t: TaskView| t.status == TaskStatus::Assigned || t.status == TaskStatus::Executing,
    )
    &&& c.done == count_where(tasks, |t: TaskView| t.status == TaskStatus::Completed)
}

/// Counts robots and tasks.
pub fn count_all(robots: &Vec<RobotState>, tasks: &Vec<Task>) -> (c: Counters)
    ensures
        counts(c, robot_views(robots@), task_views(tasks@)),
{
    let ghost rs = robot_views(robots@);
    let ghost ts = task_views(tasks@);
    let ghost f_online = |r: RobotView| r.status != RobotStatus::Offline;
    let ghost f_idle = |r: RobotView| r.status == RobotStatus::Idle;
    let ghost f_busy = |r: RobotView| r.status == RobotStatus::Busy;
    let ghost f_pending = |t: TaskView| t.status == TaskStatus::Pending;
    let ghost f_running = |t: TaskView|
        t.status == TaskStatus::Assigned || t.status == TaskStatus::Executing;
    let ghost f_done = |t: TaskView| t.status == TaskStatus::Completed;
    let mut c = Counters { online: 0, idle: 0, busy: 0, pending: 0, running: 0, done: 0 };
    let mut i: usize = 0;
    while i < robots.len()
        invariant
            i <= robots@.len(),
            rs == robot_views(robots@),
            f_online == |r: RobotView| r.status != RobotStatus::Offline,
            f_idle == |r: RobotView| r.status == RobotStatus::Idle,
            f_busy == |r: RobotView| r.status == RobotStatus::Busy,
            c.online == count_where(rs.take(i as int), f_online),
            c.idle == count_where(rs.take(i as int), f_idle),
            c.busy == count_where(rs.take(i as int), f_busy),
            c.online <= i,
            c.idle <= i,
            c.busy <= i,
            c.pending == 0,
            c.running == 0,
            c.done == 0,
        decreases robots@.len() - i,
    {
        let s = robots[i].status;
        proof {
            assert(rs.take(i + 1).drop_last() =~= rs.take(i as int));
            assert(rs.take(i + 1).last() == robots@[i as int]@);
        }
        if s != RobotStatus::Offline {
            c.online = c.online + 1;
        }
        if s == RobotStatus::Idle {
            c.idle = c.idle + 1;
        }
        if s == RobotStatus::Busy {
            c.busy = c.busy + 1;
        }
        i = i + 1;
    }
    assert(rs.take(i as int) =~= rs);
    let ghost counted = c;
    let mut j: usize = 0;
    while j < tasks.len()
        invariant
            j <= tasks@.len(),
            ts == task_views(tasks@),
            f_pending == |t: TaskView| t.status == TaskStatus::Pending,
            f_running == |t: TaskView|
                t.status == TaskStatus::Assigned || t.status == TaskStatus::Executing,
            f_done == |t: TaskView| t.status == TaskStatus::Completed,
            c.online == counted.online,
            c.idle == counted.idle,
            c.busy == counted.busy,
            c.pending == count_where(ts.take(j as int), f_pending),
            c.running == count_where(ts.take(j as int), f_running),
            c.done == count_where(ts.take(j as int), f_done),
            c.pending <= j,
            c.running <= j,
            c.done <= j,
        decreases tasks@.len() - j,
    {
        let s = tasks[j].status;
        proof {
            assert(ts.take(j + 1).drop_last() =~= ts.take(j as int));
            assert(ts.take(j + 1).last() == tasks@[j as int]@);
        }
        if s == TaskStatus::Pending {
            c.pending = c.pending + 1;
        }
        if s == TaskStatus::Assigned || s == TaskStatus::Executing {
            c.running = c.running + 1;
        }
        if s == TaskStatus::Completed {
            c.done = c.done + 1;
        }
        j = j + 1;
    }
    assert(ts.take(j as int) =~= ts);
    c
}

// ---------------------------------------------------------------- order
/// Whether the element at place `a` comes before the one at place `b`: by its key, and between
/// equal keys by its place.
pub open spec fn comes_first(keys: Seq<u64>, descending: bool, a: int, b: int) -> bool {
    ||| keys[a] == keys[b] && a < b
    ||| if descending {
        keys[a] > keys[b]
    } else {
        keys[a] < keys[b]
    }
}

/// Whether `places` names each place of `keys` once, in order.
pub open spec fn is_order(places: Seq<usize>, keys: Seq<u64>, descending: bool) -> bool {
    &&& places.len() == keys.len()
    &&& forall|i: int| 0 <= i < places.len() ==> #[trigger] places[i] < keys.len()
    &&& forall|i: int, j: int|
        0 <= i < j < places.len() ==> comes_first(
            keys,
            descending,
            #[trigger] places[i] as int,
            #[trigger] places[j] as int,
        )
}

/// Whether key `a` comes before key `b`.
fn key_first(a: u64, b: u64, descending: bool) -> (r: bool)
    ensures
        r == (if descending {
            a > b
        } else {
            a < b
        }),
{
    if descending {
        a > b
    } else {
        a < b
    }
}

/// The places of `keys` in order.
pub fn in_order(keys: &Vec<u64>, descending: bool) -> (r: Vec<usize>)
    ensures
        is_order(r@, keys@, descending),
{
    let mut out: Vec<usize> = Vec::new();
    let mut k: usize = 0;
    while k < keys.len()
        invariant
            k <= keys@.len(),
            out@.len() == k,
            forall|i: int| 0 <= i < out@.len() ==> #[trigger] out@[i] < k,
            forall|i: int, j: int|
                0 <= i < j < out@.len() ==> comes_first(
                    keys@,
                    descending,
                    #[trigger] out@[i] as int,
                    #[trigger] out@[j] as int,
                ),
        decreases keys@.len() - k,
    {
        let mut i: usize = out.len();
        let ghost before = out@;
        while i > 0 && key_first(keys[k], keys[out[i - 1]], descending)
            invariant
                i <= out@.len(),
                out@ == before,
                k < keys@.len(),
                forall|j: int| 0 <= j < out@.len() ==> #[trigger] out@[j] < k,
                forall|j: int|
                    i <= j < out@.len() ==> comes_first(
                        keys@,
                        descending,
                        k as int,
                        #[trigger] out@[j] as int,
                    ),
            decreases i,
        {
            i = i - 1;
        }
        out.insert(i, k);
        proof {
            assert(out@ =~= before.insert(i as int, k));
            assert forall|j: int| 0 <= j < i implies comes_first(
                keys@,
                descending,
                #[trigger] before[j] as int,
                k as int,
            ) by {
                assert(before[i - 1] < k);
                assert(comes_first(keys@, descending, before[i - 1] as int, k as int));
                if j < i - 1 {
                    assert(comes_first(
                        keys@,
                        descending,
                        before[j] as int,
                        before[i - 1] as int,
                    ));
                }
            }
            assert forall|a: int, b: int| 0 <= a < b < out@.len() implies comes_first(
                keys@,
                descending,
                #[trigger] out@[a] as int,
                #[trigger] out@[b] as int,
            ) by {
                if a != i && b != i {
                    let a2 = if a < i {
                        a
                    } else {
                        a - 1
                    };
                    let b2 = if b < i {
                        b
                    } else {
                        b - 1
                    };
                    assert(comes_first(keys@, descending, before[a2] as int, before[b2] as int));
                } else if a == i {
                    assert(out@[b] == before[b - 1]);
                } else {
                    assert(out@[a] == before[a]);
                }
            }
        }
        k = k + 1;
    }
    out
}

// ---------------------------------------------------------------- robots on the map
/// A robot as the panel shows it.
#[derive(Debug)]
pub struct RobotItem {
    pub id: u64,
    pub status: i32,
    pub battery: u8,
    pub deadlocked: bool,
    pub crowded: bool,
    pub selected: bool,
    pub carrying: bool,
    pub tag: String,
    pub row: String,
}

/// Whether some crowded node holds a robot.
pub open spec fn in_crowd(report: ConflictReport, number: u64) -> bool {
    exists|i: int|
        0 <= i < report.crowded@.len() && (#[trigger] report.crowded@[i]).1@.contains(
            RobotId(number),
        )
}

/// Whether `item` shows the robot `r`.
pub open spec fn shows_robot(
    item: RobotItem,
    r: RobotView,
    report: ConflictReport,
    show_conflict: bool,
    selected: Option<RobotId>,
) -> bool {
    &&& item.id == r.id.0
    &&& item.status == (match r.status {
        RobotStatus::Idle => 0i32,
        RobotStatus::Busy => 1,
        RobotStatus::Charging => 2,
        RobotStatus::Error => 3,
        RobotStatus::Offline => 4,
    })
    &&& item.battery == r.battery.0
    &&& item.deadlocked == (show_conflict && report.in_deadlock(r.id.0))
    &&& item.crowded == (show_conflict && in_crowd(report, r.id.0))
    &&& item.selected == (selected == Some(r.id))
    &&& item.carrying == r.carrying
    &&& item.tag@ == "#"@ + decimal(r.id.0 as nat)
    &&& item.row@ == robot_row_text(r)
}

/// The numbers of the robots on crowded nodes.
fn crowded_robots(report: &ConflictReport) -> (r: HashSet<u64>)
    ensures
        forall|n: u64| #[trigger] r@.contains(n) <==> in_crowd(*report, n),
{
    let mut out: HashSet<u64> = HashSet::new();
    let mut c: usize = 0;
    while c < report.crowded.len()
        invariant
            c <= report.crowded@.len(),
            forall|n: u64| #[trigger]
                out@.contains(n) <==> exists|i: int|
                    0 <= i < c && (#[trigger] report.crowded@[i]).1@.contains(RobotId(n)),
        decreases report.crowded@.len() - c,
    {
        let list = &report.crowded[c].1;
        let ghost before = out@;
        let mut i: usize = 0;
        while i < list.len()
            invariant
                i <= list@.len(),
                forall|n: u64| #[trigger]
                    out@.contains(n) <==> before.contains(n) || exists|j: int|
                        0 <= j < i && #[trigger] list@[j] == RobotId(n),
            decreases list@.len() - i,
        {
            let x = list[i].0;
            let ghost so_far = out@;
            out.insert(x);
            proof {
                assert forall|n: u64| #[trigger]
                    out@.contains(n) <==> before.contains(n) || exists|j: int|
                        0 <= j < i + 1 && #[trigger] list@[j] == RobotId(n) by {
                    assert(so_far.contains(n) <==> before.contains(n) || exists|j: int|
                        0 <= j < i && #[trigger] list@[j] == RobotId(n));
                    assert(list@[i as int] == RobotId(x));
                }
            }
            i = i + 1;
        }
        proof {
            assert forall|n: u64| #[trigger]
                out@.contains(n) <==> exists|q: int|
                    0 <= q < c + 1 && (#[trigger] report.crowded@[q]).1@.contains(RobotId(n)) by {
                assert(before.contains(n) <==> exists|q: int|
                    0 <= q < c && (#[trigger] report.crowded@[q]).1@.contains(RobotId(n)));
                let here = report.crowded@[c as int].1@;
                assert(here == list@);
                if here.contains(RobotId(n)) {
                    let j = here.index_of(RobotId(n));
                    assert(list@[j] == RobotId(n));
                }
                if exists|j: int| 0 <= j < i && #[trigger] list@[j] == RobotId(n) {
                    let j = choose|j: int| 0 <= j < i && #[trigger] list@[j] == RobotId(n);
                    assert(here.contains(RobotId(n)));
                }
            }
        }
        c = c + 1;
    }
    out
}

/// The numbers of robots.
fn robot_keys(robots: &Vec<RobotState>) -> (r: Vec<u64>)
    ensures
        r@ == robot_numbers(robot_views(robots@)),
{
    let mut out: Vec<u64> = Vec::new();
    let mut i: usize = 0;
    while i < robots.len()
        invariant
            i <= robots@.len(),
            out@.len() == i,
            forall|j: int| 0 <= j < i ==> #[trigger] out@[j] == robots@[j].id.0,
        decreases robots@.len() - i,
    {
        out.push(robots[i].id.0);
        i = i + 1;
    }
    assert(out@ =~= robot_numbers(robot_views(robots@)));
    out
}

/// Whether `items` shows the robots, each once, sorted by number.
pub open spec fn shows_robots(
    items: Seq<RobotItem>,
    robots: Seq<RobotView>,
    report: ConflictReport,
    show_conflict: bool,
    selected: Option<RobotId>,
) -> bool {
    exists|places: Seq<usize>|
        {
            &&& #[trigger] is_order(places, robot_numbers(robots), false)
            &&& items.len() == places.len()
            &&& forall|i: int|
                0 <= i < items.len() ==> shows_robot(
                    #[trigger] items[i],
                    robots[places[i] as int],
                    report,
                    show_conflict,
                    selected,
                )
        }
}

/// The robots as the panel shows them, sorted by number.
pub fn robot_items(
    robots: &Vec<RobotState>,
    report: &ConflictReport,
    show_conflict: bool,
    selected: Option<RobotId>,
) -> (items: Vec<RobotItem>)
    ensures
        shows_robots(items@, robot_views(robots@), *report, show_conflict, selected),
{
    let ghost views = robot_views(robots@);
    let deadlocked = report.deadlock_robots();
    let crowded = crowded_robots(report);
    let keys = robot_keys(robots);
    let places = in_order(&keys, false);
    let mut items: Vec<RobotItem> = Vec::new();
    let mut i: usize = 0;
    while i < places.len()
        invariant
            i <= places@.len(),
            views == robot_views(robots@),
            keys@ == robot_numbers(views),
            is_order(places@, keys@, false),
            forall|n: u64| #[trigger] deadlocked@.contains(n) <==> report.in_deadlock(n),
            forall|n: u64| #[trigger] crowded@.contains(n) <==> in_crowd(*report, n),
            items@.len() == i,
            forall|j: int|
                0 <= j < i ==> shows_robot(
                    #[trigger] items@[j],
                    views[places@[j] as int],
                    *report,
                    show_conflict,
                    selected,
                ),
        decreases places@.len() - i,
    {
        let r = &robots[places[i]];
        let n = r.id.0;
        assert(views[places@[i as int] as int] == r@);
        let item = RobotItem {
            id: n,
            status: status_code(r.status),
            battery: r.battery.0,
            deadlocked: show_conflict && deadlocked.contains(&n),
            crowded: show_conflict && crowded.contains(&n),
            selected: match selected {
                Some(id) => id == r.id,
                None => false,
            },
            carrying: r.carrying,
            tag: number_label_text(Some(n)),
            row: robot_row(r),
        };
        items.push(item);
        i = i + 1;
    }
    assert(is_order(places@, robot_numbers(views), false));
    items
}

/// The marks for the targets of robots: the node, and whether the robot is selected.
pub open spec fn target_marks(robots: Seq<RobotView>, selected: Option<RobotId>, n: nat) -> Seq<
    (NodeId, bool),
>
    decreases n,
{
    if n == 0 {
        Seq::empty()
    } else {
        let before = target_marks(robots, selected, (n - 1) as nat);
        match robots[n - 1].target {
            Some(t) => before.push((t, selected == Some(robots[n - 1].id))),
            None => before,
        }
    }
}

/// The marks for the targets of robots, in the order of the robots.
pub fn destinations(robots: &Vec<RobotState>, selected: Option<RobotId>) -> (r: Vec<(NodeId, bool)>)
    ensures
        r@ == target_marks(robot_views(robots@), selected, robots@.len()),
{
    let ghost views = robot_views(robots@);
    let mut out: Vec<(NodeId, bool)> = Vec::new();
    let mut i: usize = 0;
    while i < robots.len()
        invariant
            i <= robots@.len(),
            views == robot_views(robots@),
            out@ == target_marks(views, selected, i as nat),
        decreases robots@.len() - i,
    {
        assert(views[i as int] == robots@[i as int]@);
        if let Some(t) = robots[i].target {
            let chosen = match selected {
                Some(id) => id == robots[i].id,
                None => false,
            };
            out.push((t, chosen));
        }
        i = i + 1;
    }
    out
}

// ---------------------------------------------------------------- tasks
/// How many tasks the panel lists.
pub const TASK_ROWS: usize = 200;

/// A task as the panel shows it.
#[derive(Debug)]
pub struct TaskItem {
    pub row: String,
    pub status: i32,
}

/// Whether `items` shows the newest tasks, the greatest numbers first, up to [`TASK_ROWS`].
pub open spec fn shows_tasks(items: Seq<TaskItem>, tasks: Seq<TaskView>) -> bool {
    exists|places: Seq<usize>|
        {
            &&& #[trigger] is_order(places, task_numbers(tasks), true)
            &&& items.len() == (if places.len() < TASK_ROWS {
                places.len()
            } else {
                TASK_ROWS as nat
            })
            &&& forall|i: int|
                0 <= i < items.len() ==> {
                    &&& (#[trigger] items[i]).row@ == task_row_text(tasks[places[i] as int])
                    &&& items[i].status == task_code(tasks[places[i] as int].status)
                }
        }
}

/// The newest tasks as the panel shows them.
pub fn task_items(tasks: &Vec<Task>) -> (items: Vec<TaskItem>)
    ensures
        shows_tasks(items@, task_views(tasks@)),
{
    let ghost views = task_views(tasks@);
    let mut keys: Vec<u64> = Vec::new();
    let mut k: usize = 0;
    while k < tasks.len()
        invariant
            k <= tasks@.len(),
            keys@.len() == k,
            forall|j: int| 0 <= j < k ==> #[trigger] keys@[j] == tasks@[j].id.0,
        decreases tasks@.len() - k,
    {
        keys.push(tasks[k].id.0);
        k = k + 1;
    }
    assert(keys@ =~= task_numbers(views));
    let places = in_order(&keys, true);
    let mut items: Vec<TaskItem> = Vec::new();
    let mut i: usize = 0;
    while i < places.len() && i < TASK_ROWS
        invariant
            i <= places@.len(),
            i <= TASK_ROWS,
            views == task_views(tasks@),
            keys@ == task_numbers(views),
            is_order(places@, keys@, true),
            items@.len() == i,
            forall|j: int|
                0 <= j < i ==> {
                    &&& (#[trigger] items@[j]).row@ == task_row_text(views[places@[j] as int])
                    &&& items@[j].status == task_code(views[places@[j] as int].status)
                },
        decreases places@.len() - i,
    {
        let t = &tasks[places[i]];
        assert(views[places@[i as int] as int] == t@);
        items.push(TaskItem { row: task_row(t), status: task_status_code(t.status) });
        i = i + 1;
    }
    assert(is_order(places@, task_numbers(views), true));
    items
}

// ---------------------------------------------------------------- conflicts
/// A mark for a conflict.
#[derive(Debug)]
pub struct Marker {
    pub node: NodeId,
    /// 0 for a crowded node, 1 for a contested one.
    pub kind: i32,
    pub label: String,
}

/// Whether `m` marks the `i`-th of the crowded and then the contested nodes.
pub open spec fn marks(m: Marker, report: ConflictReport, i: int) -> bool {
    let first = report.crowded@.len();
    if i < first {
        &&& m.node == report.crowded@[i].0
        &&& m.kind == 0
        &&& m.label@ == "×"@ + decimal(report.crowded@[i].1@.len())
    } else {
        &&& m.node == report.contested@[i - first].0
        &&& m.kind == 1
        &&& m.label@ == "?"@ + decimal(report.contested@[i - first].1@.len())
    }
}

/// The marks for the crowded and then the contested nodes; none unless conflicts are shown.
pub fn markers(report: &ConflictReport, show_conflict: bool) -> (r: Vec<Marker>)
    ensures
        !show_conflict ==> r@.len() == 0,
        show_conflict ==> r@.len() == report.crowded@.len() + report.contested@.len(),
        forall|i: int| 0 <= i < r@.len() ==> marks(#[trigger] r@[i], *report, i),
{
    let mut out: Vec<Marker> = Vec::new();
    if !show_conflict {
        return out;
    }
    let mut i: usize = 0;
    while i < report.crowded.len()
        invariant
            i <= report.crowded@.len(),
            out@.len() == i,
            forall|j: int| 0 <= j < i ==> marks(#[trigger] out@[j], *report, j),
        decreases report.crowded@.len() - i,
    {
        let mut label = text("×");
        label.append(decimal_text(report.crowded[i].1.len() as u64).as_str());
        out.push(Marker { node: report.crowded[i].0, kind: 0, label });
        i = i + 1;
    }
    let mut k: usize = 0;
    while k < report.contested.len()
        invariant
            k <= report.contested@.len(),
            out@.len() == report.crowded@.len() + k,
            forall|j: int| 0 <= j < out@.len() ==> marks(#[trigger] out@[j], *report, j),
        decreases report.contested@.len() - k,
    {
        let mut label = text("?");
        label.append(decimal_text(report.contested[k].1.len() as u64).as_str());
        out.push(Marker { node: report.contested[k].0, kind: 1, label });
        k = k + 1;
    }
    out
}

/// The parts of a line that are not empty, with a separator between them.
pub open spec fn joined_parts(a: Seq<char>, b: Seq<char>) -> Seq<char> {
    if a.len() == 0 {
        b
    } else if b.len() == 0 {
        a
    } else {
        a + " · "@ + b
    }
}

/// A name and a count, or nothing for a count of 0.
pub open spec fn event_part(name: Seq<char>, count: u64) -> Seq<char> {
    if count > 0 {
        name + decimal(count as nat)
    } else {
        Seq::empty()
    }
}

/// The events so far: resolved deadlocks, tasks taken back, and tasks given up, as far as there
/// were any.
pub open spec fn events_text(resolved: u64, retried: u64, failed: u64) -> Seq<char> {
    joined_parts(
        joined_parts(event_part("解除死锁 "@, resolved), event_part("回收重试 "@, retried)),
        event_part("任务失败 "@, failed),
    )
}

/// Adds a part to a line.
fn add_part(line: &mut String, name: &str, count: u64)
    requires
        name@.len() > 0,
    ensures
        final(line)@ == joined_parts(old(line)@, event_part(name@, count)),
{
    if count > 0 {
        if line.as_str().unicode_len() > 0 {
            line.append(" · ");
        }
        line.append(name);
        line.append(decimal_text(count).as_str());
    }
    assert(line@ =~= joined_parts(old(line)@, event_part(name@, count)));
}

/// The line of events so far.
pub fn event_line(resolved: u64, retried: u64, failed: u64) -> (r: String)
    ensures
        r@ == events_text(resolved, retried, failed),
{
    proof {
        reveal_strlit("解除死锁 ");
        reveal_strlit("回收重试 ");
        reveal_strlit("任务失败 ");
    }
    let mut line = String::new();
    add_part(&mut line, "解除死锁 ", resolved);
    assert(line@ =~= event_part("解除死锁 "@, resolved));
    add_part(&mut line, "回收重试 ", retried);
    add_part(&mut line, "任务失败 ", failed);
    line
}

/// How many robots the first `n` deadlocks hold together.
pub open spec fn robots_in_deadlocks(rings: Seq<Vec<RobotId>>, n: nat) -> nat
    decreases n,
{
    if n == 0 {
        0
    } else {
        robots_in_deadlocks(rings, (n - 1) as nat) + rings[n - 1]@.len()
    }
}

/// The line about conflicts and events. It is empty if there is nothing to say.
pub open spec fn conflict_text(
    show_conflict: bool,
    report: ConflictReport,
    events: Seq<char>,
) -> Seq<char> {
    if show_conflict && report.issue() {
        let base = "⚠ 风险：拥挤节点 "@ + decimal(report.crowded@.len()) + " · 目标争用 "@
            + decimal(report.contested@.len()) + " · 死锁机器人 "@ + decimal(
            robots_in_deadlocks(
                report.deadlock_cycles@,
                report.deadlock_cycles@.len(),
            ),
        );
        if events.len() == 0 {
            base
        } else {
            base + "  |  累计 "@ + events
        }
    } else if events.len() > 0 {
        "调度事件：累计 "@ + events
    } else {
        Seq::empty()
    }
}

/// The sum of the first rings is at most the sum of all.
proof fn lemma_fewer_robots(rings: Seq<Vec<RobotId>>, n: nat, m: nat)
    requires
        n <= m,
    ensures
        robots_in_deadlocks(rings, n) <= robots_in_deadlocks(rings, m),
    decreases m,
{
    if n < m {
        lemma_fewer_robots(rings, n, (m - 1) as nat);
    }
}

/// The line about conflicts and events.
pub fn conflict_line(show_conflict: bool, report: &ConflictReport, events: &String) -> (r: String)
    requires
        robots_in_deadlocks(report.deadlock_cycles@, report.deadlock_cycles@.len()) <= u64::MAX,
    ensures
        r@ == conflict_text(show_conflict, *report, events@),
{
    let has_events = events.as_str().unicode_len() > 0;
    let mut out = String::new();
    if show_conflict && report.has_issue() {
        let ghost rings = report.deadlock_cycles@;
        let mut dead: u64 = 0;
        let mut i: usize = 0;
        while i < report.deadlock_cycles.len()
            invariant
                i <= report.deadlock_cycles@.len(),
                rings == report.deadlock_cycles@,
                robots_in_deadlocks(rings, rings.len()) <= u64::MAX,
                dead == robots_in_deadlocks(rings, i as nat),
            decreases report.deadlock_cycles@.len() - i,
        {
            proof {
                lemma_fewer_robots(rings, (i + 1) as nat, rings.len());
            }
            dead = dead + report.deadlock_cycles[i].len() as u64;
            i = i + 1;
        }
        out.append("⚠ 风险：拥挤节点 ");
        out.append(decimal_text(report.crowded.len() as u64).as_str());
        out.append(" · 目标争用 ");
        out.append(decimal_text(report.contested.len() as u64).as_str());
        out.append(" · 死锁机器人 ");
        out.append(decimal_text(dead).as_str());
        if has_events {
            out.append("  |  累计 ");
            out.append(events.as_str());
        }
    } else if has_events {
        out.append("调度事件：累计 ");
        out.append(events.as_str());
    }
    assert(out@ =~= conflict_text(show_conflict, *report, events@));
    out
}

// ---------------------------------------------------------------- titles and details
/// The title of the list of robots.
pub fn robots_title(n: usize) -> (r: String)
    ensures
        r@ == "机器人明细 ("@ + decimal(n as nat) + ")"@,
{
    let mut out = text("机器人明细 (");
    out.append(decimal_text(n as u64).as_str());
    out.append(")");
    out
}

/// The title of the list of tasks.
pub fn tasks_title(n: usize) -> (r: String)
    ensures
        r@ == "任务看板 ("@ + decimal(n as nat) + ")"@,
{
    let mut out = text("任务看板 (");
    out.append(decimal_text(n as u64).as_str());
    out.append(")");
    out
}

/// The hint above the map.
pub fn map_hint(online: usize) -> (r: String)
    ensures
        r@ == "在线 "@ + decimal(online as nat) + " 台 · 点击机器人查看轨迹与详情"@,
{
    let mut out = text("在线 ");
    out.append(decimal_text(online as u64).as_str());
    out.append(" 台 · 点击机器人查看轨迹与详情");
    out
}

/// The first of the first `n` robots with the given identifier.
pub open spec fn robot_place(robots: Seq<RobotView>, id: RobotId, n: nat) -> Option<int>
    decreases n,
{
    if n == 0 {
        None
    } else {
        match robot_place(robots, id, (n - 1) as nat) {
            Some(i) => Some(i),
            None => if robots[n - 1].id == id {
                Some(n - 1)
            } else {
                None
            },
        }
    }
}

/// Finds the selected robot.
pub fn find_robot(robots: &Vec<RobotState>, id: RobotId) -> (r: Option<usize>)
    ensures
        match r {
            Some(i) => i < robots@.len() && robot_place(robot_views(robots@), id, robots@.len())
                == Some(i as int),
            None => robot_place(robot_views(robots@), id, robots@.len()) is None,
        },
{
    let ghost views = robot_views(robots@);
    let mut found: Option<usize> = None;
    let mut i: usize = 0;
    while i < robots.len()
        invariant
            i <= robots@.len(),
            views == robot_views(robots@),
            match found {
                Some(k) => k < robots@.len() && robot_place(views, id, i as nat) == Some(k as int),
                None => robot_place(views, id, i as nat) is None,
            },
        decreases robots@.len() - i,
    {
        assert(views[i as int] == robots@[i as int]@);
        if found.is_none() && robots[i].id == id {
            found = Some(i);
        }
        i = i + 1;
    }
    found
}

/// The first of the first `n` tasks with the given identifier.
pub open spec fn task_place(tasks: Seq<TaskView>, id: TaskId, n: nat) -> Option<int>
    decreases n,
{
    if n == 0 {
        None
    } else {
        match task_place(tasks, id, (n - 1) as nat) {
            Some(i) => Some(i),
            None => if tasks[n - 1].id == id {
                Some(n - 1)
            } else {
                None
            },
        }
    }
}

fn find_task(tasks: &Vec<Task>, id: TaskId) -> (r: Option<usize>)
    ensures
        match r {
            Some(i) => i < tasks@.len() && task_place(task_views(tasks@), id, tasks@.len()) == Some(
                i as int,
            ),
            None => task_place(task_views(tasks@), id, tasks@.len()) is None,
        },
{
    let ghost views = task_views(tasks@);
    let mut found: Option<usize> = None;
    let mut i: usize = 0;
    while i < tasks.len()
        invariant
            i <= tasks@.len(),
            views == task_views(tasks@),
            match found {
                Some(k) => k < tasks@.len() && task_place(views, id, i as nat) == Some(k as int),
                None => task_place(views, id, i as nat) is None,
            },
        decreases tasks@.len() - i,
    {
        assert(views[i as int] == tasks@[i as int]@);
        if found.is_none() && tasks[i].id == id {
            found = Some(i);
        }
        i = i + 1;
    }
    found
}

/// The details of the selected robot.
#[derive(Debug)]
pub struct Details {
    pub title: String,
    pub status: String,
    pub battery: String,
    pub node: String,
    pub target: String,
    pub trail: String,
    pub task: String,
}

/// The line about a robot's task, if it is among `tasks`.
pub open spec fn task_text(r: RobotView, tasks: Seq<TaskView>) -> Seq<char> {
    let place = match r.current_task {
        Some(id) => task_place(tasks, id, tasks.len()),
        None => None,
    };
    match place {
        Some(i) => {
            let t = tasks[i];
            "当前任务 #"@ + decimal(t.id.0 as nat) + " · "@ + t.description() + " · 优先级 "@
                + priority_name(t.priority) + " · "@ + (if r.carrying {
                "载货中"@
            } else {
                "空载"@
            }) + (match t.goal() {
                Some(n) => " · 取 N"@ + decimal(n.0 as nat),
                None => Seq::empty(),
            })
        },
        None => "当前无绑定任务（空闲）"@,
    }
}

/// Whether `d` are the details of the robot `r`.
pub open spec fn describes(
    d: Details,
    r: RobotView,
    tasks: Seq<TaskView>,
    trail_points: nat,
) -> bool {
    &&& d.title@ == r.id.name()
    &&& d.status@ == "状态："@ + status_name(r.status)
    &&& d.battery@ == "电量："@ + decimal(r.battery.0 as nat) + "%"@
    &&& d.node@ == "所在节点："@ + node_label(r.location.node)
    &&& d.target@ == "目的地："@ + node_label(r.target)
    &&& d.trail@ == "轨迹点："@ + decimal(trail_points) + " 个采样"@
    &&& d.task@ == task_text(r, tasks)
}

fn task_line(r: &RobotState, tasks: &Vec<Task>) -> (line: String)
    ensures
        line@ == task_text(r@, task_views(tasks@)),
{
    let place = match r.current_task {
        Some(id) => find_task(tasks, id),
        None => None,
    };
    match place {
        Some(i) => {
            let t = &tasks[i];
            assert(task_views(tasks@)[i as int] == t@);
            let mut out = text("当前任务 #");
            out.append(decimal_text(t.id.0).as_str());
            out.append(" · ");
            out.append(t.kind_desc().as_str());
            out.append(" · 优先级 ");
            out.append(prio_str(t.priority));
            out.append(" · ");
            if r.carrying {
                out.append("载货中");
            } else {
                out.append("空载");
            }
            if let Some(n) = t.goal_node() {
                out.append(" · 取 N");
                out.append(decimal_text(n.0 as u64).as_str());
            }
            assert(out@ =~= task_text(r@, task_views(tasks@)));
            out
        },
        None => text("当前无绑定任务（空闲）"),
    }
}

/// The details of a robot.
pub fn details(r: &RobotState, tasks: &Vec<Task>, trail_points: usize) -> (d: Details)
    ensures
        describes(d, r@, task_views(tasks@), trail_points as nat),
{
    let mut status = text("状态：");
    status.append(status_str(r.status));
    let mut battery = text("电量：");
    battery.append(decimal_text(r.battery.0 as u64).as_str());
    battery.append("%");
    let mut node = text("所在节点：");
    node.append(node_label_text(r.location.node).as_str());
    let mut target = text("目的地：");
    target.append(node_label_text(r.target).as_str());
    let mut trail = text("轨迹点：");
    trail.append(decimal_text(trail_points as u64).as_str());
    trail.append(" 个采样");
    Details {
        title: r.id.label(),
        status,
        battery,
        node,
        target,
        trail,
        task: task_line(r, tasks),
    }
}

// ---------------------------------------------------------------- animation
/// The time that the panel assumes for the way from node to node, in milliseconds.
pub const NODE_MS: u64 = 160;

/// The first of the first `n` places of a route where `node` stands.
pub open spec fn route_place(route: Seq<NodeId>, node: NodeId, n: nat) -> Option<int>
    decreases n,
{
    if n == 0 {
        None
    } else {
        match route_place(route, node, (n - 1) as nat) {
            Some(i) => Some(i),
            None => if route[n - 1] == node {
                Some(n - 1)
            } else {
                None
            },
        }
    }
}

/// The point of the node behind the robot's node on its route.
pub open spec fn next_stop(map: RoadMapView, r: RobotView) -> Option<Location> {
    match r.location.node {
        Some(here) => match route_place(r.route, here, r.route.len()) {
            Some(i) => if i + 1 < r.route.len() && map.nodes.contains_key(r.route[i + 1].0) {
                Some(map.nodes[r.route[i + 1].0])
            } else {
                None
            },
            None => None,
        },
        None => None,
    }
}

/// The point at `part` of [`NODE_MS`] on the way from `a` to `b`.
pub open spec fn part_way(a: int, b: int, part: int) -> int {
    if a <= b {
        a + (b - a) * part / (NODE_MS as int)
    } else {
        a - (a - b) * part / (NODE_MS as int)
    }
}

/// How much of the way to the next node lies behind a robot, as a part of [`NODE_MS`].
pub open spec fn progress(r: RobotView, now: u64) -> int {
    let elapsed = now - r.last_change_ms;
    if elapsed < 0 {
        0
    } else if elapsed > NODE_MS {
        NODE_MS as int
    } else {
        elapsed
    }
}

/// Where the panel draws a robot: on the way from its node to the next one, according to the
/// time since its last change of node.
pub open spec fn animated(map: RoadMapView, r: RobotView, now: u64) -> (int, int) {
    match next_stop(map, r) {
        Some(l) => (
            part_way(r.location.x as int, l.x as int, progress(r, now)),
            part_way(r.location.y as int, l.y as int, progress(r, now)),
        ),
        None => (r.location.x as int, r.location.y as int),
    }
}

/// A part of the way is on the way.
proof fn lemma_part_way(a: int, b: int, part: int)
    requires
        0 <= part <= NODE_MS,
    ensures
        a <= b ==> a <= part_way(a, b, part) <= b,
        b <= a ==> b <= part_way(a, b, part) <= a,
        part == 0 ==> part_way(a, b, part) == a,
        part == NODE_MS ==> part_way(a, b, part) == b,
{
    let d = if a <= b {
        b - a
    } else {
        a - b
    };
    assert(0 <= d * part <= d * 160) by (nonlinear_arith)
        requires
            0 <= d,
            0 <= part <= 160,
    ;
    assert(part == 0 ==> d * part == 0) by (nonlinear_arith);
    assert(part == 160 ==> d * part == d * 160) by (nonlinear_arith);
}

fn interpolate(a: i64, b: i64, part: u64) -> (r: i64)
    requires
        part <= NODE_MS,
    ensures
        r == part_way(a as int, b as int, part as int),
{
    let d: u128 = if a <= b {
        (b as i128 - a as i128) as u128
    } else {
        (a as i128 - b as i128) as u128
    };
    assert(d * part <= 0xffff_ffff_ffff_ffff * 160) by (nonlinear_arith)
        requires
            d <= 0xffff_ffff_ffff_ffff,
            part <= 160,
    ;
    proof {
        lemma_part_way(a as int, b as int, part as int);
    }
    let step: u128 = d * part as u128 / NODE_MS as u128;
    if a <= b {
        (a as i128 + step as i128) as i64
    } else {
        (a as i128 - step as i128) as i64
    }
}

/// Where the panel draws a robot.
pub fn anim_world(map: &RoadMap, r: &RobotState, now: u64) -> (p: (i64, i64))
    ensures
        (p.0 as int, p.1 as int) == animated(map@, r@, now),
{
    let mut next: Option<Location> = None;
    if let Some(here) = r.location.node {
        let mut found: Option<usize> = None;
        let mut i: usize = 0;
        while i < r.route.len()
            invariant
                i <= r.route@.len(),
                match found {
                    Some(k) => k < r.route@.len() && route_place(r.route@, here, i as nat) == Some(
                        k as int,
                    ),
                    None => route_place(r.route@, here, i as nat) is None,
                },
            decreases r.route@.len() - i,
        {
            if found.is_none() && r.route[i] == here {
                found = Some(i);
            }
            i = i + 1;
        }
        if let Some(k) = found {
            if r.route.len() - k > 1 {
                if let Some(l) = map.node_location(r.route[k + 1]) {
                    next = Some(*l);
                }
            }
        }
    }
    match next {
        Some(l) => {
            let elapsed: u64 = now.saturating_sub(r.last_change_ms);
            let part: u64 = if elapsed > NODE_MS {
                NODE_MS
            } else {
                elapsed
            };
            (interpolate(r.location.x, l.x, part), interpolate(r.location.y, l.y, part))
        },
        None => (r.location.x, r.location.y),
    }
}

/// A drawn robot moves without a jump: it is at its node when it gets there, at the next one
/// after [`NODE_MS`], and between them all the time.
pub proof fn law_animation_is_continuous(map: RoadMapView, r: RobotView, now: u64)
    requires
        next_stop(map, r) is Some,
    ensures
        ({
            let (x, y) = animated(map, r, now);
            let next = next_stop(map, r)->0;
            &&& now <= r.last_change_ms ==> x == r.location.x && y == r.location.y
            &&& now >= r.last_change_ms + NODE_MS ==> x == next.x && y == next.y
            &&& r.location.x <= x <= next.x || next.x <= x <= r.location.x
            &&& r.location.y <= y <= next.y || next.y <= y <= r.location.y
        }),
{
    let next = next_stop(map, r)->0;
    lemma_part_way(r.location.x as int, next.x as int, progress(r, now));
    lemma_part_way(r.location.y as int, next.y as int, progress(r, now));
}

// ---------------------------------------------------------------- charts
/// A point of a rate: `count` events in `dt_ms`, at `t_ms` since the first sample.
#[derive(Debug, Clone, Copy, PartialEq, Eq, Structural)]
pub struct RatePoint {
    pub t_ms: u64,
    pub count: u64,
    pub dt_ms: u64,
}

/// A point of a ratio: `part` of `whole`, at `t_ms` since the first sample.
#[derive(Debug, Clone, Copy, PartialEq, Eq, Structural)]
pub struct RatioPoint {
    pub t_ms: u64,
    pub part: u64,
    pub whole: u64,
}

/// The curves of the panel.
#[derive(Debug)]
pub struct Charts {
    /// Heartbeats per time.
    pub heartbeats: Vec<RatePoint>,
    /// Assignments per time.
    pub assigned: Vec<RatePoint>,
    /// Completed of submitted tasks.
    pub completed: Vec<RatioPoint>,
}

/// A difference, or 0 where it would be negative.
pub open spec fn minus(a: u64, b: u64) -> u64 {
    if a >= b {
        (a - b) as u64
    } else {
        0
    }
}

/// The rate of a counter between the samples `i - 1` and `i`, if time has passed.
pub open spec fn rate_points(
    samples: Seq<Sample>,
    counter: spec_fn(Sample) -> u64,
    n: nat,
) -> Seq<RatePoint>
    decreases n,
{
    if n == 0 {
        Seq::empty()
    } else {
        let i = n - 1;
        let before = rate_points(samples, counter, i as nat);
        if i > 0 && minus(samples[i].t_ms, samples[i - 1].t_ms) > 0 {
            before.push(
                RatePoint {
                    t_ms: minus(samples[i].t_ms, samples[0].t_ms),
                    count: minus(counter(samples[i]), counter(samples[i - 1])),
                    dt_ms: minus(samples[i].t_ms, samples[i - 1].t_ms),
                },
            )
        } else {
            before
        }
    }
}

/// The share of completed tasks in the first `n` samples.
pub open spec fn ratio_points(samples: Seq<Sample>, n: nat) -> Seq<RatioPoint> {
    Seq::new(
        n,
        |i: int|
            RatioPoint {
                t_ms: minus(samples[i].t_ms, samples[0].t_ms),
                part: samples[i].completed,
                whole: samples[i].submitted,
            },
    )
}

/// Computes the curves of the panel.
pub fn build_series(samples: &Vec<Sample>) -> (r: Charts)
    ensures
        r.heartbeats@ == rate_points(samples@, |s: Sample| s.heartbeats, samples@.len()),
        r.assigned@ == rate_points(samples@, |s: Sample| s.assigned, samples@.len()),
        r.completed@ == ratio_points(samples@, samples@.len()),
{
    let ghost hb = |s: Sample| s.heartbeats;
    let ghost asg = |s: Sample| s.assigned;
    let mut heartbeats: Vec<RatePoint> = Vec::new();
    let mut assigned: Vec<RatePoint> = Vec::new();
    let mut completed: Vec<RatioPoint> = Vec::new();
    let mut i: usize = 0;
    assert(completed@ =~= ratio_points(samples@, 0));
    while i < samples.len()
        invariant
            i <= samples@.len(),
            hb == |s: Sample| s.heartbeats,
            asg == |s: Sample| s.assigned,
            heartbeats@ == rate_points(samples@, hb, i as nat),
            assigned@ == rate_points(samples@, asg, i as nat),
            completed@ == ratio_points(samples@, i as nat),
        decreases samples@.len() - i,
    {
        let s = samples[i];
        let t_ms: u64 = s.t_ms.saturating_sub(samples[0].t_ms);
        if i > 0 {
            let prev = samples[i - 1];
            let dt_ms: u64 = s.t_ms.saturating_sub(prev.t_ms);
            if dt_ms > 0 {
                heartbeats.push(
                    RatePoint { t_ms, count: s.heartbeats.saturating_sub(prev.heartbeats), dt_ms },
                );
                assigned.push(
                    RatePoint { t_ms, count: s.assigned.saturating_sub(prev.assigned), dt_ms },
                );
            }
        }
        completed.push(RatioPoint { t_ms, part: s.completed, whole: s.submitted });
        i = i + 1;
        assert(completed@ =~= ratio_points(samples@, i as nat));
    }
    Charts { heartbeats, assigned, completed }
}

// ---------------------------------------------------------------- laws
/// How many of the first `n` robots have the status.
pub open spec fn robots_with(robots: Seq<RobotView>, status: RobotStatus, n: nat) -> nat
    decreases n,
{
    if n == 0 {
        0
    } else {
        robots_with(robots, status, (n - 1) as nat) + (if robots[n - 1].status == status {
            1nat
        } else {
            0
        })
    }
}

/// How many of the first `n` tasks have the status.
pub open spec fn tasks_with(tasks: Seq<TaskView>, status: TaskStatus, n: nat) -> nat
    decreases n,
{
    if n == 0 {
        0
    } else {
        tasks_with(tasks, status, (n - 1) as nat) + (if tasks[n - 1].status == status {
            1nat
        } else {
            0
        })
    }
}

/// A count over a first part goes on from the count over the part before.
proof fn lemma_count_goes_on<T>(s: Seq<T>, f: spec_fn(T) -> bool, n: nat)
    requires
        0 < n <= s.len(),
    ensures
        count_where(s.take(n as int), f) == count_where(s.take(n - 1), f) + (if f(s[n - 1]) {
            1nat
        } else {
            0
        }),
{
    assert(s.take(n as int).drop_last() =~= s.take(n - 1));
}

/// The counters of the first robots.
proof fn lemma_robot_counts(robots: Seq<RobotView>, n: nat)
    requires
        n <= robots.len(),
    ensures
        count_where(robots.take(n as int), |r: RobotView| r.status == RobotStatus::Idle)
            == robots_with(robots, RobotStatus::Idle, n),
        count_where(robots.take(n as int), |r: RobotView| r.status == RobotStatus::Busy)
            == robots_with(robots, RobotStatus::Busy, n),
        count_where(robots.take(n as int), |r: RobotView| r.status != RobotStatus::Offline) + robots_with(
            robots,
            RobotStatus::Offline,
            n,
        ) == n,
    decreases n,
{
    let idle = |r: RobotView| r.status == RobotStatus::Idle;
    let busy = |r: RobotView| r.status == RobotStatus::Busy;
    let online = |r: RobotView| r.status != RobotStatus::Offline;
    if n > 0 {
        lemma_robot_counts(robots, (n - 1) as nat);
        lemma_count_goes_on(robots, idle, n);
        lemma_count_goes_on(robots, busy, n);
        lemma_count_goes_on(robots, online, n);
    }
}

/// The counters of the first tasks.
proof fn lemma_task_counts(tasks: Seq<TaskView>, n: nat)
    requires
        n <= tasks.len(),
    ensures
        count_where(tasks.take(n as int), |t: TaskView| t.status == TaskStatus::Pending)
            == tasks_with(tasks, TaskStatus::Pending, n),
        count_where(
            tasks.take(n as int),
            |t: TaskView| t.status == TaskStatus::Assigned || t.status == TaskStatus::Executing,
        ) == tasks_with(tasks, TaskStatus::Assigned, n) + tasks_with(
            tasks,
            TaskStatus::Executing,
            n,
        ),
        count_where(tasks.take(n as int), |t: TaskView| t.status == TaskStatus::Completed)
            == tasks_with(tasks, TaskStatus::Completed, n),
    decreases n,
{
    let pending = |t: TaskView| t.status == TaskStatus::Pending;
    let running = |t: TaskView|
        t.status == TaskStatus::Assigned || t.status == TaskStatus::Executing;
    let done = |t: TaskView| t.status == TaskStatus::Completed;
    if n > 0 {
        lemma_task_counts(tasks, (n - 1) as nat);
        lemma_count_goes_on(tasks, pending, n);
        lemma_count_goes_on(tasks, running, n);
        lemma_count_goes_on(tasks, done, n);
    }
}

/// Every robot that is not offline is counted as online, the idle and the busy ones also as
/// that; every task that waits, is worked on or is done is counted as one of these.
pub proof fn law_counters_count_everybody(
    c: Counters,
    robots: Seq<RobotView>,
    tasks: Seq<TaskView>,
)
    requires
        counts(c, robots, tasks),
    ensures
        c.online + robots_with(robots, RobotStatus::Offline, robots.len()) == robots.len(),
        c.idle == robots_with(robots, RobotStatus::Idle, robots.len()),
        c.busy == robots_with(robots, RobotStatus::Busy, robots.len()),
        c.pending == tasks_with(tasks, TaskStatus::Pending, tasks.len()),
        c.running == tasks_with(tasks, TaskStatus::Assigned, tasks.len()) + tasks_with(
            tasks,
            TaskStatus::Executing,
            tasks.len(),
        ),
        c.done == tasks_with(tasks, TaskStatus::Completed, tasks.len()),
{
    lemma_robot_counts(robots, robots.len());
    lemma_task_counts(tasks, tasks.len());
    assert(robots.take(robots.len() as int) =~= robots);
    assert(tasks.take(tasks.len() as int) =~= tasks);
}

/// There are `n` places below `n`.
proof fn lemma_places_below(n: nat)
    requires
        n <= usize::MAX,
    ensures
        Set::new(|k: usize| k < n).finite(),
        Set::new(|k: usize| k < n).len() == n,
    decreases n,
{
    let all = Set::new(|k: usize| k < n);
    if n == 0 {
        assert(all =~= Set::empty());
    } else {
        let m = (n - 1) as nat;
        lemma_places_below(m);
        assert(all =~= Set::new(|k: usize| k < m).insert(m as usize));
    }
}

/// An order names every place once, and the keys of the places rise, or fall if they have to.
pub proof fn law_an_order_names_every_place(
    places: Seq<usize>,
    keys: Seq<u64>,
    descending: bool,
    place: usize,
)
    requires
        is_order(places, keys, descending),
        keys.len() <= usize::MAX,
        place < keys.len(),
    ensures
        places.len() == keys.len(),
        places.no_duplicates(),
        places.contains(place),
        forall|i: int, j: int|
            #![trigger places[i], places[j]]
            0 <= i < j < places.len() ==> if descending {
                keys[places[i] as int] >= keys[places[j] as int]
            } else {
                keys[places[i] as int] <= keys[places[j] as int]
            },
{
    assert(places.no_duplicates()) by {
        assert forall|i: int, j: int| 0 <= i < j < places.len() implies places[i] != places[j] by {
            assert(comes_first(keys, descending, places[i] as int, places[j] as int));
        }
    }
    places.unique_seq_to_set();
    lemma_places_below(keys.len());
    let all = Set::new(|k: usize| k < keys.len());
    assert(places.to_set().subset_of(all));
    vstd::set_lib::lemma_subset_equality(places.to_set(), all);
    assert(places.to_set().contains(place));
}

/// The panel shows every robot once, with its charge, its load and its status, in the order of
/// the numbers.
pub proof fn law_every_robot_is_shown(
    items: Seq<RobotItem>,
    robots: Seq<RobotView>,
    report: ConflictReport,
    show_conflict: bool,
    selected: Option<RobotId>,
    k: int,
) -> (i: int)
    requires
        shows_robots(items, robots, report, show_conflict, selected),
        robots.len() <= usize::MAX,
        0 <= k < robots.len(),
    ensures
        items.len() == robots.len(),
        forall|a: int, b: int|
            #![trigger items[a], items[b]]
            0 <= a < b < items.len() ==> items[a].id <= items[b].id,
        0 <= i < items.len(),
        items[i].id == robots[k].id.0,
        items[i].battery == robots[k].battery.0,
        items[i].carrying == robots[k].carrying,
        items[i].status == 0 <==> robots[k].status == RobotStatus::Idle,
        items[i].status == 1 <==> robots[k].status == RobotStatus::Busy,
        items[i].status == 2 <==> robots[k].status == RobotStatus::Charging,
        items[i].status == 3 <==> robots[k].status == RobotStatus::Error,
        items[i].status == 4 <==> robots[k].status == RobotStatus::Offline,
        items[i].selected <==> selected == Some(robots[k].id),
        items[i].deadlocked ==> show_conflict,
        items[i].crowded ==> show_conflict,
        show_conflict ==> (items[i].deadlocked <==> exists|c: int|
            0 <= c < report.deadlock_cycles@.len() && (
            #[trigger] report.deadlock_cycles@[c])@.contains(robots[k].id)),
        show_conflict ==> (items[i].crowded <==> exists|c: int|
            0 <= c < report.crowded@.len() && (#[trigger] report.crowded@[c]).1@.contains(
                robots[k].id,
            )),
{
    let places = choose|places: Seq<usize>|
        {
            &&& #[trigger] is_order(places, robot_numbers(robots), false)
            &&& items.len() == places.len()
            &&& forall|i: int|
                0 <= i < items.len() ==> shows_robot(
                    #[trigger] items[i],
                    robots[places[i] as int],
                    report,
                    show_conflict,
                    selected,
                )
        };
    let keys = robot_numbers(robots);
    law_an_order_names_every_place(places, keys, false, k as usize);
    assert forall|a: int, b: int|
        #![trigger items[a], items[b]]
        0 <= a < b < items.len() implies items[a].id <= items[b].id by {
        assert(shows_robot(
            items[a],
            robots[places[a] as int],
            report,
            show_conflict,
            selected,
        ));
        assert(shows_robot(
            items[b],
            robots[places[b] as int],
            report,
            show_conflict,
            selected,
        ));
        assert(keys[places[a] as int] <= keys[places[b] as int]);
    }
    let i = places.index_of(k as usize);
    assert(shows_robot(items[i], robots[places[i] as int], report, show_conflict, selected));
    assert(places[i] == k);
    assert(robots[k].id == RobotId(robots[k].id.0));
    i
}

/// The panel lists the tasks with the greatest numbers, 200 at most, the greatest first: no
/// task that is not listed has a greater number than one that is.
pub proof fn law_the_newest_tasks_are_listed(items: Seq<TaskItem>, tasks: Seq<TaskView>) -> (listed:
    Seq<int>)
    requires
        shows_tasks(items, tasks),
        tasks.len() <= usize::MAX,
    ensures
        items.len() == (if tasks.len() < 200 {
            tasks.len()
        } else {
            200
        }),
        listed.len() == items.len(),
        listed.no_duplicates(),
        forall|i: int|
            0 <= i < items.len() ==> {
                &&& 0 <= (#[trigger] listed[i]) < tasks.len()
                &&& items[i].row@ == task_row_text(tasks[listed[i]])
                &&& items[i].status == task_code(tasks[listed[i]].status)
            },
        forall|i: int, j: int|
            #![trigger listed[i], listed[j]]
            0 <= i < j < listed.len() ==> tasks[listed[i]].id.0 >= tasks[listed[j]].id.0,
        forall|k: int, i: int|
            #![trigger tasks[k], listed[i]]
            0 <= k < tasks.len() && !listed.contains(k) && 0 <= i < listed.len()
                ==> tasks[k].id.0 <= tasks[listed[i]].id.0,
{
    let places = choose|places: Seq<usize>|
        {
            &&& #[trigger] is_order(places, task_numbers(tasks), true)
            &&& items.len() == (if places.len() < TASK_ROWS {
                places.len()
            } else {
                TASK_ROWS as nat
            })
            &&& forall|i: int|
                0 <= i < items.len() ==> {
                    &&& (#[trigger] items[i]).row@ == task_row_text(tasks[places[i] as int])
                    &&& items[i].status == task_code(tasks[places[i] as int].status)
                }
        };
    let keys = task_numbers(tasks);
    let listed = Seq::new(items.len(), |i: int| places[i] as int);
    if tasks.len() > 0 {
        law_an_order_names_every_place(places, keys, true, 0);
    }
    assert(listed.no_duplicates()) by {
        assert forall|i: int, j: int| 0 <= i < j < listed.len() implies listed[i] != listed[j] by {
            assert(places[i] != places[j]);
        }
    }
    assert forall|i: int| 0 <= i < items.len() implies {
        &&& 0 <= (#[trigger] listed[i]) < tasks.len()
        &&& items[i].row@ == task_row_text(tasks[listed[i]])
        &&& items[i].status == task_code(tasks[listed[i]].status)
    } by {
        assert(places[i] < keys.len());
        assert(items[i].row@ == task_row_text(tasks[places[i] as int]));
    }
    assert forall|i: int, j: int|
        #![trigger listed[i], listed[j]]
        0 <= i < j < listed.len() implies tasks[listed[i]].id.0 >= tasks[listed[j]].id.0 by {
        assert(keys[places[i] as int] >= keys[places[j] as int]);
    }
    assert forall|k: int, i: int|
        #![trigger tasks[k], listed[i]]
        0 <= k < tasks.len() && !listed.contains(k) && 0 <= i < listed.len() implies tasks[k].id.0
        <= tasks[listed[i]].id.0 by {
        law_an_order_names_every_place(places, keys, true, k as usize);
        let q = places.index_of(k as usize);
        assert(places[q] == k);
        if q < listed.len() {
            assert(listed[q] == k);
        }
        assert(i < q);
        assert(keys[places[i] as int] >= keys[places[q] as int]);
    }
    listed
}

/// The codes of tasks tell their statuses apart, from 0 for a waiting task to 4 for one that was
/// given up.
pub proof fn law_task_codes_tell_statuses_apart(t: TaskStatus)
    ensures
        task_code(t) == 0 <==> t == TaskStatus::Pending,
        task_code(t) == 1 <==> t == TaskStatus::Assigned,
        task_code(t) == 2 <==> t == TaskStatus::Executing,
        task_code(t) == 3 <==> t == TaskStatus::Completed,
        task_code(t) == 4 <==> t == TaskStatus::Failed,
{
}

/// Every robot with a target has a mark there, which says whether it is the selected one; and
/// there is no other mark.
pub proof fn law_every_target_is_marked(
    robots: Seq<RobotView>,
    selected: Option<RobotId>,
    n: nat,
    node: NodeId,
    chosen: bool,
)
    requires
        n <= robots.len(),
    ensures
        target_marks(robots, selected, n).contains((node, chosen)) <==> exists|i: int|
            {
                &&& 0 <= i < n
                &&& (#[trigger] robots[i]).target == Some(node)
                &&& chosen == (selected == Some(robots[i].id))
            },
    decreases n,
{
    if n > 0 {
        let m = (n - 1) as nat;
        law_every_target_is_marked(robots, selected, m, node, chosen);
        let before = target_marks(robots, selected, m);
        let after = target_marks(robots, selected, n);
        if before.contains((node, chosen)) {
            let k = before.index_of((node, chosen));
            assert(after[k] == (node, chosen));
        }
        if robots[n - 1].target is Some {
            let mark = (robots[n - 1].target->0, selected == Some(robots[n - 1].id));
            assert(after[before.len() as int] == mark);
            if after.contains((node, chosen)) {
                let k = after.index_of((node, chosen));
                if k < before.len() {
                    assert(before[k] == (node, chosen));
                }
            }
        }
    }
}

/// A robot is found at the first place with its identifier, and is not found where there is
/// none.
pub proof fn law_the_first_match_is_found(robots: Seq<RobotView>, id: RobotId, n: nat)
    requires
        n <= robots.len(),
    ensures
        match robot_place(robots, id, n) {
            Some(i) => 0 <= i < n && robots[i].id == id && forall|j: int|
                0 <= j < i ==> (#[trigger] robots[j]).id != id,
            None => forall|j: int| 0 <= j < n ==> (#[trigger] robots[j]).id != id,
        },
    decreases n,
{
    if n > 0 {
        law_the_first_match_is_found(robots, id, (n - 1) as nat);
    }
}

/// A task is found at the first place with its identifier, and is not found where there is
/// none.
pub proof fn law_the_first_task_is_found(tasks: Seq<TaskView>, id: TaskId, n: nat)
    requires
        n <= tasks.len(),
    ensures
        match task_place(tasks, id, n) {
            Some(i) => 0 <= i < n && tasks[i].id == id && forall|j: int|
                0 <= j < i ==> (#[trigger] tasks[j]).id != id,
            None => forall|j: int| 0 <= j < n ==> (#[trigger] tasks[j]).id != id,
        },
    decreases n,
{
    if n > 0 {
        law_the_first_task_is_found(tasks, id, (n - 1) as nat);
    }
}

/// The deadlocks hold as many robots as their rings are long.
pub proof fn law_deadlocks_hold_their_robots(rings: Seq<Vec<RobotId>>, ring: Vec<RobotId>)
    ensures
        robots_in_deadlocks(rings, 0) == 0,
        robots_in_deadlocks(rings.push(ring), rings.len() + 1) == robots_in_deadlocks(
            rings,
            rings.len(),
        ) + ring@.len(),
{
    lemma_same_robots(rings, rings.push(ring), rings.len());
}

/// The first rings alone count.
proof fn lemma_same_robots(a: Seq<Vec<RobotId>>, b: Seq<Vec<RobotId>>, n: nat)
    requires
        n <= a.len(),
        n <= b.len(),
        forall|i: int| 0 <= i < n ==> #[trigger] a[i] == b[i],
    ensures
        robots_in_deadlocks(a, n) == robots_in_deadlocks(b, n),
    decreases n,
{
    if n > 0 {
        lemma_same_robots(a, b, (n - 1) as nat);
        assert(a[n - 1] == b[n - 1]);
    }
}

/// The line of events is empty as long as nothing has happened, and only then.
pub proof fn law_events_are_told(resolved: u64, retried: u64, failed: u64)
    ensures
        events_text(resolved, retried, failed).len() == 0 <==> resolved == 0 && retried == 0
            && failed == 0,
{
    reveal_strlit("解除死锁 ");
    reveal_strlit("回收重试 ");
    reveal_strlit("任务失败 ");
    reveal_strlit(" · ");
}

/// The line about conflicts is empty if and only if there is neither a conflict to show nor an
/// event to tell, and it ends with the events.
pub proof fn law_conflicts_are_told(
    show_conflict: bool,
    report: ConflictReport,
    events: Seq<char>,
)
    ensures
        conflict_text(show_conflict, report, events).len() == 0 <==> events.len() == 0 && (
        !show_conflict || (report.crowded@.len() == 0 && report.contested@.len() == 0
            && report.deadlock_cycles@.len() == 0)),
        events.is_suffix_of(conflict_text(show_conflict, report, events)),
{
    reveal_strlit("⚠ 风险：拥挤节点 ");
    reveal_strlit("调度事件：累计 ");
    let line = conflict_text(show_conflict, report, events);
    if events.len() > 0 {
        assert(line.subrange(line.len() - events.len(), line.len() as int) =~= events);
    }
}

/// The next stop of a robot is the node behind the first place of its route where it stands, if
/// that node has coordinates.
pub proof fn law_the_next_stop_is_the_next_node(map: RoadMapView, r: RobotView, i: int)
    requires
        0 <= i < r.route.len(),
        r.location.node == Some(r.route[i]),
        forall|j: int| 0 <= j < i ==> #[trigger] r.route[j] != r.route[i],
    ensures
        i + 1 < r.route.len() && map.nodes.contains_key(r.route[i + 1].0) ==> next_stop(map, r)
            == Some(map.nodes[r.route[i + 1].0]),
        i + 1 == r.route.len() || !map.nodes.contains_key(r.route[i + 1].0) ==> next_stop(map, r)
            is None,
{
    lemma_route_place(r.route, r.route[i], r.route.len());
}

/// A node is found at its first place on a route.
proof fn lemma_route_place(route: Seq<NodeId>, node: NodeId, n: nat)
    requires
        n <= route.len(),
    ensures
        match route_place(route, node, n) {
            Some(i) => 0 <= i < n && route[i] == node && forall|j: int|
                0 <= j < i ==> #[trigger] route[j] != node,
            None => forall|j: int| 0 <= j < n ==> #[trigger] route[j] != node,
        },
    decreases n,
{
    if n > 0 {
        lemma_route_place(route, node, (n - 1) as nat);
    }
}

/// A robot that is on no node of its route, or on none at all, is drawn where it is.
pub proof fn law_a_robot_without_a_next_stop_stands(map: RoadMapView, r: RobotView, now: u64)
    requires
        r.location.node is None || forall|j: int|
            0 <= j < r.route.len() ==> #[trigger] r.route[j] != r.location.node->0,
    ensures
        animated(map, r, now) == (r.location.x as int, r.location.y as int),
{
    if r.location.node is Some {
        lemma_route_place(r.route, r.location.node->0, r.route.len());
    }
}

/// A robot is drawn as far on its way as time has passed: after `e` of the 160 milliseconds it
/// has covered that part of the distance, rounded down, in either direction.
pub proof fn law_robots_are_drawn_at_an_even_pace(map: RoadMapView, r: RobotView, now: u64, e: int)
    requires
        next_stop(map, r) is Some,
        e == (if now <= r.last_change_ms {
            0
        } else if now >= r.last_change_ms + 160 {
            160
        } else {
            now - r.last_change_ms
        }),
    ensures
        ({
            let (x, y) = animated(map, r, now);
            let to = next_stop(map, r)->0;
            &&& is_part_of_way(r.location.x as int, to.x as int, x, e)
            &&& is_part_of_way(r.location.y as int, to.y as int, y, e)
        }),
{
    let to = next_stop(map, r)->0;
    lemma_is_part_of_way(r.location.x as int, to.x as int, e);
    lemma_is_part_of_way(r.location.y as int, to.y as int, e);
}

/// Whether `p` lies `e` of 160 parts on the way from `a` to `b`, rounded towards `a`.
pub open spec fn is_part_of_way(a: int, b: int, p: int, e: int) -> bool {
    &&& a <= b ==> (p - a) * 160 <= (b - a) * e < (p - a + 1) * 160
    &&& b <= a ==> (a - p) * 160 <= (a - b) * e < (a - p + 1) * 160
}

/// The part of a way is that part.
proof fn lemma_is_part_of_way(a: int, b: int, e: int)
    requires
        0 <= e <= 160,
    ensures
        is_part_of_way(a, b, part_way(a, b, e), e),
{
    let d = if a <= b {
        b - a
    } else {
        a - b
    };
    let m = d * e;
    let q = m / 160;
    assert(q * 160 <= m < (q + 1) * 160);
    if a == b {
        assert(d * e == 0) by (nonlinear_arith)
            requires
                d == 0,
        ;
    }
}

/// The rate of a counter has a point for each sample that is later than the one before, with
/// what the counter gained and the time that passed, placed by the time since the first sample.
pub proof fn law_rates_tell_what_was_gained(
    samples: Seq<Sample>,
    counter: spec_fn(Sample) -> u64,
    n: nat,
)
    ensures
        rate_points(samples, counter, 0).len() == 0,
        rate_points(samples, counter, 1).len() == 0,
        n >= 2 && samples[n - 1].t_ms <= samples[n - 2].t_ms ==> rate_points(samples, counter, n)
            == rate_points(samples, counter, (n - 1) as nat),
        n >= 2 && samples[n - 1].t_ms > samples[n - 2].t_ms ==> {
            let points = rate_points(samples, counter, n);
            let (now, before) = (samples[n - 1], samples[n - 2]);
            &&& points.drop_last() == rate_points(samples, counter, (n - 1) as nat)
            &&& points.len() > 0
            &&& points.last().dt_ms == now.t_ms - before.t_ms
            &&& counter(now) >= counter(before) ==> points.last().count == counter(now) - counter(
                before,
            )
            &&& counter(now) < counter(before) ==> points.last().count == 0
            &&& now.t_ms >= samples[0].t_ms ==> points.last().t_ms == now.t_ms - samples[0].t_ms
            &&& now.t_ms < samples[0].t_ms ==> points.last().t_ms == 0
        },
{
    reveal_with_fuel(rate_points, 2);
    if n >= 2 && samples[n - 1].t_ms > samples[n - 2].t_ms {
        let points = rate_points(samples, counter, n);
        assert(points.drop_last() =~= rate_points(samples, counter, (n - 1) as nat));
    }
}

/// The share of completed tasks has a point for each sample, with the completed and the
/// submitted tasks of that sample.
pub proof fn law_shares_tell_completed_of_submitted(samples: Seq<Sample>, n: nat, i: int)
    requires
        0 <= i < n <= samples.len(),
    ensures
        ratio_points(samples, n).len() == n,
        ratio_points(samples, n)[i].part == samples[i].completed,
        ratio_points(samples, n)[i].whole == samples[i].submitted,
        samples[i].t_ms >= samples[0].t_ms ==> ratio_points(samples, n)[i].t_ms == samples[i].t_ms
            - samples[0].t_ms,
        samples[i].t_ms < samples[0].t_ms ==> ratio_points(samples, n)[i].t_ms == 0,
{
}

/// Rows tell numbers apart: two labels of numbers are equal only if the numbers are.
pub proof fn law_labels_tell_numbers_apart(a: u64, b: u64)
    requires
        number_label(Some(a)) == number_label(Some(b)),
    ensures
        a == b,
{
    reveal_strlit("#");
    let (x, y) = (number_label(Some(a)), number_label(Some(b)));
    assert(x.skip(1) =~= decimal(a as nat));
    assert(y.skip(1) =~= decimal(b as nat));
    law_decimals_tell_numbers_apart(a as nat, b as nat);
}

/// The names of a robot's statuses.
pub proof fn law_robot_statuses_have_their_names(s: RobotStatus)
    ensures
        s == RobotStatus::Idle ==> status_name(s) == "空闲"@,
        s == RobotStatus::Busy ==> status_name(s) == "忙碌"@,
        s == RobotStatus::Charging ==> status_name(s) == "充电"@,
        s == RobotStatus::Error ==> status_name(s) == "故障"@,
        s == RobotStatus::Offline ==> status_name(s) == "离线"@,
{
}

/// The names of a task's statuses.
pub proof fn law_task_statuses_have_their_names(s: TaskStatus)
    ensures
        s == TaskStatus::Pending ==> task_status_name(s) == "待处理"@,
        s == TaskStatus::Assigned ==> task_status_name(s) == "已分配"@,
        s == TaskStatus::Executing ==> task_status_name(s) == "执行中"@,
        s == TaskStatus::Completed ==> task_status_name(s) == "已完成"@,
        s == TaskStatus::Failed ==> task_status_name(s) == "失败"@,
{
}

/// The names of priorities.
pub proof fn law_priorities_have_their_names(p: TaskPriority)
    ensures
        p == TaskPriority::Low ==> priority_name(p) == "低"@,
        p == TaskPriority::Normal ==> priority_name(p) == "中"@,
        p == TaskPriority::High ==> priority_name(p) == "高"@,
        p == TaskPriority::Urgent ==> priority_name(p) == "紧急"@,
{
}

/// The greater of two lengths.
pub open spec fn at_least(n: nat, width: nat) -> int {
    if n < width {
        width as int
    } else {
        n as int
    }
}

/// The row of a robot has columns: its number, its status, its charge to the right, its node,
/// its task, and behind them a box if it carries goods.
pub proof fn law_robot_rows_have_columns(r: RobotView)
    ensures
        ({
            let row = robot_row_text(r);
            let number = decimal(r.id.0 as nat);
            let charge = decimal(r.battery.0 as nat);
            let node = node_label(r.location.node);
            let task = if r.current_task is Some {
                "#"@ + decimal((r.current_task->0).0 as nat)
            } else {
                "-"@
            };
            let a = 2 + at_least(number.len(), 4);
            let b = a + 4;
            let c = b + 6;
            let d = c + at_least(node.len(), 6) + 1;
            &&& row.skip(1).take(number.len() as int) == number
            &&& row.subrange(a, a + 2) == status_name(r.status)
            &&& row.subrange(b + 3 - charge.len(), b + 3) == charge
            &&& row[b + 3] == '%'
            &&& row.subrange(c, c + node.len()) == node
            &&& row.subrange(d, d + task.len()) == task
            &&& row.len() == d + task.len() + (if r.carrying {
                2int
            } else {
                0
            })
        }),
{
    reveal_strlit("#");
    reveal_strlit(" ");
    reveal_strlit("%  ");
    reveal_strlit(" 📦");
    reveal_strlit("");
    reveal_strlit("空闲");
    reveal_strlit("忙碌");
    reveal_strlit("充电");
    reveal_strlit("故障");
    reveal_strlit("离线");
    law_small_numbers_are_short(r.battery.0 as nat);
    let row = robot_row_text(r);
    let number = decimal(r.id.0 as nat);
    let charge = decimal(r.battery.0 as nat);
    let status = status_name(r.status);
    let node = node_label(r.location.node);
    let task = if r.current_task is Some {
        "#"@ + decimal((r.current_task->0).0 as nat)
    } else {
        "-"@
    };
    let a = 2 + at_least(number.len(), 4);
    let b = a + 4;
    let c = b + 6;
    let d = c + at_least(node.len(), 6) + 1;
    assert(status.len() == 2);
    assert(row.skip(1).take(number.len() as int) =~= number);
    assert(row.subrange(a, a + 2) =~= status);
    assert(row.subrange(b + 3 - charge.len(), b + 3) =~= charge);
    assert(row.subrange(c, c + node.len()) =~= node);
    assert(row.subrange(d, d + task.len()) =~= task);
}

/// The row of a task has columns: its number, its priority, its status, and its robot.
pub proof fn law_task_rows_have_columns(t: TaskView)
    ensures
        ({
            let row = task_row_text(t);
            let number = decimal(t.id.0 as nat);
            let robot = if t.assigned_robot is Some {
                "#"@ + decimal((t.assigned_robot->0).0 as nat)
            } else {
                "-"@
            };
            let priority = priority_name(t.priority);
            let status = task_status_name(t.status);
            let a = 2 + at_least(number.len(), 6);
            let b = a + 4;
            let c = b + 7;
            &&& row.skip(1).take(number.len() as int) == number
            &&& row.subrange(a, a + priority.len()) == priority
            &&& row.subrange(b, b + status.len()) == status
            &&& row.subrange(c, c + robot.len()) == robot
            &&& row.len() == c + robot.len()
        }),
{
    reveal_strlit("#");
    reveal_strlit(" ");
    reveal_strlit("低");
    reveal_strlit("中");
    reveal_strlit("高");
    reveal_strlit("紧急");
    reveal_strlit("待处理");
    reveal_strlit("已分配");
    reveal_strlit("执行中");
    reveal_strlit("已完成");
    reveal_strlit("失败");
    let row = task_row_text(t);
    let number = decimal(t.id.0 as nat);
    let robot = if t.assigned_robot is Some {
        "#"@ + decimal((t.assigned_robot->0).0 as nat)
    } else {
        "-"@
    };
    let priority = priority_name(t.priority);
    let status = task_status_name(t.status);
    let a = 2 + at_least(number.len(), 6);
    let b = a + 4;
    let c = b + 7;
    assert(1 <= priority.len() <= 2);
    assert(2 <= status.len() <= 3);
    assert(row.skip(1).take(number.len() as int) =~= number);
    assert(row.subrange(a, a + priority.len()) =~= priority);
    assert(row.subrange(b, b + status.len()) =~= status);
    assert(row.subrange(c, c + robot.len()) =~= robot);
}

/// The details of a robot name it, and end with its status, its node, and the node that it is
/// bound for; its task is told if the robot has one that is known.
pub proof fn law_details_tell_how_a_robot_is(
    d: Details,
    r: RobotView,
    tasks: Seq<TaskView>,
    trail_points: nat,
)
    requires
        describes(d, r, tasks, trail_points),
    ensures
        d.title@ == r.id.name(),
        status_name(r.status).is_suffix_of(d.status@),
        ("电量："@ + decimal(r.battery.0 as nat)).is_prefix_of(d.battery@),
        node_label(r.location.node).is_suffix_of(d.node@),
        node_label(r.target).is_suffix_of(d.target@),
        ("轨迹点："@ + decimal(trail_points)).is_prefix_of(d.trail@),
        r.current_task is None ==> d.task@ == "当前无绑定任务（空闲）"@,
        forall|i: int|
            0 <= i < tasks.len() && r.current_task == Some((#[trigger] tasks[i]).id) ==> (
            "当前任务 #"@ + decimal(tasks[i].id.0 as nat) + " · "@ + tasks[task_place(
                tasks,
                tasks[i].id,
                tasks.len(),
            )->0].description()).is_prefix_of(d.task@),
{
    let status = status_name(r.status);
    assert(d.status@.subrange(d.status@.len() - status.len(), d.status@.len() as int) =~= status);
    let node = node_label(r.location.node);
    assert(d.node@.subrange(d.node@.len() - node.len(), d.node@.len() as int) =~= node);
    let target = node_label(r.target);
    assert(d.target@.subrange(d.target@.len() - target.len(), d.target@.len() as int) =~= target);
    assert forall|i: int|
        0 <= i < tasks.len() && r.current_task == Some((#[trigger] tasks[i]).id) implies (
    "当前任务 #"@ + decimal(tasks[i].id.0 as nat) + " · "@ + tasks[task_place(
        tasks,
        tasks[i].id,
        tasks.len(),
    )->0].description()).is_prefix_of(d.task@) by {
        law_the_first_task_is_found(tasks, tasks[i].id, tasks.len());
    }
}

} // verus!
