//! Throughput history: samples of the store's counters.

use crate::domain::{RobotStatus, TaskStatus};
use crate::storage::memory_store::StoreView;
use crate::storage::MemoryStore;
use std::collections::VecDeque;
use vstd::prelude::*;

verus! {

/// The counters of a store at one time.
#[derive(Debug, Clone, Copy, PartialEq, Eq, Structural)]
pub struct Sample {
    /// Time of the sample.
    pub t_ms: u64,
    /// Heartbeats so far.
    pub heartbeats: u64,
    /// Submitted tasks so far.
    pub submitted: u64,
    /// Assignments so far.
    pub assigned: u64,
    /// Completed tasks so far.
    pub completed: u64,
    /// Robots that are online.
    pub online: u64,
    /// Tasks that wait for a robot.
    pub pending: u64,
    /// Deadlocks resolved so far.
    pub deadlock_resolved: u64,
    /// Tasks taken back so far.
    pub task_retried: u64,
}

/// How many samples are kept.
pub const HISTORY_CAPACITY: usize = 240;

/// The newest samples.
pub struct MetricsHistory {
    samples: VecDeque<Sample>,
}

impl View for MetricsHistory {
    type V = Seq<Sample>;

    closed spec fn view(&self) -> Seq<Sample> {
        self.samples@
    }
}

/// A history after one more sample: only the newest [`HISTORY_CAPACITY`] are kept.
pub open spec fn history_after(history: Seq<Sample>, s: Sample) -> Seq<Sample> {
    let longer = history.push(s);
    if longer.len() > HISTORY_CAPACITY {
        longer.skip(longer.len() - HISTORY_CAPACITY)
    } else {
        longer
    }
}

/// The sample of a store.
pub open spec fn sample_of(v: StoreView, now: u64) -> Sample {
    Sample {
        t_ms: now,
        heartbeats: v.heartbeat_count,
        submitted: v.task_submit_count,
        assigned: v.assigned_count,
        completed: v.completed_count,
        online: v.online().len() as u64,
        pending: v.pending().len() as u64,
        deadlock_resolved: v.deadlock_resolved,
        task_retried: v.task_retried,
    }
}

impl Sample {
    /// Takes a sample of a store.
    pub fn take(store: &MemoryStore, now: u64) -> (r: Sample)
        requires
            store@.wf(),
        ensures
            r == sample_of(store@, now),
            r.online == store@.online().len(),
            r.pending == store@.pending().len(),
    {
        Sample {
            t_ms: now,
            heartbeats: store.heartbeat_count(),
            submitted: store.task_submit_count(),
            assigned: store.assigned_count(),
            completed: store.completed_count(),
            online: store.online_robot_count() as u64,
            pending: store.pending_count() as u64,
            deadlock_resolved: store.deadlock_resolved_count(),
            task_retried: store.task_retried_count(),
        }
    }
}

impl MetricsHistory {
    /// A history without samples.
    pub fn new() -> (r: Self)
        ensures
            r@ == Seq::<Sample>::empty(),
    {
        Self { samples: VecDeque::new() }
    }

    /// Adds a sample, and drops the oldest ones beyond the capacity.
    pub fn push(&mut self, s: Sample)
        ensures
            final(self)@ == history_after(old(self)@, s),
    {
        let ghost before = self.samples@;
        self.samples.push_back(s);
        let ghost longer = self.samples@;
        let ghost mut dropped: int = 0;
        assert(longer =~= before.push(s));
        assert(longer.skip(0) =~= longer);
        while self.samples.len() > HISTORY_CAPACITY
            invariant
                0 <= dropped <= longer.len(),
                self.samples@ == longer.skip(dropped),
                dropped == 0 || longer.len() - dropped >= HISTORY_CAPACITY,
            decreases self.samples@.len(),
        {
            self.samples.pop_front();
            proof {
                dropped = dropped + 1;
                assert(self.samples@ =~= longer.skip(dropped));
            }
        }
        assert(self.samples@ =~= history_after(before, s));
    }

    /// The samples, from the oldest to the newest.
    pub fn snapshot(&self) -> (r: Vec<Sample>)
        ensures
            r@ == self@,
    {
        let mut out: Vec<Sample> = Vec::new();
        let mut i: usize = 0;
        while i < self.samples.len()
            invariant
                i <= self.samples@.len(),
                out@ == self.samples@.take(i as int),
            decreases self.samples@.len() - i,
        {
            out.push(self.samples[i]);
            i = i + 1;
            assert(out@ =~= self.samples@.take(i as int));
        }
        assert(out@ =~= self.samples@);
        out
    }
}

impl Default for MetricsHistory {
    /// A history without samples.
    fn default() -> (r: Self)
        ensures
            r@ == Seq::<Sample>::empty(),
    {
        Self::new()
    }
}

/// A history never loses the newest sample, keeps the order of the others, and stays within
/// its capacity.
pub proof fn law_history_keeps_the_newest(history: Seq<Sample>, s: Sample, i: int)
    requires
        history.len() <= HISTORY_CAPACITY,
        0 <= i < history_after(history, s).len() - 1,
    ensures
        history_after(history, s).len() <= HISTORY_CAPACITY,
        history_after(history, s).last() == s,
        history_after(history, s)[i] == history[history.len() - history_after(history, s).len() + 1
            + i],
{
}

/// A history has one sample more than before, or 240 if it had as many: the new one comes last,
/// and of the others only the oldest can be missing.
pub proof fn law_a_history_loses_only_the_oldest(history: Seq<Sample>, s: Sample)
    requires
        history.len() <= 240,
    ensures
        history.len() < 240 ==> history_after(history, s) == history.push(s),
        history.len() == 240 ==> history_after(history, s) == history.skip(1).push(s),
{
    assert(history.push(s).skip(1) =~= history.skip(1).push(s) || history.len() == 0);
}

/// A sample holds the counters of the store, the number of robots that are not offline, and the
/// number of tasks that wait.
pub proof fn law_samples_tell_the_counters(v: StoreView, now: u64)
    ensures
        ({
            let s = sample_of(v, now);
            let online = Set::new(
                |r: u64| v.robots.contains_key(r) && v.robots[r].status != RobotStatus::Offline,
            );
            let pending = Set::new(
                |t: u64| v.tasks.contains_key(t) && v.tasks[t].status == TaskStatus::Pending,
            );
            &&& s.t_ms == now
            &&& s.heartbeats == v.heartbeat_count
            &&& s.submitted == v.task_submit_count
            &&& s.assigned == v.assigned_count
            &&& s.completed == v.completed_count
            &&& s.deadlock_resolved == v.deadlock_resolved
            &&& s.task_retried == v.task_retried
            &&& online.len() <= u64::MAX ==> s.online == online.len()
            &&& pending.len() <= u64::MAX ==> s.pending == pending.len()
        }),
{
    let online = Set::new(
        |r: u64| v.robots.contains_key(r) && v.robots[r].status != RobotStatus::Offline,
    );
    let pending = Set::new(
        |t: u64| v.tasks.contains_key(t) && v.tasks[t].status == TaskStatus::Pending,
    );
    assert(online =~= v.online());
    assert(pending =~= v.pending());
}

} // verus!
