//! System configuration.
//!
//! All times are milliseconds since the start of the process, so that a step of the wall
//! clock cannot make a robot or a task look late.

use std::time::Duration;
use vstd::prelude::*;

verus! {

/// Settings of the scheduling system.
#[derive(Debug)]
pub struct SystemConfig {
    /// Address that the server listens on.
    pub listen_addr: String,
    /// A robot that is silent for longer than this counts as offline.
    pub heartbeat_timeout_ms: u64,
    /// Time between two rounds of the scheduler.
    pub scheduler_tick_ms: u64,
    /// Capacity of the event and dispatch channels.
    pub event_channel_capacity: usize,
    /// A task that makes no progress for longer than this is taken back.
    pub task_timeout_ms: u64,
    /// How many times a task may be taken back before it fails.
    pub max_task_retries: u8,
    /// A waiting task gains one priority level per step of this length.
    pub priority_aging_ms: u64,
    /// A robot that gave way in a deadlock gets no task for this long.
    pub deadlock_cooldown_ms: u64,
    /// Whether deadlocks are resolved, or only shown.
    pub enable_deadlock_resolution: bool,
}

impl Clone for SystemConfig {
    fn clone(&self) -> (r: Self)
        ensures
            r == *self,
    {
        SystemConfig {
            listen_addr: self.listen_addr.clone(),
            heartbeat_timeout_ms: self.heartbeat_timeout_ms,
            scheduler_tick_ms: self.scheduler_tick_ms,
            event_channel_capacity: self.event_channel_capacity,
            task_timeout_ms: self.task_timeout_ms,
            max_task_retries: self.max_task_retries,
            priority_aging_ms: self.priority_aging_ms,
            deadlock_cooldown_ms: self.deadlock_cooldown_ms,
            enable_deadlock_resolution: self.enable_deadlock_resolution,
        }
    }
}

impl Default for SystemConfig {
    fn default() -> (r: Self)
        ensures
            r.listen_addr@ == "127.0.0.1:0"@,
            r.heartbeat_timeout_ms == 5_000,
            r.scheduler_tick_ms == 5,
            r.event_channel_capacity == 65_536,
            r.task_timeout_ms == 8_000,
            r.max_task_retries == 3,
            r.priority_aging_ms == 4_000,
            r.deadlock_cooldown_ms == 1_500,
            r.enable_deadlock_resolution,
    {
        let mut listen_addr = String::new();
        listen_addr.append("127.0.0.1:0");
        assert(listen_addr@ =~= "127.0.0.1:0"@);
        Self {
            listen_addr,
            heartbeat_timeout_ms: 5_000,
            scheduler_tick_ms: 5,
            event_channel_capacity: 65_536,
            task_timeout_ms: 8_000,
            max_task_retries: 3,
            priority_aging_ms: 4_000,
            deadlock_cooldown_ms: 1_500,
            enable_deadlock_resolution: true,
        }
    }
}

/// What `Duration::from_millis` makes of a number of milliseconds.
pub uninterp spec fn duration_of_millis(ms: u64) -> Duration;

/// `Duration::from_millis`: the result depends on the number of milliseconds alone.
pub assume_specification[ Duration::from_millis ](millis: u64) -> (d: Duration)
    ensures
        d == duration_of_millis(millis),
;

/// A duration of `ms` milliseconds.
pub fn millis(ms: u64) -> (d: Duration)
    ensures
        d == duration_of_millis(ms),
{
    Duration::from_millis(ms)
}

} // verus!
