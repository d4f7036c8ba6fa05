//! Counters kept while the simulation runs.

use vstd::prelude::*;

verus! {

/// Performance counters of one simulation.
pub struct Metrics {
    /// Tasks loaded.
    pub total: i32,
    /// Tasks run.
    pub done: i32,
    /// Tasks that finished after their absolute deadline.
    pub missed: i32,
    /// Sum of the waits (start minus arrival) of the tasks run.
    pub total_wait: i32,
    /// Longest wait seen, 0 before any.
    pub max_wait: i32,
    /// Sum of the durations of the tasks run.
    pub busy_time: i32,
    /// Clock time when the simulation ended.
    pub end_time: i32,
}

/// The arithmetic of `record_task` stays within `i32`.
pub open spec fn record_fits(m: Metrics, arrival: i32, start_time: i32, duration: i32) -> bool {
    &&& i32::MIN <= start_time - arrival <= i32::MAX
    &&& i32::MIN <= start_time + duration <= i32::MAX
    &&& m.done + 1 <= i32::MAX
    &&& i32::MIN <= m.total_wait + (start_time - arrival) <= i32::MAX
    &&& i32::MIN <= m.busy_time + duration <= i32::MAX
}

/// The counters after one more task, which arrived at `arrival`, started at
/// `start_time`, ran for `duration` and was due at `abs_deadline`.
pub open spec fn recorded(m: Metrics, arrival: i32, start_time: i32, duration: i32, abs_deadline: i32) -> Metrics {
    let wait = start_time - arrival;
    Metrics {
        done: (m.done + 1) as i32,
        total_wait: (m.total_wait + wait) as i32,
        busy_time: (m.busy_time + duration) as i32,
        max_wait: if wait > m.max_wait { wait as i32 } else { m.max_wait },
        missed: if start_time + duration > abs_deadline { (m.missed + 1) as i32 } else { m.missed },
        ..m
    }
}

impl Metrics {
    /// All counters at zero.
    pub fn new() -> (m: Metrics)
        ensures
            m == (Metrics {
                total: 0,
                done: 0,
                missed: 0,
                total_wait: 0,
                max_wait: 0,
                busy_time: 0,
                end_time: 0,
            }),
    {
        Metrics { total: 0, done: 0, missed: 0, total_wait: 0, max_wait: 0, busy_time: 0, end_time: 0 }
    }

    /// Counts one task run: its wait, its duration, a new longest wait, and
    /// a missed deadline when it finishes after `abs_deadline`.
    pub fn record_task(&mut self, arrival: i32, start_time: i32, duration: i32, abs_deadline: i32)
        requires
            record_fits(*old(self), arrival, start_time, duration),
            start_time + duration > abs_deadline ==> old(self).missed < i32::MAX,
        ensures
            *final(self) == recorded(*old(self), arrival, start_time, duration, abs_deadline),
    {
        let wait = start_time - arrival;
        let finish = start_time + duration;
        self.done = self.done + 1;
        self.total_wait = self.total_wait + wait;
        self.busy_time = self.busy_time + duration;
        if wait > self.max_wait {
            self.max_wait = wait;
        }
        if finish > abs_deadline {
            self.missed = self.missed + 1;
        }
    }
}

} // verus!
