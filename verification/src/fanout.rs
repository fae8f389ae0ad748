//! Bounded-concurrency, fail-fast fan-out over a batch of independent
//! relational writes: at most `limit` statements in flight at once, no new
//! statement once a failure is seen, work already submitted never recalled.
//! The admission decisions are a state machine here; the driver that awaits
//! the statements performs each decision's action and reports its outcome.

use vstd::prelude::*;

verus! {

/// Admission state of one fan-out batch. `total` tasks are handed out one
/// at a time; each handed-out task later reports success or failure.
pub struct FanOut {
    /// Number of tasks in the batch.
    pub total: usize,
    /// Concurrency ceiling: most tasks allowed in flight at once.
    pub limit: usize,
    /// Tasks handed out so far; tasks are handed out in index order.
    pub started: usize,
    /// Tasks that reported success.
    pub done: usize,
    /// Tasks that reported failure.
    pub failures: usize,
}

impl FanOut {
    /// Tasks handed out whose outcome has not been reported.
    pub open spec fn in_flight(self) -> int {
        self.started - self.done - self.failures
    }

    /// Whether some task has failed: once true, no further task starts.
    pub open spec fn failed(self) -> bool {
        self.failures > 0
    }

    /// The machine's invariant; every operation preserves it. In
    /// particular the number of tasks in flight never exceeds the ceiling.
    pub open spec fn wf(self) -> bool {
        1 <= self.limit && self.done + self.failures <= self.started <= self.total
            && self.in_flight() <= self.limit
    }

    /// Whether another task may start: none may after a failure, past the
    /// batch's end, or while the ceiling is reached.
    pub open spec fn can_start_spec(self) -> bool {
        !self.failed() && self.started < self.total && self.in_flight() < self.limit
    }

    /// The batch is finished when nothing is in flight and either all tasks
    /// were handed out or a failure abandoned the rest.
    pub open spec fn finished_spec(self) -> bool {
        self.in_flight() == 0 && (self.failed() || self.started == self.total)
    }

    /// A fresh batch of `total` tasks under ceiling `limit`.
    pub fn new(total: usize, limit: usize) -> (r: FanOut)
        requires
            limit >= 1,
        ensures
            r.wf(),
            r.total == total,
            r.limit == limit,
            r.started == 0,
            r.done == 0,
            r.failures == 0,
    {
        FanOut { total, limit, started: 0, done: 0, failures: 0 }
    }

    /// Whether another task may start now.
    pub fn can_start(&self) -> (b: bool)
        requires
            self.wf(),
        ensures
            b == self.can_start_spec(),
    {
        self.failures == 0 && self.started < self.total && self.started - self.done
            - self.failures < self.limit
    }

    /// Hands out the next task, returning its index.
    pub fn start(&mut self) -> (idx: usize)
        requires
            old(self).wf(),
            old(self).can_start_spec(),
        ensures
            final(self).wf(),
            idx == old(self).started,
            *final(self) == (FanOut { started: (old(self).started + 1) as usize, ..*old(self) }),
    {
        let idx = self.started;
        self.started = self.started + 1;
        idx
    }

    /// Records one in-flight task's success.
    pub fn on_success(&mut self)
        requires
            old(self).wf(),
            old(self).in_flight() > 0,
        ensures
            final(self).wf(),
            *final(self) == (FanOut { done: (old(self).done + 1) as usize, ..*old(self) }),
    {
        self.done = self.done + 1;
    }

    /// Records one in-flight task's failure. From here on `can_start` is
    /// false: the rest of the batch is abandoned, but tasks already in
    /// flight are not recalled and still report.
    pub fn on_failure(&mut self)
        requires
            old(self).wf(),
            old(self).in_flight() > 0,
        ensures
            final(self).wf(),
            *final(self) == (FanOut { failures: (old(self).failures + 1) as usize, ..*old(self) }),
            final(self).failed(),
            !final(self).can_start_spec(),
    {
        self.failures = self.failures + 1;
    }

    /// Whether the batch is finished.
    pub fn finished(&self) -> (b: bool)
        requires
            self.wf(),
        ensures
            b == self.finished_spec(),
    {
        self.started - self.done - self.failures == 0 && (self.failures > 0 || self.started
            == self.total)
    }
}

/// A finished batch without failure handed out and completed every task; a
/// finished batch with failures completed every handed-out task, all within
/// the ceiling, and never handed out more than the batch.
pub proof fn lemma_fanout_outcome(m: FanOut)
    requires
        m.wf(),
        m.finished_spec(),
    ensures
        !m.failed() ==> m.started == m.total && m.done == m.total,
        m.failed() ==> m.done + m.failures == m.started <= m.total,
{
}

/// A confirmed exposure edge: donor may have exposed recipient, with
/// optional duration in minutes, closeness flag, and certainty. The
/// certainty is an opaque caller-provided value carried as the raw bits of
/// its floating-point representation; the core never computes with it.
pub struct Exposure {
    pub donor: String,
    pub recipient: String,
    pub total_minutes: Option<i32>,
    pub close: Option<bool>,
    pub certainty_bits: Option<u64>,
}

/// One symptom row of the relational store: a label and the instant it was
/// reported.
pub struct Symptom {
    pub symptom: String,
    pub ts: u64,
}

} // verus!
