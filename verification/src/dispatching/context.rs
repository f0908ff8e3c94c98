//! The state of the shop floor that dispatching rules look at.

use vstd::prelude::*;
use crate::collections::StringMap;

verus! {

/// What a scheduling context says, as mathematical maps.
pub struct ContextView {
    pub current_time_ms: int,
    pub remaining_work: Map<Seq<char>, i64>,
    pub next_queue_length: Map<Seq<char>, usize>,
    pub arrival_times: Map<Seq<char>, i64>,
}

/// The context at `time_ms` in which nothing else is known.
pub open spec fn bare_context(time_ms: int) -> ContextView {
    ContextView {
        current_time_ms: time_ms,
        remaining_work: Map::empty(),
        next_queue_length: Map::empty(),
        arrival_times: Map::empty(),
    }
}

/// Runtime scheduling state passed to dispatching rules.
///
/// All times are in milliseconds relative to the scheduling epoch.
#[derive(Debug, Clone)]
pub struct SchedulingContext {
    /// Current simulation time.
    pub current_time_ms: i64,
    /// Remaining processing work per task identifier.
    pub remaining_work: StringMap<i64>,
    /// Length of the queue at the next resource, per task identifier.
    pub next_queue_length: StringMap<usize>,
    /// Arrival time per task identifier.
    pub arrival_times: StringMap<i64>,
}

impl View for SchedulingContext {
    type V = ContextView;

    /// What the context says.
    open spec fn view(&self) -> ContextView {
        ContextView {
            current_time_ms: self.current_time_ms as int,
            remaining_work: self.remaining_work@,
            next_queue_length: self.next_queue_length@,
            arrival_times: self.arrival_times@,
        }
    }
}

impl SchedulingContext {
    /// A context at the given time, with nothing else known.
    pub fn at_time(current_time_ms: i64) -> (c: Self)
        ensures
            c@ == bare_context(current_time_ms as int),
    {
        SchedulingContext {
            current_time_ms,
            remaining_work: StringMap::new(),
            next_queue_length: StringMap::new(),
            arrival_times: StringMap::new(),
        }
    }

    /// Sets the remaining work of a task.
    pub fn with_remaining_work(self, task_id: &str, ms: i64) -> (c: Self)
        ensures
            c.remaining_work@ == self.remaining_work@.insert(task_id@, ms),
            c == (SchedulingContext { remaining_work: c.remaining_work, ..self }),
    {
        let mut c = self;
        c.remaining_work.insert(task_id.to_owned(), ms);
        c
    }

    /// Sets the queue length at the next resource of a task.
    pub fn with_next_queue(self, task_id: &str, length: usize) -> (c: Self)
        ensures
            c.next_queue_length@ == self.next_queue_length@.insert(task_id@, length),
            c == (SchedulingContext { next_queue_length: c.next_queue_length, ..self }),
    {
        let mut c = self;
        c.next_queue_length.insert(task_id.to_owned(), length);
        c
    }

    /// Sets the arrival time of a task.
    pub fn with_arrival_time(self, task_id: &str, time_ms: i64) -> (c: Self)
        ensures
            c.arrival_times@ == self.arrival_times@.insert(task_id@, time_ms),
            c == (SchedulingContext { arrival_times: c.arrival_times, ..self }),
    {
        let mut c = self;
        c.arrival_times.insert(task_id.to_owned(), time_ms);
        c
    }
}

impl Default for SchedulingContext {
    /// The context at time 0 in which nothing else is known.
    fn default() -> (c: Self)
        ensures
            c@ == bare_context(0),
    {
        SchedulingContext::at_time(0)
    }
}

} // verus!
