//! Tasks: ordered chains of activities with priority, deadline and release time.

use vstd::prelude::*;
use crate::collections::StringMap;
use crate::models::activity::Activity;

verus! {

/// Sum of the total durations of a list of activities.
pub open spec fn sum_durations(acts: Seq<Activity>) -> int
    decreases acts.len(),
{
    if acts.len() == 0 {
        0
    } else {
        sum_durations(acts.drop_last()) + acts.last().duration.spec_total_ms()
    }
}

/// A task (job) to be scheduled.
#[derive(Debug, Clone)]
pub struct Task {
    /// Unique task identifier.
    pub id: String,
    /// Human-readable name.
    pub name: String,
    /// Category, used to look up sequence-dependent setup times.
    pub category: String,
    /// Scheduling priority; higher is more important.
    pub priority: i32,
    /// Latest completion time in milliseconds, if any.
    pub deadline: Option<i64>,
    /// Earliest start time in milliseconds, if any.
    pub release_time: Option<i64>,
    /// The activities of the task, in execution order.
    pub activities: Vec<Activity>,
    /// Free-form metadata.
    pub attributes: StringMap<String>,
}

impl Task {
    /// Total duration of all activities as a mathematical integer.
    pub open spec fn spec_total_duration_ms(&self) -> int {
        sum_durations(self.activities@)
    }

    /// Whether the duration of every activity fits in 64 bits.
    pub open spec fn durations_fit(&self) -> bool {
        forall|i: int|
            0 <= i < self.activities@.len() ==> i64::MIN
                <= (#[trigger] self.activities@[i]).duration.spec_total_ms() <= i64::MAX
    }

    /// A new task with the given identifier, priority 0 and no activities.
    pub fn new(id: &str) -> (t: Self)
        ensures
            t.id@ == id@,
            t.name@ == Seq::<char>::empty(),
            t.category@ == Seq::<char>::empty(),
            t.priority == 0,
            t.deadline.is_none(),
            t.release_time.is_none(),
            t.activities@ == Seq::<Activity>::empty(),
            t.attributes@ == Map::<Seq<char>, String>::empty(),
    {
        Task {
            id: id.to_owned(),
            name: String::new(),
            category: String::new(),
            priority: 0,
            deadline: None,
            release_time: None,
            activities: Vec::new(),
            attributes: StringMap::new(),
        }
    }

    /// Sets the name.
    pub fn with_name(self, name: &str) -> (t: Self)
        ensures
            t.name@ == name@,
            t == (Task { name: t.name, ..self }),
    {
        let mut t = self;
        t.name = name.to_owned();
        t
    }

    /// Sets the category.
    pub fn with_category(self, category: &str) -> (t: Self)
        ensures
            t.category@ == category@,
            t == (Task { category: t.category, ..self }),
    {
        let mut t = self;
        t.category = category.to_owned();
        t
    }

    /// Sets the priority.
    pub fn with_priority(self, priority: i32) -> (t: Self)
        ensures
            t == (Task { priority, ..self }),
    {
        let mut t = self;
        t.priority = priority;
        t
    }

    /// Sets the deadline.
    pub fn with_deadline(self, deadline_ms: i64) -> (t: Self)
        ensures
            t == (Task { deadline: Some(deadline_ms), ..self }),
    {
        let mut t = self;
        t.deadline = Some(deadline_ms);
        t
    }

    /// Sets the release time.
    pub fn with_release_time(self, release_ms: i64) -> (t: Self)
        ensures
            t == (Task { release_time: Some(release_ms), ..self }),
    {
        let mut t = self;
        t.release_time = Some(release_ms);
        t
    }

    /// Appends an activity.
    pub fn with_activity(self, activity: Activity) -> (t: Self)
        ensures
            t.activities@ == self.activities@.push(activity),
            t == (Task { activities: t.activities, ..self }),
            t.spec_total_duration_ms() == self.spec_total_duration_ms()
                + activity.duration.spec_total_ms(),
    {
        let mut t = self;
        t.activities.push(activity);
        assert(t.activities@.drop_last() =~= self.activities@);
        t
    }

    /// Sets a metadata attribute, replacing an earlier value for the same key.
    pub fn with_attribute(self, key: &str, value: &str) -> (t: Self)
        ensures
            t.attributes@.dom() == self.attributes@.dom().insert(key@),
            t.attributes@[key@]@ == value@,
            forall|k: Seq<char>|
                k != key@ && self.attributes@.contains_key(k) ==> #[trigger] t.attributes@[k]
                    == self.attributes@[k],
            t == (Task { attributes: t.attributes, ..self }),
    {
        let mut t = self;
        t.attributes.insert(key.to_owned(), value.to_owned());
        t
    }

    /// Total duration over all activities, in milliseconds.
    pub fn total_duration_ms(&self) -> (total: i64)
        requires
            self.duration_fits(),
        ensures
            total == self.spec_total_duration_ms(),
    {
        match self.checked_total_duration_ms() {
            Some(total) => total,
            None => unreached(),
        }
    }

    /// Whether the total duration can be computed in 64 bits: the
    /// duration of every activity fits, and so does their sum.
    pub open spec fn duration_fits(&self) -> bool {
        self.durations_fit() && i64::MIN <= self.spec_total_duration_ms() <= i64::MAX
    }

    /// Total duration over all activities, or `None` when the duration of
    /// an activity or the total does not fit in 64 bits.
    pub fn checked_total_duration_ms(&self) -> (r: Option<i64>)
        ensures
            r.is_some() == self.duration_fits(),
            r.is_some() ==> r.unwrap() == self.spec_total_duration_ms(),
    {
        let mut i: usize = 0;
        while i < self.activities.len()
            invariant
                i <= self.activities@.len(),
                forall|j: int|
                    0 <= j < i ==> i64::MIN <= (#[trigger] self.activities@[j]).duration.spec_total_ms()
                        <= i64::MAX,
            decreases self.activities@.len() - i,
        {
            let d = &self.activities[i].duration;
            let wide: i128 = d.setup_ms as i128 + d.process_ms as i128 + d.teardown_ms as i128;
            if wide < i64::MIN as i128 || wide > i64::MAX as i128 {
                assert(!self.durations_fit());
                return None;
            }
            i += 1;
        }
        assert(self.durations_fit());
        let mut acc: i128 = 0;
        let mut k: usize = 0;
        assert(self.activities@.take(0) =~= Seq::<Activity>::empty());
        while k < self.activities.len()
            invariant
                k <= self.activities@.len(),
                self.durations_fit(),
                acc == sum_durations(self.activities@.take(k as int)),
                -(k as int) * 0x8000_0000_0000_0000 <= acc <= (k as int) * 0x8000_0000_0000_0000,
            decreases self.activities@.len() - k,
        {
            let d = self.activities[k].duration.total_ms();
            proof {
                let next = self.activities@.take(k as int + 1);
                assert(next.drop_last() =~= self.activities@.take(k as int));
                assert(next.last() == self.activities@[k as int]);
            }
            acc = acc + d as i128;
            k += 1;
        }
        assert(self.activities@.take(k as int) =~= self.activities@);
        if acc < i64::MIN as i128 || acc > i64::MAX as i128 {
            None
        } else {
            Some(acc as i64)
        }
    }

    /// Whether the task has at least one activity.
    pub fn has_activities(&self) -> (b: bool)
        ensures
            b == (self.activities@.len() > 0),
    {
        self.activities.len() > 0
    }

    /// Number of activities.
    pub fn activity_count(&self) -> (n: usize)
        ensures
            n == self.activities@.len(),
    {
        self.activities.len()
    }
}

} // verus!
