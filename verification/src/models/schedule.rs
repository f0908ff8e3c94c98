//! Schedules: the assignment of activities to resources and time slots.

use vstd::prelude::*;
use crate::collections::{first_seen, StringMap};

verus! {

/// An exact fraction. Rates and averages are kept as fractions so that
/// nothing is lost to rounding; the denominator is positive.
#[derive(Debug, Clone, Copy, PartialEq, Eq, Structural)]
pub struct Ratio {
    pub numerator: i128,
    pub denominator: i128,
}

/// What an assignment says, with identifiers as character sequences and times
/// as mathematical integers.
pub struct AssignmentView {
    pub activity_id: Seq<char>,
    pub task_id: Seq<char>,
    pub resource_id: Seq<char>,
    pub start_ms: int,
    pub end_ms: int,
    pub setup_ms: int,
}

/// An activity scheduled on a resource during `[start_ms, end_ms)`.
#[derive(Debug, Clone)]
pub struct Assignment {
    /// The scheduled activity.
    pub activity_id: String,
    /// The task the activity belongs to.
    pub task_id: String,
    /// The resource that carries the activity out.
    pub resource_id: String,
    /// Start time in milliseconds.
    pub start_ms: i64,
    /// End time in milliseconds.
    pub end_ms: i64,
    /// The part of the interval, from its start, that is setup.
    pub setup_ms: i64,
}

impl View for Assignment {
    type V = AssignmentView;

    /// What the value says.
    open spec fn view(&self) -> AssignmentView {
        AssignmentView {
            activity_id: self.activity_id@,
            task_id: self.task_id@,
            resource_id: self.resource_id@,
            start_ms: self.start_ms as int,
            end_ms: self.end_ms as int,
            setup_ms: self.setup_ms as int,
        }
    }
}

impl Assignment {
    /// A new assignment without setup time.
    pub fn new(activity_id: &str, task_id: &str, resource_id: &str, start_ms: i64, end_ms: i64) -> (a:
        Self)
        ensures
            a@ == (AssignmentView {
                activity_id: activity_id@,
                task_id: task_id@,
                resource_id: resource_id@,
                start_ms: start_ms as int,
                end_ms: end_ms as int,
                setup_ms: 0,
            }),
    {
        Assignment {
            activity_id: activity_id.to_owned(),
            task_id: task_id.to_owned(),
            resource_id: resource_id.to_owned(),
            start_ms,
            end_ms,
            setup_ms: 0,
        }
    }

    /// Sets the setup time.
    pub fn with_setup(self, setup_ms: i64) -> (a: Self)
        ensures
            a == (Assignment { setup_ms, ..self }),
    {
        let mut a = self;
        a.setup_ms = setup_ms;
        a
    }

    /// Length of the interval: end minus start.
    pub fn duration_ms(&self) -> (d: i64)
        requires
            i64::MIN <= self.end_ms - self.start_ms <= i64::MAX,
        ensures
            d == self.end_ms - self.start_ms,
    {
        self.end_ms - self.start_ms
    }

    /// Length of the interval without its setup part.
    pub fn process_ms(&self) -> (d: i64)
        requires
            i64::MIN <= self.end_ms - self.start_ms - self.setup_ms <= i64::MAX,
        ensures
            d == self.end_ms - self.start_ms - self.setup_ms,
    {
        (self.end_ms as i128 - self.start_ms as i128 - self.setup_ms as i128) as i64
    }
}

/// Classification of constraint violations.
#[derive(Debug, Clone, PartialEq, Eq)]
pub enum ViolationType {
    /// A task was completed after its deadline.
    DeadlineMiss,
    /// A resource was allocated beyond its capacity.
    CapacityExceeded,
    /// An activity started before a predecessor finished.
    PrecedenceViolation,
    /// An activity was scheduled when its resource was unavailable.
    ResourceUnavailable,
    /// A resource lacks a required skill.
    SkillMismatch,
    /// Domain-specific violation.
    Custom(String),
}

/// A constraint violation found in a schedule.
#[derive(Debug, Clone)]
pub struct Violation {
    /// Kind of violation.
    pub violation_type: ViolationType,
    /// The task, resource or activity concerned.
    pub entity_id: String,
    /// Human-readable description.
    pub message: String,
    /// Severity from 0 to 100; higher is worse.
    pub severity: i32,
}

impl Violation {
    /// A missed deadline, severity 80.
    pub fn deadline_miss(task_id: &str, message: &str) -> (v: Self)
        ensures
            v.violation_type == ViolationType::DeadlineMiss,
            v.entity_id@ == task_id@,
            v.message@ == message@,
            v.severity == 80,
    {
        Violation {
            violation_type: ViolationType::DeadlineMiss,
            entity_id: task_id.to_owned(),
            message: message.to_owned(),
            severity: 80,
        }
    }

    /// An exceeded capacity, severity 90.
    pub fn capacity_exceeded(resource_id: &str, message: &str) -> (v: Self)
        ensures
            v.violation_type == ViolationType::CapacityExceeded,
            v.entity_id@ == resource_id@,
            v.message@ == message@,
            v.severity == 90,
    {
        Violation {
            violation_type: ViolationType::CapacityExceeded,
            entity_id: resource_id.to_owned(),
            message: message.to_owned(),
            severity: 90,
        }
    }

    /// A violated precedence, severity 95.
    pub fn precedence_violation(activity_id: &str, message: &str) -> (v: Self)
        ensures
            v.violation_type == ViolationType::PrecedenceViolation,
            v.entity_id@ == activity_id@,
            v.message@ == message@,
            v.severity == 95,
    {
        Violation {
            violation_type: ViolationType::PrecedenceViolation,
            entity_id: activity_id.to_owned(),
            message: message.to_owned(),
            severity: 95,
        }
    }
}

/// The resource of every assignment.
pub open spec fn resources_of(s: Seq<AssignmentView>) -> Seq<Seq<char>> {
    Seq::new(s.len(), |i: int| s[i].resource_id)
}

/// The views of a list of assignments.
pub open spec fn assignment_views(s: Seq<Assignment>) -> Seq<AssignmentView> {
    Seq::new(s.len(), |i: int| s[i]@)
}

/// The views of a list of borrowed assignments.
pub open spec fn borrowed_views(s: Seq<&Assignment>) -> Seq<AssignmentView> {
    Seq::new(s.len(), |i: int| s[i]@)
}

/// The latest end time in `s`, or `None` when `s` is empty.
pub open spec fn latest_end(s: Seq<AssignmentView>) -> Option<int>
    decreases s.len(),
{
    if s.len() == 0 {
        None
    } else {
        match latest_end(s.drop_last()) {
            None => Some(s.last().end_ms),
            Some(m) => Some(if s.last().end_ms > m { s.last().end_ms } else { m }),
        }
    }
}

/// The assignments of `s` that belong to task `task_id`, in order.
pub open spec fn for_task(s: Seq<AssignmentView>, task_id: Seq<char>) -> Seq<AssignmentView> {
    s.filter(|a: AssignmentView| a.task_id == task_id)
}

/// The assignments of `s` on resource `resource_id`, in order.
pub open spec fn for_resource(s: Seq<AssignmentView>, resource_id: Seq<char>) -> Seq<
    AssignmentView,
> {
    s.filter(|a: AssignmentView| a.resource_id == resource_id)
}

/// Sum of end minus start over `s`.
pub open spec fn total_busy(s: Seq<AssignmentView>) -> int
    decreases s.len(),
{
    if s.len() == 0 {
        0
    } else {
        total_busy(s.drop_last()) + (s.last().end_ms - s.last().start_ms)
    }
}

/// A resource without assignments has no busy time.
pub proof fn lemma_unused_resource_is_idle(s: Seq<AssignmentView>, r: Seq<char>)
    requires
        forall|i: int| 0 <= i < s.len() ==> s[i].resource_id != r,
    ensures
        for_resource(s, r).len() == 0,
        total_busy(for_resource(s, r)) == 0,
    decreases s.len(),
{
    let pred = |a: AssignmentView| a.resource_id == r;
    if s.len() > 0 {
        lemma_unused_resource_is_idle(s.drop_last(), r);
        assert(s =~= s.drop_last().push(s.last()));
        Seq::lemma_filter_push(s.drop_last(), s.last(), pred);
    } else {
        assert(s.filter(pred).len() <= s.len()) by {
            s.lemma_filter_len(pred);
        }
    }
}

/// The latest end is an end time of the list and no end time is later.
pub proof fn lemma_latest_end_is_maximum(s: Seq<AssignmentView>)
    ensures
        s.len() == 0 <==> latest_end(s).is_none(),
        s.len() > 0 ==> (exists|i: int| 0 <= i < s.len() && s[i].end_ms == latest_end(s).unwrap()),
        forall|i: int| 0 <= i < s.len() ==> s[i].end_ms <= latest_end(s).unwrap(),
    decreases s.len(),
{
    if s.len() > 0 {
        let front = s.drop_last();
        lemma_latest_end_is_maximum(front);
        let m = latest_end(s).unwrap();
        if front.len() > 0 {
            let j = choose|i: int| 0 <= i < front.len() && front[i].end_ms == latest_end(front).unwrap();
            assert(s[j] == front[j]);
            if s.last().end_ms > latest_end(front).unwrap() {
                assert(s[s.len() - 1].end_ms == m);
            } else {
                assert(s[j].end_ms == m);
            }
        } else {
            assert(s[s.len() - 1].end_ms == m);
        }
        assert forall|i: int| 0 <= i < s.len() implies s[i].end_ms <= m by {
            if i < front.len() {
                assert(s[i] == front[i]);
            }
        }
    }
}

/// A complete schedule: assignments and the violations found in them.
#[derive(Debug, Clone)]
pub struct Schedule {
    /// The assignments, in the order in which they were made.
    pub assignments: Vec<Assignment>,
    /// The violations found.
    pub violations: Vec<Violation>,
}

impl View for Schedule {
    type V = Seq<AssignmentView>;

    /// What the value says.
    open spec fn view(&self) -> Seq<AssignmentView> {
        assignment_views(self.assignments@)
    }
}

impl Schedule {
    /// The makespan: the latest end time, 0 for an empty schedule.
    pub open spec fn spec_makespan_ms(&self) -> int {
        match latest_end(self@) {
            Some(m) => m,
            None => 0,
        }
    }

    /// An empty schedule.
    pub fn new() -> (s: Self)
        ensures
            s@ == Seq::<AssignmentView>::empty(),
            s.assignments@ == Seq::<Assignment>::empty(),
            s.violations@ == Seq::<Violation>::empty(),
    {
        let s = Schedule { assignments: Vec::new(), violations: Vec::new() };
        assert(s@ =~= Seq::<AssignmentView>::empty());
        s
    }

    /// Appends an assignment.
    pub fn add_assignment(&mut self, assignment: Assignment)
        ensures
            final(self).assignments@ == old(self).assignments@.push(assignment),
            final(self)@ == old(self)@.push(assignment@),
            final(self).violations == old(self).violations,
    {
        self.assignments.push(assignment);
        assert(self@ =~= old(self)@.push(assignment@));
    }

    /// Appends a violation.
    pub fn add_violation(&mut self, violation: Violation)
        ensures
            final(self).violations@ == old(self).violations@.push(violation),
            final(self).assignments == old(self).assignments,
    {
        self.violations.push(violation);
    }

    /// Whether the schedule has no violations.
    pub fn is_valid(&self) -> (b: bool)
        ensures
            b == (self.violations@.len() == 0),
    {
        self.violations.len() == 0
    }

    /// The makespan: the latest end time over all assignments, 0 when there are none.
    pub fn makespan_ms(&self) -> (m: i64)
        ensures
            m == self.spec_makespan_ms(),
            self@.len() == 0 ==> m == 0,
            forall|i: int| 0 <= i < self@.len() ==> self@[i].end_ms <= m,
            self@.len() > 0 ==> exists|i: int| 0 <= i < self@.len() && self@[i].end_ms == m,
    {
        let mut best: Option<i64> = None;
        let mut i: usize = 0;
        assert(self@.take(0) =~= Seq::<AssignmentView>::empty());
        while i < self.assignments.len()
            invariant
                i <= self.assignments@.len(),
                self@.len() == self.assignments@.len(),
                match best {
                    Some(b) => latest_end(self@.take(i as int)) == Some(b as int),
                    None => latest_end(self@.take(i as int)).is_none(),
                },
            decreases self.assignments@.len() - i,
        {
            let end = self.assignments[i].end_ms;
            proof {
                assert(self@.take(i as int + 1).drop_last() =~= self@.take(i as int));
                assert(self@.take(i as int + 1).last() == self@[i as int]);
            }
            best = match best {
                None => Some(end),
                Some(b) => Some(if end > b { end } else { b }),
            };
            i += 1;
        }
        proof {
            assert(self@.take(i as int) =~= self@);
            lemma_latest_end_is_maximum(self@);
        }
        match best {
            Some(b) => b,
            None => 0,
        }
    }

    /// The first assignment of the activity `activity_id`, if any.
    pub fn assignment_for_activity(&self, activity_id: &str) -> (r: Option<&Assignment>)
        ensures
            match r {
                Some(a) => exists|i: int|
                    0 <= i < self.assignments@.len() && self.assignments@[i] == *a
                        && a.activity_id@ == activity_id@ && forall|j: int|
                        0 <= j < i ==> self.assignments@[j].activity_id@ != activity_id@,
                None => forall|j: int|
                    0 <= j < self.assignments@.len() ==> self.assignments@[j].activity_id@
                        != activity_id@,
            },
    {
        let wanted = activity_id.to_owned();
        let mut i: usize = 0;
        while i < self.assignments.len()
            invariant
                i <= self.assignments@.len(),
                wanted@ == activity_id@,
                forall|j: int| 0 <= j < i ==> self.assignments@[j].activity_id@ != activity_id@,
            decreases self.assignments@.len() - i,
        {
            if self.assignments[i].activity_id == wanted {
                return Some(&self.assignments[i]);
            }
            i += 1;
        }
        None
    }

    /// All assignments of the task `task_id`, in schedule order.
    pub fn assignments_for_task(&self, task_id: &str) -> (out: Vec<&Assignment>)
        ensures
            borrowed_views(out@) == for_task(self@, task_id@),
    {
        let wanted = task_id.to_owned();
        let ghost pred = |a: AssignmentView| a.task_id == task_id@;
        let mut out: Vec<&Assignment> = Vec::new();
        let mut i: usize = 0;
        assert(self@.take(0) =~= Seq::<AssignmentView>::empty());
        while i < self.assignments.len()
            invariant
                i <= self.assignments@.len(),
                self@.len() == self.assignments@.len(),
                wanted@ == task_id@,
                pred == |a: AssignmentView| a.task_id == task_id@,
                borrowed_views(out@) == self@.take(i as int).filter(pred),
            decreases self.assignments@.len() - i,
        {
            proof {
                assert(self@.take(i as int + 1) =~= self@.take(i as int).push(self@[i as int]));
                Seq::lemma_filter_push(self@.take(i as int), self@[i as int], pred);
            }
            if self.assignments[i].task_id == wanted {
                let ghost before = borrowed_views(out@);
                out.push(&self.assignments[i]);
                assert(borrowed_views(out@) =~= before.push(self@[i as int]));
            }
            i += 1;
        }
        assert(self@.take(i as int) =~= self@);
        out
    }

    /// All assignments on the resource `resource_id`, in schedule order.
    pub fn assignments_for_resource(&self, resource_id: &str) -> (out: Vec<&Assignment>)
        ensures
            borrowed_views(out@) == for_resource(self@, resource_id@),
    {
        let wanted = resource_id.to_owned();
        let ghost pred = |a: AssignmentView| a.resource_id == resource_id@;
        let mut out: Vec<&Assignment> = Vec::new();
        let mut i: usize = 0;
        assert(self@.take(0) =~= Seq::<AssignmentView>::empty());
        while i < self.assignments.len()
            invariant
                i <= self.assignments@.len(),
                self@.len() == self.assignments@.len(),
                wanted@ == resource_id@,
                pred == |a: AssignmentView| a.resource_id == resource_id@,
                borrowed_views(out@) == self@.take(i as int).filter(pred),
            decreases self.assignments@.len() - i,
        {
            proof {
                assert(self@.take(i as int + 1) =~= self@.take(i as int).push(self@[i as int]));
                Seq::lemma_filter_push(self@.take(i as int), self@[i as int], pred);
            }
            if self.assignments[i].resource_id == wanted {
                let ghost before = borrowed_views(out@);
                out.push(&self.assignments[i]);
                assert(borrowed_views(out@) =~= before.push(self@[i as int]));
            }
            i += 1;
        }
        assert(self@.take(i as int) =~= self@);
        out
    }

    /// Completion time of a task: the latest end of its assignments, `None`
    /// when it has none.
    pub fn task_completion_time(&self, task_id: &str) -> (r: Option<i64>)
        ensures
            r.is_some() == latest_end(for_task(self@, task_id@)).is_some(),
            r.is_some() ==> r.unwrap() == latest_end(for_task(self@, task_id@)).unwrap(),
            r.is_none() <==> forall|i: int| 0 <= i < self@.len() ==> self@[i].task_id != task_id@,
    {
        let wanted = task_id.to_owned();
        let ghost pred = |a: AssignmentView| a.task_id == task_id@;
        let mut best: Option<i64> = None;
        let mut i: usize = 0;
        assert(self@.take(0) =~= Seq::<AssignmentView>::empty());
        while i < self.assignments.len()
            invariant
                i <= self.assignments@.len(),
                self@.len() == self.assignments@.len(),
                wanted@ == task_id@,
                pred == |a: AssignmentView| a.task_id == task_id@,
                match best {
                    Some(b) => latest_end(self@.take(i as int).filter(pred)) == Some(b as int),
                    None => latest_end(self@.take(i as int).filter(pred)).is_none(),
                },
                best.is_none() <==> forall|j: int| 0 <= j < i ==> self@[j].task_id != task_id@,
            decreases self.assignments@.len() - i,
        {
            proof {
                let front = self@.take(i as int);
                assert(self@.take(i as int + 1) =~= front.push(self@[i as int]));
                Seq::lemma_filter_push(front, self@[i as int], pred);
                if pred(self@[i as int]) {
                    assert(front.filter(pred).push(self@[i as int]).drop_last() =~= front.filter(
                        pred,
                    ));
                }
            }
            if self.assignments[i].task_id == wanted {
                let end = self.assignments[i].end_ms;
                best = match best {
                    None => Some(end),
                    Some(b) => Some(if end > b { end } else { b }),
                };
            }
            i += 1;
        }
        assert(self@.take(i as int) =~= self@);
        best
    }

    /// Whether the busy time of a resource can be added up in 64 bits.
    pub open spec fn busy_fits(&self, resource_id: Seq<char>) -> bool {
        forall|k: int|
            0 <= k <= self@.len() ==> i64::MIN <= #[trigger] total_busy(
                for_resource(self@.take(k), resource_id),
            ) <= i64::MAX
    }

    /// Whether the busy time of every resource can be added up in 64 bits.
    pub open spec fn all_busy_fit(&self) -> bool {
        forall|k: int, r: Seq<char>|
            0 <= k <= self@.len() ==> i64::MIN <= #[trigger] total_busy(
                for_resource(self@.take(k), r),
            ) <= i64::MAX
    }

    /// Total time the resource `resource_id` is busy: the sum of end minus
    /// start over its assignments; `None` when the sum leaves 64 bits on
    /// the way.
    pub fn try_resource_busy_ms(&self, resource_id: &str) -> (r: Option<i64>)
        ensures
            r.is_some() == self.busy_fits(resource_id@),
            r.is_some() ==> r.unwrap() == total_busy(for_resource(self@, resource_id@)),
    {
        let wanted = resource_id.to_owned();
        let ghost pred = |a: AssignmentView| a.resource_id == resource_id@;
        let mut busy: i64 = 0;
        let mut i: usize = 0;
        assert(self@.take(0) =~= Seq::<AssignmentView>::empty());
        proof {
            lemma_unused_resource_is_idle(self@.take(0), resource_id@);
        }
        while i < self.assignments.len()
            invariant
                i <= self.assignments@.len(),
                self@.len() == self.assignments@.len(),
                wanted@ == resource_id@,
                pred == |a: AssignmentView| a.resource_id == resource_id@,
                busy == total_busy(self@.take(i as int).filter(pred)),
                forall|k: int|
                    0 <= k <= i ==> i64::MIN <= #[trigger] total_busy(
                        for_resource(self@.take(k), resource_id@),
                    ) <= i64::MAX,
            decreases self.assignments@.len() - i,
        {
            proof {
                let front = self@.take(i as int);
                assert(self@.take(i as int + 1) =~= front.push(self@[i as int]));
                Seq::lemma_filter_push(front, self@[i as int], pred);
                if pred(self@[i as int]) {
                    assert(front.filter(pred).push(self@[i as int]).drop_last() =~= front.filter(
                        pred,
                    ));
                }
            }
            if self.assignments[i].resource_id == wanted {
                let a = &self.assignments[i];
                let wide: i128 = busy as i128 + (a.end_ms as i128 - a.start_ms as i128);
                if wide < i64::MIN as i128 || wide > i64::MAX as i128 {
                    assert(total_busy(for_resource(self@.take(i as int + 1), resource_id@)) == wide);
                    return None;
                }
                busy = wide as i64;
            }
            i += 1;
        }
        assert(self@.take(i as int) =~= self@);
        Some(busy)
    }

    /// Total time the resource `resource_id` is busy: the sum of end minus
    /// start over its assignments.
    pub fn resource_busy_ms(&self, resource_id: &str) -> (busy: i64)
        requires
            self.busy_fits(resource_id@),
        ensures
            busy == total_busy(for_resource(self@, resource_id@)),
    {
        match self.try_resource_busy_ms(resource_id) {
            Some(busy) => busy,
            None => unreached(),
        }
    }

    /// Utilization of a resource over a horizon: its busy time over the
    /// horizon, as an exact fraction. `None` when the horizon is not positive.
    pub fn resource_utilization(&self, resource_id: &str, horizon_ms: i64) -> (r: Option<Ratio>)
        requires
            horizon_ms > 0 ==> self.busy_fits(resource_id@),
        ensures
            r.is_none() == (horizon_ms <= 0),
            r.is_some() ==> r.unwrap().numerator == total_busy(for_resource(self@, resource_id@))
                && r.unwrap().denominator == horizon_ms,
    {
        if horizon_ms <= 0 {
            return None;
        }
        let busy = self.resource_busy_ms(resource_id);
        Some(Ratio { numerator: busy as i128, denominator: horizon_ms as i128 })
    }

    /// What the busy times of the resources are; see [`Schedule::busy_by_resource`].
    pub open spec fn spec_is_busy_map(&self, busy: StringMap<i64>) -> bool {
        if self.spec_makespan_ms() <= 0 {
            busy@ == Map::<Seq<char>, i64>::empty()
        } else {
            &&& busy.keys() == first_seen(resources_of(self@))
            &&& forall|r: Seq<char>| #[trigger]
                busy@.contains_key(r) <==> exists|i: int|
                    0 <= i < self@.len() && self@[i].resource_id == r
            &&& forall|r: Seq<char>| #[trigger]
                busy@.contains_key(r) ==> busy@[r] == total_busy(for_resource(self@, r))
        }
    }

    /// Busy time of every resource that has an assignment, keyed by resource
    /// identifier, in the order in which the resources first appear. Empty
    /// when the makespan is not positive. `None` when the makespan is
    /// positive and a busy time leaves 64 bits on the way.
    pub fn try_busy_by_resource(&self) -> (r: Option<StringMap<i64>>)
        ensures
            r.is_some() == (self.spec_makespan_ms() > 0 ==> self.all_busy_fit()),
            r.is_some() ==> self.spec_is_busy_map(r.unwrap()),
    {
        let mut busy: StringMap<i64> = StringMap::new();
        if self.makespan_ms() <= 0 {
            return Some(busy);
        }
        let mut i: usize = 0;
        assert(self@.take(0) =~= Seq::<AssignmentView>::empty());
        assert(resources_of(self@.take(0)) =~= Seq::<Seq<char>>::empty());
        while i < self.assignments.len()
            invariant
                i <= self.assignments@.len(),
                self@.len() == self.assignments@.len(),
                self.spec_makespan_ms() > 0,
                forall|k: int, r: Seq<char>|
                    0 <= k <= i ==> i64::MIN <= #[trigger] total_busy(
                        for_resource(self@.take(k), r),
                    ) <= i64::MAX,
                busy.keys() == first_seen(resources_of(self@.take(i as int))),
                forall|r: Seq<char>| #[trigger] busy@.contains_key(r) <==> busy.keys().contains(r),
                forall|r: Seq<char>| #[trigger]
                    busy@.contains_key(r) <==> exists|j: int|
                        0 <= j < i && self@[j].resource_id == r,
                forall|r: Seq<char>| #[trigger]
                    busy@.contains_key(r) ==> busy@[r] == total_busy(
                        for_resource(self@.take(i as int), r),
                    ),
            decreases self.assignments@.len() - i,
        {
            let a = &self.assignments[i];
            let ghost before = busy@;
            let ghost front = self@.take(i as int);
            let ghost rid = a.resource_id@;
            assert(self@[i as int].resource_id == rid);
            proof {
                assert(self@.take(i as int + 1) =~= front.push(self@[i as int]));
                assert forall|r: Seq<char>| total_busy(
                    for_resource(self@.take(i as int + 1), r),
                ) == total_busy(for_resource(front, r)) + if r == rid {
                    self@[i as int].end_ms - self@[i as int].start_ms
                } else {
                    0
                } by {
                    let pred = |x: AssignmentView| x.resource_id == r;
                    Seq::lemma_filter_push(front, self@[i as int], pred);
                    if r == rid {
                        assert(front.filter(pred).push(self@[i as int]).drop_last() =~= front.filter(
                            pred,
                        ));
                    }
                }
                if !before.contains_key(rid) {
                    lemma_unused_resource_is_idle(front, rid);
                }
            }
            let so_far: i64 = match busy.get(a.resource_id.as_str()) {
                Some(b) => *b,
                None => 0,
            };
            let wide: i128 = so_far as i128 + (a.end_ms as i128 - a.start_ms as i128);
            if wide < i64::MIN as i128 || wide > i64::MAX as i128 {
                assert(total_busy(for_resource(self@.take(i as int + 1), rid)) == wide);
                return None;
            }
            let total = wide as i64;
            let ghost old_keys = busy.keys();
            busy.insert(a.resource_id.clone(), total);
            i += 1;
            proof {
                assert forall|k: int, r: Seq<char>| 0 <= k <= i implies i64::MIN
                    <= #[trigger] total_busy(for_resource(self@.take(k), r)) <= i64::MAX by {
                    if k == i {
                        assert(i64::MIN <= total_busy(for_resource(front, r)) <= i64::MAX);
                        if r == rid {
                            assert(total_busy(for_resource(self@.take(k), r)) == wide);
                        }
                    }
                }
                let named = resources_of(self@.take(i as int));
                assert(named.drop_last() =~= resources_of(front));
                assert(named.last() == rid);
                assert forall|r: Seq<char>| #[trigger] busy@.contains_key(r) <==> busy.keys().contains(
                    r,
                ) by {
                    assert(before.contains_key(r) <==> old_keys.contains(r));
                    if old_keys.contains(r) {
                        let j = choose|j: int| 0 <= j < old_keys.len() && old_keys[j] == r;
                        assert(busy.keys()[j] == r);
                    }
                    if busy.keys().contains(r) && !old_keys.contains(r) {
                        let j = choose|j: int| 0 <= j < busy.keys().len() && busy.keys()[j] == r;
                        if j < old_keys.len() {
                            assert(old_keys[j] == r);
                        }
                    }
                    if r == rid && !old_keys.contains(rid) {
                        assert(busy.keys()[old_keys.len() as int] == r);
                    }
                }
                assert forall|r: Seq<char>| #[trigger] busy@.contains_key(r) <==> exists|j: int|
                    0 <= j < i && self@[j].resource_id == r by {
                    if busy@.contains_key(r) {
                        if r == rid {
                            assert(self@[i - 1].resource_id == r);
                        } else {
                            assert(before.contains_key(r));
                        }
                    }
                    if exists|j: int| 0 <= j < i && self@[j].resource_id == r {
                        let j = choose|j: int| 0 <= j < i && self@[j].resource_id == r;
                        if j < i - 1 {
                            assert(before.contains_key(r));
                        }
                    }
                }
            }
        }
        assert(self@.take(i as int) =~= self@);
        Some(busy)
    }

    /// Busy time of every resource that has an assignment, keyed by resource
    /// identifier, in the order in which the resources first appear. Empty
    /// when the makespan is not positive.
    pub fn busy_by_resource(&self) -> (busy: StringMap<i64>)
        requires
            self.spec_makespan_ms() > 0 ==> self.all_busy_fit(),
        ensures
            self.spec_is_busy_map(busy),
    {
        match self.try_busy_by_resource() {
            Some(busy) => busy,
            None => unreached(),
        }
    }

    /// Number of assignments.
    pub fn assignment_count(&self) -> (n: usize)
        ensures
            n == self@.len(),
    {
        self.assignments.len()
    }
}

impl Default for Schedule {
    /// An empty schedule.
    fn default() -> (s: Self)
        ensures
            s@ == Seq::<AssignmentView>::empty(),
    {
        Schedule::new()
    }
}

} // verus!
