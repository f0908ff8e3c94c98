//! The constraint-programming formulation of a scheduling problem.
//!
//! The builder lowers tasks and constraints into a plan: one interval per
//! activity, a precedence between consecutive activities of a task, one
//! no-overlap constraint per resource that two or more activities may use,
//! and the precedence and no-overlap constraints that the caller adds. The
//! plan is handed to the modelling layer of `u_metaheur`, and what a solver
//! reports for the model is turned back into a schedule.

use vstd::prelude::*;
use u_metaheur::cp::{CpModel, CpSolution, IntervalVar, Objective};
use crate::collections::{copy_texts, first_seen, slice_texts, texts, StringMap};
use crate::models::activity::Activity;
use crate::models::constraint::{Constraint, TransitionMatrixCollection};
use crate::models::resource::Resource;
use crate::models::schedule::{Assignment, AssignmentView, Schedule};
use crate::models::task::Task;
use crate::validation::all_activities;

verus! {

/// The model of `u_metaheur`, carried through as an opaque value.
#[verifier::external_type_specification]
#[verifier::external_body]
pub struct ExCpModel(CpModel);

/// The solution of `u_metaheur`, carried through as an opaque value.
#[verifier::external_type_specification]
#[verifier::external_body]
pub struct ExCpSolution(CpSolution);

/// What an interval variable says: its bounds and its fixed duration.
pub struct IntervalView {
    pub id: Seq<char>,
    pub start_min: int,
    pub start_max: int,
    pub duration: int,
    pub end_max: int,
}

/// What a constraint of the model says.
pub enum ConstraintView {
    /// `after` starts no earlier than `min_delay` after `before` ends.
    Precedence { before: Seq<char>, after: Seq<char>, min_delay: int },
    /// The intervals do not overlap.
    NoOverlap { intervals: Seq<Seq<char>> },
}

/// The interval variables of a model, by name.
pub uninterp spec fn cp_intervals(model: CpModel) -> Map<Seq<char>, IntervalView>;

/// The constraints of a model, in the order in which they were added.
pub uninterp spec fn cp_constraints(model: CpModel) -> Seq<ConstraintView>;

/// Whether the objective of a model is to minimize the latest end.
pub uninterp spec fn cp_minimizes_max_end(model: CpModel) -> bool;

/// Whether a solution was found.
pub uninterp spec fn cp_solution_found(solution: CpSolution) -> bool;

/// What a solution reports for its intervals, by name: whether the
/// interval is present, its start and its end.
pub uninterp spec fn cp_solution_intervals(solution: CpSolution) -> Map<Seq<char>, (bool, i64, i64)>;

/// A model without variables, constraints or objective, by `CpModel::new`.
#[verifier::external_body]
fn new_model(name: &str, horizon_ms: i64) -> (model: CpModel)
    ensures
        cp_intervals(model) == (Map::<Seq<char>, IntervalView>::empty()),
        cp_constraints(model) == Seq::<ConstraintView>::empty(),
        !cp_minimizes_max_end(model),
{
    CpModel::new(name, horizon_ms)
}

/// Adds an interval variable of fixed duration, by `IntervalVar::new` and
/// `CpModel::add_interval`. The model keys its intervals by name: a second
/// interval of the same name replaces the first. `IntervalVar::new` adds
/// the duration to the earliest start, which must not overflow.
#[verifier::external_body]
fn add_interval(model: &mut CpModel, id: &str, start_min: i64, start_max: i64, duration: i64, end_max: i64)
    requires
        i64::MIN <= start_min + duration <= i64::MAX,
    ensures
        cp_intervals(*final(model)) == cp_intervals(*old(model)).insert(
            id@,
            IntervalView {
                id: id@,
                start_min: start_min as int,
                start_max: start_max as int,
                duration: duration as int,
                end_max: end_max as int,
            },
        ),
        cp_constraints(*final(model)) == cp_constraints(*old(model)),
        cp_minimizes_max_end(*final(model)) == cp_minimizes_max_end(*old(model)),
{
    model.add_interval(IntervalVar::new(id, start_min, start_max, duration, end_max))
}

/// Appends a precedence constraint, by `CpModel::add_precedence`.
#[verifier::external_body]
fn add_precedence(model: &mut CpModel, before: &str, after: &str, min_delay_ms: i64)
    ensures
        cp_constraints(*final(model)) == cp_constraints(*old(model)).push(
            ConstraintView::Precedence {
                before: before@,
                after: after@,
                min_delay: min_delay_ms as int,
            },
        ),
        cp_intervals(*final(model)) == cp_intervals(*old(model)),
        cp_minimizes_max_end(*final(model)) == cp_minimizes_max_end(*old(model)),
{
    model.add_precedence(before.to_string(), after.to_string(), min_delay_ms)
}

/// Appends a no-overlap constraint, by `CpModel::add_no_overlap`.
#[verifier::external_body]
fn add_no_overlap(model: &mut CpModel, activity_ids: &Vec<String>)
    ensures
        cp_constraints(*final(model)) == cp_constraints(*old(model)).push(
            ConstraintView::NoOverlap { intervals: texts(activity_ids@) },
        ),
        cp_intervals(*final(model)) == cp_intervals(*old(model)),
        cp_minimizes_max_end(*final(model)) == cp_minimizes_max_end(*old(model)),
{
    model.add_no_overlap(activity_ids.clone())
}

/// Sets the objective to minimizing the latest end, by `CpModel::set_objective`.
#[verifier::external_body]
fn minimize_max_end(model: &mut CpModel)
    ensures
        cp_minimizes_max_end(*final(model)),
        cp_intervals(*final(model)) == cp_intervals(*old(model)),
        cp_constraints(*final(model)) == cp_constraints(*old(model)),
{
    model.set_objective(Objective::MinimizeMaxEnd)
}

/// Whether a solution was found, by `CpSolution::is_solution_found`.
#[verifier::external_body]
fn solution_found(solution: &CpSolution) -> (found: bool)
    ensures
        found == cp_solution_found(*solution),
{
    solution.is_solution_found()
}

/// What a solution reports for the interval `id`, read from its public
/// field `intervals`.
#[verifier::external_body]
fn solution_interval(solution: &CpSolution, id: &str) -> (r: Option<(bool, i64, i64)>)
    ensures
        r == if cp_solution_intervals(*solution).contains_key(id@) {
            Some(cp_solution_intervals(*solution)[id@])
        } else {
            None
        },
{
    solution.intervals.get(id).map(|s| (s.is_present, s.start, s.end))
}

/// An interval variable of the plan.
#[derive(Debug, Clone)]
pub struct IntervalPlan {
    /// Name of the interval: the identifier of its activity.
    pub id: String,
    /// Earliest start.
    pub start_min: i64,
    /// Latest start.
    pub start_max: i64,
    /// Fixed duration.
    pub duration: i64,
    /// Latest end.
    pub end_max: i64,
}

impl View for IntervalPlan {
    type V = IntervalView;

    /// What the value says, with names as character sequences and numbers as mathematical integers.
    open spec fn view(&self) -> IntervalView {
        IntervalView {
            id: self.id@,
            start_min: self.start_min as int,
            start_max: self.start_max as int,
            duration: self.duration as int,
            end_max: self.end_max as int,
        }
    }
}

/// A constraint of the plan.
#[derive(Debug, Clone)]
pub enum PlanConstraint {
    /// `after` starts no earlier than `min_delay_ms` after `before` ends.
    Precedence { before: String, after: String, min_delay_ms: i64 },
    /// The activities do not overlap.
    NoOverlap { activity_ids: Vec<String> },
}

impl View for PlanConstraint {
    type V = ConstraintView;

    /// What the value says, with names as character sequences and numbers as mathematical integers.
    open spec fn view(&self) -> ConstraintView {
        match self {
            PlanConstraint::Precedence { before, after, min_delay_ms } => ConstraintView::Precedence {
                before: before@,
                after: after@,
                min_delay: *min_delay_ms as int,
            },
            PlanConstraint::NoOverlap { activity_ids } => ConstraintView::NoOverlap {
                intervals: texts(activity_ids@),
            },
        }
    }
}

/// What goes into the model: intervals and constraints. The objective is
/// always to minimize the latest end.
#[derive(Debug, Clone)]
pub struct CpPlan {
    /// The planning horizon.
    pub horizon_ms: i64,
    /// One interval per activity, task by task.
    pub intervals: Vec<IntervalPlan>,
    /// The constraints, in the order in which they go into the model.
    pub constraints: Vec<PlanConstraint>,
}

/// The views of a list of intervals.
pub open spec fn interval_views(s: Seq<IntervalPlan>) -> Seq<IntervalView> {
    Seq::new(s.len(), |i: int| s[i]@)
}

/// The views of a list of constraints.
pub open spec fn constraint_views(s: Seq<PlanConstraint>) -> Seq<ConstraintView> {
    Seq::new(s.len(), |i: int| s[i]@)
}

/// The intervals of one task: every activity may start from the release
/// time of the task, 0 when it has none, and must end by the horizon.
pub open spec fn task_intervals(task: Task, horizon: int) -> Seq<IntervalView> {
    Seq::new(
        task.activities@.len(),
        |k: int|
            IntervalView {
                id: task.activities@[k].id@,
                start_min: match task.release_time {
                    Some(r) => r as int,
                    None => 0,
                },
                start_max: horizon - task.activities@[k].duration.process_ms,
                duration: task.activities@[k].duration.process_ms as int,
                end_max: horizon,
            },
    )
}

/// The intervals of all tasks, task by task.
pub open spec fn planned_intervals(tasks: Seq<Task>, horizon: int) -> Seq<IntervalView>
    decreases tasks.len(),
{
    if tasks.len() == 0 {
        Seq::empty()
    } else {
        planned_intervals(tasks.drop_last(), horizon) + task_intervals(tasks.last(), horizon)
    }
}

/// The precedences within one task: every activity before the next.
pub open spec fn task_chain(task: Task) -> Seq<ConstraintView> {
    Seq::new(
        if task.activities@.len() > 0 { (task.activities@.len() - 1) as nat } else { 0 },
        |k: int|
            ConstraintView::Precedence {
                before: task.activities@[k].id@,
                after: task.activities@[k + 1].id@,
                min_delay: 0,
            },
    )
}

/// The precedences within all tasks, task by task.
pub open spec fn planned_chains(tasks: Seq<Task>) -> Seq<ConstraintView>
    decreases tasks.len(),
{
    if tasks.len() == 0 {
        Seq::empty()
    } else {
        planned_chains(tasks.drop_last()) + task_chain(tasks.last())
    }
}

/// Every candidate of every activity, paired with the identifier of the
/// activity, activity by activity.
pub open spec fn candidate_pairs(acts: Seq<Activity>) -> Seq<(Seq<char>, Seq<char>)>
    decreases acts.len(),
{
    if acts.len() == 0 {
        Seq::empty()
    } else {
        candidate_pairs(acts.drop_last()) + Seq::new(
            acts.last().spec_candidates().len(),
            |c: int| (acts.last().id@, acts.last().spec_candidates()[c]),
        )
    }
}

/// The resource of every pair.
pub open spec fn pair_resources(pairs: Seq<(Seq<char>, Seq<char>)>) -> Seq<Seq<char>> {
    Seq::new(pairs.len(), |i: int| pairs[i].1)
}

/// The activities paired with resource `r`, in order.
pub open spec fn activities_on(pairs: Seq<(Seq<char>, Seq<char>)>, r: Seq<char>) -> Seq<Seq<char>>
    decreases pairs.len(),
{
    if pairs.len() == 0 {
        Seq::empty()
    } else if pairs.last().1 == r {
        activities_on(pairs.drop_last(), r).push(pairs.last().0)
    } else {
        activities_on(pairs.drop_last(), r)
    }
}

/// One no-overlap constraint for each of the first `n` resources that two
/// or more activities may use.
pub open spec fn overlaps_among(
    pairs: Seq<(Seq<char>, Seq<char>)>,
    resources: Seq<Seq<char>>,
    n: int,
) -> Seq<ConstraintView>
    decreases n,
{
    if n <= 0 {
        Seq::empty()
    } else if activities_on(pairs, resources[n - 1]).len() > 1 {
        overlaps_among(pairs, resources, n - 1).push(
            ConstraintView::NoOverlap { intervals: activities_on(pairs, resources[n - 1]) },
        )
    } else {
        overlaps_among(pairs, resources, n - 1)
    }
}

/// The no-overlap constraints of the tasks: one per resource that two or
/// more activities may use, the resources in the order in which the
/// activities first name them.
pub open spec fn planned_overlaps(tasks: Seq<Task>) -> Seq<ConstraintView> {
    let pairs = candidate_pairs(all_activities(tasks));
    let resources = first_seen(pair_resources(pairs));
    overlaps_among(pairs, resources, resources.len() as int)
}

/// The constraints of the caller that the model takes: precedences and
/// no-overlaps. The others are left out.
pub open spec fn taken_constraints(constraints: Seq<Constraint>) -> Seq<ConstraintView>
    decreases constraints.len(),
{
    if constraints.len() == 0 {
        Seq::empty()
    } else {
        let before = taken_constraints(constraints.drop_last());
        match constraints.last() {
            Constraint::Precedence { before: b, after: a, min_delay_ms } => before.push(
                ConstraintView::Precedence { before: b@, after: a@, min_delay: min_delay_ms as int },
            ),
            Constraint::NoOverlap { resource_id, activity_ids } => before.push(
                ConstraintView::NoOverlap { intervals: texts(activity_ids@) },
            ),
            _ => before,
        }
    }
}

/// The map that holds every interval under its name; of two intervals of
/// the same name the later one.
pub open spec fn intervals_by_name(intervals: Seq<IntervalView>) -> Map<Seq<char>, IntervalView>
    decreases intervals.len(),
{
    if intervals.len() == 0 {
        Map::empty()
    } else {
        intervals_by_name(intervals.drop_last()).insert(intervals.last().id, intervals.last())
    }
}

/// The first candidate of an activity, the empty identifier when it has none.
pub open spec fn first_candidate(activity: Activity) -> Seq<char> {
    if activity.spec_candidates().len() > 0 {
        activity.spec_candidates()[0]
    } else {
        Seq::empty()
    }
}

/// The assignments that the reported intervals give for the activities of
/// one task: one for every activity whose interval is reported as present,
/// on the first candidate of the activity.
pub open spec fn task_assignments(task: Task, intervals: Map<Seq<char>, (bool, i64, i64)>, n: int) -> Seq<
    AssignmentView,
>
    decreases n,
{
    if n <= 0 {
        Seq::empty()
    } else {
        let before = task_assignments(task, intervals, n - 1);
        let activity = task.activities@[n - 1];
        if intervals.contains_key(activity.id@) && intervals[activity.id@].0 {
            before.push(
                AssignmentView {
                    activity_id: activity.id@,
                    task_id: task.id@,
                    resource_id: first_candidate(activity),
                    start_ms: intervals[activity.id@].1 as int,
                    end_ms: intervals[activity.id@].2 as int,
                    setup_ms: 0,
                },
            )
        } else {
            before
        }
    }
}

/// The assignments that the reported intervals give for all tasks.
pub open spec fn reported_assignments(tasks: Seq<Task>, intervals: Map<Seq<char>, (bool, i64, i64)>) -> Seq<
    AssignmentView,
>
    decreases tasks.len(),
{
    if tasks.len() == 0 {
        Seq::empty()
    } else {
        reported_assignments(tasks.drop_last(), intervals) + task_assignments(
            tasks.last(),
            intervals,
            tasks.last().activities@.len() as int,
        )
    }
}

/// The schedule that a solution stands for: empty when none was found.
pub open spec fn decoded(tasks: Seq<Task>, found: bool, intervals: Map<Seq<char>, (bool, i64, i64)>) -> Seq<
    AssignmentView,
> {
    if found {
        reported_assignments(tasks, intervals)
    } else {
        Seq::empty()
    }
}

/// Two reports that agree on the activities of a task give the same assignments.
proof fn lemma_task_assignments_agree(
    task: Task,
    a: Map<Seq<char>, (bool, i64, i64)>,
    b: Map<Seq<char>, (bool, i64, i64)>,
    n: int,
)
    requires
        0 <= n <= task.activities@.len(),
        forall|k: int|
            0 <= k < task.activities@.len() ==> a.contains_key(
                (#[trigger] task.activities@[k]).id@,
            ) == b.contains_key(task.activities@[k].id@) && (a.contains_key(task.activities@[k].id@)
                ==> a[task.activities@[k].id@] == b[task.activities@[k].id@]),
    ensures
        task_assignments(task, a, n) == task_assignments(task, b, n),
    decreases n,
{
    if n > 0 {
        lemma_task_assignments_agree(task, a, b, n - 1);
        let activity = task.activities@[n - 1];
        assert(a.contains_key(activity.id@) == b.contains_key(activity.id@));
    }
}

/// Two reports that agree on all activities give the same assignments.
proof fn lemma_reported_agree(
    tasks: Seq<Task>,
    a: Map<Seq<char>, (bool, i64, i64)>,
    b: Map<Seq<char>, (bool, i64, i64)>,
)
    requires
        forall|t: int, k: int|
            0 <= t < tasks.len() && 0 <= k < tasks[t].activities@.len() ==> a.contains_key(
                (#[trigger] tasks[t].activities@[k]).id@,
            ) == b.contains_key(tasks[t].activities@[k].id@) && (a.contains_key(
                tasks[t].activities@[k].id@,
            ) ==> a[tasks[t].activities@[k].id@] == b[tasks[t].activities@[k].id@]),
    ensures
        reported_assignments(tasks, a) == reported_assignments(tasks, b),
    decreases tasks.len(),
{
    if tasks.len() > 0 {
        let front = tasks.drop_last();
        assert forall|t: int, k: int|
            0 <= t < front.len() && 0 <= k < front[t].activities@.len() implies a.contains_key(
            (#[trigger] front[t].activities@[k]).id@,
        ) == b.contains_key(front[t].activities@[k].id@) && (a.contains_key(
            front[t].activities@[k].id@,
        ) ==> a[front[t].activities@[k].id@] == b[front[t].activities@[k].id@]) by {
            assert(front[t] == tasks[t]);
        }
        lemma_reported_agree(front, a, b);
        let task = tasks.last();
        assert forall|k: int| 0 <= k < task.activities@.len() implies a.contains_key(
            (#[trigger] task.activities@[k]).id@,
        ) == b.contains_key(task.activities@[k].id@) && (a.contains_key(task.activities@[k].id@)
            ==> a[task.activities@[k].id@] == b[task.activities@[k].id@]) by {
            assert(tasks[tasks.len() - 1] == task);
        }
        lemma_task_assignments_agree(task, a, b, task.activities@.len() as int);
    }
}

/// Builds constraint-programming models from scheduling problems.
pub struct ScheduleCpBuilder<'a> {
    /// The tasks to schedule.
    pub tasks: &'a [Task],
    /// The available resources.
    pub resources: &'a [Resource],
    /// The constraints that the caller adds.
    pub constraints: Vec<Constraint>,
    /// Sequence-dependent setup times.
    pub transition_matrices: TransitionMatrixCollection,
}

impl<'a> ScheduleCpBuilder<'a> {
    /// The constraints of the plan: the precedences within the tasks, the
    /// no-overlap constraints of the resources, and what the model takes of
    /// the constraints of the caller.
    pub open spec fn spec_constraints(&self) -> Seq<ConstraintView> {
        planned_chains(self.tasks@) + planned_overlaps(self.tasks@) + taken_constraints(self.constraints@)
    }

    /// Whether the bounds of every interval can be computed in 64 bits.
    pub open spec fn bounds_fit(&self, horizon_ms: i64) -> bool {
        forall|t: int, k: int|
            0 <= t < self.tasks@.len() && 0 <= k < self.tasks@[t].activities@.len() ==> {
                let p = (#[trigger] self.tasks@[t].activities@[k]).duration.process_ms;
                let release = match self.tasks@[t].release_time {
                    Some(r) => r as int,
                    None => 0,
                };
                &&& i64::MIN <= horizon_ms - p <= i64::MAX
                &&& i64::MIN <= release + p <= i64::MAX
            }
    }

    /// A builder for the tasks and resources, without further constraints.
    pub fn new(tasks: &'a [Task], resources: &'a [Resource]) -> (b: Self)
        ensures
            b.tasks@ == tasks@,
            b.resources@ == resources@,
            b.constraints@ == Seq::<Constraint>::empty(),
            b.transition_matrices.matrices@.dom() == Set::<Seq<char>>::empty(),
    {
        ScheduleCpBuilder {
            tasks,
            resources,
            constraints: Vec::new(),
            transition_matrices: TransitionMatrixCollection::new(),
        }
    }

    /// Sets the constraints that the caller adds.
    pub fn with_constraints(self, constraints: Vec<Constraint>) -> (b: Self)
        ensures
            b.tasks@ == self.tasks@,
            b.resources@ == self.resources@,
            b.constraints == constraints,
            b.transition_matrices == self.transition_matrices,
    {
        let mut b = self;
        b.constraints = constraints;
        b
    }

    /// Sets the transition matrices.
    pub fn with_transition_matrices(self, matrices: TransitionMatrixCollection) -> (b: Self)
        ensures
            b.tasks@ == self.tasks@,
            b.resources@ == self.resources@,
            b.constraints == self.constraints,
            b.transition_matrices == matrices,
    {
        let mut b = self;
        b.transition_matrices = matrices;
        b
    }

    /// Whether the bounds of every interval can be computed in 64 bits.
    pub fn can_build(&self, horizon_ms: i64) -> (b: bool)
        ensures
            b == self.bounds_fit(horizon_ms),
    {
        let tasks = self.tasks;
        let mut t: usize = 0;
        while t < tasks.len()
            invariant
                t <= tasks@.len(),
                tasks@ == self.tasks@,
                forall|i: int, k: int|
                    0 <= i < t && 0 <= k < tasks@[i].activities@.len() ==> {
                        let p = (#[trigger] tasks@[i].activities@[k]).duration.process_ms;
                        let release = match tasks@[i].release_time {
                            Some(r) => r as int,
                            None => 0,
                        };
                        &&& i64::MIN <= horizon_ms - p <= i64::MAX
                        &&& i64::MIN <= release + p <= i64::MAX
                    },
            decreases tasks@.len() - t,
        {
            let task = &tasks[t];
            let release: i64 = match task.release_time {
                Some(r) => r,
                None => 0,
            };
            let mut k: usize = 0;
            while k < task.activities.len()
                invariant
                    k <= task.activities@.len(),
                    t < tasks@.len(),
                    tasks@ == self.tasks@,
                    *task == tasks@[t as int],
                    release == match task.release_time {
                        Some(r) => r,
                        None => 0i64,
                    },
                    forall|j: int|
                        0 <= j < k ==> {
                            let p = (#[trigger] task.activities@[j]).duration.process_ms;
                            &&& i64::MIN <= horizon_ms - p <= i64::MAX
                            &&& i64::MIN <= release + p <= i64::MAX
                        },
                decreases task.activities@.len() - k,
            {
                let p = task.activities[k].duration.process_ms;
                let latest: i128 = horizon_ms as i128 - p as i128;
                let earliest: i128 = release as i128 + p as i128;
                if latest < i64::MIN as i128 || latest > i64::MAX as i128 || earliest < i64::MIN as i128
                    || earliest > i64::MAX as i128 {
                    assert(self.tasks@[t as int].activities@[k as int] == task.activities@[k as int]);
                    return false;
                }
                k += 1;
            }
            t += 1;
        }
        true
    }

    /// The intervals of the plan.
    fn plan_intervals(&self, horizon_ms: i64) -> (intervals: Vec<IntervalPlan>)
        requires
            self.bounds_fit(horizon_ms),
        ensures
            interval_views(intervals@) == planned_intervals(self.tasks@, horizon_ms as int),
            forall|i: int|
                0 <= i < intervals@.len() ==> i64::MIN <= (#[trigger] intervals@[i]).start_min
                    + intervals@[i].duration <= i64::MAX,
    {
        let tasks = self.tasks;
        let mut intervals: Vec<IntervalPlan> = Vec::new();
        let mut t: usize = 0;
        assert(tasks@.take(0) =~= Seq::<Task>::empty());
        assert(interval_views(intervals@) =~= Seq::<IntervalView>::empty());
        while t < tasks.len()
            invariant
                t <= tasks@.len(),
                tasks@ == self.tasks@,
                self.bounds_fit(horizon_ms),
                interval_views(intervals@) == planned_intervals(tasks@.take(t as int), horizon_ms as int),
                forall|i: int|
                    0 <= i < intervals@.len() ==> i64::MIN <= (#[trigger] intervals@[i]).start_min
                        + intervals@[i].duration <= i64::MAX,
            decreases tasks@.len() - t,
        {
            let task = &tasks[t];
            let release: i64 = match task.release_time {
                Some(r) => r,
                None => 0,
            };
            let ghost base = interval_views(intervals@);
            let ghost wanted = task_intervals(*task, horizon_ms as int);
            let mut k: usize = 0;
            assert(interval_views(intervals@) =~= base + wanted.take(0));
            while k < task.activities.len()
                invariant
                    k <= task.activities@.len(),
                    t < tasks@.len(),
                    tasks@ == self.tasks@,
                    *task == tasks@[t as int],
                    self.bounds_fit(horizon_ms),
                    release == match task.release_time {
                        Some(r) => r,
                        None => 0i64,
                    },
                    wanted == task_intervals(*task, horizon_ms as int),
                    interval_views(intervals@) == base + wanted.take(k as int),
                    forall|i: int|
                        0 <= i < intervals@.len() ==> i64::MIN <= (#[trigger] intervals@[i]).start_min
                            + intervals@[i].duration <= i64::MAX,
                decreases task.activities@.len() - k,
            {
                let activity = &task.activities[k];
                assert(self.tasks@[t as int].activities@[k as int] == *activity);
                let duration = activity.duration.process_ms;
                let ghost before = interval_views(intervals@);
                let interval = IntervalPlan {
                    id: activity.id.clone(),
                    start_min: release,
                    start_max: horizon_ms - duration,
                    duration,
                    end_max: horizon_ms,
                };
                intervals.push(interval);
                k += 1;
                proof {
                    assert(interval_views(intervals@) =~= before.push(interval@));
                    assert(wanted.take(k as int) =~= wanted.take(k as int - 1).push(interval@));
                }
            }
            proof {
                let next = tasks@.take(t as int + 1);
                assert(next.drop_last() =~= tasks@.take(t as int));
                assert(next.last() == *task);
                assert(wanted.take(k as int) =~= wanted);
            }
            t += 1;
        }
        assert(tasks@.take(t as int) =~= tasks@);
        intervals
    }

    /// The precedences within the tasks.
    fn plan_chains(&self, constraints: &mut Vec<PlanConstraint>)
        ensures
            constraint_views(final(constraints)@) == constraint_views(old(constraints)@)
                + planned_chains(self.tasks@),
    {
        let tasks = self.tasks;
        let ghost start = constraint_views(constraints@);
        let mut t: usize = 0;
        assert(tasks@.take(0) =~= Seq::<Task>::empty());
        assert(constraint_views(constraints@) =~= start + planned_chains(tasks@.take(0)));
        while t < tasks.len()
            invariant
                t <= tasks@.len(),
                tasks@ == self.tasks@,
                constraint_views(constraints@) == start + planned_chains(tasks@.take(t as int)),
            decreases tasks@.len() - t,
        {
            let task = &tasks[t];
            let ghost base = constraint_views(constraints@);
            let ghost wanted = task_chain(*task);
            let links: usize = if task.activities.len() > 0 {
                task.activities.len() - 1
            } else {
                0
            };
            let mut k: usize = 0;
            assert(constraint_views(constraints@) =~= base + wanted.take(0));
            while k < links
                invariant
                    k <= links,
                    links == wanted.len(),
                    wanted == task_chain(*task),
                    wanted.len() == (if task.activities@.len() > 0 {
                        task.activities@.len() - 1
                    } else {
                        0
                    }),
                    constraint_views(constraints@) == base + wanted.take(k as int),
                decreases links - k,
            {
                let ghost before = constraint_views(constraints@);
                let c = PlanConstraint::Precedence {
                    before: task.activities[k].id.clone(),
                    after: task.activities[k + 1].id.clone(),
                    min_delay_ms: 0,
                };
                constraints.push(c);
                k += 1;
                proof {
                    assert(constraint_views(constraints@) =~= before.push(c@));
                    assert(wanted.take(k as int) =~= wanted.take(k as int - 1).push(c@));
                }
            }
            proof {
                let next = tasks@.take(t as int + 1);
                assert(next.drop_last() =~= tasks@.take(t as int));
                assert(next.last() == *task);
                assert(wanted.take(k as int) =~= wanted);
                assert(start + planned_chains(tasks@.take(t as int)) + wanted =~= start + (
                planned_chains(tasks@.take(t as int)) + wanted));
            }
            t += 1;
        }
        assert(tasks@.take(t as int) =~= tasks@);
    }

    /// For every resource that an activity names as candidate, the
    /// activities that name it, the resources in the order in which they
    /// are first named.
    fn collect_resource_activities(&self) -> (groups: StringMap<Vec<String>>)
        ensures
            grouped(groups, candidate_pairs(all_activities(self.tasks@))),
    {
        let tasks = self.tasks;
        let mut groups: StringMap<Vec<String>> = StringMap::new();
        let ghost mut pairs: Seq<(Seq<char>, Seq<char>)> = Seq::empty();
        assert(first_seen(pair_resources(pairs)) =~= Seq::<Seq<char>>::empty());
        let mut t: usize = 0;
        assert(tasks@.take(0) =~= Seq::<Task>::empty());
        assert(pair_resources(pairs) =~= Seq::<Seq<char>>::empty());
        while t < tasks.len()
            invariant
                t <= tasks@.len(),
                tasks@ == self.tasks@,
                pairs == candidate_pairs(all_activities(tasks@.take(t as int))),
                grouped(groups, pairs),
            decreases tasks@.len() - t,
        {
            let task = &tasks[t];
            let ghost done = all_activities(tasks@.take(t as int));
            let mut k: usize = 0;
            assert(done + task.activities@.take(0) =~= done);
            while k < task.activities.len()
                invariant
                    k <= task.activities@.len(),
                    pairs == candidate_pairs(done + task.activities@.take(k as int)),
                    grouped(groups, pairs),
                decreases task.activities@.len() - k,
            {
                let activity = &task.activities[k];
                let candidates = activity.candidate_resources();
                let ghost base = pairs;
                let ghost fresh = Seq::new(
                    activity.spec_candidates().len(),
                    |c: int| (activity.id@, activity.spec_candidates()[c]),
                );
                let mut c: usize = 0;
                assert(base + fresh.take(0) =~= base);
                while c < candidates.len()
                    invariant
                        c <= candidates@.len(),
                        slice_texts(candidates@) == activity.spec_candidates(),
                        fresh == Seq::new(
                            activity.spec_candidates().len(),
                            |c: int| (activity.id@, activity.spec_candidates()[c]),
                        ),
                        pairs == base + fresh.take(c as int),
                        grouped(groups, pairs),
                    decreases candidates@.len() - c,
                {
                    let candidate = candidates[c];
                    assert(slice_texts(candidates@)[c as int] == candidate@);
                    let ghost pair = (activity.id@, candidate@);
                    assert(fresh[c as int] == pair);
                    let mut list: Vec<String> = match groups.get(candidate) {
                        Some(found) => copy_texts(found),
                        None => Vec::new(),
                    };
                    let ghost held = texts(list@);
                    assert(held =~= (if groups@.contains_key(candidate@) {
                        texts(groups@[candidate@]@)
                    } else {
                        Seq::<Seq<char>>::empty()
                    }));
                    list.push(activity.id.clone());
                    assert(texts(list@) =~= held.push(activity.id@));
                    let ghost old_groups = groups;
                    let ghost listed = list;
                    groups.insert(candidate.to_owned(), list);
                    proof {
                        lemma_grouped_extends(old_groups, groups, pairs, pair, listed);
                        pairs = pairs.push(pair);
                        assert(fresh.take(c as int + 1) =~= fresh.take(c as int).push(pair));
                        assert(base + fresh.take(c as int + 1) =~= (base + fresh.take(
                            c as int,
                        )).push(pair));
                    }
                    c += 1;
                }
                proof {
                    assert(fresh.take(c as int) =~= fresh);
                    let next = done + task.activities@.take(k as int + 1);
                    assert(next.drop_last() =~= done + task.activities@.take(k as int));
                    assert(next.last() == *activity);
                }
                k += 1;
            }
            proof {
                let next = tasks@.take(t as int + 1);
                assert(next.drop_last() =~= tasks@.take(t as int));
                assert(next.last() == *task);
                assert(task.activities@.take(k as int) =~= task.activities@);
            }
            t += 1;
        }
        assert(tasks@.take(t as int) =~= tasks@);
        groups
    }

    /// The plan of the model for the given planning horizon: one interval
    /// per activity, the precedences within the tasks, one no-overlap
    /// constraint per resource that two or more activities may use, and the
    /// precedence and no-overlap constraints of the caller.
    pub fn plan(&self, horizon_ms: i64) -> (plan: CpPlan)
        requires
            self.bounds_fit(horizon_ms),
        ensures
            plan.horizon_ms == horizon_ms,
            interval_views(plan.intervals@) == planned_intervals(self.tasks@, horizon_ms as int),
            constraint_views(plan.constraints@) == self.spec_constraints(),
            forall|i: int|
                0 <= i < plan.intervals@.len() ==> i64::MIN <= (#[trigger] plan.intervals@[i]).start_min
                    + plan.intervals@[i].duration <= i64::MAX,
    {
        let intervals = self.plan_intervals(horizon_ms);
        let mut constraints: Vec<PlanConstraint> = Vec::new();
        assert(constraint_views(constraints@) =~= Seq::<ConstraintView>::empty());
        self.plan_chains(&mut constraints);
        assert(constraint_views(constraints@) =~= planned_chains(self.tasks@));

        let groups = self.collect_resource_activities();
        let ghost pairs = candidate_pairs(all_activities(self.tasks@));
        let ghost resources = groups.keys();
        let count = groups.len();
        let ghost chains = constraint_views(constraints@);
        let mut g: usize = 0;
        assert(constraint_views(constraints@) =~= chains + overlaps_among(pairs, resources, 0));
        while g < count
            invariant
                g <= count,
                count == groups.keys().len(),
                resources == groups.keys(),
                pairs == candidate_pairs(all_activities(self.tasks@)),
                grouped(groups, pairs),
                constraint_views(constraints@) == chains + overlaps_among(pairs, resources, g as int),
            decreases count - g,
        {
            let list = groups.value_at(g);
            assert(*list == groups@[groups.keys()[g as int]]);
            assert(texts(list@) == activities_on(pairs, resources[g as int]));
            if list.len() > 1 {
                let ghost before = constraint_views(constraints@);
                let c = PlanConstraint::NoOverlap {
                    activity_ids: copy_texts(list),
                };
                constraints.push(c);
                assert(constraint_views(constraints@) =~= before.push(c@));
            }
            g += 1;
        }
        let ghost middle = constraint_views(constraints@);
        let mut u: usize = 0;
        assert(self.constraints@.take(0) =~= Seq::<Constraint>::empty());
        assert(constraint_views(constraints@) =~= middle + taken_constraints(self.constraints@.take(0)));
        while u < self.constraints.len()
            invariant
                u <= self.constraints@.len(),
                constraint_views(constraints@) == middle + taken_constraints(
                    self.constraints@.take(u as int),
                ),
            decreases self.constraints@.len() - u,
        {
            let ghost before = constraint_views(constraints@);
            proof {
                let next = self.constraints@.take(u as int + 1);
                assert(next.drop_last() =~= self.constraints@.take(u as int));
                assert(next.last() == self.constraints@[u as int]);
            }
            match &self.constraints[u] {
                Constraint::Precedence { before: b, after: a, min_delay_ms } => {
                    let c = PlanConstraint::Precedence {
                        before: b.clone(),
                        after: a.clone(),
                        min_delay_ms: *min_delay_ms,
                    };
                    constraints.push(c);
                    assert(constraint_views(constraints@) =~= before.push(c@));
                },
                Constraint::NoOverlap { resource_id, activity_ids } => {
                    let c = PlanConstraint::NoOverlap {
                        activity_ids: copy_texts(activity_ids),
                    };
                    constraints.push(c);
                    assert(constraint_views(constraints@) =~= before.push(c@));
                },
                _ => {},
            }
            u += 1;
        }
        assert(self.constraints@.take(u as int) =~= self.constraints@);
        CpPlan { horizon_ms, intervals, constraints }
    }

    /// Builds the model for the given planning horizon, or returns `None`
    /// when a bound of an interval cannot be computed in 64 bits.
    pub fn try_build(&self, horizon_ms: i64) -> (r: Option<CpModel>)
        ensures
            r.is_some() == self.bounds_fit(horizon_ms),
            r.is_some() ==> {
                let model = r.unwrap();
                &&& cp_intervals(model) == intervals_by_name(
                    planned_intervals(self.tasks@, horizon_ms as int),
                )
                &&& cp_constraints(model) == self.spec_constraints()
                &&& cp_minimizes_max_end(model)
            },
    {
        if self.can_build(horizon_ms) {
            Some(self.build(horizon_ms))
        } else {
            None
        }
    }

    /// Builds the model for the given planning horizon: what the plan
    /// holds, with the objective of minimizing the latest end.
    pub fn build(&self, horizon_ms: i64) -> (model: CpModel)
        requires
            self.bounds_fit(horizon_ms),
        ensures
            cp_intervals(model) == intervals_by_name(
                planned_intervals(self.tasks@, horizon_ms as int),
            ),
            cp_constraints(model) == self.spec_constraints(),
            cp_minimizes_max_end(model),
    {
        let plan = self.plan(horizon_ms);
        lower(&plan)
    }

    /// The schedule that the reported intervals stand for: one assignment
    /// for every activity whose interval is reported as present, on the
    /// first candidate of the activity; nothing when no solution was found.
    pub fn schedule_from(&self, found: bool, intervals: &StringMap<(bool, i64, i64)>) -> (schedule:
        Schedule)
        ensures
            schedule@ == decoded(self.tasks@, found, intervals@),
            schedule.violations@.len() == 0,
    {
        let tasks = self.tasks;
        let mut schedule = Schedule::new();
        if !found {
            return schedule;
        }
        let mut t: usize = 0;
        assert(tasks@.take(0) =~= Seq::<Task>::empty());
        while t < tasks.len()
            invariant
                t <= tasks@.len(),
                tasks@ == self.tasks@,
                schedule@ == reported_assignments(tasks@.take(t as int), intervals@),
                schedule.violations@.len() == 0,
            decreases tasks@.len() - t,
        {
            let task = &tasks[t];
            let ghost base = schedule@;
            let mut k: usize = 0;
            assert(schedule@ =~= base + task_assignments(*task, intervals@, 0));
            while k < task.activities.len()
                invariant
                    k <= task.activities@.len(),
                    schedule@ == base + task_assignments(*task, intervals@, k as int),
                    schedule.violations@.len() == 0,
                decreases task.activities@.len() - k,
            {
                let activity = &task.activities[k];
                let ghost before = schedule@;
                match intervals.get(activity.id.as_str()) {
                    Some(report) => {
                        if report.0 {
                            let candidates = activity.candidate_resources();
                            let resource: &str = if candidates.len() > 0 {
                                assert(slice_texts(candidates@)[0] == candidates@[0]@);
                                candidates[0]
                            } else {
                                proof {
                                    reveal_strlit("");
                                    assert(""@ =~= Seq::<char>::empty());
                                }
                                ""
                            };
                            let a = Assignment::new(
                                activity.id.as_str(),
                                task.id.as_str(),
                                resource,
                                report.1,
                                report.2,
                            );
                            schedule.add_assignment(a);
                            assert(schedule@ =~= base + task_assignments(
                                *task,
                                intervals@,
                                k as int,
                            ).push(a@));
                        }
                    },
                    None => {},
                }
                k += 1;
            }
            proof {
                let next = tasks@.take(t as int + 1);
                assert(next.drop_last() =~= tasks@.take(t as int));
                assert(next.last() == *task);
            }
            t += 1;
        }
        assert(tasks@.take(t as int) =~= tasks@);
        schedule
    }

    /// Decodes the solution of a solver into a schedule.
    pub fn decode_solution(&self, solution: &CpSolution) -> (schedule: Schedule)
        ensures
            schedule@ == decoded(
                self.tasks@,
                cp_solution_found(*solution),
                cp_solution_intervals(*solution),
            ),
            schedule.violations@.len() == 0,
    {
        let tasks = self.tasks;
        let found = solution_found(solution);
        let ghost reported = cp_solution_intervals(*solution);
        let mut intervals: StringMap<(bool, i64, i64)> = StringMap::new();
        let mut t: usize = 0;
        while t < tasks.len()
            invariant
                t <= tasks@.len(),
                tasks@ == self.tasks@,
                reported == cp_solution_intervals(*solution),
                forall|id: Seq<char>| #[trigger]
                    intervals@.contains_key(id) ==> reported.contains_key(id) && intervals@[id]
                        == reported[id],
                forall|u: int, k: int|
                    0 <= u < t && 0 <= k < tasks@[u].activities@.len() && reported.contains_key(
                        (#[trigger] tasks@[u].activities@[k]).id@,
                    ) ==> intervals@.contains_key(tasks@[u].activities@[k].id@),
            decreases tasks@.len() - t,
        {
            let task = &tasks[t];
            let mut k: usize = 0;
            while k < task.activities.len()
                invariant
                    k <= task.activities@.len(),
                    t < tasks@.len(),
                    *task == tasks@[t as int],
                    reported == cp_solution_intervals(*solution),
                    forall|id: Seq<char>| #[trigger]
                        intervals@.contains_key(id) ==> reported.contains_key(id) && intervals@[id]
                            == reported[id],
                    forall|u: int, j: int|
                        0 <= u < t && 0 <= j < tasks@[u].activities@.len() && reported.contains_key(
                            (#[trigger] tasks@[u].activities@[j]).id@,
                        ) ==> intervals@.contains_key(tasks@[u].activities@[j].id@),
                    forall|j: int|
                        0 <= j < k && reported.contains_key((#[trigger] task.activities@[j]).id@)
                            ==> intervals@.contains_key(task.activities@[j].id@),
                decreases task.activities@.len() - k,
            {
                let activity = &task.activities[k];
                match solution_interval(solution, activity.id.as_str()) {
                    Some(report) => {
                        intervals.insert(activity.id.clone(), report);
                    },
                    None => {},
                }
                k += 1;
            }
            t += 1;
        }
        proof {
            lemma_reported_agree(tasks@, intervals@, reported);
        }
        self.schedule_from(found, &intervals)
    }
}

/// The groups hold, for every resource of the pairs, in the order in which
/// the pairs first name it, the activities paired with it.
pub open spec fn grouped(groups: StringMap<Vec<String>>, pairs: Seq<(Seq<char>, Seq<char>)>) -> bool {
    &&& groups.keys() == first_seen(pair_resources(pairs))
    &&& groups.keys().no_duplicates()
    &&& forall|r: Seq<char>| #[trigger] groups@.contains_key(r) <==> groups.keys().contains(r)
    &&& forall|i: int|
        0 <= i < groups.keys().len() ==> texts(groups@[#[trigger] groups.keys()[i]]@)
            == activities_on(pairs, groups.keys()[i])
}

/// Hands a plan to the modelling layer.
pub fn lower(plan: &CpPlan) -> (model: CpModel)
    requires
        forall|i: int|
            0 <= i < plan.intervals@.len() ==> i64::MIN <= (#[trigger] plan.intervals@[i]).start_min
                + plan.intervals@[i].duration <= i64::MAX,
    ensures
        cp_intervals(model) == intervals_by_name(interval_views(plan.intervals@)),
        cp_constraints(model) == constraint_views(plan.constraints@),
        cp_minimizes_max_end(model),
{
    let mut model = new_model("scheduling", plan.horizon_ms);
    let ghost views = interval_views(plan.intervals@);
    let mut i: usize = 0;
    assert(views.take(0) =~= Seq::<IntervalView>::empty());
    while i < plan.intervals.len()
        invariant
            i <= plan.intervals@.len(),
            views == interval_views(plan.intervals@),
            forall|j: int|
                0 <= j < plan.intervals@.len() ==> i64::MIN <= (#[trigger] plan.intervals@[j]).start_min
                    + plan.intervals@[j].duration <= i64::MAX,
            cp_intervals(model) == intervals_by_name(views.take(i as int)),
            cp_constraints(model) == Seq::<ConstraintView>::empty(),
            !cp_minimizes_max_end(model),
        decreases plan.intervals@.len() - i,
    {
        let interval = &plan.intervals[i];
        proof {
            assert(views.take(i as int + 1).drop_last() =~= views.take(i as int));
            assert(views.take(i as int + 1).last() == interval@);
        }
        add_interval(
            &mut model,
            interval.id.as_str(),
            interval.start_min,
            interval.start_max,
            interval.duration,
            interval.end_max,
        );
        i += 1;
    }
    assert(views.take(i as int) =~= views);
    let ghost wanted = constraint_views(plan.constraints@);
    let mut c: usize = 0;
    assert(wanted.take(0) =~= Seq::<ConstraintView>::empty());
    while c < plan.constraints.len()
        invariant
            c <= plan.constraints@.len(),
            wanted == constraint_views(plan.constraints@),
            cp_intervals(model) == intervals_by_name(views),
            cp_constraints(model) == wanted.take(c as int),
            !cp_minimizes_max_end(model),
        decreases plan.constraints@.len() - c,
    {
        assert(wanted.take(c as int + 1) =~= wanted.take(c as int).push(plan.constraints@[c as int]@));
        match &plan.constraints[c] {
            PlanConstraint::Precedence { before, after, min_delay_ms } => {
                add_precedence(&mut model, before.as_str(), after.as_str(), *min_delay_ms);
            },
            PlanConstraint::NoOverlap { activity_ids } => {
                add_no_overlap(&mut model, activity_ids);
            },
        }
        c += 1;
    }
    assert(wanted.take(c as int) =~= wanted);
    minimize_max_end(&mut model);
    model
}

/// Grouping one more pair: the activity joins the group of its resource,
/// and a resource that was not named before goes to the end.
proof fn lemma_grouped_extends(
    before: StringMap<Vec<String>>,
    after: StringMap<Vec<String>>,
    pairs: Seq<(Seq<char>, Seq<char>)>,
    pair: (Seq<char>, Seq<char>),
    list: Vec<String>,
)
    requires
        grouped(before, pairs),
        after@ == before@.insert(pair.1, list),
        after.keys() == if before.keys().contains(pair.1) {
            before.keys()
        } else {
            before.keys().push(pair.1)
        },
        texts(list@) == (if before@.contains_key(pair.1) {
            texts(before@[pair.1]@)
        } else {
            Seq::<Seq<char>>::empty()
        }).push(pair.0),
    ensures
        grouped(after, pairs.push(pair)),
{
    let next = pairs.push(pair);
    let r0 = pair.1;
    assert(next.drop_last() =~= pairs);
    assert(pair_resources(next).drop_last() =~= pair_resources(pairs));
    assert(pair_resources(next).last() == r0);
    assert(before@.contains_key(r0) <==> before.keys().contains(r0));
    assert(after.keys().no_duplicates()) by {
        if !before.keys().contains(r0) {
            assert forall|i: int, j: int|
                0 <= i < after.keys().len() && 0 <= j < after.keys().len() && i
                    != j implies after.keys()[i] != after.keys()[j] by {
                if i < before.keys().len() && j < before.keys().len() {
                } else if i < before.keys().len() {
                    assert(before.keys().contains(before.keys()[i]));
                } else {
                    assert(before.keys().contains(before.keys()[j]));
                }
            }
        }
    }
    assert forall|r: Seq<char>| #[trigger] after@.contains_key(r) <==> after.keys().contains(r) by {
        assert(before@.contains_key(r) <==> before.keys().contains(r));
        if before.keys().contains(r) {
            let i = choose|i: int| 0 <= i < before.keys().len() && before.keys()[i] == r;
            assert(after.keys()[i] == r);
        }
        if after.keys().contains(r) && !before.keys().contains(r) {
            let i = choose|i: int| 0 <= i < after.keys().len() && after.keys()[i] == r;
            if i < before.keys().len() {
                assert(before.keys()[i] == r);
            }
        }
        if r == r0 && !before.keys().contains(r0) {
            assert(after.keys()[before.keys().len() as int] == r);
        }
    }
    assert forall|i: int| 0 <= i < after.keys().len() implies texts(
        after@[#[trigger] after.keys()[i]]@,
    ) == activities_on(next, after.keys()[i]) by {
        let r = after.keys()[i];
        if r == r0 {
            assert(after@[r] == list);
            if before@.contains_key(r) {
                let j = choose|j: int| 0 <= j < before.keys().len() && before.keys()[j] == r;
                assert(texts(before@[before.keys()[j]]@) == activities_on(pairs, r));
            } else {
                lemma_unnamed_resource(pairs, r);
            }
        } else {
            assert(i < before.keys().len());
            assert(before.keys()[i] == r);
            assert(after@[r] == before@[r]);
            assert(texts(before@[before.keys()[i]]@) == activities_on(pairs, r));
        }
    }
}

/// A resource that the list of first occurrences does not hold is paired
/// with no activity.
proof fn lemma_unnamed_resource(pairs: Seq<(Seq<char>, Seq<char>)>, r: Seq<char>)
    requires
        !first_seen(pair_resources(pairs)).contains(r),
    ensures
        activities_on(pairs, r) == Seq::<Seq<char>>::empty(),
    decreases pairs.len(),
{
    if pairs.len() > 0 {
        let front = pairs.drop_last();
        assert(pair_resources(pairs).drop_last() =~= pair_resources(front));
        assert(pair_resources(pairs).last() == pairs.last().1);
        let seen = first_seen(pair_resources(front));
        if seen.contains(pairs.last().1) {
        } else {
            let grown = seen.push(pairs.last().1);
            assert(grown[seen.len() as int] == pairs.last().1);
            if seen.contains(r) {
                let j = choose|j: int| 0 <= j < seen.len() && seen[j] == r;
                assert(grown[j] == r);
            }
        }
        lemma_unnamed_resource(front, r);
    }
}

} // verus!
