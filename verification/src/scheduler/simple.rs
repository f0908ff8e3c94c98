//! The greedy list scheduler.
//!
//! Tasks are taken in order of their dispatching score, or of their priority
//! when no rule engine is set. Each activity of a task goes to the candidate
//! resource that can start it earliest; setup times come from the transition
//! matrices alone.

use vstd::prelude::*;
use crate::collections::{slice_texts, StringMap};
use crate::dispatching::context::{bare_context, SchedulingContext};
use crate::dispatching::engine::RuleEngine;
use crate::models::constraint::TransitionMatrixCollection;
use crate::models::resource::Resource;
use crate::models::schedule::{Assignment, AssignmentView, Schedule};
use crate::models::task::Task;
use crate::scheduler::guarantees::{greedy_schedule_is_feasible, meets_guarantees};
use crate::scheduler::model::{
    begin_task, earliest, greedy_run, grows_from, has_pick, initial_state, is_known, is_pick,
    is_pick_among, lemma_pick_is_unique, lemma_place_first_grows, lemma_run_first_grows, place,
    place_first, run_first, setup_for, times_fit, GreedyState,
};
use crate::sorting::{is_permutation, is_stable_sort, row_views, stable_order, stable_sort_of};
use crate::validation::resource_id_texts;

verus! {

/// The executable state holds what the mathematical state holds.
pub open spec fn mirrors(
    st: GreedyState,
    available: Map<Seq<char>, i64>,
    last_category: Map<Seq<char>, String>,
    cursor: i64,
    out: Seq<AssignmentView>,
) -> bool {
    &&& st.available.dom() =~= available.dom()
    &&& forall|r: Seq<char>| available.contains_key(r) ==> #[trigger] st.available[r] == available[r]
    &&& st.last_category.dom() =~= last_category.dom()
    &&& forall|r: Seq<char>|
        last_category.contains_key(r) ==> #[trigger] st.last_category[r] == last_category[r]@
    &&& st.cursor == cursor
    &&& st.out == out
}

/// One sort key per task: the negated priority, so that the task with the
/// highest priority comes first.
pub open spec fn priority_rows(tasks: Seq<Task>) -> Seq<Seq<i128>> {
    Seq::new(tasks.len(), |i: int| seq![(-(tasks[i].priority as int)) as i128])
}

/// The positions of the tasks by descending priority; tasks of equal
/// priority keep their order.
pub fn priority_order(tasks: &[Task]) -> (order: Vec<usize>)
    ensures
        is_stable_sort(priority_rows(tasks@), order@),
        order@ == stable_sort_of(priority_rows(tasks@)),
        is_permutation(order@, tasks@.len() as int),
{
    let mut rows: Vec<Vec<i128>> = Vec::new();
    let mut i: usize = 0;
    while i < tasks.len()
        invariant
            i <= tasks@.len(),
            rows@.len() == i,
            forall|j: int| 0 <= j < i ==> (#[trigger] rows@[j])@ == priority_rows(tasks@)[j],
        decreases tasks@.len() - i,
    {
        let mut row: Vec<i128> = Vec::new();
        row.push(-(tasks[i].priority as i128));
        assert(row@ =~= priority_rows(tasks@)[i as int]);
        rows.push(row);
        i += 1;
    }
    assert(row_views(rows@) =~= priority_rows(tasks@));
    stable_order(&rows)
}

/// Picks the candidate that can start earliest among the known resources;
/// the first in the list wins a tie.
fn pick_candidate(
    candidates: &Vec<&str>,
    available: &StringMap<i64>,
    cursor: i64,
    Ghost(st): Ghost<GreedyState>,
) -> (r: Option<(usize, i64)>)
    requires
        st.available.dom() =~= available@.dom(),
        forall|r: Seq<char>| available@.contains_key(r) ==> #[trigger] st.available[r] == available@[r],
        st.cursor == cursor,
    ensures
        match r {
            Some((b, start)) => is_pick(st, slice_texts(candidates@), b as int) && start
                == earliest(st, slice_texts(candidates@)[b as int]),
            None => !has_pick(st, slice_texts(candidates@)),
        },
{
    let ghost cands = slice_texts(candidates@);
    let mut best: Option<(usize, i64)> = None;
    let mut c: usize = 0;
    while c < candidates.len()
        invariant
            c <= candidates@.len(),
            cands == slice_texts(candidates@),
            st.available.dom() =~= available@.dom(),
            forall|r: Seq<char>|
                available@.contains_key(r) ==> #[trigger] st.available[r] == available@[r],
            st.cursor == cursor,
            match best {
                Some((b, start)) => is_pick_among(st, cands, b as int, c as int) && start
                    == earliest(st, cands[b as int]),
                None => forall|j: int| 0 <= j < c ==> !is_known(st, cands, j),
            },
        decreases candidates@.len() - c,
    {
        assert(cands[c as int] == candidates@[c as int]@);
        match available.get(candidates[c]) {
            Some(free) => {
                let start = if *free >= cursor { *free } else { cursor };
                assert(is_known(st, cands, c as int));
                assert(start == earliest(st, cands[c as int]));
                let better = match best {
                    Some((_, s)) => start < s,
                    None => true,
                };
                if better {
                    best = Some((c, start));
                }
            },
            None => {
                assert(!is_known(st, cands, c as int));
            },
        }
        c += 1;
    }
    proof {
        if best.is_none() {
            assert forall|i: int| !is_known(st, cands, i) by {}
        }
    }
    best
}

/// The greedy list schedule of `tasks`, taken in the given order, or
/// `None` when a time of the schedule does not fit in 64 bits.
///
/// Every resource is free at `start_time_ms`. A task starts at its release
/// time, but not before `start_time_ms`. Each of its activities, in
/// sequence, goes to the known candidate resource that can start it
/// earliest, the first in the candidate list on a tie; it starts there as
/// soon as the resource and the task allow and ends after the setup time
/// that the matrices give for the resource's last category plus its
/// processing time. An activity without a known candidate is left out.
pub fn try_schedule_in_order(
    tasks: &[Task],
    resources: &[Resource],
    start_time_ms: i64,
    matrices: &TransitionMatrixCollection,
    order: &Vec<usize>,
) -> (r: Option<Schedule>)
    requires
        forall|x: int| 0 <= x < order@.len() ==> #[trigger] order@[x] < tasks@.len(),
    ensures
        r.is_some() == times_fit(
            greedy_run(tasks@, resources@, *matrices, start_time_ms as int, order@).out,
        ),
        r.is_some() ==> r.unwrap()@ == greedy_run(
            tasks@,
            resources@,
            *matrices,
            start_time_ms as int,
            order@,
        ).out && r.unwrap().violations@.len() == 0,
{
    let ghost start = start_time_ms as int;
    let ghost goal = greedy_run(tasks@, resources@, *matrices, start, order@);
    let mut schedule = Schedule::new();
    let mut available: StringMap<i64> = StringMap::new();
    let mut last_category: StringMap<String> = StringMap::new();

    let mut i: usize = 0;
    while i < resources.len()
        invariant
            i <= resources@.len(),
            forall|r: Seq<char>|
                available@.contains_key(r) <==> exists|j: int|
                    0 <= j < i && #[trigger] resources@[j].id@ == r,
            forall|r: Seq<char>| available@.contains_key(r) ==> #[trigger] available@[r] == start_time_ms,
        decreases resources@.len() - i,
    {
        let ghost before = available@;
        available.insert(resources[i].id.clone(), start_time_ms);
        i += 1;
        proof {
            assert forall|r: Seq<char>| available@.contains_key(r) <==> exists|j: int|
                0 <= j < i && #[trigger] resources@[j].id@ == r by {
                if available@.contains_key(r) {
                    if before.contains_key(r) {
                        let j = choose|j: int| 0 <= j < i - 1 && #[trigger] resources@[j].id@ == r;
                        assert(resources@[j].id@ == r);
                    } else {
                        assert(resources@[i - 1].id@ == r);
                    }
                }
                if exists|j: int| 0 <= j < i && #[trigger] resources@[j].id@ == r {
                    let j = choose|j: int| 0 <= j < i && #[trigger] resources@[j].id@ == r;
                    if j < i - 1 {
                        assert(before.contains_key(r));
                    }
                }
            }
        }
    }

    let ghost mut st = initial_state(resources@, start);
    proof {
        let rids = resource_id_texts(resources@);
        assert forall|r: Seq<char>| st.available.contains_key(r) <==> available@.contains_key(
            r,
        ) by {
            if rids.contains(r) {
                let j = choose|j: int| 0 <= j < rids.len() && rids[j] == r;
                assert(resources@[j].id@ == r);
            }
            if available@.contains_key(r) {
                let j = choose|j: int| 0 <= j < i && #[trigger] resources@[j].id@ == r;
                assert(rids[j] == r);
            }
        }
        assert(st.last_category.dom() =~= last_category@.dom());
        assert(schedule@ =~= st.out);
    }

    let mut task_cursor: i64 = start_time_ms;
    let mut n: usize = 0;
    while n < order.len()
        invariant
            n <= order@.len(),
            start == start_time_ms as int,
            goal == greedy_run(tasks@, resources@, *matrices, start, order@),
            forall|x: int| 0 <= x < order@.len() ==> #[trigger] order@[x] < tasks@.len(),
            st == run_first(tasks@, resources@, *matrices, start, order@, n as int),
            mirrors(
                GreedyState { cursor: task_cursor as int, ..st },
                available@,
                last_category@,
                task_cursor,
                schedule@,
            ),
            schedule.violations@.len() == 0,
        decreases order@.len() - n,
    {
        let t = order[n];
        let task = &tasks[t];
        task_cursor = match task.release_time {
            Some(r) => if r >= start_time_ms { r } else { start_time_ms },
            None => start_time_ms,
        };
        let ghost base = begin_task(st, *task, start);
        proof {
            st = base;
        }
        let mut k: usize = 0;
        while k < task.activities.len()
            invariant
                k <= task.activities@.len(),
                n < order@.len(),
                t == order@[n as int],
                t < tasks@.len(),
                *task == tasks@[t as int],
                start == start_time_ms as int,
                goal == greedy_run(tasks@, resources@, *matrices, start, order@),
                base == begin_task(
                    run_first(tasks@, resources@, *matrices, start, order@, n as int),
                    *task,
                    start,
                ),
                st == place_first(base, tasks@, *matrices, t as int, k as int),
                mirrors(st, available@, last_category@, task_cursor, schedule@),
                schedule.violations@.len() == 0,
            decreases task.activities@.len() - k,
        {
            let activity = &task.activities[k];
            let candidates = activity.candidate_resources();
            let ghost cands = slice_texts(candidates@);
            let ghost next = place(st, tasks@, *matrices, t as int, k as int);
            proof {
                assert(next == place_first(base, tasks@, *matrices, t as int, k as int + 1));
                lemma_place_first_grows(
                    base,
                    tasks@,
                    *matrices,
                    t as int,
                    k as int + 1,
                    task.activities@.len() as int,
                );
                lemma_run_first_grows(
                    tasks@,
                    resources@,
                    *matrices,
                    start,
                    order@,
                    n as int + 1,
                    order@.len() as int,
                );
                assert(grows_from(next, goal));
            }
            match pick_candidate(&candidates, &available, task_cursor, Ghost(st)) {
                Some((b, begin)) => {
                    let resource = candidates[b];
                    proof {
                        lemma_pick_is_unique(st, cands, b as int);
                        assert(cands[b as int] == resource@);
                    }
                    let setup = match last_category.get(resource) {
                        Some(previous) => matrices.get_transition_time(
                            resource,
                            previous.as_str(),
                            task.category.as_str(),
                        ),
                        None => 0,
                    };
                    assert(setup == setup_for(st, *matrices, resource@, task.category@));
                    proof {
                        let j = st.out.len() as int;
                        assert(next.out[j].end_ms == begin + setup + activity.duration.process_ms);
                        assert(goal.out[j] == next.out[j]);
                    }
                    let wide: i128 = begin as i128 + setup as i128 + activity.duration.process_ms as i128;
                    if wide < i64::MIN as i128 || wide > i64::MAX as i128 {
                        return None;
                    }
                    let end = wide as i64;
                    let assignment = Assignment::new(
                        activity.id.as_str(),
                        task.id.as_str(),
                        resource,
                        begin,
                        end,
                    ).with_setup(setup);
                    schedule.add_assignment(assignment);
                    available.insert(resource.to_owned(), end);
                    last_category.insert(resource.to_owned(), task.category.clone());
                    task_cursor = end;
                    proof {
                        st = next;
                        assert(st.available.dom() =~= available@.dom());
                        assert(st.last_category.dom() =~= last_category@.dom());
                        assert(schedule@ =~= st.out);
                    }
                },
                None => {
                    proof {
                        st = next;
                    }
                },
            }
            k += 1;
        }
        n += 1;
    }
    assert(times_fit(goal.out)) by {
        assert(goal.out == schedule@);
    }
    Some(schedule)
}

/// The greedy list schedule of `tasks`, taken in the given order.
pub fn schedule_in_order(
    tasks: &[Task],
    resources: &[Resource],
    start_time_ms: i64,
    matrices: &TransitionMatrixCollection,
    order: &Vec<usize>,
) -> (schedule: Schedule)
    requires
        forall|x: int| 0 <= x < order@.len() ==> #[trigger] order@[x] < tasks@.len(),
        times_fit(greedy_run(tasks@, resources@, *matrices, start_time_ms as int, order@).out),
    ensures
        schedule@ == greedy_run(tasks@, resources@, *matrices, start_time_ms as int, order@).out,
        schedule.violations@.len() == 0,
{
    match try_schedule_in_order(tasks, resources, start_time_ms, matrices, order) {
        Some(schedule) => schedule,
        None => unreached(),
    }
}

/// Input container for scheduling.
#[derive(Debug, Clone)]
pub struct ScheduleRequest {
    /// Tasks to schedule.
    pub tasks: Vec<Task>,
    /// Available resources.
    pub resources: Vec<Resource>,
    /// Start time of the schedule in milliseconds.
    pub start_time_ms: i64,
    /// Sequence-dependent setup times.
    pub transition_matrices: TransitionMatrixCollection,
}

impl ScheduleRequest {
    /// A request that starts at time 0 and has no transition matrices.
    pub fn new(tasks: Vec<Task>, resources: Vec<Resource>) -> (r: Self)
        ensures
            r.tasks == tasks,
            r.resources == resources,
            r.start_time_ms == 0,
            r.transition_matrices.matrices@ == Map::<
                Seq<char>,
                crate::models::constraint::TransitionMatrix,
            >::empty(),
    {
        ScheduleRequest {
            tasks,
            resources,
            start_time_ms: 0,
            transition_matrices: TransitionMatrixCollection::new(),
        }
    }

    /// Sets the start time of the schedule.
    pub fn with_start_time(self, start_time_ms: i64) -> (r: Self)
        ensures
            r == (ScheduleRequest { start_time_ms, ..self }),
    {
        let mut r = self;
        r.start_time_ms = start_time_ms;
        r
    }

    /// Sets the transition matrices.
    pub fn with_transition_matrices(self, matrices: TransitionMatrixCollection) -> (r: Self)
        ensures
            r == (ScheduleRequest { transition_matrices: matrices, ..self }),
    {
        let mut r = self;
        r.transition_matrices = matrices;
        r
    }
}

/// The sort keys by which tasks are taken: the scores of the rule engine at
/// the start of the schedule, or the negated priorities when there is no engine.
pub open spec fn task_rows(engine: Option<RuleEngine>, tasks: Seq<Task>, start: int) -> Seq<Seq<i128>> {
    match engine {
        Some(e) => e.spec_rows(tasks, bare_context(start)),
        None => priority_rows(tasks),
    }
}

/// The order in which the tasks are taken: the stable sort of their keys.
pub open spec fn task_order(engine: Option<RuleEngine>, tasks: Seq<Task>, start: int) -> Seq<usize> {
    stable_sort_of(task_rows(engine, tasks, start))
}

/// Whether the tasks can be scored: the rules of the rule engine, if there
/// is one, can compute the score of every task in 64 bits.
pub open spec fn tasks_scorable(engine: Option<RuleEngine>, tasks: Seq<Task>, start: int) -> bool {
    engine.is_some() ==> engine.unwrap().spec_all_computable(tasks, bare_context(start))
}

/// Whether the tasks can be scored.
fn can_sort_tasks(engine: &Option<RuleEngine>, tasks: &[Task], start_time_ms: i64) -> (b: bool)
    ensures
        b == tasks_scorable(*engine, tasks@, start_time_ms as int),
{
    match engine {
        Some(e) => {
            let context = SchedulingContext::at_time(start_time_ms);
            e.all_computable(tasks, &context)
        },
        None => true,
    }
}

/// The positions of the tasks in the order in which they are scheduled.
fn sort_tasks(engine: &Option<RuleEngine>, tasks: &[Task], start_time_ms: i64) -> (order: Vec<usize>)
    requires
        tasks_scorable(*engine, tasks@, start_time_ms as int),
    ensures
        is_stable_sort(task_rows(*engine, tasks@, start_time_ms as int), order@),
        order@ == task_order(*engine, tasks@, start_time_ms as int),
{
    match engine {
        Some(e) => {
            let context = SchedulingContext::at_time(start_time_ms);
            e.sort_indices(tasks, &context)
        },
        None => priority_order(tasks),
    }
}

/// The greedy list scheduler.
#[derive(Debug, Clone)]
pub struct SimpleScheduler {
    /// Sequence-dependent setup times.
    pub transition_matrices: TransitionMatrixCollection,
    /// The rule engine that orders the tasks; without one, priority does.
    pub rule_engine: Option<RuleEngine>,
}

impl SimpleScheduler {
    /// A scheduler without transition matrices and without rule engine.
    pub fn new() -> (s: Self)
        ensures
            s.rule_engine.is_none(),
            s.transition_matrices.matrices@ == Map::<
                Seq<char>,
                crate::models::constraint::TransitionMatrix,
            >::empty(),
    {
        SimpleScheduler { transition_matrices: TransitionMatrixCollection::new(), rule_engine: None }
    }

    /// Sets the transition matrices.
    pub fn with_transition_matrices(self, matrices: TransitionMatrixCollection) -> (s: Self)
        ensures
            s == (SimpleScheduler { transition_matrices: matrices, ..self }),
    {
        let mut s = self;
        s.transition_matrices = matrices;
        s
    }

    /// Sets the rule engine that orders the tasks.
    pub fn with_rule_engine(self, engine: RuleEngine) -> (s: Self)
        ensures
            s == (SimpleScheduler { rule_engine: Some(engine), ..self }),
    {
        let mut s = self;
        s.rule_engine = Some(engine);
        s
    }

    /// The schedule of the tasks on the resources: the greedy list
    /// schedule of the tasks taken in the stable order of their sort keys.
    pub open spec fn spec_schedule(&self, tasks: Seq<Task>, resources: Seq<Resource>, start: int) -> Seq<
        AssignmentView,
    > {
        greedy_run(
            tasks,
            resources,
            self.transition_matrices,
            start,
            task_order(self.rule_engine, tasks, start),
        ).out
    }

    /// The schedule of a request: as for its tasks and resources, with the
    /// transition matrices of the request.
    pub open spec fn spec_schedule_request(&self, request: ScheduleRequest) -> Seq<AssignmentView> {
        greedy_run(
            request.tasks@,
            request.resources@,
            request.transition_matrices,
            request.start_time_ms as int,
            task_order(self.rule_engine, request.tasks@, request.start_time_ms as int),
        ).out
    }

    /// Schedules the tasks on the resources.
    ///
    /// The tasks are taken in the stable order of their sort keys; the
    /// result is the greedy list schedule for that order.
    pub fn schedule(&self, tasks: &[Task], resources: &[Resource], start_time_ms: i64) -> (schedule:
        Schedule)
        requires
            tasks_scorable(self.rule_engine, tasks@, start_time_ms as int),
            times_fit(self.spec_schedule(tasks@, resources@, start_time_ms as int)),
        ensures
            schedule@ == self.spec_schedule(tasks@, resources@, start_time_ms as int),
            schedule.violations@.len() == 0,
            meets_guarantees(schedule@, tasks@, self.transition_matrices, start_time_ms as int),
    {
        let order = sort_tasks(&self.rule_engine, tasks, start_time_ms);
        proof {
            greedy_schedule_is_feasible(
                tasks@,
                resources@,
                self.transition_matrices,
                start_time_ms as int,
                order@,
            );
        }
        schedule_in_order(tasks, resources, start_time_ms, &self.transition_matrices, &order)
    }

    /// Schedules the tasks on the resources, or returns `None` when a score
    /// of the rule engine or a time of the schedule does not fit in 64 bits.
    pub fn try_schedule(&self, tasks: &[Task], resources: &[Resource], start_time_ms: i64) -> (r:
        Option<Schedule>)
        ensures
            r.is_some() == (tasks_scorable(self.rule_engine, tasks@, start_time_ms as int)
                && times_fit(self.spec_schedule(tasks@, resources@, start_time_ms as int))),
            r.is_some() ==> r.unwrap()@ == self.spec_schedule(
                tasks@,
                resources@,
                start_time_ms as int,
            ) && r.unwrap().violations@.len() == 0,
            r.is_some() ==> meets_guarantees(
                r.unwrap()@,
                tasks@,
                self.transition_matrices,
                start_time_ms as int,
            ),
    {
        if !can_sort_tasks(&self.rule_engine, tasks, start_time_ms) {
            return None;
        }
        let order = sort_tasks(&self.rule_engine, tasks, start_time_ms);
        proof {
            greedy_schedule_is_feasible(
                tasks@,
                resources@,
                self.transition_matrices,
                start_time_ms as int,
                order@,
            );
        }
        try_schedule_in_order(tasks, resources, start_time_ms, &self.transition_matrices, &order)
    }

    /// Schedules a request, or returns `None` when a score of the rule
    /// engine or a time of the schedule does not fit in 64 bits.
    pub fn try_schedule_request(&self, request: &ScheduleRequest) -> (r: Option<Schedule>)
        ensures
            r.is_some() == (tasks_scorable(
                self.rule_engine,
                request.tasks@,
                request.start_time_ms as int,
            ) && times_fit(self.spec_schedule_request(*request))),
            r.is_some() ==> r.unwrap()@ == self.spec_schedule_request(*request)
                && r.unwrap().violations@.len() == 0,
            r.is_some() ==> meets_guarantees(
                r.unwrap()@,
                request.tasks@,
                request.transition_matrices,
                request.start_time_ms as int,
            ),
    {
        if !can_sort_tasks(&self.rule_engine, request.tasks.as_slice(), request.start_time_ms) {
            return None;
        }
        let order = sort_tasks(&self.rule_engine, request.tasks.as_slice(), request.start_time_ms);
        proof {
            greedy_schedule_is_feasible(
                request.tasks@,
                request.resources@,
                request.transition_matrices,
                request.start_time_ms as int,
                order@,
            );
        }
        try_schedule_in_order(
            request.tasks.as_slice(),
            request.resources.as_slice(),
            request.start_time_ms,
            &request.transition_matrices,
            &order,
        )
    }

    /// Schedules a request, with the transition matrices of the request.
    pub fn schedule_request(&self, request: &ScheduleRequest) -> (schedule: Schedule)
        requires
            tasks_scorable(self.rule_engine, request.tasks@, request.start_time_ms as int),
            times_fit(self.spec_schedule_request(*request)),
        ensures
            schedule@ == self.spec_schedule_request(*request),
            schedule.violations@.len() == 0,
            meets_guarantees(
                schedule@,
                request.tasks@,
                request.transition_matrices,
                request.start_time_ms as int,
            ),
    {
        let order = sort_tasks(&self.rule_engine, request.tasks.as_slice(), request.start_time_ms);
        proof {
            greedy_schedule_is_feasible(
                request.tasks@,
                request.resources@,
                request.transition_matrices,
                request.start_time_ms as int,
                order@,
            );
        }
        schedule_in_order(
            request.tasks.as_slice(),
            request.resources.as_slice(),
            request.start_time_ms,
            &request.transition_matrices,
            &order,
        )
    }
}

impl Default for SimpleScheduler {
    /// A scheduler without transition matrices and without rule engine.
    fn default() -> (s: Self)
        ensures
            s.rule_engine.is_none(),
    {
        SimpleScheduler::new()
    }
}

} // verus!
