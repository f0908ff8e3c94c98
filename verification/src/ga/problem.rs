//! The scheduling problem as the genetic algorithm sees it: a flat list of
//! activities, and the decoder that turns a chromosome into a schedule.

use vstd::prelude::*;
use vstd::string::StrSliceExecFns;
use rand::rngs::SmallRng;
use crate::collections::{count_text, slice_texts, texts, StringMap};
use crate::ga::chromosome::{key_views, loads_fit, mav_feasible, Fitness, ScheduleChromosome};
use crate::ga::crossover::{merged_children, pox_crossover};
use crate::ga::mutation::{
    insert_mutated, insert_mutation, mav_mutated, mav_mutation, swap_mutated, swap_mutation,
};
use crate::models::constraint::TransitionMatrixCollection;
use crate::models::resource::Resource;
use crate::models::schedule::{for_task, latest_end, Assignment, AssignmentView, Schedule};
use crate::models::task::Task;
use crate::scheduler::model::times_fit;
use crate::validation::resource_id_texts;

verus! {

/// What an activity descriptor says.
pub struct ActivityInfoView {
    pub task_id: Seq<char>,
    pub sequence: int,
    pub process_ms: int,
    pub candidates: Seq<Seq<char>>,
}

/// Compact activity descriptor for the genetic encoding.
#[derive(Debug, Clone)]
pub struct ActivityInfo {
    /// Identifier of the task the activity belongs to.
    pub task_id: String,
    /// Position of the activity within its task, counted from 1.
    pub sequence: i32,
    /// Processing time in milliseconds.
    pub process_ms: i64,
    /// Identifiers of the candidate resources.
    pub candidates: Vec<String>,
}

impl View for ActivityInfo {
    type V = ActivityInfoView;

    /// What the value says.
    open spec fn view(&self) -> ActivityInfoView {
        ActivityInfoView {
            task_id: self.task_id@,
            sequence: self.sequence as int,
            process_ms: self.process_ms as int,
            candidates: texts(self.candidates@),
        }
    }
}

/// The views of a list of activity descriptors.
pub open spec fn info_views(infos: Seq<ActivityInfo>) -> Seq<ActivityInfoView> {
    Seq::new(infos.len(), |i: int| infos[i]@)
}

/// The task identifier of every activity descriptor.
pub open spec fn info_task_ids(infos: Seq<ActivityInfoView>) -> Seq<Seq<char>> {
    Seq::new(infos.len(), |i: int| infos[i].task_id)
}

/// The descriptors of the activities of one task.
pub open spec fn task_infos(task: Task) -> Seq<ActivityInfoView> {
    Seq::new(
        task.activities@.len(),
        |k: int|
            ActivityInfoView {
                task_id: task.id@,
                sequence: k + 1,
                process_ms: task.activities@[k].duration.process_ms as int,
                candidates: task.activities@[k].spec_candidates(),
            },
    )
}

/// The descriptors of the activities of all tasks, task by task.
pub open spec fn all_infos(tasks: Seq<Task>) -> Seq<ActivityInfoView>
    decreases tasks.len(),
{
    if tasks.len() == 0 {
        Seq::empty()
    } else {
        all_infos(tasks.drop_last()) + task_infos(tasks.last())
    }
}

impl ActivityInfo {
    /// The activity descriptors of the tasks: one per activity, task by
    /// task, with the activities of a task numbered from 1.
    pub fn from_tasks(tasks: &[Task]) -> (infos: Vec<ActivityInfo>)
        requires
            forall|t: int| 0 <= t < tasks@.len() ==> (#[trigger] tasks@[t]).activities@.len() <= i32::MAX,
        ensures
            info_views(infos@) == all_infos(tasks@),
    {
        let mut infos: Vec<ActivityInfo> = Vec::new();
        let mut t: usize = 0;
        assert(tasks@.take(0) =~= Seq::<Task>::empty());
        assert(info_views(infos@) =~= Seq::<ActivityInfoView>::empty());
        while t < tasks.len()
            invariant
                t <= tasks@.len(),
                forall|u: int|
                    0 <= u < tasks@.len() ==> (#[trigger] tasks@[u]).activities@.len() <= i32::MAX,
                info_views(infos@) == all_infos(tasks@.take(t as int)),
            decreases tasks@.len() - t,
        {
            let task = &tasks[t];
            let ghost base = info_views(infos@);
            let mut k: usize = 0;
            assert(info_views(infos@) =~= base + task_infos(*task).take(0));
            while k < task.activities.len()
                invariant
                    k <= task.activities@.len(),
                    task.activities@.len() <= i32::MAX,
                    info_views(infos@) == base + task_infos(*task).take(k as int),
                decreases task.activities@.len() - k,
            {
                let activity = &task.activities[k];
                let names = activity.candidate_resources();
                let mut candidates: Vec<String> = Vec::new();
                let mut c: usize = 0;
                while c < names.len()
                    invariant
                        c <= names@.len(),
                        candidates@.len() == c,
                        forall|j: int| 0 <= j < c ==> (#[trigger] candidates@[j])@ == names@[j]@,
                    decreases names@.len() - c,
                {
                    candidates.push(names[c].to_owned());
                    c += 1;
                }
                assert(texts(candidates@) =~= slice_texts(names@));
                let ghost before = info_views(infos@);
                let info = ActivityInfo {
                    task_id: task.id.clone(),
                    sequence: (k + 1) as i32,
                    process_ms: activity.duration.process_ms,
                    candidates,
                };
                infos.push(info);
                k += 1;
                proof {
                    assert(info_views(infos@) =~= before.push(info@));
                    assert(task_infos(*task).take(k as int) =~= task_infos(*task).take(
                        k as int - 1,
                    ).push(info@));
                }
            }
            proof {
                let next = tasks@.take(t as int + 1);
                assert(next.drop_last() =~= tasks@.take(t as int));
                assert(next.last() == *task);
                assert(task_infos(*task).take(k as int) =~= task_infos(*task));
            }
            t += 1;
        }
        assert(tasks@.take(t as int) =~= tasks@);
        infos
    }
}

/// State of the decoder between two entries of the operation sequence.
pub struct DecodeState {
    /// For every resource, the time at which it gets free.
    pub resource_ready: Map<Seq<char>, int>,
    /// For every task that has an assignment, the time at which its last one ends.
    pub task_ready: Map<Seq<char>, int>,
    /// For every resource that has worked, the category it last worked on.
    pub last_category: Map<Seq<char>, Seq<char>>,
    /// The assignments made so far.
    pub out: Seq<AssignmentView>,
}

/// What the decoder knows of the problem.
pub struct ProblemView {
    pub activities: Seq<ActivityInfoView>,
    pub resources: Seq<Seq<char>>,
    pub task_categories: Map<Seq<char>, Seq<char>>,
    pub transition_matrices: TransitionMatrixCollection,
    pub deadlines: Map<Seq<char>, i64>,
    pub release_times: Map<Seq<char>, i64>,
}

/// Activity `i` is the first with the given task and sequence number.
pub open spec fn is_activity_position(
    activities: Seq<ActivityInfoView>,
    task_id: Seq<char>,
    sequence: int,
    i: int,
) -> bool {
    &&& 0 <= i < activities.len()
    &&& activities[i].task_id == task_id
    &&& activities[i].sequence == sequence
    &&& forall|j: int|
        0 <= j < i ==> !((#[trigger] activities[j]).task_id == task_id && activities[j].sequence
            == sequence)
}

/// The value that a map gives for a key, 0 for a key it does not know.
pub open spec fn time_or_zero(m: Map<Seq<char>, int>, key: Seq<char>) -> int {
    if m.contains_key(key) {
        m[key]
    } else {
        0
    }
}

/// The largest of three numbers.
pub open spec fn latest_of(a: int, b: int, c: int) -> int {
    let ab = if a >= b { a } else { b };
    if ab >= c {
        ab
    } else {
        c
    }
}

/// The state before the first entry: every resource is free at time 0.
pub open spec fn decode_start(problem: ProblemView) -> DecodeState {
    DecodeState {
        resource_ready: Map::new(|r: Seq<char>| problem.resources.contains(r), |r: Seq<char>| 0int),
        task_ready: Map::empty(),
        last_category: Map::empty(),
        out: Seq::empty(),
    }
}

/// The state after activity `i` has been placed on resource `r`.
pub open spec fn decode_place(st: DecodeState, problem: ProblemView, i: int, r: Seq<char>) -> DecodeState {
    let a = problem.activities[i];
    let release = if problem.release_times.contains_key(a.task_id) {
        problem.release_times[a.task_id] as int
    } else {
        0
    };
    let start = latest_of(
        time_or_zero(st.resource_ready, r),
        time_or_zero(st.task_ready, a.task_id),
        release,
    );
    let category = if problem.task_categories.contains_key(a.task_id) {
        problem.task_categories[a.task_id]
    } else {
        Seq::empty()
    };
    let setup = if st.last_category.contains_key(r) {
        problem.transition_matrices.spec_get_transition_time(r, st.last_category[r], category) as int
    } else {
        0
    };
    let end = start + setup + a.process_ms;
    DecodeState {
        resource_ready: st.resource_ready.insert(r, end),
        task_ready: st.task_ready.insert(a.task_id, end),
        last_category: if problem.task_categories.contains_key(a.task_id) {
            st.last_category.insert(r, category)
        } else {
            st.last_category
        },
        out: st.out.push(
            AssignmentView {
                activity_id: a.task_id,
                task_id: a.task_id,
                resource_id: r,
                start_ms: start,
                end_ms: end,
                setup_ms: setup,
            },
        ),
    }
}

/// The state after one entry of the operation sequence. The entry is
/// passed over when no activity has its task and number, when the machine
/// assignment has no entry for the activity, or an empty one.
pub open spec fn decode_step(
    st: DecodeState,
    problem: ProblemView,
    mav: Seq<Seq<char>>,
    entry: (Seq<char>, int),
) -> DecodeState {
    if exists|i: int| is_activity_position(problem.activities, entry.0, entry.1, i) {
        let i = choose|i: int| is_activity_position(problem.activities, entry.0, entry.1, i);
        if i < mav.len() && mav[i].len() > 0 {
            decode_place(st, problem, i, mav[i])
        } else {
            st
        }
    } else {
        st
    }
}

/// The state after the first `n` entries of the operation sequence.
pub open spec fn decode_first(
    problem: ProblemView,
    mav: Seq<Seq<char>>,
    entries: Seq<(Seq<char>, int)>,
    n: int,
) -> DecodeState
    decreases n,
{
    if n <= 0 {
        decode_start(problem)
    } else {
        decode_step(decode_first(problem, mav, entries, n - 1), problem, mav, entries[n - 1])
    }
}

/// Decoding more entries keeps the assignments made before.
pub proof fn lemma_decode_grows(
    problem: ProblemView,
    mav: Seq<Seq<char>>,
    entries: Seq<(Seq<char>, int)>,
    m: int,
    n: int,
)
    requires
        0 <= m <= n,
    ensures
        decode_first(problem, mav, entries, m).out.len() <= decode_first(
            problem,
            mav,
            entries,
            n,
        ).out.len(),
        forall|j: int|
            0 <= j < decode_first(problem, mav, entries, m).out.len() ==> #[trigger] decode_first(
                problem,
                mav,
                entries,
                n,
            ).out[j] == decode_first(problem, mav, entries, m).out[j],
    decreases n - m,
{
    if m < n {
        lemma_decode_grows(problem, mav, entries, m, n - 1);
    }
}

/// Sum, over the first `n` deadlines, of how far the completion of the
/// task lies behind its deadline; a task without assignment counts as
/// completed at time 0.
pub open spec fn tardiness_sum(out: Seq<AssignmentView>, deadlines: StringMap<i64>, n: int) -> int
    decreases n,
{
    if n <= 0 {
        0
    } else {
        let task = deadlines.keys()[n - 1];
        let done = match latest_end(for_task(out, task)) {
            Some(c) => c,
            None => 0,
        };
        let late = done - deadlines.value_at_spec(n - 1);
        tardiness_sum(out, deadlines, n - 1) + if late > 0 { late } else { 0 }
    }
}

/// The tardiness sums never fall.
pub proof fn lemma_tardiness_sum_grows(out: Seq<AssignmentView>, deadlines: StringMap<i64>, m: int, n: int)
    requires
        0 <= m <= n,
    ensures
        0 <= tardiness_sum(out, deadlines, m) <= tardiness_sum(out, deadlines, n),
    decreases n,
{
    if m < n {
        lemma_tardiness_sum_grows(out, deadlines, m, n - 1);
    } else if n > 0 {
        lemma_tardiness_sum_grows(out, deadlines, m - 1, n - 1);
    }
}

/// The category of every task; of two tasks with the same identifier the
/// later one counts.
pub open spec fn categories_of(tasks: Seq<Task>) -> Map<Seq<char>, Seq<char>>
    decreases tasks.len(),
{
    if tasks.len() == 0 {
        Map::empty()
    } else {
        categories_of(tasks.drop_last()).insert(tasks.last().id@, tasks.last().category@)
    }
}

/// The deadline of every task that has one; of two such tasks with the
/// same identifier the later one counts.
pub open spec fn deadlines_of(tasks: Seq<Task>) -> Map<Seq<char>, i64>
    decreases tasks.len(),
{
    if tasks.len() == 0 {
        Map::empty()
    } else {
        match tasks.last().deadline {
            Some(d) => deadlines_of(tasks.drop_last()).insert(tasks.last().id@, d),
            None => deadlines_of(tasks.drop_last()),
        }
    }
}

/// The release time of every task that has one; of two such tasks with
/// the same identifier the later one counts.
pub open spec fn releases_of(tasks: Seq<Task>) -> Map<Seq<char>, i64>
    decreases tasks.len(),
{
    if tasks.len() == 0 {
        Map::empty()
    } else {
        match tasks.last().release_time {
            Some(r) => releases_of(tasks.drop_last()).insert(tasks.last().id@, r),
            None => releases_of(tasks.drop_last()),
        }
    }
}

/// The scheduling problem of a genetic run.
#[derive(Debug, Clone)]
pub struct SchedulingGaProblem {
    /// The activities, task by task.
    pub activities: Vec<ActivityInfo>,
    /// The available resources.
    pub resources: Vec<Resource>,
    /// The category of every task.
    pub task_categories: StringMap<String>,
    /// Sequence-dependent setup times.
    pub transition_matrices: TransitionMatrixCollection,
    /// The deadline of every task that has one.
    pub deadlines: StringMap<i64>,
    /// The release time of every task that has one.
    pub release_times: StringMap<i64>,
}

/// The texts of the values of a map.
pub open spec fn text_values(m: Map<Seq<char>, String>) -> Map<Seq<char>, Seq<char>> {
    Map::new(|k: Seq<char>| m.contains_key(k), |k: Seq<char>| m[k]@)
}

impl View for SchedulingGaProblem {
    type V = ProblemView;

    /// What the value says.
    open spec fn view(&self) -> ProblemView {
        ProblemView {
            activities: info_views(self.activities@),
            resources: resource_id_texts(self.resources@),
            task_categories: text_values(self.task_categories@),
            transition_matrices: self.transition_matrices,
            deadlines: self.deadlines@,
            release_times: self.release_times@,
        }
    }
}

impl SchedulingGaProblem {
    /// The schedule that a chromosome stands for.
    pub open spec fn spec_decode(&self, chromosome: ScheduleChromosome) -> Seq<AssignmentView> {
        decode_first(
            self@,
            chromosome@.mav,
            chromosome.spec_decode_osv(),
            chromosome.osv@.len() as int,
        ).out
    }

    /// The problem of scheduling the tasks on the resources.
    pub fn new(tasks: &[Task], resources: &[Resource]) -> (p: Self)
        requires
            forall|t: int| 0 <= t < tasks@.len() ==> (#[trigger] tasks@[t]).activities@.len() <= i32::MAX,
        ensures
            p@.activities == all_infos(tasks@),
            p@.resources == resource_id_texts(resources@),
            p@.task_categories == categories_of(tasks@),
            p@.deadlines == deadlines_of(tasks@),
            p@.release_times == releases_of(tasks@),
            p.transition_matrices.matrices@ == Map::<
                Seq<char>,
                crate::models::constraint::TransitionMatrix,
            >::empty(),
    {
        let activities = ActivityInfo::from_tasks(tasks);
        let mut task_categories: StringMap<String> = StringMap::new();
        let mut deadlines: StringMap<i64> = StringMap::new();
        let mut release_times: StringMap<i64> = StringMap::new();
        let mut t: usize = 0;
        assert(tasks@.take(0) =~= Seq::<Task>::empty());
        assert(text_values(task_categories@) =~= categories_of(tasks@.take(0)));
        while t < tasks.len()
            invariant
                t <= tasks@.len(),
                text_values(task_categories@) == categories_of(tasks@.take(t as int)),
                deadlines@ == deadlines_of(tasks@.take(t as int)),
                release_times@ == releases_of(tasks@.take(t as int)),
            decreases tasks@.len() - t,
        {
            let task = &tasks[t];
            proof {
                let next = tasks@.take(t as int + 1);
                assert(next.drop_last() =~= tasks@.take(t as int));
                assert(next.last() == *task);
            }
            let ghost before = text_values(task_categories@);
            task_categories.insert(task.id.clone(), task.category.clone());
            assert(text_values(task_categories@) =~= before.insert(task.id@, task.category@));
            match task.deadline {
                Some(d) => {
                    deadlines.insert(task.id.clone(), d);
                },
                None => {},
            }
            match task.release_time {
                Some(r) => {
                    release_times.insert(task.id.clone(), r);
                },
                None => {},
            }
            t += 1;
        }
        assert(tasks@.take(t as int) =~= tasks@);
        let mut copy: Vec<Resource> = Vec::new();
        let mut r: usize = 0;
        while r < resources.len()
            invariant
                r <= resources@.len(),
                copy@.len() == r,
                forall|j: int| 0 <= j < r ==> (#[trigger] copy@[j]).id@ == resources@[j].id@,
            decreases resources@.len() - r,
        {
            copy.push(resources[r].clone());
            r += 1;
        }
        assert(resource_id_texts(copy@) =~= resource_id_texts(resources@));
        SchedulingGaProblem {
            activities,
            resources: copy,
            task_categories,
            transition_matrices: TransitionMatrixCollection::new(),
            deadlines,
            release_times,
        }
    }

    /// Sets the transition matrices.
    pub fn with_transition_matrices(self, matrices: TransitionMatrixCollection) -> (p: Self)
        ensures
            p == (SchedulingGaProblem { transition_matrices: matrices, ..self }),
    {
        let mut p = self;
        p.transition_matrices = matrices;
        p
    }

    /// The first activity with the given task and sequence number.
    fn find_activity(&self, task_id: &String, sequence: i32) -> (r: Option<usize>)
        ensures
            match r {
                Some(i) => is_activity_position(self@.activities, task_id@, sequence as int, i as int),
                None => forall|i: int|
                    !is_activity_position(self@.activities, task_id@, sequence as int, i),
            },
    {
        let ghost acts = info_views(self.activities@);
        let mut i: usize = 0;
        while i < self.activities.len()
            invariant
                i <= self.activities@.len(),
                acts == info_views(self.activities@),
                forall|j: int|
                    0 <= j < i ==> !((#[trigger] acts[j]).task_id == task_id@ && acts[j].sequence
                        == sequence),
            decreases self.activities@.len() - i,
        {
            assert(acts[i as int] == self.activities@[i as int]@);
            if self.activities[i].task_id == *task_id && self.activities[i].sequence == sequence {
                return Some(i);
            }
            i += 1;
        }
        proof {
            assert forall|k: int| !is_activity_position(acts, task_id@, sequence as int, k) by {
                if is_activity_position(acts, task_id@, sequence as int, k) {
                    assert(!(acts[k].task_id == task_id@ && acts[k].sequence == sequence));
                }
            }
        }
        None
    }

    /// Decodes a chromosome into a schedule, or returns `None` when a time
    /// of the schedule does not fit in 64 bits.
    ///
    /// The operation sequence is read from left to right. Every entry
    /// stands for an activity; the activity starts on the resource that the
    /// machine assignment gives it as soon as the resource, the task and
    /// the release time of the task allow, and ends after the setup time
    /// that the matrices give plus its processing time.
    pub fn try_decode(&self, chromosome: &ScheduleChromosome) -> (r: Option<Schedule>)
        ensures
            r.is_some() == times_fit(self.spec_decode(*chromosome)),
            r.is_some() ==> r.unwrap()@ == self.spec_decode(*chromosome)
                && r.unwrap().violations@.len() == 0,
    {
        let ghost problem = self@;
        let ghost mav = chromosome@.mav;
        let ghost entries = chromosome.spec_decode_osv();
        let ghost total = chromosome.osv@.len() as int;
        let ghost goal = decode_first(problem, mav, entries, total);
        let mut schedule = Schedule::new();
        let mut resource_ready: StringMap<i64> = StringMap::new();
        let mut task_ready: StringMap<i64> = StringMap::new();
        let mut last_category: StringMap<String> = StringMap::new();

        let mut i: usize = 0;
        while i < self.resources.len()
            invariant
                i <= self.resources@.len(),
                forall|r: Seq<char>|
                    resource_ready@.contains_key(r) <==> exists|j: int|
                        0 <= j < i && #[trigger] self.resources@[j].id@ == r,
                forall|r: Seq<char>| resource_ready@.contains_key(r) ==> #[trigger] resource_ready@[r] == 0,
            decreases self.resources@.len() - i,
        {
            let ghost before = resource_ready@;
            resource_ready.insert(self.resources[i].id.clone(), 0);
            i += 1;
            proof {
                assert forall|r: Seq<char>| resource_ready@.contains_key(r) <==> exists|j: int|
                    0 <= j < i && #[trigger] self.resources@[j].id@ == r by {
                    if resource_ready@.contains_key(r) {
                        if before.contains_key(r) {
                            let j = choose|j: int|
                                0 <= j < i - 1 && #[trigger] self.resources@[j].id@ == r;
                            assert(self.resources@[j].id@ == r);
                        } else {
                            assert(self.resources@[i - 1].id@ == r);
                        }
                    }
                    if exists|j: int| 0 <= j < i && #[trigger] self.resources@[j].id@ == r {
                        let j = choose|j: int| 0 <= j < i && #[trigger] self.resources@[j].id@ == r;
                        if j < i - 1 {
                            assert(before.contains_key(r));
                        }
                    }
                }
            }
        }

        let ghost mut st = decode_start(problem);
        proof {
            let rids = problem.resources;
            assert forall|r: Seq<char>| st.resource_ready.contains_key(r)
                <==> resource_ready@.contains_key(r) by {
                if rids.contains(r) {
                    let j = choose|j: int| 0 <= j < rids.len() && rids[j] == r;
                    assert(self.resources@[j].id@ == r);
                }
                if resource_ready@.contains_key(r) {
                    let j = choose|j: int| 0 <= j < i && #[trigger] self.resources@[j].id@ == r;
                    assert(rids[j] == r);
                }
            }
            assert(st.task_ready.dom() =~= task_ready@.dom());
            assert(st.last_category.dom() =~= last_category@.dom());
            assert(schedule@ =~= st.out);
        }

        let mut n: usize = 0;
        while n < chromosome.osv.len()
            invariant
                n <= chromosome.osv@.len(),
                chromosome.osv@.len() == total,
                problem == self@,
                mav == chromosome@.mav,
                entries == chromosome.spec_decode_osv(),
                goal == decode_first(problem, mav, entries, total),
                st == decode_first(problem, mav, entries, n as int),
                st.resource_ready.dom() =~= resource_ready@.dom(),
                forall|r: Seq<char>|
                    resource_ready@.contains_key(r) ==> #[trigger] st.resource_ready[r]
                        == resource_ready@[r],
                st.task_ready.dom() =~= task_ready@.dom(),
                forall|r: Seq<char>|
                    task_ready@.contains_key(r) ==> #[trigger] st.task_ready[r] == task_ready@[r],
                st.last_category.dom() =~= last_category@.dom(),
                forall|r: Seq<char>|
                    last_category@.contains_key(r) ==> #[trigger] st.last_category[r]
                        == last_category@[r]@,
                st.out == schedule@,
                schedule.violations@.len() == 0,
            decreases chromosome.osv@.len() - n,
        {
            let task_id = &chromosome.osv[n];
            let occurrence = count_text(&chromosome.osv, n + 1, task_id);
            let ghost entry = entries[n as int];
            assert(entry == (task_id@, occurrence as int));
            let ghost next = decode_step(st, problem, mav, entry);
            proof {
                assert(next == decode_first(problem, mav, entries, n as int + 1));
                lemma_decode_grows(problem, mav, entries, n as int + 1, total);
            }
            let located = if occurrence <= i32::MAX as usize {
                self.find_activity(task_id, occurrence as i32)
            } else {
                proof {
                    assert forall|i: int|
                        !is_activity_position(problem.activities, entry.0, entry.1, i) by {
                        if is_activity_position(problem.activities, entry.0, entry.1, i) {
                            assert(problem.activities[i] == self.activities@[i]@);
                        }
                    }
                }
                None
            };
            match located {
                Some(idx) => {
                    proof {
                        let c = choose|c: int|
                            is_activity_position(problem.activities, entry.0, entry.1, c);
                        assert(is_activity_position(problem.activities, entry.0, entry.1, idx as int));
                        if c < idx {
                            assert(!(problem.activities[c].task_id == entry.0
                                && problem.activities[c].sequence == entry.1));
                        } else if idx < c {
                            assert(!(problem.activities[idx as int].task_id == entry.0
                                && problem.activities[idx as int].sequence == entry.1));
                        }
                        assert(c == idx);
                    }
                    let act = &self.activities[idx];
                    assert(problem.activities[idx as int] == act@);
                    if idx < chromosome.mav.len() && chromosome.mav[idx].as_str().unicode_len() > 0 {
                        let resource = &chromosome.mav[idx];
                        assert(mav[idx as int] == resource@);
                        let ready: i64 = match resource_ready.get(resource.as_str()) {
                            Some(v) => *v,
                            None => 0,
                        };
                        let free: i64 = match task_ready.get(task_id.as_str()) {
                            Some(v) => *v,
                            None => 0,
                        };
                        let release: i64 = match self.release_times.get(task_id.as_str()) {
                            Some(v) => *v,
                            None => 0,
                        };
                        let first = if ready >= free { ready } else { free };
                        let begin = if first >= release { first } else { release };
                        let known = self.task_categories.get(task_id.as_str());
                        let setup: i64 = match last_category.get(resource.as_str()) {
                            Some(previous) => {
                                let category: &str = match known {
                                    Some(c) => c.as_str(),
                                    None => "",
                                };
                                proof {
                                    reveal_strlit("");
                                    assert(""@ =~= Seq::<char>::empty());
                                }
                                self.transition_matrices.get_transition_time(
                                    resource.as_str(),
                                    previous.as_str(),
                                    category,
                                )
                            },
                            None => 0,
                        };
                        proof {
                            let j = st.out.len() as int;
                            assert(next == decode_place(st, problem, idx as int, resource@));
                            assert(next.out[j].start_ms == begin);
                            assert(next.out[j].setup_ms == setup);
                            assert(goal.out[j] == next.out[j]);
                        }
                        let wide: i128 = begin as i128 + setup as i128 + act.process_ms as i128;
                        if wide < i64::MIN as i128 || wide > i64::MAX as i128 {
                            return None;
                        }
                        let end = wide as i64;
                        let assignment = Assignment::new(
                            act.task_id.as_str(),
                            task_id.as_str(),
                            resource.as_str(),
                            begin,
                            end,
                        ).with_setup(setup);
                        schedule.add_assignment(assignment);
                        resource_ready.insert(resource.clone(), end);
                        task_ready.insert(task_id.clone(), end);
                        match known {
                            Some(c) => {
                                last_category.insert(resource.clone(), c.clone());
                            },
                            None => {},
                        }
                        proof {
                            st = next;
                            assert(st.resource_ready.dom() =~= resource_ready@.dom());
                            assert(st.task_ready.dom() =~= task_ready@.dom());
                            assert(st.last_category.dom() =~= last_category@.dom());
                            assert(schedule@ =~= st.out);
                        }
                    } else {
                        proof {
                            st = next;
                        }
                    }
                },
                None => {
                    proof {
                        st = next;
                    }
                },
            }
            n += 1;
        }
        assert(times_fit(goal.out)) by {
            assert(goal.out == schedule@);
        }
        Some(schedule)
    }

    /// Decodes a chromosome into a schedule.
    pub fn decode(&self, chromosome: &ScheduleChromosome) -> (schedule: Schedule)
        requires
            times_fit(self.spec_decode(*chromosome)),
        ensures
            schedule@ == self.spec_decode(*chromosome),
            schedule.violations@.len() == 0,
    {
        match self.try_decode(chromosome) {
            Some(schedule) => schedule,
            None => unreached(),
        }
    }

    /// The fitness of the schedule that a chromosome stands for: its
    /// makespan and the total tardiness of the tasks with a deadline.
    pub open spec fn spec_evaluate(&self, individual: ScheduleChromosome) -> Fitness {
        Fitness::Scored {
            makespan_ms: match latest_end(self.spec_decode(individual)) {
                Some(m) => m as i64,
                None => 0,
            },
            total_tardiness_ms: self.spec_total_tardiness(self.spec_decode(individual)) as i64,
        }
    }

    /// Total tardiness of the tasks with a deadline under a schedule.
    pub open spec fn spec_total_tardiness(&self, out: Seq<AssignmentView>) -> int {
        tardiness_sum(out, self.deadlines, self.deadlines.keys().len() as int)
    }

    /// Whether the fitness of a chromosome can be computed in 64 bits.
    pub open spec fn evaluable(&self, individual: ScheduleChromosome) -> bool {
        times_fit(self.spec_decode(individual)) && self.spec_total_tardiness(
            self.spec_decode(individual),
        ) <= i64::MAX
    }

    /// Evaluates a chromosome, or returns `None` when its fitness cannot
    /// be computed in 64 bits.
    pub fn try_evaluate(&self, individual: &ScheduleChromosome) -> (r: Option<Fitness>)
        ensures
            r.is_some() == self.evaluable(*individual),
            r.is_some() ==> r.unwrap() == self.spec_evaluate(*individual),
    {
        match self.try_decode(individual) {
            Some(schedule) => match self.try_compute_fitness(&schedule) {
                Some((makespan_ms, total_tardiness_ms)) => Some(
                    Fitness::Scored { makespan_ms, total_tardiness_ms },
                ),
                None => None,
            },
            None => None,
        }
    }

    /// Evaluates a chromosome: the makespan of its schedule and the total
    /// tardiness of the tasks with a deadline.
    pub fn evaluate(&self, individual: &ScheduleChromosome) -> (fitness: Fitness)
        requires
            self.evaluable(*individual),
        ensures
            fitness == self.spec_evaluate(*individual),
    {
        match self.try_evaluate(individual) {
            Some(fitness) => fitness,
            None => unreached(),
        }
    }

    /// The two terms of the fitness of a schedule: its makespan, and the
    /// total tardiness of the tasks with a deadline; `None` when the total
    /// does not fit in 64 bits.
    pub fn try_compute_fitness(&self, schedule: &Schedule) -> (r: Option<(i64, i64)>)
        ensures
            r.is_some() == (self.spec_total_tardiness(schedule@) <= i64::MAX),
            r.is_some() ==> r.unwrap().0 == schedule.spec_makespan_ms() && r.unwrap().1
                == self.spec_total_tardiness(schedule@),
    {
        let makespan = schedule.makespan_ms();
        let count = self.deadlines.len();
        let mut total: i64 = 0;
        let mut k: usize = 0;
        proof {
            lemma_tardiness_sum_grows(schedule@, self.deadlines, 0, 0);
        }
        while k < count
            invariant
                k <= count,
                count == self.deadlines.keys().len(),
                total == tardiness_sum(schedule@, self.deadlines, k as int),
                total >= 0,
            decreases count - k,
        {
            let task_id = self.deadlines.key_at(k);
            let deadline = *self.deadlines.value_at(k);
            proof {
                lemma_tardiness_sum_grows(schedule@, self.deadlines, k as int + 1, count as int);
                lemma_tardiness_sum_grows(schedule@, self.deadlines, k as int, k as int + 1);
            }
            let done: i64 = match schedule.task_completion_time(task_id.as_str()) {
                Some(c) => c,
                None => 0,
            };
            let late: i128 = done as i128 - deadline as i128;
            if late > 0 {
                let wide: i128 = total as i128 + late;
                if wide > i64::MAX as i128 {
                    return None;
                }
                total = wide as i64;
            }
            k += 1;
        }
        Some((makespan, total))
    }

    /// The two terms of the fitness of a schedule: its makespan, and the
    /// total tardiness of the tasks with a deadline.
    pub fn compute_fitness(&self, schedule: &Schedule) -> (terms: (i64, i64))
        requires
            self.spec_total_tardiness(schedule@) <= i64::MAX,
        ensures
            terms.0 == schedule.spec_makespan_ms(),
            terms.1 == self.spec_total_tardiness(schedule@),
    {
        match self.try_compute_fitness(schedule) {
            Some(terms) => terms,
            None => unreached(),
        }
    }

    /// A new individual, or `None` when a load-balanced one is asked for
    /// and a load does not fit in 64 bits: a random one, or a load-balanced
    /// one when `balanced` is set.
    pub fn try_create_individual(&self, balanced: bool, rng: &mut SmallRng) -> (r: Option<
        ScheduleChromosome,
    >)
        ensures
            r.is_some() == (balanced ==> loads_fit(info_views(self.activities@))),
            r.is_some() ==> r.unwrap().spec_is_valid(info_views(self.activities@)),
            r.is_some() ==> r.unwrap().fitness == Fitness::Unevaluated,
            r.is_some() && balanced ==> texts(r.unwrap().mav@) == crate::ga::chromosome::balanced(
                info_views(self.activities@),
                self.activities@.len() as int,
            ).mav,
    {
        if balanced {
            let mut capacity: StringMap<i64> = StringMap::new();
            let mut r: usize = 0;
            while r < self.resources.len()
                invariant
                    r <= self.resources@.len(),
                decreases self.resources@.len() - r,
            {
                capacity.insert(self.resources[r].id.clone(), self.resources[r].capacity as i64);
                r += 1;
            }
            ScheduleChromosome::try_with_load_balancing(self.activities.as_slice(), &capacity, rng)
        } else {
            Some(ScheduleChromosome::random(self.activities.as_slice(), rng))
        }
    }

    /// A new individual: a random one, or a load-balanced one when
    /// `balanced` is set.
    pub fn create_individual(&self, balanced: bool, rng: &mut SmallRng) -> (c: ScheduleChromosome)
        requires
            balanced ==> loads_fit(info_views(self.activities@)),
        ensures
            c.spec_is_valid(info_views(self.activities@)),
            c.fitness == Fitness::Unevaluated,
            balanced ==> texts(c.mav@) == crate::ga::chromosome::balanced(
                info_views(self.activities@),
                self.activities@.len() as int,
            ).mav,
    {
        match self.try_create_individual(balanced, rng) {
            Some(c) => c,
            None => unreached(),
        }
    }

    /// The two children of a precedence operation crossover.
    pub fn crossover(&self, parent1: &ScheduleChromosome, parent2: &ScheduleChromosome, rng: &mut SmallRng) -> (children:
        Vec<ScheduleChromosome>)
        ensures
            children@.len() == 2,
            merged_children(
                parent1@,
                parent2@,
                info_views(self.activities@),
                children@[0]@,
                children@[1]@,
            ),
            parent1@.osv.to_multiset() == parent2@.osv.to_multiset() ==> children@[0]@.osv.to_multiset()
                == parent1@.osv.to_multiset() && children@[1]@.osv.to_multiset()
                == parent2@.osv.to_multiset(),
    {
        let (c1, c2) = pox_crossover(parent1, parent2, self.activities.as_slice(), rng);
        let mut children: Vec<ScheduleChromosome> = Vec::new();
        children.push(c1);
        children.push(c2);
        children
    }

    /// Mutates an individual: a swap of its operation sequence when `swap`
    /// is set, else an insertion; then a mutation of its machine assignment.
    pub fn mutate(&self, individual: &mut ScheduleChromosome, swap: bool, rng: &mut SmallRng)
        ensures
            if swap {
                swap_mutated(texts(old(individual).osv@), texts(final(individual).osv@))
            } else {
                insert_mutated(texts(old(individual).osv@), texts(final(individual).osv@))
            },
            mav_mutated(
                texts(old(individual).mav@),
                texts(final(individual).mav@),
                info_views(self.activities@),
            ),
            texts(final(individual).osv@).to_multiset() == texts(old(individual).osv@).to_multiset(),
            mav_feasible(texts(old(individual).mav@), info_views(self.activities@)) ==> mav_feasible(
                texts(final(individual).mav@),
                info_views(self.activities@),
            ),
    {
        if swap {
            swap_mutation(individual, rng);
        } else {
            insert_mutation(individual, rng);
        }
        mav_mutation(individual, self.activities.as_slice(), rng);
    }
}

} // verus!
