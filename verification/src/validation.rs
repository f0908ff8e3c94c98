//! Input validation for scheduling problems.
//!
//! The validator accepts a set of tasks and resources exactly when
//! identifiers are unique within their kind, every task has an activity,
//! every candidate resource and every predecessor resolves, and the
//! precedence relation between activities has no cycle. It reports every
//! issue that it finds in one call: the structural ones in the order of the
//! input, then a cycle of the precedence relation, if there is one.

use vstd::prelude::*;
use crate::collections::{find_text, first_index, is_first_index, lemma_first_index, slice_texts, texts};
use crate::graph::{
    find_cycle, has_cycle, has_edge, is_closed_walk, is_returning_walk, is_step, leads_to_cycle,
    lists, well_formed,
};
use crate::models::activity::Activity;
use crate::models::resource::Resource;
use crate::models::task::Task;

verus! {

/// Categories of validation errors.
#[derive(Debug, Clone, PartialEq, Eq)]
pub enum ValidationErrorKind {
    /// Two resources, two tasks or two activities share an identifier.
    DuplicateId,
    /// An activity names a candidate resource that does not exist.
    InvalidResourceReference,
    /// The precedence relation contains a cycle.
    CyclicDependency,
    /// A task has no activities.
    EmptyTask,
    /// An activity names a predecessor that does not exist.
    InvalidPredecessor,
}

/// A validation error: its category and a message that names the offender.
#[derive(Debug, Clone, PartialEq)]
pub struct ValidationError {
    /// Error category.
    pub kind: ValidationErrorKind,
    /// Human-readable description.
    pub message: String,
}

/// What validation returns: nothing, or the errors it found.
pub type ValidationResult = Result<(), Vec<ValidationError>>;

/// What an error says: its category and the text of its message.
pub struct ErrorView {
    pub kind: ValidationErrorKind,
    pub message: Seq<char>,
}

impl View for ValidationError {
    type V = ErrorView;

    open spec fn view(&self) -> ErrorView {
        ErrorView { kind: self.kind, message: self.message@ }
    }
}

impl ValidationError {
    /// An error of the given kind with the given message.
    pub fn new(kind: ValidationErrorKind, message: &str) -> (e: Self)
        ensures
            e.kind == kind,
            e.message@ == message@,
    {
        ValidationError { kind, message: message.to_owned() }
    }
}

/// What the errors say, one by one.
pub open spec fn error_views(errors: Seq<ValidationError>) -> Seq<ErrorView> {
    Seq::new(errors.len(), |i: int| errors[i]@)
}

/// The activities of all tasks, task by task.
pub open spec fn all_activities(tasks: Seq<Task>) -> Seq<Activity>
    decreases tasks.len(),
{
    if tasks.len() == 0 {
        Seq::empty()
    } else {
        all_activities(tasks.drop_last()) + tasks.last().activities@
    }
}

/// The number of activities of the first `n` tasks.
pub open spec fn activities_before(tasks: Seq<Task>, n: int) -> int {
    all_activities(tasks.take(n)).len() as int
}

/// The identifiers of the resources.
pub open spec fn resource_id_texts(resources: Seq<Resource>) -> Seq<Seq<char>> {
    Seq::new(resources.len(), |i: int| resources[i].id@)
}

/// The identifiers of the tasks.
pub open spec fn task_id_texts(tasks: Seq<Task>) -> Seq<Seq<char>> {
    Seq::new(tasks.len(), |i: int| tasks[i].id@)
}

/// The identifiers of the activities.
pub open spec fn activity_id_texts(acts: Seq<Activity>) -> Seq<Seq<char>> {
    Seq::new(acts.len(), |i: int| acts[i].id@)
}

/// Two resources, two tasks or two activities share an identifier.
pub open spec fn has_duplicate_id(tasks: Seq<Task>, resources: Seq<Resource>) -> bool {
    ||| !resource_id_texts(resources).no_duplicates()
    ||| !task_id_texts(tasks).no_duplicates()
    ||| !activity_id_texts(all_activities(tasks)).no_duplicates()
}

/// Some task has no activity.
pub open spec fn has_empty_task(tasks: Seq<Task>) -> bool {
    exists|t: int| 0 <= t < tasks.len() && (#[trigger] tasks[t]).activities@.len() == 0
}

/// Candidate `c` of activity `k` is not the identifier of a resource.
pub open spec fn unknown_candidate(acts: Seq<Activity>, rids: Seq<Seq<char>>, k: int, c: int) -> bool {
    &&& 0 <= k < acts.len()
    &&& 0 <= c < acts[k].spec_candidates().len()
    &&& !rids.contains(acts[k].spec_candidates()[c])
}

/// Some activity names a candidate resource that does not exist.
pub open spec fn has_unknown_candidate(acts: Seq<Activity>, rids: Seq<Seq<char>>) -> bool {
    exists|k: int, c: int| unknown_candidate(acts, rids, k, c)
}

/// Predecessor `p` of activity `k` is not the identifier of an activity.
pub open spec fn unknown_predecessor(acts: Seq<Activity>, k: int, p: int) -> bool {
    &&& 0 <= k < acts.len()
    &&& 0 <= p < acts[k].predecessors@.len()
    &&& !activity_id_texts(acts).contains(acts[k].predecessors@[p]@)
}

/// Some activity names a predecessor that does not exist.
pub open spec fn has_unknown_predecessor(acts: Seq<Activity>) -> bool {
    exists|k: int, p: int| unknown_predecessor(acts, k, p)
}

/// Activity `k` has identifier `q` and lists `p` as predecessor number `i`.
pub open spec fn edge_witness(acts: Seq<Activity>, p: Seq<char>, q: Seq<char>, k: int, i: int) -> bool {
    &&& 0 <= k < acts.len()
    &&& acts[k].id@ == q
    &&& 0 <= i < acts[k].predecessors@.len()
    &&& acts[k].predecessors@[i]@ == p
}

/// The precedence relation: `p` must be complete before `q` starts.
pub open spec fn precedence_edge(acts: Seq<Activity>, p: Seq<char>, q: Seq<char>) -> bool {
    exists|k: int, i: int| edge_witness(acts, p, q, k, i)
}

/// Identifier `i` of `w` must be complete before the next one starts.
pub open spec fn precedence_step(acts: Seq<Activity>, w: Seq<Seq<char>>, i: int) -> bool {
    precedence_edge(acts, w[i], w[i + 1])
}

/// `w` follows the precedence relation step by step.
pub open spec fn follows_precedence(acts: Seq<Activity>, w: Seq<Seq<char>>) -> bool {
    forall|i: int| 0 <= i < w.len() - 1 ==> #[trigger] precedence_step(acts, w, i)
}

/// `w` follows the precedence relation for at least one step and ends where it starts.
pub open spec fn is_precedence_cycle(acts: Seq<Activity>, w: Seq<Seq<char>>) -> bool {
    &&& w.len() >= 2
    &&& w.first() == w.last()
    &&& follows_precedence(acts, w)
}

/// The precedence relation has a cycle.
pub open spec fn has_precedence_cycle(acts: Seq<Activity>) -> bool {
    exists|w: Seq<Seq<char>>| is_precedence_cycle(acts, w)
}

/// `w` follows the precedence relation from `id` and ends at the
/// identifier that it left at step `i`.
pub open spec fn is_walk_into_cycle(acts: Seq<Activity>, w: Seq<Seq<char>>, id: Seq<char>, i: int) -> bool {
    &&& follows_precedence(acts, w)
    &&& 0 <= i < w.len() - 1
    &&& w[0] == id
    &&& w[i] == w.last()
}

/// Following the precedence relation from `id` can lead into a cycle.
pub open spec fn runs_into_cycle(acts: Seq<Activity>, id: Seq<char>) -> bool {
    exists|w: Seq<Seq<char>>, i: int| is_walk_into_cycle(acts, w, id, i)
}

/// Activity `k` is the first, in the order of the input, from whose
/// identifier the precedence relation can lead into a cycle.
pub open spec fn is_first_into_cycle(acts: Seq<Activity>, k: int) -> bool {
    &&& 0 <= k < acts.len()
    &&& runs_into_cycle(acts, acts[k].id@)
    &&& forall|j: int| 0 <= j < k ==> !runs_into_cycle(acts, (#[trigger] acts[j]).id@)
}

/// The input is accepted: identifiers are unique, no task is empty, every
/// reference resolves and the precedence relation has no cycle.
pub open spec fn input_is_valid(tasks: Seq<Task>, resources: Seq<Resource>) -> bool {
    &&& !has_duplicate_id(tasks, resources)
    &&& !has_empty_task(tasks)
    &&& !has_unknown_candidate(all_activities(tasks), resource_id_texts(resources))
    &&& !has_unknown_predecessor(all_activities(tasks))
    &&& !has_precedence_cycle(all_activities(tasks))
}

/// The error for an identifier that occurred before: `text`, then the identifier.
pub open spec fn duplicate_error(text: Seq<char>, id: Seq<char>) -> ErrorView {
    ErrorView { kind: ValidationErrorKind::DuplicateId, message: text + id }
}

/// The error for a task without activities.
pub open spec fn empty_task_error(task: Seq<char>) -> ErrorView {
    ErrorView {
        kind: ValidationErrorKind::EmptyTask,
        message: "Task '"@ + task + "' has no activities"@,
    }
}

/// The error for a candidate that is no resource.
pub open spec fn unknown_candidate_error(activity: Seq<char>, candidate: Seq<char>) -> ErrorView {
    ErrorView {
        kind: ValidationErrorKind::InvalidResourceReference,
        message: "Activity '"@ + activity + "' references unknown resource '"@ + candidate + "'"@,
    }
}

/// The error for a predecessor that is no activity.
pub open spec fn unknown_predecessor_error(activity: Seq<char>, predecessor: Seq<char>) -> ErrorView {
    ErrorView {
        kind: ValidationErrorKind::InvalidPredecessor,
        message: "Activity '"@ + activity + "' references unknown predecessor '"@ + predecessor
            + "'"@,
    }
}

/// The error for a cycle of the precedence relation that `activity` leads into.
pub open spec fn cycle_error(activity: Seq<char>) -> ErrorView {
    ErrorView {
        kind: ValidationErrorKind::CyclicDependency,
        message: "Circular dependency detected involving activity '"@ + activity + "'"@,
    }
}

/// Whether identifier `i` of `ids` occurs earlier in `ids`.
pub open spec fn is_repeated(ids: Seq<Seq<char>>, i: int) -> bool {
    ids.take(i).contains(ids[i])
}

/// One error for every identifier at the positions `from..to` of `ids`
/// that occurs earlier in `ids`, in order.
pub open spec fn repeated_errors(text: Seq<char>, ids: Seq<Seq<char>>, from: int, to: int) -> Seq<ErrorView>
    decreases to - from,
{
    if to <= from {
        Seq::empty()
    } else {
        let before = repeated_errors(text, ids, from, to - 1);
        if is_repeated(ids, to - 1) {
            before.push(duplicate_error(text, ids[to - 1]))
        } else {
            before
        }
    }
}

/// The errors of the first `n` tasks, task by task: for the identifier of
/// the task if it occurred before, for the task if it is empty, and for
/// every activity of it whose identifier occurred before.
pub open spec fn task_errors(tasks: Seq<Task>, n: int) -> Seq<ErrorView>
    decreases n,
{
    if n <= 0 {
        Seq::empty()
    } else {
        let t = n - 1;
        task_errors(tasks, t) + repeated_errors(
            "Duplicate task ID: "@,
            task_id_texts(tasks),
            t,
            t + 1,
        ) + (if tasks[t].activities@.len() == 0 {
            seq![empty_task_error(tasks[t].id@)]
        } else {
            Seq::empty()
        }) + repeated_errors(
            "Duplicate activity ID: "@,
            activity_id_texts(all_activities(tasks)),
            activities_before(tasks, t),
            activities_before(tasks, n),
        )
    }
}

/// One error for each of the first `n` candidates of the activity that is
/// not among `rids`, in order.
pub open spec fn candidate_errors_of(a: Activity, rids: Seq<Seq<char>>, n: int) -> Seq<ErrorView>
    decreases n,
{
    if n <= 0 {
        Seq::empty()
    } else {
        let before = candidate_errors_of(a, rids, n - 1);
        let c = a.spec_candidates()[n - 1];
        if rids.contains(c) {
            before
        } else {
            before.push(unknown_candidate_error(a.id@, c))
        }
    }
}

/// The candidate errors of the first `n` activities, activity by activity.
pub open spec fn candidate_errors(acts: Seq<Activity>, rids: Seq<Seq<char>>, n: int) -> Seq<ErrorView>
    decreases n,
{
    if n <= 0 {
        Seq::empty()
    } else {
        candidate_errors(acts, rids, n - 1) + candidate_errors_of(
            acts[n - 1],
            rids,
            acts[n - 1].spec_candidates().len() as int,
        )
    }
}

/// One error for each of the first `n` predecessors of the activity that
/// is not among `aids`, in order.
pub open spec fn predecessor_errors_of(a: Activity, aids: Seq<Seq<char>>, n: int) -> Seq<ErrorView>
    decreases n,
{
    if n <= 0 {
        Seq::empty()
    } else {
        let before = predecessor_errors_of(a, aids, n - 1);
        let p = a.predecessors@[n - 1]@;
        if aids.contains(p) {
            before
        } else {
            before.push(unknown_predecessor_error(a.id@, p))
        }
    }
}

/// The predecessor errors of the first `n` activities, activity by activity.
pub open spec fn predecessor_errors(acts: Seq<Activity>, aids: Seq<Seq<char>>, n: int) -> Seq<ErrorView>
    decreases n,
{
    if n <= 0 {
        Seq::empty()
    } else {
        predecessor_errors(acts, aids, n - 1) + predecessor_errors_of(
            acts[n - 1],
            aids,
            acts[n - 1].predecessors@.len() as int,
        )
    }
}

/// The errors that do not concern cycles: for repeated resource
/// identifiers, then for the tasks, then for unknown candidates, then for
/// unknown predecessors.
pub open spec fn structural_errors(tasks: Seq<Task>, resources: Seq<Resource>) -> Seq<ErrorView> {
    let acts = all_activities(tasks);
    repeated_errors(
        "Duplicate resource ID: "@,
        resource_id_texts(resources),
        0,
        resources.len() as int,
    ) + task_errors(tasks, tasks.len() as int) + candidate_errors(
        acts,
        resource_id_texts(resources),
        acts.len() as int,
    ) + predecessor_errors(acts, activity_id_texts(acts), acts.len() as int)
}

/// What the validator reports for an input: its structural errors and,
/// when the precedence relation has a cycle, one more error that names
/// the first activity that leads into a cycle.
pub open spec fn is_report_of(report: Seq<ErrorView>, tasks: Seq<Task>, resources: Seq<Resource>) -> bool {
    let acts = all_activities(tasks);
    if has_precedence_cycle(acts) {
        exists|k: int| #[trigger]
            is_first_into_cycle(acts, k) && report == structural_errors(tasks, resources).push(
                cycle_error(acts[k].id@),
            )
    } else {
        report == structural_errors(tasks, resources)
    }
}

/// The activities behind a list of references.
pub open spec fn referenced(acts: Seq<&Activity>) -> Seq<Activity> {
    Seq::new(acts.len(), |i: int| *acts[i])
}

/// Appending an error appends what it says.
proof fn lemma_error_views_push(errors: Seq<ValidationError>, e: ValidationError)
    ensures
        error_views(errors.push(e)) == error_views(errors).push(e@),
{
    assert(error_views(errors.push(e)) =~= error_views(errors).push(e@));
}

/// A sequence has no duplicates exactly when none of its items occurs earlier.
proof fn lemma_no_duplicates_is_no_repeat(ids: Seq<Seq<char>>)
    ensures
        ids.no_duplicates() <==> forall|i: int| 0 <= i < ids.len() ==> !is_repeated(ids, i),
{
    if !ids.no_duplicates() {
        let (a, b) = choose|a: int, b: int|
            0 <= a < ids.len() && 0 <= b < ids.len() && a != b && ids[a] == ids[b];
        let (lo, hi) = if a < b { (a, b) } else { (b, a) };
        assert(ids.take(hi)[lo] == ids[hi]);
        assert(is_repeated(ids, hi));
    }
    if exists|i: int| 0 <= i < ids.len() && is_repeated(ids, i) {
        let i = choose|i: int| 0 <= i < ids.len() && is_repeated(ids, i);
        let j = choose|j: int| 0 <= j < ids.take(i).len() && ids.take(i)[j] == ids[i];
        assert(ids[j] == ids[i]);
    }
}

/// No error is listed exactly when no identifier of the range occurs earlier.
proof fn lemma_repeated_errors_empty(text: Seq<char>, ids: Seq<Seq<char>>, from: int, to: int)
    ensures
        repeated_errors(text, ids, from, to).len() == 0 <==> forall|i: int|
            from <= i < to ==> !is_repeated(ids, i),
    decreases to - from,
{
    if to > from {
        lemma_repeated_errors_empty(text, ids, from, to - 1);
        if !is_repeated(ids, to - 1) && repeated_errors(text, ids, from, to - 1).len() == 0 {
            assert forall|i: int| from <= i < to implies !is_repeated(ids, i) by {
                if i < to - 1 {
                }
            }
        }
    }
}

/// The first `n + 1` tasks have the activities of the first `n` and those
/// of task `n`.
proof fn lemma_activities_before_step(tasks: Seq<Task>, n: int)
    requires
        0 <= n < tasks.len(),
    ensures
        all_activities(tasks.take(n + 1)) == all_activities(tasks.take(n)) + tasks[n].activities@,
        activities_before(tasks, n + 1) == activities_before(tasks, n) + tasks[n].activities@.len(),
{
    let next = tasks.take(n + 1);
    assert(next.drop_last() =~= tasks.take(n));
    assert(next.last() == tasks[n]);
}

/// The activities of the first `n` tasks are the first activities of all tasks.
proof fn lemma_activities_before_bound(tasks: Seq<Task>, n: int)
    requires
        0 <= n <= tasks.len(),
    ensures
        0 <= activities_before(tasks, n) <= all_activities(tasks).len(),
    decreases tasks.len() - n,
{
    if n == tasks.len() {
        assert(tasks.take(n) =~= tasks);
    } else {
        lemma_activities_before_step(tasks, n);
        lemma_activities_before_bound(tasks, n + 1);
    }
}

/// The first `n` tasks give no error exactly when none of them repeats an
/// identifier or is empty and none of their activities repeats an identifier.
proof fn lemma_task_errors_empty(tasks: Seq<Task>, n: int)
    requires
        0 <= n <= tasks.len(),
    ensures
        task_errors(tasks, n).len() == 0 <==> {
            &&& forall|t: int| 0 <= t < n ==> !is_repeated(task_id_texts(tasks), t)
            &&& forall|t: int| 0 <= t < n ==> (#[trigger] tasks[t]).activities@.len() > 0
            &&& forall|i: int|
                0 <= i < activities_before(tasks, n) ==> !is_repeated(
                    activity_id_texts(all_activities(tasks)),
                    i,
                )
        },
    decreases n,
{
    if n > 0 {
        let t = n - 1;
        let tids = task_id_texts(tasks);
        let aids = activity_id_texts(all_activities(tasks));
        let lo = activities_before(tasks, t);
        let hi = activities_before(tasks, n);
        lemma_task_errors_empty(tasks, t);
        lemma_activities_before_step(tasks, t);
        lemma_activities_before_bound(tasks, t);
        lemma_repeated_errors_empty("Duplicate task ID: "@, tids, t, t + 1);
        lemma_repeated_errors_empty("Duplicate activity ID: "@, aids, lo, hi);
        if task_errors(tasks, n).len() == 0 {
            assert forall|x: int| 0 <= x < n implies !is_repeated(tids, x) by {
                if x < t {
                }
            }
            assert forall|x: int| 0 <= x < n implies (#[trigger] tasks[x]).activities@.len() > 0 by {
                if x < t {
                }
            }
            assert forall|i: int| 0 <= i < hi implies !is_repeated(aids, i) by {
                if i < lo {
                }
            }
        }
    } else {
        assert(tasks.take(0) =~= Seq::<Task>::empty());
    }
}

/// The first `n` candidates of an activity give no error exactly when all
/// of them are among `rids`.
proof fn lemma_candidate_errors_of_empty(a: Activity, rids: Seq<Seq<char>>, n: int)
    ensures
        candidate_errors_of(a, rids, n).len() == 0 <==> forall|c: int|
            0 <= c < n ==> rids.contains(#[trigger] a.spec_candidates()[c]),
    decreases n,
{
    if n > 0 {
        lemma_candidate_errors_of_empty(a, rids, n - 1);
        if candidate_errors_of(a, rids, n).len() == 0 {
            assert forall|c: int| 0 <= c < n implies rids.contains(
                #[trigger] a.spec_candidates()[c],
            ) by {
                if c < n - 1 {
                }
            }
        }
    }
}

/// The first `n` activities give no candidate error exactly when all of
/// their candidates are among `rids`.
proof fn lemma_candidate_errors_empty(acts: Seq<Activity>, rids: Seq<Seq<char>>, n: int)
    requires
        0 <= n <= acts.len(),
    ensures
        candidate_errors(acts, rids, n).len() == 0 <==> forall|k: int, c: int|
            0 <= k < n ==> !unknown_candidate(acts, rids, k, c),
    decreases n,
{
    if n > 0 {
        let a = acts[n - 1];
        lemma_candidate_errors_empty(acts, rids, n - 1);
        lemma_candidate_errors_of_empty(a, rids, a.spec_candidates().len() as int);
        if candidate_errors(acts, rids, n).len() == 0 {
            assert forall|k: int, c: int| 0 <= k < n implies !unknown_candidate(acts, rids, k, c) by {
                if k == n - 1 && 0 <= c < a.spec_candidates().len() {
                    assert(rids.contains(a.spec_candidates()[c]));
                }
            }
        } else if candidate_errors(acts, rids, n - 1).len() == 0 {
            let c = choose|c: int|
                0 <= c < a.spec_candidates().len() && !rids.contains(
                    #[trigger] a.spec_candidates()[c],
                );
            assert(unknown_candidate(acts, rids, n - 1, c));
        } else {
            let (k, c) = choose|k: int, c: int| 0 <= k < n - 1 && unknown_candidate(acts, rids, k, c);
            assert(0 <= k < n && unknown_candidate(acts, rids, k, c));
        }
    }
}

/// The first `n` predecessors of an activity give no error exactly when
/// all of them are among `aids`.
proof fn lemma_predecessor_errors_of_empty(a: Activity, aids: Seq<Seq<char>>, n: int)
    ensures
        predecessor_errors_of(a, aids, n).len() == 0 <==> forall|p: int|
            0 <= p < n ==> aids.contains((#[trigger] a.predecessors@[p])@),
    decreases n,
{
    if n > 0 {
        lemma_predecessor_errors_of_empty(a, aids, n - 1);
        if predecessor_errors_of(a, aids, n).len() == 0 {
            assert forall|p: int| 0 <= p < n implies aids.contains(
                (#[trigger] a.predecessors@[p])@,
            ) by {
                if p < n - 1 {
                }
            }
        }
    }
}

/// The first `n` activities give no predecessor error exactly when all of
/// their predecessors are activities.
proof fn lemma_predecessor_errors_empty(acts: Seq<Activity>, n: int)
    requires
        0 <= n <= acts.len(),
    ensures
        predecessor_errors(acts, activity_id_texts(acts), n).len() == 0 <==> forall|k: int, p: int|
            0 <= k < n ==> !unknown_predecessor(acts, k, p),
    decreases n,
{
    if n > 0 {
        let a = acts[n - 1];
        let aids = activity_id_texts(acts);
        lemma_predecessor_errors_empty(acts, n - 1);
        lemma_predecessor_errors_of_empty(a, aids, a.predecessors@.len() as int);
        if predecessor_errors(acts, aids, n).len() == 0 {
            assert forall|k: int, p: int| 0 <= k < n implies !unknown_predecessor(acts, k, p) by {
                if k == n - 1 && 0 <= p < a.predecessors@.len() {
                    assert(aids.contains(a.predecessors@[p]@));
                }
            }
        } else if predecessor_errors(acts, aids, n - 1).len() == 0 {
            let p = choose|p: int|
                0 <= p < a.predecessors@.len() && !aids.contains((#[trigger] a.predecessors@[p])@);
            assert(unknown_predecessor(acts, n - 1, p));
        } else {
            let (k, p) = choose|k: int, p: int| 0 <= k < n - 1 && unknown_predecessor(acts, k, p);
            assert(0 <= k < n && unknown_predecessor(acts, k, p));
        }
    }
}

/// An input has no structural error exactly when its identifiers are
/// unique, no task is empty and every candidate and predecessor resolves.
pub proof fn structural_errors_tell_validity(tasks: Seq<Task>, resources: Seq<Resource>)
    ensures
        structural_errors(tasks, resources).len() == 0 <==> {
            &&& !has_duplicate_id(tasks, resources)
            &&& !has_empty_task(tasks)
            &&& !has_unknown_candidate(all_activities(tasks), resource_id_texts(resources))
            &&& !has_unknown_predecessor(all_activities(tasks))
        },
{
    let acts = all_activities(tasks);
    let rids = resource_id_texts(resources);
    lemma_no_duplicates_is_no_repeat(rids);
    lemma_no_duplicates_is_no_repeat(task_id_texts(tasks));
    lemma_no_duplicates_is_no_repeat(activity_id_texts(acts));
    lemma_repeated_errors_empty("Duplicate resource ID: "@, rids, 0, resources.len() as int);
    lemma_task_errors_empty(tasks, tasks.len() as int);
    lemma_candidate_errors_empty(acts, rids, acts.len() as int);
    lemma_predecessor_errors_empty(acts, acts.len() as int);
    assert(tasks.take(tasks.len() as int) =~= tasks);
    assert(activities_before(tasks, tasks.len() as int) == acts.len());
}

/// A message: a fixed text followed by an identifier.
fn message_for(text: &str, id: &String) -> (m: String)
    ensures
        m@ == text@ + id@,
{
    let mut m = text.to_owned();
    m.append(id.as_str());
    m
}

/// All activities of all tasks, in task order.
fn flatten_activities(tasks: &[Task]) -> (out: Vec<&Activity>)
    ensures
        referenced(out@) == all_activities(tasks@),
{
    let mut out: Vec<&Activity> = Vec::new();
    let mut t: usize = 0;
    assert(tasks@.take(0) =~= Seq::<Task>::empty());
    assert(referenced(out@) =~= Seq::<Activity>::empty());
    while t < tasks.len()
        invariant
            t <= tasks@.len(),
            referenced(out@) == all_activities(tasks@.take(t as int)),
        decreases tasks@.len() - t,
    {
        let task = &tasks[t];
        let ghost base = referenced(out@);
        let mut a: usize = 0;
        assert(referenced(out@) =~= base + task.activities@.take(0));
        while a < task.activities.len()
            invariant
                a <= task.activities@.len(),
                referenced(out@) == base + task.activities@.take(a as int),
            decreases task.activities@.len() - a,
        {
            let ghost before = referenced(out@);
            out.push(&task.activities[a]);
            a += 1;
            assert(referenced(out@) =~= before.push(task.activities@[a - 1]));
            assert(referenced(out@) =~= base + task.activities@.take(a as int));
        }
        proof {
            let next = tasks@.take(t as int + 1);
            assert(next.drop_last() =~= tasks@.take(t as int));
            assert(next.last() == *task);
            assert(task.activities@.take(a as int) =~= task.activities@);
        }
        t += 1;
    }
    assert(tasks@.take(t as int) =~= tasks@);
    out
}

/// Appends one `DuplicateId` error for every identifier at the positions
/// `from..to` that occurs earlier in `ids`.
fn report_repeated(ids: &Vec<String>, from: usize, to: usize, text: &str, errors: &mut Vec<ValidationError>)
    requires
        from <= to <= ids@.len(),
    ensures
        error_views(final(errors)@) == error_views(old(errors)@) + repeated_errors(
            text@,
            texts(ids@),
            from as int,
            to as int,
        ),
{
    let ghost start = error_views(errors@);
    let ghost s = texts(ids@);
    let mut i: usize = from;
    assert(error_views(errors@) =~= start + repeated_errors(text@, s, from as int, i as int));
    while i < to
        invariant
            from <= i <= to <= ids@.len(),
            s == texts(ids@),
            error_views(errors@) == start + repeated_errors(text@, s, from as int, i as int),
        decreases to - i,
    {
        let ghost listed = repeated_errors(text@, s, from as int, i as int);
        assert(s[i as int] == ids@[i as int]@);
        let repeated = match find_text(ids, &ids[i]) {
            Some(j) => j < i,
            None => false,
        };
        proof {
            if repeated {
                let j = first_index(s, s[i as int]);
                assert(s.take(i as int)[j] == s[i as int]);
            }
            if is_repeated(s, i as int) {
                let j = choose|j: int| 0 <= j < s.take(i as int).len() && s.take(i as int)[j] == s[i as int];
                assert(s[j] == s[i as int]);
                assert(s.contains(s[i as int]));
            }
            assert(repeated == is_repeated(s, i as int));
        }
        if repeated {
            let ghost before = errors@;
            let e = ValidationError {
                kind: ValidationErrorKind::DuplicateId,
                message: message_for(text, &ids[i]),
            };
            errors.push(e);
            proof {
                lemma_error_views_push(before, e);
                assert(e@ == duplicate_error(text@, s[i as int]));
                assert(start + listed.push(e@) =~= (start + listed).push(e@));
            }
        }
        i += 1;
    }
}

/// Appends the errors of the tasks, task by task.
fn report_tasks(
    tasks: &[Task],
    task_ids: &Vec<String>,
    activity_ids: &Vec<String>,
    errors: &mut Vec<ValidationError>,
)
    requires
        texts(task_ids@) == task_id_texts(tasks@),
        texts(activity_ids@) == activity_id_texts(all_activities(tasks@)),
    ensures
        error_views(final(errors)@) == error_views(old(errors)@) + task_errors(
            tasks@,
            tasks@.len() as int,
        ),
{
    let ghost start = error_views(errors@);
    let ghost aids = texts(activity_ids@);
    let total = activity_ids.len();
    let mut base: usize = 0;
    let mut t: usize = 0;
    proof {
        assert(tasks@.take(0) =~= Seq::<Task>::empty());
        assert(error_views(errors@) =~= start + task_errors(tasks@, 0));
        assert(task_id_texts(tasks@).len() == tasks@.len());
    }
    while t < tasks.len()
        invariant
            t <= tasks@.len(),
            task_ids@.len() == tasks@.len(),
            total == activity_ids@.len(),
            texts(task_ids@) == task_id_texts(tasks@),
            aids == texts(activity_ids@),
            aids == activity_id_texts(all_activities(tasks@)),
            base == activities_before(tasks@, t as int),
            error_views(errors@) == start + task_errors(tasks@, t as int),
        decreases tasks@.len() - t,
    {
        let task = &tasks[t];
        proof {
            lemma_activities_before_step(tasks@, t as int);
            lemma_activities_before_bound(tasks@, t as int + 1);
            assert(aids.len() == all_activities(tasks@).len());
        }
        report_repeated(task_ids, t, t + 1, "Duplicate task ID: ", errors);
        let ghost e1 = error_views(errors@);
        if task.activities.len() == 0 {
            let ghost before = errors@;
            let mut message = message_for("Task '", &task.id);
            message.append("' has no activities");
            let e = ValidationError { kind: ValidationErrorKind::EmptyTask, message };
            errors.push(e);
            proof {
                lemma_error_views_push(before, e);
                assert(e@ == empty_task_error(task.id@));
                assert(error_views(errors@) =~= e1 + seq![empty_task_error(task.id@)]);
            }
        } else {
            assert(error_views(errors@) =~= e1 + Seq::<ErrorView>::empty());
        }
        assert(base + task.activities@.len() <= total) by {
            assert(aids.len() == activity_ids@.len());
        }
        let next = base + task.activities.len();
        report_repeated(activity_ids, base, next, "Duplicate activity ID: ", errors);
        proof {
            let a = task_errors(tasks@, t as int);
            let b = repeated_errors("Duplicate task ID: "@, task_id_texts(tasks@), t as int, t + 1);
            let c = if task.activities@.len() == 0 {
                seq![empty_task_error(task.id@)]
            } else {
                Seq::<ErrorView>::empty()
            };
            let d = repeated_errors("Duplicate activity ID: "@, aids, base as int, next as int);
            assert(error_views(errors@) == ((start + a) + b + c) + d);
            assert(((start + a) + b + c) + d =~= start + (a + b + c + d));
        }
        base = next;
        t += 1;
    }
}

/// Whether `ids` holds the text of `key`.
fn holds_text(ids: &Vec<String>, key: &str) -> (b: bool)
    ensures
        b == texts(ids@).contains(key@),
{
    let owned = key.to_owned();
    find_text(ids, &owned).is_some()
}

/// A message that names an activity and what it refers to.
fn reference_message(activity_id: &String, middle: &str, target: &str) -> (m: String)
    ensures
        m@ == "Activity '"@ + activity_id@ + middle@ + target@ + "'"@,
{
    let mut m = message_for("Activity '", activity_id);
    m.append(middle);
    m.append(target);
    m.append("'");
    m
}

/// Appends one `InvalidResourceReference` error for every candidate that is
/// not the identifier of a resource.
fn report_unknown_candidates(
    acts: &Vec<&Activity>,
    resource_ids: &Vec<String>,
    errors: &mut Vec<ValidationError>,
)
    ensures
        error_views(final(errors)@) == error_views(old(errors)@) + candidate_errors(
            referenced(acts@),
            texts(resource_ids@),
            acts@.len() as int,
        ),
{
    let ghost start = error_views(errors@);
    let ghost all = referenced(acts@);
    let ghost rids = texts(resource_ids@);
    let mut k: usize = 0;
    assert(error_views(errors@) =~= start + candidate_errors(all, rids, 0));
    while k < acts.len()
        invariant
            k <= acts@.len(),
            all == referenced(acts@),
            rids == texts(resource_ids@),
            error_views(errors@) == start + candidate_errors(all, rids, k as int),
        decreases acts@.len() - k,
    {
        let act = acts[k];
        assert(all[k as int] == *act);
        let ghost done = start + candidate_errors(all, rids, k as int);
        let candidates = act.candidate_resources();
        let mut c: usize = 0;
        assert(error_views(errors@) =~= done + candidate_errors_of(*act, rids, 0));
        while c < candidates.len()
            invariant
                c <= candidates@.len(),
                rids == texts(resource_ids@),
                slice_texts(candidates@) == act.spec_candidates(),
                error_views(errors@) == done + candidate_errors_of(*act, rids, c as int),
            decreases candidates@.len() - c,
        {
            let ghost listed = candidate_errors_of(*act, rids, c as int);
            assert(slice_texts(candidates@)[c as int] == candidates@[c as int]@);
            if !holds_text(resource_ids, candidates[c]) {
                let ghost before = errors@;
                let e = ValidationError {
                    kind: ValidationErrorKind::InvalidResourceReference,
                    message: reference_message(&act.id, "' references unknown resource '", candidates[c]),
                };
                errors.push(e);
                proof {
                    lemma_error_views_push(before, e);
                    assert(e@ == unknown_candidate_error(act.id@, act.spec_candidates()[c as int]));
                    assert(done + listed.push(e@) =~= (done + listed).push(e@));
                }
            }
            c += 1;
        }
        proof {
            let own = candidate_errors_of(*act, rids, act.spec_candidates().len() as int);
            assert(slice_texts(candidates@).len() == candidates@.len());
            assert((start + candidate_errors(all, rids, k as int)) + own =~= start + (candidate_errors(
                all,
                rids,
                k as int,
            ) + own));
        }
        k += 1;
    }
}

/// Appends one `InvalidPredecessor` error for every predecessor that is not
/// the identifier of an activity.
fn report_unknown_predecessors(
    acts: &Vec<&Activity>,
    activity_ids: &Vec<String>,
    errors: &mut Vec<ValidationError>,
)
    ensures
        error_views(final(errors)@) == error_views(old(errors)@) + predecessor_errors(
            referenced(acts@),
            texts(activity_ids@),
            acts@.len() as int,
        ),
{
    let ghost start = error_views(errors@);
    let ghost all = referenced(acts@);
    let ghost aids = texts(activity_ids@);
    let mut k: usize = 0;
    assert(error_views(errors@) =~= start + predecessor_errors(all, aids, 0));
    while k < acts.len()
        invariant
            k <= acts@.len(),
            all == referenced(acts@),
            aids == texts(activity_ids@),
            error_views(errors@) == start + predecessor_errors(all, aids, k as int),
        decreases acts@.len() - k,
    {
        let act = acts[k];
        assert(all[k as int] == *act);
        let ghost done = start + predecessor_errors(all, aids, k as int);
        let mut p: usize = 0;
        assert(error_views(errors@) =~= done + predecessor_errors_of(*act, aids, 0));
        while p < act.predecessors.len()
            invariant
                p <= act.predecessors@.len(),
                aids == texts(activity_ids@),
                error_views(errors@) == done + predecessor_errors_of(*act, aids, p as int),
            decreases act.predecessors@.len() - p,
        {
            let ghost listed = predecessor_errors_of(*act, aids, p as int);
            if find_text(activity_ids, &act.predecessors[p]).is_none() {
                let ghost before = errors@;
                let e = ValidationError {
                    kind: ValidationErrorKind::InvalidPredecessor,
                    message: reference_message(
                        &act.id,
                        "' references unknown predecessor '",
                        act.predecessors[p].as_str(),
                    ),
                };
                errors.push(e);
                proof {
                    lemma_error_views_push(before, e);
                    assert(e@ == unknown_predecessor_error(act.id@, act.predecessors@[p as int]@));
                    assert(done + listed.push(e@) =~= (done + listed).push(e@));
                }
            }
            p += 1;
        }
        proof {
            let own = predecessor_errors_of(*act, aids, act.predecessors@.len() as int);
            assert((start + predecessor_errors(all, aids, k as int)) + own =~= start + (
            predecessor_errors(all, aids, k as int) + own));
        }
        k += 1;
    }
}

/// The successor lists `g` say what the precedence relation of `acts` says,
/// with every identifier standing for the first activity that carries it.
pub open spec fn graph_matches(g: Seq<Seq<usize>>, acts: Seq<Activity>) -> bool {
    let ids = activity_id_texts(acts);
    &&& g.len() == acts.len()
    &&& well_formed(g)
    &&& forall|u: int, v: int| #[trigger] has_edge(g, u, v) ==> precedence_edge(acts, ids[u], ids[v])
    &&& forall|p: Seq<char>, q: Seq<char>| #[trigger]
        precedence_edge(acts, p, q) && ids.contains(p) ==> has_edge(
            g,
            first_index(ids, p),
            first_index(ids, q),
        )
}

/// Builds the successor lists of the precedence relation: for every
/// predecessor that resolves, an edge from it to the activity that names it.
fn precedence_graph(acts: &Vec<&Activity>, activity_ids: &Vec<String>) -> (succ: Vec<Vec<usize>>)
    requires
        texts(activity_ids@) == activity_id_texts(referenced(acts@)),
    ensures
        graph_matches(lists(succ@), referenced(acts@)),
{
    let ghost all = referenced(acts@);
    let ghost ids = texts(activity_ids@);
    let n = acts.len();
    let mut succ: Vec<Vec<usize>> = Vec::new();
    let mut z: usize = 0;
    while z < n
        invariant
            z <= n,
            succ@.len() == z,
            forall|u: int| 0 <= u < z ==> (#[trigger] succ@[u])@.len() == 0,
        decreases n - z,
    {
        succ.push(Vec::new());
        z += 1;
    }
    let mut k: usize = 0;
    while k < n
        invariant
            k <= n,
            n == acts@.len(),
            all == referenced(acts@),
            ids == texts(activity_ids@),
            ids == activity_id_texts(all),
            succ@.len() == n,
            well_formed(lists(succ@)),
            forall|u: int, v: int| #[trigger]
                has_edge(lists(succ@), u, v) ==> precedence_edge(all, ids[u], ids[v]),
            forall|k2: int, i2: int|
                0 <= k2 < k && 0 <= i2 < all[k2].predecessors@.len() && ids.contains(
                    #[trigger] all[k2].predecessors@[i2]@,
                ) ==> has_edge(
                    lists(succ@),
                    first_index(ids, all[k2].predecessors@[i2]@),
                    first_index(ids, ids[k2]),
                ),
        decreases n - k,
    {
        let act = acts[k];
        assert(all[k as int] == *act);
        assert(ids[k as int] == act.id@);
        let target = match find_text(activity_ids, &act.id) {
            Some(v) => v,
            None => {
                assert(ids.contains(ids[k as int]));
                k
            },
        };
        let mut i: usize = 0;
        while i < act.predecessors.len()
            invariant
                i <= act.predecessors@.len(),
                k < n,
                n == acts@.len(),
                all == referenced(acts@),
                all[k as int] == *act,
                ids == texts(activity_ids@),
                ids == activity_id_texts(all),
                succ@.len() == n,
                target < n,
                is_first_index(ids, act.id@, target as int),
                target as int == first_index(ids, act.id@),
                well_formed(lists(succ@)),
                forall|u: int, v: int| #[trigger]
                    has_edge(lists(succ@), u, v) ==> precedence_edge(all, ids[u], ids[v]),
                forall|k2: int, i2: int|
                    ((0 <= k2 < k && 0 <= i2 < all[k2].predecessors@.len()) || (k2 == k && 0 <= i2
                        < i)) && ids.contains(#[trigger] all[k2].predecessors@[i2]@) ==> has_edge(
                        lists(succ@),
                        first_index(ids, all[k2].predecessors@[i2]@),
                        first_index(ids, ids[k2]),
                    ),
            decreases act.predecessors@.len() - i,
        {
            match find_text(activity_ids, &act.predecessors[i]) {
                Some(source) => {
                    let ghost before = lists(succ@);
                    let mut row: Vec<usize> = Vec::new();
                    std::mem::swap(&mut row, &mut succ[source]);
                    row.push(target);
                    succ.set(source, row);
                    proof {
                        let after = lists(succ@);
                        let p = act.predecessors@[i as int]@;
                        assert(after[source as int] =~= before[source as int].push(target));
                        assert forall|u: int| 0 <= u < n && u != source implies after[u]
                            == before[u] by {}
                        assert forall|u: int, v: int| has_edge(before, u, v) implies has_edge(
                            after,
                            u,
                            v,
                        ) by {
                            let j = choose|j: int| 0 <= j < before[u].len() && #[trigger] before[u][j] == v;
                            assert(after[u][j] == v);
                        }
                        assert(after[source as int][before[source as int].len() as int] == target);
                        assert(has_edge(after, source as int, target as int));
                        assert(well_formed(after)) by {
                            assert forall|u: int, j: int|
                                0 <= u < after.len() && 0 <= j < after[u].len() implies #[trigger] after[u][j]
                                < after.len() by {
                                if u == source as int && j == before[u].len() {
                                } else {
                                    assert(before[u][j] < before.len());
                                }
                            }
                        }
                        assert forall|u: int, v: int| #[trigger]
                            has_edge(after, u, v) implies precedence_edge(all, ids[u], ids[v]) by {
                            let j = choose|j: int| 0 <= j < after[u].len() && #[trigger] after[u][j] == v;
                            if u == source as int && j == before[u].len() {
                                assert(edge_witness(all, ids[u], ids[v], k as int, i as int));
                            } else {
                                assert(before[u][j] == v);
                                assert(has_edge(before, u, v));
                            }
                        }
                        assert(ids[k as int] == act.id@);
                    }
                },
                None => {},
            }
            i += 1;
        }
        k += 1;
    }
    proof {
        let g = lists(succ@);
        assert forall|p: Seq<char>, q: Seq<char>| #[trigger]
            precedence_edge(all, p, q) && ids.contains(p) implies has_edge(
            g,
            first_index(ids, p),
            first_index(ids, q),
        ) by {
            let (k2, i2) = choose|k2: int, i2: int| edge_witness(all, p, q, k2, i2);
            assert(ids[k2] == q);
            assert(ids.contains(all[k2].predecessors@[i2]@));
        }
    }
    succ
}

/// A cycle of the successor lists is a cycle of the precedence relation.
proof fn lemma_graph_cycle_is_precedence_cycle(g: Seq<Seq<usize>>, acts: Seq<Activity>)
    requires
        graph_matches(g, acts),
        has_cycle(g),
    ensures
        has_precedence_cycle(acts),
{
    let ids = activity_id_texts(acts);
    let w = choose|w: Seq<int>| is_closed_walk(g, w);
    let named = Seq::new(w.len(), |i: int| ids[w[i]]);
    assert forall|i: int| 0 <= i < named.len() - 1 implies #[trigger] precedence_step(
        acts,
        named,
        i,
    ) by {
        assert(is_step(g, w, i));
    }
    assert(is_precedence_cycle(acts, named));
}

/// Every identifier on a walk along the precedence relation that starts at
/// an activity is the identifier of an activity.
proof fn lemma_walk_stays_among_activities(acts: Seq<Activity>, w: Seq<Seq<char>>, x: int)
    requires
        follows_precedence(acts, w),
        0 <= x < w.len(),
        x == 0 ==> activity_id_texts(acts).contains(w[0]),
    ensures
        activity_id_texts(acts).contains(w[x]),
{
    if x > 0 {
        assert(precedence_step(acts, w, x - 1));
        let a = w[x - 1];
        let b = w[x];
        assert(precedence_edge(acts, a, b));
        let (k, p) = choose|k: int, p: int| edge_witness(acts, a, b, k, p);
        assert(activity_id_texts(acts)[k] == b);
    }
}

/// A cycle of the precedence relation is a cycle of the successor lists.
proof fn lemma_precedence_cycle_is_graph_cycle(g: Seq<Seq<usize>>, acts: Seq<Activity>)
    requires
        graph_matches(g, acts),
        has_precedence_cycle(acts),
    ensures
        has_cycle(g),
{
    let ids = activity_id_texts(acts);
    let w = choose|w: Seq<Seq<char>>| is_precedence_cycle(acts, w);
    lemma_walk_stays_among_activities(acts, w, w.len() - 1);
    let numbered = Seq::new(w.len(), |i: int| first_index(ids, w[i]));
    assert forall|i: int| 0 <= i < numbered.len() - 1 implies #[trigger] is_step(g, numbered, i) by {
        assert(precedence_step(acts, w, i));
        lemma_walk_stays_among_activities(acts, w, i);
    }
    assert(is_closed_walk(g, numbered));
}

/// A walk of the successor lists that leads into a cycle is a walk of the
/// precedence relation that leads into a cycle.
proof fn lemma_graph_walk_is_precedence_walk(g: Seq<Seq<usize>>, acts: Seq<Activity>, u: int)
    requires
        graph_matches(g, acts),
        0 <= u < g.len(),
        leads_to_cycle(g, u),
    ensures
        runs_into_cycle(acts, acts[u].id@),
{
    let ids = activity_id_texts(acts);
    let (w, i) = choose|w: Seq<int>, i: int| is_returning_walk(g, w, u, i);
    let named = Seq::new(w.len(), |x: int| ids[w[x]]);
    assert forall|x: int| 0 <= x < named.len() - 1 implies #[trigger] precedence_step(
        acts,
        named,
        x,
    ) by {
        assert(is_step(g, w, x));
    }
    assert(is_walk_into_cycle(acts, named, acts[u].id@, i));
}

/// A walk of the precedence relation that starts at an activity and leads
/// into a cycle is a walk of the successor lists that leads into a cycle.
proof fn lemma_precedence_walk_is_graph_walk(g: Seq<Seq<usize>>, acts: Seq<Activity>, id: Seq<char>)
    requires
        graph_matches(g, acts),
        activity_id_texts(acts).contains(id),
        runs_into_cycle(acts, id),
    ensures
        leads_to_cycle(g, first_index(activity_id_texts(acts), id)),
{
    let ids = activity_id_texts(acts);
    let (w, i) = choose|w: Seq<Seq<char>>, i: int| is_walk_into_cycle(acts, w, id, i);
    let numbered = Seq::new(w.len(), |x: int| first_index(ids, w[x]));
    assert forall|x: int| 0 <= x < numbered.len() - 1 implies #[trigger] is_step(g, numbered, x) by {
        assert(precedence_step(acts, w, x));
        lemma_walk_stays_among_activities(acts, w, x);
    }
    assert(is_returning_walk(g, numbered, first_index(ids, id), i));
}

/// Detects a cycle in the precedence relation. The error names the first
/// activity, in the order of the input, that leads into a cycle.
pub fn detect_cycles(tasks: &[Task]) -> (r: Option<ValidationError>)
    ensures
        r.is_some() == has_precedence_cycle(all_activities(tasks@)),
        r.is_some() ==> exists|k: int| #[trigger]
            is_first_into_cycle(all_activities(tasks@), k) && r.unwrap()@ == cycle_error(
                all_activities(tasks@)[k].id@,
            ),
{
    let acts = flatten_activities(tasks);
    let activity_ids = activity_ids_of(&acts);
    detect_cycles_among(&acts, &activity_ids)
}

/// The identifiers of the activities, in order.
fn activity_ids_of(acts: &Vec<&Activity>) -> (ids: Vec<String>)
    ensures
        texts(ids@) == activity_id_texts(referenced(acts@)),
{
    let mut ids: Vec<String> = Vec::new();
    let mut k: usize = 0;
    while k < acts.len()
        invariant
            k <= acts@.len(),
            ids@.len() == k,
            forall|j: int| 0 <= j < k ==> (#[trigger] ids@[j])@ == acts@[j].id@,
        decreases acts@.len() - k,
    {
        ids.push(acts[k].id.clone());
        k += 1;
    }
    assert(texts(ids@) =~= activity_id_texts(referenced(acts@)));
    ids
}

/// Detects a cycle in the precedence relation of the listed activities.
fn detect_cycles_among(acts: &Vec<&Activity>, activity_ids: &Vec<String>) -> (r: Option<
    ValidationError,
>)
    requires
        texts(activity_ids@) == activity_id_texts(referenced(acts@)),
    ensures
        r.is_some() == has_precedence_cycle(referenced(acts@)),
        r.is_some() ==> exists|k: int| #[trigger]
            is_first_into_cycle(referenced(acts@), k) && r.unwrap()@ == cycle_error(
                referenced(acts@)[k].id@,
            ),
{
    let succ = precedence_graph(acts, activity_ids);
    let found = find_cycle(&succ);
    let ghost all = referenced(acts@);
    let ghost ids = texts(activity_ids@);
    let ghost g = lists(succ@);
    proof {
        if has_cycle(g) {
            lemma_graph_cycle_is_precedence_cycle(g, all);
        }
        if has_precedence_cycle(all) {
            lemma_precedence_cycle_is_graph_cycle(g, all);
        }
    }
    match found {
        Some(root) => {
            assert(g.len() == succ@.len() && g.len() == all.len());
            assert(ids.len() == activity_ids@.len() && ids.len() == all.len());
            assert(ids[root as int] == all[root as int].id@);
            assert(ids[root as int] == activity_ids@[root as int]@);
            let mut message = message_for(
                "Circular dependency detected involving activity '",
                &activity_ids[root],
            );
            message.append("'");
            let e = ValidationError { kind: ValidationErrorKind::CyclicDependency, message };
            proof {
                lemma_graph_walk_is_precedence_walk(g, all, root as int);
                assert forall|j: int| 0 <= j < root implies !runs_into_cycle(
                    all,
                    (#[trigger] all[j]).id@,
                ) by {
                    if runs_into_cycle(all, all[j].id@) {
                        assert(ids[j] == all[j].id@);
                        lemma_first_index(ids, ids[j]);
                        lemma_precedence_walk_is_graph_walk(g, all, ids[j]);
                        let first = first_index(ids, ids[j]);
                        assert(first <= j) by {
                            if first > j {
                                assert(ids[j] != ids[j]);
                            }
                        }
                        assert(!leads_to_cycle(g, first));
                    }
                }
                assert(is_first_into_cycle(all, root as int));
                assert(e@ == cycle_error(all[root as int].id@));
            }
            Some(e)
        },
        None => None,
    }
}

/// The identifiers of the resources, in order.
fn resource_ids_of(resources: &[Resource]) -> (ids: Vec<String>)
    ensures
        texts(ids@) == resource_id_texts(resources@),
{
    let mut ids: Vec<String> = Vec::new();
    let mut k: usize = 0;
    while k < resources.len()
        invariant
            k <= resources@.len(),
            ids@.len() == k,
            forall|j: int| 0 <= j < k ==> (#[trigger] ids@[j])@ == resources@[j].id@,
        decreases resources@.len() - k,
    {
        ids.push(resources[k].id.clone());
        k += 1;
    }
    assert(texts(ids@) =~= resource_id_texts(resources@));
    ids
}

/// The identifiers of the tasks, in order.
fn task_ids_of(tasks: &[Task]) -> (ids: Vec<String>)
    ensures
        texts(ids@) == task_id_texts(tasks@),
{
    let mut ids: Vec<String> = Vec::new();
    let mut k: usize = 0;
    while k < tasks.len()
        invariant
            k <= tasks@.len(),
            ids@.len() == k,
            forall|j: int| 0 <= j < k ==> (#[trigger] ids@[j])@ == tasks@[j].id@,
        decreases tasks@.len() - k,
    {
        ids.push(tasks[k].id.clone());
        k += 1;
    }
    assert(texts(ids@) =~= task_id_texts(tasks@));
    ids
}

/// Validates the input of a scheduling problem.
///
/// Returns `Ok` exactly when the input is valid. Otherwise the errors are,
/// in this order: one for every resource whose identifier occurred before;
/// task by task, one for the task if its identifier occurred before, one if
/// it has no activity, and one for every activity of it whose identifier
/// occurred before; one for every candidate that is no resource; one for
/// every predecessor that is no activity; and, when the precedence relation
/// has a cycle, one that names the first activity that leads into a cycle.
pub fn validate_input(tasks: &[Task], resources: &[Resource]) -> (r: ValidationResult)
    ensures
        r.is_ok() == input_is_valid(tasks@, resources@),
        r matches Err(errors) ==> errors@.len() > 0 && is_report_of(
            error_views(errors@),
            tasks@,
            resources@,
        ),
{
    let mut errors: Vec<ValidationError> = Vec::new();
    let resource_ids = resource_ids_of(resources);
    let task_ids = task_ids_of(tasks);
    let acts = flatten_activities(tasks);
    let activity_ids = activity_ids_of(&acts);
    let ghost all = all_activities(tasks@);
    let ghost rids = resource_id_texts(resources@);

    assert(error_views(errors@) =~= Seq::<ErrorView>::empty());
    assert(rids.len() == resources@.len());
    report_repeated(&resource_ids, 0, resource_ids.len(), "Duplicate resource ID: ", &mut errors);
    report_tasks(tasks, &task_ids, &activity_ids, &mut errors);
    report_unknown_candidates(&acts, &resource_ids, &mut errors);
    report_unknown_predecessors(&acts, &activity_ids, &mut errors);
    proof {
        let a = repeated_errors("Duplicate resource ID: "@, rids, 0, resources@.len() as int);
        let b = task_errors(tasks@, tasks@.len() as int);
        let c = candidate_errors(all, rids, all.len() as int);
        let d = predecessor_errors(all, activity_id_texts(all), all.len() as int);
        assert(error_views(errors@) == (((Seq::<ErrorView>::empty() + a) + b) + c) + d);
        assert((((Seq::<ErrorView>::empty() + a) + b) + c) + d =~= a + b + c + d);
        structural_errors_tell_validity(tasks@, resources@);
    }
    match detect_cycles_among(&acts, &activity_ids) {
        Some(e) => {
            let ghost before = errors@;
            errors.push(e);
            proof {
                lemma_error_views_push(before, e);
            }
        },
        None => {},
    }
    if errors.len() == 0 {
        Ok(())
    } else {
        Err(errors)
    }
}

} // verus!
