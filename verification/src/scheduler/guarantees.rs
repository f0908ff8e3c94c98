//! What every greedy list schedule guarantees.
//!
//! The statements are about the mathematical schedule that the executable
//! scheduler is proved to compute. They are proved by induction over the
//! steps of the run.

use vstd::prelude::*;
use crate::models::constraint::TransitionMatrixCollection;
use crate::models::resource::Resource;
use crate::models::schedule::AssignmentView;
use crate::models::task::Task;
use crate::scheduler::model::{
    begin_task, earliest, greedy_run, has_pick, is_known, lemma_pick_exists, pick, place,
    place_first, run_first, task_start, GreedyState,
};
use crate::validation::{activity_id_texts, task_id_texts};

verus! {

/// No assignment ends before it starts.
pub open spec fn runs_forward(out: Seq<AssignmentView>) -> bool {
    forall|j: int| 0 <= j < out.len() ==> (#[trigger] out[j]).start_ms <= out[j].end_ms
}

/// Assignment `i` is the last one on resource `r`.
pub open spec fn is_last_on(out: Seq<AssignmentView>, i: int, r: Seq<char>) -> bool {
    &&& 0 <= i < out.len()
    &&& out[i].resource_id == r
    &&& forall|m: int| i < m < out.len() ==> (#[trigger] out[m]).resource_id != r
}

/// Assignment `i` is the one before assignment `j` on the resource of `j`.
pub open spec fn is_previous_on(out: Seq<AssignmentView>, i: int, j: int) -> bool {
    &&& 0 <= i < j < out.len()
    &&& out[i].resource_id == out[j].resource_id
    &&& forall|m: int| i < m < j ==> (#[trigger] out[m]).resource_id != out[j].resource_id
}

/// Assignment `j` is the first on its resource.
pub open spec fn is_first_on_resource(out: Seq<AssignmentView>, j: int) -> bool {
    forall|i: int| 0 <= i < j ==> (#[trigger] out[i]).resource_id != out[j].resource_id
}

/// Every assignment is what its activity asks for: it carries the
/// identifiers of its task and activity, stands on one of the activity's
/// candidates, a known resource, and lasts as long as its setup plus the
/// activity's processing time.
pub open spec fn traced(st: GreedyState, tasks: Seq<Task>) -> bool {
    &&& st.origin.len() == st.out.len()
    &&& forall|j: int|
        0 <= j < st.out.len() ==> {
            let t = (#[trigger] st.origin[j]).0;
            let k = st.origin[j].1;
            &&& 0 <= t < tasks.len()
            &&& 0 <= k < tasks[t].activities@.len()
            &&& st.out[j].task_id == tasks[t].id@
            &&& st.out[j].activity_id == tasks[t].activities@[k].id@
            &&& st.out[j].end_ms - st.out[j].start_ms == st.out[j].setup_ms
                + tasks[t].activities@[k].duration.process_ms
            &&& tasks[t].activities@[k].spec_candidates().contains(st.out[j].resource_id)
            &&& st.available.contains_key(st.out[j].resource_id)
        }
}

/// The state remembers, for every resource that has worked, the category of
/// the task of its last assignment.
pub open spec fn categories_tracked(st: GreedyState, tasks: Seq<Task>) -> bool {
    &&& forall|r: Seq<char>| #[trigger]
        st.last_category.contains_key(r) ==> exists|i: int|
            is_last_on(st.out, i, r) && st.last_category[r] == tasks[st.origin[i].0].category@
    &&& forall|i: int|
        0 <= i < st.out.len() ==> st.last_category.contains_key((#[trigger] st.out[i]).resource_id)
}

/// The setup time of every assignment is what the matrices give for the
/// move from the category of the assignment before it on the same resource;
/// the first assignment on a resource has none.
pub open spec fn setup_attributed(
    st: GreedyState,
    tasks: Seq<Task>,
    matrices: TransitionMatrixCollection,
) -> bool {
    &&& forall|j: int|
        0 <= j < st.out.len() && is_first_on_resource(st.out, j) ==> (#[trigger] st.out[j]).setup_ms
            == 0
    &&& forall|i: int, j: int| #[trigger]
        is_previous_on(st.out, i, j) ==> st.out[j].setup_ms == matrices.spec_get_transition_time(
            st.out[j].resource_id,
            tasks[st.origin[i].0].category@,
            tasks[st.origin[j].0].category@,
        )
}

/// What holds of every state of a run, whatever the durations.
pub open spec fn accounted(st: GreedyState, tasks: Seq<Task>, matrices: TransitionMatrixCollection) -> bool {
    &&& traced(st, tasks)
    &&& categories_tracked(st, tasks)
    &&& setup_attributed(st, tasks, matrices)
}

/// Placing an activity keeps every assignment accounted for.
proof fn lemma_place_accounted(
    st: GreedyState,
    tasks: Seq<Task>,
    matrices: TransitionMatrixCollection,
    t: int,
    k: int,
)
    requires
        accounted(st, tasks, matrices),
        0 <= t < tasks.len(),
        0 <= k < tasks[t].activities@.len(),
    ensures
        accounted(place(st, tasks, matrices, t, k), tasks, matrices),
{
    let next = place(st, tasks, matrices, t, k);
    let cands = tasks[t].activities@[k].spec_candidates();
    if has_pick(st, cands) {
        lemma_pick_exists(st, cands);
        let r = cands[pick(st, cands)];
        let n = st.out.len() as int;
        assert(is_known(st, cands, pick(st, cands)));
        assert(next.out[n].resource_id == r);
        assert forall|j: int| 0 <= j < n implies next.out[j] == st.out[j] && next.origin[j]
            == st.origin[j] by {}
        assert(traced(next, tasks)) by {
            assert forall|j: int| 0 <= j < next.out.len() implies {
                let t2 = (#[trigger] next.origin[j]).0;
                let k2 = next.origin[j].1;
                &&& 0 <= t2 < tasks.len()
                &&& 0 <= k2 < tasks[t2].activities@.len()
                &&& next.out[j].task_id == tasks[t2].id@
                &&& next.out[j].activity_id == tasks[t2].activities@[k2].id@
                &&& next.out[j].end_ms - next.out[j].start_ms == next.out[j].setup_ms
                    + tasks[t2].activities@[k2].duration.process_ms
                &&& tasks[t2].activities@[k2].spec_candidates().contains(next.out[j].resource_id)
                &&& next.available.contains_key(next.out[j].resource_id)
            } by {
                if j < n {
                    assert(st.origin[j] == next.origin[j]);
                    assert(st.available.contains_key(st.out[j].resource_id));
                } else {
                    assert(cands[pick(st, cands)] == r);
                }
            }
        }
        assert(categories_tracked(next, tasks)) by {
            assert forall|q: Seq<char>| #[trigger] next.last_category.contains_key(q) implies exists|
                i: int,
            |
                is_last_on(next.out, i, q) && next.last_category[q] == tasks[next.origin[i].0].category@ by {
                if q == r {
                    assert(is_last_on(next.out, n, q));
                } else {
                    assert(st.last_category.contains_key(q));
                    let i = choose|i: int|
                        is_last_on(st.out, i, q) && st.last_category[q] == tasks[st.origin[i].0].category@;
                    assert(is_last_on(next.out, i, q)) by {
                        assert forall|m: int| i < m < next.out.len() implies (#[trigger] next.out[m]).resource_id
                            != q by {
                            if m < n {
                                assert(st.out[m].resource_id != q);
                            }
                        }
                    }
                    assert(next.origin[i] == st.origin[i]);
                }
            }
            assert forall|i: int| 0 <= i < next.out.len() implies next.last_category.contains_key(
                (#[trigger] next.out[i]).resource_id,
            ) by {
                if i < n {
                    assert(st.last_category.contains_key(st.out[i].resource_id));
                }
            }
        }
        assert(setup_attributed(next, tasks, matrices)) by {
            assert forall|j: int|
                0 <= j < next.out.len() && is_first_on_resource(next.out, j) implies (#[trigger] next.out[j]).setup_ms
                == 0 by {
                if j < n {
                    assert(is_first_on_resource(st.out, j)) by {
                        assert forall|i: int| 0 <= i < j implies (#[trigger] st.out[i]).resource_id
                            != st.out[j].resource_id by {
                            assert(next.out[i].resource_id != next.out[j].resource_id);
                        }
                    }
                } else {
                    if st.last_category.contains_key(r) {
                        let i = choose|i: int|
                            is_last_on(st.out, i, r) && st.last_category[r]
                                == tasks[st.origin[i].0].category@;
                        assert(next.out[i].resource_id == r);
                        assert(false);
                    }
                }
            }
            assert forall|i: int, j: int| #[trigger] is_previous_on(next.out, i, j) implies next.out[j].setup_ms
                == matrices.spec_get_transition_time(
                next.out[j].resource_id,
                tasks[next.origin[i].0].category@,
                tasks[next.origin[j].0].category@,
            ) by {
                if j < n {
                    assert(is_previous_on(st.out, i, j)) by {
                        assert forall|m: int| i < m < j implies (#[trigger] st.out[m]).resource_id
                            != st.out[j].resource_id by {
                            assert(next.out[m].resource_id != next.out[j].resource_id);
                        }
                    }
                    assert(next.origin[i] == st.origin[i]);
                    assert(next.origin[j] == st.origin[j]);
                } else {
                    assert(st.out[i].resource_id == r);
                    assert(st.last_category.contains_key(st.out[i].resource_id));
                    let l = choose|l: int|
                        is_last_on(st.out, l, r) && st.last_category[r] == tasks[st.origin[l].0].category@;
                    if l < i {
                        assert(st.out[i].resource_id != r);
                    } else if i < l {
                        assert(next.out[l].resource_id != next.out[j].resource_id);
                    }
                    assert(l == i);
                    assert(next.origin[i] == st.origin[i]);
                }
            }
        }
    }
}

/// Placing the first `n` activities of a task keeps every assignment accounted for.
proof fn lemma_place_first_accounted(
    st: GreedyState,
    tasks: Seq<Task>,
    matrices: TransitionMatrixCollection,
    t: int,
    n: int,
)
    requires
        accounted(st, tasks, matrices),
        0 <= t < tasks.len(),
        0 <= n <= tasks[t].activities@.len(),
    ensures
        accounted(place_first(st, tasks, matrices, t, n), tasks, matrices),
    decreases n,
{
    if n > 0 {
        lemma_place_first_accounted(st, tasks, matrices, t, n - 1);
        lemma_place_accounted(place_first(st, tasks, matrices, t, n - 1), tasks, matrices, t, n - 1);
    }
}

/// After the first `n` tasks every assignment is accounted for.
proof fn lemma_run_first_accounted(
    tasks: Seq<Task>,
    resources: Seq<Resource>,
    matrices: TransitionMatrixCollection,
    start: int,
    order: Seq<usize>,
    n: int,
)
    requires
        0 <= n <= order.len(),
        forall|x: int| 0 <= x < order.len() ==> #[trigger] order[x] < tasks.len(),
    ensures
        accounted(run_first(tasks, resources, matrices, start, order, n), tasks, matrices),
    decreases n,
{
    if n > 0 {
        lemma_run_first_accounted(tasks, resources, matrices, start, order, n - 1);
        let t = order[n - 1] as int;
        let before = run_first(tasks, resources, matrices, start, order, n - 1);
        let begun = begin_task(before, tasks[t], start);
        assert(accounted(begun, tasks, matrices));
        lemma_place_first_accounted(begun, tasks, matrices, t, tasks[t].activities@.len() as int);
    }
}

/// Every assignment of a greedy schedule is accounted for: it stands for an
/// activity of the input, on one of the activity's candidates; it lasts as
/// long as its setup plus the activity's processing time; and its setup is
/// what the matrices give for the move from the category of the assignment
/// before it on the same resource, or 0 for the first on a resource.
pub proof fn greedy_assignments_are_accounted(
    tasks: Seq<Task>,
    resources: Seq<Resource>,
    matrices: TransitionMatrixCollection,
    start: int,
    order: Seq<usize>,
)
    requires
        forall|x: int| 0 <= x < order.len() ==> #[trigger] order[x] < tasks.len(),
    ensures
        traced(greedy_run(tasks, resources, matrices, start, order), tasks),
        setup_attributed(greedy_run(tasks, resources, matrices, start, order), tasks, matrices),
{
    lemma_run_first_accounted(tasks, resources, matrices, start, order, order.len() as int);
}

/// Every assignment ends no later than its resource gets free.
pub open spec fn resources_tracked(st: GreedyState) -> bool {
    forall|j: int|
        0 <= j < st.out.len() ==> st.available.contains_key((#[trigger] st.out[j]).resource_id)
            && st.out[j].end_ms <= st.available[st.out[j].resource_id]
}

/// Two assignments on the same resource do not overlap: the earlier one
/// ends before the later one starts.
pub open spec fn disjoint_on_resources(out: Seq<AssignmentView>) -> bool {
    forall|i: int, j: int|
        0 <= i < j < out.len() && (#[trigger] out[i]).resource_id == (#[trigger] out[j]).resource_id
            ==> out[i].end_ms <= out[j].start_ms
}

/// What holds of the resources of a run whose assignments run forward.
pub open spec fn resources_kept(st: GreedyState) -> bool {
    runs_forward(st.out) ==> resources_tracked(st) && disjoint_on_resources(st.out)
}

/// Placing an activity keeps the assignments on every resource apart.
proof fn lemma_place_resources(
    st: GreedyState,
    tasks: Seq<Task>,
    matrices: TransitionMatrixCollection,
    t: int,
    k: int,
)
    requires
        resources_kept(st),
    ensures
        resources_kept(place(st, tasks, matrices, t, k)),
{
    let next = place(st, tasks, matrices, t, k);
    let cands = tasks[t].activities@[k].spec_candidates();
    if has_pick(st, cands) && runs_forward(next.out) {
        lemma_pick_exists(st, cands);
        let r = cands[pick(st, cands)];
        let n = st.out.len() as int;
        assert(is_known(st, cands, pick(st, cands)));
        assert forall|j: int| 0 <= j < n implies next.out[j] == st.out[j] by {}
        assert(runs_forward(st.out)) by {
            assert forall|j: int| 0 <= j < st.out.len() implies (#[trigger] st.out[j]).start_ms
                <= st.out[j].end_ms by {
                assert(next.out[j].start_ms <= next.out[j].end_ms);
            }
        }
        assert(next.out[n].start_ms <= next.out[n].end_ms);
        assert(next.out[n].start_ms == earliest(st, r));
        assert(resources_tracked(next)) by {
            assert forall|j: int| 0 <= j < next.out.len() implies next.available.contains_key(
                (#[trigger] next.out[j]).resource_id,
            ) && next.out[j].end_ms <= next.available[next.out[j].resource_id] by {
                if j < n {
                    assert(st.available.contains_key(st.out[j].resource_id));
                }
            }
        }
        assert(disjoint_on_resources(next.out)) by {
            assert forall|i: int, j: int|
                0 <= i < j < next.out.len() && (#[trigger] next.out[i]).resource_id == (
                #[trigger] next.out[j]).resource_id implies next.out[i].end_ms
                <= next.out[j].start_ms by {
                if j < n {
                    assert(st.out[i].end_ms <= st.out[j].start_ms);
                } else {
                    assert(st.out[i].end_ms <= st.available[st.out[i].resource_id]);
                }
            }
        }
    }
}

/// Placing the first `n` activities of a task keeps the assignments on every resource apart.
proof fn lemma_place_first_resources(
    st: GreedyState,
    tasks: Seq<Task>,
    matrices: TransitionMatrixCollection,
    t: int,
    n: int,
)
    requires
        resources_kept(st),
    ensures
        resources_kept(place_first(st, tasks, matrices, t, n)),
    decreases n,
{
    if n > 0 {
        lemma_place_first_resources(st, tasks, matrices, t, n - 1);
        lemma_place_resources(place_first(st, tasks, matrices, t, n - 1), tasks, matrices, t, n - 1);
    }
}

/// After the first `n` tasks the assignments on every resource are apart.
proof fn lemma_run_first_resources(
    tasks: Seq<Task>,
    resources: Seq<Resource>,
    matrices: TransitionMatrixCollection,
    start: int,
    order: Seq<usize>,
    n: int,
)
    ensures
        resources_kept(run_first(tasks, resources, matrices, start, order, n)),
    decreases n,
{
    if n > 0 {
        lemma_run_first_resources(tasks, resources, matrices, start, order, n - 1);
        let t = order[n - 1] as int;
        let before = run_first(tasks, resources, matrices, start, order, n - 1);
        let begun = begin_task(before, tasks[t], start);
        assert(resources_kept(begun));
        lemma_place_first_resources(begun, tasks, matrices, t, tasks[t].activities@.len() as int);
    }
}

/// In a greedy schedule whose assignments run forward, two assignments on
/// the same resource never overlap.
pub proof fn greedy_resources_are_disjoint(
    tasks: Seq<Task>,
    resources: Seq<Resource>,
    matrices: TransitionMatrixCollection,
    start: int,
    order: Seq<usize>,
)
    requires
        runs_forward(greedy_run(tasks, resources, matrices, start, order).out),
    ensures
        disjoint_on_resources(greedy_run(tasks, resources, matrices, start, order).out),
{
    lemma_run_first_resources(tasks, resources, matrices, start, order, order.len() as int);
}

/// Two assignments of the same task follow each other: the earlier one ends
/// before the later one starts.
pub open spec fn chained_in_tasks(st: GreedyState) -> bool {
    forall|i: int, j: int|
        0 <= i < j < st.out.len() && (#[trigger] st.origin[i]).0 == (#[trigger] st.origin[j]).0
            ==> st.out[i].end_ms <= st.out[j].start_ms
}

/// Assignment `i` is the one before assignment `j` in the task of `j`.
pub open spec fn is_previous_in_task(st: GreedyState, i: int, j: int) -> bool {
    &&& 0 <= i < j < st.out.len()
    &&& st.origin[i].0 == st.origin[j].0
    &&& forall|m: int| i < m < j ==> (#[trigger] st.origin[m]).0 != st.origin[j].0
}

/// No assignment starts before the one before it in its task has ended.
pub open spec fn follows_in_tasks(st: GreedyState) -> bool {
    forall|i: int, j: int| #[trigger]
        is_previous_in_task(st, i, j) ==> st.out[i].end_ms <= st.out[j].start_ms
}

/// Assignment `j` is the last one of task `t`.
pub open spec fn is_last_of_task(st: GreedyState, j: int, t: int) -> bool {
    &&& 0 <= j < st.out.len()
    &&& st.origin[j].0 == t
    &&& forall|m: int| j < m < st.out.len() ==> (#[trigger] st.origin[m]).0 != t
}

/// Assignment `j` is the first of its task.
pub open spec fn is_first_of_task(st: GreedyState, j: int) -> bool {
    forall|i: int| 0 <= i < j ==> (#[trigger] st.origin[i]).0 != st.origin[j].0
}

/// Assignment `j` starts no earlier than its task may start: at or after
/// the task's release time and the start of the schedule.
pub open spec fn honors_release(st: GreedyState, tasks: Seq<Task>, start: int, j: int) -> bool {
    st.out[j].start_ms >= task_start(tasks[st.origin[j].0], start)
}

/// The first assignment of every task honors the task's release time; in a
/// run whose assignments run forward, every assignment does.
pub open spec fn releases_honored(st: GreedyState, tasks: Seq<Task>, start: int) -> bool {
    &&& forall|j: int|
        0 <= j < st.out.len() && #[trigger] is_first_of_task(st, j) ==> honors_release(
            st,
            tasks,
            start,
            j,
        )
    &&& runs_forward(st.out) ==> forall|j: int|
        0 <= j < st.out.len() ==> #[trigger] honors_release(st, tasks, start, j)
}

/// Every assignment made so far belongs to one of the first `n` tasks of the order.
pub open spec fn tasks_seen(st: GreedyState, order: Seq<usize>, n: int) -> bool {
    &&& st.origin.len() == st.out.len()
    &&& forall|j: int|
        0 <= j < st.origin.len() ==> exists|x: int|
            0 <= x < n && x < order.len() && order[x] == (#[trigger] st.origin[j]).0
}

/// What holds between two tasks of a run.
pub open spec fn tasks_kept(st: GreedyState, tasks: Seq<Task>, start: int, order: Seq<usize>, n: int) -> bool {
    &&& tasks_seen(st, order, n)
    &&& releases_honored(st, tasks, start)
    &&& follows_in_tasks(st)
    &&& runs_forward(st.out) ==> chained_in_tasks(st)
}

/// What holds while task `t`, number `n` of the order, is being scheduled.
pub open spec fn task_kept(
    st: GreedyState,
    tasks: Seq<Task>,
    start: int,
    order: Seq<usize>,
    n: int,
    t: int,
) -> bool {
    &&& tasks_kept(st, tasks, start, order, n + 1)
    &&& (forall|j: int| 0 <= j < st.origin.len() ==> (#[trigger] st.origin[j]).0 != t) ==> st.cursor
        == task_start(tasks[t], start)
    &&& forall|j: int| #[trigger] is_last_of_task(st, j, t) ==> st.out[j].end_ms == st.cursor
    &&& runs_forward(st.out) ==> {
        &&& st.cursor >= task_start(tasks[t], start)
        &&& forall|j: int|
            0 <= j < st.out.len() && (#[trigger] st.origin[j]).0 == t ==> st.out[j].end_ms
                <= st.cursor
    }
}

/// Placing an activity of the task at hand keeps what holds of the tasks.
proof fn lemma_place_tasks(
    st: GreedyState,
    tasks: Seq<Task>,
    matrices: TransitionMatrixCollection,
    start: int,
    order: Seq<usize>,
    n: int,
    k: int,
)
    requires
        0 <= n < order.len(),
        task_kept(st, tasks, start, order, n, order[n] as int),
    ensures
        task_kept(
            place(st, tasks, matrices, order[n] as int, k),
            tasks,
            start,
            order,
            n,
            order[n] as int,
        ),
{
    let t = order[n] as int;
    let next = place(st, tasks, matrices, t, k);
    let cands = tasks[t].activities@[k].spec_candidates();
    if has_pick(st, cands) {
        lemma_pick_exists(st, cands);
        let r = cands[pick(st, cands)];
        let m = st.out.len() as int;
        assert forall|j: int| 0 <= j < m implies next.out[j] == st.out[j] && next.origin[j]
            == st.origin[j] by {}
        assert(next.origin[m] == (t, k));
        assert(next.out[m].start_ms == earliest(st, r));
        assert(next.out[m].start_ms >= st.cursor);
        assert(tasks_seen(next, order, n + 1)) by {
            assert forall|j: int| 0 <= j < next.origin.len() implies exists|x: int|
                0 <= x < n + 1 && x < order.len() && order[x] == (#[trigger] next.origin[j]).0 by {
                if j < m {
                    assert(next.origin[j] == st.origin[j]);
                    let x = choose|x: int|
                        0 <= x < n + 1 && x < order.len() && order[x] == st.origin[j].0;
                    assert(order[x] == next.origin[j].0);
                } else {
                    assert(order[n] == next.origin[j].0);
                }
            }
        }
        if runs_forward(next.out) {
            assert(runs_forward(st.out)) by {
                assert forall|j: int| 0 <= j < st.out.len() implies (#[trigger] st.out[j]).start_ms
                    <= st.out[j].end_ms by {
                    assert(next.out[j].start_ms <= next.out[j].end_ms);
                }
            }
            assert(next.out[m].start_ms <= next.out[m].end_ms);
            assert(chained_in_tasks(next)) by {
                assert forall|i: int, j: int|
                    0 <= i < j < next.out.len() && (#[trigger] next.origin[i]).0 == (
                    #[trigger] next.origin[j]).0 implies next.out[i].end_ms
                    <= next.out[j].start_ms by {
                    if j < m {
                        assert(st.origin[i].0 == st.origin[j].0);
                    } else {
                        assert(st.origin[i].0 == t);
                    }
                }
            }
            assert forall|j: int| 0 <= j < next.out.len() implies #[trigger] honors_release(
                next,
                tasks,
                start,
                j,
            ) by {
                if j < m {
                    assert(honors_release(st, tasks, start, j));
                }
            }
            assert forall|j: int|
                0 <= j < next.out.len() && (#[trigger] next.origin[j]).0 == t implies next.out[j].end_ms
                <= next.cursor by {
                if j < m {
                    assert(st.origin[j].0 == t);
                }
            }
        }
        assert forall|j: int|
            0 <= j < next.out.len() && #[trigger] is_first_of_task(next, j) implies honors_release(
            next,
            tasks,
            start,
            j,
        ) by {
            if j < m {
                assert(is_first_of_task(st, j)) by {
                    assert forall|i: int| 0 <= i < j implies (#[trigger] st.origin[i]).0
                        != st.origin[j].0 by {
                        assert(next.origin[i].0 != next.origin[j].0);
                    }
                }
                assert(honors_release(st, tasks, start, j));
            } else {
                assert forall|i: int| 0 <= i < st.origin.len() implies (#[trigger] st.origin[i]).0
                    != t by {
                    assert(next.origin[i].0 != next.origin[j].0);
                }
            }
        }
        assert(next.origin[m].0 == t);
        assert forall|i: int, j: int| #[trigger] is_previous_in_task(next, i, j) implies next.out[i].end_ms
            <= next.out[j].start_ms by {
            if j < m {
                assert(is_previous_in_task(st, i, j)) by {
                    assert forall|x: int| i < x < j implies (#[trigger] st.origin[x]).0
                        != st.origin[j].0 by {
                        assert(next.origin[x].0 != next.origin[j].0);
                    }
                }
            } else {
                assert(is_last_of_task(st, i, t)) by {
                    assert forall|x: int| i < x < st.out.len() implies (#[trigger] st.origin[x]).0
                        != t by {
                        assert(next.origin[x].0 != next.origin[j].0);
                    }
                }
            }
        }
        assert forall|j: int| #[trigger] is_last_of_task(next, j, t) implies next.out[j].end_ms
            == next.cursor by {
            if j < m {
                assert(next.origin[m].0 != t);
            }
        }
    }
}

/// Placing the first `k` activities of the task at hand keeps what holds of the tasks.
proof fn lemma_place_first_tasks(
    st: GreedyState,
    tasks: Seq<Task>,
    matrices: TransitionMatrixCollection,
    start: int,
    order: Seq<usize>,
    n: int,
    k: int,
)
    requires
        0 <= n < order.len(),
        task_kept(st, tasks, start, order, n, order[n] as int),
    ensures
        task_kept(
            place_first(st, tasks, matrices, order[n] as int, k),
            tasks,
            start,
            order,
            n,
            order[n] as int,
        ),
    decreases k,
{
    if k > 0 {
        lemma_place_first_tasks(st, tasks, matrices, start, order, n, k - 1);
        lemma_place_tasks(
            place_first(st, tasks, matrices, order[n] as int, k - 1),
            tasks,
            matrices,
            start,
            order,
            n,
            k - 1,
        );
    }
}

/// After the first `n` tasks of an order without repetition, what holds between two tasks holds.
proof fn lemma_run_first_tasks(
    tasks: Seq<Task>,
    resources: Seq<Resource>,
    matrices: TransitionMatrixCollection,
    start: int,
    order: Seq<usize>,
    n: int,
)
    requires
        0 <= n <= order.len(),
        order.no_duplicates(),
    ensures
        tasks_kept(run_first(tasks, resources, matrices, start, order, n), tasks, start, order, n),
    decreases n,
{
    if n > 0 {
        lemma_run_first_tasks(tasks, resources, matrices, start, order, n - 1);
        let t = order[n - 1] as int;
        let before = run_first(tasks, resources, matrices, start, order, n - 1);
        let begun = begin_task(before, tasks[t], start);
        assert forall|j: int| 0 <= j < begun.origin.len() implies (#[trigger] begun.origin[j]).0
            != t by {
            let x = choose|x: int| 0 <= x < n - 1 && x < order.len() && order[x] == before.origin[j].0;
            assert(order[x] != order[n - 1]);
        }
        assert(tasks_seen(begun, order, n)) by {
            assert forall|j: int| 0 <= j < begun.origin.len() implies exists|x: int|
                0 <= x < n && x < order.len() && order[x] == (#[trigger] begun.origin[j]).0 by {
                let x = choose|x: int|
                    0 <= x < n - 1 && x < order.len() && order[x] == before.origin[j].0;
                assert(order[x] == begun.origin[j].0);
            }
        }
        assert(releases_honored(begun, tasks, start)) by {
            assert forall|j: int|
                0 <= j < begun.out.len() && #[trigger] is_first_of_task(
                    begun,
                    j,
                ) implies honors_release(begun, tasks, start, j) by {
                assert(is_first_of_task(before, j));
                assert(honors_release(before, tasks, start, j));
            }
            if runs_forward(begun.out) {
                assert forall|j: int| 0 <= j < begun.out.len() implies #[trigger] honors_release(
                    begun,
                    tasks,
                    start,
                    j,
                ) by {
                    assert(honors_release(before, tasks, start, j));
                }
            }
        }
        assert(follows_in_tasks(begun)) by {
            assert forall|i: int, j: int| #[trigger] is_previous_in_task(begun, i, j) implies begun.out[i].end_ms
                <= begun.out[j].start_ms by {
                assert(is_previous_in_task(before, i, j));
            }
        }
        assert forall|j: int| #[trigger] is_last_of_task(begun, j, t) implies begun.out[j].end_ms
            == begun.cursor by {
            assert(begun.origin[j].0 != t);
        }
        assert(task_kept(begun, tasks, start, order, n - 1, t));
        lemma_place_first_tasks(
            begun,
            tasks,
            matrices,
            start,
            order,
            n - 1,
            tasks[t].activities@.len() as int,
        );
    }
}

/// In a greedy schedule that takes every task at most once, the first
/// assignment of every task honors the task's release time, and no
/// assignment starts before the one before it in its task has ended. If
/// moreover its assignments run forward, every assignment honors the
/// release time, and any two assignments of one task follow each other
/// without overlap.
pub proof fn greedy_tasks_are_chained(
    tasks: Seq<Task>,
    resources: Seq<Resource>,
    matrices: TransitionMatrixCollection,
    start: int,
    order: Seq<usize>,
)
    requires
        order.no_duplicates(),
    ensures
        releases_honored(greedy_run(tasks, resources, matrices, start, order), tasks, start),
        follows_in_tasks(greedy_run(tasks, resources, matrices, start, order)),
        runs_forward(greedy_run(tasks, resources, matrices, start, order).out) ==> chained_in_tasks(
            greedy_run(tasks, resources, matrices, start, order),
        ),
{
    lemma_run_first_tasks(tasks, resources, matrices, start, order, order.len() as int);
}

/// The assignments of a task come in the order of its activities.
pub open spec fn ordered_in_tasks(st: GreedyState) -> bool {
    forall|i: int, j: int|
        0 <= i < j < st.out.len() && (#[trigger] st.origin[i]).0 == (#[trigger] st.origin[j]).0
            ==> st.origin[i].1 < st.origin[j].1
}

/// Every assignment of task `t` stands for one of its first `k` activities.
pub open spec fn placed_below(st: GreedyState, t: int, k: int) -> bool {
    forall|j: int|
        0 <= j < st.origin.len() && (#[trigger] st.origin[j]).0 == t ==> 0 <= st.origin[j].1 < k
}

/// No assignment starts before the assignment of the activity before it in
/// its task has ended.
pub open spec fn follows_by_sequence(st: GreedyState) -> bool {
    forall|i: int, j: int|
        0 <= i < st.out.len() && 0 <= j < st.out.len() && (#[trigger] st.origin[i]).0 == (
        #[trigger] st.origin[j]).0 && st.origin[i].1 + 1 == st.origin[j].1 ==> st.out[i].end_ms
            <= st.out[j].start_ms
}

/// Placing activity `k` of a task keeps its assignments in the order of its activities.
proof fn lemma_place_ordered(
    st: GreedyState,
    tasks: Seq<Task>,
    matrices: TransitionMatrixCollection,
    t: int,
    k: int,
)
    requires
        0 <= k,
        st.origin.len() == st.out.len(),
        ordered_in_tasks(st),
        placed_below(st, t, k),
    ensures
        place(st, tasks, matrices, t, k).origin.len() == place(st, tasks, matrices, t, k).out.len(),
        ordered_in_tasks(place(st, tasks, matrices, t, k)),
        placed_below(place(st, tasks, matrices, t, k), t, k + 1),
{
    let next = place(st, tasks, matrices, t, k);
    let cands = tasks[t].activities@[k].spec_candidates();
    if has_pick(st, cands) {
        let m = st.out.len() as int;
        assert forall|j: int| 0 <= j < m implies next.origin[j] == st.origin[j] by {}
        assert(next.origin[m] == (t, k));
        assert forall|i: int, j: int|
            0 <= i < j < next.out.len() && (#[trigger] next.origin[i]).0 == (
            #[trigger] next.origin[j]).0 implies next.origin[i].1 < next.origin[j].1 by {
            if j < m {
                assert(st.origin[i].0 == st.origin[j].0);
            } else {
                assert(st.origin[i].0 == t);
            }
        }
        assert forall|j: int| 0 <= j < next.origin.len() && (#[trigger] next.origin[j]).0
            == t implies 0 <= next.origin[j].1 < k + 1 by {
            if j < m {
                assert(st.origin[j].0 == t);
            }
        }
    } else {
        assert forall|j: int| 0 <= j < st.origin.len() && (#[trigger] st.origin[j]).0
            == t implies 0 <= st.origin[j].1 < k + 1 by {}
    }
}

/// Placing the first `k` activities of a task keeps its assignments in the
/// order of its activities.
proof fn lemma_place_first_ordered(
    st: GreedyState,
    tasks: Seq<Task>,
    matrices: TransitionMatrixCollection,
    t: int,
    k: int,
)
    requires
        0 <= k,
        st.origin.len() == st.out.len(),
        ordered_in_tasks(st),
        placed_below(st, t, 0),
    ensures
        place_first(st, tasks, matrices, t, k).origin.len() == place_first(
            st,
            tasks,
            matrices,
            t,
            k,
        ).out.len(),
        ordered_in_tasks(place_first(st, tasks, matrices, t, k)),
        placed_below(place_first(st, tasks, matrices, t, k), t, k),
    decreases k,
{
    if k > 0 {
        lemma_place_first_ordered(st, tasks, matrices, t, k - 1);
        lemma_place_ordered(place_first(st, tasks, matrices, t, k - 1), tasks, matrices, t, k - 1);
    }
}

/// After the first `n` tasks of an order without repetition, the
/// assignments of every task come in the order of its activities.
proof fn lemma_run_first_ordered(
    tasks: Seq<Task>,
    resources: Seq<Resource>,
    matrices: TransitionMatrixCollection,
    start: int,
    order: Seq<usize>,
    n: int,
)
    requires
        0 <= n <= order.len(),
        order.no_duplicates(),
    ensures
        run_first(tasks, resources, matrices, start, order, n).origin.len() == run_first(
            tasks,
            resources,
            matrices,
            start,
            order,
            n,
        ).out.len(),
        ordered_in_tasks(run_first(tasks, resources, matrices, start, order, n)),
    decreases n,
{
    if n > 0 {
        lemma_run_first_ordered(tasks, resources, matrices, start, order, n - 1);
        lemma_run_first_tasks(tasks, resources, matrices, start, order, n - 1);
        let t = order[n - 1] as int;
        let before = run_first(tasks, resources, matrices, start, order, n - 1);
        let begun = begin_task(before, tasks[t], start);
        assert forall|j: int| 0 <= j < begun.origin.len() implies (#[trigger] begun.origin[j]).0
            != t by {
            let x = choose|x: int| 0 <= x < n - 1 && x < order.len() && order[x] == before.origin[j].0;
            assert(order[x] != order[n - 1]);
        }
        assert(ordered_in_tasks(begun)) by {
            assert forall|i: int, j: int|
                0 <= i < j < begun.out.len() && (#[trigger] begun.origin[i]).0 == (
                #[trigger] begun.origin[j]).0 implies begun.origin[i].1 < begun.origin[j].1 by {
                assert(before.origin[i].0 == before.origin[j].0);
            }
        }
        lemma_place_first_ordered(begun, tasks, matrices, t, tasks[t].activities@.len() as int);
    }
}

/// In a greedy schedule that takes every task at most once, the
/// assignments of a task come in the order of its activities, and none
/// starts before the assignment of the activity before it in the task has
/// ended.
pub proof fn greedy_tasks_follow_in_sequence(
    tasks: Seq<Task>,
    resources: Seq<Resource>,
    matrices: TransitionMatrixCollection,
    start: int,
    order: Seq<usize>,
)
    requires
        order.no_duplicates(),
    ensures
        ordered_in_tasks(greedy_run(tasks, resources, matrices, start, order)),
        follows_by_sequence(greedy_run(tasks, resources, matrices, start, order)),
{
    let st = greedy_run(tasks, resources, matrices, start, order);
    lemma_run_first_ordered(tasks, resources, matrices, start, order, order.len() as int);
    lemma_run_first_tasks(tasks, resources, matrices, start, order, order.len() as int);
    assert forall|i: int, j: int|
        0 <= i < st.out.len() && 0 <= j < st.out.len() && (#[trigger] st.origin[i]).0 == (
        #[trigger] st.origin[j]).0 && st.origin[i].1 + 1 == st.origin[j].1 implies st.out[i].end_ms
        <= st.out[j].start_ms by {
        if j < i {
            assert(st.origin[j].1 < st.origin[i].1);
        }
        assert(is_previous_in_task(st, i, j)) by {
            assert forall|m: int| i < m < j implies (#[trigger] st.origin[m]).0 != st.origin[j].0 by {
                if st.origin[m].0 == st.origin[j].0 {
                    assert(st.origin[i].1 < st.origin[m].1);
                    assert(st.origin[m].1 < st.origin[j].1);
                }
            }
        }
    }
}

/// No activity has a negative processing time.
pub open spec fn durations_nonnegative(tasks: Seq<Task>) -> bool {
    forall|t: int, k: int|
        0 <= t < tasks.len() && 0 <= k < tasks[t].activities@.len() ==> (
        #[trigger] tasks[t].activities@[k]).duration.process_ms >= 0
}

/// The matrices give no negative setup time.
pub open spec fn setups_nonnegative(matrices: TransitionMatrixCollection) -> bool {
    forall|r: Seq<char>, from: Seq<char>, to: Seq<char>| #[trigger]
        matrices.spec_get_transition_time(r, from, to) >= 0
}

/// An assignment is the first on its resource or has one before it there.
proof fn lemma_previous_or_first(out: Seq<AssignmentView>, j: int, k: int)
    requires
        0 <= k <= j < out.len(),
        forall|m: int| k <= m < j ==> (#[trigger] out[m]).resource_id != out[j].resource_id,
    ensures
        is_first_on_resource(out, j) || exists|i: int| is_previous_on(out, i, j),
    decreases k,
{
    if k > 0 {
        if out[k - 1].resource_id == out[j].resource_id {
            assert(is_previous_on(out, k - 1, j));
        } else {
            lemma_previous_or_first(out, j, k - 1);
        }
    }
}

/// With processing times and setup times that are not negative, no
/// assignment of a greedy schedule ends before it starts.
pub proof fn greedy_runs_forward(
    tasks: Seq<Task>,
    resources: Seq<Resource>,
    matrices: TransitionMatrixCollection,
    start: int,
    order: Seq<usize>,
)
    requires
        forall|x: int| 0 <= x < order.len() ==> #[trigger] order[x] < tasks.len(),
        durations_nonnegative(tasks),
        setups_nonnegative(matrices),
    ensures
        runs_forward(greedy_run(tasks, resources, matrices, start, order).out),
{
    let run = greedy_run(tasks, resources, matrices, start, order);
    greedy_assignments_are_accounted(tasks, resources, matrices, start, order);
    assert forall|j: int| 0 <= j < run.out.len() implies (#[trigger] run.out[j]).start_ms
        <= run.out[j].end_ms by {
        let t = run.origin[j].0;
        let k = run.origin[j].1;
        assert(tasks[t].activities@[k].duration.process_ms >= 0);
        lemma_previous_or_first(run.out, j, j);
        if is_first_on_resource(run.out, j) {
            assert(run.out[j].setup_ms == 0);
        } else {
            let i = choose|i: int| is_previous_on(run.out, i, j);
            assert(matrices.spec_get_transition_time(
                run.out[j].resource_id,
                tasks[run.origin[i].0].category@,
                tasks[run.origin[j].0].category@,
            ) >= 0);
        }
    }
}

/// No two tasks share an identifier, and no two activities of a task do.
pub open spec fn identifiers_distinct(tasks: Seq<Task>) -> bool {
    &&& task_id_texts(tasks).no_duplicates()
    &&& forall|t: int|
        0 <= t < tasks.len() ==> activity_id_texts((#[trigger] tasks[t]).activities@).no_duplicates()
}

/// Assignment `a` is the one of activity `k` of task `t`.
pub open spec fn stands_for(a: AssignmentView, tasks: Seq<Task>, t: int, k: int) -> bool {
    &&& 0 <= t < tasks.len()
    &&& 0 <= k < tasks[t].activities@.len()
    &&& a.task_id == tasks[t].id@
    &&& a.activity_id == tasks[t].activities@[k].id@
}

/// Every assignment of a task starts no earlier than the task may start:
/// at or after its release time and the start of the schedule.
pub open spec fn starts_after_release(out: Seq<AssignmentView>, tasks: Seq<Task>, start: int) -> bool {
    forall|j: int, t: int|
        0 <= j < out.len() && 0 <= t < tasks.len() && (#[trigger] out[j]).task_id == (
        #[trigger] tasks[t]).id@ ==> out[j].start_ms >= task_start(tasks[t], start)
}

/// The assignment of an activity starts no earlier than the assignment of
/// the activity before it in its task ends.
pub open spec fn follows_activity_order(out: Seq<AssignmentView>, tasks: Seq<Task>) -> bool {
    forall|i: int, j: int, t: int, k: int|
        0 <= i < out.len() && 0 <= j < out.len() && #[trigger] stands_for(out[i], tasks, t, k)
            && #[trigger] stands_for(out[j], tasks, t, k + 1) ==> out[i].end_ms <= out[j].start_ms
}

/// What a greedy schedule owes to its input. With distinct identifiers, the
/// assignment of an activity starts no earlier than the assignment of the
/// activity before it in its task ends. With processing times and setup
/// times that are not negative, no assignment ends before it starts, and
/// two assignments on the same resource never overlap; if moreover no two
/// tasks share an identifier, every assignment starts no earlier than its
/// task may start.
pub open spec fn meets_guarantees(
    out: Seq<AssignmentView>,
    tasks: Seq<Task>,
    matrices: TransitionMatrixCollection,
    start: int,
) -> bool {
    &&& identifiers_distinct(tasks) ==> follows_activity_order(out, tasks)
    &&& durations_nonnegative(tasks) && setups_nonnegative(matrices) ==> runs_forward(out)
        && disjoint_on_resources(out)
    &&& durations_nonnegative(tasks) && setups_nonnegative(matrices) && task_id_texts(
        tasks,
    ).no_duplicates() ==> starts_after_release(out, tasks, start)
}

/// The greedy schedule of tasks with distinct identifiers, each taken once:
/// the assignment of an activity starts no earlier than the assignment of
/// the activity before it in its task ends. With processing times and setup
/// times that are not negative, moreover, no assignment ends before it
/// starts, two assignments on the same resource never overlap, and every
/// assignment starts no earlier than its task may start.
pub proof fn greedy_schedule_is_feasible(
    tasks: Seq<Task>,
    resources: Seq<Resource>,
    matrices: TransitionMatrixCollection,
    start: int,
    order: Seq<usize>,
)
    requires
        forall|x: int| 0 <= x < order.len() ==> #[trigger] order[x] < tasks.len(),
        order.no_duplicates(),
    ensures
        meets_guarantees(
            greedy_run(tasks, resources, matrices, start, order).out,
            tasks,
            matrices,
            start,
        ),
{
    let st = greedy_run(tasks, resources, matrices, start, order);
    let out = st.out;
    greedy_assignments_are_accounted(tasks, resources, matrices, start, order);
    greedy_tasks_are_chained(tasks, resources, matrices, start, order);
    greedy_tasks_follow_in_sequence(tasks, resources, matrices, start, order);
    let tids = task_id_texts(tasks);
    if identifiers_distinct(tasks) {
        assert forall|i: int, j: int, t: int, k: int|
            0 <= i < out.len() && 0 <= j < out.len() && #[trigger] stands_for(out[i], tasks, t, k)
                && #[trigger] stands_for(out[j], tasks, t, k + 1) implies out[i].end_ms
            <= out[j].start_ms by {
            let oi = st.origin[i];
            let oj = st.origin[j];
            assert(tids[oi.0] == tids[t] && tids[oj.0] == tids[t]);
            assert(oi.0 == t && oj.0 == t);
            let aids = activity_id_texts(tasks[t].activities@);
            assert(aids.no_duplicates());
            assert(aids[oi.1] == aids[k] && aids[oj.1] == aids[k + 1]);
            assert(oi.1 == k && oj.1 == k + 1);
        }
    }
    if durations_nonnegative(tasks) && setups_nonnegative(matrices) {
        greedy_runs_forward(tasks, resources, matrices, start, order);
        greedy_resources_are_disjoint(tasks, resources, matrices, start, order);
        if tids.no_duplicates() {
            assert forall|j: int, t: int|
                0 <= j < out.len() && 0 <= t < tasks.len() && (#[trigger] out[j]).task_id == (
                #[trigger] tasks[t]).id@ implies out[j].start_ms >= task_start(tasks[t], start) by {
                let o = st.origin[j];
                assert(tids[o.0] == tids[t]);
                assert(o.0 == t);
                assert(honors_release(st, tasks, start, j));
            }
        }
    }
}

} // verus!
