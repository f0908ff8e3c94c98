//! The greedy list schedule as a mathematical object.
//!
//! The schedule is defined step by step over a state: for every resource the
//! time at which it gets free and the category it last worked on, the
//! earliest start for the next activity of the task at hand, and the
//! assignments made so far. Times are mathematical integers here; the
//! executable scheduler computes the same values in 64 bits.

use vstd::prelude::*;
use crate::models::constraint::TransitionMatrixCollection;
use crate::models::resource::Resource;
use crate::models::schedule::AssignmentView;
use crate::models::task::Task;
use crate::validation::resource_id_texts;

verus! {

/// State of the greedy scheduler between two activities.
pub struct GreedyState {
    /// For every known resource, the time at which it gets free.
    pub available: Map<Seq<char>, int>,
    /// For every resource that has worked, the category it last worked on.
    pub last_category: Map<Seq<char>, Seq<char>>,
    /// Earliest start of the next activity of the task at hand.
    pub cursor: int,
    /// The assignments made so far.
    pub out: Seq<AssignmentView>,
    /// For every assignment, the position of its task and of its activity in that task.
    pub origin: Seq<(int, int)>,
}

/// The state before any task: every resource is free at `start`.
pub open spec fn initial_state(resources: Seq<Resource>, start: int) -> GreedyState {
    GreedyState {
        available: Map::new(
            |r: Seq<char>| resource_id_texts(resources).contains(r),
            |r: Seq<char>| start,
        ),
        last_category: Map::empty(),
        cursor: start,
        out: Seq::empty(),
        origin: Seq::empty(),
    }
}

/// The earliest time at which resource `r` can start the next activity.
pub open spec fn earliest(st: GreedyState, r: Seq<char>) -> int {
    if st.available[r] >= st.cursor {
        st.available[r]
    } else {
        st.cursor
    }
}

/// Candidate `i` is a known resource.
pub open spec fn is_known(st: GreedyState, cands: Seq<Seq<char>>, i: int) -> bool {
    0 <= i < cands.len() && st.available.contains_key(cands[i])
}

/// Candidate `i` is the pick among the first `n` candidates: a known
/// resource that can start no later than any other known one, and the first
/// such in the list.
pub open spec fn is_pick_among(st: GreedyState, cands: Seq<Seq<char>>, i: int, n: int) -> bool {
    &&& is_known(st, cands, i)
    &&& i < n
    &&& forall|j: int|
        0 <= j < n && #[trigger] is_known(st, cands, j) ==> earliest(st, cands[i]) < earliest(
            st,
            cands[j],
        ) || (earliest(st, cands[i]) == earliest(st, cands[j]) && i <= j)
}

/// Candidate `i` is the pick among all candidates.
pub open spec fn is_pick(st: GreedyState, cands: Seq<Seq<char>>, i: int) -> bool {
    is_pick_among(st, cands, i, cands.len() as int)
}

/// Some candidate is a known resource.
pub open spec fn has_pick(st: GreedyState, cands: Seq<Seq<char>>) -> bool {
    exists|i: int| is_known(st, cands, i)
}

/// The picked candidate. Meaningful when some candidate is known.
pub open spec fn pick(st: GreedyState, cands: Seq<Seq<char>>) -> int {
    choose|i: int| is_pick(st, cands, i)
}

/// Setup time on resource `r` for a task of the given category: what the
/// matrices say for the move from the last category, 0 on a fresh resource.
pub open spec fn setup_for(
    st: GreedyState,
    matrices: TransitionMatrixCollection,
    r: Seq<char>,
    category: Seq<char>,
) -> int {
    if st.last_category.contains_key(r) {
        matrices.spec_get_transition_time(r, st.last_category[r], category) as int
    } else {
        0
    }
}

/// The state after activity `k` of task `t` has been placed. An activity
/// without a known candidate leaves the state as it is.
pub open spec fn place(
    st: GreedyState,
    tasks: Seq<Task>,
    matrices: TransitionMatrixCollection,
    t: int,
    k: int,
) -> GreedyState {
    let task = tasks[t];
    let act = task.activities@[k];
    let cands = act.spec_candidates();
    if !has_pick(st, cands) {
        st
    } else {
        let r = cands[pick(st, cands)];
        let start = earliest(st, r);
        let setup = setup_for(st, matrices, r, task.category@);
        let end = start + setup + act.duration.process_ms;
        GreedyState {
            available: st.available.insert(r, end),
            last_category: st.last_category.insert(r, task.category@),
            cursor: end,
            out: st.out.push(
                AssignmentView {
                    activity_id: act.id@,
                    task_id: task.id@,
                    resource_id: r,
                    start_ms: start,
                    end_ms: end,
                    setup_ms: setup,
                },
            ),
            origin: st.origin.push((t, k)),
        }
    }
}

/// The state after the first `n` activities of task `t` have been placed.
pub open spec fn place_first(
    st: GreedyState,
    tasks: Seq<Task>,
    matrices: TransitionMatrixCollection,
    t: int,
    n: int,
) -> GreedyState
    decreases n,
{
    if n <= 0 {
        st
    } else {
        place(place_first(st, tasks, matrices, t, n - 1), tasks, matrices, t, n - 1)
    }
}

/// The earliest start of a task: its release time, but not before `start`.
pub open spec fn task_start(task: Task, start: int) -> int {
    match task.release_time {
        Some(r) => if r >= start { r as int } else { start },
        None => start,
    }
}

/// The state at the beginning of a task.
pub open spec fn begin_task(st: GreedyState, task: Task, start: int) -> GreedyState {
    GreedyState { cursor: task_start(task, start), ..st }
}

/// The state after the first `n` tasks of `order` have been scheduled.
pub open spec fn run_first(
    tasks: Seq<Task>,
    resources: Seq<Resource>,
    matrices: TransitionMatrixCollection,
    start: int,
    order: Seq<usize>,
    n: int,
) -> GreedyState
    decreases n,
{
    if n <= 0 {
        initial_state(resources, start)
    } else {
        let t = order[n - 1] as int;
        place_first(
            begin_task(run_first(tasks, resources, matrices, start, order, n - 1), tasks[t], start),
            tasks,
            matrices,
            t,
            tasks[t].activities@.len() as int,
        )
    }
}

/// The greedy list schedule of `tasks` taken in the given order.
pub open spec fn greedy_run(
    tasks: Seq<Task>,
    resources: Seq<Resource>,
    matrices: TransitionMatrixCollection,
    start: int,
    order: Seq<usize>,
) -> GreedyState {
    run_first(tasks, resources, matrices, start, order, order.len() as int)
}

/// Every start and end time fits in 64 bits.
pub open spec fn times_fit(out: Seq<AssignmentView>) -> bool {
    forall|j: int|
        0 <= j < out.len() ==> i64::MIN <= (#[trigger] out[j]).end_ms <= i64::MAX && i64::MIN
            <= out[j].start_ms <= i64::MAX
}

/// The assignments of `b` begin with those of `a`.
pub open spec fn grows_from(a: GreedyState, b: GreedyState) -> bool {
    &&& a.out.len() <= b.out.len()
    &&& forall|j: int| 0 <= j < a.out.len() ==> #[trigger] b.out[j] == a.out[j]
}

/// Among the known candidates exactly one is the pick.
pub proof fn lemma_pick_is_unique(st: GreedyState, cands: Seq<Seq<char>>, i: int)
    requires
        is_pick(st, cands, i),
    ensures
        has_pick(st, cands),
        pick(st, cands) == i,
{
    let p = pick(st, cands);
    assert(is_pick(st, cands, p));
    assert(is_known(st, cands, i));
    assert(is_known(st, cands, p));
}

/// When some candidate is known, the pick is one of the known candidates.
pub proof fn lemma_pick_exists(st: GreedyState, cands: Seq<Seq<char>>)
    requires
        has_pick(st, cands),
    ensures
        is_pick(st, cands, pick(st, cands)),
{
    let w = choose|i: int| is_known(st, cands, i);
    assert(is_known(st, cands, w) && w < cands.len());
    lemma_pick_among_exists(st, cands, cands.len() as int);
    let b = choose|i: int| is_pick_among(st, cands, i, cands.len() as int);
    assert(is_pick(st, cands, b));
}

/// When one of the first `n` candidates is known, one of them is the pick among them.
proof fn lemma_pick_among_exists(st: GreedyState, cands: Seq<Seq<char>>, n: int)
    requires
        0 <= n <= cands.len(),
        exists|i: int| is_known(st, cands, i) && i < n,
    ensures
        exists|i: int| is_pick_among(st, cands, i, n),
    decreases n,
{
    let last = n - 1;
    if exists|i: int| is_known(st, cands, i) && i < last {
        lemma_pick_among_exists(st, cands, last);
        let b = choose|i: int| is_pick_among(st, cands, i, last);
        if is_known(st, cands, last) && earliest(st, cands[last]) < earliest(st, cands[b]) {
            assert(is_pick_among(st, cands, last, n));
        } else {
            assert(is_pick_among(st, cands, b, n));
        }
    } else {
        let w = choose|i: int| is_known(st, cands, i) && i < n;
        assert(w == last);
        assert(is_pick_among(st, cands, last, n));
    }
}

/// Placing an activity keeps the assignments made before.
pub proof fn lemma_place_grows(
    st: GreedyState,
    tasks: Seq<Task>,
    matrices: TransitionMatrixCollection,
    t: int,
    k: int,
)
    ensures
        grows_from(st, place(st, tasks, matrices, t, k)),
{
}

/// Placing more activities of a task keeps the assignments made before.
pub proof fn lemma_place_first_grows(
    st: GreedyState,
    tasks: Seq<Task>,
    matrices: TransitionMatrixCollection,
    t: int,
    m: int,
    n: int,
)
    requires
        0 <= m <= n,
    ensures
        grows_from(
            place_first(st, tasks, matrices, t, m),
            place_first(st, tasks, matrices, t, n),
        ),
    decreases n - m,
{
    if m < n {
        lemma_place_first_grows(st, tasks, matrices, t, m, n - 1);
        lemma_place_grows(place_first(st, tasks, matrices, t, n - 1), tasks, matrices, t, n - 1);
    }
}

/// Scheduling more tasks keeps the assignments made before.
pub proof fn lemma_run_first_grows(
    tasks: Seq<Task>,
    resources: Seq<Resource>,
    matrices: TransitionMatrixCollection,
    start: int,
    order: Seq<usize>,
    m: int,
    n: int,
)
    requires
        0 <= m <= n,
    ensures
        grows_from(
            run_first(tasks, resources, matrices, start, order, m),
            run_first(tasks, resources, matrices, start, order, n),
        ),
    decreases n - m,
{
    if m < n {
        lemma_run_first_grows(tasks, resources, matrices, start, order, m, n - 1);
        let t = order[n - 1] as int;
        let before = run_first(tasks, resources, matrices, start, order, n - 1);
        lemma_place_first_grows(
            begin_task(before, tasks[t], start),
            tasks,
            matrices,
            t,
            0,
            tasks[t].activities@.len() as int,
        );
    }
}

} // verus!
