//! What every decoded schedule guarantees.
//!
//! The statements are about the mathematical schedule that the decoder is
//! proved to compute. They are proved by induction over the entries of the
//! operation sequence.

use vstd::prelude::*;
use crate::ga::problem::{
    decode_first, decode_place, decode_step, is_activity_position, time_or_zero, DecodeState,
    ProblemView,
};
use crate::models::schedule::AssignmentView;
use crate::scheduler::guarantees::{disjoint_on_resources, runs_forward};

verus! {

/// The release time of a task, 0 when it has none.
pub open spec fn release_or_zero(problem: ProblemView, task_id: Seq<char>) -> int {
    if problem.release_times.contains_key(task_id) {
        problem.release_times[task_id] as int
    } else {
        0
    }
}

/// The assignment stands for an activity of the problem: it carries the
/// task of the activity, lasts as long as its setup plus the processing
/// time of the activity, and starts no earlier than the task is released.
pub open spec fn stands_for_activity(problem: ProblemView, a: AssignmentView) -> bool {
    exists|i: int|
        0 <= i < problem.activities.len() && a.task_id == (#[trigger] problem.activities[i]).task_id
            && a.end_ms - a.start_ms == a.setup_ms + problem.activities[i].process_ms
}

/// Two assignments of the same task follow each other: the earlier one
/// ends before the later one starts.
pub open spec fn chained_by_task(out: Seq<AssignmentView>) -> bool {
    forall|i: int, j: int|
        0 <= i < j < out.len() && (#[trigger] out[i]).task_id == (#[trigger] out[j]).task_id
            ==> out[i].end_ms <= out[j].start_ms
}

/// What holds of every state of a decoding.
pub open spec fn decoded_well(st: DecodeState, problem: ProblemView) -> bool {
    &&& forall|j: int| 0 <= j < st.out.len() ==> stands_for_activity(problem, #[trigger] st.out[j])
    &&& forall|j: int|
        0 <= j < st.out.len() ==> (#[trigger] st.out[j]).start_ms >= release_or_zero(
            problem,
            st.out[j].task_id,
        )
    &&& runs_forward(st.out) ==> {
        &&& forall|j: int|
            0 <= j < st.out.len() ==> st.resource_ready.contains_key(
                (#[trigger] st.out[j]).resource_id,
            ) && st.out[j].end_ms <= st.resource_ready[st.out[j].resource_id]
        &&& forall|j: int|
            0 <= j < st.out.len() ==> st.task_ready.contains_key((#[trigger] st.out[j]).task_id)
                && st.out[j].end_ms <= st.task_ready[st.out[j].task_id]
        &&& disjoint_on_resources(st.out)
        &&& chained_by_task(st.out)
    }
}

/// Placing an activity keeps what holds of a decoding.
proof fn lemma_place_decoded(st: DecodeState, problem: ProblemView, i: int, r: Seq<char>)
    requires
        decoded_well(st, problem),
        0 <= i < problem.activities.len(),
    ensures
        decoded_well(decode_place(st, problem, i, r), problem),
{
    let next = decode_place(st, problem, i, r);
    let n = st.out.len() as int;
    let a = problem.activities[i];
    assert forall|j: int| 0 <= j < n implies next.out[j] == st.out[j] by {}
    assert(next.out[n].task_id == a.task_id);
    assert(stands_for_activity(problem, next.out[n]));
    assert forall|j: int| 0 <= j < next.out.len() implies stands_for_activity(
        problem,
        #[trigger] next.out[j],
    ) by {
        if j < n {
            assert(stands_for_activity(problem, st.out[j]));
        }
    }
    assert forall|j: int| 0 <= j < next.out.len() implies (#[trigger] next.out[j]).start_ms
        >= release_or_zero(problem, next.out[j].task_id) by {
        if j < n {
            assert(st.out[j].start_ms >= release_or_zero(problem, st.out[j].task_id));
        }
    }
    if runs_forward(next.out) {
        assert(runs_forward(st.out)) by {
            assert forall|j: int| 0 <= j < st.out.len() implies (#[trigger] st.out[j]).start_ms
                <= st.out[j].end_ms by {
                assert(next.out[j].start_ms <= next.out[j].end_ms);
            }
        }
        assert(next.out[n].start_ms <= next.out[n].end_ms);
        assert(next.out[n].start_ms >= time_or_zero(st.resource_ready, r));
        assert(next.out[n].start_ms >= time_or_zero(st.task_ready, a.task_id));
        assert forall|j: int| 0 <= j < next.out.len() implies next.resource_ready.contains_key(
            (#[trigger] next.out[j]).resource_id,
        ) && next.out[j].end_ms <= next.resource_ready[next.out[j].resource_id] by {
            if j < n {
                assert(st.resource_ready.contains_key(st.out[j].resource_id));
            }
        }
        assert forall|j: int| 0 <= j < next.out.len() implies next.task_ready.contains_key(
            (#[trigger] next.out[j]).task_id,
        ) && next.out[j].end_ms <= next.task_ready[next.out[j].task_id] by {
            if j < n {
                assert(st.task_ready.contains_key(st.out[j].task_id));
            }
        }
        assert(disjoint_on_resources(next.out)) by {
            assert forall|x: int, y: int|
                0 <= x < y < next.out.len() && (#[trigger] next.out[x]).resource_id == (
                #[trigger] next.out[y]).resource_id implies next.out[x].end_ms
                <= next.out[y].start_ms by {
                if y < n {
                    assert(st.out[x].end_ms <= st.out[y].start_ms);
                } else {
                    assert(st.out[x].end_ms <= st.resource_ready[st.out[x].resource_id]);
                }
            }
        }
        assert(chained_by_task(next.out)) by {
            assert forall|x: int, y: int|
                0 <= x < y < next.out.len() && (#[trigger] next.out[x]).task_id == (
                #[trigger] next.out[y]).task_id implies next.out[x].end_ms
                <= next.out[y].start_ms by {
                if y < n {
                    assert(st.out[x].end_ms <= st.out[y].start_ms);
                } else {
                    assert(st.out[x].end_ms <= st.task_ready[st.out[x].task_id]);
                }
            }
        }
    }
}

/// Decoding the first `n` entries keeps what holds of a decoding.
proof fn lemma_decode_first_well(
    problem: ProblemView,
    mav: Seq<Seq<char>>,
    entries: Seq<(Seq<char>, int)>,
    n: int,
)
    ensures
        decoded_well(decode_first(problem, mav, entries, n), problem),
    decreases n,
{
    if n > 0 {
        lemma_decode_first_well(problem, mav, entries, n - 1);
        let st = decode_first(problem, mav, entries, n - 1);
        let entry = entries[n - 1];
        if exists|i: int| is_activity_position(problem.activities, entry.0, entry.1, i) {
            let i = choose|i: int| is_activity_position(problem.activities, entry.0, entry.1, i);
            if i < mav.len() && mav[i].len() > 0 {
                lemma_place_decoded(st, problem, i, mav[i]);
            }
        }
        assert(decode_first(problem, mav, entries, n) == decode_step(st, problem, mav, entry));
    }
}

/// Every assignment of a decoded schedule stands for an activity of the
/// problem: it lasts as long as its setup plus the processing time of the
/// activity, and starts no earlier than its task is released. If the
/// assignments run forward, two assignments on the same resource never
/// overlap, and two assignments of the same task follow each other.
pub proof fn decoded_schedule_is_feasible(
    problem: ProblemView,
    mav: Seq<Seq<char>>,
    entries: Seq<(Seq<char>, int)>,
    n: int,
)
    ensures
        forall|j: int|
            0 <= j < decode_first(problem, mav, entries, n).out.len() ==> stands_for_activity(
                problem,
                #[trigger] decode_first(problem, mav, entries, n).out[j],
            ) && decode_first(problem, mav, entries, n).out[j].start_ms >= release_or_zero(
                problem,
                decode_first(problem, mav, entries, n).out[j].task_id,
            ),
        runs_forward(decode_first(problem, mav, entries, n).out) ==> disjoint_on_resources(
            decode_first(problem, mav, entries, n).out,
        ) && chained_by_task(decode_first(problem, mav, entries, n).out),
{
    lemma_decode_first_well(problem, mav, entries, n);
}

} // verus!
