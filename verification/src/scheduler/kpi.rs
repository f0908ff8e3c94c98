//! Schedule quality metrics.
//!
//! Rates and averages are exact fractions: the on-time rate is the number of
//! tasks without a miss over the number of tasks with an assignment, the
//! utilization of a resource is its busy time over the makespan.

use vstd::prelude::*;
use crate::collections::StringMap;
use crate::collections::first_seen;
use crate::models::schedule::{
    for_resource, for_task, latest_end, lemma_latest_end_is_maximum, resources_of, total_busy,
    AssignmentView, Ratio, Schedule,
};
use crate::models::task::Task;
use crate::scheduler::guarantees::{disjoint_on_resources, runs_forward};

verus! {

/// Sums over the tasks that have an assignment.
pub struct KpiTotals {
    /// Sum of the tardiness of the tasks.
    pub total_tardiness: int,
    /// Largest tardiness of a task.
    pub max_tardiness: int,
    /// Number of tasks without deadline or completed by their deadline.
    pub on_time: int,
    /// Number of tasks with an assignment.
    pub counted: int,
    /// Sum of completion minus release time.
    pub total_flow: int,
}

/// Completion time of a task: the latest end of its assignments.
pub open spec fn completion(out: Seq<AssignmentView>, task: Task) -> Option<int> {
    latest_end(for_task(out, task.id@))
}

/// Tardiness of a task: how far its completion lies behind its deadline; 0
/// for a task on time, without deadline or without assignment.
pub open spec fn tardiness(out: Seq<AssignmentView>, task: Task) -> int {
    match (completion(out, task), task.deadline) {
        (Some(c), Some(d)) => if c > d { c - d } else { 0 },
        _ => 0,
    }
}

/// Release time of a task, 0 when it has none.
pub open spec fn release_of(task: Task) -> int {
    match task.release_time {
        Some(r) => r as int,
        None => 0,
    }
}

/// The sums over `tasks`.
pub open spec fn totals(out: Seq<AssignmentView>, tasks: Seq<Task>) -> KpiTotals
    decreases tasks.len(),
{
    if tasks.len() == 0 {
        KpiTotals { total_tardiness: 0, max_tardiness: 0, on_time: 0, counted: 0, total_flow: 0 }
    } else {
        let before = totals(out, tasks.drop_last());
        let task = tasks.last();
        match completion(out, task) {
            None => before,
            Some(c) => {
                let late = tardiness(out, task);
                KpiTotals {
                    total_tardiness: before.total_tardiness + late,
                    max_tardiness: if late > before.max_tardiness {
                        late
                    } else {
                        before.max_tardiness
                    },
                    on_time: before.on_time + if late > 0 { 0int } else { 1int },
                    counted: before.counted + 1,
                    total_flow: before.total_flow + (c - release_of(task)),
                }
            },
        }
    }
}

/// The resources that have an assignment.
pub open spec fn used_resources(out: Seq<AssignmentView>) -> Set<Seq<char>> {
    Set::new(|r: Seq<char>| exists|i: int| 0 <= i < out.len() && out[i].resource_id == r)
}

/// The makespan: the latest end, 0 without assignments.
pub open spec fn makespan_of(out: Seq<AssignmentView>) -> int {
    match latest_end(out) {
        Some(m) => m,
        None => 0,
    }
}

/// Every sum that the metrics need fits in 64 bits: the busy times, when
/// the makespan is positive, and the tardiness and the flow time of the
/// tasks.
pub open spec fn kpi_fits(out: Seq<AssignmentView>, tasks: Seq<Task>) -> bool {
    &&& makespan_of(out) > 0 ==> forall|k: int, r: Seq<char>|
        0 <= k <= out.len() ==> i64::MIN <= #[trigger] total_busy(for_resource(out.take(k), r))
            <= i64::MAX
    &&& makespan_of(out) > 0 ==> forall|k: int|
        0 <= k <= out.len() ==> i64::MIN <= #[trigger] total_busy(out.take(k)) <= i64::MAX
    &&& forall|k: int|
        0 <= k <= tasks.len() ==> (#[trigger] totals(out, tasks.take(k))).total_tardiness <= i64::MAX
            && i64::MIN <= totals(out, tasks.take(k)).total_flow <= i64::MAX
}

/// The sums are what their names say: none is negative but the flow time,
/// no more tasks are on time than were counted, and the largest tardiness
/// is no larger than the total.
pub proof fn lemma_totals_bounds(out: Seq<AssignmentView>, tasks: Seq<Task>)
    ensures
        0 <= totals(out, tasks).max_tardiness <= totals(out, tasks).total_tardiness,
        0 <= totals(out, tasks).on_time <= totals(out, tasks).counted <= tasks.len(),
    decreases tasks.len(),
{
    if tasks.len() > 0 {
        lemma_totals_bounds(out, tasks.drop_last());
    }
}

/// Schedule performance indicators. All times are in milliseconds.
#[derive(Debug, Clone)]
pub struct ScheduleKpi {
    /// Makespan: the latest completion time.
    pub makespan_ms: i64,
    /// Sum of tardiness over all tasks.
    pub total_tardiness_ms: i64,
    /// Largest tardiness of a single task.
    pub max_tardiness_ms: i64,
    /// Tasks without a miss over tasks with an assignment; 1 when there are none.
    pub on_time_rate: Ratio,
    /// Mean utilization of the resources with an assignment; 0 when there are none.
    pub avg_utilization: Ratio,
    /// Busy time of every resource with an assignment; its utilization is
    /// this over the makespan.
    pub busy_by_resource: StringMap<i64>,
    /// Mean of completion minus release time over the tasks with an
    /// assignment; 0 when there are none.
    pub avg_flow_time_ms: Ratio,
}

/// What the indicators of a schedule are.
pub open spec fn is_kpi_of(kpi: ScheduleKpi, out: Seq<AssignmentView>, tasks: Seq<Task>) -> bool {
    let sums = totals(out, tasks);
    &&& kpi.makespan_ms == makespan_of(out)
    &&& kpi.total_tardiness_ms == sums.total_tardiness
    &&& kpi.max_tardiness_ms == sums.max_tardiness
    &&& kpi.on_time_rate == if sums.counted == 0 {
        Ratio { numerator: 1, denominator: 1 }
    } else {
        Ratio { numerator: sums.on_time as i128, denominator: sums.counted as i128 }
    }
    &&& kpi.avg_flow_time_ms == if sums.counted == 0 {
        Ratio { numerator: 0, denominator: 1 }
    } else {
        Ratio { numerator: sums.total_flow as i128, denominator: sums.counted as i128 }
    }
    &&& makespan_of(out) <= 0 ==> kpi.busy_by_resource@ == Map::<Seq<char>, i64>::empty()
        && kpi.avg_utilization == (Ratio { numerator: 0, denominator: 1 })
    &&& makespan_of(out) > 0 ==> {
        &&& kpi.busy_by_resource.keys() == first_seen(resources_of(out))
        &&& kpi.busy_by_resource@.dom() == used_resources(out)
        &&& forall|r: Seq<char>| #[trigger]
            kpi.busy_by_resource@.contains_key(r) ==> kpi.busy_by_resource@[r] == total_busy(
                for_resource(out, r),
            )
        &&& kpi.avg_utilization == (Ratio {
            numerator: total_busy(out) as i128,
            denominator: (makespan_of(out) * used_resources(out).len()) as i128,
        })
    }
}

impl ScheduleKpi {
    /// Computes the indicators of a schedule for the tasks it was made
    /// for; `None` when a sum leaves 64 bits on the way.
    pub fn try_calculate(schedule: &Schedule, tasks: &[Task]) -> (r: Option<Self>)
        ensures
            r.is_some() == kpi_fits(schedule@, tasks@),
            r.is_some() ==> is_kpi_of(r.unwrap(), schedule@, tasks@),
    {
        let ghost out = schedule@;
        let makespan = schedule.makespan_ms();
        let mut total_tardiness: i64 = 0;
        let mut max_tardiness: i64 = 0;
        let mut on_time: usize = 0;
        let mut counted: usize = 0;
        let mut total_flow: i64 = 0;
        let mut t: usize = 0;
        assert(tasks@.take(0) =~= Seq::<Task>::empty());
        while t < tasks.len()
            invariant
                t <= tasks@.len(),
                out == schedule@,
                total_tardiness == totals(out, tasks@.take(t as int)).total_tardiness,
                max_tardiness == totals(out, tasks@.take(t as int)).max_tardiness,
                on_time == totals(out, tasks@.take(t as int)).on_time,
                counted == totals(out, tasks@.take(t as int)).counted,
                total_flow == totals(out, tasks@.take(t as int)).total_flow,
                forall|k: int|
                    0 <= k <= t ==> (#[trigger] totals(out, tasks@.take(k))).total_tardiness
                        <= i64::MAX && i64::MIN <= totals(out, tasks@.take(k)).total_flow
                        <= i64::MAX,
            decreases tasks@.len() - t,
        {
            let task = &tasks[t];
            proof {
                let next = tasks@.take(t as int + 1);
                assert(next.drop_last() =~= tasks@.take(t as int));
                assert(next.last() == *task);
                lemma_totals_bounds(out, tasks@.take(t as int));
                lemma_totals_bounds(out, next);
            }
            match schedule.task_completion_time(task.id.as_str()) {
                Some(done) => {
                    counted = counted + 1;
                    let release: i64 = match task.release_time {
                        Some(r) => r,
                        None => 0,
                    };
                    let flow: i128 = total_flow as i128 + (done as i128 - release as i128);
                    let late: i128 = match task.deadline {
                        Some(d) => if done > d { done as i128 - d as i128 } else { 0 },
                        None => 0,
                    };
                    let tardy: i128 = total_tardiness as i128 + late;
                    if flow < i64::MIN as i128 || flow > i64::MAX as i128 || tardy > i64::MAX as i128 {
                        proof {
                            let next = totals(out, tasks@.take(t as int + 1));
                            assert(next.total_flow == flow);
                            assert(next.total_tardiness == tardy);
                        }
                        return None;
                    }
                    total_flow = flow as i64;
                    if late > 0 {
                        total_tardiness = tardy as i64;
                        if late > max_tardiness as i128 {
                            max_tardiness = late as i64;
                        }
                    } else {
                        on_time = on_time + 1;
                    }
                },
                None => {},
            }
            t += 1;
        }
        assert(tasks@.take(t as int) =~= tasks@);

        let busy_by_resource = match schedule.try_busy_by_resource() {
            Some(busy) => busy,
            None => {
                return None;
            },
        };
        let used = busy_by_resource.len();
        let mut avg_utilization = Ratio { numerator: 0, denominator: 1 };
        if makespan > 0 {
            let mut busy: i64 = 0;
            let mut i: usize = 0;
            assert(out.take(0) =~= Seq::<AssignmentView>::empty());
            while i < schedule.assignments.len()
                invariant
                    i <= schedule.assignments@.len(),
                    out == schedule@,
                    out.len() == schedule.assignments@.len(),
                    makespan_of(out) > 0,
                    busy == total_busy(out.take(i as int)),
                    forall|k: int|
                        0 <= k <= i ==> i64::MIN <= #[trigger] total_busy(out.take(k)) <= i64::MAX,
                decreases schedule.assignments@.len() - i,
            {
                let a = &schedule.assignments[i];
                proof {
                    assert(out.take(i as int + 1).drop_last() =~= out.take(i as int));
                    assert(out.take(i as int + 1).last() == out[i as int]);
                }
                let wide: i128 = busy as i128 + (a.end_ms as i128 - a.start_ms as i128);
                if wide < i64::MIN as i128 || wide > i64::MAX as i128 {
                    assert(total_busy(out.take(i as int + 1)) == wide);
                    return None;
                }
                busy = wide as i64;
                i += 1;
            }
            assert(out.take(i as int) =~= out);
            assert(makespan as int * used as int <= 0x7fff_ffff_ffff_ffff * 0xffff_ffff_ffff_ffff)
                by (nonlinear_arith)
                requires
                    0 < makespan <= 0x7fff_ffff_ffff_ffff,
                    0 <= used <= 0xffff_ffff_ffff_ffff,
            ;
            assert(makespan as int * used as int >= 0) by (nonlinear_arith)
                requires
                    0 < makespan,
                    0 <= used,
            ;
            avg_utilization =
            Ratio { numerator: busy as i128, denominator: makespan as i128 * used as i128 };
        }
        proof {
            if makespan > 0 {
                assert(busy_by_resource@.dom() =~= used_resources(out));
            }
        }
        let on_time_rate = if counted == 0 {
            Ratio { numerator: 1, denominator: 1 }
        } else {
            Ratio { numerator: on_time as i128, denominator: counted as i128 }
        };
        let avg_flow_time_ms = if counted == 0 {
            Ratio { numerator: 0, denominator: 1 }
        } else {
            Ratio { numerator: total_flow as i128, denominator: counted as i128 }
        };
        Some(
            ScheduleKpi {
                makespan_ms: makespan,
                total_tardiness_ms: total_tardiness,
                max_tardiness_ms: max_tardiness,
                on_time_rate,
                avg_utilization,
                busy_by_resource,
                avg_flow_time_ms,
            },
        )
    }

    /// Computes the indicators of a schedule for the tasks it was made for.
    pub fn calculate(schedule: &Schedule, tasks: &[Task]) -> (kpi: Self)
        requires
            kpi_fits(schedule@, tasks@),
        ensures
            is_kpi_of(kpi, schedule@, tasks@),
    {
        match Self::try_calculate(schedule, tasks) {
            Some(kpi) => kpi,
            None => unreached(),
        }
    }

    /// Utilization of a resource: its busy time over the makespan. `None`
    /// for a resource without assignment.
    pub fn utilization_of(&self, resource_id: &str) -> (r: Option<Ratio>)
        ensures
            r == if self.busy_by_resource@.contains_key(resource_id@) {
                Some(
                    Ratio {
                        numerator: self.busy_by_resource@[resource_id@] as i128,
                        denominator: self.makespan_ms as i128,
                    },
                )
            } else {
                None
            },
    {
        match self.busy_by_resource.get(resource_id) {
            Some(busy) => Some(
                Ratio { numerator: *busy as i128, denominator: self.makespan_ms as i128 },
            ),
            None => None,
        }
    }
}

/// The on-time rate is a fraction between 0 and 1: no more tasks are on
/// time than have an assignment.
pub proof fn on_time_rate_is_a_fraction(out: Seq<AssignmentView>, tasks: Seq<Task>)
    ensures
        0 <= totals(out, tasks).on_time <= totals(out, tasks).counted,
{
    lemma_totals_bounds(out, tasks);
}

/// Two assignments on the same resource share no time: one of them ends
/// before the other starts, whichever is listed first.
pub open spec fn apart_on_resources(out: Seq<AssignmentView>) -> bool {
    forall|i: int, j: int|
        0 <= i < out.len() && 0 <= j < out.len() && i != j && (#[trigger] out[i]).resource_id == (
        #[trigger] out[j]).resource_id ==> out[i].end_ms <= out[j].start_ms || out[j].end_ms
            <= out[i].start_ms
}

/// Assignments that follow each other on every resource share no time.
pub proof fn lemma_disjoint_is_apart(out: Seq<AssignmentView>)
    requires
        disjoint_on_resources(out),
    ensures
        apart_on_resources(out),
{
    assert forall|i: int, j: int|
        0 <= i < out.len() && 0 <= j < out.len() && i != j && (#[trigger] out[i]).resource_id == (
        #[trigger] out[j]).resource_id implies out[i].end_ms <= out[j].start_ms || out[j].end_ms
        <= out[i].start_ms by {
        if i < j {
            assert(out[i].end_ms <= out[j].start_ms);
        } else {
            assert(out[j].end_ms <= out[i].start_ms);
        }
    }
}

/// Whether assignment `a` is on resource `r` and lies within `lo..hi`.
pub open spec fn lies_within(a: AssignmentView, r: Seq<char>, lo: int, hi: int) -> bool {
    a.resource_id == r && lo <= a.start_ms && a.end_ms <= hi
}

/// The busy time of resource `r` in those of the first `k` assignments
/// that lie within `lo..hi`.
pub open spec fn busy_within(out: Seq<AssignmentView>, r: Seq<char>, k: int, lo: int, hi: int) -> int
    decreases k,
{
    if k <= 0 {
        0
    } else {
        busy_within(out, r, k - 1, lo, hi) + if lies_within(out[k - 1], r, lo, hi) {
            out[k - 1].end_ms - out[k - 1].start_ms
        } else {
            0
        }
    }
}

/// Where every assignment on `r` in `lo..hi` lies before `s` or after `e`,
/// the busy time in `lo..hi` is at most that in `lo..s` and in `e..hi` together.
proof fn lemma_busy_splits(out: Seq<AssignmentView>, r: Seq<char>, k: int, lo: int, s: int, e: int, hi: int)
    requires
        0 <= k <= out.len(),
        runs_forward(out),
        forall|i: int|
            0 <= i < k && lies_within(#[trigger] out[i], r, lo, hi) ==> out[i].end_ms <= s || e
                <= out[i].start_ms,
    ensures
        0 <= busy_within(out, r, k, lo, s),
        0 <= busy_within(out, r, k, e, hi),
        busy_within(out, r, k, lo, hi) <= busy_within(out, r, k, lo, s) + busy_within(
            out,
            r,
            k,
            e,
            hi,
        ),
    decreases k,
{
    if k > 0 {
        lemma_busy_splits(out, r, k - 1, lo, s, e, hi);
        let a = out[k - 1];
        assert(a.start_ms <= a.end_ms);
        if lies_within(a, r, lo, hi) {
            assert(lies_within(a, r, lo, s) || lies_within(a, r, e, hi));
        }
    }
}

/// Assignments on one resource that share no time keep it busy for no
/// longer than the stretch of time they lie in.
proof fn lemma_busy_fits(out: Seq<AssignmentView>, r: Seq<char>, k: int, lo: int, hi: int)
    requires
        0 <= k <= out.len(),
        runs_forward(out),
        apart_on_resources(out),
        lo <= hi,
    ensures
        0 <= busy_within(out, r, k, lo, hi) <= hi - lo,
    decreases k,
{
    if k > 0 {
        lemma_busy_fits(out, r, k - 1, lo, hi);
        let a = out[k - 1];
        assert(a.start_ms <= a.end_ms);
        if lies_within(a, r, lo, hi) {
            assert forall|i: int|
                0 <= i < k - 1 && lies_within(#[trigger] out[i], r, lo, hi) implies out[i].end_ms
                <= a.start_ms || a.end_ms <= out[i].start_ms by {
                assert(out[i].resource_id == out[k - 1].resource_id);
            }
            lemma_busy_splits(out, r, k - 1, lo, a.start_ms, a.end_ms, hi);
            lemma_busy_fits(out, r, k - 1, lo, a.start_ms);
            lemma_busy_fits(out, r, k - 1, a.end_ms, hi);
        }
    }
}

/// Where every assignment on `r` lies within `lo..hi`, the busy time
/// within `lo..hi` is the busy time of the resource.
proof fn lemma_busy_within_is_total(out: Seq<AssignmentView>, r: Seq<char>, k: int, lo: int, hi: int)
    requires
        0 <= k <= out.len(),
        forall|i: int|
            0 <= i < out.len() && (#[trigger] out[i]).resource_id == r ==> lo <= out[i].start_ms
                && out[i].end_ms <= hi,
    ensures
        total_busy(for_resource(out.take(k), r)) == busy_within(out, r, k, lo, hi),
    decreases k,
{
    let pred = |a: AssignmentView| a.resource_id == r;
    if k == 0 {
        assert(out.take(0) =~= Seq::<AssignmentView>::empty());
        assert(out.take(0).filter(pred).len() <= 0) by {
            out.take(0).lemma_filter_len(pred);
        }
    } else {
        lemma_busy_within_is_total(out, r, k - 1, lo, hi);
        let front = out.take(k - 1);
        let a = out[k - 1];
        assert(out.take(k) =~= front.push(a));
        Seq::lemma_filter_push(front, a, pred);
        if a.resource_id == r {
            assert(front.filter(pred).push(a).drop_last() =~= front.filter(pred));
            assert(lies_within(a, r, lo, hi));
        }
    }
}

/// The utilization of a resource is a fraction between 0 and 1: in a
/// schedule that does not start before time 0, whose assignments run
/// forward and share no time on a resource, the busy time of a resource is
/// not negative and no longer than the makespan.
pub proof fn utilization_is_a_fraction(out: Seq<AssignmentView>, r: Seq<char>)
    requires
        runs_forward(out),
        apart_on_resources(out),
        forall|i: int| 0 <= i < out.len() ==> (#[trigger] out[i]).start_ms >= 0,
    ensures
        0 <= total_busy(for_resource(out, r)),
        total_busy(for_resource(out, r)) <= makespan_of(out),
{
    let hi = makespan_of(out);
    lemma_latest_end_is_maximum(out);
    if out.len() > 0 {
        assert(out[0].start_ms <= out[0].end_ms);
    }
    lemma_busy_within_is_total(out, r, out.len() as int, 0, hi);
    lemma_busy_fits(out, r, out.len() as int, 0, hi);
    assert(out.take(out.len() as int) =~= out);
}

/// The indicators of a schedule with a positive makespan that does not
/// start before time 0, whose assignments run forward and share no time on
/// a resource: the resources with a busy time are exactly those with an
/// assignment, and the busy time of each is not negative and no longer
/// than the makespan, so that its utilization is a fraction between 0 and 1.
pub proof fn kpi_utilizations_are_fractions(kpi: ScheduleKpi, out: Seq<AssignmentView>, tasks: Seq<Task>)
    requires
        is_kpi_of(kpi, out, tasks),
        makespan_of(out) > 0,
        runs_forward(out),
        apart_on_resources(out),
        forall|i: int| 0 <= i < out.len() ==> (#[trigger] out[i]).start_ms >= 0,
    ensures
        kpi.busy_by_resource@.dom() == used_resources(out),
        forall|r: Seq<char>| #[trigger]
            kpi.busy_by_resource@.contains_key(r) ==> kpi.busy_by_resource@[r] == total_busy(
                for_resource(out, r),
            ) && 0 <= kpi.busy_by_resource@[r] <= kpi.makespan_ms,
{
    assert forall|r: Seq<char>| #[trigger] kpi.busy_by_resource@.contains_key(r) implies 0
        <= total_busy(for_resource(out, r)) <= makespan_of(out) by {
        utilization_is_a_fraction(out, r);
    }
}

} // verus!
