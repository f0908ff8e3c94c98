//! The built-in dispatching rules.
//!
//! A rule gives every task a score; the task with the lower score is
//! scheduled first. The rules in [`Rule`] have whole-number scores and are
//! evaluated exactly. The score of a ratio rule (weighted shortest
//! processing time, critical ratio, slack per remaining operation) is a
//! quotient; the rule gives the whole numbers that it is made of.

use vstd::prelude::*;
use crate::dispatching::context::{ContextView, SchedulingContext};
use crate::models::task::Task;

verus! {

/// Score of a task under a rule. Lower scores are scheduled first;
/// `Unbounded` comes after every value.
#[derive(Debug, Clone, Copy, PartialEq, Eq, PartialOrd, Ord, Structural)]
pub enum RuleScore {
    /// A whole-number score.
    Value(i128),
    /// The score of a task that the rule puts last.
    Unbounded,
}

impl RuleScore {
    /// Whether `self` is strictly lower than `other`.
    pub open spec fn spec_is_below(self, other: RuleScore) -> bool {
        match (self, other) {
            (RuleScore::Value(a), RuleScore::Value(b)) => a < b,
            (RuleScore::Value(_), RuleScore::Unbounded) => true,
            (RuleScore::Unbounded, _) => false,
        }
    }

    /// The score as two sort keys: first whether it is unbounded, then its value.
    pub open spec fn spec_keys(self) -> Seq<i128> {
        match self {
            RuleScore::Value(v) => seq![0i128, v],
            RuleScore::Unbounded => seq![1i128, 0i128],
        }
    }

    /// Whether `self` is strictly lower than `other`.
    pub fn is_below(&self, other: &RuleScore) -> (b: bool)
        ensures
            b == self.spec_is_below(*other),
    {
        match (self, other) {
            (RuleScore::Value(a), RuleScore::Value(b)) => *a < *b,
            (RuleScore::Value(_), RuleScore::Unbounded) => true,
            (RuleScore::Unbounded, _) => false,
        }
    }
}

/// Whether the total duration of the task can be computed in 64 bits.
pub open spec fn scorable(task: Task) -> bool {
    task.duration_fits()
}

/// Whether the remaining work of the task can be told: the context says
/// it, or the total duration of the task can be computed in 64 bits.
pub open spec fn remaining_known(task: Task, context: ContextView) -> bool {
    context.remaining_work.contains_key(task.id@) || scorable(task)
}

/// Whether the remaining work of the task can be told, if the task has a
/// deadline.
pub open spec fn slack_known(task: Task, context: ContextView) -> bool {
    task.deadline.is_some() ==> remaining_known(task, context)
}

/// The remaining work of a task: what the context says, else its total duration.
pub open spec fn spec_remaining_work(task: Task, context: ContextView) -> int {
    if context.remaining_work.contains_key(task.id@) {
        context.remaining_work[task.id@] as int
    } else {
        task.spec_total_duration_ms()
    }
}

/// The remaining work of a task: what the context says, else its total duration.
fn remaining_work(task: &Task, context: &SchedulingContext) -> (r: i64)
    requires
        remaining_known(*task, context@),
    ensures
        r == spec_remaining_work(*task, context@),
{
    match context.remaining_work.get(task.id.as_str()) {
        Some(ms) => *ms,
        None => task.total_duration_ms(),
    }
}

/// Shortest processing time: the total duration of the task.
#[derive(Debug, Clone, Copy)]
pub struct Spt;

impl Spt {
    /// The score of `task`.
    pub open spec fn spec_evaluate(task: Task, context: ContextView) -> RuleScore {
        RuleScore::Value(task.spec_total_duration_ms() as i128)
    }

    /// Short name of the rule.
    pub fn name(&self) -> (s: &'static str)
        ensures
            s@ == "SPT"@,
    {
        "SPT"
    }

    /// What the name stands for.
    pub fn description(&self) -> (s: &'static str)
        ensures
            s@ == "Shortest Processing Time"@,
    {
        "Shortest Processing Time"
    }

    /// The score of `task`.
    pub fn evaluate(&self, task: &Task, context: &SchedulingContext) -> (r: RuleScore)
        requires
            scorable(*task),
        ensures
            r == Self::spec_evaluate(*task, context@),
    {
        RuleScore::Value(task.total_duration_ms() as i128)
    }
}

/// Longest processing time: the negated total duration of the task.
#[derive(Debug, Clone, Copy)]
pub struct Lpt;

impl Lpt {
    /// The score of `task`.
    pub open spec fn spec_evaluate(task: Task, context: ContextView) -> RuleScore {
        RuleScore::Value((-task.spec_total_duration_ms()) as i128)
    }

    /// Short name of the rule.
    pub fn name(&self) -> (s: &'static str)
        ensures
            s@ == "LPT"@,
    {
        "LPT"
    }

    /// What the name stands for.
    pub fn description(&self) -> (s: &'static str)
        ensures
            s@ == "Longest Processing Time"@,
    {
        "Longest Processing Time"
    }

    /// The score of `task`.
    pub fn evaluate(&self, task: &Task, context: &SchedulingContext) -> (r: RuleScore)
        requires
            scorable(*task),
        ensures
            r == Self::spec_evaluate(*task, context@),
    {
        RuleScore::Value(-(task.total_duration_ms() as i128))
    }
}

/// Least work remaining: the remaining work of the task.
#[derive(Debug, Clone, Copy)]
pub struct Lwkr;

impl Lwkr {
    /// The score of `task`.
    pub open spec fn spec_evaluate(task: Task, context: ContextView) -> RuleScore {
        RuleScore::Value(spec_remaining_work(task, context) as i128)
    }

    /// Short name of the rule.
    pub fn name(&self) -> (s: &'static str)
        ensures
            s@ == "LWKR"@,
    {
        "LWKR"
    }

    /// What the name stands for.
    pub fn description(&self) -> (s: &'static str)
        ensures
            s@ == "Least Work Remaining"@,
    {
        "Least Work Remaining"
    }

    /// The score of `task`.
    pub fn evaluate(&self, task: &Task, context: &SchedulingContext) -> (r: RuleScore)
        requires
            remaining_known(*task, context@),
        ensures
            r == Self::spec_evaluate(*task, context@),
    {
        RuleScore::Value(remaining_work(task, context) as i128)
    }
}

/// Most work remaining: the negated remaining work of the task.
#[derive(Debug, Clone, Copy)]
pub struct Mwkr;

impl Mwkr {
    /// The score of `task`.
    pub open spec fn spec_evaluate(task: Task, context: ContextView) -> RuleScore {
        RuleScore::Value((-spec_remaining_work(task, context)) as i128)
    }

    /// Short name of the rule.
    pub fn name(&self) -> (s: &'static str)
        ensures
            s@ == "MWKR"@,
    {
        "MWKR"
    }

    /// What the name stands for.
    pub fn description(&self) -> (s: &'static str)
        ensures
            s@ == "Most Work Remaining"@,
    {
        "Most Work Remaining"
    }

    /// The score of `task`.
    pub fn evaluate(&self, task: &Task, context: &SchedulingContext) -> (r: RuleScore)
        requires
            remaining_known(*task, context@),
        ensures
            r == Self::spec_evaluate(*task, context@),
    {
        RuleScore::Value(-(remaining_work(task, context) as i128))
    }
}

/// Earliest due date: the deadline of the task; a task without deadline comes last.
#[derive(Debug, Clone, Copy)]
pub struct Edd;

impl Edd {
    /// The score of `task`.
    pub open spec fn spec_evaluate(task: Task, context: ContextView) -> RuleScore {
        match task.deadline {
            Some(d) => RuleScore::Value(d as i128),
            None => RuleScore::Unbounded,
        }
    }

    /// Short name of the rule.
    pub fn name(&self) -> (s: &'static str)
        ensures
            s@ == "EDD"@,
    {
        "EDD"
    }

    /// What the name stands for.
    pub fn description(&self) -> (s: &'static str)
        ensures
            s@ == "Earliest Due Date"@,
    {
        "Earliest Due Date"
    }

    /// The score of `task`.
    pub fn evaluate(&self, task: &Task, context: &SchedulingContext) -> (r: RuleScore)
        ensures
            r == Self::spec_evaluate(*task, context@),
    {
        match task.deadline {
            Some(d) => RuleScore::Value(d as i128),
            None => RuleScore::Unbounded,
        }
    }
}

/// Minimum slack time: the time until the deadline minus the remaining
/// work; a task without deadline comes last.
#[derive(Debug, Clone, Copy)]
pub struct Mst;

impl Mst {
    /// The score of `task`.
    pub open spec fn spec_evaluate(task: Task, context: ContextView) -> RuleScore {
        match task.deadline {
            Some(d) => RuleScore::Value(
                ((d - context.current_time_ms) - spec_remaining_work(task, context)) as i128,
            ),
            None => RuleScore::Unbounded,
        }
    }

    /// Short name of the rule.
    pub fn name(&self) -> (s: &'static str)
        ensures
            s@ == "MST"@,
    {
        "MST"
    }

    /// What the name stands for.
    pub fn description(&self) -> (s: &'static str)
        ensures
            s@ == "Minimum Slack Time"@,
    {
        "Minimum Slack Time"
    }

    /// The score of `task`.
    pub fn evaluate(&self, task: &Task, context: &SchedulingContext) -> (r: RuleScore)
        requires
            slack_known(*task, context@),
        ensures
            r == Self::spec_evaluate(*task, context@),
    {
        match task.deadline {
            Some(d) => {
                let remaining = remaining_work(task, context);
                RuleScore::Value(
                    (d as i128 - context.current_time_ms as i128) - remaining as i128,
                )
            },
            None => RuleScore::Unbounded,
        }
    }
}

/// First in, first out: the arrival time that the context gives, else the
/// release time of the task, else 0.
#[derive(Debug, Clone, Copy)]
pub struct Fifo;

impl Fifo {
    /// The score of `task`.
    pub open spec fn spec_evaluate(task: Task, context: ContextView) -> RuleScore {
        if context.arrival_times.contains_key(task.id@) {
            RuleScore::Value(context.arrival_times[task.id@] as i128)
        } else {
            match task.release_time {
                Some(r) => RuleScore::Value(r as i128),
                None => RuleScore::Value(0),
            }
        }
    }

    /// Short name of the rule.
    pub fn name(&self) -> (s: &'static str)
        ensures
            s@ == "FIFO"@,
    {
        "FIFO"
    }

    /// What the name stands for.
    pub fn description(&self) -> (s: &'static str)
        ensures
            s@ == "First In First Out"@,
    {
        "First In First Out"
    }

    /// The score of `task`.
    pub fn evaluate(&self, task: &Task, context: &SchedulingContext) -> (r: RuleScore)
        ensures
            r == Self::spec_evaluate(*task, context@),
    {
        match context.arrival_times.get(task.id.as_str()) {
            Some(t) => RuleScore::Value(*t as i128),
            None => match task.release_time {
                Some(r) => RuleScore::Value(r as i128),
                None => RuleScore::Value(0),
            },
        }
    }
}

/// Work in next queue: the queue length that the context gives, else 0.
#[derive(Debug, Clone, Copy)]
pub struct Winq;

impl Winq {
    /// The score of `task`.
    pub open spec fn spec_evaluate(task: Task, context: ContextView) -> RuleScore {
        if context.next_queue_length.contains_key(task.id@) {
            RuleScore::Value(context.next_queue_length[task.id@] as i128)
        } else {
            RuleScore::Value(0)
        }
    }

    /// Short name of the rule.
    pub fn name(&self) -> (s: &'static str)
        ensures
            s@ == "WINQ"@,
    {
        "WINQ"
    }

    /// What the name stands for.
    pub fn description(&self) -> (s: &'static str)
        ensures
            s@ == "Work In Next Queue"@,
    {
        "Work In Next Queue"
    }

    /// The score of `task`.
    pub fn evaluate(&self, task: &Task, context: &SchedulingContext) -> (r: RuleScore)
        ensures
            r == Self::spec_evaluate(*task, context@),
    {
        match context.next_queue_length.get(task.id.as_str()) {
            Some(n) => RuleScore::Value(*n as i128),
            None => RuleScore::Value(0),
        }
    }
}

/// Task priority: the negated priority, so that the highest priority comes first.
#[derive(Debug, Clone, Copy)]
pub struct Priority;

impl Priority {
    /// The score of `task`.
    pub open spec fn spec_evaluate(task: Task, context: ContextView) -> RuleScore {
        RuleScore::Value((-(task.priority as int)) as i128)
    }

    /// Short name of the rule.
    pub fn name(&self) -> (s: &'static str)
        ensures
            s@ == "PRIORITY"@,
    {
        "PRIORITY"
    }

    /// What the name stands for.
    pub fn description(&self) -> (s: &'static str)
        ensures
            s@ == "Task Priority"@,
    {
        "Task Priority"
    }

    /// The score of `task`.
    pub fn evaluate(&self, task: &Task, context: &SchedulingContext) -> (r: RuleScore)
        ensures
            r == Self::spec_evaluate(*task, context@),
    {
        RuleScore::Value(-(task.priority as i128))
    }
}

/// Weighted shortest processing time. The weight of a task is 1000 over
/// its priority plus 1; the score is the negated weight over the total
/// duration. A task whose total duration is not positive comes last.
#[derive(Debug, Clone, Copy)]
pub struct Wspt;

impl Wspt {
    /// The priority and the total duration of the task; `None` for a task
    /// that comes last.
    pub open spec fn spec_terms(task: Task) -> Option<(i32, i64)> {
        if task.spec_total_duration_ms() <= 0 {
            None
        } else {
            Some((task.priority, task.spec_total_duration_ms() as i64))
        }
    }

    /// The priority and the total duration of the task; `None` for a task
    /// that comes last.
    pub fn terms(&self, task: &Task) -> (r: Option<(i32, i64)>)
        requires
            scorable(*task),
        ensures
            r == Self::spec_terms(*task),
    {
        let processing = task.total_duration_ms();
        if processing <= 0 {
            None
        } else {
            Some((task.priority, processing))
        }
    }

    /// Short name of the rule.
    pub fn name(&self) -> (s: &'static str)
        ensures
            s@ == "WSPT"@,
    {
        "WSPT"
    }

    /// What the name stands for.
    pub fn description(&self) -> (s: &'static str)
        ensures
            s@ == "Weighted Shortest Processing Time"@,
    {
        "Weighted Shortest Processing Time"
    }
}

/// Critical ratio: the time until the deadline over the remaining work. A
/// task without deadline or without remaining work comes last.
#[derive(Debug, Clone, Copy)]
pub struct Cr;

impl Cr {
    /// The time until the deadline and the remaining work; `None` for a
    /// task that comes last.
    pub open spec fn spec_terms(task: Task, context: ContextView) -> Option<(i128, i64)> {
        match task.deadline {
            Some(d) => if spec_remaining_work(task, context) <= 0 {
                None
            } else {
                Some(
                    (
                        (d - context.current_time_ms) as i128,
                        spec_remaining_work(task, context) as i64,
                    ),
                )
            },
            None => None,
        }
    }

    /// The time until the deadline and the remaining work; `None` for a
    /// task that comes last.
    pub fn terms(&self, task: &Task, context: &SchedulingContext) -> (r: Option<(i128, i64)>)
        requires
            slack_known(*task, context@),
        ensures
            r == Self::spec_terms(*task, context@),
    {
        match task.deadline {
            Some(d) => {
                let remaining = remaining_work(task, context);
                if remaining <= 0 {
                    None
                } else {
                    Some((d as i128 - context.current_time_ms as i128, remaining))
                }
            },
            None => None,
        }
    }

    /// Short name of the rule.
    pub fn name(&self) -> (s: &'static str)
        ensures
            s@ == "CR"@,
    {
        "CR"
    }

    /// What the name stands for.
    pub fn description(&self) -> (s: &'static str)
        ensures
            s@ == "Critical Ratio"@,
    {
        "Critical Ratio"
    }
}

/// Slack per remaining operation: the time until the deadline minus the
/// remaining work, over the number of activities, at least 1. A task
/// without deadline comes last.
#[derive(Debug, Clone, Copy)]
pub struct Sro;

impl Sro {
    /// The slack and the number of operations; `None` for a task that comes last.
    pub open spec fn spec_terms(task: Task, context: ContextView) -> Option<(i128, usize)> {
        match task.deadline {
            Some(d) => Some(
                (
                    (d - context.current_time_ms - spec_remaining_work(task, context)) as i128,
                    if task.activities@.len() >= 1 {
                        task.activities@.len() as usize
                    } else {
                        1usize
                    },
                ),
            ),
            None => None,
        }
    }

    /// The slack and the number of operations; `None` for a task that comes last.
    pub fn terms(&self, task: &Task, context: &SchedulingContext) -> (r: Option<(i128, usize)>)
        requires
            slack_known(*task, context@),
        ensures
            r == Self::spec_terms(*task, context@),
    {
        match task.deadline {
            Some(d) => {
                let remaining = remaining_work(task, context);
                let operations = if task.activity_count() >= 1 { task.activity_count() } else { 1 };
                Some((d as i128 - context.current_time_ms as i128 - remaining as i128, operations))
            },
            None => None,
        }
    }

    /// Short name of the rule.
    pub fn name(&self) -> (s: &'static str)
        ensures
            s@ == "S/RO"@,
    {
        "S/RO"
    }

    /// What the name stands for.
    pub fn description(&self) -> (s: &'static str)
        ensures
            s@ == "Slack per Remaining Operations"@,
    {
        "Slack per Remaining Operations"
    }
}

/// Least planned utilization level: the lowest utilization among the
/// candidate resources of the first activity of a task.
#[derive(Debug, Clone, Copy)]
pub struct Lpul;

impl Lpul {
    /// The resources that the rule looks at: the candidates of the first
    /// activity; none for a task without activities.
    pub open spec fn spec_resources(task: Task) -> Seq<Seq<char>> {
        if task.activities@.len() == 0 {
            Seq::empty()
        } else {
            task.activities@[0].spec_candidates()
        }
    }

    /// The resources that the rule looks at.
    pub fn resources<'a>(&self, task: &'a Task) -> (r: Vec<&'a str>)
        ensures
            crate::collections::slice_texts(r@) == Self::spec_resources(*task),
    {
        if task.activities.len() == 0 {
            let r: Vec<&'a str> = Vec::new();
            assert(crate::collections::slice_texts(r@) =~= Seq::<Seq<char>>::empty());
            r
        } else {
            task.activities[0].candidate_resources()
        }
    }

    /// Short name of the rule.
    pub fn name(&self) -> (s: &'static str)
        ensures
            s@ == "LPUL"@,
    {
        "LPUL"
    }

    /// What the name stands for.
    pub fn description(&self) -> (s: &'static str)
        ensures
            s@ == "Least Planned Utilization Level"@,
    {
        "Least Planned Utilization Level"
    }
}

/// A rule with whole-number scores.
#[derive(Debug, Clone, Copy, PartialEq, Eq, Structural)]
pub enum Rule {
    /// Shortest processing time.
    Spt,
    /// Longest processing time.
    Lpt,
    /// Least work remaining.
    Lwkr,
    /// Most work remaining.
    Mwkr,
    /// Earliest due date.
    Edd,
    /// Minimum slack time.
    Mst,
    /// First in, first out.
    Fifo,
    /// Work in next queue.
    Winq,
    /// Task priority.
    Priority,
}

impl Rule {
    /// The score that the rule gives to `task`.
    pub open spec fn spec_evaluate(self, task: Task, context: ContextView) -> RuleScore {
        match self {
            Rule::Spt => Spt::spec_evaluate(task, context),
            Rule::Lpt => Lpt::spec_evaluate(task, context),
            Rule::Lwkr => Lwkr::spec_evaluate(task, context),
            Rule::Mwkr => Mwkr::spec_evaluate(task, context),
            Rule::Edd => Edd::spec_evaluate(task, context),
            Rule::Mst => Mst::spec_evaluate(task, context),
            Rule::Fifo => Fifo::spec_evaluate(task, context),
            Rule::Winq => Winq::spec_evaluate(task, context),
            Rule::Priority => Priority::spec_evaluate(task, context),
        }
    }

    /// Whether the score of `task` can be computed in 64 bits.
    pub open spec fn spec_computable(self, task: Task, context: ContextView) -> bool {
        match self {
            Rule::Spt => scorable(task),
            Rule::Lpt => scorable(task),
            Rule::Lwkr => remaining_known(task, context),
            Rule::Mwkr => remaining_known(task, context),
            Rule::Mst => slack_known(task, context),
            _ => true,
        }
    }

    /// Short name of the rule.
    pub open spec fn spec_name(self) -> Seq<char> {
        match self {
            Rule::Spt => "SPT"@,
            Rule::Lpt => "LPT"@,
            Rule::Lwkr => "LWKR"@,
            Rule::Mwkr => "MWKR"@,
            Rule::Edd => "EDD"@,
            Rule::Mst => "MST"@,
            Rule::Fifo => "FIFO"@,
            Rule::Winq => "WINQ"@,
            Rule::Priority => "PRIORITY"@,
        }
    }

    /// Short name of the rule.
    pub fn name(&self) -> (s: &'static str)
        ensures
            s@ == self.spec_name(),
    {
        match self {
            Rule::Spt => Spt.name(),
            Rule::Lpt => Lpt.name(),
            Rule::Lwkr => Lwkr.name(),
            Rule::Mwkr => Mwkr.name(),
            Rule::Edd => Edd.name(),
            Rule::Mst => Mst.name(),
            Rule::Fifo => Fifo.name(),
            Rule::Winq => Winq.name(),
            Rule::Priority => Priority.name(),
        }
    }

    /// Whether the score of `task` can be computed in 64 bits.
    pub fn computable(&self, task: &Task, context: &SchedulingContext) -> (b: bool)
        ensures
            b == self.spec_computable(*task, context@),
    {
        match self {
            Rule::Spt | Rule::Lpt => task.checked_total_duration_ms().is_some(),
            Rule::Lwkr | Rule::Mwkr => context.remaining_work.contains_key(task.id.as_str())
                || task.checked_total_duration_ms().is_some(),
            Rule::Mst => task.deadline.is_none() || context.remaining_work.contains_key(
                task.id.as_str(),
            ) || task.checked_total_duration_ms().is_some(),
            _ => true,
        }
    }

    /// The score that the rule gives to `task`; `None` when it cannot be
    /// computed in 64 bits.
    pub fn try_evaluate(&self, task: &Task, context: &SchedulingContext) -> (r: Option<RuleScore>)
        ensures
            r.is_some() == self.spec_computable(*task, context@),
            r.is_some() ==> r.unwrap() == self.spec_evaluate(*task, context@),
    {
        if self.computable(task, context) {
            Some(self.evaluate(task, context))
        } else {
            None
        }
    }

    /// The score that the rule gives to `task`.
    pub fn evaluate(&self, task: &Task, context: &SchedulingContext) -> (r: RuleScore)
        requires
            self.spec_computable(*task, context@),
        ensures
            r == self.spec_evaluate(*task, context@),
    {
        match self {
            Rule::Spt => Spt.evaluate(task, context),
            Rule::Lpt => Lpt.evaluate(task, context),
            Rule::Lwkr => Lwkr.evaluate(task, context),
            Rule::Mwkr => Mwkr.evaluate(task, context),
            Rule::Edd => Edd.evaluate(task, context),
            Rule::Mst => Mst.evaluate(task, context),
            Rule::Fifo => Fifo.evaluate(task, context),
            Rule::Winq => Winq.evaluate(task, context),
            Rule::Priority => Priority.evaluate(task, context),
        }
    }
}

} // verus!
