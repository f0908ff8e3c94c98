//! The rule engine: orders tasks by a chain of dispatching rules.
//!
//! Rules are applied in the order in which they were added. Of two tasks,
//! the first rule that scores them differently decides; a later rule is
//! asked only when all rules before it tie. When all rules tie, the final
//! tie-breaker decides: by task identifier, or not at all, in which case the
//! tasks keep the order in which they were given.

use vstd::prelude::*;
use vstd::string::StrSliceExecFns;
use std::cmp::Ordering;
use crate::dispatching::context::{ContextView, SchedulingContext};
use crate::dispatching::rules::{Rule, RuleScore};
use crate::models::task::Task;
use crate::sorting::{
    comes_before, decides_at, is_stable_sort, lemma_row_before_asymmetric,
    lemma_sorted_positions, precedes, row_before, row_views, stable_order, stable_sort_of,
};

verus! {

/// How several rules are combined.
#[derive(Debug, Clone, Copy, PartialEq, Eq, Structural)]
pub enum EvaluationMode {
    /// Rules are applied in sequence; the next rule is used only on ties.
    Sequential,
    /// The weighted sum of all rule scores decides.
    Weighted,
}

impl Default for EvaluationMode {
    /// Sequential evaluation.
    fn default() -> (m: Self)
        ensures
            m == EvaluationMode::Sequential,
    {
        EvaluationMode::Sequential
    }
}

/// How ties are broken after all rules are exhausted.
#[derive(Debug, Clone, Copy, PartialEq, Eq, Structural)]
pub enum TieBreaker {
    /// Not at all: tied tasks keep their order.
    NextRule,
    /// By task identifier, in lexicographic order of its characters.
    ById,
}

impl Default for TieBreaker {
    /// No final tie-breaker: tied tasks keep their order.
    fn default() -> (t: Self)
        ensures
            t == TieBreaker::NextRule,
    {
        TieBreaker::NextRule
    }
}

/// The sort keys of the scores that the rules give to a task, rule by rule.
pub open spec fn score_keys(rules: Seq<Rule>, task: Task, context: ContextView) -> Seq<i128>
    decreases rules.len(),
{
    if rules.len() == 0 {
        Seq::empty()
    } else {
        score_keys(rules.drop_last(), task, context) + rules.last().spec_evaluate(
            task,
            context,
        ).spec_keys()
    }
}

/// An identifier as sort keys: the code points of its characters.
pub open spec fn id_keys(id: Seq<char>) -> Seq<i128> {
    Seq::new(id.len(), |i: int| id[i] as i128)
}

/// A rule engine that applies its rules in sequence.
#[derive(Debug, Clone)]
pub struct RuleEngine {
    /// The rules, in the order in which they are applied.
    pub rules: Vec<Rule>,
    /// What decides when all rules tie.
    pub tie_breaker: TieBreaker,
}

impl RuleEngine {
    /// The sort keys of a task: its scores, then, when ties are broken by
    /// identifier, its identifier.
    pub open spec fn spec_row(&self, task: Task, context: ContextView) -> Seq<i128> {
        score_keys(self.rules@, task, context) + if self.tie_breaker == TieBreaker::ById {
            id_keys(task.id@)
        } else {
            Seq::empty()
        }
    }

    /// The sort keys of all tasks.
    pub open spec fn spec_rows(&self, tasks: Seq<Task>, context: ContextView) -> Seq<Seq<i128>> {
        Seq::new(tasks.len(), |i: int| self.spec_row(tasks[i], context))
    }

    /// Whether every rule can compute the score of `task` in 64 bits.
    pub open spec fn spec_computable(&self, task: Task, context: ContextView) -> bool {
        forall|i: int|
            0 <= i < self.rules@.len() ==> (#[trigger] self.rules@[i]).spec_computable(task, context)
    }

    /// The scores that the rules give to a task, rule by rule.
    pub open spec fn spec_scores(&self, task: Task, context: ContextView) -> Seq<RuleScore> {
        Seq::new(self.rules@.len(), |i: int| self.rules@[i].spec_evaluate(task, context))
    }

    /// An engine without rules.
    pub fn new() -> (e: Self)
        ensures
            e.rules@ == Seq::<Rule>::empty(),
            e.tie_breaker == TieBreaker::NextRule,
    {
        RuleEngine { rules: Vec::new(), tie_breaker: TieBreaker::NextRule }
    }

    /// Adds a rule at the end of the chain.
    pub fn with_rule(self, rule: Rule) -> (e: Self)
        ensures
            e.rules@ == self.rules@.push(rule),
            e.tie_breaker == self.tie_breaker,
    {
        let mut e = self;
        e.rules.push(rule);
        e
    }

    /// Adds a rule at the end of the chain, to be asked when the rules
    /// before it tie.
    pub fn with_tie_breaker(self, rule: Rule) -> (e: Self)
        ensures
            e.rules@ == self.rules@.push(rule),
            e.tie_breaker == self.tie_breaker,
    {
        self.with_rule(rule)
    }

    /// Sets what decides when all rules tie.
    pub fn with_final_tie_breaker(self, tie_breaker: TieBreaker) -> (e: Self)
        ensures
            e.rules == self.rules,
            e.tie_breaker == tie_breaker,
    {
        let mut e = self;
        e.tie_breaker = tie_breaker;
        e
    }

    /// Whether every task can be scored by every rule.
    pub open spec fn spec_all_computable(&self, tasks: Seq<Task>, context: ContextView) -> bool {
        forall|i: int| 0 <= i < tasks.len() ==> self.spec_computable(#[trigger] tasks[i], context)
    }

    /// Whether every rule can compute the score of `task` in 64 bits.
    pub fn computable(&self, task: &Task, context: &SchedulingContext) -> (b: bool)
        ensures
            b == self.spec_computable(*task, context@),
    {
        let mut i: usize = 0;
        while i < self.rules.len()
            invariant
                i <= self.rules@.len(),
                forall|k: int|
                    0 <= k < i ==> (#[trigger] self.rules@[k]).spec_computable(*task, context@),
            decreases self.rules@.len() - i,
        {
            if !self.rules[i].computable(task, context) {
                return false;
            }
            i += 1;
        }
        true
    }

    /// Whether every task can be scored by every rule.
    pub fn all_computable(&self, tasks: &[Task], context: &SchedulingContext) -> (b: bool)
        ensures
            b == self.spec_all_computable(tasks@, context@),
    {
        let mut i: usize = 0;
        while i < tasks.len()
            invariant
                i <= tasks@.len(),
                forall|k: int| 0 <= k < i ==> self.spec_computable(#[trigger] tasks@[k], context@),
            decreases tasks@.len() - i,
        {
            if !self.computable(&tasks[i], context) {
                return false;
            }
            i += 1;
        }
        true
    }

    /// The scores that the rules give to a task, rule by rule.
    pub fn evaluate(&self, task: &Task, context: &SchedulingContext) -> (scores: Vec<RuleScore>)
        requires
            self.spec_computable(*task, context@),
        ensures
            scores@ == self.spec_scores(*task, context@),
    {
        let mut scores: Vec<RuleScore> = Vec::new();
        let mut i: usize = 0;
        while i < self.rules.len()
            invariant
                i <= self.rules@.len(),
                self.spec_computable(*task, context@),
                scores@.len() == i,
                forall|j: int|
                    0 <= j < i ==> #[trigger] scores@[j] == self.rules@[j].spec_evaluate(
                        *task,
                        context@,
                    ),
            decreases self.rules@.len() - i,
        {
            scores.push(self.rules[i].evaluate(task, context));
            i += 1;
        }
        assert(scores@ =~= self.spec_scores(*task, context@));
        scores
    }

    /// The sort keys of a task.
    fn row(&self, task: &Task, context: &SchedulingContext) -> (row: Vec<i128>)
        requires
            self.spec_computable(*task, context@),
        ensures
            row@ == self.spec_row(*task, context@),
    {
        let mut row: Vec<i128> = Vec::new();
        let mut i: usize = 0;
        assert(self.rules@.take(0) =~= Seq::<Rule>::empty());
        while i < self.rules.len()
            invariant
                i <= self.rules@.len(),
                self.spec_computable(*task, context@),
                row@ == score_keys(self.rules@.take(i as int), *task, context@),
            decreases self.rules@.len() - i,
        {
            let ghost before = row@;
            match self.rules[i].evaluate(task, context) {
                RuleScore::Value(v) => {
                    row.push(0);
                    row.push(v);
                },
                RuleScore::Unbounded => {
                    row.push(1);
                    row.push(0);
                },
            }
            proof {
                let next = self.rules@.take(i as int + 1);
                assert(next.drop_last() =~= self.rules@.take(i as int));
                assert(next.last() == self.rules@[i as int]);
                assert(row@ =~= before + self.rules@[i as int].spec_evaluate(
                    *task,
                    context@,
                ).spec_keys());
            }
            i += 1;
        }
        assert(self.rules@.take(i as int) =~= self.rules@);
        match self.tie_breaker {
            TieBreaker::ById => {
                let ghost scores = row@;
                let id = task.id.as_str();
                let n = id.unicode_len();
                let mut c: usize = 0;
                while c < n
                    invariant
                        c <= n,
                        n == id@.len(),
                        id@ == task.id@,
                        row@ == scores + id_keys(task.id@).take(c as int),
                    decreases n - c,
                {
                    let ghost before = row@;
                    let ch = id.get_char(c);
                    row.push(ch as u32 as i128);
                    c += 1;
                    assert(row@ =~= scores + id_keys(task.id@).take(c as int));
                }
                assert(id_keys(task.id@).take(c as int) =~= id_keys(task.id@));
            },
            TieBreaker::NextRule => {
                assert(row@ =~= row@ + Seq::<i128>::empty());
            },
        }
        row
    }

    /// Whether there is a first rule and it scores `a` strictly below `b`.
    pub open spec fn spec_scores_below(&self, a: Task, b: Task, context: ContextView) -> bool {
        self.rules@.len() > 0 && self.rules@[0].spec_evaluate(a, context).spec_is_below(
            self.rules@[0].spec_evaluate(b, context),
        )
    }

    /// Whether the first rule scores task `a` strictly below task `b`.
    pub open spec fn spec_first_rule_prefers(
        &self,
        tasks: Seq<Task>,
        context: ContextView,
        a: usize,
        b: usize,
    ) -> bool {
        &&& self.rules@.len() > 0
        &&& a < tasks.len()
        &&& b < tasks.len()
        &&& self.rules@[0].spec_evaluate(tasks[a as int], context).spec_is_below(
            self.rules@[0].spec_evaluate(tasks[b as int], context),
        )
    }

    /// Whether `order` lists a task before every task that the first rule
    /// scores strictly higher.
    pub open spec fn spec_first_rule_kept(
        &self,
        tasks: Seq<Task>,
        context: ContextView,
        order: Seq<usize>,
    ) -> bool {
        forall|a: usize, b: usize| #[trigger]
            self.spec_first_rule_prefers(tasks, context, a, b) ==> order.contains(a)
                && order.contains(b) && order.index_of(a) < order.index_of(b)
    }

    /// The positions of the tasks, the task to schedule first at the front.
    ///
    /// The order is the stable sort of the tasks by their scores, rule by
    /// rule, and then, when ties are broken by identifier, by identifier.
    /// A task that the first rule scores strictly below another comes
    /// before it, whatever the later rules and the tie-breaker say.
    pub fn sort_indices(&self, tasks: &[Task], context: &SchedulingContext) -> (order: Vec<usize>)
        requires
            self.spec_all_computable(tasks@, context@),
        ensures
            is_stable_sort(self.spec_rows(tasks@, context@), order@),
            order@ == stable_sort_of(self.spec_rows(tasks@, context@)),
            self.spec_first_rule_kept(tasks@, context@, order@),
    {
        let mut rows: Vec<Vec<i128>> = Vec::new();
        let mut i: usize = 0;
        while i < tasks.len()
            invariant
                i <= tasks@.len(),
                forall|k: int|
                    0 <= k < tasks@.len() ==> self.spec_computable(#[trigger] tasks@[k], context@),
                rows@.len() == i,
                forall|k: int|
                    0 <= k < i ==> (#[trigger] rows@[k])@ == self.spec_row(tasks@[k], context@),
            decreases tasks@.len() - i,
        {
            rows.push(self.row(&tasks[i], context));
            i += 1;
        }
        assert(row_views(rows@) =~= self.spec_rows(tasks@, context@));
        let order = stable_order(&rows);
        proof {
            assert forall|a: usize, b: usize| #[trigger]
                self.spec_first_rule_prefers(tasks@, context@, a, b) implies order@.contains(a)
                && order@.contains(b) && order@.index_of(a) < order@.index_of(b) by {
                first_rule_decides(*self, tasks@, context@, order@, a, b);
            }
        }
        order
    }

    /// Compares two tasks as the sort does: by their scores, rule by rule,
    /// and then, when ties are broken by identifier, by identifier. When
    /// the first rule scores `a` strictly below `b`, `a` comes first,
    /// whatever the later rules and the tie-breaker say.
    pub fn compare_sequential(&self, a: &Task, b: &Task, context: &SchedulingContext) -> (r: Ordering)
        requires
            self.spec_computable(*a, context@),
            self.spec_computable(*b, context@),
        ensures
            (r == Ordering::Less) == row_before(
                self.spec_row(*a, context@),
                self.spec_row(*b, context@),
            ),
            (r == Ordering::Greater) == row_before(
                self.spec_row(*b, context@),
                self.spec_row(*a, context@),
            ),
            self.spec_scores_below(*a, *b, context@) ==> r == Ordering::Less,
            self.spec_scores_below(*b, *a, context@) ==> r == Ordering::Greater,
    {
        let row_a = self.row(a, context);
        let row_b = self.row(b, context);
        proof {
            if self.spec_scores_below(*a, *b, context@) {
                lemma_first_rule_orders_rows(*self, *a, *b, context@);
            }
            if self.spec_scores_below(*b, *a, context@) {
                lemma_first_rule_orders_rows(*self, *b, *a, context@);
            }
            if row_before(row_a@, row_b@) {
                lemma_row_before_asymmetric(row_a@, row_b@);
            }
        }
        if comes_before(&row_a, &row_b) {
            Ordering::Less
        } else if comes_before(&row_b, &row_a) {
            Ordering::Greater
        } else {
            Ordering::Equal
        }
    }

    /// The position of the task to schedule first, `None` when there is no task.
    pub fn select_best(&self, tasks: &[Task], context: &SchedulingContext) -> (best: Option<usize>)
        requires
            self.spec_all_computable(tasks@, context@),
        ensures
            best.is_none() == (tasks@.len() == 0),
            best.is_some() ==> best.unwrap() < tasks@.len() && forall|j: int|
                0 <= j < tasks@.len() && j != best.unwrap() ==> precedes(
                    self.spec_rows(tasks@, context@),
                    best.unwrap() as int,
                    j,
                ),
    {
        let order = self.sort_indices(tasks, context);
        if order.len() == 0 {
            None
        } else {
            let best = order[0];
            proof {
                let rows = self.spec_rows(tasks@, context@);
                assert forall|j: int| 0 <= j < tasks@.len() && j != best implies precedes(
                    rows,
                    best as int,
                    j,
                ) by {
                    assert(order@.contains(j as usize));
                    let y = choose|y: int| 0 <= y < order@.len() && order@[y] == j as usize;
                    assert(precedes(rows, order@[0] as int, order@[y] as int));
                }
            }
            Some(best)
        }
    }
}

impl Default for RuleEngine {
    /// An engine without rules.
    fn default() -> (e: Self)
        ensures
            e.rules@ == Seq::<Rule>::empty(),
            e.tie_breaker == TieBreaker::NextRule,
    {
        RuleEngine::new()
    }
}

/// The sort keys of a task begin with the keys of the first rule's score.
proof fn lemma_first_keys(rules: Seq<Rule>, task: Task, context: ContextView)
    requires
        rules.len() > 0,
    ensures
        score_keys(rules, task, context).len() >= 2,
        score_keys(rules, task, context)[0] == rules[0].spec_evaluate(task, context).spec_keys()[0],
        score_keys(rules, task, context)[1] == rules[0].spec_evaluate(task, context).spec_keys()[1],
    decreases rules.len(),
{
    if rules.len() > 1 {
        lemma_first_keys(rules.drop_last(), task, context);
        assert(rules.drop_last()[0] == rules[0]);
    } else {
        assert(rules.drop_last().len() == 0);
        assert(score_keys(rules.drop_last(), task, context) =~= Seq::<i128>::empty());
        assert(rules.last() == rules[0]);
    }
}

/// When the first rule scores `a` strictly below `b`, the sort keys of `a`
/// come before those of `b`, and not the other way round.
pub proof fn lemma_first_rule_orders_rows(engine: RuleEngine, a: Task, b: Task, context: ContextView)
    requires
        engine.spec_scores_below(a, b, context),
    ensures
        row_before(engine.spec_row(a, context), engine.spec_row(b, context)),
        !row_before(engine.spec_row(b, context), engine.spec_row(a, context)),
{
    let ra = engine.spec_row(a, context);
    let rb = engine.spec_row(b, context);
    lemma_first_keys(engine.rules@, a, context);
    lemma_first_keys(engine.rules@, b, context);
    let sa = engine.rules@[0].spec_evaluate(a, context);
    let sb = engine.rules@[0].spec_evaluate(b, context);
    assert(ra[0] == sa.spec_keys()[0] && ra[1] == sa.spec_keys()[1]);
    assert(rb[0] == sb.spec_keys()[0] && rb[1] == sb.spec_keys()[1]);
    if ra[0] < rb[0] {
        assert(decides_at(ra, rb, 0));
    } else {
        assert(decides_at(ra, rb, 1));
    }
    lemma_row_before_asymmetric(ra, rb);
}

/// When the first rule scores task `a` strictly below task `b`, `a` is
/// listed before `b`, whatever the later rules and the tie-breaker say.
pub proof fn first_rule_decides(
    engine: RuleEngine,
    tasks: Seq<Task>,
    context: ContextView,
    order: Seq<usize>,
    a: usize,
    b: usize,
)
    requires
        is_stable_sort(engine.spec_rows(tasks, context), order),
        engine.rules@.len() > 0,
        a < tasks.len(),
        b < tasks.len(),
        engine.rules@[0].spec_evaluate(tasks[a as int], context).spec_is_below(
            engine.rules@[0].spec_evaluate(tasks[b as int], context),
        ),
    ensures
        order.contains(a),
        order.contains(b),
        order.index_of(a) < order.index_of(b),
{
    let rows = engine.spec_rows(tasks, context);
    let ra = rows[a as int];
    let rb = rows[b as int];
    lemma_first_keys(engine.rules@, tasks[a as int], context);
    lemma_first_keys(engine.rules@, tasks[b as int], context);
    let sa = engine.rules@[0].spec_evaluate(tasks[a as int], context);
    let sb = engine.rules@[0].spec_evaluate(tasks[b as int], context);
    assert(ra[0] == sa.spec_keys()[0] && ra[1] == sa.spec_keys()[1]);
    assert(rb[0] == sb.spec_keys()[0] && rb[1] == sb.spec_keys()[1]);
    if ra[0] < rb[0] {
        assert(decides_at(ra, rb, 0));
    } else {
        assert(decides_at(ra, rb, 1));
    }
    assert(row_before(ra, rb));
    lemma_sorted_positions(rows, order, a, b);
}

} // verus!
