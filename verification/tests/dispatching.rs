use u_schedule::dispatching::rules::{
    Cr, Edd, Fifo, Lpt, Lpul, Lwkr, Mst, Mwkr, Priority, Spt, Sro, Winq, Wspt,
};
use u_schedule::dispatching::{
    EvaluationMode, Rule, RuleEngine, RuleScore, SchedulingContext, TieBreaker,
};
use u_schedule::models::{Activity, ActivityDuration, ResourceRequirement, Task};

fn make_task(id: &str, duration_ms: i64, deadline: Option<i64>, priority: i32) -> Task {
    let mut task = Task::new(id).with_priority(priority).with_activity(
        Activity::new(&format!("{id}_O1"), id, 0).with_duration(ActivityDuration::fixed(duration_ms)),
    );
    task.deadline = deadline;
    task
}

#[test]
fn test_spt() {
    let ctx = SchedulingContext::at_time(0);
    let short = make_task("short", 1000, None, 0);
    let long = make_task("long", 5000, None, 0);
    assert!(Spt.evaluate(&short, &ctx) < Spt.evaluate(&long, &ctx));
}

#[test]
fn test_lpt() {
    let ctx = SchedulingContext::at_time(0);
    let short = make_task("short", 1000, None, 0);
    let long = make_task("long", 5000, None, 0);
    assert!(Lpt.evaluate(&long, &ctx) < Lpt.evaluate(&short, &ctx));
}

#[test]
fn test_lwkr_with_context() {
    let ctx = SchedulingContext::at_time(0)
        .with_remaining_work("almost_done", 100)
        .with_remaining_work("lots_left", 5000);

    let t1 = make_task("almost_done", 10000, None, 0);
    let t2 = make_task("lots_left", 10000, None, 0);
    assert!(Lwkr.evaluate(&t1, &ctx) < Lwkr.evaluate(&t2, &ctx));
}

#[test]
fn test_lwkr_fallback() {
    let ctx = SchedulingContext::at_time(0); // No remaining_work data
    let t1 = make_task("short", 1000, None, 0);
    let t2 = make_task("long", 5000, None, 0);
    assert!(Lwkr.evaluate(&t1, &ctx) < Lwkr.evaluate(&t2, &ctx));
}

#[test]
fn test_mwkr() {
    let ctx = SchedulingContext::at_time(0).with_remaining_work("a", 100).with_remaining_work("b", 5000);
    let t1 = make_task("a", 10000, None, 0);
    let t2 = make_task("b", 10000, None, 0);
    assert!(Mwkr.evaluate(&t2, &ctx) < Mwkr.evaluate(&t1, &ctx));
}

#[test]
fn test_edd() {
    let ctx = SchedulingContext::at_time(0);
    let early = make_task("early", 1000, Some(10_000), 0);
    let late = make_task("late", 1000, Some(50_000), 0);
    let none = make_task("none", 1000, None, 0);
    assert!(Edd.evaluate(&early, &ctx) < Edd.evaluate(&late, &ctx));
    assert!(Edd.evaluate(&late, &ctx) < Edd.evaluate(&none, &ctx));
}

#[test]
fn test_mst() {
    let ctx = SchedulingContext::at_time(1000);
    // Deadline 5000, remaining 3000 → slack = (5000-1000)-3000 = 1000
    let urgent = make_task("urgent", 3000, Some(5000), 0);
    // Deadline 50000, remaining 3000 → slack = (50000-1000)-3000 = 46000
    let relaxed = make_task("relaxed", 3000, Some(50000), 0);
    assert!(Mst.evaluate(&urgent, &ctx) < Mst.evaluate(&relaxed, &ctx));
    assert_eq!(Mst.evaluate(&urgent, &ctx), RuleScore::Value(1000));
    assert_eq!(Mst.evaluate(&relaxed, &ctx), RuleScore::Value(46000));
}

#[test]
fn test_fifo() {
    let ctx = SchedulingContext::at_time(5000)
        .with_arrival_time("first", 1000)
        .with_arrival_time("second", 3000);
    let t1 = make_task("first", 2000, None, 0);
    let t2 = make_task("second", 2000, None, 0);
    assert!(Fifo.evaluate(&t1, &ctx) < Fifo.evaluate(&t2, &ctx));
}

#[test]
fn test_fifo_fallback() {
    let ctx = SchedulingContext::at_time(0);
    let mut t1 = make_task("t1", 1000, None, 0);
    t1.release_time = Some(500);
    let mut t2 = make_task("t2", 1000, None, 0);
    t2.release_time = Some(1000);
    assert!(Fifo.evaluate(&t1, &ctx) < Fifo.evaluate(&t2, &ctx));
    assert_eq!(Fifo.evaluate(&make_task("t3", 1, None, 0), &ctx), RuleScore::Value(0));
}

#[test]
fn test_winq() {
    let ctx = SchedulingContext::at_time(0).with_next_queue("short_q", 2).with_next_queue("long_q", 10);
    let t1 = make_task("short_q", 1000, None, 0);
    let t2 = make_task("long_q", 1000, None, 0);
    assert!(Winq.evaluate(&t1, &ctx) < Winq.evaluate(&t2, &ctx));
    assert_eq!(Winq.evaluate(&make_task("unknown", 1, None, 0), &ctx), RuleScore::Value(0));
}

#[test]
fn test_priority() {
    let ctx = SchedulingContext::at_time(0);
    let high = make_task("high", 1000, None, 100);
    let low = make_task("low", 1000, None, 1);
    assert!(Priority.evaluate(&high, &ctx) < Priority.evaluate(&low, &ctx));
}

#[test]
fn exact_scores_of_every_rule() {
    let ctx = SchedulingContext::at_time(200)
        .with_remaining_work("t", 70)
        .with_arrival_time("t", 9)
        .with_next_queue("t", 4);
    let mut t = make_task("t", 1000, Some(5000), 3);
    t.release_time = Some(50);
    let expected = [
        (Rule::Spt, RuleScore::Value(1000)),
        (Rule::Lpt, RuleScore::Value(-1000)),
        (Rule::Lwkr, RuleScore::Value(70)),
        (Rule::Mwkr, RuleScore::Value(-70)),
        (Rule::Edd, RuleScore::Value(5000)),
        (Rule::Mst, RuleScore::Value(5000 - 200 - 70)),
        (Rule::Fifo, RuleScore::Value(9)),
        (Rule::Winq, RuleScore::Value(4)),
        (Rule::Priority, RuleScore::Value(-3)),
    ];
    for (rule, score) in expected {
        assert_eq!(rule.evaluate(&t, &ctx), score, "{}", rule.name());
    }
    let no_deadline = make_task("u", 10, None, 0);
    assert_eq!(Rule::Edd.evaluate(&no_deadline, &ctx), RuleScore::Unbounded);
    assert_eq!(Rule::Mst.evaluate(&no_deadline, &ctx), RuleScore::Unbounded);
    assert_eq!(Rule::Mwkr.evaluate(&no_deadline, &ctx), RuleScore::Value(-10));
    assert!(RuleScore::Value(i128::MAX).is_below(&RuleScore::Unbounded));
    assert!(!RuleScore::Unbounded.is_below(&RuleScore::Unbounded));
    assert!(!RuleScore::Value(3).is_below(&RuleScore::Value(3)));
}

#[test]
fn rule_names_and_descriptions() {
    let names = [
        (Spt.name(), Spt.description(), "SPT", "Shortest Processing Time"),
        (Lpt.name(), Lpt.description(), "LPT", "Longest Processing Time"),
        (Lwkr.name(), Lwkr.description(), "LWKR", "Least Work Remaining"),
        (Mwkr.name(), Mwkr.description(), "MWKR", "Most Work Remaining"),
        (Wspt.name(), Wspt.description(), "WSPT", "Weighted Shortest Processing Time"),
        (Edd.name(), Edd.description(), "EDD", "Earliest Due Date"),
        (Mst.name(), Mst.description(), "MST", "Minimum Slack Time"),
        (Cr.name(), Cr.description(), "CR", "Critical Ratio"),
        (Sro.name(), Sro.description(), "S/RO", "Slack per Remaining Operations"),
        (Fifo.name(), Fifo.description(), "FIFO", "First In First Out"),
        (Winq.name(), Winq.description(), "WINQ", "Work In Next Queue"),
        (Lpul.name(), Lpul.description(), "LPUL", "Least Planned Utilization Level"),
        (Priority.name(), Priority.description(), "PRIORITY", "Task Priority"),
    ];
    for (name, description, want_name, want_description) in names {
        assert_eq!(name, want_name);
        assert_eq!(description, want_description);
    }
    assert_eq!(Rule::Mst.name(), "MST");
}

#[test]
fn test_spt_ordering() {
    let tasks = vec![
        make_task("long", 5000, None, 0),
        make_task("short", 1000, None, 0),
        make_task("medium", 3000, None, 0),
    ];
    let ctx = SchedulingContext::at_time(0);
    let engine = RuleEngine::new().with_rule(Rule::Spt);

    let indices = engine.sort_indices(&tasks, &ctx);
    assert_eq!(tasks[indices[0]].id, "short");
    assert_eq!(tasks[indices[1]].id, "medium");
    assert_eq!(tasks[indices[2]].id, "long");
}

#[test]
fn test_edd_ordering() {
    let tasks = vec![
        make_task("late", 1000, Some(50_000), 0),
        make_task("early", 1000, Some(10_000), 0),
        make_task("no_deadline", 1000, None, 0),
    ];
    let ctx = SchedulingContext::at_time(0);
    let engine = RuleEngine::new().with_rule(Rule::Edd);

    let indices = engine.sort_indices(&tasks, &ctx);
    assert_eq!(tasks[indices[0]].id, "early");
    assert_eq!(tasks[indices[1]].id, "late");
    assert_eq!(tasks[indices[2]].id, "no_deadline");
}

#[test]
fn test_sequential_with_tie_breaker() {
    let tasks = vec![
        make_task("A", 1000, Some(10_000), 0),
        make_task("B", 2000, Some(10_000), 0), // Same deadline as A
    ];
    let ctx = SchedulingContext::at_time(0);
    let engine = RuleEngine::new().with_rule(Rule::Edd).with_tie_breaker(Rule::Spt);

    let indices = engine.sort_indices(&tasks, &ctx);
    // EDD ties → SPT breaks it → A (shorter) first
    assert_eq!(tasks[indices[0]].id, "A");
}

#[test]
fn test_by_id_tie_breaker() {
    let tasks = vec![make_task("B", 1000, None, 0), make_task("A", 1000, None, 0)];
    let ctx = SchedulingContext::at_time(0);
    let engine = RuleEngine::new().with_rule(Rule::Spt).with_final_tie_breaker(TieBreaker::ById);

    let indices = engine.sort_indices(&tasks, &ctx);
    // SPT ties → ById → A before B
    assert_eq!(tasks[indices[0]].id, "A");
}

#[test]
fn test_empty_tasks() {
    let ctx = SchedulingContext::at_time(0);
    let engine = RuleEngine::new().with_rule(Rule::Spt);
    assert!(engine.sort_indices(&[], &ctx).is_empty());
    assert!(engine.select_best(&[], &ctx).is_none());
}

#[test]
fn test_select_best() {
    let tasks = vec![make_task("long", 5000, None, 0), make_task("short", 1000, None, 0)];
    let ctx = SchedulingContext::at_time(0);
    let engine = RuleEngine::new().with_rule(Rule::Spt);

    assert_eq!(engine.select_best(&tasks, &ctx), Some(1));
}

#[test]
fn test_evaluate_scores() {
    let task = make_task("T1", 3000, Some(20_000), 0);
    let ctx = SchedulingContext::at_time(0);
    let engine = RuleEngine::new().with_rule(Rule::Spt).with_rule(Rule::Edd);

    let scores = engine.evaluate(&task, &ctx);
    assert_eq!(scores.len(), 2);
    assert_eq!(scores[0], RuleScore::Value(3000)); // SPT score
    assert_eq!(scores[1], RuleScore::Value(20_000)); // EDD score
}

#[test]
fn first_rule_is_never_overruled() {
    // The second rule and the identifiers both favour "a"; the first rule favours "z".
    let tasks = vec![make_task("a", 10, Some(900), 0), make_task("z", 99, Some(100), 0)];
    let ctx = SchedulingContext::at_time(0);
    let engine = RuleEngine::new()
        .with_rule(Rule::Edd)
        .with_tie_breaker(Rule::Spt)
        .with_final_tie_breaker(TieBreaker::ById);
    assert_eq!(engine.sort_indices(&tasks, &ctx), vec![1, 0]);
}

#[test]
fn ties_keep_the_given_order_without_a_final_tie_breaker() {
    let tasks = vec![
        make_task("c", 10, None, 0),
        make_task("b", 10, None, 0),
        make_task("a", 10, None, 0),
        make_task("", 10, None, 0),
        make_task("ab", 10, None, 0),
    ];
    let ctx = SchedulingContext::at_time(0);
    let engine = RuleEngine::new().with_rule(Rule::Spt);
    assert_eq!(engine.sort_indices(&tasks, &ctx), vec![0, 1, 2, 3, 4]);
    let by_id = engine.with_final_tie_breaker(TieBreaker::ById);
    // "" < "a" < "ab" < "b" < "c"
    assert_eq!(by_id.sort_indices(&tasks, &ctx), vec![3, 2, 4, 1, 0]);
    // An engine without rules orders by identifier alone, or not at all.
    assert_eq!(RuleEngine::new().sort_indices(&tasks, &ctx), vec![0, 1, 2, 3, 4]);
}

#[test]
fn modes_and_tie_breakers_have_defaults() {
    assert_eq!(EvaluationMode::default(), EvaluationMode::Sequential);
    assert_eq!(TieBreaker::default(), TieBreaker::NextRule);
    assert_ne!(EvaluationMode::Weighted, EvaluationMode::Sequential);
    let engine = RuleEngine::default();
    assert!(engine.rules.is_empty());
    assert_eq!(engine.tie_breaker, TieBreaker::NextRule);
}

fn wspt_score(task: &Task) -> f64 {
    match Wspt.terms(task) {
        Some((priority, processing)) => -((1000.0 / (priority as f64 + 1.0)) / processing as f64),
        None => f64::MAX,
    }
}

fn cr_score(task: &Task, ctx: &SchedulingContext) -> f64 {
    match Cr.terms(task, ctx) {
        Some((until_deadline, remaining)) => until_deadline as f64 / remaining as f64,
        None => f64::MAX,
    }
}

fn sro_score(task: &Task, ctx: &SchedulingContext) -> f64 {
    match Sro.terms(task, ctx) {
        Some((slack, operations)) => slack as f64 / operations as f64,
        None => f64::MAX,
    }
}

#[test]
fn test_wspt() {
    // High priority + short duration → highest WSPT
    let important_short = make_task("is", 1000, None, 1);
    // Low priority + long duration → lowest WSPT
    let unimportant_long = make_task("ul", 5000, None, 10);
    assert!(wspt_score(&important_short) < wspt_score(&unimportant_long));
}

#[test]
fn test_cr() {
    let ctx = SchedulingContext::at_time(1000);
    // Deadline 4000, remaining 3000 → CR = (4000-1000)/3000 = 1.0
    let on_track = make_task("on_track", 3000, Some(4000), 0);
    // Deadline 10000, remaining 3000 → CR = (10000-1000)/3000 = 3.0
    let ahead = make_task("ahead", 3000, Some(10000), 0);
    assert!(cr_score(&on_track, &ctx) < cr_score(&ahead, &ctx));
}

#[test]
fn test_cr_behind_schedule() {
    let ctx = SchedulingContext::at_time(5000);
    // Deadline 4000 at t=5000 → CR = (4000-5000)/3000 = -0.33 (negative = behind)
    let behind = make_task("behind", 3000, Some(4000), 0);
    let normal = make_task("normal", 3000, Some(20000), 0);
    assert!(cr_score(&behind, &ctx) < cr_score(&normal, &ctx));
}

#[test]
fn test_sro() {
    let ctx = SchedulingContext::at_time(0);
    let few_ops = make_task("few", 1000, Some(5000), 0); // 1 op, slack=4000, S/RO=4000
    // Task with 3 activities
    let mut many_ops = Task::new("many").with_priority(0);
    many_ops.deadline = Some(5000);
    for i in 0..3 {
        many_ops.activities.push(
            Activity::new(&format!("many_O{i}"), "many", i).with_duration(ActivityDuration::fixed(333)),
        );
    }
    // slack = 5000-0-999 = 4001, S/RO = 4001/3 ≈ 1333
    assert!(sro_score(&many_ops, &ctx) < sro_score(&few_ops, &ctx));
}

#[test]
fn test_lpul() {
    let utilization = |id: &str| match id {
        "M1" => Some(0.3),
        "M2" => Some(0.9),
        _ => None,
    };
    let score = |task: &Task| {
        Lpul.resources(task)
            .into_iter()
            .filter_map(utilization)
            .fold(None, |least: Option<f64>, u| Some(least.map_or(u, |l| l.min(u))))
            .unwrap_or(0.0)
    };

    let t1 = Task::new("t1").with_activity(
        Activity::new("t1_O1", "t1", 0)
            .with_process_time(1000)
            .with_requirement(ResourceRequirement::new("Machine").with_candidates(vec!["M1".into()])),
    );
    let t2 = Task::new("t2").with_activity(
        Activity::new("t2_O1", "t2", 0)
            .with_process_time(1000)
            .with_requirement(ResourceRequirement::new("Machine").with_candidates(vec!["M2".into()])),
    );

    assert!(score(&t1) < score(&t2));
    assert!(Lpul.resources(&Task::new("bare")).is_empty());
}

#[test]
fn exact_terms_of_the_ratio_rules() {
    let ctx = SchedulingContext::at_time(1000).with_remaining_work("done", 0);
    let t = make_task("t", 3000, Some(4000), 4);
    assert_eq!(Wspt.terms(&t), Some((4, 3000)));
    assert_eq!(Cr.terms(&t, &ctx), Some((3000, 3000)));
    assert_eq!(Sro.terms(&t, &ctx), Some((0, 1)));
    // No duration, no deadline, no remaining work: the task comes last.
    assert_eq!(Wspt.terms(&Task::new("empty")), None);
    assert_eq!(Wspt.terms(&make_task("neg", -5, None, 0)), None);
    assert_eq!(Cr.terms(&make_task("free", 10, None, 0), &ctx), None);
    assert_eq!(Sro.terms(&make_task("free", 10, None, 0), &ctx), None);
    assert_eq!(Cr.terms(&make_task("done", 10, Some(5000), 0), &ctx), None);
    // A task without activities counts as one operation.
    let mut bare = Task::new("bare");
    bare.deadline = Some(1500);
    assert_eq!(Sro.terms(&bare, &ctx), Some((500, 1)));
}

#[test]
fn rules_tell_whether_a_score_can_be_computed() {
    let huge = Task::new("huge")
        .with_activity(Activity::new("h1", "huge", 0).with_duration(ActivityDuration::fixed(i64::MAX)))
        .with_activity(Activity::new("h2", "huge", 1).with_duration(ActivityDuration::fixed(1)));
    let bare = SchedulingContext::at_time(0);
    let told = SchedulingContext::at_time(0).with_remaining_work("huge", 7);

    for rule in [Rule::Spt, Rule::Lpt] {
        assert!(!rule.computable(&huge, &bare));
        assert!(!rule.computable(&huge, &told));
        assert_eq!(rule.try_evaluate(&huge, &told), None);
    }
    for rule in [Rule::Lwkr, Rule::Mwkr] {
        assert!(!rule.computable(&huge, &bare));
        assert!(rule.computable(&huge, &told));
    }
    assert_eq!(Rule::Lwkr.try_evaluate(&huge, &told), Some(RuleScore::Value(7)));
    assert_eq!(Rule::Mwkr.try_evaluate(&huge, &told), Some(RuleScore::Value(-7)));
    // Without a deadline the slack needs no remaining work.
    assert_eq!(Rule::Mst.try_evaluate(&huge, &bare), Some(RuleScore::Unbounded));
    let mut due = huge.clone();
    due.deadline = Some(100);
    assert_eq!(Rule::Mst.try_evaluate(&due, &bare), None);
    assert_eq!(Rule::Mst.try_evaluate(&due, &told), Some(RuleScore::Value(93)));
    for rule in [Rule::Edd, Rule::Fifo, Rule::Winq, Rule::Priority] {
        assert!(rule.computable(&huge, &bare));
    }

    let small = make_task("small", 5, None, 0);
    let engine = RuleEngine::new().with_rule(Rule::Edd).with_rule(Rule::Spt);
    assert!(engine.computable(&small, &bare));
    assert!(!engine.computable(&huge, &bare));
    assert!(engine.all_computable(&[small.clone()], &bare));
    assert!(!engine.all_computable(&[small.clone(), huge.clone()], &bare));
    assert!(engine.all_computable(&[], &bare));
    assert!(RuleEngine::new().all_computable(&[small, huge], &bare));
}

#[test]
fn compare_sequential_follows_the_first_rule() {
    let ctx = SchedulingContext::at_time(0);
    let short_late = make_task("b", 1000, Some(9000), 0);
    let long_soon = make_task("a", 5000, Some(100), 9);
    let engine = RuleEngine::new()
        .with_rule(Rule::Spt)
        .with_tie_breaker(Rule::Edd)
        .with_final_tie_breaker(TieBreaker::ById);
    // The first rule decides, whatever the due dates and the identifiers say.
    assert_eq!(engine.compare_sequential(&short_late, &long_soon, &ctx), std::cmp::Ordering::Less);
    assert_eq!(engine.compare_sequential(&long_soon, &short_late, &ctx), std::cmp::Ordering::Greater);
    // A tie of the first rule goes to the next one, then to the identifier.
    let same_soon = make_task("c", 1000, Some(100), 0);
    assert_eq!(engine.compare_sequential(&same_soon, &short_late, &ctx), std::cmp::Ordering::Less);
    let twin = make_task("a", 1000, Some(9000), 0);
    assert_eq!(engine.compare_sequential(&twin, &short_late, &ctx), std::cmp::Ordering::Less);
    assert_eq!(engine.compare_sequential(&short_late, &short_late, &ctx), std::cmp::Ordering::Equal);
    let plain = RuleEngine::new().with_rule(Rule::Spt);
    assert_eq!(plain.compare_sequential(&twin, &short_late, &ctx), std::cmp::Ordering::Equal);
    assert_eq!(RuleEngine::new().compare_sequential(&long_soon, &short_late, &ctx), std::cmp::Ordering::Equal);
}
