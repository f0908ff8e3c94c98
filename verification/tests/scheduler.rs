use u_schedule::dispatching::{Rule, RuleEngine};
use u_schedule::models::{
    Activity, ActivityDuration, Resource, ResourceRequirement, ResourceType, Task,
    TransitionMatrix, TransitionMatrixCollection,
};
use u_schedule::scheduler::{priority_order, schedule_in_order, ScheduleRequest, SimpleScheduler};

fn make_resource(id: &str) -> Resource {
    Resource::new(id, ResourceType::Primary)
}

fn make_task_with_resource(id: &str, duration_ms: i64, resource_id: &str, priority: i32) -> Task {
    Task::new(id).with_priority(priority).with_category("default").with_activity(
        Activity::new(&format!("{id}_O1"), id, 0)
            .with_duration(ActivityDuration::fixed(duration_ms))
            .with_requirement(
                ResourceRequirement::new("Machine").with_candidates(vec![resource_id.into()]),
            ),
    )
}

#[test]
fn test_simple_single_task() {
    let tasks = vec![make_task_with_resource("J1", 1000, "M1", 0)];
    let resources = vec![make_resource("M1")];
    let scheduler = SimpleScheduler::new();

    let schedule = scheduler.schedule(&tasks, &resources, 0);
    assert_eq!(schedule.assignment_count(), 1);

    let a = schedule.assignment_for_activity("J1_O1").unwrap();
    assert_eq!(a.start_ms, 0);
    assert_eq!(a.end_ms, 1000);
    assert_eq!(a.resource_id, "M1");
}

#[test]
fn test_priority_ordering() {
    let tasks = vec![
        make_task_with_resource("low", 1000, "M1", 1),
        make_task_with_resource("high", 1000, "M1", 10),
    ];
    let resources = vec![make_resource("M1")];
    let scheduler = SimpleScheduler::new();

    let schedule = scheduler.schedule(&tasks, &resources, 0);

    // High priority scheduled first
    let high_a = schedule.assignment_for_activity("high_O1").unwrap();
    let low_a = schedule.assignment_for_activity("low_O1").unwrap();
    assert!(high_a.start_ms < low_a.start_ms);
}

#[test]
fn test_two_resources() {
    let tasks = vec![
        make_task_with_resource("J1", 2000, "M1", 10),
        make_task_with_resource("J2", 1000, "M1", 5),
    ];
    // Only M1 → J1 first (priority), then J2 at 2000
    let resources = vec![make_resource("M1")];
    let scheduler = SimpleScheduler::new();

    let schedule = scheduler.schedule(&tasks, &resources, 0);
    let j1 = schedule.assignment_for_activity("J1_O1").unwrap();
    let j2 = schedule.assignment_for_activity("J2_O1").unwrap();
    assert_eq!(j1.start_ms, 0);
    assert_eq!(j1.end_ms, 2000);
    assert_eq!(j2.start_ms, 2000);
    assert_eq!(j2.end_ms, 3000);
}

#[test]
fn test_parallel_resources() {
    // J1→M1, J2→M2 can run in parallel
    let tasks = vec![
        make_task_with_resource("J1", 2000, "M1", 10),
        make_task_with_resource("J2", 1000, "M2", 5),
    ];
    let resources = vec![make_resource("M1"), make_resource("M2")];
    let scheduler = SimpleScheduler::new();

    let schedule = scheduler.schedule(&tasks, &resources, 0);
    let j1 = schedule.assignment_for_activity("J1_O1").unwrap();
    let j2 = schedule.assignment_for_activity("J2_O1").unwrap();
    // Both start at 0 since they use different resources
    assert_eq!(j1.start_ms, 0);
    assert_eq!(j2.start_ms, 0);
}

#[test]
fn test_multi_activity_task() {
    let task = Task::new("J1")
        .with_priority(1)
        .with_category("TypeA")
        .with_activity(
            Activity::new("O1", "J1", 0)
                .with_duration(ActivityDuration::fixed(1000))
                .with_requirement(
                    ResourceRequirement::new("Machine").with_candidates(vec!["M1".into()]),
                ),
        )
        .with_activity(
            Activity::new("O2", "J1", 1)
                .with_duration(ActivityDuration::fixed(2000))
                .with_requirement(
                    ResourceRequirement::new("Machine").with_candidates(vec!["M1".into()]),
                ),
        );

    let resources = vec![make_resource("M1")];
    let scheduler = SimpleScheduler::new();
    let schedule = scheduler.schedule(&[task], &resources, 0);

    let o1 = schedule.assignment_for_activity("O1").unwrap();
    let o2 = schedule.assignment_for_activity("O2").unwrap();
    // O2 must start after O1 ends (intra-task precedence)
    assert_eq!(o1.end_ms, 1000);
    assert!(o2.start_ms >= o1.end_ms);
    assert_eq!(o2.end_ms, 3000);
}

#[test]
fn test_transition_matrix_setup() {
    let mut tm = TransitionMatrix::new("changeover", "M1").with_default(500);
    tm.set_transition("TypeA", "TypeB", 1000);

    let matrices = TransitionMatrixCollection::new().with_matrix(tm);

    let tasks = vec![
        Task::new("J1").with_priority(10).with_category("TypeA").with_activity(
            Activity::new("O1", "J1", 0)
                .with_duration(ActivityDuration::fixed(1000))
                .with_requirement(
                    ResourceRequirement::new("Machine").with_candidates(vec!["M1".into()]),
                ),
        ),
        Task::new("J2").with_priority(5).with_category("TypeB").with_activity(
            Activity::new("O2", "J2", 0)
                .with_duration(ActivityDuration::fixed(1000))
                .with_requirement(
                    ResourceRequirement::new("Machine").with_candidates(vec!["M1".into()]),
                ),
        ),
    ];

    let resources = vec![make_resource("M1")];
    let scheduler = SimpleScheduler::new().with_transition_matrices(matrices);

    let schedule = scheduler.schedule(&tasks, &resources, 0);
    let o2 = schedule.assignment_for_activity("O2").unwrap();
    // J1 ends at 1000, setup A→B = 1000, J2 starts at 1000, ends at 1000+1000+1000 = 3000
    assert_eq!(o2.start_ms, 1000);
    assert_eq!(o2.setup_ms, 1000);
    assert_eq!(o2.end_ms, 3000);
    let o1 = schedule.assignment_for_activity("O1").unwrap();
    assert_eq!((o1.start_ms, o1.end_ms, o1.setup_ms), (0, 1000, 0));
}

#[test]
fn test_with_rule_engine() {
    // Use SPT rule → shorter task first regardless of priority
    let tasks = vec![
        make_task_with_resource("long", 5000, "M1", 100), // High priority but long
        make_task_with_resource("short", 1000, "M1", 1),  // Low priority but short
    ];
    let resources = vec![make_resource("M1")];
    let engine = RuleEngine::new().with_rule(Rule::Spt);
    let scheduler = SimpleScheduler::new().with_rule_engine(engine);

    let schedule = scheduler.schedule(&tasks, &resources, 0);
    let short_a = schedule.assignment_for_activity("short_O1").unwrap();
    let long_a = schedule.assignment_for_activity("long_O1").unwrap();
    // SPT orders short first despite lower priority
    assert_eq!(short_a.start_ms, 0);
    assert!(long_a.start_ms >= short_a.end_ms);
    assert_eq!(long_a.start_ms, 1000);
}

#[test]
fn test_schedule_request() {
    let tasks = vec![make_task_with_resource("J1", 1000, "M1", 0)];
    let resources = vec![make_resource("M1")];
    let request = ScheduleRequest::new(tasks, resources).with_start_time(5000);

    let scheduler = SimpleScheduler::new();
    let schedule = scheduler.schedule_request(&request);

    let a = schedule.assignment_for_activity("J1_O1").unwrap();
    assert_eq!(a.start_ms, 5000);
    assert_eq!(a.end_ms, 6000);
}

#[test]
fn test_release_time_respected() {
    let mut task = make_task_with_resource("J1", 1000, "M1", 0);
    task.release_time = Some(5000);
    let resources = vec![make_resource("M1")];
    let scheduler = SimpleScheduler::new();

    let schedule = scheduler.schedule(&[task], &resources, 0);
    let a = schedule.assignment_for_activity("J1_O1").unwrap();
    // Must not start before release_time
    assert_eq!(a.start_ms, 5000);
}

#[test]
fn test_empty_input() {
    let scheduler = SimpleScheduler::new();
    let schedule = scheduler.schedule(&[], &[], 0);
    assert_eq!(schedule.assignment_count(), 0);
    assert_eq!(schedule.makespan_ms(), 0);
}

#[test]
fn test_no_candidate_resources() {
    // Activity with no resource requirement → skipped
    let task = Task::new("J1")
        .with_priority(1)
        .with_activity(Activity::new("O1", "J1", 0).with_duration(ActivityDuration::fixed(1000)));
    let resources = vec![make_resource("M1")];
    let scheduler = SimpleScheduler::new();
    let schedule = scheduler.schedule(&[task], &resources, 0);
    assert_eq!(schedule.assignment_count(), 0);
}

#[test]
fn single_machine_two_tasks_by_priority() {
    let tasks = vec![
        make_task_with_resource("T1", 1000, "M1", 1),
        make_task_with_resource("T2", 1000, "M1", 10),
    ];
    let resources = vec![make_resource("M1")];
    let schedule = SimpleScheduler::new().schedule(&tasks, &resources, 0);
    let t1 = schedule.assignment_for_activity("T1_O1").unwrap();
    let t2 = schedule.assignment_for_activity("T2_O1").unwrap();
    assert_eq!((t2.start_ms, t2.end_ms), (0, 1000));
    assert_eq!((t1.start_ms, t1.end_ms), (1000, 2000));
    assert_eq!(schedule.makespan_ms(), 2000);
    assert_eq!(schedule.resource_busy_ms("M1"), 2000);
}

#[test]
fn release_time_before_the_start_does_not_pull_the_task_forward() {
    let mut task = make_task_with_resource("J1", 10, "M1", 0);
    task.release_time = Some(5);
    let schedule = SimpleScheduler::new().schedule(&[task], &[make_resource("M1")], 100);
    assert_eq!(schedule.assignments[0].start_ms, 100);
}

#[test]
fn earliest_candidate_wins_and_ties_go_to_the_first_listed() {
    let two = |id: &str, ms: i64, cands: Vec<String>| {
        Task::new(id).with_activity(
            Activity::new(&format!("{id}_O1"), id, 0)
                .with_process_time(ms)
                .with_requirement(ResourceRequirement::new("Machine").with_candidates(cands)),
        )
    };
    let tasks = vec![
        two("A", 100, vec!["M2".into(), "M1".into()]), // tie at 0: M2 is listed first
        two("B", 50, vec!["M2".into(), "M1".into()]),  // M1 is free at 0, M2 at 100
        two("C", 10, vec!["M2".into(), "M1".into()]),  // M1 free at 50, M2 at 100
        two("D", 10, vec!["M7".into(), "M2".into()]),  // M7 is no resource
        two("E", 10, vec!["M7".into()]),               // dropped
    ];
    let resources = vec![make_resource("M1"), make_resource("M2")];
    let schedule = SimpleScheduler::new().schedule(&tasks, &resources, 0);
    let got: Vec<(&str, &str, i64, i64)> = schedule
        .assignments
        .iter()
        .map(|a| (a.task_id.as_str(), a.resource_id.as_str(), a.start_ms, a.end_ms))
        .collect();
    assert_eq!(
        got,
        vec![("A", "M2", 0, 100), ("B", "M1", 0, 50), ("C", "M1", 50, 60), ("D", "M2", 100, 110)]
    );
}

#[test]
fn skipped_activity_does_not_hold_the_task_back() {
    let task = Task::new("J1")
        .with_activity(Activity::new("O1", "J1", 0).with_process_time(10).with_requirement(
            ResourceRequirement::new("Machine").with_candidates(vec!["M1".into()]),
        ))
        .with_activity(Activity::new("O2", "J1", 1).with_process_time(1000))
        .with_activity(Activity::new("O3", "J1", 2).with_process_time(5).with_requirement(
            ResourceRequirement::new("Machine").with_candidates(vec!["M2".into()]),
        ));
    let resources = vec![make_resource("M1"), make_resource("M2")];
    let schedule = SimpleScheduler::new().schedule(&[task], &resources, 0);
    assert_eq!(schedule.assignment_count(), 2);
    let o3 = schedule.assignment_for_activity("O3").unwrap();
    assert_eq!((o3.start_ms, o3.end_ms), (10, 15));
}

#[test]
fn activity_setup_and_teardown_are_not_added() {
    let task = Task::new("J1").with_activity(
        Activity::new("O1", "J1", 0).with_duration(ActivityDuration::new(7, 100, 9)).with_requirement(
            ResourceRequirement::new("Machine").with_candidates(vec!["M1".into()]),
        ),
    );
    let schedule = SimpleScheduler::new().schedule(&[task], &[make_resource("M1")], 0);
    let a = &schedule.assignments[0];
    assert_eq!((a.start_ms, a.end_ms, a.setup_ms), (0, 100, 0));
}

#[test]
fn same_category_has_no_setup_unless_set() {
    let mut tm = TransitionMatrix::new("tm", "M1").with_default(500);
    tm.set_transition("B", "B", 30);
    let matrices = TransitionMatrixCollection::new().with_matrix(tm);
    let on_m1 = |id: &str, category: &str, priority: i32| {
        make_task_with_resource(id, 100, "M1", priority).with_category(category)
    };
    let tasks = vec![on_m1("T1", "A", 9), on_m1("T2", "A", 8), on_m1("T3", "B", 7), on_m1("T4", "B", 6)];
    let schedule = SimpleScheduler::new()
        .with_transition_matrices(matrices)
        .schedule(&tasks, &[make_resource("M1")], 0);
    let setups: Vec<i64> = schedule.assignments.iter().map(|a| a.setup_ms).collect();
    assert_eq!(setups, vec![0, 0, 500, 30]);
    let ends: Vec<i64> = schedule.assignments.iter().map(|a| a.end_ms).collect();
    assert_eq!(ends, vec![100, 200, 800, 930]);
    // Assignments on one resource never overlap, and each lasts setup plus processing.
    for pair in schedule.assignments.windows(2) {
        assert!(pair[0].end_ms <= pair[1].start_ms);
    }
    for a in &schedule.assignments {
        assert_eq!(a.end_ms - a.start_ms, a.setup_ms + 100);
    }
}

#[test]
fn priority_order_is_stable() {
    let tasks = vec![
        Task::new("a").with_priority(1),
        Task::new("b").with_priority(5),
        Task::new("c").with_priority(1),
        Task::new("d").with_priority(5),
        Task::new("e").with_priority(-3),
    ];
    assert_eq!(priority_order(&tasks), vec![1, 3, 0, 2, 4]);
    assert!(priority_order(&[]).is_empty());
}

#[test]
fn schedule_in_order_follows_the_given_order() {
    let tasks = vec![
        make_task_with_resource("J1", 100, "M1", 0),
        make_task_with_resource("J2", 10, "M1", 99),
    ];
    let resources = vec![make_resource("M1")];
    let none = TransitionMatrixCollection::new();
    let schedule = schedule_in_order(&tasks, &resources, 0, &none, &vec![0, 1]);
    assert_eq!(schedule.assignments[0].task_id, "J1");
    assert_eq!(schedule.assignments[1].start_ms, 100);
    let only_second = schedule_in_order(&tasks, &resources, 7, &none, &vec![1]);
    assert_eq!(only_second.assignment_count(), 1);
    assert_eq!(only_second.assignments[0].end_ms, 17);
}

#[test]
fn times_beyond_64_bits_are_refused() {
    let tasks = vec![
        make_task_with_resource("J1", i64::MAX - 5, "M1", 2),
        make_task_with_resource("J2", 5, "M1", 1),
        make_task_with_resource("J3", 1, "M1", 0),
    ];
    let resources = vec![make_resource("M1")];
    let none = TransitionMatrixCollection::new();
    // The first two tasks end exactly at the largest time.
    let fits = u_schedule::scheduler::try_schedule_in_order(&tasks, &resources, 0, &none, &vec![0, 1]);
    assert_eq!(fits.unwrap().makespan_ms(), i64::MAX);
    // The third one would end one millisecond later.
    assert!(SimpleScheduler::new().try_schedule(&tasks, &resources, 0).is_none());
    assert!(u_schedule::scheduler::try_schedule_in_order(&tasks, &resources, 1, &none, &vec![0, 1]).is_none());
    let ok = SimpleScheduler::new().try_schedule(&tasks[1..], &resources, 0).unwrap();
    assert_eq!(ok.makespan_ms(), 6);
}

#[test]
fn scores_beyond_64_bits_are_refused() {
    let huge = Task::new("huge")
        .with_activity(Activity::new("h1", "huge", 0).with_process_time(i64::MAX))
        .with_activity(Activity::new("h2", "huge", 1).with_process_time(1));
    let small = make_task_with_resource("small", 10, "M1", 0);
    let tasks = vec![huge, small];
    let resources = vec![make_resource("M1")];

    // Without a rule engine no duration is added up.
    let plain = SimpleScheduler::new().try_schedule(&tasks, &resources, 0).unwrap();
    assert_eq!(plain.assignment_count(), 1);

    let by_duration = SimpleScheduler::new().with_rule_engine(RuleEngine::new().with_rule(Rule::Spt));
    assert!(by_duration.try_schedule(&tasks, &resources, 0).is_none());
    let request = ScheduleRequest::new(tasks.clone(), resources.clone());
    assert!(by_duration.try_schedule_request(&request).is_none());

    let by_due_date = SimpleScheduler::new().with_rule_engine(RuleEngine::new().with_rule(Rule::Edd));
    let schedule = by_due_date.try_schedule(&tasks, &resources, 0).unwrap();
    assert_eq!(schedule.assignment_for_activity("small_O1").unwrap().start_ms, 0);
    assert_eq!(by_due_date.try_schedule_request(&request).unwrap().makespan_ms(), 10);
}

#[test]
fn assignments_of_a_task_follow_its_activities_and_its_release() {
    let step = |id: &str, task: &str, seq: i32, ms: i64, on: &[&str]| {
        Activity::new(id, task, seq)
            .with_duration(ActivityDuration::fixed(ms))
            .with_requirement(
                ResourceRequirement::new("Machine").with_candidates(on.iter().map(|m| m.to_string()).collect()),
            )
    };
    let tasks = vec![
        Task::new("A")
            .with_priority(1)
            .with_release_time(50)
            .with_activity(step("A1", "A", 0, 30, &["M1", "M2"]))
            .with_activity(step("A2", "A", 1, 20, &["M2"]))
            .with_activity(step("A3", "A", 2, 10, &["M1", "M2"])),
        Task::new("B")
            .with_priority(5)
            .with_activity(step("B1", "B", 0, 70, &["M2"]))
            .with_activity(step("B2", "B", 1, 5, &["M1"])),
    ];
    let resources = vec![make_resource("M1"), make_resource("M2")];
    let schedule = SimpleScheduler::new().try_schedule(&tasks, &resources, 10).unwrap();
    assert_eq!(schedule.assignment_count(), 5);
    for task in &tasks {
        let release = task.release_time.unwrap_or(10).max(10);
        let mut earlier_end = release;
        for activity in &task.activities {
            let a = schedule.assignment_for_activity(&activity.id).unwrap();
            assert!(a.start_ms >= release);
            assert!(a.start_ms >= earlier_end);
            assert!(a.end_ms >= a.start_ms);
            earlier_end = a.end_ms;
        }
    }
    for a in &schedule.assignments {
        for b in &schedule.assignments {
            if a.activity_id != b.activity_id && a.resource_id == b.resource_id {
                assert!(a.end_ms <= b.start_ms || b.end_ms <= a.start_ms);
            }
        }
    }
    // B goes first: B1 on M2 at 10..80, B2 on M1 at 80..85; then A1 on M2, free at 80.
    assert_eq!(schedule.assignment_for_activity("B1").unwrap().start_ms, 10);
    let a1 = schedule.assignment_for_activity("A1").unwrap();
    assert_eq!((a1.resource_id.as_str(), a1.start_ms, a1.end_ms), ("M2", 80, 110));
    let a3 = schedule.assignment_for_activity("A3").unwrap();
    assert_eq!((a3.resource_id.as_str(), a3.start_ms, a3.end_ms), ("M1", 130, 140));
}
