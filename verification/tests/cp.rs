use u_metaheur::cp::{Constraint as ModelConstraint, CpSolver, Objective, SimpleCpSolver, SolverConfig};
use u_schedule::collections::StringMap;
use u_schedule::cp::{lower, CpPlan, IntervalPlan, PlanConstraint, ScheduleCpBuilder};
use u_schedule::models::{
    Activity, ActivityDuration, Constraint, Resource, ResourceRequirement, ResourceType, Task,
};

fn make_test_data() -> (Vec<Task>, Vec<Resource>) {
    let tasks = vec![
        Task::new("T1")
            .with_activity(
                Activity::new("T1_O1", "T1", 0)
                    .with_duration(ActivityDuration::fixed(1000))
                    .with_requirement(
                        ResourceRequirement::new("Machine").with_candidates(vec!["M1".into()]),
                    ),
            )
            .with_activity(
                Activity::new("T1_O2", "T1", 1)
                    .with_duration(ActivityDuration::fixed(2000))
                    .with_requirement(
                        ResourceRequirement::new("Machine").with_candidates(vec!["M1".into()]),
                    ),
            ),
        Task::new("T2").with_activity(
            Activity::new("T2_O1", "T2", 0)
                .with_duration(ActivityDuration::fixed(1500))
                .with_requirement(
                    ResourceRequirement::new("Machine").with_candidates(vec!["M1".into()]),
                ),
        ),
    ];

    let resources = vec![Resource::new("M1", ResourceType::Primary)];
    (tasks, resources)
}

fn ids(items: &[&str]) -> Vec<String> {
    items.iter().map(|s| s.to_string()).collect()
}

fn shape(c: &PlanConstraint) -> String {
    match c {
        PlanConstraint::Precedence { before, after, min_delay_ms } => {
            format!("{before}<{after}+{min_delay_ms}")
        }
        PlanConstraint::NoOverlap { activity_ids } => format!("no-overlap {}", activity_ids.join(",")),
    }
}

#[test]
fn test_build_model() {
    let (tasks, resources) = make_test_data();
    let builder = ScheduleCpBuilder::new(&tasks, &resources);
    let model = builder.build(100_000);

    // 3 intervals (T1_O1, T1_O2, T2_O1)
    assert_eq!(model.interval_count(), 3);
    // Constraints: 1 precedence (T1_O1→T1_O2) + 1 no-overlap (M1)
    assert!(model.constraint_count() >= 2);
}

#[test]
fn test_build_with_constraints() {
    let (tasks, resources) = make_test_data();
    let constraints = vec![Constraint::precedence("T1_O2", "T2_O1")];
    let builder = ScheduleCpBuilder::new(&tasks, &resources).with_constraints(constraints);
    let model = builder.build(100_000);

    // Additional precedence constraint
    assert!(model.constraint_count() >= 3);
}

#[test]
fn test_solve_basic() {
    let (tasks, resources) = make_test_data();
    let builder = ScheduleCpBuilder::new(&tasks, &resources);
    let solver = SimpleCpSolver::new();
    let config = SolverConfig::default();

    let solution = solver.solve(&builder.build(100_000), &config);
    let schedule = builder.decode_solution(&solution);
    assert!(solution.is_solution_found());
    assert!(schedule.assignment_count() > 0);
    assert!(schedule.makespan_ms() > 0);
}

#[test]
fn test_intra_task_precedence() {
    let (tasks, resources) = make_test_data();
    let builder = ScheduleCpBuilder::new(&tasks, &resources);
    let solver = SimpleCpSolver::new();
    let config = SolverConfig::default();

    let solution = solver.solve(&builder.build(100_000), &config);
    let schedule = builder.decode_solution(&solution);

    // T1_O1 must finish before T1_O2 starts
    if let (Some(o1), Some(o2)) =
        (schedule.assignment_for_activity("T1_O1"), schedule.assignment_for_activity("T1_O2"))
    {
        assert!(o1.end_ms <= o2.start_ms);
    }
}

#[test]
fn test_no_overlap() {
    let (tasks, resources) = make_test_data();
    let builder = ScheduleCpBuilder::new(&tasks, &resources);
    let solver = SimpleCpSolver::new();
    let config = SolverConfig::default();

    let solution = solver.solve(&builder.build(100_000), &config);
    let schedule = builder.decode_solution(&solution);

    // All activities on M1 should not overlap
    let m1_assignments = schedule.assignments_for_resource("M1");
    for i in 0..m1_assignments.len() {
        for j in (i + 1)..m1_assignments.len() {
            let a = m1_assignments[i];
            let b = m1_assignments[j];
            // No overlap: a ends before b starts OR b ends before a starts
            assert!(
                a.end_ms <= b.start_ms || b.end_ms <= a.start_ms,
                "Overlap detected: {} [{}, {}] and {} [{}, {}]",
                a.activity_id,
                a.start_ms,
                a.end_ms,
                b.activity_id,
                b.start_ms,
                b.end_ms,
            );
        }
    }
}

#[test]
fn model_has_the_shape_of_the_plan() {
    let (tasks, resources) = make_test_data();
    let builder = ScheduleCpBuilder::new(&tasks, &resources);
    let model = builder.build(100_000);
    assert_eq!(model.interval_count(), 3);
    assert_eq!(model.constraint_count(), 2);
    assert_eq!(model.horizon, 100_000);
    assert!(matches!(model.objective, Some(Objective::MinimizeMaxEnd)));
    let o2 = &model.intervals["T1_O2"];
    assert_eq!((o2.start.min, o2.start.max), (0, 98_000));
    assert_eq!((o2.end.min, o2.end.max), (2_000, 100_000));
    assert_eq!(o2.duration.fixed, Some(2_000));
    assert!(!o2.is_optional);
    match &model.constraints[0] {
        ModelConstraint::Precedence { before, after, min_delay } => {
            assert_eq!((before.as_str(), after.as_str(), *min_delay), ("T1_O1", "T1_O2", 0));
        }
        other => panic!("unexpected {other:?}"),
    }
    match &model.constraints[1] {
        ModelConstraint::NoOverlap { intervals } => {
            assert_eq!(intervals, &ids(&["T1_O1", "T1_O2", "T2_O1"]));
        }
        other => panic!("unexpected {other:?}"),
    }
}

#[test]
fn plan_lists_intervals_chains_overlaps_and_user_constraints() {
    let with = |id: &str, task: &str, ms: i64, cands: &[&str]| {
        Activity::new(id, task, 0)
            .with_process_time(ms)
            .with_requirement(ResourceRequirement::new("Machine").with_candidates(ids(cands)))
    };
    let mut t1 = Task::new("T1")
        .with_activity(with("a", "T1", 10, &["M2", "M1"]))
        .with_activity(with("b", "T1", 20, &["M1"]))
        .with_activity(with("c", "T1", 30, &[]));
    t1.release_time = Some(5);
    let t2 = Task::new("T2").with_activity(with("d", "T2", 40, &["M3", "M2"]));
    let t3 = Task::new("T3");
    let tasks = vec![t1, t2, t3];
    let constraints = vec![
        Constraint::capacity("M1", 2),
        Constraint::precedence_with_delay("b", "d", 7),
        Constraint::time_window("a", 0, 10),
        Constraint::no_overlap("M9", ids(&["a", "d"])),
        Constraint::synchronize(ids(&["a", "b"])),
        Constraint::precedence("a", "c"),
    ];
    let builder = ScheduleCpBuilder::new(&tasks, &[]).with_constraints(constraints);
    let plan = builder.plan(1000);
    assert_eq!(plan.horizon_ms, 1000);
    let bounds: Vec<(&str, i64, i64, i64, i64)> = plan
        .intervals
        .iter()
        .map(|i| (i.id.as_str(), i.start_min, i.start_max, i.duration, i.end_max))
        .collect();
    assert_eq!(
        bounds,
        vec![
            ("a", 5, 990, 10, 1000),
            ("b", 5, 980, 20, 1000),
            ("c", 5, 970, 30, 1000),
            ("d", 0, 960, 40, 1000),
        ]
    );
    let shapes: Vec<String> = plan.constraints.iter().map(shape).collect();
    assert_eq!(
        shapes,
        vec![
            "a<b+0",
            "b<c+0",
            // M2 is named first (by a), then M1, then M3; M3 has one activity only.
            "no-overlap a,d",
            "no-overlap a,b",
            "b<d+7",
            "no-overlap a,d",
            "a<c+0",
        ]
    );
}

#[test]
fn lowering_keeps_the_last_interval_of_a_name() {
    let interval = |id: &str, duration: i64| IntervalPlan {
        id: id.into(),
        start_min: 1,
        start_max: 50,
        duration,
        end_max: 60,
    };
    let plan = CpPlan {
        horizon_ms: 60,
        intervals: vec![interval("x", 3), interval("y", 4), interval("x", 5)],
        constraints: vec![PlanConstraint::NoOverlap { activity_ids: ids(&["x", "y"]) }],
    };
    let model = lower(&plan);
    assert_eq!(model.name, "scheduling");
    assert_eq!(model.interval_count(), 2);
    assert_eq!(model.intervals["x"].duration.fixed, Some(5));
    assert_eq!(model.intervals["x"].end.min, 6);
    assert_eq!(model.constraint_count(), 1);
    assert!(model.validate().is_ok());
}

#[test]
fn schedule_from_reported_intervals() {
    let (tasks, resources) = make_test_data();
    let builder = ScheduleCpBuilder::new(&tasks, &resources);
    let mut report: StringMap<(bool, i64, i64)> = StringMap::new();
    report.insert("T2_O1".into(), (true, 0, 1500));
    report.insert("T1_O1".into(), (true, 1500, 2500));
    report.insert("T1_O2".into(), (false, 2500, 4500));
    report.insert("other".into(), (true, 0, 1));
    let schedule = builder.schedule_from(true, &report);
    let got: Vec<(&str, &str, &str, i64, i64, i64)> = schedule
        .assignments
        .iter()
        .map(|a| {
            (
                a.activity_id.as_str(),
                a.task_id.as_str(),
                a.resource_id.as_str(),
                a.start_ms,
                a.end_ms,
                a.setup_ms,
            )
        })
        .collect();
    // Task order, not report order; the absent interval and the unknown name give nothing.
    assert_eq!(got, vec![("T1_O1", "T1", "M1", 1500, 2500, 0), ("T2_O1", "T2", "M1", 0, 1500, 0)]);
    assert_eq!(builder.schedule_from(false, &report).assignment_count(), 0);
    // An activity without candidates is assigned to the empty resource.
    let bare = vec![Task::new("T").with_activity(Activity::new("o", "T", 0).with_process_time(1))];
    let mut one: StringMap<(bool, i64, i64)> = StringMap::new();
    one.insert("o".into(), (true, 2, 3));
    let schedule = ScheduleCpBuilder::new(&bare, &[]).schedule_from(true, &one);
    assert_eq!(schedule.assignments[0].resource_id, "");
}

#[test]
fn unsolved_model_decodes_to_an_empty_schedule() {
    let (tasks, resources) = make_test_data();
    // The user constraint names an interval that does not exist: the solver rejects the model.
    let builder = ScheduleCpBuilder::new(&tasks, &resources)
        .with_constraints(vec![Constraint::precedence("T1_O1", "nowhere")]);
    let solution = SimpleCpSolver::new().solve(&builder.build(100_000), &SolverConfig::default());
    assert!(!solution.is_solution_found());
    assert_eq!(builder.decode_solution(&solution).assignment_count(), 0);
    // A solved model gives one assignment per activity, with the reported times.
    let builder = ScheduleCpBuilder::new(&tasks, &resources);
    let solution = SimpleCpSolver::new().solve(&builder.build(100_000), &SolverConfig::default());
    let schedule = builder.decode_solution(&solution);
    assert_eq!(schedule.assignment_count(), 3);
    for a in &schedule.assignments {
        let reported = &solution.intervals[&a.activity_id];
        assert_eq!((a.start_ms, a.end_ms), (reported.start, reported.end));
        assert_eq!(a.resource_id, "M1");
    }
}

#[test]
fn bounds_beyond_64_bits_are_refused() {
    let (tasks, resources) = make_test_data();
    let builder = ScheduleCpBuilder::new(&tasks, &resources);
    assert!(builder.can_build(100_000));
    assert!(builder.can_build(i64::MIN + 2000));
    assert!(!builder.can_build(i64::MIN + 1999));
    assert!(builder.try_build(i64::MIN + 1999).is_none());
    let model = builder.try_build(100_000).unwrap();
    assert_eq!(model.intervals.len(), 3);

    let mut late = tasks.clone();
    late[1].release_time = Some(i64::MAX - 1499);
    let builder = ScheduleCpBuilder::new(&late, &resources);
    assert!(!builder.can_build(100_000));
    assert!(builder.try_build(100_000).is_none());
    late[1].release_time = Some(i64::MAX - 1500);
    let builder = ScheduleCpBuilder::new(&late, &resources);
    assert!(builder.try_build(100_000).is_some());
}
