use u_schedule::models::{
    Activity, ActivityDuration, Assignment, Calendar, Constraint, Resource, ResourceRequirement,
    ResourceType, Schedule, Task, TimeWindow, TransitionMatrix, TransitionMatrixCollection,
    Violation, ViolationType,
};

#[test]
fn test_activity_builder() {
    let act = Activity::new("O1", "J1", 0)
        .with_duration(ActivityDuration::new(100, 500, 50))
        .with_requirement(ResourceRequirement::new("Machine").with_quantity(1))
        .with_predecessor("O0")
        .with_splitting(200);

    assert_eq!(act.id, "O1");
    assert_eq!(act.task_id, "J1");
    assert_eq!(act.sequence, 0);
    assert_eq!(act.duration.total_ms(), 650);
    assert_eq!(act.resource_requirements.len(), 1);
    assert_eq!(act.predecessors, vec!["O0"]);
    assert!(act.splittable);
    assert_eq!(act.min_split_ms, 200);
}

#[test]
fn test_activity_duration_fixed() {
    let d = ActivityDuration::fixed(1000);
    assert_eq!(d.setup_ms, 0);
    assert_eq!(d.process_ms, 1000);
    assert_eq!(d.teardown_ms, 0);
    assert_eq!(d.total_ms(), 1000);
}

#[test]
fn test_activity_duration_components() {
    let d = ActivityDuration::new(100, 500, 50);
    assert_eq!(d.total_ms(), 650);
}

#[test]
fn test_resource_requirement() {
    let req = ResourceRequirement::new("CNC")
        .with_quantity(2)
        .with_candidates(vec!["M1".into(), "M2".into(), "M3".into()])
        .with_skill("milling");

    assert_eq!(req.resource_type, "CNC");
    assert_eq!(req.quantity, 2);
    assert_eq!(req.candidates.len(), 3);
    assert_eq!(req.required_skills, vec!["milling"]);
}

#[test]
fn test_candidate_resources() {
    let act = Activity::new("O1", "J1", 0)
        .with_requirement(
            ResourceRequirement::new("Machine").with_candidates(vec!["M1".into(), "M2".into()]),
        )
        .with_requirement(ResourceRequirement::new("Operator").with_candidates(vec!["W1".into()]));

    let candidates = act.candidate_resources();
    assert_eq!(candidates.len(), 3);
    assert!(candidates.contains(&"M1"));
    assert!(candidates.contains(&"W1"));
}

#[test]
fn candidate_resources_keep_requirement_order() {
    let act = Activity::new("O1", "J1", 0)
        .with_requirement(
            ResourceRequirement::new("Machine").with_candidates(vec!["M2".into(), "M1".into()]),
        )
        .with_requirement(ResourceRequirement::new("Operator"))
        .with_requirement(ResourceRequirement::new("Tool").with_candidates(vec!["M2".into()]));
    assert_eq!(act.candidate_resources(), vec!["M2", "M1", "M2"]);
    assert!(Activity::new("O2", "J1", 1).candidate_resources().is_empty());
}

#[test]
fn default_duration_is_zero() {
    let d = ActivityDuration::default();
    assert_eq!((d.setup_ms, d.process_ms, d.teardown_ms), (0, 0, 0));
    let act = Activity::new("O1", "J1", 3).with_process_time(70);
    assert_eq!(act.duration.total_ms(), 70);
    assert_eq!(act.sequence, 3);
}

#[test]
fn test_task_builder() {
    let task = Task::new("J1")
        .with_name("Job 1")
        .with_category("TypeA")
        .with_priority(10)
        .with_deadline(100_000)
        .with_release_time(0)
        .with_attribute("customer", "ACME");

    assert_eq!(task.id, "J1");
    assert_eq!(task.name, "Job 1");
    assert_eq!(task.category, "TypeA");
    assert_eq!(task.priority, 10);
    assert_eq!(task.deadline, Some(100_000));
    assert_eq!(task.release_time, Some(0));
    assert_eq!(task.attributes.get("customer"), Some(&"ACME".to_string()));
}

#[test]
fn test_task_total_duration() {
    let task = Task::new("J1")
        .with_activity(Activity::new("O1", "J1", 0).with_duration(ActivityDuration::fixed(1000)))
        .with_activity(Activity::new("O2", "J1", 1).with_duration(ActivityDuration::fixed(2000)));

    assert_eq!(task.total_duration_ms(), 3000);
    assert_eq!(task.activity_count(), 2);
    assert!(task.has_activities());
}

#[test]
fn test_task_empty() {
    let task = Task::new("empty");
    assert_eq!(task.total_duration_ms(), 0);
    assert!(!task.has_activities());
}

#[test]
fn task_attribute_is_replaced_not_duplicated() {
    let task = Task::new("J1").with_attribute("k", "a").with_attribute("k", "b").with_attribute("z", "c");
    assert_eq!(task.attributes.len(), 2);
    assert_eq!(task.attributes.get("k"), Some(&"b".to_string()));
    assert_eq!(task.attributes.get("missing"), None);
    assert!(task.attributes.contains_key("z"));
    assert!(!task.attributes.is_empty());
}

#[test]
fn task_total_duration_counts_setup_and_teardown() {
    let task = Task::new("J1")
        .with_activity(Activity::new("O1", "J1", 0).with_duration(ActivityDuration::new(1, 20, 300)))
        .with_activity(Activity::new("O2", "J1", 1).with_duration(ActivityDuration::new(-5, 10, 0)));
    assert_eq!(task.total_duration_ms(), 326);
}

#[test]
fn test_time_window() {
    let w = TimeWindow::new(100, 200);
    assert_eq!(w.duration_ms(), 100);
    assert!(w.contains(100));
    assert!(w.contains(199));
    assert!(!w.contains(200)); // exclusive end
    assert!(!w.contains(50));
}

#[test]
fn test_time_window_overlap() {
    let a = TimeWindow::new(0, 100);
    let b = TimeWindow::new(50, 150);
    assert!(a.overlaps(&b));
    assert!(b.overlaps(&a));

    let c = TimeWindow::new(100, 200); // touching but not overlapping
    assert!(!a.overlaps(&c));
}

#[test]
fn test_calendar_always_available() {
    let cal = Calendar::always_available("cal1");
    assert!(cal.is_working_time(0));
    assert!(cal.is_working_time(1_000_000));
}

#[test]
fn test_calendar_with_windows() {
    let cal = Calendar::new("shifts")
        .with_window(0, 8_000) // 0-8s: day shift
        .with_window(16_000, 24_000); // 16-24s: night shift

    assert!(cal.is_working_time(4_000)); // During day shift
    assert!(!cal.is_working_time(10_000)); // Between shifts
    assert!(cal.is_working_time(20_000)); // During night shift
}

#[test]
fn test_calendar_blocked_overrides() {
    let cal = Calendar::new("cal").with_window(0, 100_000).with_blocked(50_000, 60_000); // Maintenance window

    assert!(cal.is_working_time(40_000)); // Before maintenance
    assert!(!cal.is_working_time(55_000)); // During maintenance
    assert!(cal.is_working_time(70_000)); // After maintenance
}

#[test]
fn test_next_available_time() {
    let cal = Calendar::new("shifts").with_window(0, 8_000).with_window(16_000, 24_000);

    assert_eq!(cal.next_available_time(4_000), Some(4_000)); // Already available
    assert_eq!(cal.next_available_time(10_000), Some(16_000)); // Wait for next shift
}

#[test]
fn test_next_available_blocked() {
    let cal = Calendar::always_available("cal").with_blocked(50_000, 60_000);

    assert_eq!(cal.next_available_time(40_000), Some(40_000));
    assert_eq!(cal.next_available_time(55_000), Some(60_000));
}

#[test]
fn next_available_takes_the_earliest_window_whatever_the_order() {
    let cal = Calendar::new("shifts").with_window(30_000, 40_000).with_window(16_000, 24_000);
    assert_eq!(cal.next_available_time(10_000), Some(16_000));
    assert_eq!(cal.next_available_time(25_000), Some(30_000));
    assert_eq!(cal.next_available_time(40_000), None);
}

#[test]
fn next_available_steps_over_a_blocked_window_start() {
    let cal = Calendar::new("cal").with_window(100, 200).with_blocked(90, 120);
    assert_eq!(cal.next_available_time(0), Some(120));
    // Two stacked blocked periods: the answer lies after both.
    let stacked = Calendar::new("cal").with_window(0, 100).with_blocked(10, 20).with_blocked(15, 30);
    assert_eq!(stacked.next_available_time(12), Some(30));
    assert_eq!(stacked.next_available_time(16), Some(30));
    assert_eq!(stacked.next_available_time(5), Some(5));
    assert_eq!(stacked.next_available_time(100), None);
}

#[test]
fn next_available_is_the_first_working_time() {
    // A blocked stretch inside a window: the window goes on after it.
    let cal = Calendar::new("cal")
        .with_window(0, 100)
        .with_blocked(5, 10)
        .with_blocked(10, 12)
        .with_window(200, 300);
    assert_eq!(cal.next_available_time(5), Some(12));
    assert_eq!(cal.next_available_time(11), Some(12));
    assert_eq!(cal.next_available_time(100), Some(200));
    assert_eq!(cal.next_available_time(300), None);
    // A window that is blocked to its end: the next window is taken.
    let cal = Calendar::new("cal").with_window(0, 100).with_blocked(50, 100).with_window(150, 160);
    assert_eq!(cal.next_available_time(60), Some(150));
    // A blocked period that reaches beyond every window leaves nothing.
    let cal = Calendar::new("cal").with_window(0, 100).with_blocked(50, 500);
    assert_eq!(cal.next_available_time(60), None);
    assert_eq!(cal.next_available_time(49), Some(49));
    // Blocked to the end of time.
    let cal = Calendar::always_available("cal").with_blocked(0, i64::MAX);
    assert_eq!(cal.next_available_time(5), Some(i64::MAX));
    assert_eq!(cal.next_available_time(i64::MIN), Some(i64::MIN));
    let cal = Calendar::new("cal").with_window(0, i64::MAX).with_blocked(0, i64::MAX);
    assert_eq!(cal.next_available_time(5), None);
    // Every answer is working time, and nothing before it is.
    let cal = Calendar::new("cal")
        .with_window(10, 20)
        .with_window(15, 40)
        .with_blocked(18, 25)
        .with_blocked(0, 12)
        .with_blocked(24, 30)
        .with_window(60, 70);
    for from in -5..80 {
        let first = (from..80).find(|&t| cal.is_working_time(t));
        assert_eq!(cal.next_available_time(from), first, "from {from}");
    }
}

#[test]
fn next_available_without_windows_follows_blocked_periods() {
    let cal = Calendar::always_available("cal").with_blocked(0, 10).with_blocked(10, 20);
    assert_eq!(cal.next_available_time(5), Some(20));
    assert_eq!(cal.next_available_time(15), Some(20));
}

#[test]
fn test_available_time_in_range() {
    let cal = Calendar::new("cal").with_window(0, 100_000).with_blocked(40_000, 60_000); // 20s blocked

    let avail = cal.available_time_in_range(0, 100_000);
    assert_eq!(avail, 80_000); // 100k - 20k blocked

    let avail2 = cal.available_time_in_range(50_000, 70_000);
    assert_eq!(avail2, 10_000); // 60k-70k (50k-60k blocked)
}

#[test]
fn test_available_time_no_windows() {
    let cal = Calendar::always_available("cal").with_blocked(20_000, 30_000);

    let avail = cal.available_time_in_range(0, 50_000);
    assert_eq!(avail, 40_000); // 50k - 10k blocked
}

#[test]
fn available_time_edge_cases() {
    let cal = Calendar::new("cal").with_window(0, 10).with_blocked(0, 10).with_blocked(0, 10);
    assert_eq!(cal.available_time_in_range(0, 10), 0); // never negative with windows
    assert_eq!(cal.available_time_in_range(10, 10), 0); // empty range
    assert_eq!(cal.available_time_in_range(20, 5), 0); // reversed range
    let open = Calendar::always_available("cal").with_blocked(0, 10).with_blocked(0, 10);
    assert_eq!(open.available_time_in_range(0, 10), -10); // blocked periods count once each
}

#[test]
fn test_precedence_constraint() {
    let c = Constraint::precedence("O1", "O2");
    match c {
        Constraint::Precedence { before, after, min_delay_ms } => {
            assert_eq!(before, "O1");
            assert_eq!(after, "O2");
            assert_eq!(min_delay_ms, 0);
        }
        _ => panic!("wrong variant"),
    }
}

#[test]
fn test_precedence_with_delay() {
    let c = Constraint::precedence_with_delay("O1", "O2", 5000);
    match c {
        Constraint::Precedence { min_delay_ms, .. } => {
            assert_eq!(min_delay_ms, 5000);
        }
        _ => panic!("wrong variant"),
    }
}

#[test]
fn test_capacity_constraint() {
    let c = Constraint::capacity("M1", 2);
    match c {
        Constraint::Capacity { resource_id, max_capacity } => {
            assert_eq!(resource_id, "M1");
            assert_eq!(max_capacity, 2);
        }
        _ => panic!("wrong variant"),
    }
}

#[test]
fn time_window_constraint_keeps_its_bounds() {
    match Constraint::time_window("O1", 10, 20) {
        Constraint::TimeWindow { activity_id, start_ms, end_ms } => {
            assert_eq!(activity_id, "O1");
            assert_eq!((start_ms, end_ms), (10, 20));
        }
        _ => panic!("wrong variant"),
    }
}

#[test]
fn test_transition_matrix() {
    let mut tm = TransitionMatrix::new("changeover", "M1").with_default(500);

    tm.set_transition("TypeA", "TypeB", 1000);
    tm.set_transition("TypeB", "TypeA", 800);
    tm.set_transition("TypeA", "TypeA", 100); // Same-type changeover

    assert_eq!(tm.get_transition("TypeA", "TypeB"), 1000);
    assert_eq!(tm.get_transition("TypeB", "TypeA"), 800);
    assert_eq!(tm.get_transition("TypeA", "TypeA"), 100); // Explicitly set
    assert_eq!(tm.get_transition("TypeB", "TypeB"), 0); // Same-type default
    assert_eq!(tm.get_transition("TypeC", "TypeD"), 500); // Falls to default
    assert_eq!(tm.transition_count(), 3);
}

#[test]
fn test_transition_matrix_same_category_default() {
    let tm = TransitionMatrix::new("tm", "M1").with_default(200);
    // Same category → 0 (not default) unless explicitly set
    assert_eq!(tm.get_transition("X", "X"), 0);
    // Different category → default
    assert_eq!(tm.get_transition("X", "Y"), 200);
}

#[test]
fn transition_set_twice_keeps_the_last_value() {
    let mut tm = TransitionMatrix::new("tm", "M1");
    tm.set_transition("A", "B", 1);
    tm.set_transition("A", "B", 2);
    assert_eq!(tm.get_transition("A", "B"), 2);
    assert_eq!(tm.get_transition("B", "A"), 0);
    assert_eq!(tm.transition_count(), 1);
    let copy = tm.clone();
    assert_eq!(copy.get_transition("A", "B"), 2);
}

#[test]
fn transition_collection_lookup() {
    let mut m1 = TransitionMatrix::new("tm", "M1").with_default(7);
    m1.set_transition("A", "B", 11);
    let mut all = TransitionMatrixCollection::new();
    assert!(all.is_empty());
    all.add(m1);
    let all = all.with_matrix(TransitionMatrix::new("tm2", "M2").with_default(3));
    assert_eq!(all.len(), 2);
    assert_eq!(all.get_transition_time("M1", "A", "B"), 11);
    assert_eq!(all.get_transition_time("M1", "B", "A"), 7);
    assert_eq!(all.get_transition_time("M2", "A", "B"), 3);
    assert_eq!(all.get_transition_time("M2", "A", "A"), 0);
    assert_eq!(all.get_transition_time("M9", "A", "B"), 0); // no matrix for the resource
    // A second matrix for the same resource replaces the first.
    let all = all.with_matrix(TransitionMatrix::new("tm3", "M1").with_default(99));
    assert_eq!(all.len(), 2);
    assert_eq!(all.get_transition_time("M1", "A", "B"), 99);
}

#[test]
fn test_no_overlap_constraint() {
    let c = Constraint::no_overlap("M1", vec!["O1".into(), "O2".into(), "O3".into()]);
    match c {
        Constraint::NoOverlap { resource_id, activity_ids } => {
            assert_eq!(resource_id, "M1");
            assert_eq!(activity_ids.len(), 3);
        }
        _ => panic!("wrong variant"),
    }
}

#[test]
fn test_synchronize_constraint() {
    let c = Constraint::synchronize(vec!["O1".into(), "O2".into()]);
    match c {
        Constraint::Synchronize { activity_ids } => {
            assert_eq!(activity_ids.len(), 2);
        }
        _ => panic!("wrong variant"),
    }
}

fn sample_schedule() -> Schedule {
    let mut s = Schedule::new();
    s.add_assignment(Assignment::new("O1", "J1", "M1", 0, 5000).with_setup(500));
    s.add_assignment(Assignment::new("O2", "J1", "M2", 1000, 4000));
    s.add_assignment(Assignment::new("O3", "J2", "M1", 5000, 8000));
    s
}

#[test]
fn test_schedule_makespan() {
    let s = sample_schedule();
    assert_eq!(s.makespan_ms(), 8000);
}

#[test]
fn test_schedule_is_valid() {
    let s = sample_schedule();
    assert!(s.is_valid());

    let mut s2 = sample_schedule();
    s2.add_violation(Violation::deadline_miss("J1", "Late by 1000ms"));
    assert!(!s2.is_valid());
}

#[test]
fn test_assignment_duration() {
    let a = Assignment::new("O1", "J1", "M1", 0, 5000).with_setup(500);
    assert_eq!(a.duration_ms(), 5000);
    assert_eq!(a.process_ms(), 4500);
    assert_eq!(a.setup_ms, 500);
}

#[test]
fn test_assignment_for_activity() {
    let s = sample_schedule();
    let a = s.assignment_for_activity("O1").unwrap();
    assert_eq!(a.resource_id, "M1");
    assert!(s.assignment_for_activity("O99").is_none());
}

#[test]
fn test_assignments_for_task() {
    let s = sample_schedule();
    let j1 = s.assignments_for_task("J1");
    assert_eq!(j1.len(), 2);
    let j2 = s.assignments_for_task("J2");
    assert_eq!(j2.len(), 1);
}

#[test]
fn test_assignments_for_resource() {
    let s = sample_schedule();
    let m1 = s.assignments_for_resource("M1");
    assert_eq!(m1.len(), 2); // O1 and O3
}

#[test]
fn assignments_for_resource_keep_schedule_order() {
    let s = sample_schedule();
    let m1 = s.assignments_for_resource("M1");
    assert_eq!(m1[0].activity_id, "O1");
    assert_eq!(m1[1].activity_id, "O3");
    assert!(s.assignments_for_resource("M7").is_empty());
    assert_eq!(s.resource_busy_ms("M1"), 8000);
    assert_eq!(s.resource_busy_ms("M2"), 3000);
    assert_eq!(s.resource_busy_ms("M7"), 0);
}

#[test]
fn test_task_completion_time() {
    let s = sample_schedule();
    assert_eq!(s.task_completion_time("J1"), Some(5000)); // max(5000, 4000)
    assert_eq!(s.task_completion_time("J2"), Some(8000));
    assert_eq!(s.task_completion_time("J99"), None);
}

#[test]
fn makespan_of_negative_times_is_their_maximum() {
    let mut s = Schedule::new();
    s.add_assignment(Assignment::new("O1", "J1", "M1", -50, -10));
    s.add_assignment(Assignment::new("O2", "J1", "M1", -90, -60));
    assert_eq!(s.makespan_ms(), -10);
    assert_eq!(s.task_completion_time("J1"), Some(-10));
}

#[test]
fn test_empty_schedule() {
    let s = Schedule::new();
    assert_eq!(s.makespan_ms(), 0);
    assert!(s.is_valid());
    assert_eq!(s.assignment_count(), 0);
}

#[test]
fn test_violation_factories() {
    let v1 = Violation::deadline_miss("J1", "Late");
    assert_eq!(v1.violation_type, ViolationType::DeadlineMiss);
    assert_eq!(v1.entity_id, "J1");

    let v2 = Violation::capacity_exceeded("M1", "Over capacity");
    assert_eq!(v2.violation_type, ViolationType::CapacityExceeded);

    let v3 = Violation::precedence_violation("O2", "Started before O1");
    assert_eq!(v3.violation_type, ViolationType::PrecedenceViolation);
}

#[test]
fn violation_severities() {
    assert_eq!(Violation::deadline_miss("J1", "m").severity, 80);
    assert_eq!(Violation::capacity_exceeded("M1", "m").severity, 90);
    let v = Violation::precedence_violation("O2", "text");
    assert_eq!(v.severity, 95);
    assert_eq!(v.message, "text");
}

#[test]
fn test_resource_builder() {
    let r = Resource::primary("M1")
        .with_name("CNC Machine 1")
        .with_capacity(1)
        .with_skill("milling")
        .with_skill("drilling")
        .with_attribute("location", "Shop Floor A");

    assert_eq!(r.id, "M1");
    assert_eq!(r.name, "CNC Machine 1");
    assert_eq!(r.resource_type, ResourceType::Primary);
    assert_eq!(r.capacity, 1);
    assert!(r.has_skill("milling"));
    assert!(!r.has_skill("welding"));
    assert_eq!(r.attributes.get("location"), Some(&"Shop Floor A".to_string()));
}

#[test]
fn test_resource_types() {
    let m = Resource::primary("M1");
    assert_eq!(m.resource_type, ResourceType::Primary);

    let w = Resource::human("W1");
    assert_eq!(w.resource_type, ResourceType::Human);

    let t = Resource::secondary("T1");
    assert_eq!(t.resource_type, ResourceType::Secondary);
}

#[test]
fn test_resource_availability_no_calendar() {
    let r = Resource::primary("M1");
    assert!(r.is_available_at(0));
    assert!(r.is_available_at(1_000_000));
}

#[test]
fn resource_with_calendar_follows_it() {
    let r = Resource::new("W1", ResourceType::Custom("crane".into()))
        .with_calendar(Calendar::new("shift").with_window(0, 100).with_blocked(40, 50));
    assert!(r.is_available_at(10));
    assert!(!r.is_available_at(45));
    assert!(!r.is_available_at(100));
    let copy = r.clone();
    assert_eq!(copy.id, "W1");
    assert_eq!(copy.resource_type, ResourceType::Custom("crane".into()));
    assert!(!copy.is_available_at(45));
}

#[test]
fn total_duration_beyond_64_bits_is_refused() {
    let long = |ms: i64| Activity::new("O", "J", 0).with_process_time(ms);
    let task = Task::new("J").with_activity(long(i64::MAX)).with_activity(long(1));
    assert_eq!(task.checked_total_duration_ms(), None);
    let task = Task::new("J").with_activity(long(i64::MAX)).with_activity(long(1)).with_activity(long(-1));
    assert_eq!(task.checked_total_duration_ms(), Some(i64::MAX));
    assert_eq!(task.total_duration_ms(), i64::MAX);
    let wide = Activity::new("O", "J", 0).with_duration(ActivityDuration::new(i64::MAX, 1, 0));
    assert_eq!(Task::new("J").with_activity(wide).with_activity(long(-5)).checked_total_duration_ms(), None);
    assert_eq!(Task::new("J").checked_total_duration_ms(), Some(0));
}

#[test]
fn a_cloned_resource_holds_the_same() {
    let resource = Resource::new("R1", ResourceType::Custom("Robot".into()))
        .with_name("Arm")
        .with_capacity(3)
        .with_calendar(Calendar::new("cal").with_window(0, 100).with_blocked(10, 20))
        .with_skill("weld")
        .with_attribute("site", "north")
        .with_attribute("line", "2")
        .with_attribute("site", "south");
    let copy = resource.clone();
    assert_eq!(copy.id, "R1");
    assert_eq!(copy.name, "Arm");
    assert_eq!(copy.resource_type, ResourceType::Custom("Robot".into()));
    assert_eq!(copy.capacity, 3);
    let cal = copy.calendar.as_ref().unwrap();
    assert_eq!(cal.id, "cal");
    assert_eq!(cal.time_windows, vec![TimeWindow::new(0, 100)]);
    assert_eq!(cal.blocked_periods, vec![TimeWindow::new(10, 20)]);
    assert_eq!(copy.skills, vec!["weld".to_string()]);
    assert_eq!(copy.attributes.len(), 2);
    assert_eq!(copy.attributes.key_at(0), "site");
    assert_eq!(copy.attributes.get("site"), Some(&"south".to_string()));
    assert_eq!(copy.attributes.get("line"), Some(&"2".to_string()));
    assert!(copy.is_available_at(5) && !copy.is_available_at(15));
    assert!(Resource::primary("M1").clone().calendar.is_none());
}

#[test]
fn sizes_of_transition_tables() {
    let mut matrix = TransitionMatrix::new("m", "M1");
    assert_eq!(matrix.transition_count(), 0);
    matrix.set_transition("A", "B", 5);
    matrix.set_transition("A", "B", 7);
    matrix.set_transition("B", "A", 1);
    assert_eq!(matrix.transition_count(), 2);
    let empty = TransitionMatrixCollection::new();
    assert!(empty.is_empty());
    assert_eq!(empty.len(), 0);
    let one = empty.with_matrix(matrix.clone()).with_matrix(matrix);
    assert!(!one.is_empty());
    assert_eq!(one.len(), 1);
}
