use u_schedule::models::{
    Activity, ActivityDuration, Assignment, Ratio, Resource, ResourceRequirement, Schedule, Task,
};
use u_schedule::scheduler::{ScheduleKpi, SimpleScheduler};

fn make_task(id: &str, duration_ms: i64, deadline: Option<i64>, release: Option<i64>) -> Task {
    let mut task = Task::new(id).with_activity(
        Activity::new(&format!("{id}_O1"), id, 0)
            .with_duration(ActivityDuration::fixed(duration_ms))
            .with_requirement(ResourceRequirement::new("Machine").with_candidates(vec!["M1".into()])),
    );
    task.deadline = deadline;
    task.release_time = release;
    task
}

fn value(r: Ratio) -> f64 {
    r.numerator as f64 / r.denominator as f64
}

#[test]
fn test_kpi_basic() {
    let tasks = vec![make_task("J1", 1000, Some(5000), Some(0)), make_task("J2", 2000, Some(5000), Some(0))];
    let mut schedule = Schedule::new();
    schedule.add_assignment(Assignment::new("J1_O1", "J1", "M1", 0, 1000));
    schedule.add_assignment(Assignment::new("J2_O1", "J2", "M1", 1000, 3000));

    let kpi = ScheduleKpi::calculate(&schedule, &tasks);
    assert_eq!(kpi.makespan_ms, 3000);
    assert_eq!(kpi.total_tardiness_ms, 0);
    assert_eq!(kpi.max_tardiness_ms, 0);
    assert!((value(kpi.on_time_rate) - 1.0).abs() < 1e-10);
    assert!((value(kpi.avg_flow_time_ms) - 2000.0).abs() < 1e-10); // (1000+3000)/2
    assert_eq!(kpi.on_time_rate, Ratio { numerator: 2, denominator: 2 });
    assert_eq!(kpi.avg_flow_time_ms, Ratio { numerator: 4000, denominator: 2 });
}

#[test]
fn test_kpi_tardiness() {
    let tasks = vec![
        make_task("J1", 1000, Some(500), Some(0)), // Deadline 500, completes at 1000 → tardy 500
        make_task("J2", 1000, Some(5000), Some(0)), // On time
    ];
    let mut schedule = Schedule::new();
    schedule.add_assignment(Assignment::new("J1_O1", "J1", "M1", 0, 1000));
    schedule.add_assignment(Assignment::new("J2_O1", "J2", "M1", 1000, 2000));

    let kpi = ScheduleKpi::calculate(&schedule, &tasks);
    assert_eq!(kpi.total_tardiness_ms, 500);
    assert_eq!(kpi.max_tardiness_ms, 500);
    assert!((value(kpi.on_time_rate) - 0.5).abs() < 1e-10);
}

#[test]
fn test_kpi_utilization() {
    let tasks = vec![make_task("J1", 2000, None, None), make_task("J2", 1000, None, None)];
    let mut schedule = Schedule::new();
    schedule.add_assignment(Assignment::new("J1_O1", "J1", "M1", 0, 2000));
    schedule.add_assignment(Assignment::new("J2_O1", "J2", "M2", 0, 1000));

    let kpi = ScheduleKpi::calculate(&schedule, &tasks);
    assert_eq!(kpi.makespan_ms, 2000);
    // M1: 2000/2000 = 1.0, M2: 1000/2000 = 0.5
    assert!((value(kpi.utilization_of("M1").unwrap()) - 1.0).abs() < 1e-10);
    assert!((value(kpi.utilization_of("M2").unwrap()) - 0.5).abs() < 1e-10);
    assert!((value(kpi.avg_utilization) - 0.75).abs() < 1e-10);
    assert_eq!(kpi.avg_utilization, Ratio { numerator: 3000, denominator: 4000 });
    assert!(kpi.utilization_of("M3").is_none());
}

#[test]
fn test_kpi_flow_time() {
    let tasks = vec![
        make_task("J1", 1000, None, Some(1000)), // Released at 1000, completes at 3000 → flow 2000
        make_task("J2", 1000, None, Some(0)),    // Released at 0, completes at 1000 → flow 1000
    ];
    let mut schedule = Schedule::new();
    schedule.add_assignment(Assignment::new("J1_O1", "J1", "M1", 2000, 3000));
    schedule.add_assignment(Assignment::new("J2_O1", "J2", "M1", 0, 1000));

    let kpi = ScheduleKpi::calculate(&schedule, &tasks);
    // avg = (2000 + 1000) / 2 = 1500
    assert!((value(kpi.avg_flow_time_ms) - 1500.0).abs() < 1e-10);
}

#[test]
fn test_kpi_empty() {
    let kpi = ScheduleKpi::calculate(&Schedule::new(), &[]);
    assert_eq!(kpi.makespan_ms, 0);
    assert_eq!(kpi.total_tardiness_ms, 0);
    assert!((value(kpi.on_time_rate) - 1.0).abs() < 1e-10);
    assert!((value(kpi.avg_utilization) - 0.0).abs() < 1e-10);
    assert_eq!(kpi.avg_flow_time_ms, Ratio { numerator: 0, denominator: 1 });
    assert!(kpi.busy_by_resource.is_empty());
}

#[test]
fn test_kpi_no_deadline_on_time() {
    let tasks = vec![make_task("J1", 1000, None, None)];
    let mut schedule = Schedule::new();
    schedule.add_assignment(Assignment::new("J1_O1", "J1", "M1", 0, 1000));

    let kpi = ScheduleKpi::calculate(&schedule, &tasks);
    assert!((value(kpi.on_time_rate) - 1.0).abs() < 1e-10);
}

#[test]
fn kpi_counts_only_tasks_with_assignments() {
    let tasks = vec![
        make_task("J1", 10, Some(5), None),   // done at 30: 25 late
        make_task("J2", 10, Some(100), None), // no assignment: not counted
        make_task("J3", 10, Some(10), Some(4)), // done at 10: on time, flow 6
        make_task("J4", 10, Some(0), None),   // done at 40: 40 late
    ];
    let mut schedule = Schedule::new();
    schedule.add_assignment(Assignment::new("a", "J1", "M1", 0, 20));
    schedule.add_assignment(Assignment::new("b", "J1", "M2", 20, 30));
    schedule.add_assignment(Assignment::new("c", "J3", "M2", 0, 10));
    schedule.add_assignment(Assignment::new("d", "J4", "M1", 20, 40));
    let kpi = ScheduleKpi::calculate(&schedule, &tasks);
    assert_eq!(kpi.makespan_ms, 40);
    assert_eq!(kpi.total_tardiness_ms, 65);
    assert_eq!(kpi.max_tardiness_ms, 40);
    assert_eq!(kpi.on_time_rate, Ratio { numerator: 1, denominator: 3 });
    assert_eq!(kpi.avg_flow_time_ms, Ratio { numerator: 30 + 6 + 40, denominator: 3 });
    assert_eq!(kpi.utilization_of("M1"), Some(Ratio { numerator: 40, denominator: 40 }));
    assert_eq!(kpi.utilization_of("M2"), Some(Ratio { numerator: 20, denominator: 40 }));
    assert_eq!(kpi.avg_utilization, Ratio { numerator: 60, denominator: 80 });
}

fn sample_schedule() -> Schedule {
    let mut s = Schedule::new();
    s.add_assignment(Assignment::new("O1", "J1", "M1", 0, 5000).with_setup(500));
    s.add_assignment(Assignment::new("O2", "J1", "M2", 1000, 4000));
    s.add_assignment(Assignment::new("O3", "J2", "M1", 5000, 8000));
    s
}

#[test]
fn test_resource_utilization() {
    let s = sample_schedule();
    // M1: busy 5000 + 3000 = 8000 over horizon 8000 → 1.0
    let util = value(s.resource_utilization("M1", 8000).unwrap());
    assert!((util - 1.0).abs() < 1e-10);

    // M2: busy 3000 over horizon 8000 → 0.375
    let util2 = value(s.resource_utilization("M2", 8000).unwrap());
    assert!((util2 - 0.375).abs() < 1e-10);
}

#[test]
fn test_all_utilizations() {
    let s = sample_schedule();
    let busy = s.busy_by_resource();
    let horizon = s.makespan_ms() as f64;
    assert!((*busy.get("M1").unwrap() as f64 / horizon - 1.0).abs() < 1e-10);
    assert!((*busy.get("M2").unwrap() as f64 / horizon - 0.375).abs() < 1e-10);
}

#[test]
fn utilization_is_exact_and_needs_a_positive_horizon() {
    let s = sample_schedule();
    assert_eq!(s.resource_utilization("M1", 8000), Some(Ratio { numerator: 8000, denominator: 8000 }));
    assert_eq!(s.resource_utilization("M9", 10), Some(Ratio { numerator: 0, denominator: 10 }));
    assert_eq!(s.resource_utilization("M1", 0), None);
    assert_eq!(s.resource_utilization("M1", -5), None);
    let busy = s.busy_by_resource();
    assert_eq!(busy.len(), 2);
    assert_eq!(busy.get("M1"), Some(&8000));
    assert_eq!(busy.get("M2"), Some(&3000));
    // No positive makespan, no utilization.
    let mut early = Schedule::new();
    early.add_assignment(Assignment::new("O1", "J1", "M1", -10, 0));
    assert!(early.busy_by_resource().is_empty());
}

fn on_machine(id: &str, duration_ms: i64, machine: &str, priority: i32) -> Task {
    Task::new(id).with_priority(priority).with_activity(
        Activity::new(&format!("{id}_O1"), id, 0)
            .with_duration(ActivityDuration::fixed(duration_ms))
            .with_requirement(ResourceRequirement::new("Machine").with_candidates(vec![machine.into()])),
    )
}

#[test]
fn single_machine_schedule_is_fully_utilized() {
    let tasks = vec![on_machine("T1", 1000, "M1", 1), on_machine("T2", 1000, "M1", 10)];
    let schedule = SimpleScheduler::new().schedule(&tasks, &[Resource::primary("M1")], 0);
    let order: Vec<(&str, i64, i64)> =
        schedule.assignments.iter().map(|a| (a.task_id.as_str(), a.start_ms, a.end_ms)).collect();
    assert_eq!(order, vec![("T2", 0, 1000), ("T1", 1000, 2000)]);
    let kpi = ScheduleKpi::calculate(&schedule, &tasks);
    assert_eq!(kpi.makespan_ms, 2000);
    assert_eq!(value(kpi.on_time_rate), 1.0);
    assert_eq!(value(kpi.utilization_of("M1").unwrap()), 1.0);
}

#[test]
fn parallel_machines_share_the_work() {
    let tasks = vec![on_machine("T1", 2000, "M1", 0), on_machine("T2", 1000, "M2", 0)];
    let resources = vec![Resource::primary("M1"), Resource::primary("M2")];
    let schedule = SimpleScheduler::new().schedule(&tasks, &resources, 0);
    assert!(schedule.assignments.iter().all(|a| a.start_ms == 0));
    let kpi = ScheduleKpi::calculate(&schedule, &tasks);
    assert_eq!(kpi.makespan_ms, 2000);
    assert_eq!(value(kpi.avg_utilization), 0.75);
    assert_eq!(value(kpi.utilization_of("M2").unwrap()), 0.5);
    // Every utilization lies between 0 and 1.
    for id in ["M1", "M2"] {
        let u = kpi.utilization_of(id).unwrap();
        assert!(0 <= u.numerator && u.numerator <= u.denominator);
    }
    assert!(kpi.on_time_rate.numerator <= kpi.on_time_rate.denominator);
}

#[test]
fn sums_beyond_64_bits_are_refused() {
    let mut schedule = Schedule::new();
    schedule.add_assignment(Assignment::new("A", "J1", "M1", i64::MIN, i64::MAX));
    assert_eq!(schedule.try_resource_busy_ms("M1"), None);
    assert_eq!(schedule.try_resource_busy_ms("M2"), Some(0));
    assert!(schedule.try_busy_by_resource().is_none());
    assert!(ScheduleKpi::try_calculate(&schedule, &[]).is_none());

    // Without a positive makespan no busy time is added up.
    let mut early = Schedule::new();
    early.add_assignment(Assignment::new("A", "J1", "M1", i64::MIN, 0));
    assert_eq!(early.try_resource_busy_ms("M1"), None);
    assert!(early.try_busy_by_resource().unwrap().is_empty());
    let kpi = ScheduleKpi::try_calculate(&early, &[]).unwrap();
    assert_eq!(kpi.makespan_ms, 0);
    assert_eq!(kpi.avg_utilization, Ratio { numerator: 0, denominator: 1 });

    // The flow time of a task that was released long before its end.
    let mut late = Schedule::new();
    late.add_assignment(Assignment::new("J1_O1", "J1", "M1", 0, i64::MAX));
    let tasks = vec![make_task("J1", 10, None, Some(-1))];
    assert!(ScheduleKpi::try_calculate(&late, &tasks).is_none());
    let tasks = vec![make_task("J1", 10, Some(-1), Some(0))];
    assert!(ScheduleKpi::try_calculate(&late, &tasks).is_none());
    let tasks = vec![make_task("J1", 10, Some(0), Some(0))];
    let kpi = ScheduleKpi::try_calculate(&late, &tasks).unwrap();
    assert_eq!(kpi.total_tardiness_ms, i64::MAX);
    assert_eq!(kpi.max_tardiness_ms, i64::MAX);
    assert_eq!(kpi.avg_flow_time_ms, Ratio { numerator: i64::MAX as i128, denominator: 1 });
}

#[test]
fn try_calculate_agrees_with_calculate() {
    let tasks = vec![make_task("J1", 1000, Some(500), Some(0)), make_task("J2", 2000, Some(5000), Some(100))];
    let mut schedule = Schedule::new();
    schedule.add_assignment(Assignment::new("J1_O1", "J1", "M1", 0, 1000));
    schedule.add_assignment(Assignment::new("J2_O1", "J2", "M2", 1000, 3000));
    let a = ScheduleKpi::calculate(&schedule, &tasks);
    let b = ScheduleKpi::try_calculate(&schedule, &tasks).unwrap();
    assert_eq!(a.makespan_ms, b.makespan_ms);
    assert_eq!(b.total_tardiness_ms, 500);
    assert_eq!(b.max_tardiness_ms, 500);
    assert_eq!(b.on_time_rate, Ratio { numerator: 1, denominator: 2 });
    assert_eq!(b.avg_flow_time_ms, Ratio { numerator: 1000 + 2900, denominator: 2 });
    assert_eq!(b.avg_utilization, Ratio { numerator: 3000, denominator: 6000 });
    assert_eq!(b.busy_by_resource.len(), 2);
    assert_eq!(b.busy_by_resource.key_at(0), "M1");
    assert_eq!(*b.busy_by_resource.value_at(0), 1000);
    assert_eq!(b.busy_by_resource.get("M2"), Some(&2000));
    assert_eq!(schedule.try_resource_busy_ms("M2"), Some(2000));
    assert_eq!(schedule.resource_busy_ms("M1"), 1000);
}
