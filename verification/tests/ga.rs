use rand::rngs::SmallRng;
use rand::{Rng, RngExt, SeedableRng};
use u_metaheur::ga::{GaConfig, GaProblem, GaRunner, Individual};
use u_schedule::collections::StringMap;
use u_schedule::ga::{
    insert_mutation, invert_mutation, jox_build_child, jox_crossover, lox_build_child,
    lox_crossover, mav_mutation, pox_build_child, pox_crossover, swap_mutation, ActivityInfo,
    CrossoverType, Fitness, GeneticOperators, MutationType, ProcessTimes, ScheduleChromosome,
    SchedulingGaProblem,
};
use u_schedule::ga::mutation::{move_item, reverse_segment, swap_positions};
use u_schedule::models::{
    Activity, ActivityDuration, Resource, ResourceRequirement, ResourceType, Task,
    TransitionMatrix, TransitionMatrixCollection,
};

fn sample_activities() -> Vec<ActivityInfo> {
    vec![
        ActivityInfo {
            task_id: "T1".into(),
            sequence: 1,
            process_ms: 1000,
            candidates: vec!["M1".into(), "M2".into()],
        },
        ActivityInfo { task_id: "T1".into(), sequence: 2, process_ms: 2000, candidates: vec!["M2".into()] },
        ActivityInfo {
            task_id: "T2".into(),
            sequence: 1,
            process_ms: 1500,
            candidates: vec!["M1".into(), "M3".into()],
        },
    ]
}

fn ids(items: &[&str]) -> Vec<String> {
    items.iter().map(|s| s.to_string()).collect()
}

fn sorted(items: &[String]) -> Vec<String> {
    let mut v = items.to_vec();
    v.sort();
    v
}

#[test]
fn test_random_chromosome() {
    let acts = sample_activities();
    let mut rng = SmallRng::seed_from_u64(42);
    let ch = ScheduleChromosome::random(&acts, &mut rng);

    assert_eq!(ch.osv.len(), 3);
    assert_eq!(ch.mav.len(), 3);
    assert!(ch.is_valid(&acts));
    assert_eq!(ch.fitness, Fitness::Unevaluated);
}

#[test]
fn test_decode_osv() {
    let acts = sample_activities();
    let mut rng = SmallRng::seed_from_u64(42);
    let ch = ScheduleChromosome::random(&acts, &mut rng);

    let decoded = ch.decode_osv();
    assert_eq!(decoded.len(), 3);

    // Count: T1 appears 2 times, T2 appears 1 time
    let t1_count = decoded.iter().filter(|(t, _)| t == "T1").count();
    let t2_count = decoded.iter().filter(|(t, _)| t == "T2").count();
    assert_eq!(t1_count, 2);
    assert_eq!(t2_count, 1);
}

#[test]
fn decode_osv_numbers_the_occurrences_of_each_task() {
    let ch = ScheduleChromosome {
        osv: ids(&["B", "A", "B", "B", "A"]),
        mav: vec![],
        activity_index: vec![],
        fitness: Fitness::Unevaluated,
    };
    let decoded: Vec<(String, i32)> = ch.decode_osv();
    let want: Vec<(String, i32)> =
        vec![("B".into(), 1), ("A".into(), 1), ("B".into(), 2), ("B".into(), 3), ("A".into(), 2)];
    assert_eq!(decoded, want);
}

#[test]
fn test_load_balanced() {
    let acts = sample_activities();
    let mut rng = SmallRng::seed_from_u64(42);
    let mut cap: StringMap<i64> = StringMap::new();
    cap.insert("M1".into(), 1);
    cap.insert("M2".into(), 1);
    cap.insert("M3".into(), 1);
    let ch = ScheduleChromosome::with_load_balancing(&acts, &cap, &mut rng);

    assert!(ch.is_valid(&acts));
    // T1/1 → M1 (all loads 0, first candidate); T1/2 → M2 (only candidate);
    // T2/1 → M3 (M1 carries 1000, M3 nothing).
    assert_eq!(ch.mav, ids(&["M1", "M2", "M3"]));
}

#[test]
fn load_balancing_breaks_ties_by_candidate_order() {
    let act = |task: &str, seq: i32, ms: i64, cands: &[&str]| ActivityInfo {
        task_id: task.into(),
        sequence: seq,
        process_ms: ms,
        candidates: ids(cands),
    };
    let acts = vec![
        act("A", 1, 10, &["M2", "M1"]),
        act("A", 2, 5, &["M2", "M1"]),
        act("B", 1, 5, &["M2", "M1"]),
        act("B", 2, 1, &[]),
        act("C", 1, 1, &["M1", "M2"]),
    ];
    let mut rng = SmallRng::seed_from_u64(7);
    let ch = ScheduleChromosome::with_load_balancing(&acts, &StringMap::new(), &mut rng);
    // loads: M2=10 → M1=5 → tie at... M2=10, M1=5 → M1=10 → "" → tie 10/10: first listed, M1.
    assert_eq!(ch.mav, ids(&["M2", "M1", "M1", "", "M1"]));
    assert!(ch.is_valid(&acts));
}

#[test]
fn test_pox_crossover() {
    let acts = sample_activities();
    let mut rng = SmallRng::seed_from_u64(42);
    let p1 = ScheduleChromosome::random(&acts, &mut rng);
    let p2 = ScheduleChromosome::random(&acts, &mut rng);

    let (c1, c2) = pox_crossover(&p1, &p2, &acts, &mut rng);
    assert_eq!(c1.osv.len(), 3);
    assert_eq!(c2.osv.len(), 3);
    // Children have reset fitness
    assert_eq!(c1.fitness, Fitness::Unevaluated);
    assert_eq!(c2.fitness, Fitness::Unevaluated);
    assert_eq!(sorted(&c1.osv), sorted(&p1.osv));
    assert_eq!(sorted(&c2.osv), sorted(&p2.osv));
    assert_eq!(c1.mav, p1.mav);
    assert_eq!(c2.mav, p2.mav);
}

#[test]
fn test_lox_crossover() {
    let acts = sample_activities();
    let mut rng = SmallRng::seed_from_u64(42);
    let p1 = ScheduleChromosome::random(&acts, &mut rng);
    let p2 = ScheduleChromosome::random(&acts, &mut rng);

    let (c1, c2) = lox_crossover(&p1, &p2, &acts, &mut rng);
    assert_eq!(c1.osv.len(), 3);
    assert_eq!(c2.osv.len(), 3);
    assert_eq!(c1.fitness, Fitness::Unevaluated);
    assert_eq!(c2.fitness, Fitness::Unevaluated);

    // Task counts must be preserved
    let mut c1_sorted = c1.osv.clone();
    c1_sorted.sort();
    let mut p1_sorted = p1.osv.clone();
    p1_sorted.sort();
    assert_eq!(c1_sorted, p1_sorted);
}

#[test]
fn test_lox_crossover_preserves_segment() {
    let acts = sample_activities();
    let mut rng = SmallRng::seed_from_u64(99);

    // Run multiple times to exercise various segments
    for seed in 0..20 {
        let mut rng2 = SmallRng::seed_from_u64(seed);
        let p1 = ScheduleChromosome::random(&acts, &mut rng2);
        let p2 = ScheduleChromosome::random(&acts, &mut rng2);

        let (c1, _c2) = lox_crossover(&p1, &p2, &acts, &mut rng);

        // OSV length preserved
        assert_eq!(c1.osv.len(), p1.osv.len());

        // Task count conservation
        let mut c1_sorted = c1.osv.clone();
        c1_sorted.sort();
        let mut p1_sorted = p1.osv.clone();
        p1_sorted.sort();
        assert_eq!(c1_sorted, p1_sorted, "seed={seed}");
    }
}

#[test]
fn test_jox_crossover() {
    let acts = sample_activities();
    let mut rng = SmallRng::seed_from_u64(42);
    let p1 = ScheduleChromosome::random(&acts, &mut rng);
    let p2 = ScheduleChromosome::random(&acts, &mut rng);

    let (c1, c2) = jox_crossover(&p1, &p2, &acts, &mut rng);
    assert_eq!(c1.osv.len(), 3);
    assert_eq!(c2.osv.len(), 3);
    assert_eq!(c1.fitness, Fitness::Unevaluated);
    assert_eq!(c2.fitness, Fitness::Unevaluated);

    // Task counts must be preserved
    let mut c1_sorted = c1.osv.clone();
    c1_sorted.sort();
    let mut p1_sorted = p1.osv.clone();
    p1_sorted.sort();
    assert_eq!(c1_sorted, p1_sorted);
}

#[test]
fn test_jox_preserves_selected_positions() {
    let acts = sample_activities();

    // Run multiple times
    for seed in 0..20 {
        let mut rng = SmallRng::seed_from_u64(seed);
        let p1 = ScheduleChromosome::random(&acts, &mut rng);
        let p2 = ScheduleChromosome::random(&acts, &mut rng);

        let (c1, _c2) = jox_crossover(&p1, &p2, &acts, &mut rng);

        // Task count conservation
        let mut c1_sorted = c1.osv.clone();
        c1_sorted.sort();
        let mut p1_sorted = p1.osv.clone();
        p1_sorted.sort();
        assert_eq!(c1_sorted, p1_sorted, "seed={seed}");
    }
}

#[test]
fn crossovers_without_activities_copy_the_parents() {
    let p1 = ScheduleChromosome {
        osv: ids(&["A", "B"]),
        mav: ids(&["M1", "M2"]),
        activity_index: vec![("A".into(), 1), ("B".into(), 1)],
        fitness: Fitness::Scored { makespan_ms: 5, total_tardiness_ms: 1 },
    };
    let p2 = ScheduleChromosome {
        osv: ids(&["B", "A"]),
        mav: ids(&["M2", "M1"]),
        activity_index: vec![],
        fitness: Fitness::Unevaluated,
    };
    let mut rng = SmallRng::seed_from_u64(1);
    for (c1, c2) in [pox_crossover(&p1, &p2, &[], &mut rng), jox_crossover(&p1, &p2, &[], &mut rng)] {
        assert_eq!(c1.osv, p1.osv);
        assert_eq!(c1.fitness, p1.fitness);
        assert_eq!(c1.activity_index, p1.activity_index);
        assert_eq!(c2.osv, p2.osv);
        assert_eq!(c2.mav, p2.mav);
    }
    // A single item cannot be crossed by segment.
    let one = ScheduleChromosome { osv: ids(&["A"]), ..p1.clone() };
    let (c1, c2) = lox_crossover(&one, &one, &[], &mut rng);
    assert_eq!(c1.osv, ids(&["A"]));
    assert_eq!(c2.fitness, one.fitness);
}

#[test]
fn pox_child_keeps_selected_and_fills_from_donor() {
    let template = ids(&["A", "B", "A", "C", "B"]);
    let donor = ids(&["B", "C", "A", "B", "A"]);
    // A stays at 0 and 2; B, C, B come from the donor in its order.
    assert_eq!(pox_build_child(&template, &donor, &ids(&["A"])), ids(&["A", "B", "A", "C", "B"]));
    // B and C stay; the two A fill positions 0 and 2.
    assert_eq!(
        pox_build_child(&template, &donor, &ids(&["C", "B"])),
        ids(&["A", "B", "A", "C", "B"])
    );
    let donor2 = ids(&["C", "B", "B", "A", "A"]);
    assert_eq!(pox_build_child(&template, &donor2, &ids(&["A"])), ids(&["A", "C", "A", "B", "B"]));
    // Nothing selected: the child is the donor. Everything selected: the template.
    assert_eq!(pox_build_child(&template, &donor2, &[].to_vec()), donor2);
    assert_eq!(pox_build_child(&template, &donor2, &ids(&["A", "B", "C"])), template);
    // A donor that runs out leaves empty identifiers.
    assert_eq!(pox_build_child(&ids(&["A", "B", "B"]), &ids(&["B"]), &ids(&["A"])), ids(&["A", "B", ""]));
}

#[test]
fn jox_child_equals_pox_child() {
    let template = ids(&["A", "B", "A", "C", "B", ""]);
    let donor = ids(&["", "C", "B", "B", "A", "A"]);
    for selected in [ids(&["A"]), ids(&["B", "C"]), ids(&[""]), ids(&[]), ids(&["A", "B", "C", ""])] {
        assert_eq!(
            jox_build_child(&template, &donor, &selected),
            pox_build_child(&template, &donor, &selected)
        );
    }
    // The empty identifier, when selected, keeps its position like any other.
    assert_eq!(jox_build_child(&ids(&["", "A"]), &ids(&["A", ""]), &ids(&[""])), ids(&["", "A"]));
}

#[test]
fn lox_child_fills_circularly() {
    let p1 = ids(&["A", "B", "C", "D", "E"]);
    let p2 = ids(&["E", "D", "C", "B", "A"]);
    // Segment B C stays; p2 read from position 3: B A E D C → A E D left;
    // they go to positions 3, 4, 0.
    assert_eq!(lox_build_child(&p1, &p2, 1, 2), ids(&["D", "B", "C", "A", "E"]));
    // Segment to the end: reading and filling start at 0.
    assert_eq!(lox_build_child(&p1, &p2, 3, 4), ids(&["C", "B", "A", "D", "E"]));
    // The whole sequence as segment.
    assert_eq!(lox_build_child(&p1, &p2, 0, 4), p1);
    // Repeated tasks: only as many occurrences are skipped as the segment holds.
    let q1 = ids(&["A", "A", "B", "B"]);
    let q2 = ids(&["B", "A", "B", "A"]);
    assert_eq!(lox_build_child(&q1, &q2, 1, 2), ids(&["B", "A", "B", "A"]));
}

#[test]
fn test_swap_mutation() {
    let acts = sample_activities();
    let mut rng = SmallRng::seed_from_u64(42);
    let mut ch = ScheduleChromosome::random(&acts, &mut rng);
    let original = ch.osv.clone();

    // Run enough times to get a different OSV
    for _ in 0..100 {
        swap_mutation(&mut ch, &mut rng);
    }
    // OSV should still have same elements
    let mut sorted_orig = original.clone();
    sorted_orig.sort();
    let mut sorted_new = ch.osv.clone();
    sorted_new.sort();
    assert_eq!(sorted_orig, sorted_new);
}

#[test]
fn test_insert_mutation() {
    let acts = sample_activities();
    let mut rng = SmallRng::seed_from_u64(42);
    let mut ch = ScheduleChromosome::random(&acts, &mut rng);

    insert_mutation(&mut ch, &mut rng);
    assert_eq!(ch.osv.len(), 3);
}

#[test]
fn test_invert_mutation() {
    let acts = sample_activities();
    let mut rng = SmallRng::seed_from_u64(42);
    let mut ch = ScheduleChromosome::random(&acts, &mut rng);

    invert_mutation(&mut ch, &mut rng);
    assert_eq!(ch.osv.len(), 3);
}

#[test]
fn mutations_keep_the_items_of_the_sequence() {
    let acts = sample_activities();
    for seed in 0..30 {
        let mut rng = SmallRng::seed_from_u64(seed);
        let mut ch = ScheduleChromosome::random(&acts, &mut rng);
        let before = sorted(&ch.osv);
        insert_mutation(&mut ch, &mut rng);
        assert_eq!(sorted(&ch.osv), before);
        invert_mutation(&mut ch, &mut rng);
        assert_eq!(sorted(&ch.osv), before);
        swap_mutation(&mut ch, &mut rng);
        assert_eq!(sorted(&ch.osv), before);
    }
    // Short sequences are left alone.
    let mut one = ScheduleChromosome {
        osv: ids(&["A"]),
        mav: vec![],
        activity_index: vec![],
        fitness: Fitness::Unevaluated,
    };
    let mut rng = SmallRng::seed_from_u64(3);
    swap_mutation(&mut one, &mut rng);
    insert_mutation(&mut one, &mut rng);
    invert_mutation(&mut one, &mut rng);
    mav_mutation(&mut one, &[], &mut rng);
    assert_eq!(one.osv, ids(&["A"]));
}

#[test]
fn swap_move_and_reverse_at_given_positions() {
    let mut v = ids(&["a", "b", "c", "d", "e"]);
    swap_positions(&mut v, 1, 3);
    assert_eq!(v, ids(&["a", "d", "c", "b", "e"]));
    swap_positions(&mut v, 2, 2);
    assert_eq!(v, ids(&["a", "d", "c", "b", "e"]));
    let mut v = ids(&["a", "b", "c", "d", "e"]);
    move_item(&mut v, 0, 4);
    assert_eq!(v, ids(&["b", "c", "d", "e", "a"]));
    move_item(&mut v, 3, 1);
    assert_eq!(v, ids(&["b", "e", "c", "d", "a"]));
    let mut v = ids(&["a", "b", "c", "d", "e"]);
    reverse_segment(&mut v, 1, 4);
    assert_eq!(v, ids(&["a", "e", "d", "c", "b"]));
    reverse_segment(&mut v, 0, 1);
    assert_eq!(v, ids(&["e", "a", "d", "c", "b"]));
    reverse_segment(&mut v, 2, 2);
    assert_eq!(v, ids(&["e", "a", "d", "c", "b"]));
}

#[test]
fn test_mav_mutation() {
    let acts = sample_activities();
    let mut rng = SmallRng::seed_from_u64(42);
    let mut ch = ScheduleChromosome::random(&acts, &mut rng);

    mav_mutation(&mut ch, &acts, &mut rng);
    assert!(ch.is_valid(&acts));
}

#[test]
fn mav_stays_feasible_under_many_mutations() {
    let acts = sample_activities();
    let mut rng = SmallRng::seed_from_u64(11);
    let mut ch = ScheduleChromosome::random(&acts, &mut rng);
    let mut seen_m3 = false;
    for _ in 0..200 {
        mav_mutation(&mut ch, &acts, &mut rng);
        assert!(ch.is_valid(&acts));
        seen_m3 |= ch.mav[2] == "M3";
    }
    assert!(seen_m3);
    assert_eq!(ch.mav[1], "M2");
}

#[test]
fn test_resource_for() {
    let acts = sample_activities();
    let mut rng = SmallRng::seed_from_u64(42);
    let ch = ScheduleChromosome::random(&acts, &mut rng);

    // T1 seq 1 should have a valid resource
    let r = ch.resource_for("T1", 1);
    assert!(r.is_some());
    assert!(acts[0].candidates.contains(&r.unwrap().to_string()));
}

#[test]
fn test_invalid_chromosome() {
    let acts = sample_activities();
    let ch = ScheduleChromosome {
        osv: vec!["T1".into(), "T1".into()], // Wrong length
        mav: vec!["M1".into(), "M2".into(), "M1".into()],
        activity_index: Vec::new(),
        fitness: Fitness::Scored { makespan_ms: 0, total_tardiness_ms: 0 },
    };
    assert!(!ch.is_valid(&acts));
}

#[test]
fn validity_checks_counts_and_candidates() {
    let acts = sample_activities();
    let make = |osv: &[&str], mav: &[&str]| ScheduleChromosome {
        osv: ids(osv),
        mav: ids(mav),
        activity_index: vec![],
        fitness: Fitness::Unevaluated,
    };
    assert!(make(&["T2", "T1", "T1"], &["M2", "M2", "M3"]).is_valid(&acts));
    assert!(!make(&["T2", "T2", "T1"], &["M2", "M2", "M3"]).is_valid(&acts)); // counts differ
    assert!(!make(&["T2", "T1", "T9"], &["M2", "M2", "M3"]).is_valid(&acts)); // unknown task
    assert!(!make(&["T2", "T1", "T1"], &["M3", "M2", "M3"]).is_valid(&acts)); // M3 no candidate
    assert!(!make(&["T2", "T1", "T1"], &["M2", "M2"]).is_valid(&acts)); // short assignment
    // An activity without candidates accepts anything.
    let mut free = sample_activities();
    free[1].candidates.clear();
    assert!(make(&["T2", "T1", "T1"], &["M2", "whatever", "M3"]).is_valid(&free));
    assert!(make(&[], &[]).is_valid(&[]));
}

#[test]
fn test_with_shortest_time() {
    let acts = sample_activities();
    let mut rng = SmallRng::seed_from_u64(42);

    // M1 is faster for T1/seq1, M3 is faster for T2/seq1
    let process_times = ProcessTimes::new()
        .with_time("T1", 1, "M1", 500)
        .with_time("T1", 1, "M2", 900)
        .with_time("T1", 2, "M2", 2000) // Only candidate
        .with_time("T2", 1, "M1", 1500)
        .with_time("T2", 1, "M3", 800);

    let ch = ScheduleChromosome::with_shortest_time(&acts, &process_times, &mut rng);

    assert!(ch.is_valid(&acts));
    assert_eq!(ch.resource_for("T1", 1), Some("M1")); // M1 is faster (500 < 900)
    assert_eq!(ch.resource_for("T1", 2), Some("M2")); // Only candidate
    assert_eq!(ch.resource_for("T2", 1), Some("M3")); // M3 is faster (800 < 1500)
}

#[test]
fn test_with_shortest_time_fallback() {
    let acts = sample_activities();
    let mut rng = SmallRng::seed_from_u64(42);

    // Partial map — T1/seq1 has no entries → falls back to process_ms
    let process_times = ProcessTimes::new();

    let ch = ScheduleChromosome::with_shortest_time(&acts, &process_times, &mut rng);

    // Should still be valid (falls back to default process_ms for all)
    assert!(ch.is_valid(&acts));
    assert_eq!(ch.osv.len(), 3);
    assert_eq!(ch.mav.len(), 3);
    // All candidates tie on the fallback: the first listed wins.
    assert_eq!(ch.mav, ids(&["M1", "M2", "M1"]));
}

#[test]
fn shortest_time_mixes_table_and_fallback() {
    let acts = sample_activities();
    let mut rng = SmallRng::seed_from_u64(5);
    // T1/1: M1 by fallback 1000, M2 given 999 → M2. T2/1: M1 given 1500 = fallback of M3 → M1.
    let times = ProcessTimes::new().with_time("T1", 1, "M2", 999).with_time("T2", 1, "M1", 1500);
    let ch = ScheduleChromosome::with_shortest_time(&acts, &times, &mut rng);
    assert_eq!(ch.mav, ids(&["M2", "M2", "M1"]));
    assert_eq!(times.get(&"T1".to_string(), 1, &"M2".to_string()), Some(999));
    assert_eq!(times.get(&"T1".to_string(), 2, &"M2".to_string()), None);
    // Of two entries for the same activity and resource the later one counts.
    let twice = times.with_time("T1", 1, "M2", 1);
    assert_eq!(twice.get(&"T1".to_string(), 1, &"M2".to_string()), Some(1));
}

#[test]
fn test_set_resource() {
    let acts = sample_activities();
    let mut rng = SmallRng::seed_from_u64(42);
    let mut ch = ScheduleChromosome::random(&acts, &mut rng);

    // Change T1/seq1 resource to M2
    ch.set_resource("T1", 1, "M2".into());
    assert_eq!(ch.resource_for("T1", 1), Some("M2"));

    // Set unknown activity — should do nothing
    ch.set_resource("T99", 1, "X".into());
    assert!(ch.resource_for("T99", 1).is_none());
}

#[test]
fn test_set_resource_preserves_validity() {
    let acts = sample_activities();
    let mut rng = SmallRng::seed_from_u64(42);
    let mut ch = ScheduleChromosome::random(&acts, &mut rng);

    // Set T2/seq1 to M1 (valid candidate)
    ch.set_resource("T2", 1, "M1".into());
    assert_eq!(ch.resource_for("T2", 1), Some("M1"));
    assert!(ch.is_valid(&acts));
}

#[test]
fn test_default_operators() {
    let ops = GeneticOperators::default();
    assert_eq!(ops.crossover_type, CrossoverType::POX);
    assert_eq!(ops.mutation_type, MutationType::Swap);
}

#[test]
fn test_crossover_pox() {
    let acts = sample_activities();
    let ops = GeneticOperators::default();
    let mut rng = SmallRng::seed_from_u64(42);
    let p1 = ScheduleChromosome::random(&acts, &mut rng);
    let p2 = ScheduleChromosome::random(&acts, &mut rng);

    let (c1, c2) = ops.crossover(&p1, &p2, &acts, &mut rng);
    assert_eq!(c1.osv.len(), 3);
    assert_eq!(c2.osv.len(), 3);
}

#[test]
fn test_crossover_lox() {
    let acts = sample_activities();
    let ops = GeneticOperators { crossover_type: CrossoverType::LOX, mutation_type: MutationType::Swap };
    let mut rng = SmallRng::seed_from_u64(42);
    let p1 = ScheduleChromosome::random(&acts, &mut rng);
    let p2 = ScheduleChromosome::random(&acts, &mut rng);

    let (c1, c2) = ops.crossover(&p1, &p2, &acts, &mut rng);
    assert_eq!(c1.osv.len(), 3);
    assert_eq!(c2.osv.len(), 3);
}

#[test]
fn test_crossover_jox() {
    let acts = sample_activities();
    let ops = GeneticOperators { crossover_type: CrossoverType::JOX, mutation_type: MutationType::Swap };
    let mut rng = SmallRng::seed_from_u64(42);
    let p1 = ScheduleChromosome::random(&acts, &mut rng);
    let p2 = ScheduleChromosome::random(&acts, &mut rng);

    let (c1, c2) = ops.crossover(&p1, &p2, &acts, &mut rng);
    assert_eq!(c1.osv.len(), 3);
    assert_eq!(c2.osv.len(), 3);
}

#[test]
fn test_mutation_swap() {
    let acts = sample_activities();
    let ops = GeneticOperators::default();
    let mut rng = SmallRng::seed_from_u64(42);
    let mut ch = ScheduleChromosome::random(&acts, &mut rng);

    ops.mutate(&mut ch, &acts, &mut rng);
    assert_eq!(ch.osv.len(), 3);
}

#[test]
fn test_mutation_insert() {
    let acts = sample_activities();
    let ops = GeneticOperators { crossover_type: CrossoverType::POX, mutation_type: MutationType::Insert };
    let mut rng = SmallRng::seed_from_u64(42);
    let mut ch = ScheduleChromosome::random(&acts, &mut rng);

    ops.mutate(&mut ch, &acts, &mut rng);
    assert_eq!(ch.osv.len(), 3);
}

#[test]
fn test_mutation_invert() {
    let acts = sample_activities();
    let ops = GeneticOperators { crossover_type: CrossoverType::POX, mutation_type: MutationType::Invert };
    let mut rng = SmallRng::seed_from_u64(42);
    let mut ch = ScheduleChromosome::random(&acts, &mut rng);

    ops.mutate(&mut ch, &acts, &mut rng);
    assert_eq!(ch.osv.len(), 3);
}

#[test]
fn test_mutate_always_applies_mav() {
    let acts = sample_activities();
    let ops = GeneticOperators::default();
    let mut rng = SmallRng::seed_from_u64(42);
    let ch = ScheduleChromosome::random(&acts, &mut rng);
    let original_mav = ch.mav.clone();

    // Run enough mutations that MAV changes at least once
    let mut mav_changed = false;
    for _ in 0..50 {
        let mut ch2 = ch.clone();
        ops.mutate(&mut ch2, &acts, &mut rng);
        if ch2.mav != original_mav {
            mav_changed = true;
            break;
        }
    }
    assert!(mav_changed, "MAV mutation should occur alongside OSV mutation");
}

fn make_test_problem() -> (Vec<Task>, Vec<Resource>) {
    let tasks = vec![
        Task::new("T1")
            .with_category("TypeA")
            .with_priority(5)
            .with_deadline(10_000)
            .with_activity(
                Activity::new("T1_O1", "T1", 0)
                    .with_duration(ActivityDuration::fixed(1000))
                    .with_requirement(
                        ResourceRequirement::new("Machine")
                            .with_candidates(vec!["M1".into(), "M2".into()]),
                    ),
            )
            .with_activity(
                Activity::new("T1_O2", "T1", 1)
                    .with_duration(ActivityDuration::fixed(2000))
                    .with_requirement(
                        ResourceRequirement::new("Machine").with_candidates(vec!["M2".into()]),
                    ),
            ),
        Task::new("T2").with_category("TypeB").with_priority(3).with_activity(
            Activity::new("T2_O1", "T2", 0)
                .with_duration(ActivityDuration::fixed(1500))
                .with_requirement(
                    ResourceRequirement::new("Machine")
                        .with_candidates(vec!["M1".into(), "M3".into()]),
                ),
        ),
    ];

    let resources = vec![
        Resource::new("M1", ResourceType::Primary),
        Resource::new("M2", ResourceType::Primary),
        Resource::new("M3", ResourceType::Primary),
    ];

    (tasks, resources)
}

#[test]
fn test_activity_info_from_tasks() {
    let (tasks, _) = make_test_problem();
    let infos = ActivityInfo::from_tasks(&tasks);
    assert_eq!(infos.len(), 3);
    assert_eq!(infos[0].task_id, "T1");
    assert_eq!(infos[0].sequence, 1);
    assert_eq!(infos[0].process_ms, 1000);
    assert_eq!(infos[2].task_id, "T2");
    assert_eq!(infos[1].sequence, 2);
    assert_eq!(infos[1].candidates, ids(&["M2"]));
    assert_eq!(infos[2].sequence, 1);
}

#[test]
fn test_decode_chromosome() {
    let (tasks, resources) = make_test_problem();
    let problem = SchedulingGaProblem::new(&tasks, &resources);
    let mut rng = SmallRng::seed_from_u64(42);
    let ch = problem.create_individual(false, &mut rng);

    let schedule = problem.decode(&ch);
    // Should have assignments for all 3 activities
    assert!(schedule.assignment_count() > 0);
    assert!(schedule.makespan_ms() > 0);
    assert_eq!(schedule.assignment_count(), 3);
    let balanced = problem.create_individual(true, &mut rng);
    assert!(balanced.is_valid(&problem.activities));
}

#[test]
fn test_fitness_computation() {
    let (tasks, resources) = make_test_problem();
    let problem = SchedulingGaProblem::new(&tasks, &resources);
    let mut rng = SmallRng::seed_from_u64(42);
    let ch = problem.create_individual(false, &mut rng);

    match problem.evaluate(&ch) {
        Fitness::Scored { makespan_ms, total_tardiness_ms } => {
            let fitness = 0.5 * makespan_ms as f64 + 0.5 * total_tardiness_ms as f64;
            assert!(fitness.is_finite());
            assert!(fitness > 0.0);
        }
        Fitness::Unevaluated => panic!("not evaluated"),
    }
}

#[test]
fn test_crossover_and_mutation() {
    let (tasks, resources) = make_test_problem();
    let problem = SchedulingGaProblem::new(&tasks, &resources);
    let mut rng = SmallRng::seed_from_u64(42);

    let p1 = problem.create_individual(false, &mut rng);
    let p2 = problem.create_individual(true, &mut rng);

    let children = problem.crossover(&p1, &p2, &mut rng);
    assert_eq!(children.len(), 2);

    let mut child = children[0].clone();
    problem.mutate(&mut child, true, &mut rng);
    assert_eq!(child.osv.len(), p1.osv.len());
    problem.mutate(&mut child, false, &mut rng);
    assert!(child.is_valid(&problem.activities));
}

#[test]
fn decode_places_activities_in_sequence_order() {
    let (tasks, resources) = make_test_problem();
    let mut tm = TransitionMatrix::new("tm", "M2").with_default(100);
    tm.set_transition("TypeB", "TypeA", 40);
    let problem = SchedulingGaProblem::new(&tasks, &resources)
        .with_transition_matrices(TransitionMatrixCollection::new().with_matrix(tm));
    let ch = ScheduleChromosome {
        osv: ids(&["T2", "T1", "T1"]),
        mav: ids(&["M2", "M2", "M2"]),
        activity_index: vec![("T1".into(), 1), ("T1".into(), 2), ("T2".into(), 1)],
        fitness: Fitness::Unevaluated,
    };
    let schedule = problem.decode(&ch);
    let got: Vec<(&str, &str, i64, i64, i64)> = schedule
        .assignments
        .iter()
        .map(|a| (a.task_id.as_str(), a.resource_id.as_str(), a.start_ms, a.end_ms, a.setup_ms))
        .collect();
    // T2 first on M2: 0..1500. T1/1 after it with setup B→A 40: 1500..2540.
    // T1/2 after T1/1, same category: 2540..4540.
    assert_eq!(
        got,
        vec![("T2", "M2", 0, 1500, 0), ("T1", "M2", 1500, 2540, 40), ("T1", "M2", 2540, 4540, 0)]
    );
    assert_eq!(schedule.assignments[1].activity_id, "T1");
    assert_eq!(
        problem.evaluate(&ch),
        Fitness::Scored { makespan_ms: 4540, total_tardiness_ms: 0 }
    );
    assert_eq!(problem.compute_fitness(&schedule), (4540, 0));
}

#[test]
fn decode_skips_what_it_cannot_place_and_honors_release() {
    let mut tasks = vec![
        Task::new("A").with_deadline(5).with_activity(Activity::new("A1", "A", 0).with_process_time(10)),
        Task::new("B").with_deadline(100).with_activity(Activity::new("B1", "B", 0).with_process_time(10)),
    ];
    tasks[0].release_time = Some(7);
    let problem = SchedulingGaProblem::new(&tasks, &[Resource::primary("M1")]);
    let ch = ScheduleChromosome {
        // "A" a second time has no activity; "C" is no task; B has an empty resource.
        osv: ids(&["A", "A", "C", "B"]),
        mav: ids(&["M9", ""]),
        activity_index: vec![],
        fitness: Fitness::Unevaluated,
    };
    let schedule = problem.decode(&ch);
    assert_eq!(schedule.assignment_count(), 1);
    let a = &schedule.assignments[0];
    // M9 is no resource of the problem: it counts as free at 0; the release time decides.
    assert_eq!((a.resource_id.as_str(), a.start_ms, a.end_ms), ("M9", 7, 17));
    // A is 12 late; B has no assignment and counts as done at 0.
    assert_eq!(problem.evaluate(&ch), Fitness::Scored { makespan_ms: 17, total_tardiness_ms: 12 });
}

fn wide_activities() -> Vec<ActivityInfo> {
    (0..8)
        .map(|i| ActivityInfo {
            task_id: format!("T{i}"),
            sequence: 1,
            process_ms: 10,
            candidates: ids(&["M1", "M2", "M3", "M4"]),
        })
        .collect()
}

#[test]
fn random_choices_vary() {
    let acts = wide_activities();
    let in_order: Vec<String> = acts.iter().map(|a| a.task_id.clone()).collect();
    // The shuffle moves items, and not always in the same way.
    let shuffled: Vec<Vec<String>> = (0..10)
        .map(|seed| ScheduleChromosome::random(&acts, &mut SmallRng::seed_from_u64(seed)).osv)
        .collect();
    assert!(shuffled.iter().any(|osv| osv != &in_order));
    assert!(shuffled.iter().any(|osv| osv != &shuffled[0]));
    for osv in &shuffled {
        assert_eq!(sorted(osv), in_order);
    }
    // The random candidate is not always the first one.
    let mut rng = SmallRng::seed_from_u64(1);
    let ch = ScheduleChromosome::random(&acts, &mut rng);
    assert!(ch.mav.iter().any(|m| m != "M1"));
    // Random positions are not always the first one: swaps do change the sequence.
    let mut moved = ch.clone();
    let mut changed = false;
    for _ in 0..50 {
        swap_mutation(&mut moved, &mut rng);
        changed |= moved.osv != ch.osv;
    }
    assert!(changed);
    // The selection of a crossover is not always every task: some child differs
    // from the parent whose positions it keeps.
    let mut differs = false;
    let mut keeps = false;
    for seed in 0..20 {
        let mut rng = SmallRng::seed_from_u64(seed);
        let p1 = ScheduleChromosome::random(&acts, &mut rng);
        let p2 = ScheduleChromosome::random(&acts, &mut rng);
        let (c1, _) = pox_crossover(&p1, &p2, &acts, &mut rng);
        differs |= c1.osv != p1.osv;
        keeps |= c1.osv.iter().zip(&p1.osv).any(|(c, p)| c == p);
    }
    assert!(differs && keeps);
}

#[test]
fn decoding_beyond_64_bits_is_refused() {
    let mut tasks = vec![
        Task::new("A").with_deadline(-10).with_activity(Activity::new("A1", "A", 0).with_process_time(i64::MAX - 3)),
        Task::new("B").with_activity(Activity::new("B1", "B", 0).with_process_time(3)),
        Task::new("C").with_activity(Activity::new("C1", "C", 0).with_process_time(1)),
    ];
    let ch = |osv: &[&str]| ScheduleChromosome {
        osv: ids(osv),
        mav: ids(&["M1", "M1", "M1"]),
        activity_index: vec![],
        fitness: Fitness::Unevaluated,
    };
    let problem = SchedulingGaProblem::new(&tasks, &[Resource::primary("M1")]);
    assert_eq!(problem.try_decode(&ch(&["A", "B"])).unwrap().makespan_ms(), i64::MAX);
    assert!(problem.try_decode(&ch(&["A", "B", "C"])).is_none());
    // The schedule fits; the tardiness of A against its deadline does not.
    assert!(problem.try_evaluate(&ch(&["A", "B"])).is_none());
    assert!(problem.try_evaluate(&ch(&["A", "B", "C"])).is_none());
    tasks[0].deadline = Some(10);
    let problem = SchedulingGaProblem::new(&tasks, &[Resource::primary("M1")]);
    assert_eq!(
        problem.try_evaluate(&ch(&["A", "B"])),
        Some(Fitness::Scored { makespan_ms: i64::MAX, total_tardiness_ms: i64::MAX - 3 - 10 })
    );
}

#[test]
fn equal_seeds_give_equal_runs() {
    let (tasks, resources) = make_test_problem();
    let problem = SchedulingGaProblem::new(&tasks, &resources);
    let run = |seed: u64| {
        let mut rng = SmallRng::seed_from_u64(seed);
        let mut population: Vec<ScheduleChromosome> =
            (0..6).map(|i| problem.create_individual(i % 2 == 0, &mut rng)).collect();
        for _ in 0..5 {
            let children = problem.crossover(&population[0], &population[1], &mut rng);
            for mut child in children {
                problem.mutate(&mut child, true, &mut rng);
                child.fitness = problem.evaluate(&child);
                population.push(child);
            }
            population.sort_by_key(|c| match c.fitness {
                Fitness::Scored { makespan_ms, total_tardiness_ms } => makespan_ms + total_tardiness_ms,
                Fitness::Unevaluated => i64::MAX,
            });
            population.truncate(6);
        }
        (population[0].osv.clone(), population[0].mav.clone(), population[0].fitness)
    };
    assert_eq!(run(42), run(42));
    assert_eq!(run(7), run(7));
}

#[test]
fn load_balancing_beyond_64_bits_is_refused() {
    let act = |task: &str, seq: i32, ms: i64| ActivityInfo {
        task_id: task.into(),
        sequence: seq,
        process_ms: ms,
        candidates: ids(&["M1"]),
    };
    let mut rng = SmallRng::seed_from_u64(3);
    let heavy = vec![act("A", 1, i64::MAX), act("A", 2, 1)];
    assert!(ScheduleChromosome::try_with_load_balancing(&heavy, &StringMap::new(), &mut rng).is_none());
    let light = vec![act("A", 1, i64::MAX - 1), act("A", 2, 1)];
    let ch = ScheduleChromosome::try_with_load_balancing(&light, &StringMap::new(), &mut rng).unwrap();
    assert_eq!(ch.mav, ids(&["M1", "M1"]));
    assert_eq!(ch.osv, ids(&["A", "A"]));

    let task = Task::new("A")
        .with_activity(
            Activity::new("A1", "A", 0)
                .with_duration(ActivityDuration::fixed(i64::MAX))
                .with_requirement(ResourceRequirement::new("Machine").with_candidates(vec!["M1".into()])),
        )
        .with_activity(
            Activity::new("A2", "A", 1)
                .with_duration(ActivityDuration::fixed(1))
                .with_requirement(ResourceRequirement::new("Machine").with_candidates(vec!["M1".into()])),
        );
    let resources = vec![Resource::primary("M1")];
    let problem = SchedulingGaProblem::new(&[task], &resources);
    assert!(problem.try_create_individual(true, &mut rng).is_none());
    let ch = problem.try_create_individual(false, &mut rng).unwrap();
    assert!(ch.is_valid(&problem.activities));
    assert_eq!(ch.fitness, Fitness::Unevaluated);
}

/// A chromosome with a floating-point fitness, as the genetic runner wants it.
#[derive(Debug, Clone)]
struct Scored {
    genes: ScheduleChromosome,
    fitness: f64,
}

impl Individual for Scored {
    type Fitness = f64;

    fn fitness(&self) -> f64 {
        self.fitness
    }

    fn set_fitness(&mut self, fitness: f64) {
        self.fitness = fitness;
    }
}

/// The scheduling problem with the weight of tardiness in the fitness.
struct Weighted {
    problem: SchedulingGaProblem,
    tardiness_weight: f64,
}

impl Weighted {
    fn value(&self, genes: &ScheduleChromosome) -> f64 {
        match self.problem.try_evaluate(genes).unwrap() {
            Fitness::Unevaluated => f64::INFINITY,
            Fitness::Scored { makespan_ms, total_tardiness_ms } => {
                (1.0 - self.tardiness_weight) * makespan_ms as f64
                    + self.tardiness_weight * total_tardiness_ms as f64
            }
        }
    }
}

impl GaProblem for Weighted {
    type Individual = Scored;

    fn create_individual<R: Rng>(&self, rng: &mut R) -> Scored {
        let balanced = !rng.random_bool(0.5);
        let mut own = SmallRng::from_rng(rng);
        let genes = self.problem.try_create_individual(balanced, &mut own).unwrap();
        Scored { genes, fitness: f64::INFINITY }
    }

    fn evaluate(&self, individual: &Scored) -> f64 {
        self.value(&individual.genes)
    }

    fn crossover<R: Rng>(&self, parent1: &Scored, parent2: &Scored, rng: &mut R) -> Vec<Scored> {
        let mut own = SmallRng::from_rng(rng);
        self.problem
            .crossover(&parent1.genes, &parent2.genes, &mut own)
            .into_iter()
            .map(|genes| Scored { genes, fitness: f64::INFINITY })
            .collect()
    }

    fn mutate<R: Rng>(&self, individual: &mut Scored, rng: &mut R) {
        let swap = rng.random_bool(0.5);
        let mut own = SmallRng::from_rng(rng);
        self.problem.mutate(&mut individual.genes, swap, &mut own);
    }
}

#[test]
fn test_ga_runner_integration() {
    let (tasks, resources) = make_test_problem();
    let problem = Weighted { problem: SchedulingGaProblem::new(&tasks, &resources), tardiness_weight: 0.5 };
    let config = GaConfig::default()
        .with_population_size(20)
        .with_max_generations(10)
        .with_seed(42)
        .with_parallel(false);

    let result = GaRunner::run(&problem, &config).unwrap();
    assert!(result.best_fitness.is_finite());
    assert!(result.best_fitness < f64::INFINITY);
    assert!(result.generations > 0);
    // The best individual is a valid chromosome, and its fitness is what its schedule gives.
    assert!(result.best.genes.is_valid(&problem.problem.activities));
    assert_eq!(result.best_fitness, problem.value(&result.best.genes));
    let schedule = problem.problem.decode(&result.best.genes);
    assert_eq!(schedule.assignment_count(), 3);
    // No schedule of the three activities is shorter: T1 alone takes 3000.
    assert!(schedule.makespan_ms() >= 3000);
}

#[test]
fn test_tardiness_weight() {
    let (tasks, resources) = make_test_problem();
    let problem_makespan = Weighted { problem: SchedulingGaProblem::new(&tasks, &resources), tardiness_weight: 0.0 };
    let problem_tardy = Weighted { problem: SchedulingGaProblem::new(&tasks, &resources), tardiness_weight: 1.0 };

    let mut rng = SmallRng::seed_from_u64(42);
    let ch = problem_makespan.create_individual(&mut rng);

    let f1 = problem_makespan.evaluate(&ch);
    let f2 = problem_tardy.evaluate(&ch);
    // Different weights should give different fitness
    assert!(f1 != f2 || (f1 == 0.0 && f2 == 0.0));
    // All weight on the makespan: the fitness is the makespan; all on tardiness: no task is late.
    assert_eq!(f1, problem_makespan.problem.decode(&ch.genes).makespan_ms() as f64);
    assert_eq!(f2, 0.0);
}

#[test]
fn genetic_runs_with_equal_seeds_are_equal() {
    let (tasks, resources) = make_test_problem();
    let problem = Weighted { problem: SchedulingGaProblem::new(&tasks, &resources), tardiness_weight: 0.5 };
    let config = GaConfig::default()
        .with_population_size(16)
        .with_max_generations(8)
        .with_seed(7)
        .with_parallel(false);
    let a = GaRunner::run(&problem, &config).unwrap();
    let b = GaRunner::run(&problem, &config).unwrap();
    assert_eq!(a.best_fitness, b.best_fitness);
    assert_eq!(a.best.genes.osv, b.best.genes.osv);
    assert_eq!(a.best.genes.mav, b.best.genes.mav);
    assert_eq!(a.fitness_history, b.fitness_history);
}

#[test]
fn mav_mutation_puts_a_candidate_at_one_position() {
    let act = |task: &str, cands: &[&str]| ActivityInfo {
        task_id: task.into(),
        sequence: 1,
        process_ms: 10,
        candidates: ids(cands),
    };
    let chromosome = |mav: &[&str]| ScheduleChromosome {
        osv: ids(&["A", "B", "C"]),
        mav: ids(mav),
        activity_index: vec![],
        fitness: Fitness::Unevaluated,
    };
    let acts = vec![act("A", &["M1"]), act("B", &["M2"]), act("C", &["M3"])];
    for seed in 0..20 {
        // No entry is a candidate of its activity: exactly one becomes one.
        let mut ch = chromosome(&["X", "X", "X"]);
        mav_mutation(&mut ch, &acts, &mut SmallRng::seed_from_u64(seed));
        let changed: Vec<usize> = (0..3).filter(|&i| ch.mav[i] != "X").collect();
        assert_eq!(changed.len(), 1);
        assert_eq!(ch.mav[changed[0]], acts[changed[0]].candidates[0]);
        assert_eq!(ch.osv, ids(&["A", "B", "C"]));

        // Only the positions that the activity list has are mutated.
        let mut long = chromosome(&["X", "X", "X"]);
        mav_mutation(&mut long, &acts[..1], &mut SmallRng::seed_from_u64(seed));
        assert_eq!(long.mav, ids(&["M1", "X", "X"]));

        // An activity without candidates, no activity, no assignment: nothing changes.
        let mut bare = chromosome(&["X", "X", "X"]);
        mav_mutation(&mut bare, &[act("A", &[]), act("B", &[]), act("C", &[])], &mut SmallRng::seed_from_u64(seed));
        assert_eq!(bare.mav, ids(&["X", "X", "X"]));
        mav_mutation(&mut bare, &[], &mut SmallRng::seed_from_u64(seed));
        assert_eq!(bare.mav, ids(&["X", "X", "X"]));
        let mut empty = chromosome(&[]);
        mav_mutation(&mut empty, &acts, &mut SmallRng::seed_from_u64(seed));
        assert!(empty.mav.is_empty());
    }
}

#[test]
fn a_later_processing_time_replaces_an_earlier_one() {
    let times = ProcessTimes::new()
        .with_time("T1", 1, "M1", 500)
        .with_time("T1", 1, "M2", 300)
        .with_time("T1", 1, "M1", 100);
    assert_eq!(times.get(&"T1".to_string(), 1, &"M1".to_string()), Some(100));
    assert_eq!(times.get(&"T1".to_string(), 1, &"M2".to_string()), Some(300));
    assert_eq!(times.get(&"T1".to_string(), 2, &"M1".to_string()), None);
    assert_eq!(times.get(&"T2".to_string(), 1, &"M1".to_string()), None);
    // The shortest time is now on M1.
    let acts = vec![ActivityInfo {
        task_id: "T1".into(),
        sequence: 1,
        process_ms: 1000,
        candidates: ids(&["M2", "M1"]),
    }];
    let ch = ScheduleChromosome::with_shortest_time(&acts, &times, &mut SmallRng::seed_from_u64(1));
    assert_eq!(ch.mav, ids(&["M1"]));
}
