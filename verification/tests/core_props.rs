//! End-to-end behaviour of the simulation core on small graphs.

use rand::rngs::StdRng;
use rand::SeedableRng;
use rand_distr::{Distribution, Normal};

use monte_carlo_cpm::models::{ProjectSchedule, SimulationError, Task};
use monte_carlo_cpm::simulation::{apply_risk_overlay, simulate_iteration, MonteCarloSimulator};
use monte_carlo_cpm::stats::{percentile_from_sorted, sort_durations};

fn task(id: &str, expected_millis: u64, stddev_millis: u64) -> Task {
    Task::with_estimates(
        id.to_string(),
        id.to_string(),
        0,
        0,
        0,
        expected_millis,
        stddev_millis,
    )
}

fn preds(ids: &[&str]) -> Vec<String> {
    ids.iter().map(|s| s.to_string()).collect()
}

/// One raw normal draw per task, in task order, skipping tasks without
/// spread — the drawing an application performs around the library.
fn draw_raw(schedule: &ProjectSchedule, rng: &mut StdRng) -> Vec<u64> {
    let mut raws = Vec::new();
    for t in &schedule.tasks {
        if t.stddev == 0 {
            raws.push(0);
        } else {
            let normal = Normal::new(t.expected as f64, t.stddev as f64).unwrap();
            let x: f64 = normal.sample(rng);
            raws.push(x as u64);
        }
    }
    raws
}

#[test]
fn linear_chain_zero_variance() {
    let tasks = vec![task("A", 5000, 0), task("B", 3000, 0)];
    let predecessors = vec![preds(&[]), preds(&["A"])];
    let mut g = ProjectSchedule::from_tasks(tasks, predecessors).unwrap();
    g.set_expected_durations();
    let pd = g.calculate_schedule().unwrap();
    assert_eq!(pd, 8000);
    assert_eq!(g.early_start, vec![0, 5000]);
    assert_eq!(g.early_finish, vec![5000, 8000]);
}

#[test]
fn diamond_graph() {
    let tasks = vec![task("A", 4000, 0), task("B", 6000, 0), task("C", 2000, 0)];
    let predecessors = vec![preds(&[]), preds(&[]), preds(&["A", "B"])];
    let mut g = ProjectSchedule::from_tasks(tasks, predecessors).unwrap();
    g.set_expected_durations();
    let pd = g.calculate_schedule().unwrap();
    assert_eq!(pd, 8000);
    assert_eq!(g.early_start, vec![0, 0, 6000]);
    assert_eq!(g.early_finish, vec![4000, 6000, 8000]);
    // The critical path holds the tasks finishing with the project: C ends
    // at the project duration; A and B both finish earlier.
    let (path, cp_duration) = g.find_critical_path();
    assert_eq!(path, vec!["C".to_string()]);
    assert_eq!(cp_duration, 8000);
}

#[test]
fn risk_overlay_arithmetic() {
    // base 100, hidden factor 0.12, multiplier 1.2: (100 + 12) * 1.2 = 134.4
    let oc = apply_risk_overlay(100_000, 120, 1200);
    assert_eq!(oc.base_duration, 100_000);
    assert_eq!(oc.invisible_tasks_duration, 12_000);
    assert_eq!(oc.system_risk_factor, 1200);
    assert_eq!(oc.final_duration, 134_400);
}

#[test]
fn risk_overlay_never_shortens() {
    for &hidden in &[100u64, 120, 150] {
        for &risk in &[1000u64, 1177, 1350] {
            let oc = apply_risk_overlay(77_777, hidden, risk);
            assert!(oc.final_duration >= oc.base_duration);
        }
    }
}

#[test]
fn percentile_indexing() {
    let sorted = sort_durations(vec![10, 9, 8, 7, 6, 5, 4, 3, 2, 1]);
    assert_eq!(sorted, vec![1, 2, 3, 4, 5, 6, 7, 8, 9, 10]);
    // p80 index = 10 * 80 / 100 = 8, value 9; p95 index = 9, value 10.
    assert_eq!(percentile_from_sorted(&sorted, 80), 9);
    assert_eq!(percentile_from_sorted(&sorted, 95), 10);
}

#[test]
fn statistics_monotone() {
    let tasks = vec![task("A", 5000, 400)];
    let predecessors = vec![preds(&[])];
    let mut g = ProjectSchedule::from_tasks(tasks, predecessors).unwrap();
    let mut rng = StdRng::seed_from_u64(7);
    let mut outcomes = Vec::new();
    for _ in 0..50 {
        let raws = draw_raw(&g, &mut rng);
        outcomes.push(simulate_iteration(&mut g, &raws, &mut rng).unwrap());
    }
    let res = monte_carlo_cpm::simulation::aggregate_outcomes(&mut g, &outcomes).unwrap();
    assert!(res.min <= res.median);
    assert!(res.median <= res.p80);
    assert!(res.p80 <= res.p95);
    assert!(res.p95 <= res.max);
    assert_eq!(res.durations.len(), 50);
}

#[test]
fn aggregation_exact_values() {
    let tasks = vec![task("A", 5000, 0)];
    let predecessors = vec![preds(&[])];
    let mut g = ProjectSchedule::from_tasks(tasks, predecessors).unwrap();
    // Fixed factors: hidden 0.12 and risk 1.2 scale each base by 1.344.
    let outcomes: Vec<_> = [10_000u64, 20_000, 30_000, 40_000]
        .iter()
        .map(|&b| apply_risk_overlay(b, 120, 1200))
        .collect();
    let res = monte_carlo_cpm::simulation::aggregate_outcomes(&mut g, &outcomes).unwrap();
    assert_eq!(res.durations, vec![13_440, 26_880, 40_320, 53_760]);
    assert_eq!(res.mean, 33_600);
    assert_eq!(res.median, 40_320); // index 4/2 = 2
    assert_eq!(res.p80, 53_760); // index 4*80/100 = 3
    assert_eq!(res.p95, 53_760); // index min(4*95/100, 3) = 3
    assert_eq!(res.min, 13_440);
    assert_eq!(res.max, 53_760);
    assert_eq!(res.avg_base_duration, 25_000);
    assert_eq!(res.avg_invisible_tasks, 3000);
    assert_eq!(res.avg_system_risk_factor, 1200);
    assert_eq!(res.critical_path, vec!["A".to_string()]);
    assert_eq!(res.critical_path_duration, 5000);
}

#[test]
fn merge_order_does_not_change_statistics() {
    // Worker buffers merged in any order aggregate identically.
    let tasks = vec![task("A", 5000, 0)];
    let predecessors = vec![preds(&[])];
    let mut g = ProjectSchedule::from_tasks(tasks, predecessors).unwrap();
    let outcomes: Vec<_> = [30_000u64, 10_000, 40_000, 20_000]
        .iter()
        .map(|&b| apply_risk_overlay(b, 130, 1100))
        .collect();
    let mut reversed = outcomes.clone();
    reversed.reverse();
    let r1 = monte_carlo_cpm::simulation::aggregate_outcomes(&mut g, &outcomes).unwrap();
    let r2 = monte_carlo_cpm::simulation::aggregate_outcomes(&mut g, &reversed).unwrap();
    assert_eq!(r1.durations, r2.durations);
    assert_eq!(r1.mean, r2.mean);
    assert_eq!(r1.median, r2.median);
    assert_eq!(r1.p80, r2.p80);
    assert_eq!(r1.p95, r2.p95);
    assert_eq!(r1.min, r2.min);
    assert_eq!(r1.max, r2.max);
    assert_eq!(r1.avg_base_duration, r2.avg_base_duration);
    assert_eq!(r1.avg_invisible_tasks, r2.avg_invisible_tasks);
    assert_eq!(r1.avg_system_risk_factor, r2.avg_system_risk_factor);
}

#[test]
fn cycle_detection() {
    let tasks = vec![task("A", 1000, 0), task("B", 1000, 0)];
    let predecessors = vec![preds(&["B"]), preds(&["A"])];
    let mut g = ProjectSchedule::from_tasks(tasks, predecessors).unwrap();
    g.set_expected_durations();
    match g.calculate_schedule() {
        Err(SimulationError::CycleDetected { task_ids }) => {
            assert_eq!(task_ids, vec!["A".to_string(), "B".to_string()]);
        }
        other => panic!("expected a cycle error, got {:?}", other),
    }
}

#[test]
fn cycle_detection_through_driver() {
    let tasks = vec![task("A", 1000, 100), task("B", 1000, 100)];
    let predecessors = vec![preds(&["B"]), preds(&["A"])];
    let mut g = ProjectSchedule::from_tasks(tasks, predecessors).unwrap();
    let mut rng = StdRng::seed_from_u64(3);
    let sim = MonteCarloSimulator::new(5);
    let mut raws = Vec::new();
    let mut draw_rng = StdRng::seed_from_u64(4);
    for _ in 0..5 {
        raws.push(draw_raw(&g, &mut draw_rng));
    }
    match sim.run_simulation(&mut g, &raws, &mut rng) {
        Err(SimulationError::CycleDetected { task_ids }) => {
            assert!(task_ids.contains(&"A".to_string()));
            assert!(task_ids.contains(&"B".to_string()));
        }
        other => panic!("expected a cycle error, got {:?}", other),
    }
}

#[test]
fn reproducibility() {
    let run = |seed: u64| {
        let tasks = vec![
            task("design", 4000, 700),
            task("build", 9000, 1500),
            task("test", 3000, 500),
        ];
        let predecessors = vec![preds(&[]), preds(&["design"]), preds(&["build"])];
        let mut g = ProjectSchedule::from_tasks(tasks, predecessors).unwrap();
        let mut rng = StdRng::seed_from_u64(seed);
        let sim = MonteCarloSimulator::new(200);
        let mut raws = Vec::new();
        for _ in 0..200 {
            raws.push(draw_raw(&g, &mut rng));
        }
        sim.run_simulation(&mut g, &raws, &mut rng).unwrap()
    };
    // Same seed, same graph: bit-for-bit identical results.
    let a = run(42);
    let b = run(42);
    assert_eq!(a.durations, b.durations);
    assert_eq!(a.mean, b.mean);
    assert_eq!(a.median, b.median);
    assert_eq!(a.p80, b.p80);
    assert_eq!(a.p95, b.p95);
    assert_eq!(a.min, b.min);
    assert_eq!(a.max, b.max);
    assert_eq!(a.avg_base_duration, b.avg_base_duration);
    assert_eq!(a.avg_invisible_tasks, b.avg_invisible_tasks);
    assert_eq!(a.avg_system_risk_factor, b.avg_system_risk_factor);
    assert_eq!(a.critical_path, b.critical_path);
    assert_eq!(a.critical_path_duration, b.critical_path_duration);

    // A different seed on a graph with spread almost surely differs.
    let c = run(43);
    assert_ne!(a.durations, c.durations);
}

#[test]
fn empty_graph_rejected() {
    let r = ProjectSchedule::from_tasks(Vec::new(), Vec::new());
    assert_eq!(r.unwrap_err(), SimulationError::EmptyGraph);
}

#[test]
fn unresolved_dependency_rejected() {
    let tasks = vec![task("A", 1000, 0)];
    let predecessors = vec![preds(&["missing"])];
    match ProjectSchedule::from_tasks(tasks, predecessors) {
        Err(SimulationError::UnresolvedDependency {
            task_id,
            predecessor_id,
        }) => {
            assert_eq!(task_id, "A");
            assert_eq!(predecessor_id, "missing");
        }
        other => panic!("expected an unresolved dependency error, got {:?}", other),
    }
}

#[test]
fn zero_iterations_rejected() {
    let tasks = vec![task("A", 1000, 0)];
    let predecessors = vec![preds(&[])];
    let mut g = ProjectSchedule::from_tasks(tasks, predecessors).unwrap();
    let mut rng = StdRng::seed_from_u64(1);
    let sim = MonteCarloSimulator::new(0);
    let raws: Vec<Vec<u64>> = Vec::new();
    assert_eq!(
        sim.run_simulation(&mut g, &raws, &mut rng).unwrap_err(),
        SimulationError::InvalidConfiguration
    );
}

#[test]
fn overlay_draws_inside_documented_ranges() {
    // A single zero-spread task gives a fixed base, so the outcome shows
    // exactly what the factor draws did.
    let tasks = vec![task("A", 10_000, 0)];
    let predecessors = vec![preds(&[])];
    let mut g = ProjectSchedule::from_tasks(tasks, predecessors).unwrap();
    let mut rng = StdRng::seed_from_u64(11);
    for _ in 0..100 {
        let raws = vec![0];
        let oc = simulate_iteration(&mut g, &raws, &mut rng).unwrap();
        assert_eq!(oc.base_duration, 10_000);
        // hidden amount = base * factor / 1000 with factor in [100, 150]
        assert!(oc.invisible_tasks_duration >= 10_000 * 100 / 1000);
        assert!(oc.invisible_tasks_duration <= 10_000 * 150 / 1000);
        assert!(oc.system_risk_factor >= 1000 && oc.system_risk_factor <= 1350);
        assert_eq!(
            oc.final_duration,
            (oc.base_duration + oc.invisible_tasks_duration) * oc.system_risk_factor / 1000
        );
        assert!(oc.final_duration >= oc.base_duration);
    }
}

#[test]
fn degenerate_spread_uses_mean_exactly() {
    // stddev of zero: every draw is the mean, whatever raw value arrives.
    let tasks = vec![task("A", 2500, 0)];
    let predecessors = vec![preds(&[])];
    let mut g = ProjectSchedule::from_tasks(tasks, predecessors).unwrap();
    g.generate_random_durations(&vec![999_999]);
    assert_eq!(g.task_durations, vec![2500]);
    // A positive spread clamps tiny draws to the 0.1-unit floor.
    let tasks = vec![task("A", 2500, 300)];
    let predecessors = vec![preds(&[])];
    let mut g2 = ProjectSchedule::from_tasks(tasks, predecessors).unwrap();
    g2.generate_random_durations(&vec![3]);
    assert_eq!(g2.task_durations, vec![100]);
}
