//! Behaviour of the individual components: task derivation, id ordering,
//! sorting, ranking, and the report arithmetic.

use monte_carlo_cpm::models::{find_task_index, ProjectSchedule, Task};
use monte_carlo_cpm::order::sort_task_ids;
use monte_carlo_cpm::reporter::SimulationReporter;
use monte_carlo_cpm::stats::sort_durations;

fn task(id: &str, expected_millis: u64, stddev_millis: u64) -> Task {
    Task::with_estimates(
        id.to_string(),
        id.to_string(),
        0,
        0,
        0,
        expected_millis,
        stddev_millis,
    )
}

fn preds(ids: &[&str]) -> Vec<String> {
    ids.iter().map(|s| s.to_string()).collect()
}

#[test]
fn task_derives_pert_estimates() {
    // expected = (1 + 4*2 + 9) / 6 = 3 units, stddev = (9 - 1) / 6 units
    let t = Task::new("T".to_string(), "name".to_string(), 1000, 2000, 9000);
    assert_eq!(t.expected, 3000);
    assert_eq!(t.stddev, 1333);
    assert_eq!(t.optimistic, 1000);
    assert_eq!(t.most_likely, 2000);
    assert_eq!(t.pessimistic, 9000);
}

#[test]
fn find_task_index_resolves_ids() {
    let tasks = vec![task("x", 1000, 0), task("y", 1000, 0)];
    assert_eq!(find_task_index(&tasks, &"y".to_string()), Some(1));
    assert_eq!(find_task_index(&tasks, &"z".to_string()), None);
}

#[test]
fn id_sort_is_lexicographic() {
    let ids = vec![
        "beta".to_string(),
        "alpha".to_string(),
        "alp".to_string(),
        "gamma".to_string(),
    ];
    let sorted = sort_task_ids(ids);
    assert_eq!(
        sorted,
        vec![
            "alp".to_string(),
            "alpha".to_string(),
            "beta".to_string(),
            "gamma".to_string()
        ]
    );
}

#[test]
fn duration_sort_ascending() {
    assert_eq!(sort_durations(vec![3, 1, 2, 2]), vec![1, 2, 2, 3]);
    assert_eq!(sort_durations(Vec::new()), Vec::<u64>::new());
}

#[test]
fn critical_path_sorted_without_duplicates() {
    // Two parallel tasks of equal length: both critical, ids come out in
    // lexicographic order whatever the task order was.
    let tasks = vec![task("zeta", 5000, 0), task("ant", 5000, 0)];
    let predecessors = vec![preds(&[]), preds(&[])];
    let mut g = ProjectSchedule::from_tasks(tasks, predecessors).unwrap();
    g.set_expected_durations();
    g.calculate_schedule().unwrap();
    let (path, pd) = g.find_critical_path();
    assert_eq!(path, vec!["ant".to_string(), "zeta".to_string()]);
    assert_eq!(pd, 5000);
}

#[test]
fn risk_ranking_by_spread_then_index() {
    let tasks = vec![task("a", 1000, 500), task("b", 1000, 1000), task("c", 1000, 1000)];
    let predecessors = vec![preds(&[]), preds(&[]), preds(&[])];
    let g = ProjectSchedule::from_tasks(tasks, predecessors).unwrap();
    let ranked = SimulationReporter::rank_tasks_by_uncertainty(&g);
    assert_eq!(ranked, vec![1, 2, 0]);
}

#[test]
fn report_arithmetic() {
    assert_eq!(SimulationReporter::days_ceil(1001), 2);
    assert_eq!(SimulationReporter::days_ceil(1000), 1);
    assert_eq!(SimulationReporter::work_weeks_ceil(5001), 2);
    assert_eq!(SimulationReporter::work_weeks_ceil(5000), 1);
    assert_eq!(SimulationReporter::buffer_above_mean(5000, 7000), -2000);
    assert_eq!(SimulationReporter::reference_buffer(1000), 350);
    // (10 + 2) * 1.2 = 14.4 units
    assert_eq!(SimulationReporter::recommended_duration(10_000, 2000, 1200), 14_400);
    assert_eq!(SimulationReporter::internal_buffer(10_000, 3000), 7000);
    assert_eq!(SimulationReporter::internal_buffer(3000, 10_000), 5000);
    assert_eq!(SimulationReporter::internal_buffer(10_000, 9000), 5000);
    assert_eq!(SimulationReporter::risk_increase_permille(1350), 350);
}

#[test]
fn duplicate_free_graph_keeps_task_order() {
    let tasks = vec![task("m", 1000, 0), task("n", 2000, 0)];
    let predecessors = vec![preds(&[]), preds(&["m"])];
    let g = ProjectSchedule::from_tasks(tasks, predecessors).unwrap();
    assert_eq!(g.tasks.len(), 2);
    assert_eq!(g.tasks[0].id, "m");
    assert_eq!(g.tasks[1].id, "n");
    assert_eq!(g.dependencies, vec![Vec::<usize>::new(), vec![0]]);
}
