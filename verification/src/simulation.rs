//! The risk overlay and the Monte Carlo driver.
//!
//! Each iteration samples every task's duration, runs the forward pass for a
//! base project duration, and applies two independent stochastic
//! adjustments: a hidden-task inflation factor drawn uniformly from
//! [0.10, 0.15] of the base, and a systemic risk multiplier drawn uniformly
//! from [1.00, 1.35] applied to the sum. After all iterations the outcomes
//! are aggregated into percentile statistics, together with the
//! deterministic critical path computed from the mean durations.

use vstd::arithmetic::div_mod::{lemma_div_by_multiple, lemma_div_is_ordered};
use vstd::prelude::*;

use crate::models::{
    IterationOutcome, ProjectSchedule, SimulationError, SimulationResults, Task,
    HIDDEN_FACTOR_MAX_PERMILLE, HIDDEN_FACTOR_MIN_PERMILLE, MAX_FINAL_DURATION_MILLIS,
    MAX_ITERATIONS, MAX_PROJECT_DURATION_MILLIS, PERMILLE, RISK_FACTOR_MAX_PERMILLE,
    RISK_FACTOR_MIN_PERMILLE,
};
use crate::order::sorted_ids;
use crate::sampling::{durations_of_draws, sampled_durations, uniform_draw};
use crate::scheduler::{
    acyclic, critical_id, id_listed, ids_of_unfinished, is_project_duration, schedule_complete,
    stalled_flags,
};
use crate::stats::{
    mean_durations, percentile_from_sorted, percentile_index, sort_durations, sorted_ascending,
    sum_of,
};

verus! {

broadcast use vstd::seq_lib::group_to_multiset_ensures;

/// The risk overlay's arithmetic, exactly: the hidden-task amount is
/// `base * hidden_pm / 1000`, and the final duration is the inflated base
/// times the risk factor, `(base + hidden) * risk_pm / 1000`.
pub open spec fn overlay_ok(base: u64, hidden_pm: u64, risk_pm: u64, oc: IterationOutcome) -> bool {
    &&& oc.base_duration == base
    &&& oc.invisible_tasks_duration == base * hidden_pm / (PERMILLE as int)
    &&& oc.system_risk_factor == risk_pm
    &&& oc.final_duration == (base + base * hidden_pm / (PERMILLE as int)) * risk_pm / (
    PERMILLE as int)
}

/// Ranges every outcome's fields stay inside.
pub open spec fn outcome_bounded(oc: IterationOutcome) -> bool {
    &&& oc.base_duration <= MAX_PROJECT_DURATION_MILLIS
    &&& oc.invisible_tasks_duration <= oc.base_duration
    &&& RISK_FACTOR_MIN_PERMILLE <= oc.system_risk_factor <= RISK_FACTOR_MAX_PERMILLE
    &&& oc.base_duration <= oc.final_duration <= MAX_FINAL_DURATION_MILLIS
}

/// Bounds of the overlay arithmetic: the hidden amount never exceeds the
/// base, and the final duration lies between the base and the largest
/// representable final duration.
proof fn lemma_overlay_bounds(base: u64, hidden_pm: u64, risk_pm: u64, oc: IterationOutcome)
    requires
        base <= MAX_PROJECT_DURATION_MILLIS,
        HIDDEN_FACTOR_MIN_PERMILLE <= hidden_pm <= HIDDEN_FACTOR_MAX_PERMILLE,
        RISK_FACTOR_MIN_PERMILLE <= risk_pm <= RISK_FACTOR_MAX_PERMILLE,
        overlay_ok(base, hidden_pm, risk_pm, oc),
    ensures
        oc.invisible_tasks_duration <= base,
        oc.invisible_tasks_duration <= MAX_PROJECT_DURATION_MILLIS * 150 / 1000,
        base <= oc.final_duration <= MAX_FINAL_DURATION_MILLIS,
{
    let b = base as int;
    let h = hidden_pm as int;
    let r = risk_pm as int;
    let hid = b * h / 1000;
    assert(b * h <= b * 1000) by (nonlinear_arith)
        requires
            0 <= b,
            h <= 1000,
    ;
    lemma_div_is_ordered(b * h, b * 1000, 1000);
    lemma_div_by_multiple(b, 1000);
    assert(hid <= b);
    assert(b * h <= MAX_PROJECT_DURATION_MILLIS as int * 150) by (nonlinear_arith)
        requires
            0 <= b <= MAX_PROJECT_DURATION_MILLIS as int,
            0 <= h <= 150,
    ;
    lemma_div_is_ordered(b * h, MAX_PROJECT_DURATION_MILLIS as int * 150, 1000);
    let tot = b + hid;
    assert(tot * 1000 <= tot * r) by (nonlinear_arith)
        requires
            0 <= tot,
            1000 <= r,
    ;
    lemma_div_is_ordered(tot * 1000, tot * r, 1000);
    lemma_div_by_multiple(tot, 1000);
    assert(tot * r / 1000 >= tot);
    let tot_max = MAX_PROJECT_DURATION_MILLIS as int + MAX_PROJECT_DURATION_MILLIS as int * 150
        / 1000;
    assert(tot * r <= tot_max * 1350) by (nonlinear_arith)
        requires
            0 <= tot <= tot_max,
            0 <= r <= 1350,
    ;
    lemma_div_is_ordered(tot * r, tot_max * 1350, 1000);
}

/// Applies the two stochastic adjustments to one base duration: the hidden
/// amount is added and the sum is scaled by the risk factor. The result
/// never falls below the base.
pub fn apply_risk_overlay(base: u64, hidden_pm: u64, risk_pm: u64) -> (oc: IterationOutcome)
    requires
        base <= MAX_PROJECT_DURATION_MILLIS,
        HIDDEN_FACTOR_MIN_PERMILLE <= hidden_pm <= HIDDEN_FACTOR_MAX_PERMILLE,
        RISK_FACTOR_MIN_PERMILLE <= risk_pm <= RISK_FACTOR_MAX_PERMILLE,
    ensures
        overlay_ok(base, hidden_pm, risk_pm, oc),
        outcome_bounded(oc),
{
    proof {
        assert(base as int * hidden_pm as int <= MAX_PROJECT_DURATION_MILLIS as int * 150)
            by (nonlinear_arith)
            requires
                base <= MAX_PROJECT_DURATION_MILLIS,
                hidden_pm <= 150,
        ;
    }
    let hidden = base * hidden_pm / PERMILLE;
    proof {
        assert(base as int * hidden_pm as int <= base as int * 1000) by (nonlinear_arith)
            requires
                hidden_pm <= 1000,
        ;
        lemma_div_is_ordered(base as int * hidden_pm as int, base as int * 1000, 1000);
        lemma_div_by_multiple(base as int, 1000);
        assert(hidden <= base);
    }
    let total = base + hidden;
    proof {
        assert(total as int * risk_pm as int <= (MAX_PROJECT_DURATION_MILLIS as int
            + MAX_PROJECT_DURATION_MILLIS as int * 150 / 1000) * 1350) by (nonlinear_arith)
            requires
                total as int <= MAX_PROJECT_DURATION_MILLIS as int
                    + MAX_PROJECT_DURATION_MILLIS as int * 150 / 1000,
                risk_pm <= 1350,
        ;
    }
    let final_duration = total * risk_pm / PERMILLE;
    let oc = IterationOutcome {
        base_duration: base,
        invisible_tasks_duration: hidden,
        system_risk_factor: risk_pm,
        final_duration,
    };
    proof {
        lemma_overlay_bounds(base, hidden_pm, risk_pm, oc);
    }
    oc
}

/// The base duration is the project duration of a forward pass over some
/// admissible sample of the task durations.
pub open spec fn base_from_sample(g: ProjectSchedule, base: u64) -> bool {
    exists|durs: Seq<u64>, es: Seq<u64>, ef: Seq<u64>|
        {
            &&& sampled_durations(g.tasks@, durs)
            &&& schedule_complete(g, es, ef, durs)
            &&& is_project_duration(ef, base)
            &&& base <= MAX_PROJECT_DURATION_MILLIS
        }
}

/// The base duration is the project duration of the forward pass over
/// exactly the durations these raw draws determine.
pub open spec fn iteration_base_of(g: ProjectSchedule, raws: Seq<u64>, base: u64) -> bool {
    exists|es: Seq<u64>, ef: Seq<u64>|
        {
            &&& schedule_complete(g, es, ef, durations_of_draws(g.tasks@, raws))
            &&& is_project_duration(ef, base)
        }
}

/// Reproducibility of the scheduled part of an iteration: on one graph,
/// one row of raw draws determines the base duration completely — two
/// passes over the same draws agree, whatever order each processed the
/// tasks in. What remains of an outcome beyond the base depends only on
/// the two overlay factor draws.
pub proof fn lemma_base_reproducible(g: ProjectSchedule, raws: Seq<u64>, b1: u64, b2: u64)
    requires
        g.graph_wf(),
        acyclic(g),
        iteration_base_of(g, raws, b1),
        iteration_base_of(g, raws, b2),
    ensures
        b1 == b2,
{
    let (es1, ef1) = choose|es: Seq<u64>, ef: Seq<u64>|
        {
            &&& schedule_complete(g, es, ef, durations_of_draws(g.tasks@, raws))
            &&& is_project_duration(ef, b1)
        };
    let (es2, ef2) = choose|es: Seq<u64>, ef: Seq<u64>|
        {
            &&& schedule_complete(g, es, ef, durations_of_draws(g.tasks@, raws))
            &&& is_project_duration(ef, b2)
        };
    crate::scheduler::lemma_forward_pass_deterministic(
        g,
        es1,
        ef1,
        es2,
        ef2,
        durations_of_draws(g.tasks@, raws),
    );
    crate::scheduler::lemma_project_duration_unique(ef1, b1, b2);
}

/// The outcome's hidden amount and final duration come from factors inside
/// the documented ranges, by the overlay arithmetic.
pub open spec fn overlaid_from(base: u64, oc: IterationOutcome) -> bool {
    exists|hidden_pm: u64, risk_pm: u64|
        {
            &&& HIDDEN_FACTOR_MIN_PERMILLE <= hidden_pm <= HIDDEN_FACTOR_MAX_PERMILLE
            &&& RISK_FACTOR_MIN_PERMILLE <= risk_pm <= RISK_FACTOR_MAX_PERMILLE
            &&& overlay_ok(base, hidden_pm, risk_pm, oc)
        }
}

/// What one recorded iteration may be: a scheduled sample of the graph with
/// the risk overlay applied, every field inside its range.
pub open spec fn valid_outcome(g: ProjectSchedule, oc: IterationOutcome) -> bool {
    &&& base_from_sample(g, oc.base_duration)
    &&& overlaid_from(oc.base_duration, oc)
    &&& outcome_bounded(oc)
}

/// The risk overlay never shortens a schedule: every valid outcome's final
/// duration is at least its base duration.
pub proof fn lemma_final_at_least_base(g: ProjectSchedule, oc: IterationOutcome)
    requires
        valid_outcome(g, oc),
    ensures
        oc.final_duration >= oc.base_duration,
{
}

/// For any non-empty outcome set, the reported statistics ascend:
/// `min <= median <= p80 <= p95 <= max`.
pub proof fn lemma_results_monotone(ocs: Seq<IterationOutcome>, res: SimulationResults)
    requires
        stats_of(ocs, res),
    ensures
        res.min <= res.median <= res.p80 <= res.p95 <= res.max,
{
    crate::stats::lemma_statistics_monotone(res.durations@);
}

/// Runs one Monte Carlo iteration: assigns durations from the given raw
/// draws, runs the forward pass, draws the two overlay factors from the
/// random stream, and applies the overlay. Succeeds exactly when the graph
/// is acyclic; the graph itself is never changed.
pub fn simulate_iteration(
    schedule: &mut ProjectSchedule,
    raw_draws: &Vec<u64>,
    rng: &mut rand::rngs::StdRng,
) -> (r: Result<IterationOutcome, SimulationError>)
    requires
        old(schedule).graph_wf(),
        raw_draws@.len() == old(schedule).tasks@.len(),
    ensures
        final(schedule).tasks == old(schedule).tasks,
        final(schedule).dependencies == old(schedule).dependencies,
        r is Ok <==> acyclic(*old(schedule)),
        match r {
            Ok(oc) => valid_outcome(*old(schedule), oc) && iteration_base_of(
                *old(schedule),
                raw_draws@,
                oc.base_duration,
            ),
            Err(SimulationError::CycleDetected { task_ids }) => exists|w: Seq<bool>|
                stalled_flags(*old(schedule), w) && ids_of_unfinished(
                    *old(schedule),
                    w,
                    task_ids@,
                ),
            _ => false,
        },
{
    schedule.generate_random_durations(raw_draws);
    let ghost mid = *schedule;
    proof {
        lemma_same_graph_acyclic(mid, *old(schedule));
    }
    let base = match schedule.calculate_schedule() {
        Ok(pd) => pd,
        Err(e) => {
            proof {
                if let SimulationError::CycleDetected { task_ids } = &e {
                    let w = choose|w: Seq<bool>|
                        stalled_flags(mid, w) && ids_of_unfinished(mid, w, task_ids@);
                    lemma_same_graph_stall(mid, *old(schedule), w, task_ids@);
                }
            }
            return Err(e);
        },
    };
    let hidden_pm = uniform_draw(rng, HIDDEN_FACTOR_MIN_PERMILLE, HIDDEN_FACTOR_MAX_PERMILLE);
    let risk_pm = uniform_draw(rng, RISK_FACTOR_MIN_PERMILLE, RISK_FACTOR_MAX_PERMILLE);
    let oc = apply_risk_overlay(base, hidden_pm, risk_pm);
    proof {
        assert(sampled_durations(old(schedule).tasks@, schedule.task_durations@));
        assert(schedule_complete(
            mid,
            schedule.early_start@,
            schedule.early_finish@,
            schedule.task_durations@,
        ));
        assert(schedule_complete(
            *old(schedule),
            schedule.early_start@,
            schedule.early_finish@,
            schedule.task_durations@,
        ));
        assert(base_from_sample(*old(schedule), base));
        assert(schedule.task_durations@ == durations_of_draws(old(schedule).tasks@, raw_draws@));
        assert(iteration_base_of(*old(schedule), raw_draws@, base));
        assert(overlaid_from(base, oc));
    }
    Ok(oc)
}

/// Exact description of the statistics part of a result: the sorted final
/// durations with the median and percentiles read off by index truncation,
/// and integer means of the final, base, hidden and risk values.
pub open spec fn stats_of(ocs: Seq<IterationOutcome>, res: SimulationResults) -> bool {
    &&& ocs.len() >= 1
    &&& res.durations@.len() == ocs.len()
    &&& sorted_ascending(res.durations@)
    &&& res.durations@.to_multiset() == ocs.map_values(
        |o: IterationOutcome| o.final_duration,
    ).to_multiset()
    &&& res.mean == sum_of(res.durations@) / ocs.len() as int
    &&& res.median == res.durations@[ocs.len() as int / 2]
    &&& res.p80 == res.durations@[percentile_index(ocs.len() as int, 80)]
    &&& res.p95 == res.durations@[percentile_index(ocs.len() as int, 95)]
    &&& res.min == res.durations@[0]
    &&& res.max == res.durations@[ocs.len() - 1]
    &&& res.avg_base_duration == sum_of(
        ocs.map_values(|o: IterationOutcome| o.base_duration),
    ) / ocs.len() as int
    &&& res.avg_invisible_tasks == sum_of(
        ocs.map_values(|o: IterationOutcome| o.invisible_tasks_duration),
    ) / ocs.len() as int
    &&& res.avg_system_risk_factor == sum_of(
        ocs.map_values(|o: IterationOutcome| o.system_risk_factor),
    ) / ocs.len() as int
}

/// The mean durations of every task.
pub open spec fn expected_durations(tasks: Seq<Task>) -> Seq<u64> {
    tasks.map_values(|t: Task| t.expected)
}

/// The reported critical path: the tasks finishing within the tolerance of
/// the project duration when every duration is its mean, their ids sorted
/// lexicographically and listed once each.
pub open spec fn deterministic_critical_path(
    g: ProjectSchedule,
    path: Seq<String>,
    pd: u64,
) -> bool {
    exists|es: Seq<u64>, ef: Seq<u64>|
        {
            &&& schedule_complete(g, es, ef, expected_durations(g.tasks@))
            &&& is_project_duration(ef, pd)
            &&& forall|p: int|
                0 <= p < path.len() ==> critical_id(g.tasks@, ef, pd, (#[trigger] path[p])@)
            &&& forall|i: int|
                0 <= i < ef.len() && (#[trigger] ef[i]) + crate::models::CRITICAL_TOLERANCE_MILLIS
                    > pd ==> id_listed(path, g.tasks@[i].id@)
        }
}

/// Everything a successful run promises of its result, relative to the
/// outcomes the iterations recorded.
pub open spec fn results_of_outcomes(
    g: ProjectSchedule,
    ocs: Seq<IterationOutcome>,
    res: SimulationResults,
) -> bool {
    &&& forall|j: int| 0 <= j < ocs.len() ==> valid_outcome(g, #[trigger] ocs[j])
    &&& stats_of(ocs, res)
    &&& sorted_ids(res.critical_path@)
    &&& forall|p: int, q: int|
        0 <= p < q < res.critical_path@.len() ==> (#[trigger] res.critical_path@[p])@ != (
        #[trigger] res.critical_path@[q])@
    &&& deterministic_critical_path(g, res.critical_path@, res.critical_path_duration)
}

/// A whole run is described by some sequence of valid outcomes, one per
/// row of raw draws, each base duration scheduled from exactly its row.
pub open spec fn valid_results(g: ProjectSchedule, raws: Seq<Vec<u64>>, res: SimulationResults) -> bool {
    exists|ocs: Seq<IterationOutcome>|
        {
            &&& ocs.len() == raws.len()
            &&& forall|j: int|
                0 <= j < ocs.len() ==> iteration_base_of(
                    g,
                    raws[j]@,
                    (#[trigger] ocs[j]).base_duration,
                )
            &&& results_of_outcomes(g, ocs, res)
        }
}

/// Mapping a function over two sequences with the same entries gives
/// sequences with the same entries.
proof fn lemma_map_values_multiset<A, B>(s1: Seq<A>, s2: Seq<A>, f: spec_fn(A) -> B)
    requires
        s1.to_multiset() == s2.to_multiset(),
    ensures
        s1.map_values(f).to_multiset() == s2.map_values(f).to_multiset(),
    decreases s1.len(),
{
    broadcast use vstd::multiset::group_multiset_axioms;

    if s1.len() > 0 {
        let x = s1.last();
        assert(s1[s1.len() - 1] == x);
        assert(s1.contains(x));
        assert(s1.to_multiset().count(x) > 0);
        assert(s2.to_multiset().count(x) > 0);
        assert(s2.contains(x));
        let i = choose|i: int| 0 <= i < s2.len() && s2[i] == x;
        assert(s1.drop_last().push(x) =~= s1);
        assert(s1.drop_last().to_multiset().insert(x) =~= s1.to_multiset());
        assert(s2.remove(i).to_multiset() =~= s2.to_multiset().remove(x));
        assert(s1.drop_last().to_multiset() =~= s2.remove(i).to_multiset()) by {
            assert forall|y: A|
                s1.drop_last().to_multiset().count(y) == s2.remove(i).to_multiset().count(
                    y,
                ) by {
                assert(s1.drop_last().to_multiset().insert(x).count(y) == s1.to_multiset().count(
                    y,
                ));
            }
        }
        lemma_map_values_multiset(s1.drop_last(), s2.remove(i), f);
        assert(s1.map_values(f) =~= s1.drop_last().map_values(f).push(f(x)));
        assert(s2.remove(i).map_values(f) =~= s2.map_values(f).remove(i));
        assert(s2.map_values(f).remove(i).to_multiset() =~= s2.map_values(f).to_multiset().remove(
            f(x),
        ));
        assert(s1.map_values(f).to_multiset() =~= s1.drop_last().map_values(
            f,
        ).to_multiset().insert(f(x)));
        assert(s2.map_values(f).to_multiset().count(f(x)) > 0) by {
            assert(s2.map_values(f)[i] == f(x));
            assert(s2.map_values(f).contains(f(x)));
        }
        assert forall|y: B|
            s1.map_values(f).to_multiset().count(y) == s2.map_values(f).to_multiset().count(
                y,
            ) by {
            assert(s2.map_values(f).to_multiset().remove(f(x)).insert(f(x)).count(y) == s2
                .map_values(f).to_multiset().count(y));
        }
        assert(s1.map_values(f).to_multiset() =~= s2.map_values(f).to_multiset());
    } else {
        assert(s1.to_multiset().len() == 0);
        assert(s2.len() == s2.to_multiset().len());
        assert(s1.map_values(f) =~= Seq::<B>::empty());
        assert(s2.map_values(f) =~= Seq::<B>::empty());
    }
}

/// Merging the workers' outcome buffers in any order aggregates to the
/// same statistics: the statistics depend only on which outcomes were
/// recorded, never on the order they stand in.
pub proof fn lemma_merge_order_irrelevant(
    ocs1: Seq<IterationOutcome>,
    ocs2: Seq<IterationOutcome>,
    res: SimulationResults,
)
    requires
        stats_of(ocs1, res),
        ocs1.to_multiset() == ocs2.to_multiset(),
    ensures
        stats_of(ocs2, res),
{
    assert(ocs1.len() == ocs1.to_multiset().len());
    assert(ocs2.len() == ocs2.to_multiset().len());
    lemma_map_values_multiset(ocs1, ocs2, |o: IterationOutcome| o.final_duration);
    lemma_map_values_multiset(ocs1, ocs2, |o: IterationOutcome| o.base_duration);
    crate::stats::lemma_sum_permutation(
        ocs1.map_values(|o: IterationOutcome| o.base_duration),
        ocs2.map_values(|o: IterationOutcome| o.base_duration),
    );
    lemma_map_values_multiset(ocs1, ocs2, |o: IterationOutcome| o.invisible_tasks_duration);
    crate::stats::lemma_sum_permutation(
        ocs1.map_values(|o: IterationOutcome| o.invisible_tasks_duration),
        ocs2.map_values(|o: IterationOutcome| o.invisible_tasks_duration),
    );
    lemma_map_values_multiset(ocs1, ocs2, |o: IterationOutcome| o.system_risk_factor);
    crate::stats::lemma_sum_permutation(
        ocs1.map_values(|o: IterationOutcome| o.system_risk_factor),
        ocs2.map_values(|o: IterationOutcome| o.system_risk_factor),
    );
}

/// Consumes the recorded outcomes once: sorts the final durations, computes
/// the summary statistics, and derives the deterministic critical path from
/// the mean durations. Succeeds exactly when the graph is acyclic.
pub fn aggregate_outcomes(
    schedule: &mut ProjectSchedule,
    outcomes: &Vec<IterationOutcome>,
) -> (r: Result<SimulationResults, SimulationError>)
    requires
        old(schedule).graph_wf(),
        1 <= outcomes@.len() <= MAX_ITERATIONS,
        forall|j: int| 0 <= j < outcomes@.len() ==> outcome_bounded(#[trigger] outcomes@[j]),
    ensures
        final(schedule).tasks == old(schedule).tasks,
        final(schedule).dependencies == old(schedule).dependencies,
        r is Ok <==> acyclic(*old(schedule)),
        match r {
            Ok(res) => {
                &&& stats_of(outcomes@, res)
                &&& sorted_ids(res.critical_path@)
                &&& forall|p: int, q: int|
                    0 <= p < q < res.critical_path@.len() ==> (#[trigger] res.critical_path@[p])@
                        != (#[trigger] res.critical_path@[q])@
                &&& deterministic_critical_path(
                    *old(schedule),
                    res.critical_path@,
                    res.critical_path_duration,
                )
            },
            Err(SimulationError::CycleDetected { task_ids }) => exists|w: Seq<bool>|
                stalled_flags(*old(schedule), w) && ids_of_unfinished(
                    *old(schedule),
                    w,
                    task_ids@,
                ),
            _ => false,
        },
{
    let n_oc = outcomes.len();
    let mut finals: Vec<u64> = Vec::new();
    let mut bases: Vec<u64> = Vec::new();
    let mut hiddens: Vec<u64> = Vec::new();
    let mut risks: Vec<u64> = Vec::new();
    let mut j: usize = 0;
    while j < n_oc
        invariant
            n_oc == outcomes@.len(),
            j <= n_oc,
            forall|q: int| 0 <= q < outcomes@.len() ==> outcome_bounded(#[trigger] outcomes@[q]),
            finals@.len() == j,
            bases@.len() == j,
            hiddens@.len() == j,
            risks@.len() == j,
            forall|q: int|
                0 <= q < j ==> (#[trigger] finals@[q]) == outcomes@[q].final_duration,
            forall|q: int| 0 <= q < j ==> (#[trigger] bases@[q]) == outcomes@[q].base_duration,
            forall|q: int|
                0 <= q < j ==> (#[trigger] hiddens@[q]) == outcomes@[q].invisible_tasks_duration,
            forall|q: int|
                0 <= q < j ==> (#[trigger] risks@[q]) == outcomes@[q].system_risk_factor,
        decreases n_oc - j,
    {
        let oc = outcomes[j];
        finals.push(oc.final_duration);
        bases.push(oc.base_duration);
        hiddens.push(oc.invisible_tasks_duration);
        risks.push(oc.system_risk_factor);
        j += 1;
    }
    proof {
        assert(finals@ =~= outcomes@.map_values(|o: IterationOutcome| o.final_duration));
        assert(bases@ =~= outcomes@.map_values(|o: IterationOutcome| o.base_duration));
        assert(hiddens@ =~= outcomes@.map_values(
            |o: IterationOutcome| o.invisible_tasks_duration,
        ));
        assert(risks@ =~= outcomes@.map_values(|o: IterationOutcome| o.system_risk_factor));
        assert forall|q: int| 0 <= q < finals@.len() implies (#[trigger] finals@[q])
            <= MAX_FINAL_DURATION_MILLIS by {
            assert(outcome_bounded(outcomes@[q]));
        }
        assert forall|q: int| 0 <= q < bases@.len() implies (#[trigger] bases@[q])
            <= MAX_PROJECT_DURATION_MILLIS by {
            assert(outcome_bounded(outcomes@[q]));
        }
        assert forall|q: int| 0 <= q < hiddens@.len() implies (#[trigger] hiddens@[q])
            <= MAX_PROJECT_DURATION_MILLIS by {
            assert(outcome_bounded(outcomes@[q]));
        }
        assert forall|q: int| 0 <= q < risks@.len() implies (#[trigger] risks@[q])
            <= RISK_FACTOR_MAX_PERMILLE by {
            assert(outcome_bounded(outcomes@[q]));
        }
    }
    let ghost finals_pre = finals@;
    let sorted = sort_durations(finals);
    proof {
        assert forall|q: int| 0 <= q < sorted@.len() implies (#[trigger] sorted@[q])
            <= MAX_FINAL_DURATION_MILLIS by {
            assert(sorted@.contains(sorted@[q]));
            assert(sorted@.to_multiset().count(sorted@[q]) > 0);
            assert(finals_pre.to_multiset().count(sorted@[q]) > 0);
            assert(finals_pre.contains(sorted@[q]));
            let w = choose|w: int| 0 <= w < finals_pre.len() && finals_pre[w] == sorted@[q];
            assert(finals_pre[w] <= MAX_FINAL_DURATION_MILLIS);
        }
    }
    let mean = mean_durations(&sorted, Ghost(MAX_FINAL_DURATION_MILLIS));
    let median = sorted[n_oc / 2];
    let p80 = percentile_from_sorted(&sorted, 80);
    let p95 = percentile_from_sorted(&sorted, 95);
    let min = sorted[0];
    let max = sorted[n_oc - 1];
    let avg_base_duration = mean_durations(&bases, Ghost(MAX_PROJECT_DURATION_MILLIS));
    let avg_invisible_tasks = mean_durations(&hiddens, Ghost(MAX_PROJECT_DURATION_MILLIS));
    let avg_system_risk_factor = mean_durations(&risks, Ghost(RISK_FACTOR_MAX_PERMILLE));
    // The deterministic critical path: a fresh pass with every duration at
    // its mean.
    schedule.set_expected_durations();
    let ghost mid = *schedule;
    proof {
        lemma_same_graph_acyclic(mid, *old(schedule));
    }
    match schedule.calculate_schedule() {
        Ok(_pd) => {},
        Err(e) => {
            proof {
                if let SimulationError::CycleDetected { task_ids } = &e {
                    let w = choose|w: Seq<bool>|
                        stalled_flags(mid, w) && ids_of_unfinished(mid, w, task_ids@);
                    lemma_same_graph_stall(mid, *old(schedule), w, task_ids@);
                }
            }
            return Err(e);
        },
    };
    let (critical_path, cp_duration) = schedule.find_critical_path();
    let res = SimulationResults {
        durations: sorted,
        mean,
        median,
        p80,
        p95,
        min,
        max,
        avg_base_duration,
        avg_invisible_tasks,
        avg_system_risk_factor,
        critical_path,
        critical_path_duration: cp_duration,
    };
    proof {
        assert(res.durations@.to_multiset() == outcomes@.map_values(
            |o: IterationOutcome| o.final_duration,
        ).to_multiset());
        assert(schedule.task_durations@ =~= expected_durations(old(schedule).tasks@));
        assert(schedule_complete(
            *old(schedule),
            schedule.early_start@,
            schedule.early_finish@,
            schedule.task_durations@,
        ));
        assert(deterministic_critical_path(*old(schedule), res.critical_path@, cp_duration));
    }
    Ok(res)
}

/// The Monte Carlo driver: a configured number of independent iterations.
pub struct MonteCarloSimulator {
    pub iterations: usize,
}

impl MonteCarloSimulator {
    /// A driver for the given iteration count. A zero count is rejected when
    /// the simulation runs.
    pub fn new(iterations: usize) -> (s: MonteCarloSimulator)
        ensures
            s.iterations == iterations,
    {
        MonteCarloSimulator { iterations }
    }

    /// Runs the whole simulation: one iteration per row of raw normal
    /// draws, all sharing one random stream for the overlay factors, then
    /// the aggregation. Fails on a zero iteration count before any work,
    /// and on a cyclic graph; otherwise returns the aggregate of one valid
    /// outcome per iteration.
    pub fn run_simulation(
        &self,
        schedule: &mut ProjectSchedule,
        raw_draws: &Vec<Vec<u64>>,
        rng: &mut rand::rngs::StdRng,
    ) -> (r: Result<SimulationResults, SimulationError>)
        requires
            old(schedule).graph_wf(),
            self.iterations <= MAX_ITERATIONS,
            raw_draws@.len() == self.iterations,
            forall|it: int|
                0 <= it < raw_draws@.len() ==> (#[trigger] raw_draws@[it])@.len() == old(
                    schedule,
                ).tasks@.len(),
        ensures
            final(schedule).tasks == old(schedule).tasks,
            final(schedule).dependencies == old(schedule).dependencies,
            r is Ok <==> (self.iterations > 0 && acyclic(*old(schedule))),
            match r {
                Ok(res) => valid_results(*old(schedule), raw_draws@, res),
                Err(SimulationError::InvalidConfiguration) => self.iterations == 0,
                Err(SimulationError::CycleDetected { task_ids }) => self.iterations > 0 && exists|
                    w: Seq<bool>,
                |
                    stalled_flags(*old(schedule), w) && ids_of_unfinished(
                        *old(schedule),
                        w,
                        task_ids@,
                    ),
                _ => false,
            },
    {
        if self.iterations == 0 {
            return Err(SimulationError::InvalidConfiguration);
        }
        let mut outcomes: Vec<IterationOutcome> = Vec::new();
        let mut it: usize = 0;
        while it < self.iterations
            invariant
                schedule.graph_wf(),
                schedule.tasks == old(schedule).tasks,
                schedule.dependencies == old(schedule).dependencies,
                it <= self.iterations,
                self.iterations <= MAX_ITERATIONS,
                raw_draws@.len() == self.iterations,
                forall|q: int|
                    0 <= q < raw_draws@.len() ==> (#[trigger] raw_draws@[q])@.len()
                        == schedule.tasks@.len(),
                outcomes@.len() == it,
                forall|j: int|
                    0 <= j < it ==> valid_outcome(*old(schedule), #[trigger] outcomes@[j]),
                forall|j: int|
                    0 <= j < it ==> iteration_base_of(
                        *old(schedule),
                        raw_draws@[j]@,
                        (#[trigger] outcomes@[j]).base_duration,
                    ),
                it > 0 ==> acyclic(*old(schedule)),
            decreases self.iterations - it,
        {
            let ghost mid = *schedule;
            match simulate_iteration(schedule, &raw_draws[it], rng) {
                Ok(oc) => {
                    proof {
                        lemma_same_graph_valid_outcome(mid, *old(schedule), oc);
                        lemma_same_graph_iteration_base(
                            mid,
                            *old(schedule),
                            raw_draws@[it as int]@,
                            oc.base_duration,
                        );
                        lemma_same_graph_acyclic(mid, *old(schedule));
                    }
                    outcomes.push(oc);
                },
                Err(e) => {
                    proof {
                        lemma_same_graph_acyclic(mid, *old(schedule));
                        if let SimulationError::CycleDetected { task_ids } = &e {
                            let w = choose|w: Seq<bool>|
                                stalled_flags(mid, w) && ids_of_unfinished(mid, w, task_ids@);
                            lemma_same_graph_stall(mid, *old(schedule), w, task_ids@);
                        }
                    }
                    return Err(e);
                },
            }
            it += 1;
        }
        let ghost mid2 = *schedule;
        let res = match aggregate_outcomes(schedule, &outcomes) {
            Ok(res) => res,
            Err(e) => {
                proof {
                    lemma_same_graph_acyclic(mid2, *old(schedule));
                    assert(false);
                }
                return Err(e);
            },
        };
        proof {
            lemma_same_graph_acyclic(mid2, *old(schedule));
            lemma_same_graph_path(mid2, *old(schedule), res.critical_path@,
                res.critical_path_duration);
            assert(results_of_outcomes(*old(schedule), outcomes@, res));
        }
        Ok(res)
    }
}

/// Acyclicity depends only on the graph part, which the passes never touch.
proof fn lemma_same_graph_acyclic(a: ProjectSchedule, b: ProjectSchedule)
    requires
        a.tasks == b.tasks,
        a.dependencies == b.dependencies,
    ensures
        acyclic(a) == acyclic(b),
{
    assert forall|pending: Set<int>| #[trigger] crate::scheduler::cycle_witness(a, pending)
        == crate::scheduler::cycle_witness(b, pending) by {
        assert(crate::scheduler::pending_blocked(a, pending) == crate::scheduler::pending_blocked(
            b,
            pending,
        )) by {
            assert forall|i: int| #[trigger] crate::scheduler::blocked_in(a, pending, i)
                == crate::scheduler::blocked_in(b, pending, i) by {
            }
        }
    }
    if acyclic(a) {
        assert forall|pending: Set<int>| !#[trigger] crate::scheduler::cycle_witness(
            b,
            pending,
        ) by {
            assert(!crate::scheduler::cycle_witness(a, pending));
        }
        assert(acyclic(b));
    }
    if acyclic(b) {
        assert forall|pending: Set<int>| !#[trigger] crate::scheduler::cycle_witness(
            a,
            pending,
        ) by {
            assert(!crate::scheduler::cycle_witness(b, pending));
            assert(crate::scheduler::cycle_witness(a, pending) == crate::scheduler::cycle_witness(
                b,
                pending,
            ));
        }
        assert(acyclic(a));
    }
}

/// A valid outcome of a schedule is a valid outcome of any schedule with
/// the same graph part.
proof fn lemma_same_graph_valid_outcome(a: ProjectSchedule, b: ProjectSchedule, oc: IterationOutcome)
    requires
        a.tasks == b.tasks,
        a.dependencies == b.dependencies,
        valid_outcome(a, oc),
    ensures
        valid_outcome(b, oc),
{
    let (durs, es, ef) = choose|durs: Seq<u64>, es: Seq<u64>, ef: Seq<u64>|
        {
            &&& sampled_durations(a.tasks@, durs)
            &&& schedule_complete(a, es, ef, durs)
            &&& is_project_duration(ef, oc.base_duration)
            &&& oc.base_duration <= MAX_PROJECT_DURATION_MILLIS
        };
    assert(schedule_complete(b, es, ef, durs));
    assert(base_from_sample(b, oc.base_duration));
}

/// A stall witness of a schedule is one of any schedule with the same graph
/// part.
proof fn lemma_same_graph_stall(
    a: ProjectSchedule,
    b: ProjectSchedule,
    w: Seq<bool>,
    ids: Seq<String>,
)
    requires
        a.tasks == b.tasks,
        a.dependencies == b.dependencies,
        stalled_flags(a, w),
        ids_of_unfinished(a, w, ids),
    ensures
        stalled_flags(b, w),
        ids_of_unfinished(b, w, ids),
{
    assert forall|i: int|
        0 <= i < w.len() && !(#[trigger] w[i]) implies crate::scheduler::waits_unfinished(
        b.dependencies@,
        w,
        i,
    ) by {
        assert(crate::scheduler::waits_unfinished(a.dependencies@, w, i));
    }
}

/// A scheduled base duration of a draw row carries over to any schedule
/// with the same graph part.
proof fn lemma_same_graph_iteration_base(
    a: ProjectSchedule,
    b: ProjectSchedule,
    raws: Seq<u64>,
    base: u64,
)
    requires
        a.tasks == b.tasks,
        a.dependencies == b.dependencies,
        iteration_base_of(a, raws, base),
    ensures
        iteration_base_of(b, raws, base),
{
    let (es, ef) = choose|es: Seq<u64>, ef: Seq<u64>|
        {
            &&& schedule_complete(a, es, ef, durations_of_draws(a.tasks@, raws))
            &&& is_project_duration(ef, base)
        };
    assert(schedule_complete(b, es, ef, durations_of_draws(b.tasks@, raws)));
}

/// A deterministic critical path of a schedule is one of any schedule with
/// the same graph part.
proof fn lemma_same_graph_path(a: ProjectSchedule, b: ProjectSchedule, path: Seq<String>, pd: u64)
    requires
        a.tasks == b.tasks,
        a.dependencies == b.dependencies,
        deterministic_critical_path(a, path, pd),
    ensures
        deterministic_critical_path(b, path, pd),
{
    let (es, ef) = choose|es: Seq<u64>, ef: Seq<u64>|
        {
            &&& schedule_complete(a, es, ef, expected_durations(a.tasks@))
            &&& is_project_duration(ef, pd)
            &&& forall|p: int|
                0 <= p < path.len() ==> critical_id(a.tasks@, ef, pd, (#[trigger] path[p])@)
            &&& forall|i: int|
                0 <= i < ef.len() && (#[trigger] ef[i]) + crate::models::CRITICAL_TOLERANCE_MILLIS
                    > pd ==> id_listed(path, a.tasks@[i].id@)
        };
    assert(schedule_complete(b, es, ef, expected_durations(b.tasks@)));
}

} // verus!
