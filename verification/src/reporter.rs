//! The arithmetic behind the report.
//!
//! Printing itself is the surrounding application's business; this module
//! computes the derived figures the report shows — buffers against the
//! mean, the reference buffer, the recommended client estimate, and the
//! rounded day/work-week conversions — each with its exact formula.

use vstd::prelude::*;

use crate::models::{
    ProjectSchedule, SimulationResults, Task, MAX_FINAL_DURATION_MILLIS,
    MAX_PROJECT_DURATION_MILLIS, PERMILLE, RISK_FACTOR_MAX_PERMILLE, RISK_FACTOR_MIN_PERMILLE,
};

verus! {

/// Task `a` ranks at or before task `b` in the risk listing: larger spread
/// first, ties by task index.
pub open spec fn risk_before(tasks: Seq<Task>, a: int, b: int) -> bool {
    ||| tasks[a].stddev > tasks[b].stddev
    ||| (tasks[a].stddev == tasks[b].stddev && a <= b)
}

/// Index `i` occurs in `s`.
pub open spec fn index_listed(s: Seq<usize>, i: int) -> bool {
    exists|p: int| 0 <= p < s.len() && (#[trigger] s[p]) == i
}

/// Namespace of the report computations.
pub struct SimulationReporter {}

impl SimulationReporter {
    /// Millis rounded up to whole time units (days).
    pub fn days_ceil(millis: u64) -> (r: u64)
        requires
            millis <= MAX_FINAL_DURATION_MILLIS,
        ensures
            r == (millis + 999) / 1000,
    {
        (millis + 999) / 1000
    }

    /// Millis rounded up to whole five-day work weeks.
    pub fn work_weeks_ceil(millis: u64) -> (r: u64)
        requires
            millis <= MAX_FINAL_DURATION_MILLIS,
        ensures
            r == (millis + 4999) / 5000,
    {
        (millis + 4999) / 5000
    }

    /// How far a percentile stands above (or below) the mean, in millis.
    pub fn buffer_above_mean(percentile: u64, mean: u64) -> (r: i64)
        requires
            percentile <= MAX_FINAL_DURATION_MILLIS,
            mean <= MAX_FINAL_DURATION_MILLIS,
        ensures
            r == percentile - mean,
    {
        percentile as i64 - mean as i64
    }

    /// The 35% reference buffer above the mean.
    pub fn reference_buffer(mean: u64) -> (r: u64)
        requires
            mean <= MAX_FINAL_DURATION_MILLIS,
        ensures
            r == mean * 35 / 100,
    {
        mean * 35 / 100
    }

    /// The recommended client estimate: the 80th percentile plus the
    /// average hidden-task amount, scaled by the average risk multiplier.
    pub fn recommended_duration(p80: u64, avg_hidden: u64, avg_risk_pm: u64) -> (r: u64)
        requires
            p80 <= MAX_FINAL_DURATION_MILLIS,
            avg_hidden <= MAX_PROJECT_DURATION_MILLIS,
            avg_risk_pm <= RISK_FACTOR_MAX_PERMILLE,
        ensures
            r == (p80 + avg_hidden) * avg_risk_pm / (PERMILLE as int),
    {
        proof {
            assert((p80 + avg_hidden) as int * avg_risk_pm as int <= (
            MAX_FINAL_DURATION_MILLIS as int + MAX_PROJECT_DURATION_MILLIS as int) * 1350)
                by (nonlinear_arith)
                requires
                    p80 as int + avg_hidden as int <= MAX_FINAL_DURATION_MILLIS as int
                        + MAX_PROJECT_DURATION_MILLIS as int,
                    avg_risk_pm <= 1350,
            ;
            vstd::arithmetic::div_mod::lemma_div_is_ordered(
                (p80 + avg_hidden) as int * avg_risk_pm as int,
                (MAX_FINAL_DURATION_MILLIS as int + MAX_PROJECT_DURATION_MILLIS as int) * 1350,
                1000,
            );
        }
        let wide = (p80 as u128 + avg_hidden as u128) * avg_risk_pm as u128 / PERMILLE as u128;
        wide as u64
    }

    /// The buffer to add for internal planning on top of the recommended
    /// estimate: the distance to the 95th percentile, and at least one work
    /// week.
    pub fn internal_buffer(p95: u64, recommended: u64) -> (r: u64)
        ensures
            p95 > recommended ==> r == if p95 - recommended > 5000 {
                (p95 - recommended) as int
            } else {
                5000
            },
            p95 <= recommended ==> r == 5000,
    {
        if p95 > recommended {
            let diff = p95 - recommended;
            if diff > 5000 {
                diff
            } else {
                5000
            }
        } else {
            5000
        }
    }

    /// The average risk multiplier's increase over one, in permille.
    pub fn risk_increase_permille(avg_risk_pm: u64) -> (r: u64)
        requires
            RISK_FACTOR_MIN_PERMILLE <= avg_risk_pm,
        ensures
            r == avg_risk_pm - PERMILLE,
    {
        avg_risk_pm - PERMILLE
    }

    /// Ranks the tasks for the risk listing: every task index exactly once,
    /// highest uncertainty (spread) first, ties in task order. The caller
    /// takes however many top entries it wants to show.
    pub fn rank_tasks_by_uncertainty(schedule: &ProjectSchedule) -> (r: Vec<usize>)
        requires
            schedule.graph_wf(),
        ensures
            r@.len() == schedule.tasks@.len(),
            forall|p: int| 0 <= p < r@.len() ==> (#[trigger] r@[p]) < schedule.tasks@.len(),
            forall|p: int, q: int| 0 <= p < q < r@.len() ==> r@[p] != r@[q],
            forall|i: int| 0 <= i < schedule.tasks@.len() ==> index_listed(r@, i),
            forall|p: int, q: int|
                0 <= p < q < r@.len() ==> risk_before(
                    schedule.tasks@,
                    (#[trigger] r@[p]) as int,
                    (#[trigger] r@[q]) as int,
                ),
    {
        let n = schedule.tasks.len();
        let mut rest: Vec<usize> = Vec::new();
        let mut i: usize = 0;
        while i < n
            invariant
                i <= n,
                rest@.len() == i,
                forall|p: int| 0 <= p < i ==> (#[trigger] rest@[p]) == p,
            decreases n - i,
        {
            rest.push(i);
            i += 1;
        }
        proof {
            assert forall|i2: int| 0 <= i2 < n implies index_listed(rest@, i2) by {
                assert(rest@[i2] == i2);
            }
        }
        let mut out: Vec<usize> = Vec::new();
        while rest.len() > 0
            invariant
                n == schedule.tasks@.len(),
                out@.len() + rest@.len() == n,
                forall|p: int| 0 <= p < out@.len() ==> (#[trigger] out@[p]) < n,
                forall|q: int| 0 <= q < rest@.len() ==> (#[trigger] rest@[q]) < n,
                forall|p: int, q: int| 0 <= p < q < out@.len() ==> out@[p] != out@[q],
                forall|p: int, q: int| 0 <= p < q < rest@.len() ==> rest@[p] != rest@[q],
                forall|p: int, q: int|
                    0 <= p < out@.len() && 0 <= q < rest@.len() ==> (#[trigger] out@[p]) != (
                    #[trigger] rest@[q]),
                forall|i2: int|
                    0 <= i2 < n ==> index_listed(out@, i2) || index_listed(rest@, i2),
                forall|p: int, q: int|
                    0 <= p < q < out@.len() ==> risk_before(
                        schedule.tasks@,
                        (#[trigger] out@[p]) as int,
                        (#[trigger] out@[q]) as int,
                    ),
                forall|p: int, q: int|
                    0 <= p < out@.len() && 0 <= q < rest@.len() ==> risk_before(
                        schedule.tasks@,
                        (#[trigger] out@[p]) as int,
                        (#[trigger] rest@[q]) as int,
                    ),
            decreases rest@.len(),
        {
            // Smallest remaining entry under the risk order.
            let m = rest.len();
            let mut best: usize = 0;
            let mut j: usize = 1;
            while j < m
                invariant
                    n == schedule.tasks@.len(),
                    m == rest@.len(),
                    best < j <= m,
                    forall|q: int| 0 <= q < rest@.len() ==> (#[trigger] rest@[q]) < n,
                    forall|q: int|
                        0 <= q < j ==> risk_before(
                            schedule.tasks@,
                            rest@[best as int] as int,
                            (#[trigger] rest@[q]) as int,
                        ),
                decreases m - j,
            {
                let a = rest[j];
                let b = rest[best];
                let jb = schedule.tasks[a].stddev > schedule.tasks[b].stddev || (
                schedule.tasks[a].stddev == schedule.tasks[b].stddev && a <= b);
                if jb {
                    best = j;
                }
                j += 1;
            }
            let ghost rest_pre = rest@;
            let ghost out_pre = out@;
            let v = rest.remove(best);
            out.push(v);
            proof {
                assert forall|p: int, q: int|
                    0 <= p < q < out@.len() implies out@[p] != out@[q] && risk_before(
                    schedule.tasks@,
                    (#[trigger] out@[p]) as int,
                    (#[trigger] out@[q]) as int,
                ) by {
                    if q < out_pre.len() {
                        assert(out@[p] == out_pre[p] && out@[q] == out_pre[q]);
                    } else {
                        assert(out@[q] == rest_pre[best as int]);
                        assert(out@[p] == out_pre[p]);
                    }
                }
                assert forall|p: int, q: int|
                    0 <= p < out@.len() && 0 <= q < rest@.len() implies (#[trigger] out@[p]) != (
                #[trigger] rest@[q]) && risk_before(
                    schedule.tasks@,
                    out@[p] as int,
                    rest@[q] as int,
                ) by {
                    let w = if q < best { rest_pre[q] } else { rest_pre[q + 1] };
                    assert(rest@[q] == w);
                    if p < out_pre.len() {
                        assert(out@[p] == out_pre[p]);
                    } else {
                        assert(out@[p] == rest_pre[best as int]);
                        if q < best {
                            assert(rest_pre[q] != rest_pre[best as int]);
                        } else {
                            assert(rest_pre[q + 1] != rest_pre[best as int]);
                        }
                    }
                }
                assert forall|p: int, q: int|
                    0 <= p < q < rest@.len() implies rest@[p] != rest@[q] by {
                    let wp = if p < best { rest_pre[p] } else { rest_pre[p + 1] };
                    let wq = if q < best { rest_pre[q] } else { rest_pre[q + 1] };
                    assert(rest@[p] == wp && rest@[q] == wq);
                }
                assert forall|i2: int|
                    0 <= i2 < n implies index_listed(out@, i2) || index_listed(rest@, i2) by {
                    if index_listed(out_pre, i2) {
                        let p = choose|p: int|
                            0 <= p < out_pre.len() && (#[trigger] out_pre[p]) == i2;
                        assert(out@[p] == i2);
                    } else {
                        let q = choose|q: int|
                            0 <= q < rest_pre.len() && (#[trigger] rest_pre[q]) == i2;
                        if q == best {
                            assert(out@[out_pre.len() as int] == i2);
                        } else if q < best {
                            assert(rest@[q] == i2);
                        } else {
                            assert(rest@[q - 1] == i2);
                        }
                    }
                }
            }
        }
        proof {
            assert forall|i2: int| 0 <= i2 < n implies index_listed(out@, i2) by {
                assert(!index_listed(rest@, i2));
            }
        }
        out
    }

    /// The figures of one report line: buffers of the 80th and 95th
    /// percentiles over the mean.
    pub fn percentile_buffers(results: &SimulationResults) -> (r: (i64, i64))
        requires
            results.p80 <= MAX_FINAL_DURATION_MILLIS,
            results.p95 <= MAX_FINAL_DURATION_MILLIS,
            results.mean <= MAX_FINAL_DURATION_MILLIS,
        ensures
            r.0 == results.p80 - results.mean,
            r.1 == results.p95 - results.mean,
    {
        (
            Self::buffer_above_mean(results.p80, results.mean),
            Self::buffer_above_mean(results.p95, results.mean),
        )
    }
}

} // verus!
