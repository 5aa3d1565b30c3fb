//! Data model: tasks, the dependency graph, simulation results, and errors.
//!
//! All durations are kept in fixed-point "millis": one scheduling time unit
//! (a day, say) is `MILLIS_PER_UNIT` millis. Stochastic factors are kept in
//! permille, so a risk multiplier of 1.35 is stored as 1350.

use vstd::prelude::*;

verus! {

/// Fixed-point scale: millis per scheduling time unit.
pub const MILLIS_PER_UNIT: u64 = 1000;

/// Floor for a sampled task duration: 0.1 time units. Sampled durations are
/// never zero or negative.
pub const MIN_SAMPLED_DURATION_MILLIS: u64 = 100;

/// Largest representable duration of a single task (ten million time units).
pub const MAX_DURATION_MILLIS: u64 = 10_000_000_000;

/// Largest number of tasks in one graph.
pub const MAX_TASK_COUNT: usize = 1_000_000;

/// Largest possible project duration: `MAX_TASK_COUNT * MAX_DURATION_MILLIS`.
pub const MAX_PROJECT_DURATION_MILLIS: u64 = 10_000_000_000_000_000;

/// Scale of the stochastic adjustment factors: 1000 permille is a factor of
/// one.
pub const PERMILLE: u64 = 1000;

/// Largest possible final duration after the risk overlay:
/// `(MAX_PROJECT_DURATION_MILLIS * 1150 / 1000) * 1350 / 1000`.
pub const MAX_FINAL_DURATION_MILLIS: u64 = 15_525_000_000_000_000;

/// Hidden-task inflation factor is drawn uniformly from [0.10, 0.15].
pub const HIDDEN_FACTOR_MIN_PERMILLE: u64 = 100;
pub const HIDDEN_FACTOR_MAX_PERMILLE: u64 = 150;

/// Systemic risk multiplier is drawn uniformly from [1.00, 1.35].
pub const RISK_FACTOR_MIN_PERMILLE: u64 = 1000;
pub const RISK_FACTOR_MAX_PERMILLE: u64 = 1350;

/// A task finishing within this absolute tolerance (0.001 time units) of the
/// project duration lies on the critical path.
pub const CRITICAL_TOLERANCE_MILLIS: u64 = 1;

/// Largest accepted iteration count for one simulation run.
pub const MAX_ITERATIONS: usize = 100_000_000;

/// Structural and configuration errors. None of these is retried: each is
/// discovered before or during a single validation or scheduling pass and is
/// fatal to the run.
#[derive(Debug, PartialEq, Eq)]
pub enum SimulationError {
    /// A predecessor id has no corresponding task; detected when the graph is
    /// built.
    UnresolvedDependency { task_id: String, predecessor_id: String },
    /// The dependency graph is not acyclic; detected when the forward pass
    /// terminates with unprocessed tasks remaining. Carries the ids of the
    /// tasks that never became ready.
    CycleDetected { task_ids: Vec<String> },
    /// A graph with zero tasks: no schedule or percentile is meaningful.
    EmptyGraph,
    /// A non-positive iteration count.
    InvalidConfiguration,
}

/// One task: a three-point (PERT) duration estimate plus the derived mean and
/// standard deviation, all in millis.
#[derive(Debug)]
pub struct Task {
    pub id: String,
    pub name: String,
    pub optimistic: u64,
    pub most_likely: u64,
    pub pessimistic: u64,
    /// Mean duration; derived as `(optimistic + 4*most_likely + pessimistic) / 6`
    /// unless supplied.
    pub expected: u64,
    /// Duration spread; derived as `(pessimistic - optimistic) / 6` unless
    /// supplied.
    pub stddev: u64,
}

impl Task {
    /// Task invariant: the mean duration is positive and representable.
    pub open spec fn wf(self) -> bool {
        1 <= self.expected <= MAX_DURATION_MILLIS
    }

    /// Builds a task, deriving the mean and standard deviation from the
    /// three-point estimate.
    pub fn new(id: String, name: String, optimistic: u64, most_likely: u64, pessimistic: u64) -> (t:
        Task)
        requires
            optimistic <= pessimistic <= MAX_DURATION_MILLIS,
            most_likely <= MAX_DURATION_MILLIS,
            optimistic + 4 * most_likely + pessimistic >= 6,
        ensures
            t.id == id,
            t.name == name,
            t.optimistic == optimistic,
            t.most_likely == most_likely,
            t.pessimistic == pessimistic,
            t.expected == (optimistic + 4 * most_likely + pessimistic) as int / 6,
            t.stddev == (pessimistic - optimistic) as int / 6,
            t.wf(),
    {
        let expected: u64 = (optimistic + 4 * most_likely + pessimistic) / 6;
        let stddev: u64 = (pessimistic - optimistic) / 6;
        Task { id, name, optimistic, most_likely, pessimistic, expected, stddev }
    }

    /// Builds a task from a three-point estimate together with an already
    /// supplied mean and standard deviation.
    pub fn with_estimates(
        id: String,
        name: String,
        optimistic: u64,
        most_likely: u64,
        pessimistic: u64,
        expected: u64,
        stddev: u64,
    ) -> (t: Task)
        requires
            1 <= expected <= MAX_DURATION_MILLIS,
        ensures
            t.id == id,
            t.name == name,
            t.optimistic == optimistic,
            t.most_likely == most_likely,
            t.pessimistic == pessimistic,
            t.expected == expected,
            t.stddev == stddev,
            t.wf(),
    {
        Task { id, name, optimistic, most_likely, pessimistic, expected, stddev }
    }
}

/// One Monte Carlo iteration's record: the scheduler's base project
/// duration, the hidden-task inflation amount added to it, the systemic
/// risk multiplier (in permille), and the final adjusted duration.
#[derive(Debug, Clone, Copy, PartialEq, Eq, Structural)]
pub struct IterationOutcome {
    pub base_duration: u64,
    pub invisible_tasks_duration: u64,
    pub system_risk_factor: u64,
    pub final_duration: u64,
}

/// The aggregate of a whole run: the ascending-sorted final durations,
/// their summary statistics (all in millis; the average risk factor in
/// permille), and the deterministic critical path computed from the mean
/// durations.
#[derive(Debug)]
pub struct SimulationResults {
    pub durations: Vec<u64>,
    pub mean: u64,
    pub median: u64,
    pub p80: u64,
    pub p95: u64,
    pub min: u64,
    pub max: u64,
    pub avg_base_duration: u64,
    pub avg_invisible_tasks: u64,
    pub avg_system_risk_factor: u64,
    pub critical_path: Vec<String>,
    pub critical_path_duration: u64,
}

/// The dependency graph together with the transient per-iteration schedule
/// state. The graph part (`tasks`, `dependencies`) is built once by
/// [`ProjectSchedule::from_tasks`] and never changed afterwards; the duration
/// and early-start/early-finish vectors are overwritten on every scheduling
/// pass.
///
/// Task ids are interned: `dependencies[i]` holds the indices into `tasks` of
/// the predecessors of task `i`.
#[derive(Debug)]
pub struct ProjectSchedule {
    pub tasks: Vec<Task>,
    pub dependencies: Vec<Vec<usize>>,
    pub task_durations: Vec<u64>,
    pub early_start: Vec<u64>,
    pub early_finish: Vec<u64>,
}

/// No two tasks share an id.
pub open spec fn distinct_ids(tasks: Seq<Task>) -> bool {
    forall|i: int, j: int| 0 <= i < j < tasks.len() ==> tasks[i].id@ != tasks[j].id@
}

/// Some task carries this id.
pub open spec fn id_resolvable(tasks: Seq<Task>, id: Seq<char>) -> bool {
    exists|j: int| 0 <= j < tasks.len() && (#[trigger] tasks[j].id@) == id
}

/// Every predecessor id names some task.
pub open spec fn all_resolvable(tasks: Seq<Task>, preds: Seq<Vec<String>>) -> bool {
    forall|i: int, k: int|
        0 <= i < preds.len() && 0 <= k < preds[i]@.len() ==> id_resolvable(
            tasks,
            #[trigger] preds[i]@[k]@,
        )
}

impl ProjectSchedule {
    /// Number of tasks in the graph.
    pub open spec fn task_count(self) -> int {
        self.tasks@.len() as int
    }

    /// Predecessor indices of task `i`.
    #[verifier::inline]
    pub open spec fn preds_of(self, i: int) -> Seq<usize> {
        self.dependencies@[i]@
    }

    /// Graph invariant: non-empty and bounded, one predecessor list per task,
    /// every task well formed, every predecessor index in range, ids unique.
    pub open spec fn graph_wf(self) -> bool {
        &&& 1 <= self.tasks@.len() <= MAX_TASK_COUNT
        &&& self.dependencies@.len() == self.tasks@.len()
        &&& forall|i: int| 0 <= i < self.task_count() ==> (#[trigger] self.tasks@[i]).wf()
        &&& forall|i: int, k: int|
            0 <= i < self.task_count() && 0 <= k < self.preds_of(i).len() ==> (
            #[trigger] self.preds_of(i)[k]) < self.tasks@.len()
        &&& distinct_ids(self.tasks@)
    }

    /// A complete, bounded duration assignment: one duration per task.
    pub open spec fn durations_wf(self) -> bool {
        &&& self.task_durations@.len() == self.tasks@.len()
        &&& forall|i: int|
            0 <= i < self.task_count() ==> #[trigger] self.task_durations@[i]
                <= MAX_DURATION_MILLIS
    }

    /// Builds the graph from tasks and their predecessor id lists, resolving
    /// every id to a task index. Rejects an empty task set and any
    /// predecessor id that names no task. The caller supplies tasks with
    /// unique ids, as a validated loader produces them.
    pub fn from_tasks(tasks: Vec<Task>, predecessors: Vec<Vec<String>>) -> (r: Result<
        ProjectSchedule,
        SimulationError,
    >)
        requires
            tasks@.len() == predecessors@.len(),
            tasks@.len() <= MAX_TASK_COUNT,
            forall|i: int| 0 <= i < tasks@.len() ==> (#[trigger] tasks@[i]).wf(),
            distinct_ids(tasks@),
        ensures
            r is Ok <==> (tasks@.len() >= 1 && all_resolvable(tasks@, predecessors@)),
            match r {
                Ok(g) => {
                    &&& g.graph_wf()
                    &&& g.tasks@ == tasks@
                    &&& g.dependencies@.len() == tasks@.len()
                    &&& forall|i: int|
                        0 <= i < tasks@.len() ==> (#[trigger] g.dependencies@[i])@.len()
                            == predecessors@[i]@.len()
                    &&& forall|i: int, k: int|
                        0 <= i < tasks@.len() && 0 <= k < predecessors@[i]@.len()
                            ==> tasks@[(#[trigger] g.preds_of(i)[k]) as int].id@
                            == predecessors@[i]@[k]@
                    &&& g.task_durations@.len() == 0
                    &&& g.early_start@.len() == 0
                    &&& g.early_finish@.len() == 0
                },
                Err(SimulationError::EmptyGraph) => tasks@.len() == 0,
                Err(SimulationError::UnresolvedDependency { task_id, predecessor_id }) => {
                    &&& exists|i: int, k: int|
                        0 <= i < predecessors@.len() && 0 <= k < predecessors@[i]@.len()
                            && #[trigger] predecessors@[i]@[k]@ == predecessor_id@ && tasks@[i].id@
                            == task_id@
                    &&& forall|j: int| 0 <= j < tasks@.len() ==> tasks@[j].id@ != predecessor_id@
                },
                _ => false,
            },
    {
        let n = tasks.len();
        if n == 0 {
            return Err(SimulationError::EmptyGraph);
        }
        let mut dependencies: Vec<Vec<usize>> = Vec::new();
        let mut i: usize = 0;
        while i < n
            invariant
                n == tasks@.len() == predecessors@.len(),
                i <= n,
                dependencies@.len() == i,
                forall|p: int|
                    0 <= p < i ==> (#[trigger] dependencies@[p])@.len()
                        == predecessors@[p]@.len(),
                forall|p: int, k: int|
                    0 <= p < i && 0 <= k < predecessors@[p]@.len() ==> (
                    #[trigger] dependencies@[p]@[k]) < n && tasks@[dependencies@[p]@[k] as int].id@
                        == predecessors@[p]@[k]@,
            decreases n - i,
        {
            let m = predecessors[i].len();
            let mut resolved: Vec<usize> = Vec::new();
            let mut k: usize = 0;
            while k < m
                invariant
                    n == tasks@.len() == predecessors@.len(),
                    i < n,
                    m == predecessors@[i as int]@.len(),
                    k <= m,
                    resolved@.len() == k,
                    forall|q: int|
                        0 <= q < k ==> (#[trigger] resolved@[q]) < n && tasks@[resolved@[q] as int].id@
                            == predecessors@[i as int]@[q]@,
                decreases m - k,
            {
                match find_task_index(&tasks, &predecessors[i][k]) {
                    Some(j) => resolved.push(j),
                    None => {
                        proof {
                            let ii = i as int;
                            let kk = k as int;
                            if id_resolvable(tasks@, predecessors@[ii]@[kk]@) {
                                let j = choose|j: int|
                                    0 <= j < tasks@.len() && (#[trigger] tasks@[j].id@)
                                        == predecessors@[ii]@[kk]@;
                                assert(false);
                            }
                        }
                        return Err(
                            SimulationError::UnresolvedDependency {
                                task_id: tasks[i].id.clone(),
                                predecessor_id: predecessors[i][k].clone(),
                            },
                        );
                    },
                }
                k += 1;
            }
            dependencies.push(resolved);
            i += 1;
        }
        proof {
            assert forall|p: int, k: int|
                0 <= p < predecessors@.len() && 0 <= k < predecessors@[p]@.len() implies id_resolvable(
                tasks@,
                #[trigger] predecessors@[p]@[k]@,
            ) by {
                let j = dependencies@[p]@[k] as int;
                assert(0 <= j < tasks@.len() && tasks@[j].id@ == predecessors@[p]@[k]@);
            }
        }
        Ok(
            ProjectSchedule {
                tasks,
                dependencies,
                task_durations: Vec::new(),
                early_start: Vec::new(),
                early_finish: Vec::new(),
            },
        )
    }

    /// Overwrites the duration assignment with every task's mean duration, as
    /// the deterministic critical-path pass uses it.
    pub fn set_expected_durations(&mut self)
        requires
            old(self).graph_wf(),
        ensures
            final(self).tasks == old(self).tasks,
            final(self).dependencies == old(self).dependencies,
            final(self).early_start == old(self).early_start,
            final(self).early_finish == old(self).early_finish,
            final(self).task_durations@.len() == old(self).tasks@.len(),
            forall|i: int|
                0 <= i < old(self).task_count() ==> #[trigger] final(self).task_durations@[i]
                    == old(self).tasks@[i].expected,
            final(self).durations_wf(),
    {
        let n = self.tasks.len();
        self.task_durations = Vec::new();
        let mut i: usize = 0;
        while i < n
            invariant
                n == self.tasks@.len(),
                self.tasks == old(self).tasks,
                self.dependencies == old(self).dependencies,
                self.early_start == old(self).early_start,
                self.early_finish == old(self).early_finish,
                forall|j: int| 0 <= j < n ==> (#[trigger] self.tasks@[j]).wf(),
                i <= n,
                self.task_durations@.len() == i,
                forall|j: int|
                    0 <= j < i ==> #[trigger] self.task_durations@[j] == self.tasks@[j].expected,
            decreases n - i,
        {
            let d = self.tasks[i].expected;
            self.task_durations.push(d);
            i += 1;
        }
    }
}

/// Index of the task with the given id, if any.
pub fn find_task_index(tasks: &Vec<Task>, id: &String) -> (r: Option<usize>)
    ensures
        match r {
            Some(j) => j < tasks@.len() && tasks@[j as int].id@ == id@,
            None => forall|j: int| 0 <= j < tasks@.len() ==> tasks@[j].id@ != id@,
        },
{
    let n = tasks.len();
    let mut j: usize = 0;
    while j < n
        invariant
            n == tasks@.len(),
            j <= n,
            forall|p: int| 0 <= p < j ==> tasks@[p].id@ != id@,
        decreases n - j,
    {
        if tasks[j].id == *id {
            return Some(j);
        }
        j += 1;
    }
    None
}

} // verus!
