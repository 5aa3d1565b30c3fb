//! Stochastic duration assignment.
//!
//! Each task's duration comes from a normal distribution parameterized by
//! the task's mean and standard deviation, as an approximation of its PERT
//! uncertainty. The floating-point draw itself is outside work: the caller
//! draws once per task (in millis, cast to `u64`) and hands the raw values
//! in; this module applies the whole sampling policy to them — a task with
//! zero spread gets its mean exactly, and any other raw draw is clamped to a
//! floor of 0.1 time units and to the representable maximum, so durations
//! are never zero or negative.
//!
//! The integer factor draws of the risk overlay use the caller's seedable
//! random stream directly, so a seeded run is reproducible.

use vstd::prelude::*;

use rand::Rng;

use crate::models::{ProjectSchedule, Task, MAX_DURATION_MILLIS, MIN_SAMPLED_DURATION_MILLIS};

verus! {

/// The caller-supplied random stream. Opaque to the verifier: nothing is
/// assumed about the values it yields beyond the ranges stated on the
/// drawing functions.
#[verifier::external_type_specification]
#[verifier::external_body]
pub struct ExStdRng(rand::rngs::StdRng);

/// Relies on `rand::Rng::random_range`: a draw uniformly distributed over
/// the inclusive range, which panics only on an empty range.
#[verifier::external_body]
pub(crate) fn uniform_draw(rng: &mut rand::rngs::StdRng, lo: u64, hi: u64) -> (r: u64)
    requires
        lo <= hi,
    ensures
        lo <= r <= hi,
{
    rng.random_range(lo..=hi)
}

/// The duration a task gets from a raw draw: the mean exactly when the task
/// has no spread (the raw value is ignored), the raw draw clamped into the
/// representable range otherwise.
pub open spec fn duration_of_draw(t: Task, raw: u64) -> u64 {
    if t.stddev == 0 {
        t.expected
    } else if raw < MIN_SAMPLED_DURATION_MILLIS {
        MIN_SAMPLED_DURATION_MILLIS
    } else if raw > MAX_DURATION_MILLIS {
        MAX_DURATION_MILLIS
    } else {
        raw
    }
}

/// What one assigned duration may be: the mean exactly when the task has no
/// spread, and otherwise anything inside the clamping range.
pub open spec fn sampled_duration_ok(t: Task, d: u64) -> bool {
    &&& t.stddev == 0 ==> d == t.expected
    &&& t.stddev > 0 ==> MIN_SAMPLED_DURATION_MILLIS <= d
    &&& 1 <= d <= MAX_DURATION_MILLIS
}

/// A complete assignment admissible as one iteration's sample: one
/// duration per task, each within the sampling policy.
pub open spec fn sampled_durations(tasks: Seq<Task>, durs: Seq<u64>) -> bool {
    &&& durs.len() == tasks.len()
    &&& forall|i: int| 0 <= i < tasks.len() ==> sampled_duration_ok(tasks[i], #[trigger] durs[i])
}

/// The whole duration assignment one row of raw draws determines.
pub open spec fn durations_of_draws(tasks: Seq<Task>, raws: Seq<u64>) -> Seq<u64> {
    Seq::new(tasks.len(), |i: int| duration_of_draw(tasks[i], raws[i]))
}

/// Applies the sampling policy to one task's raw draw.
pub fn duration_from_draw(task: &Task, raw: u64) -> (d: u64)
    requires
        task.wf(),
    ensures
        d == duration_of_draw(*task, raw),
        sampled_duration_ok(*task, d),
{
    if task.stddev == 0 {
        task.expected
    } else if raw < MIN_SAMPLED_DURATION_MILLIS {
        MIN_SAMPLED_DURATION_MILLIS
    } else if raw > MAX_DURATION_MILLIS {
        MAX_DURATION_MILLIS
    } else {
        raw
    }
}

impl ProjectSchedule {
    /// Overwrites the duration assignment with this iteration's sample: one
    /// raw draw per task, in task order, each put through the sampling
    /// policy. The graph and the early vectors are left untouched.
    pub fn generate_random_durations(&mut self, raw_draws: &Vec<u64>)
        requires
            old(self).graph_wf(),
            raw_draws@.len() == old(self).tasks@.len(),
        ensures
            final(self).tasks == old(self).tasks,
            final(self).dependencies == old(self).dependencies,
            final(self).early_start == old(self).early_start,
            final(self).early_finish == old(self).early_finish,
            final(self).task_durations@.len() == old(self).tasks@.len(),
            forall|i: int|
                0 <= i < old(self).tasks@.len() ==> #[trigger] final(self).task_durations@[i]
                    == duration_of_draw(old(self).tasks@[i], raw_draws@[i]),
            final(self).task_durations@ == durations_of_draws(old(self).tasks@, raw_draws@),
            final(self).durations_wf(),
            sampled_durations(old(self).tasks@, final(self).task_durations@),
    {
        let n = self.tasks.len();
        let mut durs: Vec<u64> = Vec::new();
        let mut i: usize = 0;
        while i < n
            invariant
                *self == *old(self),
                n == self.tasks@.len() == raw_draws@.len(),
                self.graph_wf(),
                i <= n,
                durs@.len() == i,
                forall|j: int|
                    0 <= j < i ==> #[trigger] durs@[j] == duration_of_draw(
                        self.tasks@[j],
                        raw_draws@[j],
                    ),
                forall|j: int|
                    0 <= j < i ==> sampled_duration_ok(self.tasks@[j], #[trigger] durs@[j]),
            decreases n - i,
        {
            let d = duration_from_draw(&self.tasks[i], raw_draws[i]);
            durs.push(d);
            i += 1;
        }
        self.task_durations = durs;
    }
}

} // verus!
