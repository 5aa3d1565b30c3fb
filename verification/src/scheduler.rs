//! Forward-pass (critical-path method) scheduling.
//!
//! Given the graph and a complete duration assignment, the pass computes an
//! early start and early finish for every task by topological propagation: a
//! task with no predecessors starts at zero; any other task starts at the
//! largest early finish among its predecessors. If the graph holds a cycle,
//! the ready frontier empties while tasks remain, and the pass reports the
//! stuck tasks instead of looping.

use vstd::prelude::*;

use crate::models::{
    ProjectSchedule, SimulationError, Task, CRITICAL_TOLERANCE_MILLIS, MAX_DURATION_MILLIS,
    MAX_PROJECT_DURATION_MILLIS, MAX_TASK_COUNT,
};
use crate::order::{sort_task_ids, sorted_ids};

verus! {

broadcast use vstd::seq_lib::group_to_multiset_ensures;

/// Task `i` has a predecessor inside `pending`.
pub open spec fn blocked_in(g: ProjectSchedule, pending: Set<int>, i: int) -> bool {
    exists|k: int| 0 <= k < g.preds_of(i).len() && pending.contains(g.preds_of(i)[k] as int)
}

/// Every task of `pending` waits on some predecessor that is itself pending.
/// No task of such a set can ever become ready.
pub open spec fn pending_blocked(g: ProjectSchedule, pending: Set<int>) -> bool {
    forall|i: int| #[trigger] pending.contains(i) ==> blocked_in(g, pending, i)
}

/// A non-empty set of task indices that blocks itself: the witness that the
/// predecessor relation is not acyclic.
pub open spec fn cycle_witness(g: ProjectSchedule, pending: Set<int>) -> bool {
    &&& forall|i: int| #[trigger] pending.contains(i) ==> 0 <= i < g.task_count()
    &&& exists|i: int| pending.contains(i)
    &&& pending_blocked(g, pending)
}

/// The predecessor relation is acyclic: no set of tasks blocks itself.
pub open spec fn acyclic(g: ProjectSchedule) -> bool {
    forall|pending: Set<int>| !cycle_witness(g, pending)
}

/// `j` stands in `ord` somewhere before position `p`.
pub open spec fn listed_before(ord: Seq<int>, p: int, j: int) -> bool {
    exists|q: int| 0 <= q < p && ord[q] == j
}

/// `i` occurs somewhere in `ord`.
pub open spec fn appears_in(ord: Seq<int>, i: int) -> bool {
    exists|p: int| 0 <= p < ord.len() && ord[p] == i
}

/// `ord` lists task indices such that each one's predecessors appear earlier
/// in the list: a prefix of a topological order.
pub open spec fn topo_prefix(g: ProjectSchedule, ord: Seq<int>) -> bool {
    &&& forall|p: int| 0 <= p < ord.len() ==> 0 <= #[trigger] ord[p] < g.task_count()
    &&& forall|p: int, k: int|
        0 <= p < ord.len() && 0 <= k < g.preds_of(ord[p]).len() ==> listed_before(
            ord,
            p,
            (#[trigger] g.preds_of(ord[p])[k]) as int,
        )
}

/// The early start of task `i` equals the early finish of one of its
/// predecessors.
pub open spec fn start_joins_pred(g: ProjectSchedule, es: Seq<u64>, ef: Seq<u64>, i: int) -> bool {
    exists|k: int| 0 <= k < g.preds_of(i).len() && es[i] == ef[g.preds_of(i)[k] as int]
}

/// The early-start/early-finish relation of the forward pass, for the whole
/// graph: finish is start plus duration; start dominates every predecessor's
/// finish; start is zero without predecessors and equals some predecessor's
/// finish otherwise. On an acyclic graph these conditions determine both
/// vectors, whatever order the tasks were processed in.
pub open spec fn schedule_complete(
    g: ProjectSchedule,
    es: Seq<u64>,
    ef: Seq<u64>,
    durs: Seq<u64>,
) -> bool {
    &&& es.len() == g.task_count()
    &&& ef.len() == g.task_count()
    &&& forall|i: int| 0 <= i < g.task_count() ==> (#[trigger] ef[i]) == es[i] + durs[i]
    &&& forall|i: int, k: int|
        0 <= i < g.task_count() && 0 <= k < g.preds_of(i).len() ==> ef[(
        #[trigger] g.preds_of(i)[k]) as int] <= es[i]
    &&& forall|i: int|
        0 <= i < g.task_count() && (#[trigger] g.preds_of(i)).len() == 0 ==> es[i] == 0
    &&& forall|i: int|
        0 <= i < g.task_count() && (#[trigger] g.preds_of(i)).len() > 0 ==> start_joins_pred(
            g,
            es,
            ef,
            i,
        )
}

/// `pd` is the largest early finish: the project duration.
pub open spec fn is_project_duration(ef: Seq<u64>, pd: u64) -> bool {
    &&& forall|i: int| 0 <= i < ef.len() ==> (#[trigger] ef[i]) <= pd
    &&& exists|i: int| 0 <= i < ef.len() && ef[i] == pd
}

/// Task `i` has a predecessor whose flag is still unset.
pub open spec fn waits_unfinished(deps: Seq<Vec<usize>>, done: Seq<bool>, i: int) -> bool {
    exists|k: int| 0 <= k < deps[i]@.len() && !done[deps[i]@[k] as int]
}

/// Flags of a stalled pass: every unfinished task waits on an unfinished
/// predecessor, and at least one task is unfinished.
pub open spec fn stalled_flags(g: ProjectSchedule, w: Seq<bool>) -> bool {
    &&& w.len() == g.task_count()
    &&& forall|i: int|
        0 <= i < w.len() && !(#[trigger] w[i]) ==> waits_unfinished(g.dependencies@, w, i)
    &&& exists|i: int| 0 <= i < w.len() && !w[i]
}

/// Some task with an unset flag carries this id.
pub open spec fn id_unfinished(tasks: Seq<Task>, w: Seq<bool>, id: Seq<char>) -> bool {
    exists|i: int| 0 <= i < w.len() && !w[i] && tasks[i].id@ == id
}

/// `id` occurs in `ids`.
pub open spec fn id_listed(ids: Seq<String>, id: Seq<char>) -> bool {
    exists|p: int| 0 <= p < ids.len() && (#[trigger] ids[p])@ == id
}

/// `ids` holds exactly the ids of the tasks left unfinished by `w`.
pub open spec fn ids_of_unfinished(g: ProjectSchedule, w: Seq<bool>, ids: Seq<String>) -> bool {
    &&& forall|p: int|
        0 <= p < ids.len() ==> id_unfinished(g.tasks@, w, (#[trigger] ids[p])@)
    &&& forall|i: int|
        0 <= i < w.len() && !(#[trigger] w[i]) ==> id_listed(ids, g.tasks@[i].id@)
}

/// State of a partially finished forward pass: `n_done` tasks are flagged
/// done, every done task has done predecessors, and the start/finish entries
/// of the done tasks already satisfy the forward-pass relation, with each
/// finish bounded by the number of done tasks times the largest duration.
pub open spec fn forward_partial(
    g: ProjectSchedule,
    done: Seq<bool>,
    es: Seq<u64>,
    ef: Seq<u64>,
    n_done: int,
) -> bool {
    &&& done.len() == g.task_count()
    &&& es.len() == g.task_count()
    &&& ef.len() == g.task_count()
    &&& 0 <= n_done <= g.task_count()
    &&& n_done == count_done(done)
    &&& forall|i: int, k: int|
        0 <= i < done.len() && done[i] && 0 <= k < g.preds_of(i).len() ==> done[(
        #[trigger] g.preds_of(i)[k]) as int] && ef[g.preds_of(i)[k] as int] <= es[i]
    &&& forall|i: int|
        0 <= i < done.len() && #[trigger] done[i] ==> ef[i] == es[i] + g.task_durations@[i]
    &&& forall|i: int|
        0 <= i < done.len() && #[trigger] done[i] && g.preds_of(i).len() == 0 ==> es[i] == 0
    &&& forall|i: int|
        0 <= i < done.len() && #[trigger] done[i] && g.preds_of(i).len() > 0 ==> start_joins_pred(
            g,
            es,
            ef,
            i,
        )
    &&& forall|i: int|
        0 <= i < done.len() && #[trigger] done[i] ==> ef[i] <= n_done * MAX_DURATION_MILLIS
}

/// Number of `true` entries.
pub open spec fn count_done(w: Seq<bool>) -> int
    decreases w.len(),
{
    if w.len() == 0 {
        0
    } else {
        count_done(w.drop_last()) + if w.last() {
            1int
        } else {
            0int
        }
    }
}

proof fn lemma_count_done_bounds(w: Seq<bool>)
    ensures
        0 <= count_done(w) <= w.len(),
    decreases w.len(),
{
    if w.len() > 0 {
        lemma_count_done_bounds(w.drop_last());
    }
}

/// A fully counted flag vector has every flag set.
proof fn lemma_count_done_all(w: Seq<bool>)
    requires
        count_done(w) == w.len(),
    ensures
        forall|i: int| 0 <= i < w.len() ==> w[i],
    decreases w.len(),
{
    if w.len() > 0 {
        lemma_count_done_bounds(w.drop_last());
        lemma_count_done_all(w.drop_last());
        assert forall|i: int| 0 <= i < w.len() implies w[i] by {
            if i < w.len() - 1 {
                assert(w.drop_last()[i]);
            }
        }
    }
}

/// All-false flag vectors count to zero.
proof fn lemma_count_all_false(w: Seq<bool>)
    requires
        forall|i: int| 0 <= i < w.len() ==> !(#[trigger] w[i]),
    ensures
        count_done(w) == 0,
    decreases w.len(),
{
    if w.len() > 0 {
        lemma_count_all_false(w.drop_last());
    }
}

/// Setting one unset flag raises the count by one.
proof fn lemma_count_done_update(w: Seq<bool>, i: int)
    requires
        0 <= i < w.len(),
        !w[i],
    ensures
        count_done(w.update(i, true)) == count_done(w) + 1,
    decreases w.len(),
{
    let u = w.update(i, true);
    if i == w.len() - 1 {
        assert(u.drop_last() =~= w.drop_last());
    } else {
        assert(u.drop_last() =~= w.drop_last().update(i, true));
        lemma_count_done_update(w.drop_last(), i);
    }
}

/// An undercounted flag vector has some flag unset.
proof fn lemma_count_done_missing(w: Seq<bool>)
    requires
        count_done(w) < w.len(),
    ensures
        exists|i: int| 0 <= i < w.len() && !w[i],
    decreases w.len(),
{
    if w.len() > 0 {
        if !w.last() {
            assert(!w[w.len() - 1]);
        } else {
            lemma_count_done_bounds(w.drop_last());
            lemma_count_done_missing(w.drop_last());
            let i = choose|i: int| 0 <= i < w.drop_last().len() && !w.drop_last()[i];
            assert(!w[i]);
        }
    }
}

/// No task listed in a topological prefix can belong to a blocked set.
proof fn lemma_topo_not_blocked(g: ProjectSchedule, ord: Seq<int>, pending: Set<int>, p: int)
    requires
        topo_prefix(g, ord),
        pending_blocked(g, pending),
        0 <= p < ord.len(),
    ensures
        !pending.contains(ord[p]),
    decreases p,
{
    if pending.contains(ord[p]) {
        let i = ord[p];
        assert(blocked_in(g, pending, i));
        let k = choose|k: int|
            0 <= k < g.preds_of(i).len() && pending.contains(g.preds_of(i)[k] as int);
        assert(listed_before(ord, p, g.preds_of(ord[p])[k] as int));
        let q = choose|q: int| 0 <= q < p && ord[q] == (g.preds_of(ord[p])[k]) as int;
        lemma_topo_not_blocked(g, ord, pending, q);
    }
}

/// A graph whose every task appears in a topological prefix is acyclic.
proof fn lemma_topo_order_acyclic(g: ProjectSchedule, ord: Seq<int>)
    requires
        topo_prefix(g, ord),
        forall|i: int| 0 <= i < g.task_count() ==> #[trigger] appears_in(ord, i),
    ensures
        acyclic(g),
{
    assert forall|pending: Set<int>| !cycle_witness(g, pending) by {
        if cycle_witness(g, pending) {
            let i = choose|i: int| pending.contains(i);
            assert(0 <= i < g.task_count());
            assert(appears_in(ord, i));
            let p = choose|p: int| 0 <= p < ord.len() && ord[p] == i;
            lemma_topo_not_blocked(g, ord, pending, p);
        }
    }
}

/// Appending a task whose predecessors are all done keeps the list a
/// topological prefix, and the done tasks (with the new one) still all
/// appear in it.
proof fn lemma_topo_push(g: ProjectSchedule, ord: Seq<int>, done: Seq<bool>, t: int)
    requires
        g.graph_wf(),
        done.len() == g.task_count(),
        topo_prefix(g, ord),
        0 <= t < g.task_count(),
        forall|k: int|
            0 <= k < g.preds_of(t).len() ==> done[(#[trigger] g.preds_of(t)[k]) as int],
        forall|i: int| 0 <= i < done.len() && #[trigger] done[i] ==> appears_in(ord, i),
    ensures
        topo_prefix(g, ord.push(t)),
        forall|i: int|
            0 <= i < done.len() && #[trigger] done.update(t, true)[i] ==> appears_in(
                ord.push(t),
                i,
            ),
{
    assert forall|p: int| 0 <= p < ord.push(t).len() implies 0 <= #[trigger] ord.push(t)[p]
        < g.task_count() by {
        if p < ord.len() {
            assert(ord.push(t)[p] == ord[p]);
        } else {
            assert(ord.push(t)[p] == t);
        }
    }
    assert forall|p: int, k: int|
        0 <= p < ord.push(t).len() && 0 <= k < g.preds_of(ord.push(t)[p]).len() implies listed_before(
        ord.push(t),
        p,
        (#[trigger] g.preds_of(ord.push(t)[p])[k]) as int,
    ) by {
        if p < ord.len() {
            assert(ord.push(t)[p] == ord[p]);
            assert(listed_before(ord, p, g.preds_of(ord[p])[k] as int));
            let q = choose|q: int| 0 <= q < p && ord[q] == (g.preds_of(ord[p])[k]) as int;
            assert(ord.push(t)[q] == ord[q]);
        } else {
            assert(ord.push(t)[p] == t);
            let j = g.preds_of(t)[k] as int;
            assert(done[j]);
            assert(appears_in(ord, j));
            let q = choose|q: int| 0 <= q < ord.len() && ord[q] == j;
            assert(ord.push(t)[q] == ord[q]);
        }
    }
    assert forall|i: int|
        0 <= i < done.len() && #[trigger] done.update(t, true)[i] implies appears_in(
        ord.push(t),
        i,
    ) by {
        if i == t {
            assert(ord.push(t)[ord.len() as int] == t);
        } else {
            assert(done[i]);
            let p = choose|p: int| 0 <= p < ord.len() && ord[p] == i;
            assert(ord.push(t)[p] == ord[p]);
        }
    }
}

/// Finishing one ready task with the computed start and finish preserves the
/// partial forward-pass state.
proof fn lemma_forward_step(
    g: ProjectSchedule,
    done: Seq<bool>,
    es: Seq<u64>,
    ef: Seq<u64>,
    n_done: int,
    t: int,
    es_t: u64,
    ef_t: u64,
)
    requires
        g.graph_wf(),
        g.durations_wf(),
        forward_partial(g, done, es, ef, n_done),
        n_done < g.task_count(),
        0 <= t < g.task_count(),
        !done[t],
        forall|k: int|
            0 <= k < g.preds_of(t).len() ==> done[(#[trigger] g.preds_of(t)[k]) as int],
        forall|k: int|
            0 <= k < g.preds_of(t).len() ==> ef[(#[trigger] g.preds_of(t)[k]) as int] <= es_t,
        g.preds_of(t).len() == 0 ==> es_t == 0,
        g.preds_of(t).len() > 0 ==> exists|k: int|
            0 <= k < g.preds_of(t).len() && es_t == ef[g.preds_of(t)[k] as int],
        es_t <= n_done * MAX_DURATION_MILLIS,
        ef_t == es_t + g.task_durations@[t],
    ensures
        forward_partial(
            g,
            done.update(t, true),
            es.update(t, es_t),
            ef.update(t, ef_t),
            n_done + 1,
        ),
{
    let done2 = done.update(t, true);
    let es2 = es.update(t, es_t);
    let ef2 = ef.update(t, ef_t);
    lemma_count_done_update(done, t);
    assert forall|i: int, k: int|
        0 <= i < done2.len() && done2[i] && 0 <= k < g.preds_of(i).len() implies done2[(
    #[trigger] g.preds_of(i)[k]) as int] && ef2[g.preds_of(i)[k] as int] <= es2[i] by {
        let j = g.preds_of(i)[k] as int;
        if i != t {
            assert(done[i]);
            assert(done[j] && ef[j] <= es[i]);
            assert(j != t);
        } else {
            assert(done[j]);
            assert(j != t);
            assert(ef[j] <= es_t);
        }
    }
    assert forall|i: int|
        0 <= i < done2.len() && #[trigger] done2[i] implies ef2[i] == es2[i]
        + g.task_durations@[i] by {
        if i != t {
            assert(done[i]);
        }
    }
    assert forall|i: int|
        0 <= i < done2.len() && #[trigger] done2[i] && g.preds_of(i).len() == 0 implies es2[i]
        == 0 by {
        if i != t {
            assert(done[i]);
        }
    }
    assert forall|i: int|
        0 <= i < done2.len() && #[trigger] done2[i] && g.preds_of(i).len() > 0 implies start_joins_pred(
        g,
        es2,
        ef2,
        i,
    ) by {
        if i != t {
            assert(done[i]);
            assert(start_joins_pred(g, es, ef, i));
            let k = choose|k: int|
                0 <= k < g.preds_of(i).len() && es[i] == ef[g.preds_of(i)[k] as int];
            let j = g.preds_of(i)[k] as int;
            assert(done[j] && j != t);
            assert(es2[i] == ef2[j]);
        } else {
            let k = choose|k: int|
                0 <= k < g.preds_of(t).len() && es_t == ef[g.preds_of(t)[k] as int];
            let j = g.preds_of(t)[k] as int;
            assert(done[j] && j != t);
            assert(es2[t] == ef2[j]);
        }
    }
    assert(g.task_durations@[t] <= MAX_DURATION_MILLIS);
    assert forall|i: int|
        0 <= i < done2.len() && #[trigger] done2[i] implies ef2[i] <= (n_done + 1)
        * MAX_DURATION_MILLIS by {
        if i != t {
            assert(done[i]);
            assert(ef[i] <= n_done * MAX_DURATION_MILLIS);
        }
    }
}

/// A stalled pass with tasks remaining shows the graph cyclic.
proof fn lemma_stall(g: ProjectSchedule, done: Seq<bool>, n_done: int)
    requires
        g.graph_wf(),
        done.len() == g.task_count(),
        n_done == count_done(done),
        n_done < g.task_count(),
        forall|i: int|
            0 <= i < done.len() && !(#[trigger] done[i]) ==> waits_unfinished(
                g.dependencies@,
                done,
                i,
            ),
    ensures
        !acyclic(g),
        stalled_flags(g, done),
{
    lemma_count_done_missing(done);
    let pending = Set::new(|i: int| 0 <= i < done.len() && !done[i]);
    assert forall|i: int| #[trigger] pending.contains(i) implies blocked_in(g, pending, i) by {
        assert(waits_unfinished(g.dependencies@, done, i));
        let k = choose|k: int|
            0 <= k < g.dependencies@[i]@.len() && !done[g.dependencies@[i]@[k] as int];
        assert(pending.contains(g.preds_of(i)[k] as int));
    }
    let iw = choose|i: int| 0 <= i < done.len() && !done[i];
    assert(pending.contains(iw));
    assert(cycle_witness(g, pending));
}

/// The finished pass satisfies the whole forward-pass relation, the
/// processing order shows the graph acyclic, and every finish is bounded.
proof fn lemma_forward_complete(
    g: ProjectSchedule,
    done: Seq<bool>,
    es: Seq<u64>,
    ef: Seq<u64>,
    ord: Seq<int>,
)
    requires
        g.graph_wf(),
        g.durations_wf(),
        forward_partial(g, done, es, ef, g.task_count()),
        topo_prefix(g, ord),
        forall|i: int| 0 <= i < done.len() && #[trigger] done[i] ==> appears_in(ord, i),
    ensures
        acyclic(g),
        schedule_complete(g, es, ef, g.task_durations@),
        forall|i: int| 0 <= i < ef.len() ==> (#[trigger] ef[i]) <= MAX_PROJECT_DURATION_MILLIS,
{
    lemma_count_done_all(done);
    assert forall|i: int| 0 <= i < g.task_count() implies #[trigger] appears_in(ord, i) by {
        assert(done[i]);
    }
    lemma_topo_order_acyclic(g, ord);
    assert forall|i: int| 0 <= i < g.task_count() implies (#[trigger] ef[i]) == es[i]
        + g.task_durations@[i] by {
        assert(done[i]);
    }
    assert forall|i: int, k: int|
        0 <= i < g.task_count() && 0 <= k < g.preds_of(i).len() implies ef[(
    #[trigger] g.preds_of(i)[k]) as int] <= es[i] by {
        assert(done[i]);
    }
    assert forall|i: int|
        0 <= i < g.task_count() && (#[trigger] g.preds_of(i)).len() == 0 implies es[i] == 0 by {
        assert(done[i]);
    }
    assert forall|i: int|
        0 <= i < g.task_count() && (#[trigger] g.preds_of(i)).len() > 0 implies start_joins_pred(
        g,
        es,
        ef,
        i,
    ) by {
        assert(done[i]);
    }
    assert forall|i: int| 0 <= i < ef.len() implies (#[trigger] ef[i])
        <= MAX_PROJECT_DURATION_MILLIS by {
        assert(done[i]);
        assert(ef[i] <= g.task_count() * MAX_DURATION_MILLIS);
        assert(g.task_count() * MAX_DURATION_MILLIS <= MAX_TASK_COUNT * MAX_DURATION_MILLIS);
    }
}

/// True exactly when every predecessor of one task is marked done.
fn all_preds_done(deps_i: &Vec<usize>, done: &Vec<bool>) -> (b: bool)
    requires
        forall|k: int| 0 <= k < deps_i@.len() ==> (#[trigger] deps_i@[k]) < done@.len(),
    ensures
        b <==> forall|k: int| 0 <= k < deps_i@.len() ==> done@[#[trigger] deps_i@[k] as int],
{
    let m = deps_i.len();
    let mut k: usize = 0;
    while k < m
        invariant
            m == deps_i@.len(),
            k <= m,
            forall|q: int| 0 <= q < deps_i@.len() ==> (#[trigger] deps_i@[q]) < done@.len(),
            forall|q: int| 0 <= q < k ==> done@[#[trigger] deps_i@[q] as int],
        decreases m - k,
    {
        if !done[deps_i[k]] {
            return false;
        }
        k += 1;
    }
    true
}

/// Smallest not-yet-done task whose predecessors are all done, if any.
fn find_ready_task(deps: &Vec<Vec<usize>>, done: &Vec<bool>) -> (r: Option<usize>)
    requires
        deps@.len() == done@.len(),
        forall|i: int, k: int|
            0 <= i < deps@.len() && 0 <= k < deps@[i]@.len() ==> (#[trigger] deps@[i]@[k])
                < done@.len(),
    ensures
        match r {
            Some(i) => i < done@.len() && !done@[i as int] && forall|k: int|
                0 <= k < deps@[i as int]@.len() ==> done@[#[trigger] deps@[i as int]@[k] as int],
            None => forall|i: int|
                0 <= i < done@.len() && !(#[trigger] done@[i]) ==> waits_unfinished(
                    deps@,
                    done@,
                    i,
                ),
        },
{
    let n = done.len();
    let mut i: usize = 0;
    while i < n
        invariant
            n == done@.len() == deps@.len(),
            i <= n,
            forall|q: int, k: int|
                0 <= q < deps@.len() && 0 <= k < deps@[q]@.len() ==> (#[trigger] deps@[q]@[k]) < n,
            forall|q: int|
                0 <= q < i && !(#[trigger] done@[q]) ==> waits_unfinished(deps@, done@, q),
        decreases n - i,
    {
        if !done[i] {
            if all_preds_done(&deps[i], done) {
                return Some(i);
            }
            proof {
                let di = deps@[i as int]@;
                let k = choose|k: int| 0 <= k < di.len() && !done@[di[k] as int];
                assert(0 <= k < di.len() && !done@[di[k] as int]);
                assert(waits_unfinished(deps@, done@, i as int));
            }
        }
        i += 1;
    }
    None
}

/// Largest early finish among a ready task's predecessors; zero if it has
/// none.
fn ready_start(deps_t: &Vec<usize>, ef_v: &Vec<u64>) -> (es: u64)
    requires
        forall|q: int| 0 <= q < deps_t@.len() ==> (#[trigger] deps_t@[q]) < ef_v@.len(),
    ensures
        forall|q: int| 0 <= q < deps_t@.len() ==> ef_v@[(#[trigger] deps_t@[q]) as int] <= es,
        deps_t@.len() == 0 ==> es == 0,
        deps_t@.len() > 0 ==> exists|q: int|
            0 <= q < deps_t@.len() && es == ef_v@[deps_t@[q] as int],
{
    let m = deps_t.len();
    let mut es: u64 = 0;
    let mut k: usize = 0;
    while k < m
        invariant
            m == deps_t@.len(),
            k <= m,
            forall|q: int| 0 <= q < m ==> (#[trigger] deps_t@[q]) < ef_v@.len(),
            forall|q: int| 0 <= q < k ==> ef_v@[(#[trigger] deps_t@[q]) as int] <= es,
            k == 0 ==> es == 0,
            k > 0 ==> exists|q: int| 0 <= q < k && es == ef_v@[deps_t@[q] as int],
        decreases m - k,
    {
        let f = ef_v[deps_t[k]];
        if f > es {
            es = f;
        }
        proof {
            if es == f {
                assert(es == ef_v@[deps_t@[k as int] as int]);
            }
        }
        k += 1;
    }
    es
}

/// Largest early finish over all tasks.
fn max_finish(ef: &Vec<u64>) -> (pd: u64)
    requires
        ef@.len() >= 1,
    ensures
        is_project_duration(ef@, pd),
{
    let n = ef.len();
    let mut pd: u64 = ef[0];
    let mut i: usize = 1;
    while i < n
        invariant
            n == ef@.len(),
            1 <= i <= n,
            forall|q: int| 0 <= q < i ==> (#[trigger] ef@[q]) <= pd,
            exists|q: int| 0 <= q < i && ef@[q] == pd,
        decreases n - i,
    {
        if ef[i] > pd {
            pd = ef[i];
        }
        i += 1;
    }
    pd
}

/// A vector of `n` zeros.
fn zero_vector(n: usize) -> (v: Vec<u64>)
    ensures
        v@.len() == n,
        forall|i: int| 0 <= i < n ==> (#[trigger] v@[i]) == 0,
{
    let mut v: Vec<u64> = Vec::new();
    let mut i: usize = 0;
    while i < n
        invariant
            i <= n,
            v@.len() == i,
            forall|j: int| 0 <= j < i ==> (#[trigger] v@[j]) == 0,
        decreases n - i,
    {
        v.push(0);
        i += 1;
    }
    v
}

/// A vector of `n` false flags.
fn false_vector(n: usize) -> (v: Vec<bool>)
    ensures
        v@.len() == n,
        forall|i: int| 0 <= i < n ==> !(#[trigger] v@[i]),
{
    let mut v: Vec<bool> = Vec::new();
    let mut i: usize = 0;
    while i < n
        invariant
            i <= n,
            v@.len() == i,
            forall|j: int| 0 <= j < i ==> !(#[trigger] v@[j]),
        decreases n - i,
    {
        v.push(false);
        i += 1;
    }
    v
}

/// Ids of the tasks whose flag is unset, in task order.
fn unfinished_ids(tasks: &Vec<Task>, done: &Vec<bool>) -> (ids: Vec<String>)
    requires
        tasks@.len() == done@.len(),
    ensures
        forall|p: int|
            0 <= p < ids@.len() ==> id_unfinished(tasks@, done@, (#[trigger] ids@[p])@),
        forall|i: int|
            0 <= i < done@.len() && !(#[trigger] done@[i]) ==> id_listed(ids@, tasks@[i].id@),
{
    let n = tasks.len();
    let mut ids: Vec<String> = Vec::new();
    let ghost mut src_idx: Seq<int> = Seq::empty();
    let mut i: usize = 0;
    while i < n
        invariant
            n == tasks@.len() == done@.len(),
            i <= n,
            src_idx.len() == ids@.len(),
            forall|p: int|
                0 <= p < ids@.len() ==> 0 <= #[trigger] src_idx[p] < done@.len()
                    && !done@[src_idx[p]] && tasks@[src_idx[p]].id@ == ids@[p]@,
            forall|j: int|
                0 <= j < i && !(#[trigger] done@[j]) ==> id_listed(ids@, tasks@[j].id@),
        decreases n - i,
    {
        if !done[i] {
            let ghost ids_pre = ids@;
            ids.push(tasks[i].id.clone());
            proof {
                src_idx = src_idx.push(i as int);
                assert(ids@[ids_pre.len() as int]@ == tasks@[i as int].id@);
                assert forall|j: int|
                    0 <= j <= i && !(#[trigger] done@[j]) implies id_listed(
                    ids@,
                    tasks@[j].id@,
                ) by {
                    if j < i {
                        assert(id_listed(ids_pre, tasks@[j].id@));
                        let p = choose|p: int|
                            0 <= p < ids_pre.len() && (#[trigger] ids_pre[p])@ == tasks@[j].id@;
                        assert(ids@[p] == ids_pre[p]);
                        assert(ids@[p]@ == tasks@[j].id@);
                    } else {
                        assert(ids@[ids_pre.len() as int]@ == tasks@[j].id@);
                    }
                }
            }
        }
        i += 1;
    }
    proof {
        assert forall|p: int| 0 <= p < ids@.len() implies id_unfinished(
            tasks@,
            done@,
            (#[trigger] ids@[p])@,
        ) by {
            let j = src_idx[p];
            assert(0 <= j < done@.len() && !done@[j] && tasks@[j].id@ == ids@[p]@);
        }
    }
    ids
}

impl ProjectSchedule {
    /// Runs the forward pass over the current duration assignment, filling
    /// `early_start` and `early_finish` and returning the project duration,
    /// or the set of tasks stuck on a cycle. The pass succeeds exactly when
    /// the graph is acyclic; the graph and the durations are left untouched.
    pub fn calculate_schedule(&mut self) -> (r: Result<u64, SimulationError>)
        requires
            old(self).graph_wf(),
            old(self).durations_wf(),
        ensures
            final(self).tasks == old(self).tasks,
            final(self).dependencies == old(self).dependencies,
            final(self).task_durations == old(self).task_durations,
            r is Ok <==> acyclic(*old(self)),
            match r {
                Ok(pd) => {
                    &&& schedule_complete(
                        *old(self),
                        final(self).early_start@,
                        final(self).early_finish@,
                        old(self).task_durations@,
                    )
                    &&& is_project_duration(final(self).early_finish@, pd)
                    &&& pd <= MAX_PROJECT_DURATION_MILLIS
                },
                Err(SimulationError::CycleDetected { task_ids }) => exists|w: Seq<bool>|
                    stalled_flags(*old(self), w) && ids_of_unfinished(*old(self), w, task_ids@),
                _ => false,
            },
    {
        let n = self.tasks.len();
        let mut es_v = zero_vector(n);
        let mut ef_v = zero_vector(n);
        let mut done = false_vector(n);
        let mut n_done: usize = 0;
        let ghost mut ord: Seq<int> = Seq::empty();

        proof {
            lemma_count_all_false(done@);
        }

        while n_done < n
            invariant
                *self == *old(self),
                self.graph_wf(),
                self.durations_wf(),
                n == self.tasks@.len(),
                forward_partial(*self, done@, es_v@, ef_v@, n_done as int),
                topo_prefix(*self, ord),
                forall|i: int| 0 <= i < done@.len() && #[trigger] done@[i] ==> appears_in(ord, i),
            decreases n - n_done,
        {
            match find_ready_task(&self.dependencies, &done) {
                None => {
                    proof {
                        lemma_stall(*self, done@, n_done as int);
                    }
                    let task_ids = unfinished_ids(&self.tasks, &done);
                    self.early_start = es_v;
                    self.early_finish = ef_v;
                    proof {
                        assert(stalled_flags(*old(self), done@) && ids_of_unfinished(
                            *old(self),
                            done@,
                            task_ids@,
                        ));
                    }
                    return Err(SimulationError::CycleDetected { task_ids });
                },
                Some(t) => {
                    let es = ready_start(&self.dependencies[t], &ef_v);
                    proof {
                        // The computed start is bounded by the running
                        // finish bound of the done predecessors.
                        let tt = t as int;
                        if self.preds_of(tt).len() > 0 {
                            let q = choose|q: int|
                                0 <= q < self.preds_of(tt).len() && es == ef_v@[self.preds_of(
                                    tt,
                                )[q] as int];
                            let j = self.preds_of(tt)[q] as int;
                            assert(done@[j]);
                            assert(ef_v@[j] <= n_done * MAX_DURATION_MILLIS);
                        }
                        assert(es <= n_done * MAX_DURATION_MILLIS);
                        assert(self.task_durations@[tt] <= MAX_DURATION_MILLIS);
                    }
                    let dur = self.task_durations[t];
                    let ef = es + dur;
                    proof {
                        lemma_forward_step(
                            *self,
                            done@,
                            es_v@,
                            ef_v@,
                            n_done as int,
                            t as int,
                            es,
                            ef,
                        );
                        lemma_topo_push(*self, ord, done@, t as int);
                    }
                    es_v.set(t, es);
                    ef_v.set(t, ef);
                    done.set(t, true);
                    n_done += 1;
                    proof {
                        ord = ord.push(t as int);
                    }
                },
            }
        }
        proof {
            lemma_forward_complete(*self, done@, es_v@, ef_v@, ord);
        }
        let pd = max_finish(&ef_v);
        proof {
            let wi = choose|q: int| 0 <= q < ef_v@.len() && ef_v@[q] == pd;
            assert(ef_v@[wi] <= MAX_PROJECT_DURATION_MILLIS);
        }
        self.early_start = es_v;
        self.early_finish = ef_v;
        Ok(pd)
    }

    /// Reads off the deterministic critical path from the early finishes of
    /// the last pass: every task finishing within the tolerance of the
    /// project duration, its ids sorted lexicographically, together with the
    /// project duration itself.
    pub fn find_critical_path(&self) -> (r: (Vec<String>, u64))
        requires
            self.graph_wf(),
            self.early_finish@.len() == self.tasks@.len(),
            forall|i: int|
                0 <= i < self.early_finish@.len() ==> (#[trigger] self.early_finish@[i])
                    <= MAX_PROJECT_DURATION_MILLIS,
        ensures
            is_project_duration(self.early_finish@, r.1),
            sorted_ids(r.0@),
            forall|p: int|
                0 <= p < r.0@.len() ==> critical_id(
                    self.tasks@,
                    self.early_finish@,
                    r.1,
                    (#[trigger] r.0@[p])@,
                ),
            forall|i: int|
                0 <= i < self.early_finish@.len() && (#[trigger] self.early_finish@[i])
                    + CRITICAL_TOLERANCE_MILLIS > r.1 ==> id_listed(r.0@, self.tasks@[i].id@),
            forall|p: int, q: int|
                0 <= p < q < r.0@.len() ==> (#[trigger] r.0@[p])@ != (#[trigger] r.0@[q])@,
    {
        let n = self.tasks.len();
        let pd = max_finish(&self.early_finish);
        let mut collected: Vec<String> = Vec::new();
        let ghost mut src_idx: Seq<int> = Seq::empty();
        let mut i: usize = 0;
        while i < n
            invariant
                self.graph_wf(),
                n == self.tasks@.len() == self.early_finish@.len(),
                forall|j: int|
                    0 <= j < self.early_finish@.len() ==> (#[trigger] self.early_finish@[j])
                        <= MAX_PROJECT_DURATION_MILLIS,
                i <= n,
                src_idx.len() == collected@.len(),
                forall|p: int|
                    0 <= p < collected@.len() ==> 0 <= #[trigger] src_idx[p] < i
                        && self.tasks@[src_idx[p]].id@ == collected@[p]@ && self.early_finish@[
                        src_idx[p]] + CRITICAL_TOLERANCE_MILLIS > pd,
                forall|p: int, q: int| 0 <= p < q < collected@.len() ==> src_idx[p] < src_idx[q],
                forall|j: int|
                    0 <= j < i && (#[trigger] self.early_finish@[j]) + CRITICAL_TOLERANCE_MILLIS
                        > pd ==> id_listed(collected@, self.tasks@[j].id@),
            decreases n - i,
        {
            if self.early_finish[i] + CRITICAL_TOLERANCE_MILLIS > pd {
                let ghost col_pre = collected@;
                collected.push(self.tasks[i].id.clone());
                proof {
                    src_idx = src_idx.push(i as int);
                    assert(collected@[col_pre.len() as int]@ == self.tasks@[i as int].id@);
                    assert forall|j: int|
                        0 <= j <= i && (#[trigger] self.early_finish@[j])
                            + CRITICAL_TOLERANCE_MILLIS > pd implies id_listed(
                        collected@,
                        self.tasks@[j].id@,
                    ) by {
                        if j < i {
                            assert(id_listed(col_pre, self.tasks@[j].id@));
                            let p = choose|p: int|
                                0 <= p < col_pre.len() && (#[trigger] col_pre[p])@
                                    == self.tasks@[j].id@;
                            assert(collected@[p] == col_pre[p]);
                            assert(collected@[p]@ == self.tasks@[j].id@);
                        } else {
                            assert(collected@[col_pre.len() as int]@ == self.tasks@[j].id@);
                        }
                    }
                }
            }
            i += 1;
        }
        proof {
            // Distinct task ids make the collected ids distinct.
            assert forall|p: int, q: int|
                0 <= p < q < collected@.len() implies (#[trigger] collected@[p])@ != (
            #[trigger] collected@[q])@ by {
                assert(src_idx[p] < src_idx[q]);
                assert(self.tasks@[src_idx[p]].id@ != self.tasks@[src_idx[q]].id@);
            }
        }
        let ghost cs = collected@;
        let sorted = sort_task_ids(collected);
        proof {
            let ef = self.early_finish@;
            let tasks = self.tasks@;
            assert forall|p: int|
                0 <= p < sorted@.len() implies critical_id(
                tasks,
                ef,
                pd,
                (#[trigger] sorted@[p])@,
            ) by {
                assert(sorted@.contains(sorted@[p]));
                assert(sorted@.to_multiset().count(sorted@[p]) > 0);
                assert(cs.to_multiset().count(sorted@[p]) > 0);
                assert(cs.contains(sorted@[p]));
                let q = choose|q: int| 0 <= q < cs.len() && cs[q] == sorted@[p];
                let j = src_idx[q];
                assert(0 <= j < ef.len() && tasks[j].id@ == sorted@[p]@ && ef[j]
                    + CRITICAL_TOLERANCE_MILLIS > pd);
            }
            assert forall|i2: int|
                0 <= i2 < ef.len() && (#[trigger] ef[i2]) + CRITICAL_TOLERANCE_MILLIS
                    > pd implies id_listed(sorted@, tasks[i2].id@) by {
                assert(id_listed(cs, tasks[i2].id@));
                let p = choose|p: int|
                    0 <= p < cs.len() && (#[trigger] cs[p])@ == tasks[i2].id@;
                assert(cs.contains(cs[p]));
                assert(cs.to_multiset().count(cs[p]) > 0);
                assert(sorted@.to_multiset().count(cs[p]) > 0);
                assert(sorted@.contains(cs[p]));
                let q = choose|q: int| 0 <= q < sorted@.len() && sorted@[q] == cs[p];
                assert((sorted@[q])@ == tasks[i2].id@);
            }
            // Distinctness carries through the permutation.
            assert forall|a: int, b: int|
                0 <= a < cs.len() && 0 <= b < cs.len() && a != b implies cs[a] != cs[b] by {
                if a < b {
                    assert(cs[a]@ != cs[b]@);
                } else {
                    assert(cs[b]@ != cs[a]@);
                }
            }
            cs.lemma_multiset_has_no_duplicates();
            sorted@.lemma_multiset_has_no_duplicates_conv();
            assert forall|p: int, q: int|
                0 <= p < q < sorted@.len() implies (#[trigger] sorted@[p])@ != (
            #[trigger] sorted@[q])@ by {
                if sorted@[p]@ == sorted@[q]@ {
                    assert(sorted@.contains(sorted@[p]));
                    assert(sorted@.to_multiset().count(sorted@[p]) > 0);
                    assert(cs.to_multiset().count(sorted@[p]) > 0);
                    assert(cs.contains(sorted@[p]));
                    assert(sorted@.contains(sorted@[q]));
                    assert(sorted@.to_multiset().count(sorted@[q]) > 0);
                    assert(cs.to_multiset().count(sorted@[q]) > 0);
                    assert(cs.contains(sorted@[q]));
                    let a = choose|a: int| 0 <= a < cs.len() && cs[a] == sorted@[p];
                    let b = choose|b: int| 0 <= b < cs.len() && cs[b] == sorted@[q];
                    assert(cs[a]@ == cs[b]@);
                    assert(a == b);
                    assert(sorted@[p] == sorted@[q]);
                    assert(false);
                }
            }
        }
        (sorted, pd)
    }
}

/// Some task with this id finishes within the tolerance of the project
/// duration.
pub open spec fn critical_id(tasks: Seq<Task>, ef: Seq<u64>, pd: u64, id: Seq<char>) -> bool {
    exists|i: int|
        0 <= i < ef.len() && tasks[i].id@ == id && ef[i] + CRITICAL_TOLERANCE_MILLIS > pd
}

/// On an acyclic graph the forward-pass relation has exactly one solution:
/// the early starts and finishes depend only on the graph and the
/// durations, never on the order the tasks were processed in.
pub proof fn lemma_forward_pass_deterministic(
    g: ProjectSchedule,
    es1: Seq<u64>,
    ef1: Seq<u64>,
    es2: Seq<u64>,
    ef2: Seq<u64>,
    durs: Seq<u64>,
)
    requires
        g.graph_wf(),
        acyclic(g),
        schedule_complete(g, es1, ef1, durs),
        schedule_complete(g, es2, ef2, durs),
    ensures
        es1 =~= es2,
        ef1 =~= ef2,
{
    // Were the two solutions to differ anywhere, the differing tasks would
    // block each other: a task whose predecessors all agree gets the same
    // start (the largest agreeing predecessor finish, or zero) and hence
    // the same finish. A self-blocking set contradicts acyclicity.
    let d = Set::new(
        |i: int| 0 <= i < g.task_count() && (es1[i] != es2[i] || ef1[i] != ef2[i]),
    );
    if exists|i: int| d.contains(i) {
        assert forall|i: int| #[trigger] d.contains(i) implies blocked_in(g, d, i) by {
            if !blocked_in(g, d, i) {
                assert forall|k: int|
                    0 <= k < g.preds_of(i).len() implies !d.contains(
                    (#[trigger] g.preds_of(i)[k]) as int,
                ) by {
                    if d.contains(g.preds_of(i)[k] as int) {
                        assert(blocked_in(g, d, i));
                    }
                }
                if g.preds_of(i).len() == 0 {
                    assert(es1[i] == 0 && es2[i] == 0);
                } else {
                    assert(start_joins_pred(g, es1, ef1, i));
                    let k1 = choose|k: int|
                        0 <= k < g.preds_of(i).len() && es1[i] == ef1[g.preds_of(i)[k] as int];
                    let j1 = g.preds_of(i)[k1] as int;
                    assert(!d.contains(j1));
                    assert(ef1[j1] == ef2[j1]);
                    assert(es1[i] <= es2[i]);
                    assert(start_joins_pred(g, es2, ef2, i));
                    let k2 = choose|k: int|
                        0 <= k < g.preds_of(i).len() && es2[i] == ef2[g.preds_of(i)[k] as int];
                    let j2 = g.preds_of(i)[k2] as int;
                    assert(!d.contains(j2));
                    assert(ef1[j2] == ef2[j2]);
                    assert(es2[i] <= es1[i]);
                }
                assert(ef1[i] == es1[i] + durs[i] && ef2[i] == es2[i] + durs[i]);
                assert(!d.contains(i));
            }
        }
        assert(cycle_witness(g, d));
        assert(false);
    }
    assert forall|i: int| 0 <= i < g.task_count() implies es1[i] == es2[i] && ef1[i]
        == ef2[i] by {
        assert(!d.contains(i));
    }
}

/// The largest entry of a sequence is one value: two project durations of
/// the same early finishes are equal.
pub proof fn lemma_project_duration_unique(ef: Seq<u64>, pd1: u64, pd2: u64)
    requires
        is_project_duration(ef, pd1),
        is_project_duration(ef, pd2),
    ensures
        pd1 == pd2,
{
}

} // verus!
