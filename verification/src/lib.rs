//! A business-calendar task scheduler.
//!
//! Given a collection of interdependent tasks, the scheduler derives a start
//! and an end date for every task: explicit gating edges and per-resource
//! ordering form a dependency graph, tasks are visited in a topological
//! order, and each task's start is computed from its predecessors' end dates
//! (or from the scheduling epoch), skipping weekends and backdating by the
//! business days already completed.

use vstd::prelude::*;

pub mod date_utils;
pub mod graph_utils;

verus! {

/// A task id, unique within one collection.
pub type ID = String;

/// Adjacency of the dependency graph: entry `p` holds the indices of the
/// tasks that task `p` gates, one entry per task.
pub type Graph = Vec<Vec<usize>>;

/// The unit of work being scheduled.
#[derive(Debug, Clone)]
pub struct Task {
    /// Unique identifier, stable across scheduling calls.
    pub id: ID,
    /// Display label with no role in scheduling.
    pub title: String,
    /// Start date as a day number (see [`date_utils::Day`]).
    pub start: date_utils::Day,
    /// End date as a day number.
    pub end: date_utils::Day,
    /// Business days allocated to the task; at least one.
    pub duration: usize,
    /// Ordering key among the tasks sharing a resource.
    pub position: i64,
    /// Completed fraction of the duration, in hundredths (0 through 100).
    pub progress: usize,
    /// The single resource the task is assigned to.
    pub resource_id: ID,
    /// Ids of the tasks this one gates: none of them may start until this
    /// task completes.
    pub dependencies: Option<Vec<ID>>,
}

/// Two tasks are the same task exactly when their ids coincide.
impl PartialEq for Task {
    fn eq(&self, other: &Task) -> (r: bool) {
        self.id == other.id
    }
}

impl vstd::std_specs::cmp::PartialEqSpecImpl for Task {
    open spec fn obeys_eq_spec() -> bool {
        true
    }

    open spec fn eq_spec(&self, other: &Task) -> bool {
        self.id@ == other.id@
    }
}

/// The declared successor ids of a task, as a sequence of character strings.
pub open spec fn deps_of(t: Task) -> Seq<Seq<char>> {
    match t.dependencies {
        None => Seq::empty(),
        Some(v) => Seq::new(v@.len(), |j: int| v@[j]@),
    }
}

/// A scheduling pass failed; the task data must be corrected by the caller.
#[derive(Debug, Clone, PartialEq, Eq)]
pub enum ScheduleError {
    /// A dependency id that resolves to no task in the collection.
    UnresolvedReference(ID),
    /// The gating edges admit no topological order.
    CyclicDependency,
}

use crate::date_utils::{
    add_business, add_business_days, next_business_day, sub_business, Day,
    shift_to_first_next_business_day, sub_business_days,
};
use crate::graph_utils::{
    dep_edge, deps_resolve, edge, graph_of, graph_wf, has_pred, has_succ, is_topo, lane_cand,
    lane_edge, lane_lt, make_graph_from_tasks, make_reverse_graph, resolves, succ, topo_order,
    unique_ids,
};
use vstd::arithmetic::div_mod::{lemma_div_is_ordered, lemma_div_multiples_vanish};
use vstd::arithmetic::mul::{lemma_mul_inequality, lemma_mul_is_commutative, lemma_mul_upper_bound};

/// Largest task collection the scheduler accepts.
pub const MAX_TASKS: usize = 1000000;

/// Largest duration, in business days, a single task may have.
pub const MAX_DURATION: usize = 1000000;

/// Largest magnitude, in days from day zero, of an input date.
pub const DAY_LIMIT: i64 = 1000000000000;

/// How far, at most, one scheduling step can move a date: the three calendar
/// days per skipped business day over a full duration, plus the weekend
/// shifts around the anchor.
pub const SCHEDULE_STEP: i64 = 3000005;

/// Largest anchor date `update_start_date` accepts; covers every date the
/// scheduler can produce from inputs within `DAY_LIMIT`.
pub const ANCHOR_LIMIT: i64 = 4100000000000;

/// The input caps under which every date computation stays within `i64`.
pub open spec fn task_valid(t: Task) -> bool {
    &&& 1 <= t.duration <= MAX_DURATION
    &&& t.progress <= 100
    &&& -DAY_LIMIT <= t.start <= DAY_LIMIT
    &&& -DAY_LIMIT <= t.end <= DAY_LIMIT
}

/// A well-formed scheduling request: bounded dates and durations, validated
/// progress, and pairwise-distinct task ids.
pub open spec fn tasks_valid(ts: Seq<Task>, epoch: int) -> bool {
    &&& ts.len() <= MAX_TASKS
    &&& unique_ids(ts)
    &&& -DAY_LIMIT <= epoch <= DAY_LIMIT
    &&& forall|i: int| 0 <= i < ts.len() ==> task_valid(#[trigger] ts[i])
}

/// Business days already completed: the whole part of duration times the
/// progress fraction (progress is stored in hundredths).
pub open spec fn completed_days(t: Task) -> int {
    (t.duration * t.progress) / 100
}

/// Both dates stay within the growing envelope the scheduler maintains after
/// `k` tasks have been placed.
pub open spec fn within_day_bound(t: Task, k: int) -> bool {
    &&& -(DAY_LIMIT + k * SCHEDULE_STEP) <= t.start <= DAY_LIMIT + k * SCHEDULE_STEP
    &&& -(DAY_LIMIT + k * SCHEDULE_STEP) <= t.end <= DAY_LIMIT + k * SCHEDULE_STEP
}

/// Start of a task anchored at the epoch: the epoch's next business day,
/// pulled back by the business days already completed.
pub open spec fn anchor_start(epoch: int, t: Task) -> int {
    sub_business(next_business_day(epoch), completed_days(t) as nat)
}

/// Start of a gated task whose predecessors end at `base`: one business day
/// after `base`, shifted off a weekend, pulled back by the completed days.
pub open spec fn gated_start(base: int, t: Task) -> int {
    sub_business(next_business_day(add_business(base, 1)), completed_days(t) as nat)
}

/// The latest end date among the predecessors of task `i` with index below
/// `j`, reading predecessor links from `o` and end dates from `f`.
pub open spec fn max_pred_end_upto(o: Seq<Task>, f: Seq<Task>, i: int, j: int) -> Option<int>
    decreases j,
{
    if j <= 0 {
        None
    } else {
        let rest = max_pred_end_upto(o, f, i, j - 1);
        if succ(o, j - 1, i) {
            match rest {
                None => Some(f[j - 1].end as int),
                Some(m) => Some(vstd::math::max(m, f[j - 1].end as int)),
            }
        } else {
            rest
        }
    }
}

/// The latest end date among all predecessors of task `i`, if it has any.
pub open spec fn base_of(o: Seq<Task>, f: Seq<Task>, i: int) -> Option<int> {
    max_pred_end_upto(o, f, i, o.len() as int)
}

/// Everything but the two dates is the same in both tasks.
pub open spec fn same_except_dates(a: Task, b: Task) -> bool {
    &&& b.id == a.id
    &&& b.title == a.title
    &&& b.duration == a.duration
    &&& b.position == a.position
    &&& b.progress == a.progress
    &&& b.resource_id == a.resource_id
    &&& b.dependencies == a.dependencies
}

/// The start date task `i` is owed: from the epoch when it has no
/// predecessors, else from its predecessors' final end dates in `f`.
pub open spec fn new_start_of(o: Seq<Task>, f: Seq<Task>, epoch: int, i: int) -> int {
    if !has_pred(o, i) {
        anchor_start(epoch, o[i])
    } else {
        match base_of(o, f, i) {
            Some(base) => gated_start(base, o[i]),
            None => o[i].start as int,  // does not arise: a gated task has a predecessor
        }
    }
}

/// Task `i` of the outcome `f` carries the dates the scheduling rule assigns
/// it, given the original collection `o`: a fixed anchor keeps its dates, any
/// other task gets the start it is owed, and a task whose start is already
/// right is left entirely unchanged.
pub open spec fn task_scheduled(o: Seq<Task>, f: Seq<Task>, epoch: int, i: int) -> bool {
    if !has_pred(o, i) && has_succ(o, i) {
        f[i] == o[i]
    } else {
        let ns = new_start_of(o, f, epoch, i);
        &&& f[i].start == ns
        &&& f[i].end == (if ns == o[i].start as int {
            o[i].end as int
        } else {
            add_business(ns, (o[i].duration - 1) as nat)
        })
        &&& same_except_dates(o[i], f[i])
    }
}

/// The outcome `f` of scheduling `o` at the given epoch: every task carries
/// the dates the scheduling rule assigns it.
pub open spec fn scheduled(o: Seq<Task>, f: Seq<Task>, epoch: int) -> bool {
    &&& f.len() == o.len()
    &&& forall|i: int| 0 <= i < o.len() ==> task_scheduled(o, f, epoch, i)
}

/// An order of all tasks in which every task comes after the tasks gating it.
pub open spec fn is_topo_tasks(ord: Seq<usize>, ts: Seq<Task>) -> bool {
    &&& ord.no_duplicates()
    &&& forall|k: int| 0 <= k < ord.len() ==> ord[k] < ts.len()
    &&& forall|i: usize| i < ts.len() ==> ord.contains(i)
    &&& forall|k1: int, k2: int|
        0 <= k1 < ord.len() && 0 <= k2 < ord.len() && succ(ts, ord[k1] as int, ord[k2] as int)
            ==> k1 < k2
}

/// Task `i` already occurs among the first `k` entries of the order.
pub open spec fn processed_before(ord: Seq<usize>, k: int, i: int) -> bool {
    exists|j: int| 0 <= j < k && ord[j] as int == i
}

/// A valid task has completed at most its own duration, and the product
/// feeding the completed-days division stays small.
proof fn lemma_completed_days_bound(t: Task)
    requires
        task_valid(t),
    ensures
        0 <= completed_days(t) <= t.duration,
        t.duration * t.progress <= 100000000,
{
    lemma_mul_upper_bound(t.duration as int, MAX_DURATION as int, t.progress as int, 100);
    lemma_mul_inequality(t.progress as int, 100, t.duration as int);
    lemma_mul_is_commutative(t.progress as int, t.duration as int);
    lemma_mul_is_commutative(100, t.duration as int);
    lemma_div_is_ordered(t.duration * t.progress, t.duration * 100, 100);
    lemma_div_multiples_vanish(t.duration as int, 100);
    lemma_mul_is_commutative(100, t.duration as int);
    assert(t.duration * t.progress >= 0) by {
        vstd::arithmetic::mul::lemma_mul_nonnegative(t.duration as int, t.progress as int);
    }
    lemma_div_is_ordered(0, t.duration * t.progress, 100);
}

/// Task `i` has a predecessor below `j` exactly when the running maximum over
/// the first `j` candidates holds a value.
proof fn lemma_max_pred_some(o: Seq<Task>, f: Seq<Task>, i: int, j: int)
    ensures
        (exists|p: int| 0 <= p < j && succ(o, p, i)) <==> (max_pred_end_upto(o, f, i, j) is Some),
    decreases j,
{
    if j > 0 {
        lemma_max_pred_some(o, f, i, j - 1);
    }
}

/// The running maximum reads only predecessor links and the end dates of
/// predecessors, so it is the same over any two views that agree there.
proof fn lemma_max_pred_fold_eq(
    o1: Seq<Task>,
    f1: Seq<Task>,
    o2: Seq<Task>,
    f2: Seq<Task>,
    i: int,
    j: int,
)
    requires
        forall|p: int| 0 <= p < j ==> (succ(o1, p, i) <==> succ(o2, p, i)),
        forall|p: int| 0 <= p < j && succ(o1, p, i) ==> f1[p].end == f2[p].end,
    ensures
        max_pred_end_upto(o1, f1, i, j) == max_pred_end_upto(o2, f2, i, j),
    decreases j,
{
    if j > 0 {
        lemma_max_pred_fold_eq(o1, f1, o2, f2, i, j - 1);
    }
}

/// Assign the task the start date derived from the given anchor: the anchor's
/// next business day pulled back by the completed days. A task whose start
/// already equals the derived date is left entirely unchanged; otherwise the
/// end is re-derived from the new start and the duration.
fn update_start_date(tasks: &mut Vec<Task>, i: usize, start_date: Day)
    requires
        i < old(tasks)@.len(),
        task_valid(old(tasks)@[i as int]),
        -ANCHOR_LIMIT <= start_date <= ANCHOR_LIMIT,
    ensures
        final(tasks)@.len() == old(tasks)@.len(),
        forall|i2: int|
            0 <= i2 < old(tasks)@.len() && i2 != i ==> final(tasks)@[i2] == old(tasks)@[i2],
        ({
            let t0 = old(tasks)@[i as int];
            let t1 = final(tasks)@[i as int];
            let ns = sub_business(next_business_day(start_date as int), completed_days(t0) as nat);
            &&& t1.start == ns
            &&& t1.end == (if ns == t0.start as int {
                t0.end as int
            } else {
                add_business(ns, (t0.duration - 1) as nat)
            })
            &&& same_except_dates(t0, t1)
            &&& start_date - 3000000 <= t1.start <= start_date + 2
            &&& (t1.end == t0.end || start_date - 3000000 <= t1.end <= start_date + 3000002)
        }),
{
    let ghost t0 = tasks@[i as int];
    let t_dur = tasks[i].duration;
    let t_prog = tasks[i].progress;
    proof {
        lemma_completed_days_bound(t0);
    }
    let days_spent: usize = t_dur * t_prog / 100;
    let corrected = shift_to_first_next_business_day(start_date);
    proof {
        crate::date_utils::lemma_next_business_day_not_weekend(start_date as int);
        crate::date_utils::lemma_sub_business_range(corrected as int, days_spent as nat);
    }
    let new_start = sub_business_days(corrected, days_spent);
    if tasks[i].start != new_start {
        proof {
            crate::date_utils::lemma_add_business_range(new_start as int, (t_dur - 1) as nat);
        }
        let new_end = add_business_days(new_start, t_dur - 1);
        let t = &mut tasks[i];
        t.start = new_start;
        t.end = new_end;
    }
}

/// Every graph-level topological order of the dependency graph is a
/// task-level one, and the other way round.
proof fn lemma_topo_transfer(g: Seq<Vec<usize>>, ts: Seq<Task>)
    requires
        graph_of(g, ts),
    ensures
        forall|ord: Seq<usize>| is_topo(ord, g) <==> is_topo_tasks(ord, ts),
{
    assert forall|ord: Seq<usize>| is_topo(ord, g) <==> is_topo_tasks(ord, ts) by {
        assert(forall|k1: int, k2: int|
            0 <= k1 < ord.len() && 0 <= k2 < ord.len() ==> (edge(g, ord[k1] as int, ord[k2] as int)
                <==> succ(ts, ord[k1] as int, ord[k2] as int)));
    }
}

/// Compute a start and an end date for every task of the collection, in
/// place: tasks are visited in a topological order of the dependency graph
/// (declared gates plus resource-lane order), a task with no predecessors
/// and no successors is anchored at the epoch, a task with no predecessors
/// that gates others keeps its dates, and every other task starts one
/// business day after the latest freshly computed end date among its
/// predecessors, backdated by its completed business days. Fails, leaving
/// the collection untouched, exactly when a declared successor id names no
/// task or the gating edges contain a cycle.
#[verifier::rlimit(100)]
pub fn schedule_tasks(tasks: &mut Vec<Task>, today: Day) -> (r: Result<(), ScheduleError>)
    requires
        tasks_valid(old(tasks)@, today as int),
    ensures
        match r {
            Ok(()) => {
                &&& scheduled(old(tasks)@, final(tasks)@, today as int)
                &&& deps_resolve(old(tasks)@)
                &&& exists|ord: Seq<usize>| is_topo_tasks(ord, old(tasks)@)
            },
            Err(e) => {
                &&& final(tasks)@ == old(tasks)@
                &&& (e matches ScheduleError::UnresolvedReference(id) ==> !deps_resolve(
                    old(tasks)@,
                ) && !resolves(old(tasks)@, id@))
                &&& (e == ScheduleError::CyclicDependency ==> deps_resolve(old(tasks)@) && !(
                exists|ord: Seq<usize>| is_topo_tasks(ord, old(tasks)@)))
            },
        },
        r is Err <==> (!deps_resolve(old(tasks)@) || !(exists|ord: Seq<usize>|
            is_topo_tasks(ord, old(tasks)@))),
{
    let ghost o = tasks@;
    let n = tasks.len();
    let graph = match make_graph_from_tasks(tasks) {
        Ok(g) => g,
        Err(e) => {
            return Err(e);
        },
    };
    let rev = make_reverse_graph(&graph);
    let ord = match topo_order(&graph) {
        Ok(ord) => ord,
        Err(e) => {
            proof {
                lemma_topo_transfer(graph@, o);
            }
            return Err(e);
        },
    };
    proof {
        lemma_topo_transfer(graph@, o);
        crate::graph_utils::lemma_order_length(ord@, n as nat);
    }
    let mut kk: usize = 0;
    while kk < n
        invariant
            n == o.len(),
            tasks@.len() == n,
            n <= MAX_TASKS,
            tasks_valid(o, today as int),
            graph_of(graph@, o),
            graph_wf(graph@),
            rev@.len() == n,
            graph_wf(rev@),
            forall|p: usize, s: int|
                0 <= s < n ==> (rev@[s]@.contains(p) <==> edge(graph@, p as int, s)),
            is_topo(ord@, graph@),
            ord@.len() == n,
            kk <= n,
            forall|j: int|
                0 <= j < kk ==> task_scheduled(o, tasks@, today as int, #[trigger] ord@[j] as int),
            forall|i2: int|
                0 <= i2 < n && !processed_before(ord@, kk as int, i2) ==> tasks@[i2] == o[i2],
            forall|i2: int| 0 <= i2 < n ==> within_day_bound(#[trigger] tasks@[i2], kk as int),
        decreases n - kk,
    {
        let i = ord[kk];
        proof {
            assert(!processed_before(ord@, kk as int, i as int)) by {
                if processed_before(ord@, kk as int, i as int) {
                    let j = choose|j: int| 0 <= j < kk && ord@[j] as int == i as int;
                    assert(ord@[j] == ord@[kk as int]);
                }
            }
            assert(tasks@[i as int] == o[i as int]);
            assert(0 <= kk * SCHEDULE_STEP <= MAX_TASKS * SCHEDULE_STEP) by {
                lemma_mul_inequality(kk as int, MAX_TASKS as int, SCHEDULE_STEP as int);
                vstd::arithmetic::mul::lemma_mul_nonnegative(kk as int, SCHEDULE_STEP as int);
                lemma_mul_is_commutative(kk as int, SCHEDULE_STEP as int);
                lemma_mul_is_commutative(MAX_TASKS as int, SCHEDULE_STEP as int);
            }
            assert((kk + 1) * SCHEDULE_STEP == kk * SCHEDULE_STEP + SCHEDULE_STEP) by {
                vstd::arithmetic::mul::lemma_mul_is_distributive_add_other_way(
                    SCHEDULE_STEP as int,
                    kk as int,
                    1,
                );
            }
            assert((kk + 1) * SCHEDULE_STEP <= MAX_TASKS * SCHEDULE_STEP) by {
                lemma_mul_inequality(kk as int + 1, MAX_TASKS as int, SCHEDULE_STEP as int);
                lemma_mul_is_commutative(kk as int + 1, SCHEDULE_STEP as int);
                lemma_mul_is_commutative(MAX_TASKS as int, SCHEDULE_STEP as int);
            }
        }
        let ghost before = tasks@;
        let ghost bound_now = DAY_LIMIT + (kk as int) * SCHEDULE_STEP;
        let has_preds = rev[i].len() > 0;
        let has_succs = graph[i].len() > 0;
        proof {
            if has_preds {
                let p0 = rev@[i as int]@[0];
                assert(rev@[i as int]@.contains(p0));
                assert(edge(graph@, p0 as int, i as int));
                assert(has_pred(o, i as int));
            } else {
                assert(!has_pred(o, i as int)) by {
                    if has_pred(o, i as int) {
                        let p = choose|p: int| 0 <= p < n && succ(o, p, i as int);
                        assert(edge(graph@, p, i as int));
                        assert(rev@[i as int]@.contains(p as usize));
                    }
                }
            }
            if has_succs {
                let s0 = graph@[i as int]@[0];
                assert(graph@[i as int]@.contains(s0));
                assert(edge(graph@, i as int, s0 as int));
                assert(has_succ(o, i as int));
            } else {
                assert(!has_succ(o, i as int)) by {
                    if has_succ(o, i as int) {
                        let s = choose|s: int| 0 <= s < n && succ(o, i as int, s);
                        assert(edge(graph@, i as int, s));
                        assert(graph@[i as int]@.contains(s as usize));
                    }
                }
            }
        }
        if !has_preds {
            if !has_succs {
                // Fully isolated: anchor the task at the epoch.
                update_start_date(tasks, i, today);
            }
            // Otherwise the task is a fixed anchor for its successors and
            // keeps its dates untouched.
        } else {
            // Gated: one business day after the latest predecessor end.
            proof {
                assert(forall|p2: usize|
                    p2 < n ==> (rev@[i as int]@.contains(p2) <==> succ(o, p2 as int, i as int)));
            }
            let mut found = false;
            let mut base: Day = 0;
            let mut p: usize = 0;
            while p < n
                invariant
                    n == o.len(),
                    tasks@.len() == n,
                    tasks@ == before,
                    i < n,
                    p <= n,
                    rev@.len() == n,
                    forall|p2: usize|
                        p2 < n ==> (rev@[i as int]@.contains(p2) <==> succ(o, p2 as int, i as int)),
                    forall|i2: int|
                        0 <= i2 < n ==> within_day_bound(#[trigger] tasks@[i2], kk as int),
                    found <==> (max_pred_end_upto(o, before, i as int, p as int) is Some),
                    found ==> max_pred_end_upto(o, before, i as int, p as int) == Some(base as int),
                    found ==> -bound_now <= base <= bound_now,
                    bound_now == DAY_LIMIT + (kk as int) * SCHEDULE_STEP,
                    0 <= kk * SCHEDULE_STEP,
                decreases n - p,
            {
                if crate::graph_utils::contains_usize(&rev[i], p) {
                    let e = tasks[p].end;
                    if !found {
                        base = e;
                        found = true;
                    } else if e > base {
                        base = e;
                    }
                } else {
                    assert(!succ(o, p as int, i as int));
                }
                p = p + 1;
            }
            proof {
                lemma_max_pred_some(o, before, i as int, n as int);
                assert(found);
            }
            let anchored = add_business_days(base, 1);
            proof {
                crate::date_utils::lemma_add_business_range(base as int, 1nat);
            }
            update_start_date(tasks, i, anchored);
            proof {
                assert(!succ(o, i as int, i as int)) by {
                    if succ(o, i as int, i as int) {
                        assert(edge(graph@, i as int, i as int));
                    }
                }
                lemma_max_pred_fold_eq(o, before, o, tasks@, i as int, n as int);
                assert(base_of(o, tasks@, i as int) == Some(base as int));
            }
        }
        proof {
            assert(task_scheduled(o, tasks@, today as int, i as int));
            assert forall|j: int| 0 <= j < kk + 1 implies task_scheduled(
                o,
                tasks@,
                today as int,
                #[trigger] ord@[j] as int,
            ) by {
                if j < kk {
                    let i2 = ord@[j] as int;
                    assert(ord@[j] != ord@[kk as int]);
                    assert(tasks@[i2] == before[i2]);
                    assert(!succ(o, i as int, i2)) by {
                        if succ(o, i as int, i2) {
                            assert(edge(graph@, ord@[kk as int] as int, ord@[j] as int));
                        }
                    }
                    lemma_max_pred_fold_eq(o, before, o, tasks@, i2, n as int);
                }
            }
            assert forall|i2: int|
                0 <= i2 < n && !processed_before(ord@, kk as int + 1, i2) implies tasks@[i2]
                == o[i2] by {
                assert(!processed_before(ord@, kk as int, i2));
                assert(i2 != i as int);
            }
            assert forall|i2: int| 0 <= i2 < n implies within_day_bound(
                #[trigger] tasks@[i2],
                kk as int + 1,
            ) by {
                assert((kk as int + 1) * SCHEDULE_STEP == kk as int * SCHEDULE_STEP
                    + SCHEDULE_STEP);
                if i2 != i as int {
                    assert(tasks@[i2] == before[i2]);
                }
            }
        }
        kk = kk + 1;
    }
    proof {
        assert forall|i2: int| 0 <= i2 < n implies task_scheduled(
            o,
            tasks@,
            today as int,
            i2,
        ) by {
            assert(ord@.contains(i2 as usize));
            let j = choose|j: int| 0 <= j < ord@.len() && ord@[j] == i2 as usize;
            assert(task_scheduled(o, tasks@, today as int, ord@[j] as int));
        }
    }
    Ok(())
}

/// An isolated task — no predecessors, no successors — is anchored at the
/// epoch: its new start is the epoch's next business day, pulled back by the
/// business days already completed.
pub proof fn lemma_isolated_task_anchored(o: Seq<Task>, f: Seq<Task>, epoch: int, i: int)
    requires
        scheduled(o, f, epoch),
        0 <= i < o.len(),
        !has_pred(o, i),
        !has_succ(o, i),
    ensures
        f[i].start == sub_business(next_business_day(epoch), completed_days(o[i]) as nat),
        same_except_dates(o[i], f[i]),
{
    assert(task_scheduled(o, f, epoch, i));
}

/// A task with no predecessors that gates at least one other task is a fixed
/// anchor: a scheduling pass leaves its dates, and every other field,
/// untouched.
pub proof fn lemma_fixed_anchor_unchanged(o: Seq<Task>, f: Seq<Task>, epoch: int, i: int)
    requires
        scheduled(o, f, epoch),
        0 <= i < o.len(),
        !has_pred(o, i),
        has_succ(o, i),
    ensures
        f[i] == o[i],
{
    assert(task_scheduled(o, f, epoch, i));
}

/// A scheduling pass changes dates only: every other field of every task
/// survives it.
pub proof fn lemma_scheduled_same_fields(o: Seq<Task>, f: Seq<Task>, epoch: int)
    requires
        scheduled(o, f, epoch),
    ensures
        forall|i: int| 0 <= i < o.len() ==> same_except_dates(#[trigger] o[i], f[i]),
{
    assert forall|i: int| 0 <= i < o.len() implies same_except_dates(#[trigger] o[i], f[i]) by {
        assert(task_scheduled(o, f, epoch, i));
    }
}

/// Gating is read from ids, resources, positions and declared successors
/// alone, so two collections equal up to dates carry the same graph.
proof fn lemma_same_fields_same_graph(o: Seq<Task>, f: Seq<Task>)
    requires
        o.len() == f.len(),
        forall|i: int| 0 <= i < o.len() ==> same_except_dates(#[trigger] o[i], f[i]),
    ensures
        forall|p: int, s: int| succ(f, p, s) <==> succ(o, p, s),
        forall|i: int| has_pred(f, i) <==> has_pred(o, i),
        forall|i: int| has_succ(f, i) <==> has_succ(o, i),
        forall|i: int| 0 <= i < o.len() ==> completed_days(#[trigger] f[i]) == completed_days(o[i]),
{
    assert forall|i: int| 0 <= i < o.len() implies deps_of(#[trigger] f[i]) == deps_of(o[i]) by {
        assert(f[i].dependencies == o[i].dependencies);
    }
    assert forall|p: int, s: int| succ(f, p, s) <==> succ(o, p, s) by {
        if 0 <= p < o.len() && 0 <= s < o.len() {
            assert(f[s].id@ == o[s].id@);
            assert(dep_edge(f, p, s) <==> dep_edge(o, p, s));
            assert(forall|a: int, b: int|
                0 <= a < o.len() && 0 <= b < o.len() ==> (lane_lt(f, a, b) <==> lane_lt(o, a, b)));
            assert(forall|k: int| lane_cand(f, p, k) <==> lane_cand(o, p, k));
            assert(lane_edge(f, p, s) <==> lane_edge(o, p, s));
        }
    }
    assert forall|i: int| has_pred(f, i) <==> has_pred(o, i) by {
        if has_pred(f, i) {
            let p = choose|p: int| 0 <= p < f.len() && succ(f, p, i);
            assert(succ(o, p, i));
        }
        if has_pred(o, i) {
            let p = choose|p: int| 0 <= p < o.len() && succ(o, p, i);
            assert(succ(f, p, i));
        }
    }
    assert forall|i: int| has_succ(f, i) <==> has_succ(o, i) by {
        if has_succ(f, i) {
            let s = choose|s: int| 0 <= s < f.len() && succ(f, i, s);
            assert(succ(o, i, s));
        }
        if has_succ(o, i) {
            let s = choose|s: int| 0 <= s < o.len() && succ(o, i, s);
            assert(succ(f, i, s));
        }
    }
}

/// Along a topological order, the first `k` tasks of a second scheduling
/// pass repeat the first pass exactly.
proof fn lemma_idem_prefix(
    o: Seq<Task>,
    f1: Seq<Task>,
    f2: Seq<Task>,
    epoch: int,
    ord: Seq<usize>,
    k: int,
)
    requires
        o.len() <= usize::MAX,
        scheduled(o, f1, epoch),
        scheduled(f1, f2, epoch),
        is_topo_tasks(ord, o),
        0 <= k <= ord.len(),
    ensures
        forall|j: int| 0 <= j < k ==> f2[#[trigger] ord[j] as int] == f1[ord[j] as int],
    decreases k,
{
    if k > 0 {
        lemma_idem_prefix(o, f1, f2, epoch, ord, k - 1);
        lemma_scheduled_same_fields(o, f1, epoch);
        lemma_same_fields_same_graph(o, f1);
        let i = ord[k - 1] as int;
        assert(0 <= i < o.len());
        assert(task_scheduled(o, f1, epoch, i));
        assert(task_scheduled(f1, f2, epoch, i));
        if !has_pred(o, i) && has_succ(o, i) {
            assert(f2[i] == f1[i]);
        } else {
            if has_pred(o, i) {
                assert forall|p: int| 0 <= p < o.len() && succ(o, p, i) implies f2[p].end
                    == f1[p].end by {
                    assert(ord.contains(p as usize));
                    let jp = choose|jp: int| 0 <= jp < ord.len() && ord[jp] == p as usize;
                    assert(succ(o, ord[jp] as int, ord[k - 1] as int));
                    assert(jp < k - 1);
                    assert(f2[ord[jp] as int] == f1[ord[jp] as int]);
                }
                lemma_max_pred_fold_eq(f1, f2, o, f1, i, o.len() as int);
                lemma_max_pred_some(o, f1, i, o.len() as int);
                assert(base_of(f1, f2, i) == base_of(o, f1, i));
                assert(base_of(o, f1, i) is Some);
            }
            let ns1 = new_start_of(o, f1, epoch, i);
            let ns2 = new_start_of(f1, f2, epoch, i);
            assert(ns2 == ns1);
            assert(f1[i].start == ns1);
            assert(f2[i].start == f1[i].start);
            assert(f2[i].end == f1[i].end);
            assert(same_except_dates(f1[i], f2[i]));
            assert(f2[i] == f1[i]);
        }
    }
}

/// Scheduling is idempotent: once a pass has brought every task to its
/// computed dates, a second pass with the same epoch changes nothing at all.
pub proof fn lemma_schedule_idempotent(o: Seq<Task>, f1: Seq<Task>, f2: Seq<Task>, epoch: int)
    requires
        o.len() <= usize::MAX,
        scheduled(o, f1, epoch),
        scheduled(f1, f2, epoch),
        exists|ord: Seq<usize>| is_topo_tasks(ord, o),
    ensures
        f2 == f1,
{
    let ord = choose|ord: Seq<usize>| is_topo_tasks(ord, o);
    lemma_idem_prefix(o, f1, f2, epoch, ord, ord.len() as int);
    assert forall|i: int| 0 <= i < f1.len() implies f2[i] == f1[i] by {
        assert(ord.contains(i as usize));
        let j = choose|j: int| 0 <= j < ord.len() && ord[j] == i as usize;
        assert(f2[ord[j] as int] == f1[ord[j] as int]);
    }
    assert(f2 =~= f1);
}

} // verus!
