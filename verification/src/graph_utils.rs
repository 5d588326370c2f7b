//! Construction and traversal of the dependency graph.
//!
//! The graph is an index-based adjacency list with one entry per task: entry
//! `p` holds the indices of the tasks that task `p` gates. Edges come from
//! two sources: the successor ids each task declares, and resource-lane
//! sequencing (within the tasks sharing a resource, ordered by `position`
//! with input order breaking ties, each task gates the next one).

use vstd::prelude::*;

verus! {

use crate::{Graph, Task, ScheduleError, deps_of};

broadcast use vstd::seq_lib::lemma_seq_contains_after_push;

/// All task ids are pairwise distinct.
pub open spec fn unique_ids(ts: Seq<Task>) -> bool {
    forall|i: int, j: int| 0 <= i < j < ts.len() ==> ts[i].id@ != ts[j].id@
}

/// The id names some task of the collection.
pub open spec fn resolves(ts: Seq<Task>, id: Seq<char>) -> bool {
    exists|k: int| 0 <= k < ts.len() && ts[k].id@ == id
}

/// Every declared successor id names a task of the collection.
pub open spec fn deps_resolve(ts: Seq<Task>) -> bool {
    forall|i: int, j: int|
        0 <= i < ts.len() && 0 <= j < deps_of(ts[i]).len() ==> resolves(ts, deps_of(ts[i])[j])
}

/// Task `p` declares task `s` among its gated successors.
pub open spec fn dep_edge(ts: Seq<Task>, p: int, s: int) -> bool {
    &&& 0 <= p < ts.len()
    &&& 0 <= s < ts.len()
    &&& deps_of(ts[p]).contains(ts[s].id@)
}

/// Task `a` comes before task `b` in its resource lane: ascending `position`,
/// with the input order as a stable tie-break.
pub open spec fn lane_lt(ts: Seq<Task>, a: int, b: int) -> bool {
    ||| ts[a].position < ts[b].position
    ||| (ts[a].position == ts[b].position && a < b)
}

/// Task `s` runs on the same resource as task `p` and comes after it.
pub open spec fn lane_cand(ts: Seq<Task>, p: int, s: int) -> bool {
    &&& 0 <= p < ts.len()
    &&& 0 <= s < ts.len()
    &&& ts[s].resource_id@ == ts[p].resource_id@
    &&& lane_lt(ts, p, s)
}

/// Task `s` is the task immediately after `p` in `p`'s resource lane.
pub open spec fn lane_edge(ts: Seq<Task>, p: int, s: int) -> bool {
    &&& lane_cand(ts, p, s)
    &&& forall|k: int| lane_cand(ts, p, k) && k != s ==> lane_lt(ts, s, k)
}

/// Task `p` gates task `s`: by a declared successor id or by lane order.
pub open spec fn succ(ts: Seq<Task>, p: int, s: int) -> bool {
    dep_edge(ts, p, s) || lane_edge(ts, p, s)
}

/// Some task gates task `i`.
pub open spec fn has_pred(ts: Seq<Task>, i: int) -> bool {
    exists|p: int| 0 <= p < ts.len() && succ(ts, p, i)
}

/// Task `i` gates some task.
pub open spec fn has_succ(ts: Seq<Task>, i: int) -> bool {
    exists|s: int| 0 <= s < ts.len() && succ(ts, i, s)
}

/// The graph has an edge from `p` to `s`.
pub open spec fn edge(g: Seq<Vec<usize>>, p: int, s: int) -> bool {
    0 <= p < g.len() && 0 <= s < g.len() && g[p]@.contains(s as usize)
}

/// Every edge target is a node of the graph.
pub open spec fn graph_wf(g: Seq<Vec<usize>>) -> bool {
    forall|p: int, k: int| 0 <= p < g.len() && 0 <= k < g[p]@.len() ==> g[p]@[k] < g.len()
}

/// The graph's edges are exactly the gating relationships of the tasks.
pub open spec fn graph_of(g: Seq<Vec<usize>>, ts: Seq<Task>) -> bool {
    &&& g.len() == ts.len()
    &&& forall|p: int, s: int| edge(g, p, s) <==> succ(ts, p, s)
}

/// The index of the task with the given id, by linear search.
fn find_index_by_id(tasks: &Vec<Task>, id: &String) -> (r: Option<usize>)
    ensures
        match r {
            Some(s) => s < tasks@.len() && tasks@[s as int].id@ == id@,
            None => !resolves(tasks@, id@),
        },
{
    let n = tasks.len();
    let mut k: usize = 0;
    while k < n
        invariant
            n == tasks@.len(),
            k <= n,
            forall|j: int| 0 <= j < k ==> tasks@[j].id@ != id@,
        decreases n - k,
    {
        if tasks[k].id == *id {
            return Some(k);
        }
        k = k + 1;
    }
    None
}

/// Build the dependency graph of a task collection: one entry per task,
/// holding the indices of its declared successors plus the next task of its
/// resource lane. Fails when a declared successor id names no task.
pub fn make_graph_from_tasks(tasks: &Vec<Task>) -> (r: Result<Graph, ScheduleError>)
    requires
        unique_ids(tasks@),
    ensures
        match r {
            Ok(g) => graph_of(g@, tasks@) && graph_wf(g@) && deps_resolve(tasks@),
            Err(e) => {
                &&& !deps_resolve(tasks@)
                &&& e matches ScheduleError::UnresolvedReference(id) && !resolves(
                    tasks@,
                    id@,
                )
            },
        },
{
    let ghost ts = tasks@;
    let n = tasks.len();
    let mut edges: Vec<Vec<usize>> = Vec::new();
    let mut p: usize = 0;
    while p < n
        invariant
            n == ts.len(),
            tasks@ == ts,
            unique_ids(ts),
            p <= n,
            edges@.len() == p,
            forall|q: int, s: usize| 0 <= q < p ==> (edges@[q]@.contains(s) <==> succ(ts, q, s as int)),
            forall|q: int, k: int|
                0 <= q < p && 0 <= k < edges@[q]@.len() ==> edges@[q]@[k] < n,
            forall|i: int, j: int|
                0 <= i < p && 0 <= j < deps_of(ts[i]).len() ==> resolves(ts, deps_of(ts[i])[j]),
        decreases n - p,
    {
        let mut row: Vec<usize> = Vec::new();
        // Declared successor ids, resolved to indices.
        let t = &tasks[p];
        if let Some(deps) = &t.dependencies {
            let m = deps.len();
            let mut j: usize = 0;
            while j < m
                invariant
                    n == ts.len(),
                    tasks@ == ts,
                    unique_ids(ts),
                    p < n,
                    m == deps_of(ts[p as int]).len(),
                    deps@.len() == m,
                    forall|j2: int| 0 <= j2 < m ==> deps@[j2]@ == deps_of(ts[p as int])[j2],
                    j <= m,
                    forall|s: usize|
                        row@.contains(s) <==> (exists|j2: int|
                            0 <= j2 < j && 0 <= s < n && ts[s as int].id@ == deps_of(
                                ts[p as int],
                            )[j2]),
                    forall|k: int| 0 <= k < row@.len() ==> row@[k] < n,
                    forall|j2: int| 0 <= j2 < j ==> resolves(ts, deps_of(ts[p as int])[j2]),
                decreases m - j,
            {
                match find_index_by_id(tasks, &deps[j]) {
                    Some(s) => {
                        row.push(s);
                        proof {
                            assert(ts[s as int].id@ == deps_of(ts[p as int])[j as int]);
                            assert forall|s2: usize|
                                row@.contains(s2) implies (exists|j2: int|
                                0 <= j2 < j + 1 && 0 <= s2 < n && ts[s2 as int].id@ == deps_of(
                                    ts[p as int],
                                )[j2]) by {
                                if s2 == s {
                                    assert(0 <= j < j + 1 && 0 <= s2 < n && ts[s2 as int].id@
                                        == deps_of(ts[p as int])[j as int]);
                                }
                            }
                            assert forall|s2: usize|
                                (exists|j2: int|
                                    0 <= j2 < j + 1 && 0 <= s2 < n && ts[s2 as int].id@ == deps_of(
                                        ts[p as int],
                                    )[j2]) implies row@.contains(s2) by {
                                let j2 = choose|j2: int|
                                    0 <= j2 < j + 1 && 0 <= s2 < n && ts[s2 as int].id@ == deps_of(
                                        ts[p as int],
                                    )[j2];
                                if j2 == j {
                                    assert(ts[s2 as int].id@ == ts[s as int].id@);
                                    assert(s2 == s);
                                }
                            }
                        }
                    },
                    None => {
                        assert(!resolves(ts, deps_of(ts[p as int])[j as int]));
                        assert(!deps_resolve(ts));
                        return Err(ScheduleError::UnresolvedReference(deps[j].clone()));
                    },
                }
                j = j + 1;
            }
        }
        assert(forall|s: usize| row@.contains(s) <==> dep_edge(ts, p as int, s as int));
        // The task that follows in the resource lane, if any.
        let mut best: Option<usize> = None;
        let mut s: usize = 0;
        while s < n
            invariant
                n == ts.len(),
                tasks@ == ts,
                p < n,
                s <= n,
                match best {
                    None => forall|k: int| 0 <= k < s ==> !lane_cand(ts, p as int, k),
                    Some(b) => {
                        &&& b < s
                        &&& lane_cand(ts, p as int, b as int)
                        &&& forall|k: int|
                            0 <= k < s && lane_cand(ts, p as int, k) && k != b ==> lane_lt(
                                ts,
                                b as int,
                                k,
                            )
                    },
                },
            decreases n - s,
        {
            if s != p && tasks[s].resource_id == tasks[p].resource_id {
                let cand_lt = tasks[p].position < tasks[s].position || (tasks[p].position
                    == tasks[s].position && p < s);
                if cand_lt {
                    best = match best {
                        None => Some(s),
                        Some(b) => {
                            let new_lt = tasks[s].position < tasks[b].position
                                || (tasks[s].position == tasks[b].position && s < b);
                            if new_lt {
                                Some(s)
                            } else {
                                Some(b)
                            }
                        },
                    };
                }
            }
            s = s + 1;
        }
        let ghost row_before = row@;
        if let Some(b) = best {
            row.push(b);
            assert(lane_edge(ts, p as int, b as int));
            assert(forall|s2: int|
                lane_edge(ts, p as int, s2) && s2 != b ==> (lane_lt(ts, b as int, s2) && lane_lt(
                    ts,
                    s2,
                    b as int,
                )));
        }
        assert(forall|s2: usize| row@.contains(s2) <==> succ(ts, p as int, s2 as int));
        edges.push(row);
        p = p + 1;
    }
    assert forall|p2: int, s2: int| edge(edges@, p2, s2) <==> succ(ts, p2, s2) by {
        if 0 <= p2 < n && 0 <= s2 < n {
            assert(edges@[p2]@.contains(s2 as usize) <==> succ(ts, p2, (s2 as usize) as int));
        }
    }
    Ok(edges)
}

/// Whether the value occurs in the vector, by linear scan.
pub(crate) fn contains_usize(v: &Vec<usize>, x: usize) -> (r: bool)
    ensures
        r == v@.contains(x),
{
    let n = v.len();
    let mut k: usize = 0;
    while k < n
        invariant
            n == v@.len(),
            k <= n,
            forall|j: int| 0 <= j < k ==> v@[j] != x,
        decreases n - k,
    {
        if v[k] == x {
            return true;
        }
        k = k + 1;
    }
    false
}

/// Build the predecessor view of a graph: entry `s` holds, in ascending order
/// and without repetition, every `p` with an edge `p -> s`. Built by walking
/// every edge explicitly, so no incoming edge is ever lost or overwritten.
pub fn make_reverse_graph(graph: &Graph) -> (rev: Graph)
    requires
        graph_wf(graph@),
    ensures
        rev@.len() == graph@.len(),
        graph_wf(rev@),
        forall|p: usize, s: int|
            0 <= s < rev@.len() ==> (rev@[s]@.contains(p) <==> edge(graph@, p as int, s)),
        forall|s: int, k1: int, k2: int|
            0 <= s < rev@.len() && 0 <= k1 < k2 < rev@[s]@.len() ==> rev@[s]@[k1] < rev@[s]@[k2],
{
    let n = graph.len();
    let mut rev: Vec<Vec<usize>> = Vec::new();
    let mut s: usize = 0;
    while s < n
        invariant
            n == graph@.len(),
            graph_wf(graph@),
            s <= n,
            rev@.len() == s,
            forall|s2: int, p: usize| 0 <= s2 < s ==> (rev@[s2]@.contains(p) <==> edge(
                graph@,
                p as int,
                s2,
            )),
            forall|s2: int, k: int| 0 <= s2 < s && 0 <= k < rev@[s2]@.len() ==> rev@[s2]@[k] < n,
            forall|s2: int, k1: int, k2: int|
                0 <= s2 < s && 0 <= k1 < k2 < rev@[s2]@.len() ==> rev@[s2]@[k1] < rev@[s2]@[k2],
        decreases n - s,
    {
        let mut row: Vec<usize> = Vec::new();
        let mut p: usize = 0;
        while p < n
            invariant
                n == graph@.len(),
                graph_wf(graph@),
                s < n,
                p <= n,
                forall|p2: usize| row@.contains(p2) <==> (p2 < p && edge(graph@, p2 as int, s as int)),
                forall|k: int| 0 <= k < row@.len() ==> row@[k] < p,
                forall|k1: int, k2: int| 0 <= k1 < k2 < row@.len() ==> row@[k1] < row@[k2],
            decreases n - p,
        {
            if contains_usize(&graph[p], s) {
                row.push(p);
            }
            p = p + 1;
        }
        rev.push(row);
        s = s + 1;
    }
    rev
}

/// Appending a fresh value keeps a sequence free of repetition.
proof fn lemma_push_distinct(s: Seq<usize>, v: usize)
    requires
        s.no_duplicates(),
        !s.contains(v),
    ensures
        s.push(v).no_duplicates(),
{
    assert(forall|i: int, j: int| 0 <= i < s.len() && 0 <= j < 1 ==> s[i] != seq![v][j]);
    vstd::seq_lib::lemma_no_dup_in_concat(s, seq![v]);
    assert(s.push(v) =~= s + seq![v]);
}

/// A sequence without repetition whose entries are exactly the values below
/// `n` has exactly `n` entries.
pub(crate) proof fn lemma_order_length(s: Seq<usize>, n: nat)
    requires
        n <= usize::MAX,
        s.no_duplicates(),
        forall|k: int| 0 <= k < s.len() ==> s[k] < n,
        forall|i: usize| i < n ==> s.contains(i),
    ensures
        s.len() == n,
{
    lemma_distinct_bounded(s, n);
    lemma_distinct_covering_ge(s, n);
}

/// A sequence without repetition that holds every value below `n` has at
/// least `n` entries.
proof fn lemma_distinct_covering_ge(s: Seq<usize>, n: nat)
    requires
        n <= usize::MAX,
        s.no_duplicates(),
        forall|i: usize| i < n ==> s.contains(i),
    ensures
        s.len() >= n,
{
    broadcast use vstd::seq_lib::seq_to_set_is_finite;

    let m = s.map_values(|x: usize| x as int);
    assert(m.no_duplicates());
    m.unique_seq_to_set();
    assert(vstd::set_lib::set_int_range(0, n as int).subset_of(m.to_set())) by {
        assert forall|x: int| 0 <= x < n implies m.to_set().contains(x) by {
            assert(s.contains(x as usize));
            let k = choose|k: int| 0 <= k < s.len() && s[k] == x as usize;
            assert(m[k] == x);
        }
    }
    vstd::set_lib::lemma_int_range(0, n as int);
    vstd::set_lib::lemma_len_subset(vstd::set_lib::set_int_range(0, n as int), m.to_set());
}

/// Distinct values below `n`, jointly: a sequence and a disjoint sequence
/// cannot hold more than `n` values between them.
proof fn lemma_distinct_disjoint_bounded(a: Seq<usize>, b: Seq<usize>, n: nat)
    requires
        a.no_duplicates(),
        b.no_duplicates(),
        forall|k: int| 0 <= k < a.len() ==> a[k] < n,
        forall|k: int| 0 <= k < b.len() ==> b[k] < n,
        forall|x: usize| a.contains(x) ==> !b.contains(x),
    ensures
        a.len() + b.len() <= n,
{
    let c = a + b;
    assert(c.no_duplicates()) by {
        assert forall|i: int, j: int| 0 <= i < c.len() && 0 <= j < c.len() && i != j implies c[i]
            != c[j] by {
            if i < a.len() && j >= a.len() {
                assert(a.contains(c[i]) && b.contains(c[j]));
            } else if j < a.len() && i >= a.len() {
                assert(a.contains(c[j]) && b.contains(c[i]));
            }
        }
    }
    lemma_distinct_bounded(c, n);
}

/// A sequence of distinct values below `n` has at most `n` entries.
proof fn lemma_distinct_bounded(s: Seq<usize>, n: nat)
    requires
        s.no_duplicates(),
        forall|k: int| 0 <= k < s.len() ==> s[k] < n,
    ensures
        s.len() <= n,
{
    let m = s.map_values(|x: usize| x as int);
    assert(m.no_duplicates());
    m.unique_seq_to_set();
    assert(m.to_set().subset_of(vstd::set_lib::set_int_range(0, n as int))) by {
        assert forall|x: int| m.to_set().contains(x) implies 0 <= x < n by {
            let k = choose|k: int| 0 <= k < m.len() && m[k] == x;
            assert(s[k] < n);
        }
    }
    vstd::set_lib::lemma_int_range(0, n as int);
    vstd::set_lib::lemma_len_subset(m.to_set(), vstd::set_lib::set_int_range(0, n as int));
}

/// A sequence of `n` distinct values below `n` holds every value below `n`.
proof fn lemma_distinct_full(s: Seq<usize>, n: nat)
    requires
        s.no_duplicates(),
        forall|k: int| 0 <= k < s.len() ==> s[k] < n,
        s.len() == n,
    ensures
        forall|i: usize| i < n ==> s.contains(i),
{
    assert forall|i: usize| i < n implies s.contains(i) by {
        if !s.contains(i) {
            let m = s.map_values(|x: usize| x as int);
            assert(m.no_duplicates());
            m.unique_seq_to_set();
            let range = vstd::set_lib::set_int_range(0, n as int).remove(i as int);
            assert(m.to_set().subset_of(range)) by {
                assert forall|x: int| m.to_set().contains(x) implies range.contains(x) by {
                    let k = choose|k: int| 0 <= k < m.len() && m[k] == x;
                    assert(s[k] < n);
                    assert(s[k] != i);
                }
            }
            vstd::set_lib::lemma_int_range(0, n as int);
            vstd::set_lib::lemma_len_subset(m.to_set(), range);
            assert(range.len() == n - 1);
            assert(false);
        }
    }
}

/// Visit every node of the graph exactly once: a depth-first walk from each
/// not-yet-visited root, skipping (never aborting on) already-visited nodes,
/// so every connected component is covered in full.
pub fn dfs(graph: &Graph) -> (order: Vec<usize>)
    requires
        graph_wf(graph@),
    ensures
        order@.no_duplicates(),
        forall|k: int| 0 <= k < order@.len() ==> order@[k] < graph@.len(),
        forall|i: usize| i < graph@.len() ==> order@.contains(i),
        order@.len() == graph@.len(),
{
    let n = graph.len();
    let mut visited: Vec<bool> = Vec::new();
    let mut f: usize = 0;
    while f < n
        invariant
            visited@.len() == f,
            f <= n,
            forall|i: int| 0 <= i < f ==> !visited@[i],
        decreases n - f,
    {
        visited.push(false);
        f = f + 1;
    }
    let mut order: Vec<usize> = Vec::new();
    let mut root: usize = 0;
    while root < n
        invariant
            n == graph@.len(),
            graph_wf(graph@),
            visited@.len() == n,
            root <= n,
            order@.no_duplicates(),
            forall|k: int| 0 <= k < order@.len() ==> order@[k] < n,
            forall|i: usize| i < n ==> (visited@[i as int] <==> order@.contains(i)),
            forall|i: int| 0 <= i < root ==> visited@[i],
        decreases n - root,
    {
        if !visited[root] {
            let mut stack: Vec<usize> = Vec::new();
            stack.push(root);
            visited.set(root, true);
            while stack.len() > 0
                invariant
                    n == graph@.len(),
                    graph_wf(graph@),
                    visited@.len() == n,
                    root < n,
                    order@.no_duplicates(),
                    stack@.no_duplicates(),
                    forall|k: int| 0 <= k < order@.len() ==> order@[k] < n,
                    forall|k: int| 0 <= k < stack@.len() ==> stack@[k] < n,
                    forall|i: usize|
                        i < n ==> (visited@[i as int] <==> (order@.contains(i) || stack@.contains(
                            i,
                        ))),
                    forall|x: usize| order@.contains(x) ==> !stack@.contains(x),
                    forall|i: int| 0 <= i < root ==> visited@[i],
                    visited@[root as int],
                decreases n - order@.len(),
            {
                proof {
                    lemma_distinct_disjoint_bounded(order@, stack@, n as nat);
                }
                let ghost stack_before = stack@;
                let ghost order_before = order@;
                let cur = match stack.pop() {
                    Some(c) => c,
                    None => {
                        return order;  // unreachable: the stack is not empty
                    },
                };
                proof {
                    assert(stack_before =~= stack@.push(cur));
                    assert(stack_before.contains(cur));
                    assert(!order_before.contains(cur));
                    assert(!stack@.contains(cur)) by {
                        if stack@.contains(cur) {
                            let k = choose|k: int| 0 <= k < stack@.len() && stack@[k] == cur;
                            assert(stack_before[k] == cur);
                            assert(stack_before[stack_before.len() - 1] == cur);
                        }
                    }
                    lemma_push_distinct(order_before, cur);
                }
                order.push(cur);
                let deps = &graph[cur];
                let m = deps.len();
                let mut k: usize = 0;
                while k < m
                    invariant
                        n == graph@.len(),
                        graph_wf(graph@),
                        visited@.len() == n,
                        root < n,
                        cur < n,
                        m == deps@.len(),
                        deps@ == graph@[cur as int]@,
                        k <= m,
                        order@.no_duplicates(),
                        stack@.no_duplicates(),
                        forall|k2: int| 0 <= k2 < order@.len() ==> order@[k2] < n,
                        forall|k2: int| 0 <= k2 < stack@.len() ==> stack@[k2] < n,
                        forall|i: usize|
                            i < n ==> (visited@[i as int] <==> (order@.contains(i)
                                || stack@.contains(i))),
                        forall|x: usize| order@.contains(x) ==> !stack@.contains(x),
                        forall|i: int| 0 <= i < root ==> visited@[i],
                        visited@[root as int],
                        order@.contains(cur),
                    decreases m - k,
                {
                    let s = deps[k];
                    if !visited[s] {
                        proof {
                            lemma_push_distinct(stack@, s);
                        }
                        visited.set(s, true);
                        stack.push(s);
                    }
                    k = k + 1;
                }
            }
        }
        root = root + 1;
    }
    proof {
        lemma_order_length(order@, n as nat);
    }
    order
}

/// The order visits every node exactly once and never visits the target of an
/// edge before its source.
pub open spec fn is_topo(ord: Seq<usize>, g: Seq<Vec<usize>>) -> bool {
    &&& ord.no_duplicates()
    &&& forall|k: int| 0 <= k < ord.len() ==> ord[k] < g.len()
    &&& forall|i: usize| i < g.len() ==> ord.contains(i)
    &&& forall|k1: int, k2: int|
        0 <= k1 < ord.len() && 0 <= k2 < ord.len() && edge(g, ord[k1] as int, ord[k2] as int)
            ==> k1 < k2
}

/// A node not yet scheduled whose incoming edges all come from scheduled
/// nodes, if any such node exists.
fn find_ready(graph: &Graph, done: &Vec<bool>) -> (r: Option<usize>)
    requires
        graph_wf(graph@),
        done@.len() == graph@.len(),
    ensures
        match r {
            Some(i) => i < graph@.len() && !done@[i as int] && forall|p: int|
                edge(graph@, p, i as int) ==> done@[p],
            None => forall|i: int|
                0 <= i < graph@.len() && !done@[i] ==> exists|p: int|
                    edge(graph@, p, i) && !done@[p],
        },
{
    let n = graph.len();
    let mut i: usize = 0;
    while i < n
        invariant
            n == graph@.len(),
            graph_wf(graph@),
            done@.len() == n,
            i <= n,
            forall|i2: int|
                0 <= i2 < i && !done@[i2] ==> exists|p: int| edge(graph@, p, i2) && !done@[p],
        decreases n - i,
    {
        if !done[i] {
            let mut blocked = false;
            let ghost mut witness: int = 0;
            let mut p: usize = 0;
            while p < n
                invariant
                    n == graph@.len(),
                    graph_wf(graph@),
                    done@.len() == n,
                    i < n,
                    p <= n,
                    blocked ==> edge(graph@, witness, i as int) && !done@[witness],
                    !blocked ==> forall|p2: int| 0 <= p2 < p && edge(graph@, p2, i as int)
                        ==> done@[p2],
                decreases n - p,
            {
                if !blocked && !done[p] {
                    if contains_usize(&graph[p], i) {
                        blocked = true;
                        proof {
                            witness = p as int;
                        }
                    }
                }
                p = p + 1;
            }
            if !blocked {
                return Some(i);
            }
        }
        i = i + 1;
    }
    None
}

/// The smallest position at or before `k` holding a value not yet done; every
/// earlier position holds a done value.
proof fn lemma_min_undone(ord: Seq<usize>, done: Seq<bool>, k: int) -> (m: int)
    requires
        0 <= k < ord.len(),
        forall|k2: int| 0 <= k2 < ord.len() ==> ord[k2] < done.len(),
        !done[ord[k] as int],
    ensures
        0 <= m <= k,
        !done[ord[m] as int],
        forall|j: int| 0 <= j < m ==> done[ord[j] as int],
    decreases k,
{
    if forall|j: int| 0 <= j < k ==> done[ord[j] as int] {
        k
    } else {
        let j0 = choose|j: int| 0 <= j < k && !done[ord[j] as int];
        lemma_min_undone(ord, done, j0)
    }
}

/// When every unfinished node is blocked by an unfinished predecessor, the
/// graph admits no topological order at all.
proof fn lemma_blocked_no_topo(g: Seq<Vec<usize>>, done: Seq<bool>, i0: int)
    requires
        g.len() <= usize::MAX,
        done.len() == g.len(),
        0 <= i0 < g.len(),
        !done[i0],
        forall|i: int| 0 <= i < g.len() && !done[i] ==> exists|p: int| edge(g, p, i) && !done[p],
    ensures
        !(exists|ord: Seq<usize>| is_topo(ord, g)),
{
    assert forall|ord: Seq<usize>| !is_topo(ord, g) by {
        if is_topo(ord, g) {
            assert(ord.contains(i0 as usize));
            let k0 = choose|k: int| 0 <= k < ord.len() && ord[k] == i0 as usize;
            assert(!done[ord[k0] as int]);
            let m = lemma_min_undone(ord, done, k0);
            let i = ord[m];
            assert(exists|p: int| edge(g, p, i as int) && !done[p]);
            let p = choose|p: int| edge(g, p, i as int) && !done[p];
            assert(0 <= p < g.len());
            assert(ord.contains(p as usize));
            let j = choose|j: int| 0 <= j < ord.len() && ord[j] == p as usize;
            assert(edge(g, ord[j] as int, ord[m] as int));
            assert(j < m);
            assert(done[ord[j] as int]);
            assert(false);
        }
    }
}

/// An order of all nodes in which every node comes after all of its
/// predecessors, or the report that the gating edges contain a cycle and no
/// such order exists.
pub fn topo_order(graph: &Graph) -> (r: Result<Vec<usize>, ScheduleError>)
    requires
        graph_wf(graph@),
    ensures
        match r {
            Ok(ord) => is_topo(ord@, graph@),
            Err(e) => {
                &&& e == ScheduleError::CyclicDependency
                &&& !(exists|ord: Seq<usize>| is_topo(ord, graph@))
            },
        },
{
    let n = graph.len();
    let mut done: Vec<bool> = Vec::new();
    let mut f: usize = 0;
    while f < n
        invariant
            done@.len() == f,
            f <= n,
            forall|i: int| 0 <= i < f ==> !done@[i],
        decreases n - f,
    {
        done.push(false);
        f = f + 1;
    }
    let mut ord: Vec<usize> = Vec::new();
    while ord.len() < n
        invariant
            n == graph@.len(),
            graph_wf(graph@),
            done@.len() == n,
            ord@.no_duplicates(),
            ord@.len() <= n,
            forall|k: int| 0 <= k < ord@.len() ==> ord@[k] < n,
            forall|i: usize| i < n ==> (done@[i as int] <==> ord@.contains(i)),
            forall|k: int, p: int|
                0 <= k < ord@.len() && edge(graph@, p, ord@[k] as int) ==> exists|j: int|
                    0 <= j < k && ord@[j] as int == p,
        decreases n - ord@.len(),
    {
        let ghost ord_before = ord@;
        let ghost done_before = done@;
        match find_ready(graph, &done) {
            Some(i) => {
                proof {
                    lemma_push_distinct(ord@, i);
                }
                done.set(i, true);
                ord.push(i);
                proof {
                    lemma_distinct_bounded(ord@, n as nat);
                    assert forall|k: int, p: int|
                        0 <= k < ord@.len() && edge(graph@, p, ord@[k] as int) implies exists|
                        j: int,
                    | 0 <= j < k && ord@[j] as int == p by {
                        if k < ord_before.len() {
                            assert(ord_before[k] == ord@[k]);
                            let j = choose|j: int|
                                0 <= j < k && ord_before[j] as int == p && edge(
                                    graph@,
                                    p,
                                    ord_before[k] as int,
                                );
                            assert(0 <= j < k && ord@[j] as int == p);
                        } else {
                            assert(edge(graph@, p, i as int));
                            assert(done_before[p]);
                            assert(ord_before.contains(p as usize));
                            let j = choose|j: int|
                                0 <= j < ord_before.len() && ord_before[j] == p as usize;
                            assert(0 <= j < k && ord@[j] as int == p);
                        }
                    }
                }
            },
            None => {
                proof {
                    if forall|i: int| 0 <= i < n ==> done@[i] {
                        assert(forall|i: usize| i < n ==> ord@.contains(i));
                        lemma_distinct_covering_ge(ord@, n as nat);
                        assert(false);
                    }
                    let i0 = choose|i: int| 0 <= i < n && !done@[i];
                    lemma_blocked_no_topo(graph@, done@, i0);
                }
                return Err(ScheduleError::CyclicDependency);
            },
        }
    }
    proof {
        lemma_distinct_full(ord@, n as nat);
        assert forall|k1: int, k2: int|
            0 <= k1 < ord@.len() && 0 <= k2 < ord@.len() && edge(
                graph@,
                ord@[k1] as int,
                ord@[k2] as int,
            ) implies k1 < k2 by {
            let j = choose|j: int| 0 <= j < k2 && ord@[j] as int == ord@[k1] as int;
            assert(ord@[j] == ord@[k1]);
        }
    }
    Ok(ord)
}

} // verus!
