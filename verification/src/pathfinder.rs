//! Minimum-cost paths by uniform-cost search.
//!
//! The work list is a min-priority queue of candidate paths, realised by the
//! outside `priority_queue` crate behind trusted wrappers. Priorities are
//! stored complemented (the crate pops the greatest priority, the search
//! wants the least cost), with a second component that breaks cost ties in
//! insertion order. An explored set guarantees each node is expanded at most
//! once, so the search terminates on any graph, cycles included; a
//! cost-bounded frontier invariant shows the search finds a minimum-cost
//! path whenever any path exists.

use std::collections::HashSet;
use vstd::multiset::Multiset;
use vstd::prelude::*;

use crate::geom::{sq_dist, sqrt_floor, EDGE_COST_LIMIT};
use crate::graph::{map_ok, Graph, Node};

verus! {

broadcast use vstd::multiset::group_multiset_axioms;

/// A candidate path of the search: the node sequence walked so far and its
/// accumulated cost (sum of floor-of-Euclidean edge lengths).
pub struct GraphPath {
    pub path: Vec<u64>,
    pub cost: u128,
}

/// `b` is a direct successor of `a` in the graph.
pub open spec fn edge_ok(gm: Map<u64, Node>, a: u64, b: u64) -> bool {
    gm.contains_key(a) && gm.contains_key(b) && gm[a].neighbors@.contains(b)
}

/// `p` walks the graph: nonempty, every node present, every step an edge.
pub open spec fn is_path(gm: Map<u64, Node>, p: Seq<u64>) -> bool {
    &&& p.len() > 0
    &&& forall|k: int| 0 <= k < p.len() ==> gm.contains_key(#[trigger] p[k])
    &&& forall|k: int| 0 <= k < p.len() - 1 ==> edge_ok(gm, #[trigger] p[k], p[k + 1])
}

/// `p` walks the graph from `a` to `b`.
pub open spec fn connects(gm: Map<u64, Node>, p: Seq<u64>, a: u64, b: u64) -> bool {
    is_path(gm, p) && p.first() == a && p.last() == b
}

/// Some walk of the graph leads from `a` to `b`.
pub open spec fn reachable(gm: Map<u64, Node>, a: u64, b: u64) -> bool {
    exists|p: Seq<u64>| connects(gm, p, a, b)
}

/// Cost of one edge: the floor of the Euclidean distance between the two
/// endpoints' coordinates.
pub open spec fn edge_cost_spec(gm: Map<u64, Node>, a: u64, b: u64) -> int {
    sqrt_floor(
        sq_dist(gm[a].lat as int, gm[a].lon as int, gm[b].lat as int, gm[b].lon as int),
    )
}

/// Total cost of a walk: the sum of its edge costs.
pub open spec fn path_cost(gm: Map<u64, Node>, p: Seq<u64>) -> int
    decreases p.len(),
{
    if p.len() <= 1 {
        0
    } else {
        path_cost(gm, p.drop_last()) + edge_cost_spec(gm, p[p.len() - 2], p.last())
    }
}

/// `c` is the least cost of any walk from `start` to `n`, witnessed.
#[verifier::opaque]
pub open spec fn optimal_to(gm: Map<u64, Node>, start: u64, n: u64, c: int) -> bool {
    &&& exists|p: Seq<u64>| #[trigger] connects(gm, p, start, n) && path_cost(gm, p) == c
    &&& forall|p: Seq<u64>| #[trigger] connects(gm, p, start, n) ==> path_cost(gm, p) >= c
}

/// Owns the priority queue of the outside crate; opaque to the verifier,
/// spoken of only through [`queue_entries`].
#[verifier::external_body]
pub struct CostQueue {
    inner: priority_queue::PriorityQueue<usize, (u128, u64)>,
}

/// What the queue holds: `(item, major, minor)` entries, where `(major,
/// minor)` is the crate-side priority pair.
pub uninterp spec fn queue_entries(q: &CostQueue) -> Multiset<(usize, u128, u64)>;

/// Relies on `PriorityQueue::new`: a fresh queue is empty.
#[verifier::external_body]
fn q_new() -> (q: CostQueue)
    ensures
        queue_entries(&q) == Multiset::<(usize, u128, u64)>::empty(),
{
    CostQueue { inner: priority_queue::PriorityQueue::new() }
}

/// Relies on `PriorityQueue::push`: inserts the item with its priority. The
/// precondition keeps the item fresh, so no existing entry is replaced.
#[verifier::external_body]
fn q_push(q: &mut CostQueue, item: usize, major: u128, minor: u64)
    requires
        forall|e: (usize, u128, u64)|
            #[trigger] queue_entries(old(q)).count(e) > 0 ==> e.0 != item,
    ensures
        queue_entries(final(q)) == queue_entries(old(q)).insert((item, major, minor)),
{
    q.inner.push(item, (major, minor));
}

/// Relies on `PriorityQueue::pop`: removes and returns an entry whose
/// priority pair is greatest in the lexicographic order `Ord` gives tuples,
/// or `None` exactly when the queue is empty.
#[verifier::external_body]
fn q_pop(q: &mut CostQueue) -> (r: Option<(usize, u128, u64)>)
    ensures
        match r {
            None => queue_entries(old(q)).len() == 0 && queue_entries(final(q)) == queue_entries(
                old(q),
            ),
            Some(e) => {
                &&& queue_entries(old(q)).count(e) > 0
                &&& queue_entries(final(q)) == queue_entries(old(q)).remove(e)
                &&& forall|f: (usize, u128, u64)|
                    #[trigger] queue_entries(old(q)).count(f) > 0 ==> f.1 < e.1 || (f.1 == e.1
                        && f.2 <= e.2)
            },
        },
{
    match q.inner.pop() {
        None => None,
        Some((i, p)) => Some((i, p.0, p.1)),
    }
}

/// The per-entry invariant of the work list: the entry indexes a recorded
/// candidate path that starts at `start`, walks the graph, carries its cost
/// complemented in the priority, records exactly the path's cost, and is
/// bounded as the explored set grows.
pub open spec fn entry_inv(
    gm: Map<u64, Node>,
    paths: Seq<GraphPath>,
    explored: Set<u64>,
    start: u64,
    e: (usize, u128, u64),
) -> bool {
    &&& e.0 < paths.len()
    &&& is_path(gm, paths[e.0 as int].path@)
    &&& paths[e.0 as int].path@.first() == start
    &&& paths[e.0 as int].cost == u128::MAX - e.1
    &&& paths[e.0 as int].cost as int == path_cost(gm, paths[e.0 as int].path@)
    &&& paths[e.0 as int].path@.len() <= explored.len() + 1
    &&& paths[e.0 as int].cost <= (paths[e.0 as int].path@.len() - 1) * (EDGE_COST_LIMIT as int)
}

/// The queue entry `e` records a candidate path ending at `z`.
pub open spec fn path_ends_at(paths: Seq<GraphPath>, e: (usize, u128, u64), z: u64) -> bool {
    e.0 < paths.len() && paths[e.0 as int].path@.last() == z
}

/// Some queued entry records a candidate path ending at `z` whose cost is
/// at most `bound`.
pub open spec fn has_queued_within(
    q: Multiset<(usize, u128, u64)>,
    paths: Seq<GraphPath>,
    z: u64,
    bound: int,
) -> bool {
    exists|e: (usize, u128, u64)|
        #[trigger] q.count(e) > 0 && path_ends_at(paths, e, z) && paths[e.0 as int].cost as int
            <= bound
}

/// Every unexplored successor `z` of an explored node `n` has a queued
/// candidate ending at `z` that costs at most `dist[n]` plus the edge.
#[verifier::opaque]
pub open spec fn pair_covered(
    q: Multiset<(usize, u128, u64)>,
    paths: Seq<GraphPath>,
    gm: Map<u64, Node>,
    explored: Set<u64>,
    dist: Map<u64, int>,
) -> bool {
    forall|n: u64, z: u64|
        #![trigger explored.contains(n), edge_ok(gm, n, z)]
        explored.contains(n) && edge_ok(gm, n, z) && !explored.contains(z) ==> has_queued_within(
            q,
            paths,
            z,
            dist[n] + edge_cost_spec(gm, n, z),
        )
}

/// As [`pair_covered`], but the pairs whose explored node is `last` are
/// excused: the expansion loop is still pushing their candidates.
#[verifier::opaque]
pub open spec fn pair_covered_except(
    q: Multiset<(usize, u128, u64)>,
    paths: Seq<GraphPath>,
    gm: Map<u64, Node>,
    explored: Set<u64>,
    dist: Map<u64, int>,
    last: u64,
) -> bool {
    forall|n: u64, z: u64|
        #![trigger explored.contains(n), edge_ok(gm, n, z)]
        explored.contains(n) && n != last && edge_ok(gm, n, z) && !explored.contains(z)
            ==> has_queued_within(q, paths, z, dist[n] + edge_cost_spec(gm, n, z))
}

/// The neighbor at some index `jj` not yet processed equals `z`.
pub open spec fn j_pending(nbrs: Seq<u64>, from: int, jj: int, z: u64) -> bool {
    from <= jj < nbrs.len() && nbrs[jj] == z
}

/// Every unexplored successor `z` of `last` either has a cheap queued
/// candidate already, or still awaits processing at a neighbor index at
/// least `from`.
#[verifier::opaque]
pub open spec fn last_covered(
    q: Multiset<(usize, u128, u64)>,
    paths: Seq<GraphPath>,
    gm: Map<u64, Node>,
    explored: Set<u64>,
    dist: Map<u64, int>,
    last: u64,
    nbrs: Seq<u64>,
    from: int,
) -> bool {
    forall|z: u64| #[trigger] edge_ok(gm, last, z) && !explored.contains(z) ==> has_queued_within(
        q,
        paths,
        z,
        dist[last] + edge_cost_spec(gm, last, z),
    ) || exists|jj: int| #[trigger] j_pending(nbrs, from, jj, z)
}

/// The step at which a walk leaves the node set `s`.
pub open spec fn crossing_at(p: Seq<u64>, s: Set<u64>, k: int) -> bool {
    0 <= k < p.len() - 1 && s.contains(p[k]) && !s.contains(p[k + 1])
}

/// Dropping the last node of a walk leaves a walk.
proof fn lemma_is_path_drop_last(gm: Map<u64, Node>, p: Seq<u64>)
    requires
        is_path(gm, p),
        p.len() >= 2,
    ensures
        is_path(gm, p.drop_last()),
{
    let q = p.drop_last();
    assert forall|k: int| 0 <= k < q.len() implies gm.contains_key(#[trigger] q[k]) by {
        assert(q[k] == p[k]);
    }
    assert forall|k: int| 0 <= k < q.len() - 1 implies edge_ok(gm, #[trigger] q[k], q[k + 1]) by {
        assert(q[k] == p[k] && q[k + 1] == p[k + 1]);
    }
}

/// A prefix of a walk is a walk with the same first node.
proof fn lemma_is_path_take(gm: Map<u64, Node>, p: Seq<u64>, k: int)
    requires
        is_path(gm, p),
        1 <= k <= p.len(),
    ensures
        is_path(gm, p.take(k)),
        p.take(k).first() == p.first(),
        p.take(k).last() == p[k - 1],
{
    let q = p.take(k);
    assert forall|i: int| 0 <= i < q.len() implies gm.contains_key(#[trigger] q[i]) by {
        assert(q[i] == p[i]);
    }
    assert forall|i: int| 0 <= i < q.len() - 1 implies edge_ok(gm, #[trigger] q[i], q[i + 1]) by {
        assert(q[i] == p[i] && q[i + 1] == p[i + 1]);
    }
}

/// Each edge of the graph costs a nonnegative amount.
proof fn lemma_edge_cost_nonneg(gm: Map<u64, Node>, a: u64, b: u64)
    requires
        map_ok(gm),
        gm.contains_key(a),
        gm.contains_key(b),
    ensures
        edge_cost_spec(gm, a, b) >= 0,
{
    let sq = sq_dist(gm[a].lat as int, gm[a].lon as int, gm[b].lat as int, gm[b].lon as int);
    crate::geom::lemma_sq_dist_nonneg(
        gm[a].lat as int,
        gm[a].lon as int,
        gm[b].lat as int,
        gm[b].lon as int,
    );
    crate::geom::lemma_sqrt_exists(sq);
}

/// A walk never has negative total cost.
proof fn lemma_path_cost_nonneg(gm: Map<u64, Node>, p: Seq<u64>)
    requires
        map_ok(gm),
        is_path(gm, p),
    ensures
        path_cost(gm, p) >= 0,
    decreases p.len(),
{
    if p.len() >= 2 {
        lemma_is_path_drop_last(gm, p);
        lemma_path_cost_nonneg(gm, p.drop_last());
        lemma_edge_cost_nonneg(gm, p[p.len() - 2], p.last());
    }
}

/// Extending a prefix by one step adds that step's edge cost.
proof fn lemma_path_cost_take_step(gm: Map<u64, Node>, p: Seq<u64>, k: int)
    requires
        0 <= k <= p.len() - 2,
    ensures
        path_cost(gm, p.take(k + 2)) == path_cost(gm, p.take(k + 1)) + edge_cost_spec(
            gm,
            p[k],
            p[k + 1],
        ),
{
    let a = p.take(k + 2);
    assert(a.drop_last() =~= p.take(k + 1));
    assert(a[a.len() - 2] == p[k]);
    assert(a.last() == p[k + 1]);
}

/// A prefix of a walk costs no more than the whole walk.
proof fn lemma_path_cost_prefix(gm: Map<u64, Node>, p: Seq<u64>, k: int)
    requires
        map_ok(gm),
        is_path(gm, p),
        1 <= k <= p.len(),
    ensures
        path_cost(gm, p.take(k)) <= path_cost(gm, p),
    decreases p.len() - k,
{
    if k == p.len() {
        assert(p.take(k) =~= p);
    } else {
        lemma_path_cost_take_step(gm, p, k - 1);
        lemma_edge_cost_nonneg(gm, p[k - 1], p[k]);
        lemma_path_cost_prefix(gm, p, k + 1);
    }
}

/// A cheap queued witness survives when the queue only gains entries and
/// the recorded paths only grow.
proof fn lemma_witness_preserved(
    qj: Multiset<(usize, u128, u64)>,
    newq: Multiset<(usize, u128, u64)>,
    pathsj: Seq<GraphPath>,
    pathsn: Seq<GraphPath>,
    z: u64,
    bound: int,
)
    requires
        has_queued_within(qj, pathsj, z, bound),
        forall|e: (usize, u128, u64)| #[trigger] qj.count(e) > 0 ==> newq.count(e) > 0,
        pathsj.len() <= pathsn.len(),
        forall|i: int| 0 <= i < pathsj.len() ==> pathsn[i] == pathsj[i],
    ensures
        has_queued_within(newq, pathsn, z, bound),
{
    let e1 = choose|e1: (usize, u128, u64)|
        #[trigger] qj.count(e1) > 0 && path_ends_at(pathsj, e1, z) && pathsj[e1.0 as int].cost
            as int <= bound;
    assert(newq.count(e1) > 0);
    assert(path_ends_at(pathsn, e1, z));
}

/// Skipping a dangling neighbor keeps the expansion loop's coverage.
proof fn lemma_skip_keeps_coverage(
    q: Multiset<(usize, u128, u64)>,
    paths: Seq<GraphPath>,
    gm: Map<u64, Node>,
    explored: Set<u64>,
    dist: Map<u64, int>,
    last: u64,
    nbrs: Seq<u64>,
    j: int,
    m: u64,
)
    requires
        last_covered(q, paths, gm, explored, dist, last, nbrs, j),
        0 <= j < nbrs.len(),
        nbrs[j] == m,
        !gm.contains_key(m),
    ensures
        last_covered(q, paths, gm, explored, dist, last, nbrs, j + 1),
{
    reveal(last_covered);
    assert forall|z: u64| edge_ok(gm, last, z) && !explored.contains(z) implies has_queued_within(
        q,
        paths,
        z,
        dist[last] + edge_cost_spec(gm, last, z),
    ) || exists|jj: int| #[trigger] j_pending(nbrs, j + 1, jj, z) by {
        if !has_queued_within(q, paths, z, dist[last] + edge_cost_spec(gm, last, z)) {
            let jj = choose|jj: int| #[trigger] j_pending(nbrs, j, jj, z);
            assert(jj != j);
            assert(j_pending(nbrs, j + 1, jj, z));
        }
    }
}

/// Pushing the candidate for the neighbor at index `j` keeps the expansion
/// loop's coverage and advances its pending index.
proof fn lemma_push_keeps_coverage(
    qj: Multiset<(usize, u128, u64)>,
    newq: Multiset<(usize, u128, u64)>,
    pathsj: Seq<GraphPath>,
    pathsn: Seq<GraphPath>,
    gm: Map<u64, Node>,
    explored: Set<u64>,
    dist: Map<u64, int>,
    last: u64,
    nbrs: Seq<u64>,
    j: int,
    m: u64,
    start: u64,
    fresh_entry: (usize, u128, u64),
)
    requires
        newq == qj.insert(fresh_entry),
        pathsj.len() <= pathsn.len(),
        forall|i: int| 0 <= i < pathsj.len() ==> pathsn[i] == pathsj[i],
        pair_covered_except(qj, pathsj, gm, explored, dist, last),
        last_covered(qj, pathsj, gm, explored, dist, last, nbrs, j),
        0 <= j < nbrs.len(),
        nbrs[j] == m,
        path_ends_at(pathsn, fresh_entry, m),
        pathsn[fresh_entry.0 as int].cost as int <= dist[last] + edge_cost_spec(gm, last, m),
        !explored.contains(start) ==> has_queued_within(qj, pathsj, start, 0),
    ensures
        pair_covered_except(newq, pathsn, gm, explored, dist, last),
        last_covered(newq, pathsn, gm, explored, dist, last, nbrs, j + 1),
        !explored.contains(start) ==> has_queued_within(newq, pathsn, start, 0),
{
    broadcast use vstd::multiset::group_multiset_axioms;

    reveal(pair_covered_except);
    reveal(last_covered);
    assert forall|e: (usize, u128, u64)| #[trigger] qj.count(e) > 0 implies newq.count(e) > 0 by {
    }
    if !explored.contains(start) {
        lemma_witness_preserved(qj, newq, pathsj, pathsn, start, 0);
    }
    assert forall|n: u64, z: u64|
        explored.contains(n) && n != last && edge_ok(gm, n, z) && !explored.contains(z)
        implies has_queued_within(newq, pathsn, z, dist[n] + edge_cost_spec(gm, n, z)) by {
        lemma_witness_preserved(qj, newq, pathsj, pathsn, z, dist[n] + edge_cost_spec(gm, n, z));
    }
    assert forall|z: u64| edge_ok(gm, last, z) && !explored.contains(z) implies has_queued_within(
        newq,
        pathsn,
        z,
        dist[last] + edge_cost_spec(gm, last, z),
    ) || exists|jj: int| #[trigger] j_pending(nbrs, j + 1, jj, z) by {
        let bound = dist[last] + edge_cost_spec(gm, last, z);
        if has_queued_within(qj, pathsj, z, bound) {
            lemma_witness_preserved(qj, newq, pathsj, pathsn, z, bound);
        } else {
            let jj = choose|jj: int| #[trigger] j_pending(nbrs, j, jj, z);
            if jj == j {
                assert(z == m);
                assert(newq.count(fresh_entry) > 0);
            } else {
                assert(j_pending(nbrs, j + 1, jj, z));
            }
        }
    }
}

/// A walk that starts inside `s` and ends outside it crosses the border.
pub proof fn lemma_path_crossing(gm: Map<u64, Node>, p: Seq<u64>, s: Set<u64>)
    requires
        is_path(gm, p),
        s.contains(p.first()),
        !s.contains(p.last()),
    ensures
        exists|k: int| crossing_at(p, s, k),
    decreases p.len(),
{
    if s.contains(p[p.len() - 2]) {
        assert(crossing_at(p, s, p.len() - 2));
    } else {
        lemma_is_path_drop_last(gm, p);
        lemma_path_crossing(gm, p.drop_last(), s);
        let k = choose|k: int| crossing_at(p.drop_last(), s, k);
        assert(p.drop_last()[k] == p[k] && p.drop_last()[k + 1] == p[k + 1]);
        assert(crossing_at(p, s, k));
    }
}

/// Uniform-cost search from `start` to `end`, also reporting how many nodes
/// were expanded. A node is expanded at most once, so the expansion count
/// never exceeds the number of graph nodes, whatever the cycle structure.
/// Returns a connecting walk of minimal total cost exactly when `end` is
/// reachable from `start`.
#[verifier::rlimit(100)]
pub fn shortest_path_search(start: u64, end: u64, g: &Graph) -> (r: (Option<Vec<u64>>, usize))
    requires
        g.wf(),
    ensures
        match r.0 {
            Some(p) => connects(g@, p@, start, end) && forall|q: Seq<u64>|
                #[trigger] connects(g@, q, start, end) ==> path_cost(g@, q) >= path_cost(
                    g@,
                    p@,
                ),
            None => !reachable(g@, start, end),
        },
        !g@.contains_key(start) ==> r.0 is None,
        g@.contains_key(start) && start == end ==> (r.0 matches Some(p) && p@ == seq![start]),
        r.1 <= g@.dom().len(),
{
    let ghost gm = g@;
    if !g.contains(start) {
        proof {
            if reachable(gm, start, end) {
                let p = choose|p: Seq<u64>| connects(gm, p, start, end);
                assert(gm.contains_key(p[0]));
            }
        }
        return (None, 0);
    }
    if start == end {
        let mut p: Vec<u64> = Vec::new();
        p.push(start);
        proof {
            assert(p@ =~= seq![start]);
            assert(connects(gm, p@, start, end));
            assert forall|q: Seq<u64>| #[trigger] connects(gm, q, start, end)
                implies path_cost(gm, q) >= path_cost(gm, p@) by {
                lemma_path_cost_nonneg(gm, q);
            }
        }
        return (Some(p), 0);
    }
    let node_total = g.node_count();
    proof {
        g.lemma_dom_finite();
    }

    let mut queue = q_new();
    let mut paths: Vec<GraphPath> = Vec::new();
    let mut explored: HashSet<u64> = HashSet::new();
    let mut counter: u64 = 0;
    let ghost mut dist: Map<u64, int> = Map::empty();

    let mut first_path: Vec<u64> = Vec::new();
    first_path.push(start);
    proof {
        assert(first_path@ =~= seq![start]);
    }
    paths.push(GraphPath { path: first_path, cost: 0 });
    q_push(&mut queue, 0, u128::MAX, u64::MAX);
    counter = 1;
    proof {
        let e0 = (0usize, u128::MAX, u64::MAX);
        assert(queue_entries(&queue).count(e0) > 0);
        assert(path_ends_at(paths@, e0, start));
        assert(path_cost(gm, paths@[0].path@) == 0);
        assert(has_queued_within(queue_entries(&queue), paths@, start, 0));
        assert(dist.dom() =~= explored@);
        assert(pair_covered(queue_entries(&queue), paths@, gm, explored@, dist)) by {
            reveal(pair_covered);
        }
    }

    loop
        invariant
            g.wf(),
            gm == g@,
            gm.contains_key(start),
            start != end,
            gm.dom().finite(),
            explored@.finite(),
            node_total == gm.dom().len(),
            !explored@.contains(end),
            forall|n: u64| #[trigger] explored@.contains(n) ==> gm.dom().contains(n),
            explored@.len() <= node_total,
            forall|e: (usize, u128, u64)| #[trigger] queue_entries(&queue).count(e) > 0
                ==> entry_inv(gm, paths@, explored@, start, e),
            dist.dom() =~= explored@,
            forall|n: u64| #[trigger] explored@.contains(n) ==> optimal_to(gm, start, n, dist[n]),
            !explored@.contains(start) ==> has_queued_within(
                queue_entries(&queue),
                paths@,
                start,
                0,
            ),
            pair_covered(queue_entries(&queue), paths@, gm, explored@, dist),
        decreases node_total - explored@.len(), queue_entries(&queue).len(),
    {
        let ghost q0 = queue_entries(&queue);
        let popped = q_pop(&mut queue);
        match popped {
            None => {
                let expansions = hs_len(&explored);
                proof {
                    vstd::multiset::lemma_multiset_empty_len(q0);
                    reveal(pair_covered);
                    if reachable(gm, start, end) {
                        let p = choose|p: Seq<u64>| connects(gm, p, start, end);
                        if !explored@.contains(start) {
                            let e1 = choose|e1: (usize, u128, u64)|
                                #[trigger] q0.count(e1) > 0 && path_ends_at(paths@, e1, start)
                                    && paths@[e1.0 as int].cost as int <= 0;
                            assert(false);
                        }
                        lemma_path_crossing(gm, p, explored@);
                        let k = choose|k: int| crossing_at(p, explored@, k);
                        let z = p[k + 1];
                        assert(edge_ok(gm, p[k], p[k + 1]));
                        assert(has_queued_within(
                            q0,
                            paths@,
                            z,
                            dist[p[k]] + edge_cost_spec(gm, p[k], z),
                        ));
                        let e1 = choose|e1: (usize, u128, u64)|
                            #[trigger] q0.count(e1) > 0 && path_ends_at(paths@, e1, z)
                                && paths@[e1.0 as int].cost as int <= dist[p[k]]
                                + edge_cost_spec(gm, p[k], z);
                        assert(false);
                    }
                }
                return (None, expansions);
            },
            Some(entry) => {
                let idx = entry.0;
                let cur_cost: u128 = paths[idx].cost;
                let cur_path: Vec<u64> = paths[idx].path.clone();
                proof {
                    assert(cur_path@ =~= paths@[idx as int].path@);
                }
                let last: u64 = cur_path[cur_path.len() - 1];
                if hs_contains(&explored, last) {
                    proof {
                        if !explored@.contains(start) {
                            let e1 = choose|e1: (usize, u128, u64)|
                                #[trigger] q0.count(e1) > 0 && path_ends_at(paths@, e1, start)
                                    && paths@[e1.0 as int].cost as int <= 0;
                            assert(e1 != entry);
                            assert(queue_entries(&queue).count(e1) > 0);
                            assert(has_queued_within(queue_entries(&queue), paths@, start, 0));
                        }
                        assert(pair_covered(queue_entries(&queue), paths@, gm, explored@, dist))
                            by {
                            reveal(pair_covered);
                            assert forall|n: u64, z: u64|
                                explored@.contains(n) && edge_ok(gm, n, z)
                                    && !explored@.contains(z) implies has_queued_within(
                                queue_entries(&queue),
                                paths@,
                                z,
                                dist[n] + edge_cost_spec(gm, n, z),
                            ) by {
                                let bound = dist[n] + edge_cost_spec(gm, n, z);
                                let e1 = choose|e1: (usize, u128, u64)|
                                    #[trigger] q0.count(e1) > 0 && path_ends_at(paths@, e1, z)
                                        && paths@[e1.0 as int].cost as int <= bound;
                                assert(e1 != entry);
                                assert(queue_entries(&queue).count(e1) > 0);
                            }
                        }
                    }
                    continue;
                }
                let ghost explored0 = explored@;
                proof {
                    assert(gm.dom().contains(last));
                    vstd::set_lib::lemma_len_subset(explored@.insert(last), gm.dom());
                    reveal(pair_covered);
                    reveal(optimal_to);
                    // cur_cost is minimal among the costs of all walks from
                    // start to last
                    assert forall|qq: Seq<u64>| #[trigger] connects(gm, qq, start, last)
                        implies path_cost(gm, qq) >= cur_cost as int by {
                        lemma_path_cost_nonneg(gm, qq);
                        if explored@.contains(start) {
                            lemma_path_crossing(gm, qq, explored@);
                            let k = choose|k: int| crossing_at(qq, explored@, k);
                            let n = qq[k];
                            let z = qq[k + 1];
                            assert(edge_ok(gm, qq[k], qq[k + 1]));
                            assert(has_queued_within(
                                q0,
                                paths@,
                                z,
                                dist[n] + edge_cost_spec(gm, n, z),
                            ));
                            let e1 = choose|e1: (usize, u128, u64)|
                                #[trigger] q0.count(e1) > 0 && path_ends_at(paths@, e1, z)
                                    && paths@[e1.0 as int].cost as int <= dist[n]
                                    + edge_cost_spec(gm, n, z);
                            assert(entry_inv(gm, paths@, explored@, start, e1));
                            assert(cur_cost <= paths@[e1.0 as int].cost);
                            lemma_is_path_take(gm, qq, k + 1);
                            assert(connects(gm, qq.take(k + 1), start, n));
                            assert(optimal_to(gm, start, n, dist[n]));
                            assert(path_cost(gm, qq.take(k + 1)) >= dist[n]);
                            lemma_path_cost_take_step(gm, qq, k);
                            lemma_path_cost_prefix(gm, qq, k + 2);
                        } else {
                            let e1 = choose|e1: (usize, u128, u64)|
                                #[trigger] q0.count(e1) > 0 && path_ends_at(paths@, e1, start)
                                    && paths@[e1.0 as int].cost as int <= 0;
                            assert(entry_inv(gm, paths@, explored@, start, e1));
                            assert(cur_cost <= paths@[e1.0 as int].cost);
                        }
                    }
                }
                explored.insert(last);
                proof {
                    dist = dist.insert(last, cur_cost as int);
                    assert(connects(gm, cur_path@, start, last));
                    assert(path_cost(gm, cur_path@) == cur_cost as int);
                    assert(optimal_to(gm, start, last, cur_cost as int)) by {
                        reveal(optimal_to);
                    }
                    assert(dist.dom() =~= explored@);
                    assert forall|n: u64| #[trigger] explored@.contains(n) implies optimal_to(
                        gm,
                        start,
                        n,
                        dist[n],
                    ) by {
                        if n != last {
                            assert(explored0.contains(n));
                            assert(dist[n] == dist.remove(last)[n]);
                        }
                    }
                }
                if last == end {
                    let expansions = hs_len(&explored);
                    proof {
                        assert(connects(gm, cur_path@, start, end));
                    }
                    return (Some(cur_path), expansions);
                }
                let node: &Node = match g.get_node(last) {
                    Some(n) => n,
                    None => {
                        proof {
                            assert(false);
                        }
                        vstd::pervasive::unreached()
                    },
                };
                let nbr_total = node.neighbors.len();
                let ghost cur_seq = cur_path@;
                proof {
                    // surviving witnesses for the start and for pairs of
                    // previously explored nodes
                    if !explored@.contains(start) {
                        let e1 = choose|e1: (usize, u128, u64)|
                            #[trigger] q0.count(e1) > 0 && path_ends_at(paths@, e1, start)
                                && paths@[e1.0 as int].cost as int <= 0;
                        assert(e1 != entry);
                        assert(queue_entries(&queue).count(e1) > 0);
                        assert(has_queued_within(queue_entries(&queue), paths@, start, 0));
                    }
                    assert(pair_covered_except(
                        queue_entries(&queue),
                        paths@,
                        gm,
                        explored@,
                        dist,
                        last,
                    )) by {
                        reveal(pair_covered);
                        reveal(pair_covered_except);
                        assert forall|n: u64, z: u64|
                            explored@.contains(n) && n != last && edge_ok(gm, n, z)
                                && !explored@.contains(z) implies has_queued_within(
                            queue_entries(&queue),
                            paths@,
                            z,
                            dist[n] + edge_cost_spec(gm, n, z),
                        ) by {
                            assert(explored0.contains(n));
                            assert(dist[n] == dist.remove(last)[n]);
                            let bound = dist[n] + edge_cost_spec(gm, n, z);
                            let e1 = choose|e1: (usize, u128, u64)|
                                #[trigger] q0.count(e1) > 0 && path_ends_at(paths@, e1, z)
                                    && paths@[e1.0 as int].cost as int <= bound;
                            assert(e1 != entry);
                            assert(queue_entries(&queue).count(e1) > 0);
                        }
                    }
                    assert(last_covered(
                        queue_entries(&queue),
                        paths@,
                        gm,
                        explored@,
                        dist,
                        last,
                        node.neighbors@,
                        0,
                    )) by {
                        reveal(last_covered);
                        assert forall|z: u64| edge_ok(gm, last, z) && !explored@.contains(z)
                            implies has_queued_within(
                            queue_entries(&queue),
                            paths@,
                            z,
                            dist[last] + edge_cost_spec(gm, last, z),
                        ) || exists|jj: int| #[trigger] j_pending(node.neighbors@, 0, jj, z) by {
                            assert(gm[last].neighbors@.contains(z));
                            let jj = choose|jj: int|
                                0 <= jj < gm[last].neighbors@.len() && gm[last].neighbors@[jj]
                                    == z;
                            assert(j_pending(node.neighbors@, 0, jj, z));
                        }
                    }
                }
                for j in 0..nbr_total
                    invariant
                        g.wf(),
                        gm == g@,
                        gm.contains_key(start),
                        start != end,
                        gm.dom().finite(),
                        explored@.finite(),
                        node_total == gm.dom().len(),
                        !explored@.contains(end),
                        forall|n: u64| #[trigger] explored@.contains(n) ==> gm.dom().contains(n),
                        explored@.len() <= node_total,
                        forall|e: (usize, u128, u64)| #[trigger] queue_entries(&queue).count(e)
                            > 0 ==> entry_inv(gm, paths@, explored@, start, e),
                        dist.dom() =~= explored@,
                        forall|n: u64| #[trigger] explored@.contains(n) ==> optimal_to(
                            gm,
                            start,
                            n,
                            dist[n],
                        ),
                        !explored@.contains(start) ==> has_queued_within(
                            queue_entries(&queue),
                            paths@,
                            start,
                            0,
                        ),
                        pair_covered_except(
                            queue_entries(&queue),
                            paths@,
                            gm,
                            explored@,
                            dist,
                            last,
                        ),
                        last_covered(
                            queue_entries(&queue),
                            paths@,
                            gm,
                            explored@,
                            dist,
                            last,
                            node.neighbors@,
                            j as int,
                        ),
                        nbr_total == node.neighbors@.len(),
                        gm.contains_key(last),
                        gm[last] == *node,
                        explored@.contains(last),
                        dist[last] == cur_cost as int,
                        cur_seq == cur_path@,
                        is_path(gm, cur_seq),
                        cur_seq.first() == start,
                        cur_seq.last() == last,
                        cur_cost as int == path_cost(gm, cur_seq),
                        cur_seq.len() + 1 <= explored@.len() + 1,
                        cur_cost <= (cur_seq.len() - 1) * (EDGE_COST_LIMIT as int),
                {
                    let ghost qj = queue_entries(&queue);
                    let ghost pathsj = paths@;
                    let m = node.neighbors[j];
                    match g.get_node(m) {
                        None => {
                            proof {
                                lemma_skip_keeps_coverage(
                                    queue_entries(&queue),
                                    paths@,
                                    gm,
                                    explored@,
                                    dist,
                                    last,
                                    node.neighbors@,
                                    j as int,
                                    m,
                                );
                            }
                        },
                        Some(dest) => {
                            let ec: u64 = crate::geom::dist_floor(
                                node.lat,
                                node.lon,
                                dest.lat,
                                dest.lon,
                            );
                            proof {
                                vstd::arithmetic::mul::lemma_mul_inequality(
                                    cur_seq.len() - 1,
                                    0x1_0000_0000_0000_0000,
                                    EDGE_COST_LIMIT as int,
                                );
                            }
                            let new_cost: u128 = cur_cost + (ec as u128);
                            let mut new_path = cur_path.clone();
                            proof {
                                assert(new_path@ =~= cur_seq);
                            }
                            new_path.push(m);
                            let fresh_idx = paths.len();
                            paths.push(GraphPath { path: new_path, cost: new_cost });
                            proof {
                                let np = paths@[fresh_idx as int].path@;
                                assert(np == cur_seq.push(m));
                                assert forall|k: int| 0 <= k < np.len() implies gm.contains_key(
                                    #[trigger] np[k],
                                ) by {
                                    if k < np.len() - 1 {
                                        assert(np[k] == cur_seq[k]);
                                    }
                                }
                                assert forall|k: int| 0 <= k < np.len() - 1 implies edge_ok(
                                    gm,
                                    #[trigger] np[k],
                                    np[k + 1],
                                ) by {
                                    if k < np.len() - 2 {
                                        assert(np[k] == cur_seq[k] && np[k + 1] == cur_seq[k + 1]);
                                    } else {
                                        assert(np[k] == cur_seq.last());
                                        assert(node.neighbors@[j as int] == m);
                                        assert(gm[last].neighbors@.contains(m));
                                    }
                                }
                                assert(is_path(gm, np));
                                assert(np.drop_last() =~= cur_seq);
                                assert(np[np.len() - 2] == last && np.last() == m);
                                assert(ec == edge_cost_spec(gm, last, m));
                                assert(path_cost(gm, np) == new_cost as int);
                            }
                            let major: u128 = u128::MAX - new_cost;
                            let tie: u64 = u64::MAX - counter;
                            q_push(&mut queue, fresh_idx, major, tie);
                            if counter < u64::MAX {
                                counter = counter + 1;
                            }
                            proof {
                                let fresh_entry = (fresh_idx, major, tie);
                                assert(path_ends_at(paths@, fresh_entry, m));
                                lemma_push_keeps_coverage(
                                    qj,
                                    queue_entries(&queue),
                                    pathsj,
                                    paths@,
                                    gm,
                                    explored@,
                                    dist,
                                    last,
                                    node.neighbors@,
                                    j as int,
                                    m,
                                    start,
                                    fresh_entry,
                                );
                            }
                        },
                    }
                }
                proof {
                    assert(pair_covered(queue_entries(&queue), paths@, gm, explored@, dist)) by {
                        reveal(pair_covered);
                        reveal(pair_covered_except);
                        reveal(last_covered);
                        assert forall|n: u64, z: u64|
                            explored@.contains(n) && edge_ok(gm, n, z) && !explored@.contains(z)
                            implies has_queued_within(
                            queue_entries(&queue),
                            paths@,
                            z,
                            dist[n] + edge_cost_spec(gm, n, z),
                        ) by {
                            if n == last {
                                if !has_queued_within(
                                    queue_entries(&queue),
                                    paths@,
                                    z,
                                    dist[last] + edge_cost_spec(gm, last, z),
                                ) {
                                    let jj = choose|jj: int|
                                        #[trigger] j_pending(
                                            node.neighbors@,
                                            nbr_total as int,
                                            jj,
                                            z,
                                        );
                                    assert(false);
                                }
                            }
                        }
                    }
                }
            },
        }
    }
}

/// Relies on vstd's specification of `HashSet::contains` for `u64` keys.
fn hs_contains(s: &HashSet<u64>, k: u64) -> (r: bool)
    ensures
        r == s@.contains(k),
{
    s.contains(&k)
}

/// Relies on vstd's specification of `HashSet::len`.
fn hs_len(s: &HashSet<u64>) -> (r: usize)
    ensures
        r == s@.len(),
{
    s.len()
}

/// Minimum-cost connecting path between two node identifiers, or `None`
/// exactly when `end` cannot be reached from `start` (in particular
/// whenever the two lie in disconnected components, or `start` is absent).
pub fn shortest_path(start: u64, end: u64, g: &Graph) -> (r: Option<Vec<u64>>)
    requires
        g.wf(),
    ensures
        match r {
            Some(p) => connects(g@, p@, start, end) && forall|q: Seq<u64>|
                #[trigger] connects(g@, q, start, end) ==> path_cost(g@, q) >= path_cost(
                    g@,
                    p@,
                ),
            None => true,
        },
        r is None <==> !reachable(g@, start, end),
        !g@.contains_key(start) ==> r is None,
        g@.contains_key(start) && start == end ==> (r matches Some(p) && p@ == seq![start]),
{
    let (found, _expansions) = shortest_path_search(start, end, g);
    proof {
        match &found {
            Some(p) => {
                assert(connects(g@, p@, start, end));
                assert(reachable(g@, start, end));
            },
            None => {},
        }
    }
    found
}

} // verus!
