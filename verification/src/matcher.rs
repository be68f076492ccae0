//! Turns one trace into one route.
//!
//! Every trace point is snapped to its nearest graph node, immediate
//! repeats are collapsed, and consecutive snapped nodes are joined by
//! minimum-cost graph paths. Where no connecting path exists the two nodes
//! are joined directly — a deliberate degradation that keeps the route
//! connected across graph gaps at the cost of geometric fidelity there.

use vstd::multiset::Multiset;
use vstd::prelude::*;

use crate::geom::{pt_ok, Point, COORD_LIMIT};
use crate::graph::{Graph, Node};
use crate::pathfinder::{connects, path_cost, reachable, shortest_path};
use crate::spatial::{nearest_id, SpatialIndex};
use crate::MatchError;

verus! {

/// The identifiers the trace snaps to, one per point, in order.
pub open spec fn snap_seq(s: Multiset<(i64, i64, u64)>, trace: Seq<Point>) -> Seq<u64> {
    trace.map_values(|p: Point| nearest_id(s, p))
}

/// One deduplication step: append `x` unless it repeats the last entry.
pub open spec fn dedup_step(acc: Seq<u64>, x: u64) -> Seq<u64> {
    if acc.len() > 0 && acc.last() == x {
        acc
    } else {
        acc.push(x)
    }
}

/// Collapse immediate repeats of a sequence of identifiers.
pub open spec fn dedup(s: Seq<u64>) -> Seq<u64>
    decreases s.len(),
{
    if s.len() == 0 {
        Seq::empty()
    } else {
        dedup_step(dedup(s.drop_last()), s.last())
    }
}

/// After deduplication no two neighboring entries are equal.
pub proof fn lemma_dedup_adjacent(s: Seq<u64>)
    ensures
        forall|k: int| 0 <= k < dedup(s).len() - 1 ==> #[trigger] dedup(s)[k] != dedup(s)[k + 1],
    decreases s.len(),
{
    if s.len() > 0 {
        lemma_dedup_adjacent(s.drop_last());
        let prev = dedup(s.drop_last());
        let cur = dedup(s);
        if prev.len() > 0 && prev.last() == s.last() {
            assert(cur == prev);
        } else {
            assert(cur == prev.push(s.last()));
            assert forall|k: int| 0 <= k < cur.len() - 1 implies #[trigger] cur[k] != cur[k + 1]
                by {
                if k < prev.len() - 1 {
                    assert(prev[k] != prev[k + 1]);
                    assert(cur[k] == prev[k] && cur[k + 1] == prev[k + 1]);
                } else {
                    assert(cur[k] == prev.last());
                    assert(cur[k + 1] == s.last());
                }
            }
        }
    }
}

/// An admissible stitched segment from `a` to `b`: a minimum-cost graph
/// walk where `b` is reachable from `a`, and the direct two-node fallback
/// exactly where it is not.
pub open spec fn seg_ok(gm: Map<u64, Node>, seg: Seq<u64>, a: u64, b: u64) -> bool {
    &&& reachable(gm, a, b) ==> connects(gm, seg, a, b) && forall|q: Seq<u64>|
        #[trigger] connects(gm, q, a, b) ==> path_cost(gm, q) >= path_cost(gm, seg)
    &&& !reachable(gm, a, b) ==> seg == seq![a, b]
}

/// Concatenate segments, dropping the leading node of every segment after
/// the first (it repeats the previous segment's trailing node).
pub open spec fn concat_segs(segs: Seq<Seq<u64>>) -> Seq<u64>
    decreases segs.len(),
{
    if segs.len() == 0 {
        Seq::empty()
    } else if segs.len() == 1 {
        segs[0]
    } else {
        concat_segs(segs.drop_last()) + segs.last().skip(1)
    }
}

/// The route is a join-concatenation of admissible segments along the
/// deduplicated snap sequence `d`.
pub open spec fn route_ok(gm: Map<u64, Node>, route: Seq<u64>, d: Seq<u64>) -> bool {
    exists|segs: Seq<Seq<u64>>|
        {
            &&& segs.len() == d.len() - 1
            &&& forall|i: int| 0 <= i < segs.len() ==> seg_ok(gm, #[trigger] segs[i], d[i], d[i + 1])
            &&& route == concat_segs(segs)
        }
}

/// Everything `match_trace` promises, as one predicate over the inputs and
/// the outcome: the exact failure conditions, and the shape of a
/// successful route.
pub open spec fn match_post(
    contents: Multiset<(i64, i64, u64)>,
    gm: Map<u64, Node>,
    trace: Seq<Point>,
    r: Result<Vec<u64>, MatchError>,
) -> bool {
    let snapped = snap_seq(contents, trace);
    let d = dedup(snapped);
    let all_ok = forall|i: int| 0 <= i < trace.len() ==> pt_ok(#[trigger] trace[i]);
    &&& (r == Result::<Vec<u64>, MatchError>::Err(MatchError::EmptyTrace) <==> trace.len() == 0)
    &&& (r == Result::<Vec<u64>, MatchError>::Err(MatchError::InvalidCoordinate) <==> trace.len()
        > 0 && !all_ok)
    &&& (r == Result::<Vec<u64>, MatchError>::Err(MatchError::InsufficientCoverage)
        <==> trace.len() > 0 && all_ok && d.len() < 2)
    &&& (r is Ok <==> trace.len() > 0 && all_ok && d.len() >= 2)
    &&& (r matches Ok(route) ==> {
        &&& route@.len() >= 2
        &&& route@.first() == d.first()
        &&& route@.last() == d.last()
        &&& route_ok(gm, route@, d)
    })
}

/// Identical inputs always fail identically, and two successful outcomes
/// agree on the route's endpoints: every failure of the matcher, and the
/// frame of a successful route, is a pure function of the inputs.
pub proof fn lemma_match_outcome_deterministic(
    contents: Multiset<(i64, i64, u64)>,
    gm: Map<u64, Node>,
    trace: Seq<Point>,
    r1: Result<Vec<u64>, MatchError>,
    r2: Result<Vec<u64>, MatchError>,
)
    requires
        match_post(contents, gm, trace, r1),
        match_post(contents, gm, trace, r2),
    ensures
        r1 is Err ==> r1 == r2,
        r1 is Ok ==> r2 is Ok,
        r1 matches Ok(a) ==> (r2 matches Ok(b) && a@.first() == b@.first() && a@.last()
            == b@.last()),
{
    let d = dedup(snap_seq(contents, trace));
    let all_ok = forall|i: int| 0 <= i < trace.len() ==> pt_ok(#[trigger] trace[i]);
    if trace.len() == 0 {
        assert(r1 == Result::<Vec<u64>, MatchError>::Err(MatchError::EmptyTrace));
        assert(r2 == Result::<Vec<u64>, MatchError>::Err(MatchError::EmptyTrace));
    } else if !all_ok {
        assert(r1 == Result::<Vec<u64>, MatchError>::Err(MatchError::InvalidCoordinate));
        assert(r2 == Result::<Vec<u64>, MatchError>::Err(MatchError::InvalidCoordinate));
    } else if d.len() < 2 {
        assert(r1 == Result::<Vec<u64>, MatchError>::Err(MatchError::InsufficientCoverage));
        assert(r2 == Result::<Vec<u64>, MatchError>::Err(MatchError::InsufficientCoverage));
    } else {
        assert(r1 is Ok && r2 is Ok);
    }
}

/// Match one trace onto the graph through the spatial index built from it.
///
/// Fails with `EmptyTrace` exactly on a zero-length trace, with
/// `InvalidCoordinate` exactly when some point is out of range, with
/// `InsufficientCoverage` exactly when fewer than two distinct nodes remain
/// after snapping and deduplication; otherwise succeeds, and the route
/// starts and ends at the first and last deduplicated snapped nodes and is
/// a join of admissible segments between consecutive ones.
#[verifier::rlimit(50)]
pub fn match_trace(trace: &Vec<Point>, index: &SpatialIndex, graph: &Graph) -> (r: Result<
    Vec<u64>,
    MatchError,
>)
    requires
        graph.wf(),
        index.wf(),
        index.contents() == SpatialIndex::entries_of(graph).to_multiset(),
    ensures
        match_post(index.contents(), graph@, trace@, r),
{
    let ghost contents = index.contents();
    let n = trace.len();
    if n == 0 {
        return Err(MatchError::EmptyTrace);
    }
    for i in 0..n
        invariant
            n == trace@.len(),
            forall|j: int| 0 <= j < i ==> pt_ok(#[trigger] trace@[j]),
    {
        let p = trace[i];
        if p.lat < -COORD_LIMIT || p.lat > COORD_LIMIT || p.lon < -COORD_LIMIT || p.lon
            > COORD_LIMIT {
            return Err(MatchError::InvalidCoordinate);
        }
    }
    let mut snapped: Vec<u64> = Vec::new();
    for i in 0..n
        invariant
            n == trace@.len(),
            graph.wf(),
            index.wf(),
            contents == index.contents(),
            forall|j: int| 0 <= j < n ==> pt_ok(#[trigger] trace@[j]),
            snapped@.len() == i,
            forall|j: int| 0 <= j < i ==> snapped@[j] == nearest_id(contents, #[trigger] trace@[j]),
    {
        let (id, _dist) = index.nearest(trace[i]);
        snapped.push(id);
    }
    proof {
        assert(snapped@ =~= snap_seq(contents, trace@));
    }
    let ghost snap_full = snapped@;
    let mut dd: Vec<u64> = Vec::new();
    for i in 0..n
        invariant
            n == trace@.len(),
            snap_full == snapped@,
            snapped@.len() == n,
            dd@ == dedup(snap_full.take(i as int)),
    {
        let x = snapped[i];
        proof {
            assert(snap_full.take(i + 1).drop_last() =~= snap_full.take(i as int));
            assert(snap_full.take(i + 1).last() == snap_full[i as int]);
        }
        if dd.len() == 0 {
            dd.push(x);
        } else if dd[dd.len() - 1] != x {
            dd.push(x);
        }
    }
    proof {
        assert(snap_full.take(n as int) =~= snap_full);
    }
    let ghost d = dedup(snap_full);
    proof {
        lemma_dedup_adjacent(snap_full);
    }
    if dd.len() < 2 {
        return Err(MatchError::InsufficientCoverage);
    }
    let mut route: Vec<u64> = Vec::new();
    let ghost mut segs: Seq<Seq<u64>> = Seq::empty();
    let steps = dd.len() - 1;
    for i in 0..steps
        invariant
            steps == dd@.len() - 1,
            dd@ == d,
            d.len() >= 2,
            graph.wf(),
            forall|k: int| 0 <= k < d.len() - 1 ==> #[trigger] d[k] != d[k + 1],
            segs.len() == i,
            forall|k: int| 0 <= k < i ==> seg_ok(graph@, #[trigger] segs[k], d[k], d[k + 1]),
            route@ == concat_segs(segs),
            i >= 1 ==> route@.len() >= 2 && route@.first() == d.first() && route@.last() == d[
                i as int
            ],
    {
        let a = dd[i];
        let b = dd[i + 1];
        let seg: Vec<u64> = match shortest_path(a, b, graph) {
            Some(p) => p,
            None => {
                let mut f: Vec<u64> = Vec::new();
                f.push(a);
                f.push(b);
                f
            },
        };
        proof {
            if !connects(graph@, seg@, a, b) {
                assert(!reachable(graph@, a, b));
                assert(seg@ =~= seq![a, b]);
            }
            assert(seg_ok(graph@, seg@, a, b));
            assert(seg@.len() >= 2);
            assert(seg@.first() == a && seg@.last() == b);
        }
        let seg_len = seg.len();
        if i == 0 {
            for j in 0..seg_len
                invariant
                    seg_len == seg@.len(),
                    route@ == seg@.take(j as int),
            {
                route.push(seg[j]);
            }
            proof {
                assert(route@ =~= seg@);
                segs = segs.push(seg@);
                assert(segs.len() == 1);
                assert(concat_segs(segs) == segs[0]);
            }
        } else {
            let ghost route_before = route@;
            for j in 1..seg_len
                invariant
                    seg_len == seg@.len(),
                    seg@.len() >= 2,
                    route@ == route_before + seg@.subrange(1, j as int),
            {
                route.push(seg[j]);
            }
            proof {
                assert(route@ =~= route_before + seg@.skip(1));
                let prev = segs;
                segs = segs.push(seg@);
                assert(segs.drop_last() =~= prev);
                assert(segs.last() == seg@);
                assert(concat_segs(segs) == concat_segs(prev) + seg@.skip(1));
                assert(route@.last() == seg@.last());
                assert(route@.first() == route_before.first());
            }
        }
    }
    proof {
        assert(route@.last() == d[d.len() - 1]);
        assert(route@.last() == d.last());
    }
    Ok(route)
}

} // verus!
