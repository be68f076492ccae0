//! Nearest-node queries over a k-d tree.
//!
//! The index holds `([lat, lon], id)` items in a `kd_tree::KdTreeN`. The
//! tree itself is trusted only for two facts: its `nearest` returns an item
//! at minimal squared distance, and its `within` returns exactly the items
//! inside a closed box. The tie rule — among equally near items the lowest
//! identifier wins — is enforced by a verified scan over the tie box, so
//! `nearest` is a pure function of the index contents and the query point.

use vstd::multiset::Multiset;
use vstd::prelude::*;

use crate::geom::{coord_ok, is_sqrt_floor, pt_ok, sq_dist, sqrt_floor, Point, EDGE_COST_LIMIT,
    SQ_DIST_LIMIT};
use crate::graph::Graph;
use crate::MatchError;

verus! {

broadcast use vstd::seq_lib::group_to_multiset_ensures;

/// Owns the k-d tree of the outside crate; opaque to the verifier, spoken
/// of only through [`kd_contents`].
#[verifier::external_body]
pub struct NodeTree {
    inner: kd_tree::KdTreeN<([i64; 2], u64), typenum::U2>,
}

/// What the tree holds, as `(lat, lon, id)` triples.
pub uninterp spec fn kd_contents(t: &NodeTree) -> Multiset<(i64, i64, u64)>;

/// Relies on `kd_tree::KdTreeN::build`: the tree holds exactly the items it
/// was built from.
#[verifier::external_body]
fn kd_build(items: Vec<(i64, i64, u64)>) -> (t: NodeTree)
    ensures
        kd_contents(&t) == items@.to_multiset(),
{
    NodeTree {
        inner: kd_tree::KdTreeN::build(items.into_iter().map(|it| ([it.0, it.1], it.2)).collect()),
    }
}

/// Squared distance from an index entry to a query point.
pub open spec fn entry_sq_dist(e: (i64, i64, u64), p: Point) -> int {
    sq_dist(e.0 as int, e.1 as int, p.lat as int, p.lon as int)
}

/// Relies on `kd_tree::KdSliceN::nearest`: returns an item of the tree whose
/// squared distance to the query is minimal, with that squared distance. The
/// coordinate bounds keep the crate's internal `i64` arithmetic exact, and a
/// nonempty tree never yields `None`.
#[verifier::external_body]
fn kd_nearest_raw(t: &NodeTree, qx: i64, qy: i64) -> (r: (
    (i64, i64, u64),
    i64,
))
    requires
        kd_contents(t).len() > 0,
        forall|e: (i64, i64, u64)|
            #[trigger] kd_contents(t).count(e) > 0 ==> coord_ok(e.0) && coord_ok(e.1),
        coord_ok(qx),
        coord_ok(qy),
    ensures
        kd_contents(t).count(r.0) > 0,
        r.1 == entry_sq_dist(r.0, Point { lat: qx, lon: qy }),
        forall|e: (i64, i64, u64)| #[trigger] kd_contents(t).count(e) > 0 ==> entry_sq_dist(
            e,
            Point { lat: qx, lon: qy },
        ) >= r.1,
{
    let n = t.inner.nearest(&[qx, qy]).unwrap();
    (((n.item.0)[0], (n.item.0)[1], n.item.1), n.squared_distance)
}

/// The entry lies inside the closed box.
pub open spec fn in_box(e: (i64, i64, u64), lo_x: i64, lo_y: i64, hi_x: i64, hi_y: i64) -> bool {
    lo_x <= e.0 <= hi_x && lo_y <= e.1 <= hi_y
}

/// Relies on `kd_tree::KdSliceN::within`: returns exactly the items of the
/// tree inside the closed axis-aligned box (the crate asserts the box is
/// ordered, which the precondition guarantees).
#[verifier::external_body]
fn kd_within_box(
    t: &NodeTree,
    lo_x: i64,
    lo_y: i64,
    hi_x: i64,
    hi_y: i64,
) -> (r: Vec<(i64, i64, u64)>)
    requires
        lo_x <= hi_x,
        lo_y <= hi_y,
    ensures
        forall|i: int| 0 <= i < r@.len() ==> #[trigger] kd_contents(t).count(r@[i]) > 0 && in_box(
            r@[i],
            lo_x,
            lo_y,
            hi_x,
            hi_y,
        ),
        forall|e: (i64, i64, u64)| #[trigger] kd_contents(t).count(e) > 0 && in_box(
            e,
            lo_x,
            lo_y,
            hi_x,
            hi_y,
        ) ==> r@.contains(e),
{
    t.inner.within(&[[lo_x, lo_y], [hi_x, hi_y]])
        .into_iter()
        .map(|it| ((it.0)[0], (it.0)[1], it.1))
        .collect()
}

/// `e` is the entry `nearest` must return: minimal squared distance to `p`,
/// ties broken by the lowest identifier.
pub open spec fn nearest_ok(s: Multiset<(i64, i64, u64)>, p: Point, e: (i64, i64, u64)) -> bool {
    &&& s.count(e) > 0
    &&& forall|o: (i64, i64, u64)| #[trigger] s.count(o) > 0 ==> entry_sq_dist(e, p)
        < entry_sq_dist(o, p) || (entry_sq_dist(e, p) == entry_sq_dist(o, p) && e.2 <= o.2)
}

/// The nearest entry of `s` to `p` (meaningful when one exists).
pub open spec fn nearest_entry(s: Multiset<(i64, i64, u64)>, p: Point) -> (i64, i64, u64) {
    choose|e: (i64, i64, u64)| nearest_ok(s, p, e)
}

/// The identifier `nearest` returns for `p`.
pub open spec fn nearest_id(s: Multiset<(i64, i64, u64)>, p: Point) -> u64 {
    nearest_entry(s, p).2
}

/// Any two entries satisfying `nearest_ok` agree on distance and identifier:
/// the answer of `nearest` is unique, hence reproducible across calls.
pub proof fn lemma_nearest_unique(
    s: Multiset<(i64, i64, u64)>,
    p: Point,
    e1: (i64, i64, u64),
    e2: (i64, i64, u64),
)
    requires
        nearest_ok(s, p, e1),
        nearest_ok(s, p, e2),
    ensures
        e1.2 == e2.2,
        entry_sq_dist(e1, p) == entry_sq_dist(e2, p),
{
    assert(s.count(e1) > 0);
    assert(s.count(e2) > 0);
}

/// A coordinate difference whose square is at most `d` is at most the
/// integer square root of `d` in magnitude.
proof fn lemma_component_bound(d: int, r: int, dx: int)
    requires
        is_sqrt_floor(d, r),
        dx * dx <= d,
    ensures
        -r <= dx <= r,
{
    if dx > r {
        assert((r + 1) * (r + 1) <= dx * dx) by (nonlinear_arith)
            requires
                0 <= r,
                r + 1 <= dx,
        ;
    }
    if dx < -r {
        assert((r + 1) * (r + 1) <= dx * dx) by (nonlinear_arith)
            requires
                0 <= r,
                dx <= -(r + 1),
        ;
    }
}

/// Spatial index over the nodes of one graph snapshot.
pub struct SpatialIndex {
    tree: NodeTree,
}

impl SpatialIndex {
    /// What the index holds.
    pub closed spec fn contents(&self) -> Multiset<(i64, i64, u64)> {
        kd_contents(&self.tree)
    }

    /// Nonempty, with every entry's coordinates in range.
    pub open spec fn wf(&self) -> bool {
        &&& self.contents().len() > 0
        &&& forall|e: (i64, i64, u64)|
            #[trigger] self.contents().count(e) > 0 ==> coord_ok(e.0) && coord_ok(e.1)
    }

    /// The `(lat, lon, id)` triples of a graph, in insertion order.
    pub open spec fn entries_of(g: &Graph) -> Seq<(i64, i64, u64)> {
        g.id_list().map_values(|id: u64| (g@[id].lat, g@[id].lon, id))
    }

    /// Build the index over all nodes of `g`. Fails if and only if the graph
    /// is empty, since nearest-neighbor queries are then undefined.
    pub fn build(g: &Graph) -> (r: Result<SpatialIndex, MatchError>)
        requires
            g.wf(),
        ensures
            match r {
                Ok(idx) => {
                    &&& idx.wf()
                    &&& idx.contents() == Self::entries_of(g).to_multiset()
                    &&& g@.dom().len() > 0
                },
                Err(e) => e == MatchError::EmptyIndex && g@.dom().len() == 0,
            },
    {
        let ids = g.id_vec();
        if ids.len() == 0 {
            proof {
                assert(g.id_list().to_set() =~= Set::<u64>::empty());
                assert(g@.dom().len() == 0);
            }
            return Err(MatchError::EmptyIndex);
        }
        let mut items: Vec<(i64, i64, u64)> = Vec::new();
        let n = ids.len();
        for i in 0..n
            invariant
                n == ids@.len(),
                ids@ == g.id_list(),
                g.wf(),
                items@.len() == i,
                forall|j: int| 0 <= j < i ==> items@[j] == Self::entries_of(g)[j],
        {
            let id = ids[i];
            proof {
                assert(g.id_list().to_set().contains(id));
            }
            match g.get_node(id) {
                Some(node) => {
                    items.push((node.lat, node.lon, id));
                },
                None => {
                    proof {
                        assert(false);
                    }
                },
            }
        }
        proof {
            assert(items@ =~= Self::entries_of(g));
        }
        let tree = kd_build(items);
        let idx = SpatialIndex { tree };
        proof {
            let entries = Self::entries_of(g);
            assert(idx.contents().len() == entries.len());
            assert(g.id_list().to_set().contains(g.id_list()[0]));
            assert forall|e: (i64, i64, u64)| #[trigger] idx.contents().count(e) > 0
                implies coord_ok(e.0) && coord_ok(e.1) by {
                assert(entries.contains(e));
                let j = choose|j: int| 0 <= j < entries.len() && entries[j] == e;
                assert(g.id_list().to_set().contains(g.id_list()[j]));
            }
        }
        Ok(idx)
    }

    /// The graph node geometrically nearest to `p`: minimal Euclidean
    /// distance, ties broken by the lowest node identifier. Returns the
    /// identifier and the floor of the Euclidean distance.
    pub fn nearest(&self, p: Point) -> (r: (u64, u64))
        requires
            self.wf(),
            pt_ok(p),
        ensures
            nearest_ok(self.contents(), p, nearest_entry(self.contents(), p)),
            r.0 == nearest_id(self.contents(), p),
            r.1 == sqrt_floor(entry_sq_dist(nearest_entry(self.contents(), p), p)),
    {
        let (e0, d0) = kd_nearest_raw(&self.tree, p.lat, p.lon);
        proof {
            crate::geom::lemma_sq_dist_bound(
                e0.0 as int,
                e0.1 as int,
                p.lat as int,
                p.lon as int,
            );
        }
        let rad = crate::geom::isqrt(d0);
        assert(rad < EDGE_COST_LIMIT) by (nonlinear_arith)
            requires
                is_sqrt_floor(d0 as int, rad as int),
                d0 <= SQ_DIST_LIMIT,
        ;
        let radi: i64 = rad as i64;
        let lo_x: i64 = p.lat - radi;
        let lo_y: i64 = p.lon - radi;
        let hi_x: i64 = p.lat + radi;
        let hi_y: i64 = p.lon + radi;
        let cands = kd_within_box(&self.tree, lo_x, lo_y, hi_x, hi_y);
        let mut best: (i64, i64, u64) = e0;
        let mut best_d: i64 = d0;
        let m = cands.len();
        for i in 0..m
            invariant
                m == cands@.len(),
                self.wf(),
                pt_ok(p),
                self.contents().count(best) > 0,
                best_d == entry_sq_dist(best, p),
                best_d <= d0,
                forall|e: (i64, i64, u64)| #[trigger] self.contents().count(e) > 0
                    ==> entry_sq_dist(e, p) >= d0,
                forall|j: int| 0 <= j < cands@.len() ==> #[trigger] self.contents().count(
                    cands@[j],
                ) > 0,
                forall|j: int| 0 <= j < i ==> entry_sq_dist(best, p) < entry_sq_dist(
                    #[trigger] cands@[j],
                    p,
                ) || (entry_sq_dist(best, p) == entry_sq_dist(cands@[j], p) && best.2
                    <= cands@[j].2),
        {
            let c = cands[i];
            proof {
                assert(self.contents().count(cands@[i as int]) > 0);
            }
            let cd = crate::geom::sq_dist_i64(c.0, c.1, p.lat, p.lon);
            if cd < best_d || (cd == best_d && c.2 < best.2) {
                best = c;
                best_d = cd;
            }
        }
        proof {
            assert(best_d == d0);
            assert forall|o: (i64, i64, u64)| #[trigger] self.contents().count(o) > 0
                implies entry_sq_dist(best, p) < entry_sq_dist(o, p) || (entry_sq_dist(best, p)
                == entry_sq_dist(o, p) && best.2 <= o.2) by {
                if entry_sq_dist(o, p) == d0 {
                    let dx = o.0 - p.lat;
                    let dy = o.1 - p.lon;
                    assert(dy * dy >= 0) by (nonlinear_arith);
                    assert(dx * dx >= 0) by (nonlinear_arith);
                    lemma_component_bound(d0 as int, rad as int, dx as int);
                    lemma_component_bound(d0 as int, rad as int, dy as int);
                    assert(in_box(o, lo_x, lo_y, hi_x, hi_y));
                    assert(cands@.contains(o));
                    let j = choose|j: int| 0 <= j < cands@.len() && cands@[j] == o;
                }
            }
            assert(nearest_ok(self.contents(), p, best));
            lemma_nearest_unique(
                self.contents(),
                p,
                best,
                nearest_entry(self.contents(), p),
            );
        }
        let dist = crate::geom::isqrt(best_d);
        proof {
            crate::geom::lemma_sqrt_floor_is(best_d as int, dist as int);
        }
        (best.2, dist)
    }
}

} // verus!
