//! The connectivity graph: node identifiers mapped to positions and
//! adjacency lists.
//!
//! Neighbor identifiers may repeat and may dangle (name a node absent from
//! the graph); both degrade gracefully downstream. Insertion order of the
//! identifiers is kept in a side list so that iteration is deterministic.

use std::collections::HashMap;
use vstd::prelude::*;

use crate::geom::coord_ok;
use crate::MatchError;

verus! {

/// One node: position in micro-degrees and outgoing neighbor identifiers.
#[derive(Debug)]
pub struct Node {
    pub lat: i64,
    pub lon: i64,
    pub neighbors: Vec<u64>,
}

/// The node's coordinates are in range.
pub open spec fn node_ok(n: Node) -> bool {
    coord_ok(n.lat) && coord_ok(n.lon)
}

/// Every node of the mapping has in-range coordinates.
pub open spec fn map_ok(gm: Map<u64, Node>) -> bool {
    forall|id: u64| gm.dom().contains(id) ==> node_ok(#[trigger] gm[id])
}

/// Mapping from node identifier to node, keys unique, with the insertion
/// order of the keys remembered.
pub struct Graph {
    ids: Vec<u64>,
    nodes: HashMap<u64, Node>,
}

impl View for Graph {
    type V = Map<u64, Node>;

    closed spec fn view(&self) -> Map<u64, Node> {
        self.nodes@
    }
}

impl Graph {
    /// The node identifiers in insertion order.
    pub closed spec fn id_list(&self) -> Seq<u64> {
        self.ids@
    }

    /// Well-formedness: the identifier list mirrors the key set exactly,
    /// and every stored node has in-range coordinates.
    pub open spec fn wf(&self) -> bool {
        &&& self.id_list().no_duplicates()
        &&& self.id_list().to_set() =~= self@.dom()
        &&& map_ok(self@)
    }

    /// An empty graph.
    pub fn new() -> (g: Graph)
        ensures
            g.wf(),
            g@ == Map::<u64, Node>::empty(),
            g.id_list() == Seq::<u64>::empty(),
    {
        let g = Graph { ids: Vec::new(), nodes: HashMap::new() };
        proof {
            assert(g.id_list().to_set() =~= g@.dom());
        }
        g
    }

    /// Insert a node under `id`, replacing any previous node with that
    /// identifier. Rejects out-of-range coordinates.
    pub fn add_node(&mut self, id: u64, node: Node) -> (r: Result<(), MatchError>)
        requires
            old(self).wf(),
        ensures
            final(self).wf(),
            node_ok(node) ==> {
                &&& r is Ok
                &&& final(self)@ == old(self)@.insert(id, node)
                &&& final(self).id_list() == if old(self)@.dom().contains(id) {
                    old(self).id_list()
                } else {
                    old(self).id_list().push(id)
                }
            },
            !node_ok(node) ==> {
                &&& r == Result::<(), MatchError>::Err(MatchError::InvalidCoordinate)
                &&& final(self)@ == old(self)@
                &&& final(self).id_list() == old(self).id_list()
            },
    {
        if node.lat < -crate::geom::COORD_LIMIT || node.lat > crate::geom::COORD_LIMIT
            || node.lon < -crate::geom::COORD_LIMIT || node.lon > crate::geom::COORD_LIMIT {
            return Err(MatchError::InvalidCoordinate);
        }
        let fresh: bool = !self.nodes.contains_key(&id);
        self.nodes.insert(id, node);
        if fresh {
            self.ids.push(id);
            proof {
                assert(self.id_list() =~= old(self).id_list().push(id));
                assert forall|k: u64| self.id_list().to_set().contains(k)
                    <==> self@.dom().contains(k) by {
                    if self.id_list().contains(k) {
                        let j = choose|j: int|
                            0 <= j < self.id_list().len() && self.id_list()[j] == k;
                        if j < old(self).id_list().len() {
                            assert(old(self).id_list().contains(k));
                        }
                    }
                    if self@.dom().contains(k) {
                        if k == id {
                            assert(self.id_list()[self.id_list().len() - 1] == k);
                        } else {
                            assert(old(self).id_list().to_set().contains(k));
                            let j = choose|j: int|
                                0 <= j < old(self).id_list().len()
                                    && old(self).id_list()[j] == k;
                            assert(self.id_list()[j] == k);
                        }
                    }
                }
                assert(self.id_list().to_set() =~= self@.dom());
                assert forall|i: int, j: int|
                    0 <= i < self.id_list().len() && 0 <= j < self.id_list().len() && i != j
                    implies self.id_list()[i] != self.id_list()[j] by {
                    if i < old(self).id_list().len() && j < old(self).id_list().len() {
                    } else if i < old(self).id_list().len() {
                        assert(old(self).id_list().contains(self.id_list()[i]));
                    } else if j < old(self).id_list().len() {
                        assert(old(self).id_list().contains(self.id_list()[j]));
                    }
                }
            }
        }
        Ok(())
    }

    /// Look a node up by its identifier.
    pub fn get_node(&self, id: u64) -> (r: Option<&Node>)
        ensures
            match r {
                Some(n) => self@.contains_key(id) && *n == self@[id],
                None => !self@.contains_key(id),
            },
    {
        self.nodes.get(&id)
    }

    /// Whether `id` names a node of the graph.
    pub fn contains(&self, id: u64) -> (r: bool)
        ensures
            r == self@.contains_key(id),
    {
        self.nodes.contains_key(&id)
    }

    /// Number of nodes.
    pub fn node_count(&self) -> (n: usize)
        ensures
            n == self@.dom().len(),
    {
        self.nodes.len()
    }

    /// The key set of the view is finite (it comes from a hash map).
    pub proof fn lemma_dom_finite(&self)
        ensures
            self@.dom().finite(),
    {
    }

    /// The node identifiers in insertion order.
    pub fn id_vec(&self) -> (r: &Vec<u64>)
        ensures
            r@ == self.id_list(),
    {
        &self.ids
    }
}

} // verus!
