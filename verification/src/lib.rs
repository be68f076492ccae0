//! Snaps a decoded GPS trace onto a connectivity graph and reconstructs a
//! plausible route through that graph.
//!
//! Coordinates are fixed-point micro-degrees held in `i64`, so all geometry
//! is exact integer arithmetic. The components mirror the pipeline: a
//! [`graph::Graph`] holds nodes and adjacency, a [`spatial::SpatialIndex`]
//! answers nearest-node queries through a k-d tree, [`pathfinder`] runs a
//! uniform-cost search, and [`matcher`] stitches snapped points into a route.

use vstd::prelude::*;

pub mod geom;
pub mod graph;
pub mod matcher;
pub mod pathfinder;
pub mod spatial;

verus! {

/// Every failure the library reports. All are recoverable per activity.
#[derive(Clone, Copy, PartialEq, Eq, Structural, Debug)]
pub enum MatchError {
    /// A spatial index was requested over zero nodes.
    EmptyIndex,
    /// The input trace holds no points.
    EmptyTrace,
    /// Fewer than two distinct nodes remained after snapping.
    InsufficientCoverage,
    /// A point or node coordinate lies outside the accepted range.
    InvalidCoordinate,
}

} // verus!
