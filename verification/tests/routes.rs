use route_matcher::geom::Point;
use route_matcher::graph::{Graph, Node};
use route_matcher::matcher::match_trace;
use route_matcher::pathfinder::{shortest_path, shortest_path_search};
use route_matcher::spatial::SpatialIndex;
use route_matcher::MatchError;

fn node(lat: i64, lon: i64, neighbors: Vec<u64>) -> Node {
    Node { lat, lon, neighbors }
}

/// Chain graph A(1)-B(2)-C(3) on a line, one micro-degree-million apart.
fn chain_graph() -> Graph {
    let mut g = Graph::new();
    g.add_node(1, node(0, 0, vec![2])).unwrap();
    g.add_node(2, node(0, 1_000_000, vec![1, 3])).unwrap();
    g.add_node(3, node(0, 2_000_000, vec![2])).unwrap();
    g
}

/// Two disconnected components {1,2} and {10,11}.
fn gap_graph() -> Graph {
    let mut g = Graph::new();
    g.add_node(1, node(0, 0, vec![2])).unwrap();
    g.add_node(2, node(0, 1_000_000, vec![1])).unwrap();
    g.add_node(10, node(0, 10_000_000, vec![11])).unwrap();
    g.add_node(11, node(0, 11_000_000, vec![10])).unwrap();
    g
}

/// Two routes from 1 to 4: via 2 (total 1000) or via 3 (total 1170).
fn diamond_graph() -> Graph {
    let mut g = Graph::new();
    g.add_node(1, node(0, 0, vec![2, 3])).unwrap();
    g.add_node(2, node(300, 400, vec![1, 4])).unwrap();
    g.add_node(3, node(0, 500, vec![1, 4])).unwrap();
    g.add_node(4, node(600, 800, vec![2, 3])).unwrap();
    g
}

#[test]
fn round_trip_route() {
    let g = chain_graph();
    let idx = SpatialIndex::build(&g).unwrap();
    let trace = vec![
        Point { lat: 0, lon: 100_000 },
        Point { lat: 0, lon: 900_000 },
        Point { lat: 0, lon: 1_900_000 },
    ];
    let route = match_trace(&trace, &idx, &g).unwrap();
    assert_eq!(route, vec![1, 2, 3]);
}

#[test]
fn gap_falls_back_to_direct_segment() {
    let g = gap_graph();
    let idx = SpatialIndex::build(&g).unwrap();
    assert_eq!(shortest_path(1, 10, &g), None);
    let trace = vec![Point { lat: 0, lon: 1 }, Point { lat: 0, lon: 10_000_001 }];
    let route = match_trace(&trace, &idx, &g).unwrap();
    assert_eq!(route, vec![1, 10]);
}

#[test]
fn empty_trace_is_rejected() {
    let g = chain_graph();
    let idx = SpatialIndex::build(&g).unwrap();
    let trace: Vec<Point> = vec![];
    assert_eq!(match_trace(&trace, &idx, &g), Err(MatchError::EmptyTrace));
}

#[test]
fn single_node_snap_is_insufficient() {
    let g = chain_graph();
    let idx = SpatialIndex::build(&g).unwrap();
    let trace = vec![Point { lat: 0, lon: 1 }, Point { lat: 0, lon: 2 }];
    assert_eq!(match_trace(&trace, &idx, &g), Err(MatchError::InsufficientCoverage));
}

#[test]
fn out_of_range_point_is_rejected() {
    let g = chain_graph();
    let idx = SpatialIndex::build(&g).unwrap();
    let trace = vec![Point { lat: 0, lon: 0 }, Point { lat: 300_000_000, lon: 0 }];
    assert_eq!(match_trace(&trace, &idx, &g), Err(MatchError::InvalidCoordinate));
}

#[test]
fn out_of_range_node_is_rejected() {
    let mut g = Graph::new();
    assert_eq!(
        g.add_node(1, node(0, 250_000_000, vec![])),
        Err(MatchError::InvalidCoordinate)
    );
}

#[test]
fn empty_graph_has_no_index() {
    let g = Graph::new();
    match SpatialIndex::build(&g) {
        Err(MatchError::EmptyIndex) => {},
        _ => panic!("an empty graph must not yield an index"),
    }
}

#[test]
fn nearest_picks_the_closest_node() {
    let g = chain_graph();
    let idx = SpatialIndex::build(&g).unwrap();
    let (id, _d) = idx.nearest(Point { lat: 0, lon: 1_100_000 });
    assert_eq!(id, 2);
    let (id2, d2) = idx.nearest(Point { lat: 400, lon: 2_000_300 });
    assert_eq!(id2, 3);
    assert_eq!(d2, 500);
}

#[test]
fn nearest_breaks_ties_by_lowest_id() {
    let mut g = Graph::new();
    g.add_node(7, node(0, 1_000, vec![])).unwrap();
    g.add_node(3, node(0, -1_000, vec![])).unwrap();
    g.add_node(5, node(1_000, 0, vec![])).unwrap();
    let idx = SpatialIndex::build(&g).unwrap();
    let (id, d) = idx.nearest(Point { lat: 0, lon: 0 });
    assert_eq!(id, 3);
    assert_eq!(d, 1_000);
    // reproducible across repeated calls
    assert_eq!(idx.nearest(Point { lat: 0, lon: 0 }), (3, 1_000));
}

#[test]
fn shortest_path_takes_the_cheaper_route() {
    let g = diamond_graph();
    // by brute force: 1-2-4 costs 500+500, 1-3-4 costs 500+670
    assert_eq!(shortest_path(1, 4, &g), Some(vec![1, 2, 4]));
}

#[test]
fn shortest_path_handles_cycles_and_bounds_expansions() {
    let g = diamond_graph();
    let (found, expansions) = shortest_path_search(1, 4, &g);
    assert_eq!(found, Some(vec![1, 2, 4]));
    assert!(expansions <= 4);
}

#[test]
fn shortest_path_of_missing_start_is_none() {
    let g = chain_graph();
    assert_eq!(shortest_path(42, 1, &g), None);
}

#[test]
fn shortest_path_to_itself_is_the_single_node() {
    let g = chain_graph();
    assert_eq!(shortest_path(2, 2, &g), Some(vec![2]));
}

#[test]
fn dangling_neighbors_are_skipped() {
    let mut g = Graph::new();
    g.add_node(1, node(0, 0, vec![99, 2])).unwrap();
    g.add_node(2, node(0, 1_000, vec![1, 2])).unwrap();
    assert_eq!(shortest_path(1, 2, &g), Some(vec![1, 2]));
    assert_eq!(shortest_path(1, 99, &g), None);
}

#[test]
fn match_is_idempotent_on_identical_input() {
    let g = diamond_graph();
    let idx = SpatialIndex::build(&g).unwrap();
    let trace = vec![
        Point { lat: 0, lon: 10 },
        Point { lat: 590, lon: 810 },
        Point { lat: 10, lon: 20 },
    ];
    let first = match_trace(&trace, &idx, &g);
    let second = match_trace(&trace, &idx, &g);
    assert_eq!(first, second);
    let idx2 = SpatialIndex::build(&g).unwrap();
    let third = match_trace(&trace, &idx2, &g);
    assert_eq!(first, third);
}

#[test]
fn route_joins_segments_without_repeats() {
    let g = diamond_graph();
    let idx = SpatialIndex::build(&g).unwrap();
    let trace = vec![Point { lat: 0, lon: 10 }, Point { lat: 590, lon: 790 }];
    let route = match_trace(&trace, &idx, &g).unwrap();
    assert_eq!(route, vec![1, 2, 4]);
}

#[test]
fn graph_lookup_reports_membership() {
    let g = chain_graph();
    assert!(g.contains(2));
    assert!(!g.contains(4));
    assert_eq!(g.node_count(), 3);
    assert_eq!(g.get_node(3).unwrap().lon, 2_000_000);
    assert!(g.get_node(9).is_none());
}
