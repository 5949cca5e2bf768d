use veloinfo::codec::Coord;
use veloinfo::cost::{edge_costs, CyclewayKind, Highway, Tags};
use veloinfo::graph::{search, Edge, PathPoint};
use veloinfo::graph::path_way_ids;
use veloinfo::merge::{resolve_merge, resolve_merge_within, select_longest};
use veloinfo::route::route_request;

fn untagged() -> Tags {
    Tags {
        bicycle_forbidden: false,
        bicycle_designated: false,
        highway: Highway::Other,
        cycleway: CyclewayKind::Absent,
        oneway: false,
        contraflow_allowed: false,
    }
}

fn edge(
    way_id: i64,
    source: i64,
    target: i64,
    s_pos: (i64, i64),
    t_pos: (i64, i64),
    tags: Tags,
    score: Option<u32>,
    length: u64,
) -> Edge {
    let (forward_cost, reverse_cost) = edge_costs(&tags, score, length);
    Edge {
        way_id,
        source,
        target,
        sx: s_pos.0,
        sy: s_pos.1,
        tx: t_pos.0,
        ty: t_pos.1,
        forward_cost,
        reverse_cost,
        length,
    }
}

fn node_ids(path: &[PathPoint]) -> Vec<i64> {
    path.iter().map(|p| p.node_id).collect()
}

// Node positions shared by the fixtures, in millionths.
const N1: (i64, i64) = (0, 0);
const N2: (i64, i64) = (1_000, 0);
const N3: (i64, i64) = (500, 800);

fn perfect_way_graph() -> Vec<Edge> {
    vec![
        edge(10, 1, 2, N1, N2, untagged(), Some(10_000), 250),
        edge(11, 1, 3, N1, N3, untagged(), Some(5_000), 200),
        edge(12, 3, 2, N3, N2, untagged(), Some(5_000), 200),
    ]
}

#[test]
fn search_follows_the_cheapest_way() {
    let edges = perfect_way_graph();
    let path = search(&edges, 1, 2);
    assert_eq!(node_ids(&path), vec![1, 2]);
    assert_eq!(path[0].way_id, 10);
    assert_eq!(path[0].length, 250);
    assert_eq!(path[1].length, 0);
}

#[test]
fn search_same_node_is_the_single_point_path() {
    let edges = perfect_way_graph();
    let path = search(&edges, 3, 3);
    assert_eq!(node_ids(&path), vec![3]);
}

#[test]
fn search_unreachable_is_empty() {
    let edges = perfect_way_graph();
    assert_eq!(search(&edges, 1, 99).len(), 0);
    assert_eq!(search(&edges, 99, 1).len(), 0);
}

#[test]
fn route_on_a_perfect_way_has_no_detour() {
    // Start and end resolve to nodes of a way scored perfect: the
    // route length is the direct distance between them.
    let edges = perfect_way_graph();
    let start = Coord { x: N1.0, y: N1.1 };
    let end = Coord { x: N2.0, y: N2.1 };
    let route = route_request(&edges, Some(1), Some(2), start, end);
    assert_eq!(route.error, "");
    assert_eq!(route.geometry.len(), 4);
    assert_eq!(route.geometry[0], start);
    assert_eq!(route.geometry[3], end);
    // 250 m, rounded to hundredths of a kilometre.
    assert_eq!(route.length_km_hundredths, 25);
    assert_eq!(
        route.route_json,
        "[[0.000000,0.000000],[0.000000,0.000000],[0.001000,0.000000],[0.001000,0.000000]]"
    );
}

#[test]
fn unreachable_end_yields_empty_geometry_and_an_error() {
    let edges = perfect_way_graph();
    let start = Coord { x: N1.0, y: N1.1 };
    let end = Coord { x: N2.0, y: N2.1 };
    let route = route_request(&edges, Some(1), Some(99), start, end);
    assert!(route.geometry.is_empty());
    assert_eq!(route.length_km_hundredths, 0);
    assert_eq!(
        route.error,
        "no route found between 0.000000 0.000000 and 0.001000 0.000000"
    );
    assert_eq!(route.route_json, "[]");
}

#[test]
fn missing_endpoint_yields_empty_geometry_and_an_error() {
    let edges = perfect_way_graph();
    let start = Coord { x: N1.0, y: N1.1 };
    let end = Coord { x: N2.0, y: N2.1 };
    let route = route_request(&edges, None, Some(2), start, end);
    assert!(route.geometry.is_empty());
    assert_eq!(route.length_km_hundredths, 0);
    assert_eq!(route.error, "no node found near the start point");
    let other = route_request(&edges, Some(1), None, start, end);
    assert_eq!(other.error, "no node found near the end point");
}

fn oneway_graph(tagged: bool) -> Vec<Edge> {
    let residential = Tags { highway: Highway::Residential, ..untagged() };
    let oneway = Tags { oneway: tagged, ..residential };
    vec![
        // The direct way runs from node 2 to node 1; with the one-way
        // tag, riding it from 1 to 2 is the forbidden direction.
        edge(20, 2, 1, N2, N1, oneway, None, 100),
        edge(21, 1, 3, N1, N3, residential, None, 100),
        edge(22, 3, 2, N3, N2, residential, None, 100),
    ]
}

#[test]
fn oneway_in_the_forbidden_direction_forces_a_detour() {
    let with_tag = search(&oneway_graph(true), 1, 2);
    assert_eq!(node_ids(&with_tag), vec![1, 3, 2]);
    let without_tag = search(&oneway_graph(false), 1, 2);
    assert_eq!(node_ids(&without_tag), vec![1, 2]);
}

#[test]
fn oneway_in_the_allowed_direction_is_direct() {
    let path = search(&oneway_graph(true), 2, 1);
    assert_eq!(node_ids(&path), vec![2, 1]);
}

fn dummy_path(len: usize) -> Vec<PathPoint> {
    let mut v = Vec::new();
    for _ in 0..len {
        v.push(PathPoint { x: 0, y: 0, way_id: 0, node_id: 0, length: 0 });
    }
    v
}

#[test]
fn resolver_keeps_the_candidate_with_most_points() {
    let cands = vec![dummy_path(3), dummy_path(7), dummy_path(5), dummy_path(2)];
    let k = select_longest(&cands);
    assert_eq!(k, 1);
    assert_eq!(cands[k].len(), 7);
}

#[test]
fn resolver_prefers_the_first_of_equal_lengths() {
    let cands = vec![dummy_path(4), dummy_path(4), dummy_path(1)];
    assert_eq!(select_longest(&cands), 0);
}

#[test]
fn merge_resolves_to_the_longest_directional_candidate() {
    // Anchor endpoints 1 and 2, target endpoints 3 and 4, in two
    // separate components: only (1 to 4) and (2 to 3) admit paths,
    // and (2 to 3) has more points.
    let edges = vec![
        edge(30, 1, 4, N1, N2, untagged(), None, 50),
        edge(31, 2, 5, N1, N3, untagged(), None, 50),
        edge(32, 5, 3, N3, N2, untagged(), None, 50),
    ];
    let union = resolve_merge(&edges, 1, 2, 3, 4);
    assert_eq!(node_ids(&union), vec![2, 5, 3]);
}

#[test]
fn merge_of_disconnected_endpoints_is_empty() {
    let edges = vec![edge(40, 1, 2, N1, N2, untagged(), None, 50)];
    let union = resolve_merge(&edges, 7, 8, 9, 10);
    assert!(union.is_empty());
}

#[test]
fn path_ways_are_distinct_in_first_traversal_order() {
    // Both detour edges below belong to way 21, ridden one after the
    // other; the list names the way once.
    let residential = Tags { highway: Highway::Residential, ..untagged() };
    let edges = vec![
        edge(21, 1, 3, N1, N3, residential, None, 100),
        edge(21, 3, 2, N3, N2, residential, None, 100),
    ];
    let path = search(&edges, 1, 2);
    assert_eq!(node_ids(&path), vec![1, 3, 2]);
    assert_eq!(path_way_ids(&path), vec![21]);
    assert_eq!(path_way_ids(&vec![]), Vec::<i64>::new());
}

#[test]
fn bounded_merge_resolves_within_the_padded_box() {
    let edges = vec![
        edge(30, 1, 4, N1, N2, untagged(), None, 50),
        edge(31, 2, 5, N1, N3, untagged(), None, 50),
        edge(32, 5, 3, N3, N2, untagged(), None, 50),
    ];
    let a = Coord { x: N1.0, y: N1.1 };
    let b = Coord { x: N2.0, y: N2.1 };
    let union = resolve_merge_within(&edges, a, b, 1, 2, 3, 4);
    assert_eq!(node_ids(&union), vec![2, 5, 3]);
    assert_eq!(path_way_ids(&union), vec![31, 32]);
    // A far-away box keeps no edges, so nothing connects.
    let far = Coord { x: 50_000_000, y: 50_000_000 };
    let empty = resolve_merge_within(&edges, far, far, 1, 2, 3, 4);
    assert!(empty.is_empty());
}
