//! Path assembler: from a found path and the raw click points to the
//! final route.
//!
//! The assembler prepends the literal user-supplied start coordinate
//! and appends the literal end coordinate, so the rendered route
//! touches the exact click points rather than only the nearest graph
//! nodes; it sums the traversed physical lengths (never the costs)
//! and rounds the kilometre total to hundredths.  When no path
//! exists, the request still yields a renderable result: empty
//! geometry, zero length, and a human-readable explanation.

use vstd::prelude::*;

verus! {

use vstd::string::StringExecFns;
use vstd::utf8::encode_utf8;
use crate::codec::{
    Coord,
    coord_in_range,
    all_in_range,
    encode,
    encode_json,
    lemma_encode_utf8_concat,
    print_json,
    print_pairs,
};
use crate::cost::MAX_EDGE_LENGTH;
use crate::graph::{
    Edge,
    PathPoint,
    ROUTE_BBOX_MARGIN,
    graph_in_range,
    point_on_graph,
    spec_reachable,
    spec_bbox_around,
    spec_filter_bbox,
    bbox_around,
    filter_edges,
    lemma_filter_bbox_in_range,
    search,
    step_on_graph,
};

/// Largest total route length the assembler accepts, in metres.
pub const MAX_TOTAL_LENGTH: u64 = 400_000_000_000_000;

/// A finished route, ready for the map client.
pub struct RouteResult {
    /// The route's points: the raw start, the traversed nodes, the
    /// raw end; empty when no route was found.
    pub geometry: Vec<Coord>,
    /// The geometry as the JSON array the map client draws.
    pub route_json: String,
    /// The total physical length, in hundredths of a kilometre.
    pub length_km_hundredths: u64,
    /// Empty on success; otherwise a short explanation for the route
    /// panel.
    pub error: String,
}

/// The sum of the per-step physical lengths of a path.
pub open spec fn spec_total_length(path: Seq<PathPoint>) -> nat
    decreases path.len(),
{
    if path.len() == 0 {
        0
    } else {
        spec_total_length(path.drop_last()) + path.last().length as nat
    }
}

/// Metres to hundredths of a kilometre, rounded to nearest.
pub open spec fn spec_round_km_hundredths(total_m: nat) -> nat {
    (total_m + 5) / 10
}

proof fn lemma_total_prefix_le(path: Seq<PathPoint>, i: int)
    requires
        0 <= i <= path.len(),
    ensures
        spec_total_length(path.take(i)) <= spec_total_length(path),
    decreases path.len() - i,
{
    if i < path.len() {
        lemma_total_prefix_le(path, i + 1);
        assert(path.take(i + 1).drop_last() =~= path.take(i));
        assert(path.take(i + 1).last() == path[i]);
    } else {
        assert(path.take(i) =~= path);
    }
}

/// A path of bounded steps has a bounded total.
proof fn lemma_total_length_bounded(path: Seq<PathPoint>, bound: nat)
    requires
        forall|i: int| 0 <= i < path.len() ==> (#[trigger] path[i]).length <= bound,
    ensures
        spec_total_length(path) <= path.len() * bound,
    decreases path.len(),
{
    if path.len() > 0 {
        assert(forall|i: int|
            0 <= i < path.len() - 1 ==> (#[trigger] path.drop_last()[i]).length <= bound);
        lemma_total_length_bounded(path.drop_last(), bound);
        assert(path.last() == path[path.len() - 1]);
        assert((path.len() - 1) * bound + bound == path.len() * bound) by (nonlinear_arith);
    }
}

fn total_length(path: &Vec<PathPoint>) -> (t: u64)
    requires
        spec_total_length(path@) <= MAX_TOTAL_LENGTH,
    ensures
        t == spec_total_length(path@),
{
    let mut sum: u64 = 0;
    let mut i: usize = 0;
    while i < path.len()
        invariant
            0 <= i <= path@.len(),
            spec_total_length(path@) <= MAX_TOTAL_LENGTH,
            sum == spec_total_length(path@.take(i as int)),
        decreases path@.len() - i,
    {
        proof {
            assert(path@.take(i + 1).drop_last() =~= path@.take(i as int));
            assert(path@.take(i + 1).last() == path@[i as int]);
            lemma_total_prefix_le(path@, i + 1);
        }
        sum = sum + path[i].length;
        i = i + 1;
    }
    assert(path@.take(path@.len() as int) =~= path@);
    sum
}

/// Stitches the found path with the raw click points into the final
/// route: the literal start, the traversed coordinates, the literal
/// end, with the rounded kilometre total and no error.
pub fn assemble_route(start: Coord, end: Coord, path: &Vec<PathPoint>) -> (r: RouteResult)
    requires
        spec_total_length(path@) <= MAX_TOTAL_LENGTH,
    ensures
        r.geometry@.len() == path@.len() + 2,
        r.geometry@[0] == start,
        r.geometry@[r.geometry@.len() - 1] == end,
        forall|i: int|
            0 <= i < path@.len() ==> r.geometry@[i + 1] == (Coord {
                x: (#[trigger] path@[i]).x,
                y: path@[i].y,
            }),
        r.length_km_hundredths == spec_round_km_hundredths(spec_total_length(path@)),
        r.error@ == Seq::<char>::empty(),
        all_in_range(r.geometry@) ==> encode_utf8(r.route_json@) == print_json(r.geometry@),
        !all_in_range(r.geometry@) ==> encode_utf8(r.route_json@) == print_json(
            Seq::<Coord>::empty(),
        ),
{
    let mut geometry: Vec<Coord> = Vec::new();
    geometry.push(start);
    let mut i: usize = 0;
    while i < path.len()
        invariant
            0 <= i <= path@.len(),
            geometry@.len() == i + 1,
            geometry@[0] == start,
            forall|t: int|
                0 <= t < i ==> geometry@[t + 1] == (Coord {
                    x: (#[trigger] path@[t]).x,
                    y: path@[t].y,
                }),
        decreases path@.len() - i,
    {
        geometry.push(Coord { x: path[i].x, y: path[i].y });
        i = i + 1;
    }
    geometry.push(end);
    let total = total_length(path);
    let route_json = encode_json(&geometry);
    RouteResult {
        geometry,
        route_json,
        length_km_hundredths: (total + 5) / 10,
        error: String::new(),
    }
}

/// The explanation a failed search carries, as bytes: it names both
/// endpoints in the codec's text form.
pub open spec fn spec_no_route_message(start: Coord, end: Coord) -> Seq<u8> {
    encode_utf8("no route found between "@) + print_pairs(seq![start]) + encode_utf8(" and "@)
        + print_pairs(seq![end])
}

/// The renderable result for a search that found no path: empty
/// geometry, zero length, and an explanation naming both endpoints.
pub fn no_route_result(start: Coord, end: Coord) -> (r: RouteResult)
    requires
        coord_in_range(start),
        coord_in_range(end),
    ensures
        r.geometry@.len() == 0,
        r.length_km_hundredths == 0,
        r.error@.len() > 0,
        encode_utf8(r.error@) == spec_no_route_message(start, end),
        encode_utf8(r.route_json@) == print_json(Seq::<Coord>::empty()),
{
    let empty: Vec<Coord> = Vec::new();
    let route_json = encode_json(&empty);
    let mut error = String::from_str("no route found between ");
    proof {
        reveal_strlit("no route found between ");
    }
    let ghost lit1 = "no route found between "@;
    let start_vec = vec![start];
    proof {
        assert(all_in_range(start_vec@)) by {
            assert(start_vec@[0] == start);
        }
    }
    let start_text = encode(&start_vec);
    error.append(start_text.as_str());
    error.append(" and ");
    let ghost lit2 = " and "@;
    let end_vec = vec![end];
    proof {
        assert(all_in_range(end_vec@)) by {
            assert(end_vec@[0] == end);
        }
    }
    let end_text = encode(&end_vec);
    error.append(end_text.as_str());
    proof {
        assert(error@ == lit1 + start_text@ + lit2 + end_text@);
        lemma_encode_utf8_concat(lit1 + start_text@ + lit2, end_text@);
        lemma_encode_utf8_concat(lit1 + start_text@, lit2);
        lemma_encode_utf8_concat(lit1, start_text@);
        assert((lit1 + start_text@ + lit2) + end_text@ =~= error@);
        assert(start_vec@ =~= seq![start]);
        assert(end_vec@ =~= seq![end]);
        assert(encode_utf8(error@) =~= spec_no_route_message(start, end));
    }
    RouteResult { geometry: empty, route_json, length_km_hundredths: 0, error }
}

/// The renderable result for a click with no graph node near it:
/// empty geometry, zero length, and an explanation naming which
/// endpoint failed.
pub fn missing_endpoint_result(start_missing: bool) -> (r: RouteResult)
    ensures
        r.geometry@.len() == 0,
        r.length_km_hundredths == 0,
        r.error@.len() > 0,
        start_missing ==> r.error@ == "no node found near the start point"@,
        !start_missing ==> r.error@ == "no node found near the end point"@,
        encode_utf8(r.route_json@) == print_json(Seq::<Coord>::empty()),
{
    let empty: Vec<Coord> = Vec::new();
    let route_json = encode_json(&empty);
    let error = if start_missing {
        proof {
            reveal_strlit("no node found near the start point");
        }
        String::from_str("no node found near the start point")
    } else {
        proof {
            reveal_strlit("no node found near the end point");
        }
        String::from_str("no node found near the end point")
    };
    RouteResult { geometry: empty, route_json, length_km_hundredths: 0, error }
}

/// A successful route: some valid path over the searched edge list
/// between the located nodes, whose coordinates the geometry carries
/// between the literal click points, and whose summed physical
/// length, rounded, the result reports.
pub open spec fn spec_route_success(
    es: Seq<Edge>,
    a: i64,
    b: i64,
    start: Coord,
    end: Coord,
    path: Seq<PathPoint>,
    r: RouteResult,
) -> bool {
    &&& path.len() >= 1
    &&& path[0].node_id == a
    &&& path[path.len() - 1].node_id == b
    &&& path[path.len() - 1].length == 0
    &&& forall|i: int| 0 <= i < path.len() ==> point_on_graph(es, #[trigger] path[i])
    &&& forall|i: int| 0 <= i < path.len() - 1 ==> step_on_graph(es, #[trigger] path[i], path[i + 1])
    &&& r.geometry@.len() == path.len() + 2
    &&& r.geometry@[0] == start
    &&& r.geometry@[r.geometry@.len() - 1] == end
    &&& forall|i: int|
        0 <= i < path.len() ==> r.geometry@[i + 1] == (Coord {
            x: (#[trigger] path[i]).x,
            y: path[i].y,
        })
    &&& r.length_km_hundredths == spec_round_km_hundredths(spec_total_length(path))
    &&& exists|steps: Seq<(int, bool)>|
        crate::graph::walk_ok(es, steps, a, b) && steps.len() == path.len() - 1 && (forall|i: int|
            0 <= i < steps.len() ==> crate::graph::step_from(es, #[trigger] steps[i])
                == path[i].node_id) && (forall|other: Seq<(int, bool)>|
            crate::graph::walk_ok(es, other, a, b) ==> crate::graph::walk_cost(es, other)
                >= crate::graph::walk_cost(es, steps))
}

/// Serves one route request: searches the edge list, restricted to a
/// padded box around the endpoints, between the two located nodes,
/// and assembles the final route.  A missing endpoint or an absent
/// path yields a renderable empty route with a non-empty explanation,
/// never a failure.
pub fn route_request(
    edges: &Vec<Edge>,
    start_node: Option<i64>,
    end_node: Option<i64>,
    start: Coord,
    end: Coord,
) -> (r: RouteResult)
    requires
        graph_in_range(edges@),
        coord_in_range(start),
        coord_in_range(end),
    ensures
        all_in_range(r.geometry@) ==> encode_utf8(r.route_json@) == print_json(r.geometry@),
        !all_in_range(r.geometry@) ==> encode_utf8(r.route_json@) == print_json(
            Seq::<Coord>::empty(),
        ),
        start_node is None ==> r.geometry@.len() == 0 && r.length_km_hundredths == 0
            && r.error@ == "no node found near the start point"@,
        (start_node is Some && end_node is None) ==> r.geometry@.len() == 0
            && r.length_km_hundredths == 0 && r.error@ == "no node found near the end point"@,
        (start_node is Some && end_node is Some) ==> {
            let sub = spec_filter_bbox(
                edges@,
                spec_bbox_around(start, end, ROUTE_BBOX_MARGIN as int),
            );
            &&& !spec_reachable(sub, start_node.unwrap(), end_node.unwrap())
                ==> r.geometry@.len() == 0 && r.length_km_hundredths == 0 && r.error@.len() > 0
                && encode_utf8(r.error@) == spec_no_route_message(start, end)
            &&& spec_reachable(sub, start_node.unwrap(), end_node.unwrap()) ==> r.error@
                == Seq::<char>::empty() && exists|path: Seq<PathPoint>|
                spec_route_success(
                    sub,
                    start_node.unwrap(),
                    end_node.unwrap(),
                    start,
                    end,
                    path,
                    r,
                )
        },
{
    let s = match start_node {
        Some(s) => s,
        None => {
            return missing_endpoint_result(true);
        },
    };
    let t = match end_node {
        Some(t) => t,
        None => {
            return missing_endpoint_result(false);
        },
    };
    let b = bbox_around(start, end, ROUTE_BBOX_MARGIN);
    let sub = filter_edges(edges, b);
    proof {
        lemma_filter_bbox_in_range(edges@, b);
    }
    let path = search(&sub, s, t);
    if path.len() == 0 {
        return no_route_result(start, end);
    }
    proof {
        assert forall|i: int| 0 <= i < path@.len() implies (#[trigger] path@[i]).length
            <= MAX_EDGE_LENGTH by {
            if i < path@.len() - 1 {
                assert(step_on_graph(sub@, path@[i], path@[i + 1]));
                let j = choose|j: int|
                    0 <= j < sub@.len() && crate::graph::edge_connects(
                        #[trigger] sub@[j],
                        path@[i].node_id,
                        path@[i + 1].node_id,
                    ) && path@[i].way_id == sub@[j].way_id && path@[i].length == sub@[j].length;
            } else {
                assert(path@[path@.len() - 1].length == 0);
            }
        }
        lemma_total_length_bounded(path@, MAX_EDGE_LENGTH as nat);
        assert(path@.len() * (MAX_EDGE_LENGTH as nat) <= (2 * sub@.len()) * (
        MAX_EDGE_LENGTH as nat)) by (nonlinear_arith)
            requires
                path@.len() <= 2 * sub@.len(),
        ;
        assert((2 * sub@.len()) * (MAX_EDGE_LENGTH as nat) <= 2 * (
        crate::graph::MAX_GRAPH_EDGES as nat) * (MAX_EDGE_LENGTH as nat)) by (nonlinear_arith)
            requires
                sub@.len() <= crate::graph::MAX_GRAPH_EDGES as nat,
        ;
    }
    let result = assemble_route(start, end, &path);
    proof {
        assert(spec_route_success(sub@, s, t, start, end, path@, result));
    }
    result
}

} // verus!
