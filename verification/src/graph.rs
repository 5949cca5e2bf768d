//! Pathfinder: a best-first search over a directed edge list.
//!
//! Edges come from the street network with their two directed costs
//! already attached by the cost model; the search works on whatever
//! edge list it is handed, so a caller restricts it to a bounding box
//! around the endpoints for performance.  The result is the traversed
//! node sequence with coordinates and way data; an empty result means
//! exactly that no path exists in the given edge list.

use vstd::prelude::*;

verus! {

use vstd::arithmetic::mul::lemma_mul_inequality;
use crate::cost::{MAX_EDGE_COST, MAX_EDGE_LENGTH};

/// Most edges the search accepts in one subgraph.
pub const MAX_GRAPH_EDGES: u64 = 1_000_000;

/// A directed graph arc between two nodes, derived from a way.
#[derive(Clone, Copy, PartialEq, Eq, Structural, Debug)]
pub struct Edge {
    /// The way this edge belongs to.
    pub way_id: i64,
    /// The node the edge starts at.
    pub source: i64,
    /// The node the edge ends at.
    pub target: i64,
    /// Source endpoint, in fixed-point millionths.
    pub sx: i64,
    /// Source endpoint, in fixed-point millionths.
    pub sy: i64,
    /// Target endpoint, in fixed-point millionths.
    pub tx: i64,
    /// Target endpoint, in fixed-point millionths.
    pub ty: i64,
    /// Cost of traversing source to target.
    pub forward_cost: u64,
    /// Cost of traversing target to source.
    pub reverse_cost: u64,
    /// Physical length, in metres.
    pub length: u64,
}

/// One step of a found path: the node it departs from, that node's
/// coordinate, and the way and length of the edge it departs on (the
/// final point has length zero).
#[derive(Clone, Copy, PartialEq, Eq, Structural, Debug)]
pub struct PathPoint {
    /// The departing node's coordinate, in fixed-point millionths.
    pub x: i64,
    /// The departing node's coordinate, in fixed-point millionths.
    pub y: i64,
    /// The way of the edge this step departs on.
    pub way_id: i64,
    /// The node this step departs from.
    pub node_id: i64,
    /// The physical length of the edge this step departs on, in
    /// metres; zero on the final point.
    pub length: u64,
}

/// An edge list the search accepts: bounded, with every directed cost
/// strictly positive and within the cost model's cap.
pub open spec fn graph_in_range(es: Seq<Edge>) -> bool {
    &&& es.len() <= MAX_GRAPH_EDGES
    &&& forall|j: int|
        0 <= j < es.len() ==> 1 <= (#[trigger] es[j]).forward_cost <= MAX_EDGE_COST && 1
            <= es[j].reverse_cost <= MAX_EDGE_COST && es[j].length <= MAX_EDGE_LENGTH
}

/// The edge joins the two nodes, in either direction.
pub open spec fn edge_connects(e: Edge, a: i64, b: i64) -> bool {
    (e.source == a && e.target == b) || (e.target == a && e.source == b)
}

/// The node is an endpoint of some edge of the list.
pub open spec fn node_in_graph(es: Seq<Edge>, n: i64) -> bool {
    exists|j: int| 0 <= j < es.len() && ((#[trigger] es[j]).source == n || es[j].target == n)
}

/// Some edge of the list joins the `i`-th and the following node.
pub open spec fn chain_step(es: Seq<Edge>, ns: Seq<i64>, i: int) -> bool {
    exists|j: int| 0 <= j < es.len() && edge_connects(#[trigger] es[j], ns[i], ns[i + 1])
}

/// Consecutive nodes of the sequence are joined by edges of the list.
pub open spec fn is_node_chain(es: Seq<Edge>, ns: Seq<i64>) -> bool {
    forall|i: int| 0 <= i < ns.len() - 1 ==> #[trigger] chain_step(es, ns, i)
}

/// The node sequence is a path from `a` to `b` over the edge list.
pub open spec fn is_path_between(es: Seq<Edge>, ns: Seq<i64>, a: i64, b: i64) -> bool {
    &&& ns.len() >= 1
    &&& ns[0] == a
    &&& ns.last() == b
    &&& is_node_chain(es, ns)
    &&& forall|i: int| 0 <= i < ns.len() ==> node_in_graph(es, #[trigger] ns[i])
}

/// Some path over the edge list leads from `a` to `b`.
pub open spec fn spec_reachable(es: Seq<Edge>, a: i64, b: i64) -> bool {
    exists|ns: Seq<i64>| is_path_between(es, ns, a, b)
}

/// The point's coordinate is the one some edge of the list records
/// for the point's node.
pub open spec fn point_on_graph(es: Seq<Edge>, p: PathPoint) -> bool {
    exists|j: int|
        0 <= j < es.len() && (((#[trigger] es[j]).source == p.node_id && es[j].sx == p.x
            && es[j].sy == p.y) || (es[j].target == p.node_id && es[j].tx == p.x && es[j].ty
            == p.y))
}

/// Two consecutive path points are joined by an edge of the list, and
/// the earlier point carries that edge's way and length.
pub open spec fn step_on_graph(es: Seq<Edge>, p: PathPoint, q: PathPoint) -> bool {
    exists|j: int|
        0 <= j < es.len() && edge_connects(#[trigger] es[j], p.node_id, q.node_id) && p.way_id
            == es[j].way_id && p.length == es[j].length
}

// ---------------------------------------------------------------------------
// Bounding the search to a box around the endpoints.
// ---------------------------------------------------------------------------

/// The margin added around the endpoints of a plain route search, in
/// fixed-point millionths.
pub const ROUTE_BBOX_MARGIN: i64 = 160_000;

/// The margin added around the endpoints when growing a selection, in
/// fixed-point millionths.
pub const GROW_BBOX_MARGIN: i64 = 20_000;

/// Largest bounding-box margin accepted, in fixed-point millionths.
pub const MAX_BBOX_MARGIN: i64 = 1_000_000_000;

/// An axis-aligned bounding box, in fixed-point millionths.
#[derive(Clone, Copy, PartialEq, Eq, Structural, Debug)]
pub struct BBox {
    /// Smallest contained x.
    pub min_x: i64,
    /// Smallest contained y.
    pub min_y: i64,
    /// Largest contained x.
    pub max_x: i64,
    /// Largest contained y.
    pub max_y: i64,
}

/// The edge's source endpoint lies within the box.
pub open spec fn edge_in_bbox(e: Edge, b: BBox) -> bool {
    b.min_x <= e.sx <= b.max_x && b.min_y <= e.sy <= b.max_y
}

/// The edges whose source endpoint lies within the box, in order.
pub open spec fn spec_filter_bbox(es: Seq<Edge>, b: BBox) -> Seq<Edge>
    decreases es.len(),
{
    if es.len() == 0 {
        Seq::empty()
    } else {
        spec_filter_bbox(es.drop_last(), b) + if edge_in_bbox(es.last(), b) {
            seq![es.last()]
        } else {
            Seq::empty()
        }
    }
}

/// The box around two endpoints, padded by the given margin on every
/// side.
pub open spec fn spec_bbox_around(a: crate::codec::Coord, c: crate::codec::Coord, margin: int) -> BBox {
    BBox {
        min_x: ((if a.x <= c.x {
            a.x as int
        } else {
            c.x as int
        }) - margin) as i64,
        min_y: ((if a.y <= c.y {
            a.y as int
        } else {
            c.y as int
        }) - margin) as i64,
        max_x: ((if a.x >= c.x {
            a.x as int
        } else {
            c.x as int
        }) + margin) as i64,
        max_y: ((if a.y >= c.y {
            a.y as int
        } else {
            c.y as int
        }) + margin) as i64,
    }
}

/// Pads a box of the two endpoints by the margin on every side.
pub fn bbox_around(a: crate::codec::Coord, c: crate::codec::Coord, margin: i64) -> (r: BBox)
    requires
        crate::codec::coord_in_range(a),
        crate::codec::coord_in_range(c),
        0 <= margin <= MAX_BBOX_MARGIN,
    ensures
        r == spec_bbox_around(a, c, margin as int),
{
    let min_x = if a.x <= c.x {
        a.x
    } else {
        c.x
    };
    let min_y = if a.y <= c.y {
        a.y
    } else {
        c.y
    };
    let max_x = if a.x >= c.x {
        a.x
    } else {
        c.x
    };
    let max_y = if a.y >= c.y {
        a.y
    } else {
        c.y
    };
    BBox { min_x: min_x - margin, min_y: min_y - margin, max_x: max_x + margin, max_y: max_y
        + margin }
}

/// Every edge the box filter keeps is an edge of the original list.
pub proof fn lemma_filter_bbox_elements(es: Seq<Edge>, b: BBox)
    ensures
        forall|k: int|
            0 <= k < spec_filter_bbox(es, b).len() ==> es.contains(
                #[trigger] spec_filter_bbox(es, b)[k],
            ),
        spec_filter_bbox(es, b).len() <= es.len(),
    decreases es.len(),
{
    if es.len() > 0 {
        lemma_filter_bbox_elements(es.drop_last(), b);
        let f = spec_filter_bbox(es, b);
        let fd = spec_filter_bbox(es.drop_last(), b);
        assert forall|x: Edge| es.drop_last().contains(x) implies es.contains(x) by {
            let k = choose|k: int| 0 <= k < es.drop_last().len() && es.drop_last()[k] == x;
            assert(es[k] == x);
        }
        assert forall|k: int| 0 <= k < f.len() implies es.contains(#[trigger] f[k]) by {
            if k < fd.len() {
                assert(f[k] == fd[k]);
            } else {
                assert(f[k] == es.last());
                assert(es[es.len() - 1] == es.last());
            }
        }
    }
}

/// A box filter of an acceptable edge list is itself acceptable.
pub proof fn lemma_filter_bbox_in_range(es: Seq<Edge>, b: BBox)
    requires
        graph_in_range(es),
    ensures
        graph_in_range(spec_filter_bbox(es, b)),
{
    lemma_filter_bbox_elements(es, b);
    let f = spec_filter_bbox(es, b);
    assert forall|j: int| 0 <= j < f.len() implies 1 <= (#[trigger] f[j]).forward_cost
        <= MAX_EDGE_COST && 1 <= f[j].reverse_cost <= MAX_EDGE_COST && f[j].length
        <= MAX_EDGE_LENGTH by {
        assert(es.contains(f[j]));
        let k = choose|k: int| 0 <= k < es.len() && es[k] == f[j];
    }
}

/// Restricts an edge list to the edges inside the box.
pub fn filter_edges(edges: &Vec<Edge>, b: BBox) -> (r: Vec<Edge>)
    ensures
        r@ == spec_filter_bbox(edges@, b),
        r@.len() <= edges@.len(),
{
    let mut out: Vec<Edge> = Vec::new();
    let mut i: usize = 0;
    while i < edges.len()
        invariant
            0 <= i <= edges@.len(),
            out@ == spec_filter_bbox(edges@.take(i as int), b),
            out@.len() <= i,
        decreases edges@.len() - i,
    {
        proof {
            assert(edges@.take(i + 1).drop_last() =~= edges@.take(i as int));
            assert(edges@.take(i + 1).last() == edges@[i as int]);
        }
        let e = edges[i];
        if b.min_x <= e.sx && e.sx <= b.max_x && b.min_y <= e.sy && e.sy <= b.max_y {
            out.push(e);
            proof {
                assert(out@ =~= spec_filter_bbox(edges@.take(i + 1), b));
            }
        } else {
            proof {
                assert(out@ =~= spec_filter_bbox(edges@.take(i + 1), b));
            }
        }
        i = i + 1;
    }
    proof {
        assert(edges@.take(edges@.len() as int) =~= edges@);
    }
    out
}

// ---------------------------------------------------------------------------
// Walks: how a path and its total cost are stated.
// ---------------------------------------------------------------------------

/// Where a walk step starts: a step names an edge index and whether
/// the edge is traversed source to target.
pub open spec fn step_from(es: Seq<Edge>, s: (int, bool)) -> i64 {
    if s.1 {
        es[s.0].source
    } else {
        es[s.0].target
    }
}

/// Where a walk step ends.
pub open spec fn step_to(es: Seq<Edge>, s: (int, bool)) -> i64 {
    if s.1 {
        es[s.0].target
    } else {
        es[s.0].source
    }
}

/// What a walk step costs: the traversed direction's cost.
pub open spec fn step_cost(es: Seq<Edge>, s: (int, bool)) -> nat {
    if s.1 {
        es[s.0].forward_cost as nat
    } else {
        es[s.0].reverse_cost as nat
    }
}

/// The steps form a connected walk from `a` to `b` over the edge
/// list.
pub open spec fn walk_ok(es: Seq<Edge>, steps: Seq<(int, bool)>, a: i64, b: i64) -> bool
    decreases steps.len(),
{
    if steps.len() == 0 {
        a == b
    } else {
        &&& 0 <= steps[0].0 < es.len()
        &&& step_from(es, steps[0]) == a
        &&& walk_ok(es, steps.drop_first(), step_to(es, steps[0]), b)
    }
}

/// The total cost of a walk.
pub open spec fn walk_cost(es: Seq<Edge>, steps: Seq<(int, bool)>) -> nat
    decreases steps.len(),
{
    if steps.len() == 0 {
        0
    } else {
        step_cost(es, steps[0]) + walk_cost(es, steps.drop_first())
    }
}

// ---------------------------------------------------------------------------
// Counting settled nodes, for termination and overflow bounds.
// ---------------------------------------------------------------------------

spec fn count_true(s: Seq<bool>) -> nat
    decreases s.len(),
{
    if s.len() == 0 {
        0
    } else {
        count_true(s.drop_last()) + if s.last() {
            1nat
        } else {
            0
        }
    }
}

proof fn lemma_count_true_le_len(s: Seq<bool>)
    ensures
        count_true(s) <= s.len(),
    decreases s.len(),
{
    if s.len() > 0 {
        lemma_count_true_le_len(s.drop_last());
    }
}

proof fn lemma_count_true_update(s: Seq<bool>, i: int)
    requires
        0 <= i < s.len(),
        !s[i],
    ensures
        count_true(s.update(i, true)) == count_true(s) + 1,
    decreases s.len(),
{
    let t = s.update(i, true);
    if i == s.len() - 1 {
        assert(t.drop_last() =~= s.drop_last());
        assert(t.last());
        assert(!s.last());
    } else {
        assert(t.drop_last() =~= s.drop_last().update(i, true));
        assert(t.last() == s.last());
        lemma_count_true_update(s.drop_last(), i);
    }
}

// ---------------------------------------------------------------------------
// Collecting the nodes of an edge list.
// ---------------------------------------------------------------------------

/// The coordinate is the one some edge of the list records for the
/// node.
spec fn node_coord_ok(es: Seq<Edge>, n: i64, x: i64, y: i64) -> bool {
    exists|j: int|
        0 <= j < es.len() && (((#[trigger] es[j]).source == n && es[j].sx == x && es[j].sy == y)
            || (es[j].target == n && es[j].tx == x && es[j].ty == y))
}

/// Every edge before `upto` has both endpoints among the ids.
spec fn edges_covered(es: Seq<Edge>, upto: int, ids: Seq<i64>) -> bool {
    forall|e2: int|
        0 <= e2 < upto ==> ids.contains((#[trigger] es[e2]).source) && ids.contains(es[e2].target)
}

fn find_node(ids: &Vec<i64>, id: i64) -> (r: Option<usize>)
    ensures
        match r {
            Some(k) => 0 <= k < ids@.len() && ids@[k as int] == id,
            None => !ids@.contains(id),
        },
{
    let mut k: usize = 0;
    while k < ids.len()
        invariant
            0 <= k <= ids@.len(),
            forall|j: int| 0 <= j < k ==> ids@[j] != id,
        decreases ids@.len() - k,
    {
        if ids[k] == id {
            return Some(k);
        }
        k = k + 1;
    }
    None
}

/// Collects each node of the edge list once, with a coordinate some
/// incident edge records for it.
fn collect_nodes(edges: &Vec<Edge>) -> (r: (Vec<i64>, Vec<i64>, Vec<i64>))
    ensures
        r.0@.len() == r.1@.len() == r.2@.len(),
        r.0@.len() <= 2 * edges@.len(),
        forall|k: int, m: int| 0 <= k < m < r.0@.len() ==> r.0@[k] != r.0@[m],
        forall|nd: i64| #[trigger] node_in_graph(edges@, nd) ==> r.0@.contains(nd),
        forall|nd: i64| #[trigger] r.0@.contains(nd) ==> node_in_graph(edges@, nd),
        forall|k: int|
            0 <= k < r.0@.len() ==> node_coord_ok(edges@, #[trigger] r.0@[k], r.1@[k], r.2@[k]),
{
    let mut ids: Vec<i64> = Vec::new();
    let mut xs: Vec<i64> = Vec::new();
    let mut ys: Vec<i64> = Vec::new();
    let mut j: usize = 0;
    while j < edges.len()
        invariant
            0 <= j <= edges@.len(),
            ids@.len() == xs@.len() == ys@.len(),
            ids@.len() <= 2 * j,
            forall|k: int, m: int| 0 <= k < m < ids@.len() ==> ids@[k] != ids@[m],
            forall|n: i64| #[trigger] ids@.contains(n) ==> node_in_graph(edges@, n),
            edges_covered(edges@, j as int, ids@),
            forall|k: int|
                0 <= k < ids@.len() ==> node_coord_ok(edges@, #[trigger] ids@[k], xs@[k], ys@[k]),
        decreases edges@.len() - j,
    {
        let e = edges[j];
        let ghost old_ids = ids@;
        let s_found = find_node(&ids, e.source);
        if s_found.is_none() {
            ids.push(e.source);
            xs.push(e.sx);
            ys.push(e.sy);
            proof {
                assert(edges@[j as int].source == e.source && edges@[j as int].sx == e.sx
                    && edges@[j as int].sy == e.sy);
                assert(node_coord_ok(edges@, e.source, e.sx, e.sy));
                assert(node_in_graph(edges@, e.source));
                assert(ids@[ids@.len() - 1] == e.source);
                assert(forall|k: int| 0 <= k < old_ids.len() ==> ids@[k] == old_ids[k]);
                assert(forall|n: i64| old_ids.contains(n) ==> ids@.contains(n));
                assert(forall|n: i64| #[trigger] ids@.contains(n) ==> old_ids.contains(n) || n
                    == e.source);
            }
        }
        proof {
            assert(ids@.contains(e.source));
        }
        let ghost mid_ids = ids@;
        let t_found = find_node(&ids, e.target);
        if t_found.is_none() {
            ids.push(e.target);
            xs.push(e.tx);
            ys.push(e.ty);
            proof {
                assert(edges@[j as int].target == e.target && edges@[j as int].tx == e.tx
                    && edges@[j as int].ty == e.ty);
                assert(node_coord_ok(edges@, e.target, e.tx, e.ty));
                assert(node_in_graph(edges@, e.target));
                assert(ids@[ids@.len() - 1] == e.target);
                assert(forall|k: int| 0 <= k < mid_ids.len() ==> ids@[k] == mid_ids[k]);
                assert(forall|n: i64| mid_ids.contains(n) ==> ids@.contains(n));
                assert(forall|n: i64| #[trigger] ids@.contains(n) ==> mid_ids.contains(n) || n
                    == e.target);
            }
        }
        proof {
            assert(forall|k: int| 0 <= k < mid_ids.len() ==> ids@[k] == mid_ids[k]);
            assert(forall|n: i64| mid_ids.contains(n) ==> ids@.contains(n));
            assert(forall|n: i64| old_ids.contains(n) ==> mid_ids.contains(n)) by {
                assert(forall|k: int| 0 <= k < old_ids.len() ==> mid_ids[k] == old_ids[k]);
            }
            assert(forall|n: i64| old_ids.contains(n) ==> ids@.contains(n));
            assert(ids@.contains(edges@[j as int].source)) by {
                assert(mid_ids.contains(e.source));
            }
            assert(ids@.contains(edges@[j as int].target));
            assert forall|e2: int|
                0 <= e2 < j + 1 implies ids@.contains((#[trigger] edges@[e2]).source)
                && ids@.contains(edges@[e2].target) by {
                if e2 < j {
                    assert(edges_covered(edges@, j as int, old_ids));
                    assert(old_ids.contains(edges@[e2].source));
                    assert(old_ids.contains(edges@[e2].target));
                }
            }
            assert(edges_covered(edges@, j + 1, ids@));
        }
        j = j + 1;
    }
    proof {
        assert forall|n: i64| node_in_graph(edges@, n) implies ids@.contains(n) by {
            let j2 = choose|j2: int|
                0 <= j2 < edges@.len() && ((#[trigger] edges@[j2]).source == n
                    || edges@[j2].target == n);
        }
    }
    (ids, xs, ys)
}

// ---------------------------------------------------------------------------
// The search itself.
// ---------------------------------------------------------------------------

/// The node id has a reached index.
spec fn reached_id(ids: Seq<i64>, reached: Seq<bool>, x: i64) -> bool {
    exists|m: int| 0 <= m < ids.len() && ids[m] == x && reached[m]
}

/// Every reached node but the start records a settled predecessor,
/// joined to it by the recorded edge in the recorded direction, with
/// the exact cost relation, strictly closer to the start.
spec fn prev_ok(
    es: Seq<Edge>,
    ids: Seq<i64>,
    dist: Seq<u64>,
    reached: Seq<bool>,
    settled: Seq<bool>,
    pn: Seq<usize>,
    pe: Seq<usize>,
    pd: Seq<bool>,
    start_idx: int,
) -> bool {
    forall|k: int|
        0 <= k < ids.len() && #[trigger] reached[k] && k != start_idx ==> 0 <= pn[k] < ids.len()
            && 0 <= pe[k] < es.len() && reached[pn[k] as int] && settled[pn[k] as int]
            && dist[pn[k] as int] < dist[k] && (pd[k] ==> es[pe[k] as int].source == ids[pn[
        k] as int] && es[pe[k] as int].target == ids[k] && dist[k] == dist[pn[k] as int] + es[pe[
        k] as int].forward_cost) && (!pd[k] ==> es[pe[k] as int].target == ids[pn[k] as int]
            && es[pe[k] as int].source == ids[k] && dist[k] == dist[pn[k] as int] + es[pe[
        k] as int].reverse_cost)
}

/// The predecessor links alone: every reached node but the start
/// records a reached predecessor, joined to it by the recorded edge,
/// strictly closer to the start.
spec fn prev_links(
    es: Seq<Edge>,
    ids: Seq<i64>,
    dist: Seq<u64>,
    reached: Seq<bool>,
    pn: Seq<usize>,
    pe: Seq<usize>,
    start_idx: int,
) -> bool {
    forall|k: int|
        0 <= k < ids.len() && #[trigger] reached[k] && k != start_idx ==> 0 <= pn[k] < ids.len()
            && 0 <= pe[k] < es.len() && reached[pn[k] as int] && edge_connects(
            es[pe[k] as int],
            ids[pn[k] as int],
            ids[k],
        ) && dist[pn[k] as int] < dist[k]
}

/// Every settled node sits no farther from the start than any
/// unsettled reached node: the settled set grows in distance order.
spec fn settled_frontier(dist: Seq<u64>, reached: Seq<bool>, settled: Seq<bool>) -> bool {
    forall|a: int, b: int|
        #![trigger settled[a], reached[b]]
        0 <= a < dist.len() && 0 <= b < dist.len() && settled[a] && reached[b] && !settled[b]
            ==> dist[a] <= dist[b]
}

/// The two arrays record, for each edge, the node-table indices of
/// its endpoints.
spec fn eidx_ok(es: Seq<Edge>, ids: Seq<i64>, si: Seq<usize>, ti: Seq<usize>) -> bool {
    &&& si.len() == es.len() && ti.len() == es.len()
    &&& forall|j: int|
        0 <= j < es.len() ==> (#[trigger] si[j]) < ids.len() && ti[j] < ids.len() && ids[
        si[j] as int] == es[j].source && ids[ti[j] as int] == es[j].target
}

/// Every edge out of a settled node has been relaxed: its far end is
/// reached, no farther than one step beyond the settled end.
spec fn settled_closed(
    es: Seq<Edge>,
    dist: Seq<u64>,
    reached: Seq<bool>,
    settled: Seq<bool>,
    si: Seq<usize>,
    ti: Seq<usize>,
) -> bool {
    forall|j: int|
        0 <= j < es.len() ==> ((settled[(#[trigger] si[j]) as int] ==> reached[ti[j] as int]
            && dist[ti[j] as int] <= dist[si[j] as int] + es[j].forward_cost) && (settled[
        ti[j] as int] ==> reached[si[j] as int] && dist[si[j] as int] <= dist[ti[j] as int]
            + es[j].reverse_cost))
}

/// Looks up the node-table index of each edge endpoint once, before
/// the search runs.
fn edge_endpoint_indices(edges: &Vec<Edge>, ids: &Vec<i64>) -> (r: (Vec<usize>, Vec<usize>))
    requires
        forall|nd: i64| #[trigger] node_in_graph(edges@, nd) ==> ids@.contains(nd),
    ensures
        eidx_ok(edges@, ids@, r.0@, r.1@),
{
    let mut si: Vec<usize> = Vec::new();
    let mut ti: Vec<usize> = Vec::new();
    let mut j: usize = 0;
    while j < edges.len()
        invariant
            0 <= j <= edges@.len(),
            forall|nd: i64| #[trigger] node_in_graph(edges@, nd) ==> ids@.contains(nd),
            si@.len() == j && ti@.len() == j,
            forall|j2: int|
                0 <= j2 < j ==> (#[trigger] si@[j2]) < ids@.len() && ti@[j2] < ids@.len()
                    && ids@[si@[j2] as int] == edges@[j2].source && ids@[ti@[j2] as int]
                    == edges@[j2].target,
        decreases edges@.len() - j,
    {
        let e = edges[j];
        proof {
            assert(node_in_graph(edges@, e.source));
            assert(node_in_graph(edges@, e.target));
            assert(ids@.contains(e.source));
            assert(ids@.contains(e.target));
        }
        let is = match find_node(ids, e.source) {
            Some(k) => k,
            None => {
                proof {
                    assert(false);
                }
                0
            },
        };
        let it = match find_node(ids, e.target) {
            Some(k) => k,
            None => {
                proof {
                    assert(false);
                }
                0
            },
        };
        si.push(is);
        ti.push(it);
        j = j + 1;
    }
    (si, ti)
}

/// Every reached node's distance is within the bound.
spec fn dist_bounded(dist: Seq<u64>, reached: Seq<bool>, bound: nat) -> bool {
    forall|k: int| 0 <= k < dist.len() && #[trigger] reached[k] ==> dist[k] <= bound
}

/// Picks the unsettled reached node closest to the start, if any.
fn pick_min(dist: &Vec<u64>, reached: &Vec<bool>, settled: &Vec<bool>) -> (r: Option<usize>)
    requires
        dist@.len() == reached@.len() == settled@.len(),
    ensures
        match r {
            Some(u) => 0 <= u < dist@.len() && reached@[u as int] && !settled@[u as int] && forall|
                k: int,
            |
                0 <= k < dist@.len() && #[trigger] reached@[k] && !settled@[k] ==> dist@[u as int]
                    <= dist@[k],
            None => forall|k: int| 0 <= k < dist@.len() && #[trigger] reached@[k] ==> settled@[k],
        },
{
    let mut best: Option<usize> = None;
    let mut k: usize = 0;
    while k < dist.len()
        invariant
            0 <= k <= dist@.len(),
            dist@.len() == reached@.len() == settled@.len(),
            match best {
                Some(u) => 0 <= u < dist@.len() && reached@[u as int] && !settled@[u as int]
                    && forall|m: int|
                    0 <= m < k && #[trigger] reached@[m] && !settled@[m] ==> dist@[u as int]
                        <= dist@[m],
                None => forall|m: int| 0 <= m < k && #[trigger] reached@[m] ==> settled@[m],
            },
        decreases dist@.len() - k,
    {
        if reached[k] && !settled[k] {
            let better = match best {
                Some(u) => dist[k] < dist[u],
                None => true,
            };
            if better {
                best = Some(k);
            }
        }
        k = k + 1;
    }
    best
}

/// A path over the edge list, starting at a reached node, never
/// leaves the reached set once every reached node is settled.
proof fn lemma_closed_set_covers_path(
    es: Seq<Edge>,
    ids: Seq<i64>,
    dist: Seq<u64>,
    reached: Seq<bool>,
    settled: Seq<bool>,
    si: Seq<usize>,
    ti: Seq<usize>,
    ns: Seq<i64>,
    i: int,
)
    requires
        ids.len() == reached.len() == settled.len() == dist.len(),
        forall|k2: int, m2: int| 0 <= k2 < m2 < ids.len() ==> ids[k2] != ids[m2],
        eidx_ok(es, ids, si, ti),
        forall|k: int| 0 <= k < ids.len() && #[trigger] reached[k] ==> settled[k],
        settled_closed(es, dist, reached, settled, si, ti),
        is_node_chain(es, ns),
        forall|t: int| 0 <= t < ns.len() ==> node_in_graph(es, #[trigger] ns[t]),
        ns.len() >= 1,
        reached_id(ids, reached, ns[0]),
        0 <= i < ns.len(),
    ensures
        reached_id(ids, reached, ns[i]),
    decreases i,
{
    if i > 0 {
        lemma_closed_set_covers_path(es, ids, dist, reached, settled, si, ti, ns, i - 1);
        let m = choose|m: int| 0 <= m < ids.len() && ids[m] == ns[i - 1] && reached[m];
        assert(settled[m]);
        assert(chain_step(es, ns, i - 1));
        let j = choose|j: int| 0 <= j < es.len() && edge_connects(#[trigger] es[j], ns[i - 1], ns[i]);
        if es[j].source == ids[m] && es[j].target == ns[i] {
            assert(si[j] as int == m) by {
                if (si[j] as int) < m {
                    assert(ids[si[j] as int] != ids[m]);
                } else if (si[j] as int) > m {
                    assert(ids[m] != ids[si[j] as int]);
                }
            }
            assert(reached[ti[j] as int] && ids[ti[j] as int] == ns[i]);
        } else {
            assert(es[j].target == ids[m] && es[j].source == ns[i]);
            assert(ti[j] as int == m) by {
                if (ti[j] as int) < m {
                    assert(ids[ti[j] as int] != ids[m]);
                } else if (ti[j] as int) > m {
                    assert(ids[m] != ids[ti[j] as int]);
                }
            }
            assert(reached[si[j] as int] && ids[si[j] as int] == ns[i]);
        }
    }
}

/// Finds a minimum-total-cost path between two graph nodes over the
/// given edge list, best-first from the start outward.
///
/// The result is the traversed node sequence: it begins at the start
/// node and ends at the end node, consecutive points are joined by
/// edges of the list whose way and length the earlier point carries,
/// and every coordinate is one the edge list records.  The result is
/// empty exactly when the edge list admits no path between the two
/// nodes; a start equal to the end yields the single-point path when
/// the node is on the graph at all.  The found path follows a walk
/// whose total directed cost no other walk between the two nodes can
/// undercut.
#[verifier::rlimit(100)]
pub fn search(edges: &Vec<Edge>, start_node: i64, end_node: i64) -> (r: Vec<PathPoint>)
    requires
        graph_in_range(edges@),
    ensures
        r@.len() > 0 <==> spec_reachable(edges@, start_node, end_node),
        r@.len() <= 2 * edges@.len(),
        r@.len() > 0 ==> r@[0].node_id == start_node && r@[r@.len() - 1].node_id == end_node
            && r@[r@.len() - 1].length == 0,
        forall|i: int| 0 <= i < r@.len() ==> point_on_graph(edges@, #[trigger] r@[i]),
        forall|i: int| 0 <= i < r@.len() - 1 ==> step_on_graph(edges@, #[trigger] r@[i], r@[i + 1]),
        r@.len() > 0 ==> exists|steps: Seq<(int, bool)>|
            walk_ok(edges@, steps, start_node, end_node) && steps.len() == r@.len() - 1 && (forall|
                i: int,
            |
                0 <= i < steps.len() ==> step_from(edges@, #[trigger] steps[i]) == r@[i].node_id)
                && (forall|other: Seq<(int, bool)>|
                walk_ok(edges@, other, start_node, end_node) ==> walk_cost(edges@, other)
                    >= walk_cost(edges@, steps)),
{
    let (ids, xs, ys) = collect_nodes(edges);
    let n = ids.len();
    let start_idx = match find_node(&ids, start_node) {
        Some(s) => s,
        None => {
            proof {
                if spec_reachable(edges@, start_node, end_node) {
                    let ns = choose|ns: Seq<i64>|
                        is_path_between(edges@, ns, start_node, end_node);
                    assert(node_in_graph(edges@, ns[0]));
                }
            }
            return Vec::new();
        },
    };
    let end_idx = match find_node(&ids, end_node) {
        Some(t) => t,
        None => {
            proof {
                if spec_reachable(edges@, start_node, end_node) {
                    let ns = choose|ns: Seq<i64>|
                        is_path_between(edges@, ns, start_node, end_node);
                    assert(node_in_graph(edges@, ns[ns.len() - 1]));
                }
            }
            return Vec::new();
        },
    };
    let (si, ti) = edge_endpoint_indices(edges, &ids);
    let mut dist: Vec<u64> = Vec::new();
    let mut reached: Vec<bool> = Vec::new();
    let mut settled: Vec<bool> = Vec::new();
    let mut pn: Vec<usize> = Vec::new();
    let mut pe: Vec<usize> = Vec::new();
    let mut pd: Vec<bool> = Vec::new();
    let mut k: usize = 0;
    while k < n
        invariant
            0 <= k <= n,
            n == ids@.len(),
            dist@.len() == k && reached@.len() == k && settled@.len() == k && pn@.len() == k
                && pe@.len() == k && pd@.len() == k,
            forall|m: int| 0 <= m < k ==> !(#[trigger] reached@[m]),
            forall|m: int| 0 <= m < k ==> !(#[trigger] settled@[m]),
            forall|m: int| 0 <= m < k ==> (#[trigger] dist@[m]) == 0,
        decreases n - k,
    {
        dist.push(0);
        reached.push(false);
        settled.push(false);
        pn.push(0);
        pe.push(0);
        pd.push(false);
        k = k + 1;
    }
    reached[start_idx] = true;
    let mut scount: u64 = 0;
    let mut done = false;
    proof {
        assert(count_true(settled@) == 0) by {
            lemma_count_all_false(settled@);
        }
    }
    while !done
        invariant
            n == ids@.len(),
            dist@.len() == n && reached@.len() == n && settled@.len() == n && pn@.len() == n
                && pe@.len() == n && pd@.len() == n,
            n <= 2 * edges@.len(),
            graph_in_range(edges@),
            eidx_ok(edges@, ids@, si@, ti@),
            0 <= start_idx < n && ids@[start_idx as int] == start_node,
            0 <= end_idx < n && ids@[end_idx as int] == end_node,
            reached@[start_idx as int],
            dist@[start_idx as int] == 0,
            forall|m: int| 0 <= m < n && #[trigger] settled@[m] ==> reached@[m],
            scount == count_true(settled@),
            scount <= n,
            dist_bounded(dist@, reached@, scount as nat * (MAX_EDGE_COST as nat)),
            prev_ok(edges@, ids@, dist@, reached@, settled@, pn@, pe@, pd@, start_idx as int),
            settled_frontier(dist@, reached@, settled@),
            settled_closed(edges@, dist@, reached@, settled@, si@, ti@),
            done ==> forall|m: int| 0 <= m < n && #[trigger] reached@[m] ==> settled@[m],
        decreases n - scount + (if done {
            0int
        } else {
            1int
        }),
    {
        let u = match pick_min(&dist, &reached, &settled) {
            Some(u) => u,
            None => {
                done = true;
                continue ;
            },
        };
        let ghost old_settled = settled@;
        proof {
            lemma_count_true_update(settled@, u as int);
            lemma_count_true_le_len(settled@.update(u as int, true));
            assert(scount < n);
        }
        let du = dist[u];
        settled[u] = true;
        scount = scount + 1;
        proof {
            assert(settled@ == old_settled.update(u as int, true));
            assert(((scount - 1) as int) * (MAX_EDGE_COST as int) + MAX_EDGE_COST == (
            scount as int) * (MAX_EDGE_COST as int)) by (nonlinear_arith)
                requires
                    scount >= 1,
            ;
            assert forall|a: int| 0 <= a < n && #[trigger] settled@[a] implies dist@[a] <= du by {
                if a != u as int {
                    assert(old_settled[a]);
                    assert(settled_frontier(dist@, reached@, old_settled));
                }
            }
            assert forall|b: int|
                0 <= b < n && #[trigger] reached@[b] && !settled@[b] implies dist@[b] >= du by {
                assert(b != u as int);
            }
            assert forall|a: int, b: int|
                #![trigger settled@[a], reached@[b]]
                0 <= a < n && 0 <= b < n && settled@[a] && reached@[b] && !settled@[b] implies
                dist@[a] <= dist@[b] by {}
        }
        let mut j: usize = 0;
        while j < edges.len()
            invariant
                n == ids@.len(),
                dist@.len() == n && reached@.len() == n && settled@.len() == n && pn@.len() == n
                    && pe@.len() == n && pd@.len() == n,
                n <= 2 * edges@.len(),
                graph_in_range(edges@),
                eidx_ok(edges@, ids@, si@, ti@),
                0 <= start_idx < n,
                0 <= u < n,
                reached@[start_idx as int],
                dist@[start_idx as int] == 0,
                reached@[u as int],
                settled@[u as int],
                du == dist@[u as int],
                du as int + MAX_EDGE_COST <= (scount as int) * (MAX_EDGE_COST as int),
                settled@ == old_settled.update(u as int, true),
                !old_settled[u as int],
                scount == count_true(settled@),
                scount <= n,
                forall|m: int| 0 <= m < n && #[trigger] settled@[m] ==> reached@[m],
                forall|a: int| 0 <= a < n && #[trigger] settled@[a] ==> dist@[a] <= du,
                forall|b: int|
                    0 <= b < n && #[trigger] reached@[b] && !settled@[b] ==> dist@[b] >= du,
                dist_bounded(dist@, reached@, scount as nat * (MAX_EDGE_COST as nat)),
                prev_ok(edges@, ids@, dist@, reached@, settled@, pn@, pe@, pd@, start_idx as int),
                settled_frontier(dist@, reached@, settled@),
                forall|j2: int|
                    0 <= j2 < edges@.len() ==> ((settled@[(#[trigger] si@[j2]) as int] && si@[j2]
                        != u ==> reached@[ti@[j2] as int] && dist@[ti@[j2] as int] <= dist@[
                    si@[j2] as int] + edges@[j2].forward_cost) && (settled@[ti@[j2] as int]
                        && ti@[j2] != u ==> reached@[si@[j2] as int] && dist@[si@[j2] as int]
                        <= dist@[ti@[j2] as int] + edges@[j2].reverse_cost)),
                forall|j2: int|
                    0 <= j2 < j ==> (((#[trigger] si@[j2]) == u ==> reached@[ti@[j2] as int]
                        && dist@[ti@[j2] as int] <= du + edges@[j2].forward_cost) && (ti@[j2] == u
                        ==> reached@[si@[j2] as int] && dist@[si@[j2] as int] <= du
                        + edges@[j2].reverse_cost)),
            decreases edges@.len() - j,
        {
            let src_i = si[j];
            let tgt_i = ti[j];
            if src_i == u {
                let v = tgt_i;
                let nd = du + edges[j].forward_cost;
                if !reached[v] || nd < dist[v] {
                    proof {
                        if settled@[v as int] {
                            assert(reached@[v as int]);
                            assert(dist@[v as int] <= du);
                        }
                        assert(!settled@[v as int]);
                    }
                    dist[v] = nd;
                    reached[v] = true;
                    pn[v] = u;
                    pe[v] = j;
                    pd[v] = true;
                    proof {
                        assert((((scount - 1) as int) * (MAX_EDGE_COST as int)) + MAX_EDGE_COST
                            == (scount as int) * (MAX_EDGE_COST as int)) by (nonlinear_arith);
                    }
                }
                proof {
                    assert(reached@[ti@[j as int] as int] && dist@[ti@[j as int] as int] <= du
                        + edges@[j as int].forward_cost);
                }
            }
            if tgt_i == u {
                let v = si[j];
                let nd = du + edges[j].reverse_cost;
                if !reached[v] || nd < dist[v] {
                    proof {
                        if settled@[v as int] {
                            assert(reached@[v as int]);
                            assert(dist@[v as int] <= du);
                        }
                        assert(!settled@[v as int]);
                    }
                    dist[v] = nd;
                    reached[v] = true;
                    pn[v] = u;
                    pe[v] = j;
                    pd[v] = false;
                    proof {
                        assert((((scount - 1) as int) * (MAX_EDGE_COST as int)) + MAX_EDGE_COST
                            == (scount as int) * (MAX_EDGE_COST as int)) by (nonlinear_arith);
                    }
                }
                proof {
                    assert(reached@[si@[j as int] as int] && dist@[si@[j as int] as int] <= du
                        + edges@[j as int].reverse_cost);
                }
            }
            j = j + 1;
        }
        proof {
            assert forall|j2: int|
                0 <= j2 < edges@.len() implies ((settled@[(#[trigger] si@[j2]) as int]
                ==> reached@[ti@[j2] as int] && dist@[ti@[j2] as int] <= dist@[si@[j2] as int]
                + edges@[j2].forward_cost) && (settled@[ti@[j2] as int] ==> reached@[
            si@[j2] as int] && dist@[si@[j2] as int] <= dist@[ti@[j2] as int]
                + edges@[j2].reverse_cost)) by {
                if si@[j2] == u {
                    assert(dist@[si@[j2] as int] == du);
                }
                if ti@[j2] == u {
                    assert(dist@[ti@[j2] as int] == du);
                }
            }
        }
    }
    // Every reached node is now settled: the reached set is closed.
    if !reached[end_idx] {
        proof {
            if spec_reachable(edges@, start_node, end_node) {
                let ns = choose|ns: Seq<i64>| is_path_between(edges@, ns, start_node, end_node);
                assert(reached_id(ids@, reached@, ns[0])) by {
                    assert(ids@[start_idx as int] == start_node && reached@[start_idx as int]);
                }
                lemma_closed_set_covers_path(
                    edges@,
                    ids@,
                    dist@,
                    reached@,
                    settled@,
                    si@,
                    ti@,
                    ns,
                    ns.len() - 1,
                );
                let m = choose|m: int|
                    0 <= m < ids@.len() && ids@[m] == end_node && reached@[m];
                assert(m == end_idx as int);
            }
        }
        return Vec::new();
    }
    proof {
        assert(prev_links(edges@, ids@, dist@, reached@, pn@, pe@, start_idx as int));
    }
    // Walk the predecessor chain back from the end node.
    let mut rev: Vec<usize> = Vec::new();
    rev.push(end_idx);
    let mut cur = end_idx;
    while cur != start_idx
        invariant
            n == ids@.len(),
            dist@.len() == n && reached@.len() == n && pn@.len() == n && pe@.len() == n,
            0 <= start_idx < n,
            0 <= cur < n,
            reached@[cur as int],
            prev_links(edges@, ids@, dist@, reached@, pn@, pe@, start_idx as int),
            rev@.len() >= 1,
            rev@[0] == end_idx,
            rev@[rev@.len() - 1] == cur,
            forall|t: int| 0 <= t < rev@.len() - 1 ==> (#[trigger] rev@[t]) as int != start_idx,
            forall|t: int| 0 <= t < rev@.len() ==> 0 <= #[trigger] rev@[t] < n && reached@[rev@[t] as int],
            forall|t: int|
                0 <= t < rev@.len() - 1 ==> pn@[rev@[t] as int] == rev@[t + 1] && 0 <= #[trigger] pe@[rev@[t] as int] < edges@.len() && edge_connects(
                    edges@[pe@[rev@[t] as int] as int],
                    ids@[rev@[t + 1] as int],
                    ids@[rev@[t] as int],
                ),
            forall|t1: int, t2: int|
                #![trigger rev@[t1], rev@[t2]]
                0 <= t1 < t2 < rev@.len() ==> dist@[rev@[t1] as int] > dist@[rev@[t2] as int],
        decreases dist@[cur as int],
    {
        let p = pn[cur];
        let ghost old_rev = rev@;
        rev.push(p);
        cur = p;
        proof {
            assert(dist@[p as int] < dist@[old_rev[old_rev.len() - 1] as int]);
            assert forall|t1: int, t2: int|
                #![trigger rev@[t1], rev@[t2]]
                0 <= t1 < t2 < rev@.len() implies dist@[rev@[t1] as int] > dist@[
            rev@[t2] as int] by {
                if t2 == rev@.len() - 1 {
                    assert(rev@[t2] == p);
                    if t1 < old_rev.len() - 1 {
                        assert(dist@[old_rev[t1] as int] > dist@[old_rev[old_rev.len()
                            - 1] as int]);
                    }
                }
            }
        }
    }
    proof {
        assert forall|t1: int, t2: int|
            0 <= t1 < t2 < rev@.len() implies rev@[t1] != rev@[t2] by {
            assert(dist@[rev@[t1] as int] > dist@[rev@[t2] as int]);
        }
        lemma_distinct_bounded(rev@, n as nat);
    }
    // Emit the points in forward order.
    let m = rev.len();
    let mut out: Vec<PathPoint> = Vec::new();
    let mut i: usize = 0;
    while i < m
        invariant
            n == ids@.len(),
            xs@.len() == n && ys@.len() == n,
            pe@.len() == n,
            m == rev@.len(),
            1 <= m,
            forall|t: int| 0 <= t < rev@.len() ==> 0 <= #[trigger] rev@[t] < n,
            forall|t: int|
                0 <= t < rev@.len() - 1 ==> 0 <= #[trigger] pe@[rev@[t] as int] < edges@.len()
                    && edge_connects(
                    edges@[pe@[rev@[t] as int] as int],
                    ids@[rev@[t + 1] as int],
                    ids@[rev@[t] as int],
                ),
            forall|t: int|
                0 <= t < n ==> node_coord_ok(edges@, #[trigger] ids@[t], xs@[t], ys@[t]),
            0 <= i <= m,
            out@.len() == i,
            forall|t: int|
                0 <= t < i ==> (#[trigger] out@[t]).node_id == ids@[rev@[m - 1 - t] as int]
                    && out@[t].x == xs@[rev@[m - 1 - t] as int] && out@[t].y == ys@[rev@[m - 1
                    - t] as int],
            forall|t: int|
                0 <= t < i && t < m - 1 ==> (#[trigger] out@[t]).way_id == edges@[pe@[rev@[m - 2
                    - t] as int] as int].way_id && out@[t].length == edges@[pe@[rev@[m - 2
                    - t] as int] as int].length,
            i == m ==> m >= 1 && out@[m - 1].length == 0,
        decreases m - i,
    {
        let node_idx = rev[m - 1 - i];
        let (way_id, length): (i64, u64) = if i < m - 1 {
            let arriving = pe[rev[m - 2 - i]];
            (edges[arriving].way_id, edges[arriving].length)
        } else {
            (0, 0)
        };
        out.push(
            PathPoint {
                x: xs[node_idx],
                y: ys[node_idx],
                way_id,
                node_id: ids[node_idx],
                length,
            },
        );
        i = i + 1;
    }
    proof {
        assert(out@.len() == rev@.len() <= n <= 2 * edges@.len());
        lemma_rev_chain_walk(
            edges@,
            ids@,
            dist@,
            reached@,
            settled@,
            pn@,
            pe@,
            pd@,
            rev@,
            start_idx as int,
            rev@.len() - 1,
        );
        lemma_rev_steps_shape(rev@, pe@, pd@, rev@.len() - 1);
        lemma_chain_steps_match(
            edges@,
            ids@,
            dist@,
            reached@,
            settled@,
            pn@,
            pe@,
            pd@,
            rev@,
            out@,
            start_idx as int,
        );
        lemma_no_cheaper_walk(
            edges@,
            ids@,
            dist@,
            reached@,
            settled@,
            si@,
            ti@,
            start_idx as int,
            end_idx as int,
            start_node,
            end_node,
        );
        lemma_assemble_optimal(
            edges@,
            out@,
            rev_steps(rev@, pe@, pd@, rev@.len() - 1),
            start_node,
            end_node,
            dist@[end_idx as int] as nat,
        );
        lemma_points_form_path(
            edges@,
            ids@,
            xs@,
            ys@,
            pe@,
            rev@,
            out@,
            start_idx as int,
            end_idx as int,
            start_node,
            end_node,
        );
    }
    out
}

/// Once every reached node is settled and the settled set is closed
/// under one relaxed step, no walk can beat the recorded distances:
/// a walk of cost `c` from a reached node ends within `c` of it.
proof fn lemma_walk_lower_bound(
    es: Seq<Edge>,
    ids: Seq<i64>,
    dist: Seq<u64>,
    reached: Seq<bool>,
    settled: Seq<bool>,
    si: Seq<usize>,
    ti: Seq<usize>,
    steps: Seq<(int, bool)>,
    a: i64,
    b: i64,
    ia: int,
)
    requires
        dist.len() == ids.len() && reached.len() == ids.len() && settled.len() == ids.len(),
        forall|k2: int, m2: int| 0 <= k2 < m2 < ids.len() ==> ids[k2] != ids[m2],
        eidx_ok(es, ids, si, ti),
        forall|k: int| 0 <= k < ids.len() && #[trigger] reached[k] ==> settled[k],
        settled_closed(es, dist, reached, settled, si, ti),
        walk_ok(es, steps, a, b),
        0 <= ia < ids.len(),
        ids[ia] == a,
        reached[ia],
    ensures
        exists|mb: int|
            0 <= mb < ids.len() && ids[mb] == b && reached[mb] && dist[mb] <= dist[ia] + walk_cost(
                es,
                steps,
            ),
    decreases steps.len(),
{
    if steps.len() == 0 {
        assert(b == a);
        assert(0 <= ia < ids.len() && ids[ia] == b && reached[ia] && dist[ia] <= dist[ia]
            + walk_cost(es, steps));
    } else {
        let s0 = steps[0];
        let j = s0.0;
        let mid = step_to(es, s0);
        assert(settled[ia]);
        let im: int = if s0.1 {
            assert(es[j].source == a);
            assert(si[j] as int == ia) by {
                if (si[j] as int) < ia {
                    assert(ids[si[j] as int] != ids[ia]);
                } else if (si[j] as int) > ia {
                    assert(ids[ia] != ids[si[j] as int]);
                }
            }
            assert(reached[ti[j] as int] && dist[ti[j] as int] <= dist[ia] + es[j].forward_cost);
            ti[j] as int
        } else {
            assert(es[j].target == a);
            assert((#[trigger] si[j]) < ids.len() && ti[j] < ids.len() && ids[ti[j] as int]
                == es[j].target);
            assert(ti[j] as int == ia) by {
                if (ti[j] as int) < ia {
                    assert(ids[ti[j] as int] != ids[ia]);
                } else if (ti[j] as int) > ia {
                    assert(ids[ia] != ids[ti[j] as int]);
                }
            }
            assert(reached[si[j] as int] && dist[si[j] as int] <= dist[ia] + es[j].reverse_cost);
            si[j] as int
        };
        assert(ids[im] == mid && reached[im] && dist[im] <= dist[ia] + step_cost(es, s0));
        lemma_walk_lower_bound(
            es,
            ids,
            dist,
            reached,
            settled,
            si,
            ti,
            steps.drop_first(),
            mid,
            b,
            im,
        );
        let mb = choose|mb: int|
            0 <= mb < ids.len() && ids[mb] == b && reached[mb] && dist[mb] <= dist[im] + walk_cost(
                es,
                steps.drop_first(),
            );
        assert(dist[mb] <= dist[ia] + walk_cost(es, steps));
    }
}

/// No walk between the two nodes costs less than the recorded
/// distance of the end node.
proof fn lemma_no_cheaper_walk(
    es: Seq<Edge>,
    ids: Seq<i64>,
    dist: Seq<u64>,
    reached: Seq<bool>,
    settled: Seq<bool>,
    si: Seq<usize>,
    ti: Seq<usize>,
    start_idx: int,
    end_idx: int,
    start_node: i64,
    end_node: i64,
)
    requires
        dist.len() == ids.len() && reached.len() == ids.len() && settled.len() == ids.len(),
        forall|k2: int, m2: int| 0 <= k2 < m2 < ids.len() ==> ids[k2] != ids[m2],
        eidx_ok(es, ids, si, ti),
        forall|k: int| 0 <= k < ids.len() && #[trigger] reached[k] ==> settled[k],
        settled_closed(es, dist, reached, settled, si, ti),
        0 <= start_idx < ids.len() && ids[start_idx] == start_node,
        0 <= end_idx < ids.len() && ids[end_idx] == end_node,
        reached[start_idx],
        dist[start_idx] == 0,
    ensures
        forall|other: Seq<(int, bool)>|
            walk_ok(es, other, start_node, end_node) ==> walk_cost(es, other) >= dist[end_idx],
{
    assert forall|other: Seq<(int, bool)>|
        walk_ok(es, other, start_node, end_node) implies walk_cost(es, other) >= dist[
    end_idx] by {
        lemma_walk_lower_bound(
            es,
            ids,
            dist,
            reached,
            settled,
            si,
            ti,
            other,
            start_node,
            end_node,
            start_idx,
        );
        let mb = choose|mb: int|
            0 <= mb < ids.len() && ids[mb] == end_node && reached[mb] && dist[mb] <= dist[
            start_idx] + walk_cost(es, other);
        assert(mb == end_idx) by {
            if mb < end_idx {
                assert(ids[mb] != ids[end_idx]);
            } else if mb > end_idx {
                assert(ids[end_idx] != ids[mb]);
            }
        }
        assert(dist[end_idx] <= walk_cost(es, other));
    }
}

/// The walk steps along a predecessor chain: the step into `rev[q-1]`
/// first, then the steps of the shorter chain.
spec fn rev_steps(rev: Seq<usize>, pe: Seq<usize>, pd: Seq<bool>, q: int) -> Seq<(int, bool)>
    decreases q,
{
    if q <= 0 {
        Seq::empty()
    } else {
        seq![(pe[rev[q - 1] as int] as int, pd[rev[q - 1] as int])] + rev_steps(rev, pe, pd, q - 1)
    }
}

proof fn lemma_rev_steps_shape(rev: Seq<usize>, pe: Seq<usize>, pd: Seq<bool>, q: int)
    requires
        0 <= q,
    ensures
        rev_steps(rev, pe, pd, q).len() == q,
        forall|i: int|
            0 <= i < q ==> rev_steps(rev, pe, pd, q)[i] == (
                pe[rev[q - 1 - i] as int] as int,
                pd[rev[q - 1 - i] as int],
            ),
    decreases q,
{
    if q > 0 {
        lemma_rev_steps_shape(rev, pe, pd, q - 1);
        let steps = rev_steps(rev, pe, pd, q);
        let rest = rev_steps(rev, pe, pd, q - 1);
        assert forall|i: int| 0 <= i < q implies steps[i] == (
            pe[rev[q - 1 - i] as int] as int,
            pd[rev[q - 1 - i] as int],
        ) by {
            if i > 0 {
                assert(steps[i] == rest[i - 1]);
            }
        }
    }
}

/// A predecessor chain is a walk whose total cost is exactly the
/// distance gap between its two ends.
#[verifier::rlimit(100)]
proof fn lemma_rev_chain_walk(
    es: Seq<Edge>,
    ids: Seq<i64>,
    dist: Seq<u64>,
    reached: Seq<bool>,
    settled: Seq<bool>,
    pn: Seq<usize>,
    pe: Seq<usize>,
    pd: Seq<bool>,
    rev: Seq<usize>,
    start_idx: int,
    q: int,
)
    requires
        dist.len() == ids.len() && reached.len() == ids.len() && settled.len() == ids.len()
            && pn.len() == ids.len() && pe.len() == ids.len() && pd.len() == ids.len(),
        prev_ok(es, ids, dist, reached, settled, pn, pe, pd, start_idx),
        forall|t: int|
            0 <= t < rev.len() ==> 0 <= #[trigger] rev[t] < ids.len() && reached[rev[t] as int],
        forall|t: int| 0 <= t < rev.len() - 1 ==> pn[#[trigger] rev[t] as int] == rev[t + 1],
        forall|t: int| 0 <= t < rev.len() - 1 ==> (#[trigger] rev[t]) as int != start_idx,
        0 <= q < rev.len(),
    ensures
        walk_ok(es, rev_steps(rev, pe, pd, q), ids[rev[q] as int], ids[rev[0] as int]),
        walk_cost(es, rev_steps(rev, pe, pd, q)) + dist[rev[q] as int] == dist[rev[0] as int],
    decreases q,
{
    let steps = rev_steps(rev, pe, pd, q);
    if q == 0 {
        assert(steps.len() == 0);
    } else {
        let k = rev[q - 1] as int;
        assert(reached[k] && k != start_idx);
        assert(pn[rev[q - 1] as int] == rev[q]);
        let s0 = (pe[k] as int, pd[k]);
        assert(steps[0] == s0);
        lemma_rev_chain_walk(es, ids, dist, reached, settled, pn, pe, pd, rev, start_idx, q - 1);
        assert(steps.drop_first() =~= rev_steps(rev, pe, pd, q - 1));
        assert(step_from(es, s0) == ids[rev[q] as int]);
        assert(step_to(es, s0) == ids[k]);
        assert(dist[k] == dist[rev[q] as int] + step_cost(es, s0));
        assert(walk_ok(es, steps, ids[rev[q] as int], ids[rev[0] as int]));
        assert(walk_cost(es, steps) == step_cost(es, s0) + walk_cost(es, steps.drop_first()));
    }
}

/// Each step of the chain walk departs from the matching emitted
/// point's node.
proof fn lemma_chain_steps_match(
    es: Seq<Edge>,
    ids: Seq<i64>,
    dist: Seq<u64>,
    reached: Seq<bool>,
    settled: Seq<bool>,
    pn: Seq<usize>,
    pe: Seq<usize>,
    pd: Seq<bool>,
    rev: Seq<usize>,
    out: Seq<PathPoint>,
    start_idx: int,
)
    requires
        dist.len() == ids.len() && reached.len() == ids.len() && settled.len() == ids.len()
            && pn.len() == ids.len() && pe.len() == ids.len() && pd.len() == ids.len(),
        prev_ok(es, ids, dist, reached, settled, pn, pe, pd, start_idx),
        0 <= start_idx < ids.len(),
        rev.len() >= 1,
        forall|t: int|
            0 <= t < rev.len() ==> 0 <= #[trigger] rev[t] < ids.len() && reached[rev[t] as int],
        forall|t: int| 0 <= t < rev.len() - 1 ==> pn[#[trigger] rev[t] as int] == rev[t + 1],
        forall|t: int| 0 <= t < rev.len() - 1 ==> (#[trigger] rev[t]) as int != start_idx,
        out.len() == rev.len(),
        forall|t: int|
            0 <= t < out.len() ==> (#[trigger] out[t]).node_id == ids[rev[rev.len() - 1
                - t] as int],
    ensures
        forall|i: int|
            0 <= i < rev.len() - 1 ==> step_from(
                es,
                #[trigger] rev_steps(rev, pe, pd, rev.len() - 1)[i],
            ) == out[i].node_id,
{
    let q = rev.len() - 1;
    lemma_rev_steps_shape(rev, pe, pd, q);
    let steps = rev_steps(rev, pe, pd, q);
    assert forall|i: int| 0 <= i < q implies step_from(es, #[trigger] steps[i]) == out[
    i].node_id by {
        let k = rev[q - 1 - i] as int;
        assert(reached[k] && k != start_idx);
        assert(pn[rev[q - 1 - i] as int] == rev[q - i]);
        assert(steps[i] == (pe[k] as int, pd[k]));
        if pd[k] {
            assert(step_from(es, steps[i]) == es[pe[k] as int].source == ids[pn[k] as int]);
        } else {
            assert(step_from(es, steps[i]) == es[pe[k] as int].target == ids[pn[k] as int]);
        }
        assert(out[i].node_id == ids[rev[rev.len() - 1 - i] as int]);
    }
}

/// A walk that follows the emitted points and that no other walk
/// can beat witnesses the optimality of the found path.
proof fn lemma_assemble_optimal(
    es: Seq<Edge>,
    out: Seq<PathPoint>,
    steps: Seq<(int, bool)>,
    start_node: i64,
    end_node: i64,
    d_end: nat,
)
    requires
        walk_ok(es, steps, start_node, end_node),
        walk_cost(es, steps) == d_end,
        out.len() >= 1,
        steps.len() == out.len() - 1,
        forall|i: int|
            0 <= i < steps.len() ==> step_from(es, #[trigger] steps[i]) == out[i].node_id,
        forall|other: Seq<(int, bool)>|
            walk_ok(es, other, start_node, end_node) ==> walk_cost(es, other) >= d_end,
    ensures
        exists|steps2: Seq<(int, bool)>|
            walk_ok(es, steps2, start_node, end_node) && steps2.len() == out.len() - 1 && (forall|
                i: int,
            |
                0 <= i < steps2.len() ==> step_from(es, #[trigger] steps2[i]) == out[i].node_id)
                && (forall|other: Seq<(int, bool)>|
                walk_ok(es, other, start_node, end_node) ==> walk_cost(es, other) >= walk_cost(
                    es,
                    steps2,
                )),
{
    assert(walk_ok(es, steps, start_node, end_node) && steps.len() == out.len() - 1 && (forall|
        i: int,
    |
        0 <= i < steps.len() ==> step_from(es, #[trigger] steps[i]) == out[i].node_id) && (forall|
        other: Seq<(int, bool)>,
    |
        walk_ok(es, other, start_node, end_node) ==> walk_cost(es, other) >= walk_cost(
            es,
            steps,
        )));
}

/// Points emitted along a predecessor chain form a path on the graph:
/// the endpoints are the requested nodes, consecutive points are
/// edge-joined, every coordinate is recorded by some edge, and so the
/// end node is reachable from the start node.
proof fn lemma_points_form_path(
    es: Seq<Edge>,
    ids: Seq<i64>,
    xs: Seq<i64>,
    ys: Seq<i64>,
    pe: Seq<usize>,
    rev: Seq<usize>,
    out: Seq<PathPoint>,
    start_idx: int,
    end_idx: int,
    start_node: i64,
    end_node: i64,
)
    requires
        xs.len() == ids.len() && ys.len() == ids.len() && pe.len() == ids.len(),
        rev.len() >= 1,
        out.len() == rev.len(),
        forall|t: int| 0 <= t < rev.len() ==> 0 <= #[trigger] rev[t] < ids.len(),
        forall|t: int|
            0 <= t < rev.len() - 1 ==> 0 <= #[trigger] pe[rev[t] as int] < es.len()
                && edge_connects(
                es[pe[rev[t] as int] as int],
                ids[rev[t + 1] as int],
                ids[rev[t] as int],
            ),
        forall|t: int| 0 <= t < ids.len() ==> node_coord_ok(es, #[trigger] ids[t], xs[t], ys[t]),
        forall|nd: i64| #[trigger] ids.contains(nd) ==> node_in_graph(es, nd),
        forall|t: int|
            0 <= t < out.len() ==> (#[trigger] out[t]).node_id == ids[rev[rev.len() - 1
                - t] as int] && out[t].x == xs[rev[rev.len() - 1 - t] as int] && out[t].y
                == ys[rev[rev.len() - 1 - t] as int],
        forall|t: int|
            0 <= t < out.len() - 1 ==> (#[trigger] out[t]).way_id == es[pe[rev[rev.len() - 2
                - t] as int] as int].way_id && out[t].length == es[pe[rev[rev.len() - 2
                - t] as int] as int].length,
        rev[rev.len() - 1] == start_idx,
        rev[0] == end_idx,
        0 <= start_idx < ids.len() && ids[start_idx] == start_node,
        0 <= end_idx < ids.len() && ids[end_idx] == end_node,
    ensures
        spec_reachable(es, start_node, end_node),
        out[0].node_id == start_node,
        out[out.len() - 1].node_id == end_node,
        forall|t: int| 0 <= t < out.len() ==> point_on_graph(es, #[trigger] out[t]),
        forall|t: int| 0 <= t < out.len() - 1 ==> step_on_graph(es, #[trigger] out[t], out[t + 1]),
{
    let m = rev.len() as int;
    let ns = Seq::new(m as nat, |t: int| ids[rev[m - 1 - t] as int]);
    assert forall|t: int| 0 <= t < ns.len() - 1 implies #[trigger] chain_step(es, ns, t) by {
        let je = pe[rev[m - 2 - t] as int] as int;
        assert(edge_connects(es[je], ids[rev[m - 1 - t] as int], ids[rev[m - 2 - t] as int]));
        assert(ns[t] == ids[rev[m - 1 - t] as int]);
        assert(ns[t + 1] == ids[rev[m - 2 - t] as int]);
    }
    assert forall|t: int| 0 <= t < ns.len() implies node_in_graph(es, #[trigger] ns[t]) by {
        assert(ids.contains(ids[rev[m - 1 - t] as int]));
    }
    assert(ns[0] == ids[rev[m - 1] as int]);
    assert(ns.last() == ids[rev[0] as int]);
    assert(is_path_between(es, ns, start_node, end_node));
    assert forall|t: int| 0 <= t < out.len() implies point_on_graph(es, #[trigger] out[t]) by {
        assert(node_coord_ok(
            es,
            ids[rev[m - 1 - t] as int],
            xs[rev[m - 1 - t] as int],
            ys[rev[m - 1 - t] as int],
        ));
    }
    assert forall|t: int| 0 <= t < out.len() - 1 implies step_on_graph(
        es,
        #[trigger] out[t],
        out[t + 1],
    ) by {
        let je = pe[rev[m - 2 - t] as int] as int;
        assert(edge_connects(es[je], ids[rev[m - 1 - t] as int], ids[rev[m - 2 - t] as int]));
        assert(out[t].node_id == ids[rev[m - 1 - t] as int]);
        assert(out[t + 1].node_id == ids[rev[m - 2 - t] as int]);
    }
}

/// A duplicate-free sequence of indices below `n` has at most `n`
/// entries.
proof fn lemma_distinct_bounded(s: Seq<usize>, n: nat)
    requires
        forall|t: int| 0 <= t < s.len() ==> (#[trigger] s[t]) < n,
        forall|t1: int, t2: int| 0 <= t1 < t2 < s.len() ==> s[t1] != s[t2],
    ensures
        s.len() <= n,
{
    broadcast use vstd::seq_lib::group_seq_lib_default;
    broadcast use vstd::set_lib::group_set_lib_default;

    let si = s.map_values(|v: usize| v as int);
    assert(si.no_duplicates()) by {
        assert forall|t1: int, t2: int|
            0 <= t1 < si.len() && 0 <= t2 < si.len() && t1 != t2 implies si[t1] != si[t2] by {
            if t1 < t2 {
                assert(s[t1] != s[t2]);
            } else {
                assert(s[t2] != s[t1]);
            }
        }
    }
    si.unique_seq_to_set();
    let range = vstd::set_lib::set_int_range(0, n as int);
    vstd::set_lib::lemma_int_range(0, n as int);
    assert(si.to_set().subset_of(range)) by {
        assert forall|x: int| si.to_set().contains(x) implies range.contains(x) by {
            assert(si.contains(x));
            let t = choose|t: int| 0 <= t < si.len() && si[t] == x;
            assert(s[t] < n);
        }
    }
    vstd::set_lib::lemma_len_subset(si.to_set(), range);
}

/// The distinct way identifiers the first `k` points of a path
/// depart on, in first-traversal order.
pub open spec fn spec_way_ids_upto(path: Seq<PathPoint>, k: int) -> Seq<i64>
    decreases k,
{
    if k <= 0 {
        Seq::empty()
    } else {
        let p = spec_way_ids_upto(path, k - 1);
        if p.contains(path[k - 1].way_id) {
            p
        } else {
            p.push(path[k - 1].way_id)
        }
    }
}

/// The distinct way identifiers a path traverses, in first-traversal
/// order: the final point departs on no edge and contributes none.
pub open spec fn spec_path_way_ids(path: Seq<PathPoint>) -> Seq<i64> {
    spec_way_ids_upto(path, path.len() - 1)
}

fn contains_id(ids: &Vec<i64>, id: i64) -> (b: bool)
    ensures
        b == ids@.contains(id),
{
    let mut k: usize = 0;
    while k < ids.len()
        invariant
            0 <= k <= ids@.len(),
            forall|j: int| 0 <= j < k ==> ids@[j] != id,
        decreases ids@.len() - k,
    {
        if ids[k] == id {
            return true;
        }
        k = k + 1;
    }
    false
}

/// Lists the distinct ways a found path traverses, in the order they
/// are first ridden: the Route model's ordered way identifier list.
pub fn path_way_ids(path: &Vec<PathPoint>) -> (r: Vec<i64>)
    ensures
        r@ == spec_path_way_ids(path@),
{
    let mut out: Vec<i64> = Vec::new();
    if path.len() == 0 {
        return out;
    }
    let mut i: usize = 0;
    while i < path.len() - 1
        invariant
            path@.len() >= 1,
            0 <= i <= path@.len() - 1,
            out@ == spec_way_ids_upto(path@, i as int),
        decreases path@.len() - 1 - i,
    {
        if !contains_id(&out, path[i].way_id) {
            out.push(path[i].way_id);
        }
        i = i + 1;
    }
    out
}

proof fn lemma_count_all_false(s: Seq<bool>)
    requires
        forall|m: int| 0 <= m < s.len() ==> !(#[trigger] s[m]),
    ensures
        count_true(s) == 0,
    decreases s.len(),
{
    if s.len() > 0 {
        lemma_count_all_false(s.drop_last());
    }
}

} // verus!
