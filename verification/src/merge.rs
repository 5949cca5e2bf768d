//! Segment merge resolver: extending a route from or through an
//! anchor segment.
//!
//! Given the endpoints of a fixed anchor segment and the endpoints of
//! a separately resolved target group, the resolver computes the four
//! directional path candidates (the cross product of the endpoint
//! pairs) and keeps the one with the most geometry points.  Point
//! count is a deliberate heuristic standing in for path length — it
//! approximates, it does not guarantee, the longest continuous union
//! — and is preserved here as the documented selection rule.

use vstd::prelude::*;

verus! {

use crate::codec::{Coord, coord_in_range};
use crate::graph::{
    Edge,
    GROW_BBOX_MARGIN,
    PathPoint,
    bbox_around,
    filter_edges,
    graph_in_range,
    lemma_filter_bbox_in_range,
    point_on_graph,
    spec_bbox_around,
    spec_filter_bbox,
    spec_reachable,
    step_on_graph,
    search,
};

/// The search result for the endpoint pair `a` to `b`: empty exactly
/// when no path joins them, otherwise a valid point chain from `a`
/// to `b`.
pub open spec fn candidate_ok(es: Seq<Edge>, cand: Seq<PathPoint>, a: i64, b: i64) -> bool {
    &&& (cand.len() > 0 <==> spec_reachable(es, a, b))
    &&& cand.len() > 0 ==> cand[0].node_id == a && cand[cand.len() - 1].node_id == b
    &&& forall|i: int| 0 <= i < cand.len() ==> point_on_graph(es, #[trigger] cand[i])
    &&& forall|i: int| 0 <= i < cand.len() - 1 ==> step_on_graph(es, #[trigger] cand[i], cand[i + 1])
}

/// Computes the four directional candidates between the anchor
/// endpoints and the target endpoints, in the fixed order: anchor
/// source to target's target, anchor target to target's source,
/// source to source, target to target.
pub fn merge_candidates(
    edges: &Vec<Edge>,
    source_a: i64,
    target_a: i64,
    source_b: i64,
    target_b: i64,
) -> (r: Vec<Vec<PathPoint>>)
    requires
        graph_in_range(edges@),
    ensures
        r@.len() == 4,
        candidate_ok(edges@, r@[0]@, source_a, target_b),
        candidate_ok(edges@, r@[1]@, target_a, source_b),
        candidate_ok(edges@, r@[2]@, source_a, source_b),
        candidate_ok(edges@, r@[3]@, target_a, target_b),
{
    let mut r: Vec<Vec<PathPoint>> = Vec::new();
    r.push(search(edges, source_a, target_b));
    r.push(search(edges, target_a, source_b));
    r.push(search(edges, source_a, source_b));
    r.push(search(edges, target_a, target_b));
    r
}

/// Picks the candidate with the most geometry points: the first of
/// the longest ones.
pub fn select_longest(cands: &Vec<Vec<PathPoint>>) -> (k: usize)
    requires
        cands@.len() >= 1,
    ensures
        0 <= k < cands@.len(),
        forall|i: int| 0 <= i < cands@.len() ==> (#[trigger] cands@[i])@.len() <= cands@[
        k as int]@.len(),
        forall|i: int| 0 <= i < k ==> (#[trigger] cands@[i])@.len() < cands@[k as int]@.len(),
{
    let mut k: usize = 0;
    let mut i: usize = 1;
    while i < cands.len()
        invariant
            0 <= k < i <= cands@.len(),
            forall|t: int| 0 <= t < i ==> (#[trigger] cands@[t])@.len() <= cands@[k as int]@.len(),
            forall|t: int| 0 <= t < k ==> (#[trigger] cands@[t])@.len() < cands@[k as int]@.len(),
        decreases cands@.len() - i,
    {
        if cands[i].len() > cands[k].len() {
            k = i;
        }
        i = i + 1;
    }
    k
}

/// Resolves the merge: the longest of the four directional
/// candidates.  Empty exactly when no directional combination admits
/// a path at all; otherwise a valid point chain between one of the
/// four endpoint pairs, which every losing candidate's length bounds.
pub fn resolve_merge(
    edges: &Vec<Edge>,
    source_a: i64,
    target_a: i64,
    source_b: i64,
    target_b: i64,
) -> (r: Vec<PathPoint>)
    requires
        graph_in_range(edges@),
    ensures
        r@.len() == 0 ==> !spec_reachable(edges@, source_a, target_b) && !spec_reachable(
            edges@,
            target_a,
            source_b,
        ) && !spec_reachable(edges@, source_a, source_b) && !spec_reachable(
            edges@,
            target_a,
            target_b,
        ),
        r@.len() > 0 ==> ((r@[0].node_id == source_a && r@[r@.len() - 1].node_id == target_b) || (
        r@[0].node_id == target_a && r@[r@.len() - 1].node_id == source_b) || (r@[0].node_id
            == source_a && r@[r@.len() - 1].node_id == source_b) || (r@[0].node_id == target_a
            && r@[r@.len() - 1].node_id == target_b)),
        forall|i: int| 0 <= i < r@.len() ==> point_on_graph(edges@, #[trigger] r@[i]),
        forall|i: int| 0 <= i < r@.len() - 1 ==> step_on_graph(edges@, #[trigger] r@[i], r@[i + 1]),
{
    let mut cands = merge_candidates(edges, source_a, target_a, source_b, target_b);
    let k = select_longest(&cands);
    let winner = cands.swap_remove(k);
    winner
}

/// Resolves the merge over the edges near the two selections only:
/// the search is restricted to a box around the given representative
/// points, padded by the growing margin — the bounding box is the
/// sole cost control of the search.
pub fn resolve_merge_within(
    edges: &Vec<Edge>,
    anchor_at: Coord,
    target_at: Coord,
    source_a: i64,
    target_a: i64,
    source_b: i64,
    target_b: i64,
) -> (r: Vec<PathPoint>)
    requires
        graph_in_range(edges@),
        coord_in_range(anchor_at),
        coord_in_range(target_at),
    ensures
        ({
            let sub = spec_filter_bbox(
                edges@,
                spec_bbox_around(anchor_at, target_at, GROW_BBOX_MARGIN as int),
            );
            &&& r@.len() == 0 ==> !spec_reachable(sub, source_a, target_b) && !spec_reachable(
                sub,
                target_a,
                source_b,
            ) && !spec_reachable(sub, source_a, source_b) && !spec_reachable(
                sub,
                target_a,
                target_b,
            )
            &&& r@.len() > 0 ==> ((r@[0].node_id == source_a && r@[r@.len() - 1].node_id
                == target_b) || (r@[0].node_id == target_a && r@[r@.len() - 1].node_id == source_b)
                || (r@[0].node_id == source_a && r@[r@.len() - 1].node_id == source_b) || (
            r@[0].node_id == target_a && r@[r@.len() - 1].node_id == target_b))
            &&& forall|i: int| 0 <= i < r@.len() ==> point_on_graph(sub, #[trigger] r@[i])
            &&& forall|i: int|
                0 <= i < r@.len() - 1 ==> step_on_graph(sub, #[trigger] r@[i], r@[i + 1])
        }),
{
    let b = bbox_around(anchor_at, target_at, GROW_BBOX_MARGIN);
    let sub = filter_edges(edges, b);
    proof {
        lemma_filter_bbox_in_range(edges@, b);
    }
    resolve_merge(&sub, source_a, target_a, source_b, target_b)
}

} // verus!
