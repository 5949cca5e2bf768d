//! Node locator: snapping a query point to the nearest graph node.
//!
//! Candidates are the graph nodes of the network near the query, with
//! their positions in the projected (metric) system; the locator
//! returns the nearest one within a bounded search radius, and a
//! caller that can render "no route" substitutes the sentinel node
//! rather than failing.

use vstd::prelude::*;

verus! {

use crate::codec::Coord;

/// The locator's search radius, in projected distance units.
pub const LOCATE_RADIUS: u64 = 1_000;

/// Largest coordinate magnitude the locator accepts, in projected
/// units; keeps every squared distance inside a machine word.
pub const LOCATE_COORD_LIMIT: i64 = 1_000_000_000;

/// A graph node candidate: where it sits in the projected plane, and
/// the way it belongs to with that way's geometry.
#[derive(Clone, Debug)]
pub struct Node {
    /// The way this node belongs to.
    pub way_id: i64,
    /// The owning way's geometry, in fixed-point millionths.
    pub geom: Vec<Coord>,
    /// The node's identifier.
    pub node_id: i64,
    /// The node's position in the projected plane.
    pub x: i64,
    /// The node's position in the projected plane.
    pub y: i64,
}

impl Node {
    /// The sentinel a caller substitutes when no node was found: way
    /// zero, empty geometry.
    pub fn sentinel() -> (r: Node)
        ensures
            r.way_id == 0,
            r.geom@ == Seq::<Coord>::empty(),
            r.node_id == 0,
            r.x == 0,
            r.y == 0,
    {
        Node { way_id: 0, geom: Vec::new(), node_id: 0, x: 0, y: 0 }
    }
}

/// A coordinate the locator accepts.
pub open spec fn locate_coord_in_range(x: i64, y: i64) -> bool {
    -LOCATE_COORD_LIMIT <= x <= LOCATE_COORD_LIMIT && -LOCATE_COORD_LIMIT <= y
        <= LOCATE_COORD_LIMIT
}

/// Every candidate's position is within the locator's range.
pub open spec fn candidates_in_range(cands: Seq<Node>) -> bool {
    forall|i: int|
        0 <= i < cands.len() ==> locate_coord_in_range(
            (#[trigger] cands[i]).x,
            cands[i].y,
        )
}

/// The squared distance between two positions.
pub open spec fn spec_dist2(ax: int, ay: int, bx: int, by: int) -> int {
    (ax - bx) * (ax - bx) + (ay - by) * (ay - by)
}

fn dist2(ax: i64, ay: i64, bx: i64, by: i64) -> (d: i64)
    requires
        locate_coord_in_range(ax, ay),
        locate_coord_in_range(bx, by),
    ensures
        d == spec_dist2(ax as int, ay as int, bx as int, by as int),
        d >= 0,
{
    let dx = ax - bx;
    let dy = ay - by;
    proof {
        assert(dx * dx <= 4_000_000_000_000_000_000i64 && dx * dx >= 0) by (nonlinear_arith)
            requires
                -2_000_000_000 <= dx <= 2_000_000_000,
        ;
        assert(dy * dy <= 4_000_000_000_000_000_000i64 && dy * dy >= 0) by (nonlinear_arith)
            requires
                -2_000_000_000 <= dy <= 2_000_000_000,
        ;
    }
    dx * dx + dy * dy
}

/// Snaps a query point to the nearest candidate node within the
/// search radius: the result is a candidate within the radius at
/// least as close as every other candidate (the earliest such one),
/// and the lookup fails exactly when no candidate lies within the
/// radius.
pub fn locate(cands: &Vec<Node>, qx: i64, qy: i64, radius: u64) -> (r: Option<usize>)
    requires
        candidates_in_range(cands@),
        locate_coord_in_range(qx, qy),
        radius <= LOCATE_RADIUS,
    ensures
        match r {
            Some(k) => 0 <= k < cands@.len() && spec_dist2(
                cands@[k as int].x as int,
                cands@[k as int].y as int,
                qx as int,
                qy as int,
            ) <= (radius * radius) as int && forall|i: int|
                0 <= i < cands@.len() ==> spec_dist2(
                    cands@[k as int].x as int,
                    cands@[k as int].y as int,
                    qx as int,
                    qy as int,
                ) <= spec_dist2(
                    (#[trigger] cands@[i]).x as int,
                    cands@[i].y as int,
                    qx as int,
                    qy as int,
                ),
            None => forall|i: int|
                0 <= i < cands@.len() ==> spec_dist2(
                    (#[trigger] cands@[i]).x as int,
                    cands@[i].y as int,
                    qx as int,
                    qy as int,
                ) > (radius * radius) as int,
        },
{
    let mut best: Option<(usize, i64)> = None;
    let mut i: usize = 0;
    while i < cands.len()
        invariant
            0 <= i <= cands@.len(),
            candidates_in_range(cands@),
            locate_coord_in_range(qx, qy),
            match best {
                Some((k, d)) => 0 <= k < cands@.len() && d == spec_dist2(
                    cands@[k as int].x as int,
                    cands@[k as int].y as int,
                    qx as int,
                    qy as int,
                ) && forall|m: int|
                    0 <= m < i ==> d <= spec_dist2(
                        (#[trigger] cands@[m]).x as int,
                        cands@[m].y as int,
                        qx as int,
                        qy as int,
                    ),
                None => i == 0,
            },
        decreases cands@.len() - i,
    {
        let d = dist2(cands[i].x, cands[i].y, qx, qy);
        let better = match best {
            Some((_, bd)) => d < bd,
            None => true,
        };
        if better {
            best = Some((i, d));
        }
        i = i + 1;
    }
    proof {
        assert(radius * radius <= 1_000_000) by (nonlinear_arith)
            requires
                0 <= radius <= LOCATE_RADIUS,
        ;
    }
    match best {
        Some((k, d)) => {
            if d <= (radius * radius) as i64 {
                Some(k)
            } else {
                None
            }
        },
        None => None,
    }
}

} // verus!
