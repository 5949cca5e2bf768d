//! Cost model: from a way's infrastructure tags and its community
//! score to a forward and a reverse traversal cost.
//!
//! Costs are the edge's physical length times a weight, and the weight
//! is the reciprocal of a desirability factor in (0, 1].  Desirability
//! is held in fixed point, in ten-thousandths, so a factor of `1.0` is
//! `10000` and the near-impassable floor `0.0001` is `1`.  A cost is
//! always strictly positive and finite: even a closed street gets a
//! very large cost rather than an infinite one, so a search can still
//! terminate and report a (bad) route.

use vstd::prelude::*;

verus! {

use vstd::arithmetic::div_mod::{
    lemma_div_is_ordered_by_denominator,
    lemma_fundamental_div_mod,
};

/// One whole unit of desirability or of a community score, in
/// fixed-point ten-thousandths.
pub const SCORE_SCALE: u64 = 10_000;

/// Longest edge the cost model accepts, in metres.
pub const MAX_EDGE_LENGTH: u64 = 100_000_000;

/// Largest cost the model can produce: a maximal-length edge at the
/// near-impassable floor.
pub const MAX_EDGE_COST: u64 = 1_000_000_000_000;

/// The road class of a way, as tagged in the street network.
#[derive(Clone, Copy, PartialEq, Eq, Structural, Debug)]
pub enum Highway {
    /// A dedicated cycleway.
    Cycleway,
    /// A residential street.
    Residential,
    /// A tertiary road.
    Tertiary,
    /// A secondary road.
    Secondary,
    /// A primary road.
    Primary,
    /// A pedestrian footway.
    Footway,
    /// Stairs.
    Steps,
    /// A way that is only proposed, not built.
    Proposed,
    /// Anything else, or no road class at all.
    Other,
}

/// The cycling infrastructure tagged on a way, if any.
#[derive(Clone, Copy, PartialEq, Eq, Structural, Debug)]
pub enum CyclewayKind {
    /// No cycling infrastructure tagged.
    Absent,
    /// A marked cycle lane.
    Lane,
    /// A separated cycle track.
    Track,
    /// A shared or advisory lane.
    SharedLane,
}

/// What the cost model reads from a way's free-form tag map.
#[derive(Clone, Copy, PartialEq, Eq, Structural, Debug)]
pub struct Tags {
    /// The way is explicitly not usable by bicycle.
    pub bicycle_forbidden: bool,
    /// The way is explicitly designated for bicycles.
    pub bicycle_designated: bool,
    /// The way's road class.
    pub highway: Highway,
    /// The way's cycling infrastructure.
    pub cycleway: CyclewayKind,
    /// The way is one-way, in the generic or the bicycle-specific
    /// sense.
    pub oneway: bool,
    /// Riding against the one-way direction is explicitly allowed.
    pub contraflow_allowed: bool,
}

impl Tags {
    /// The tag set of a way with no tags at all.
    pub open spec fn spec_untagged() -> Tags {
        Tags {
            bicycle_forbidden: false,
            bicycle_designated: false,
            highway: Highway::Other,
            cycleway: CyclewayKind::Absent,
            oneway: false,
            contraflow_allowed: false,
        }
    }

    /// A way with no tags at all: traversable but unattractive.
    pub fn untagged() -> (r: Tags)
        ensures
            r == Tags::spec_untagged(),
    {
        Tags {
            bicycle_forbidden: false,
            bicycle_designated: false,
            highway: Highway::Other,
            cycleway: CyclewayKind::Absent,
            oneway: false,
            contraflow_allowed: false,
        }
    }
}

/// Desirability of an explicitly bicycle-forbidden way: the
/// near-impassable floor.
pub const DESIR_FORBIDDEN: u64 = 1;

/// Desirability of a dedicated cycleway or a designated-bicycle way.
pub const DESIR_DEDICATED: u64 = 10_000;

/// Desirability of a marked cycle lane or track.
pub const DESIR_LANE: u64 = 7_500;

/// Desirability of a shared or advisory lane.
pub const DESIR_SHARED: u64 = 5_000;

/// Desirability of a residential street.
pub const DESIR_RESIDENTIAL: u64 = 6_000;

/// Desirability of a tertiary or secondary road.
pub const DESIR_MINOR_ROAD: u64 = 3_500;

/// Desirability of a primary road, a footway, stairs, or an unbuilt
/// way.
pub const DESIR_HOSTILE: u64 = 100;

/// Desirability of an unknown or untagged way: unattractive, never
/// impassable.
pub const DESIR_UNKNOWN: u64 = 2_500;

/// The tag-derived desirability: the rule table, first match wins.
pub open spec fn spec_desirability(t: Tags) -> nat {
    if t.bicycle_forbidden {
        DESIR_FORBIDDEN as nat
    } else if t.highway == Highway::Cycleway || t.bicycle_designated {
        DESIR_DEDICATED as nat
    } else if t.cycleway == CyclewayKind::Lane || t.cycleway == CyclewayKind::Track {
        DESIR_LANE as nat
    } else if t.cycleway == CyclewayKind::SharedLane {
        DESIR_SHARED as nat
    } else if t.highway == Highway::Residential {
        DESIR_RESIDENTIAL as nat
    } else if t.highway == Highway::Tertiary || t.highway == Highway::Secondary {
        DESIR_MINOR_ROAD as nat
    } else if t.highway == Highway::Primary || t.highway == Highway::Footway || t.highway
        == Highway::Steps || t.highway == Highway::Proposed {
        DESIR_HOSTILE as nat
    } else {
        DESIR_UNKNOWN as nat
    }
}

/// Derives a way's desirability from its tags alone.
pub fn desirability(t: &Tags) -> (d: u64)
    ensures
        d == spec_desirability(*t),
        1 <= d <= SCORE_SCALE,
{
    if t.bicycle_forbidden {
        DESIR_FORBIDDEN
    } else if matches!(t.highway, Highway::Cycleway) || t.bicycle_designated {
        DESIR_DEDICATED
    } else if matches!(t.cycleway, CyclewayKind::Lane) || matches!(t.cycleway, CyclewayKind::Track) {
        DESIR_LANE
    } else if matches!(t.cycleway, CyclewayKind::SharedLane) {
        DESIR_SHARED
    } else if matches!(t.highway, Highway::Residential) {
        DESIR_RESIDENTIAL
    } else if matches!(t.highway, Highway::Tertiary) || matches!(t.highway, Highway::Secondary) {
        DESIR_MINOR_ROAD
    } else if matches!(t.highway, Highway::Primary) || matches!(t.highway, Highway::Footway)
        || matches!(t.highway, Highway::Steps) || matches!(t.highway, Highway::Proposed) {
        DESIR_HOSTILE
    } else {
        DESIR_UNKNOWN
    }
}

/// The desirability that governs the forward direction: a community
/// score overrides the tag-derived value, and a score of zero (a
/// closed street) maps to the near-impassable floor.
pub open spec fn spec_forward_desirability(t: Tags, score: Option<u32>) -> nat {
    match score {
        Some(s) => if s == 0 {
            DESIR_FORBIDDEN as nat
        } else {
            s as nat
        },
        None => spec_desirability(t),
    }
}

/// The desirability that governs the reverse direction: one-way
/// infrastructure without contraflow makes the reverse direction
/// near-impassable, whatever the score says.
pub open spec fn spec_reverse_desirability(t: Tags, score: Option<u32>) -> nat {
    if t.oneway && !t.contraflow_allowed {
        DESIR_FORBIDDEN as nat
    } else {
        spec_forward_desirability(t, score)
    }
}

/// One directed cost: length times the reciprocal weight, floored at
/// one so that every cost is strictly positive.
pub open spec fn spec_cost(length: nat, d: nat) -> nat {
    let c = (length * (SCORE_SCALE as nat)) / d;
    if c < 1 {
        1
    } else {
        c
    }
}

/// Both directed costs of an edge.
pub open spec fn spec_edge_costs(t: Tags, score: Option<u32>, length: nat) -> (nat, nat) {
    (
        spec_cost(length, spec_forward_desirability(t, score)),
        spec_cost(length, spec_reverse_desirability(t, score)),
    )
}

/// A score the model accepts: within one whole unit.
pub open spec fn score_in_range(score: Option<u32>) -> bool {
    match score {
        Some(s) => s <= SCORE_SCALE,
        None => true,
    }
}

/// Derives an edge's forward and reverse traversal cost from its
/// parent way's tags, the way's aggregated community score if any,
/// and the edge's physical length.
pub fn edge_costs(t: &Tags, score: Option<u32>, length: u64) -> (r: (u64, u64))
    requires
        score_in_range(score),
        length <= MAX_EDGE_LENGTH,
    ensures
        (r.0 as nat, r.1 as nat) == spec_edge_costs(*t, score, length as nat),
        1 <= r.0 <= MAX_EDGE_COST,
        1 <= r.1 <= MAX_EDGE_COST,
{
    let fwd_d: u64 = match score {
        Some(s) => if s == 0 {
            DESIR_FORBIDDEN
        } else {
            s as u64
        },
        None => desirability(t),
    };
    let rev_d: u64 = if t.oneway && !t.contraflow_allowed {
        DESIR_FORBIDDEN
    } else {
        fwd_d
    };
    proof {
        lemma_cost_bounds(length as nat, fwd_d as nat);
        lemma_cost_bounds(length as nat, rev_d as nat);
    }
    let fwd = directed_cost(length, fwd_d);
    let rev = directed_cost(length, rev_d);
    (fwd, rev)
}

/// Any cost at a desirability of at least one is at most the
/// near-impassable cost of the same length, and within the model's
/// cap.
proof fn lemma_cost_bounds(length: nat, d: nat)
    requires
        1 <= d,
        length <= MAX_EDGE_LENGTH,
    ensures
        1 <= spec_cost(length, d) <= MAX_EDGE_COST,
{
    let x = length * (SCORE_SCALE as nat);
    assert(x <= MAX_EDGE_COST);
    lemma_div_is_ordered_by_denominator(x as int, 1, d as int);
    lemma_fundamental_div_mod(x as int, 1);
}

fn directed_cost(length: u64, d: u64) -> (c: u64)
    requires
        1 <= d,
        length <= MAX_EDGE_LENGTH,
    ensures
        c as nat == spec_cost(length as nat, d as nat),
{
    proof {
        lemma_cost_bounds(length as nat, d as nat);
    }
    let raw = (length * SCORE_SCALE) / d;
    if raw < 1 {
        1
    } else {
        raw
    }
}

// ---------------------------------------------------------------------------
// What the model guarantees.
// ---------------------------------------------------------------------------

/// A smaller desirability never makes an edge cheaper.
proof fn lemma_cost_antitone(length: nat, d1: nat, d2: nat)
    requires
        1 <= d1 <= d2,
    ensures
        spec_cost(length, d1) >= spec_cost(length, d2),
{
    lemma_div_is_ordered_by_denominator((length * (SCORE_SCALE as nat)) as int, d1 as int, d2 as int);
}

/// Monotonic desirability near the impassable boundary: an edge whose
/// score reports it closed costs at least as much, in both directions,
/// as an equally long edge scored at the lowest passable rating.
pub proof fn lemma_closed_dominates_low_score(t1: Tags, t2: Tags, length: nat)
    ensures
        spec_edge_costs(t1, Some(0u32), length).0 >= spec_edge_costs(t2, Some(100u32), length).0,
        spec_edge_costs(t1, Some(0u32), length).1 >= spec_edge_costs(t2, Some(100u32), length).1,
{
    lemma_cost_antitone(length, 1, 100);
    if t2.oneway && !t2.contraflow_allowed {
        lemma_cost_antitone(length, 1, 1);
    }
}

/// Without a one-way restriction the two directions of an edge cost
/// the same.
pub proof fn lemma_two_way_symmetric(t: Tags, score: Option<u32>, length: nat)
    requires
        !(t.oneway && !t.contraflow_allowed),
    ensures
        spec_edge_costs(t, score, length).0 == spec_edge_costs(t, score, length).1,
{
}

/// A one-way tag without contraflow forces the reverse cost to the
/// near-impassable value, far above the forward cost: at least a
/// hundred times it, for any unscored way that is not itself tagged
/// unusable by bicycle.
pub proof fn lemma_oneway_penalizes_reverse(t: Tags, length: nat)
    requires
        t.oneway && !t.contraflow_allowed,
        !t.bicycle_forbidden,
        length >= 1,
    ensures
        spec_edge_costs(t, None, length).1 == length * SCORE_SCALE,
        spec_edge_costs(t, None, length).1 >= 100 * spec_edge_costs(t, None, length).0,
{
    let x = length * (SCORE_SCALE as nat);
    let d = spec_desirability(t);
    assert(d >= 100);
    assert(x >= SCORE_SCALE);
    lemma_fundamental_div_mod(x as int, 1);
    assert(spec_cost(length, 1) == x);
    lemma_div_is_ordered_by_denominator(x as int, 100, d as int);
    assert(x / d <= x / 100);
    lemma_fundamental_div_mod(x as int, 100);
    assert(100 * (x / 100) <= x);
    if x / d < 1 {
        assert(spec_cost(length, d) == 1);
        assert(100 <= x);
    } else {
        assert(100 * (x / d) <= x);
    }
}

} // verus!
