use veloinfo::cost::{desirability, edge_costs, CyclewayKind, Highway, Tags};

fn untagged() -> Tags {
    Tags {
        bicycle_forbidden: false,
        bicycle_designated: false,
        highway: Highway::Other,
        cycleway: CyclewayKind::Absent,
        oneway: false,
        contraflow_allowed: false,
    }
}

#[test]
fn untagged_way_stays_traversable() {
    // The unknown bucket: desirability 0.25, so weight 4.
    let t = untagged();
    assert_eq!(desirability(&t), 2_500);
    assert_eq!(edge_costs(&t, None, 100), (400, 400));
}

#[test]
fn dedicated_cycleway_is_cheapest() {
    let t = Tags { highway: Highway::Cycleway, ..untagged() };
    assert_eq!(edge_costs(&t, None, 100), (100, 100));
}

#[test]
fn designated_bicycle_matches_cycleway() {
    let t = Tags { bicycle_designated: true, highway: Highway::Primary, ..untagged() };
    assert_eq!(edge_costs(&t, None, 100), (100, 100));
}

#[test]
fn lane_track_shared_and_residential_buckets() {
    let lane = Tags { cycleway: CyclewayKind::Lane, ..untagged() };
    assert_eq!(edge_costs(&lane, None, 300), (400, 400));
    let track = Tags { cycleway: CyclewayKind::Track, ..untagged() };
    assert_eq!(edge_costs(&track, None, 300), (400, 400));
    let shared = Tags { cycleway: CyclewayKind::SharedLane, ..untagged() };
    assert_eq!(edge_costs(&shared, None, 300), (600, 600));
    let residential = Tags { highway: Highway::Residential, ..untagged() };
    assert_eq!(edge_costs(&residential, None, 300), (500, 500));
}

#[test]
fn hostile_buckets_are_expensive() {
    for highway in [Highway::Primary, Highway::Footway, Highway::Steps, Highway::Proposed] {
        let t = Tags { highway, ..untagged() };
        assert_eq!(edge_costs(&t, None, 100), (10_000, 10_000));
    }
    let minor = Tags { highway: Highway::Tertiary, ..untagged() };
    assert_eq!(edge_costs(&minor, None, 700), (2_000, 2_000));
}

#[test]
fn forbidden_way_is_near_impassable_but_finite() {
    let t = Tags { bicycle_forbidden: true, ..untagged() };
    assert_eq!(edge_costs(&t, None, 100), (1_000_000, 1_000_000));
}

#[test]
fn score_overrides_tags() {
    // A perfect score on a hostile road makes it cheap.
    let t = Tags { highway: Highway::Primary, ..untagged() };
    assert_eq!(edge_costs(&t, Some(10_000), 100), (100, 100));
    // A half score doubles the cost relative to perfect.
    assert_eq!(edge_costs(&t, Some(5_000), 100), (200, 200));
}

#[test]
fn zero_score_maps_to_near_impassable() {
    let t = Tags { highway: Highway::Cycleway, ..untagged() };
    assert_eq!(edge_costs(&t, Some(0), 100), (1_000_000, 1_000_000));
}

#[test]
fn closed_cost_dominates_lowest_passable_score() {
    // Score zero is at least as costly as score 0.01, in both
    // directions, for any tags.
    let t1 = Tags { highway: Highway::Cycleway, ..untagged() };
    let t2 = Tags { bicycle_forbidden: true, oneway: true, ..untagged() };
    let closed = edge_costs(&t1, Some(0), 500);
    let low = edge_costs(&t2, Some(100), 500);
    assert!(closed.0 >= low.0);
    assert!(closed.1 >= low.1);
    assert_eq!(closed, (5_000_000, 5_000_000));
    assert_eq!(low, (50_000, 5_000_000));
}

#[test]
fn oneway_penalizes_only_the_reverse_direction() {
    let t = Tags { highway: Highway::Residential, oneway: true, ..untagged() };
    let (fwd, rev) = edge_costs(&t, None, 100);
    assert_eq!(fwd, 166);
    assert_eq!(rev, 1_000_000);
    assert!(rev >= 100 * fwd);
}

#[test]
fn contraflow_restores_symmetry() {
    let t = Tags {
        highway: Highway::Residential,
        oneway: true,
        contraflow_allowed: true,
        ..untagged()
    };
    let (fwd, rev) = edge_costs(&t, None, 100);
    assert_eq!(fwd, rev);
}

#[test]
fn two_way_costs_are_symmetric() {
    let t = Tags { cycleway: CyclewayKind::Lane, ..untagged() };
    let (fwd, rev) = edge_costs(&t, Some(8_000), 1_234);
    assert_eq!(fwd, rev);
}

#[test]
fn cost_is_strictly_positive_even_for_zero_length() {
    let t = untagged();
    assert_eq!(edge_costs(&t, None, 0), (1, 1));
}
