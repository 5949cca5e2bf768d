use veloinfo::codec::Coord;
use veloinfo::cost::Tags;
use veloinfo::get_start_buttons;
use veloinfo::locate::{locate, Node};
use veloinfo::panel::{photo_neighbors, PhotoScroll, PointPanel};
use veloinfo::ways::{concat_geometries, join_names, parse_way_ids, Way};

#[test]
fn start_buttons_are_not_editing() {
    assert!(!get_start_buttons().editing);
}

fn cand(node_id: i64, x: i64, y: i64) -> Node {
    Node { way_id: node_id * 10, geom: vec![], node_id, x, y }
}

#[test]
fn locate_returns_the_nearest_candidate() {
    let cands = vec![cand(1, 0, 0), cand(2, 30, 40)];
    assert_eq!(locate(&cands, 0, 0, 1_000), Some(0));
    assert_eq!(locate(&cands, 29, 40, 1_000), Some(1));
}

#[test]
fn locate_fails_outside_the_radius() {
    let cands = vec![cand(1, 0, 0), cand(2, 30, 40)];
    assert_eq!(locate(&cands, 100_000, 0, 1_000), None);
    assert_eq!(locate(&vec![], 0, 0, 1_000), None);
}

#[test]
fn locate_on_the_radius_boundary_succeeds() {
    let cands = vec![cand(1, 600, 800)];
    // Exactly 1000 units away.
    assert_eq!(locate(&cands, 0, 0, 1_000), Some(0));
    assert_eq!(locate(&cands, 0, 0, 999), None);
}

#[test]
fn sentinel_node_is_the_empty_way() {
    let n = veloinfo::locate::Node::sentinel();
    assert_eq!(n.way_id, 0);
    assert!(n.geom.is_empty());
    assert_eq!(n.node_id, 0);
}

#[test]
fn way_ids_are_the_digit_runs() {
    assert_eq!(parse_way_ids("way/123;456 789"), vec![123, 456, 789]);
    assert_eq!(parse_way_ids("42"), vec![42]);
    assert_eq!(parse_way_ids("no digits!"), Vec::<i64>::new());
    assert_eq!(parse_way_ids(""), Vec::<i64>::new());
}

#[test]
fn overlong_digit_runs_are_passed_over() {
    assert_eq!(parse_way_ids("1234567890123456789"), Vec::<i64>::new());
    assert_eq!(parse_way_ids("id 123456789012345678"), vec![123_456_789_012_345_678]);
}

fn way(way_id: i64, geom: Vec<Coord>) -> Way {
    Way { way_id, name: None, geom, source: 0, target: 0, tags: Tags::untagged() }
}

#[test]
fn selection_geometry_is_the_concatenation() {
    let a = Coord { x: 1, y: 2 };
    let b = Coord { x: 3, y: 4 };
    let c = Coord { x: 5, y: 6 };
    let ways = vec![way(1, vec![a, b]), way(2, vec![]), way(3, vec![c])];
    assert_eq!(concat_geometries(&ways), vec![a, b, c]);
}

#[test]
fn sentinel_way_is_empty() {
    let w = Way::sentinel();
    assert_eq!(w.way_id, 0);
    assert!(w.geom.is_empty());
    assert!(w.name.is_none());
}

#[test]
fn photo_neighbours_in_the_middle() {
    assert_eq!(photo_neighbors(&vec![1, 2, 3], 2), (Some(1), Some(3)));
}

#[test]
fn photo_neighbours_at_the_edges() {
    assert_eq!(photo_neighbors(&vec![1, 2, 3], 1), (None, Some(2)));
    assert_eq!(photo_neighbors(&vec![1, 2, 3], 3), (Some(2), None));
}

#[test]
fn photo_neighbours_of_an_absent_photo() {
    assert_eq!(photo_neighbors(&vec![1, 2, 3], 9), (None, None));
    assert_eq!(photo_neighbors(&vec![], 1), (None, None));
}

#[test]
fn photo_scroll_carries_the_selection() {
    let s = PhotoScroll::build(&vec![5, 6, 7], 6, String::from("6 7"));
    assert_eq!(s.photo, 6);
    assert_eq!(s.previous, Some(5));
    assert_eq!(s.next, Some(7));
    assert_eq!(s.way_ids, "6 7");
}

#[test]
fn point_panel_label() {
    let named = PointPanel::from_name(Some(String::from("rue des Erables")));
    assert_eq!(named.name, "rue des Erables");
    let unnamed = PointPanel::from_name(None);
    assert_eq!(unnamed.name, "");
}

#[test]
fn joined_names_keep_each_name_once() {
    let names = vec![
        Some(String::from("rue Oak")),
        None,
        Some(String::from("rue Oak")),
        Some(String::from("boulevard Pine")),
    ];
    assert_eq!(join_names(&names), " rue Oak boulevard Pine");
}

#[test]
fn joined_names_skip_a_name_contained_in_another() {
    // "Oak" already occurs inside "rue Oak", so it is not appended.
    let names = vec![Some(String::from("rue Oak")), Some(String::from("Oak"))];
    assert_eq!(join_names(&names), " rue Oak");
}

#[test]
fn joined_names_of_nothing_is_empty() {
    assert_eq!(join_names(&vec![]), "");
    assert_eq!(join_names(&vec![None, None]), "");
}
