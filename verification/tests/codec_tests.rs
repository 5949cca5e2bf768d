use veloinfo::codec::{decode, encode, encode_json, Coord};

fn c(x: i64, y: i64) -> Coord {
    Coord { x, y }
}

#[test]
fn decode_absent_input_is_empty() {
    assert_eq!(decode(None), vec![]);
}

#[test]
fn decode_empty_text_is_empty() {
    assert_eq!(decode(Some("")), vec![]);
}

#[test]
fn decode_malformed_text_is_empty_not_error() {
    assert_eq!(decode(Some("garbage")), vec![]);
    assert_eq!(decode(Some("1 2,")), vec![]);
    assert_eq!(decode(Some("1,2")), vec![]);
    assert_eq!(decode(Some("1 2 3")), vec![]);
}

#[test]
fn decode_wkt_linestring() {
    let got = decode(Some("LINESTRING(-73.5 45.51,-73.6 45.52)"));
    assert_eq!(got, vec![c(-73_500_000, 45_510_000), c(-73_600_000, 45_520_000)]);
}

#[test]
fn decode_bare_pairs() {
    let got = decode(Some("1 2,3 4"));
    assert_eq!(got, vec![c(1_000_000, 2_000_000), c(3_000_000, 4_000_000)]);
}

#[test]
fn decode_point_wrapper() {
    let got = decode(Some("POINT(0.25 -0.75)"));
    assert_eq!(got, vec![c(250_000, -750_000)]);
}

#[test]
fn decode_tolerates_short_fractions_and_signs() {
    let got = decode(Some("12.3 -4"));
    assert_eq!(got, vec![c(12_300_000, -4_000_000)]);
}

#[test]
fn decode_rejects_more_than_six_fraction_digits() {
    assert_eq!(decode(Some("1.1234567 0")), vec![]);
}

#[test]
fn encode_one_point() {
    let text = encode(&vec![c(-73_500_000, 45_510_000)]);
    assert_eq!(text, "-73.500000 45.510000");
}

#[test]
fn encode_two_points() {
    let text = encode(&vec![c(0, 0), c(1, -1)]);
    assert_eq!(text, "0.000000 0.000000,0.000001 -0.000001");
}

#[test]
fn encode_empty_is_empty_text() {
    assert_eq!(encode(&vec![]), "");
}

#[test]
fn decode_encode_round_trip() {
    let pts = vec![
        c(-73_512_345, 45_678_901),
        c(0, -1),
        c(180_000_000, -90_000_000),
        c(7, 1_000_000),
    ];
    let text = encode(&pts);
    assert_eq!(decode(Some(text.as_str())), pts);
}

#[test]
fn round_trip_of_empty_sequence() {
    let pts: Vec<Coord> = vec![];
    let text = encode(&pts);
    assert_eq!(decode(Some(text.as_str())), pts);
}

#[test]
fn json_form_for_the_map_client() {
    let text = encode_json(&vec![c(-73_500_000, 45_510_000), c(1_000_000, 2_000_000)]);
    assert_eq!(text, "[[-73.500000,45.510000],[1.000000,2.000000]]");
}

#[test]
fn json_form_of_empty_geometry() {
    assert_eq!(encode_json(&vec![]), "[]");
}
