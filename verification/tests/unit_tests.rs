use gpx_reduce::geom::{in_line, LatLng};
use gpx_reduce::novelty::{coarse_key, CoarseKey};
use gpx_reduce::output::output_content;
use gpx_reduce::parse_num::parse_coord;
use gpx_reduce::rounding::round_val;
use gpx_reduce::track::{count_points, CoordsFile};

fn pt(lat: i64, lng: i64) -> LatLng {
    LatLng { lat, lng }
}

#[test]
fn round_val_half_away_from_zero() {
    // 1500 at scale m=1000: exactly half rounds away from zero
    assert_eq!(round_val(1500, 1000), 2);
    assert_eq!(round_val(-1500, 1000), -2);
    assert_eq!(round_val(1499, 1000), 1);
    assert_eq!(round_val(-1499, 1000), -1);
    assert_eq!(round_val(2501, 1000), 3);
    assert_eq!(round_val(0, 1000), 0);
}

#[test]
fn round_val_nine_to_six_digits() {
    // 51.329793499 degrees at nine digits -> 51.329793 at six
    assert_eq!(round_val(51_329_793_499, 1000), 51_329_793);
    // 51.3297935 rounds up
    assert_eq!(round_val(51_329_793_500, 1000), 51_329_794);
}

#[test]
fn round_val_idempotent_concrete() {
    // re-rounding an already rounded value changes nothing
    let r = round_val(51_329_793_499, 1000);
    assert_eq!(round_val(r * 1000, 1000), r);
    let r2 = round_val(-7_777_777, 100);
    assert_eq!(round_val(r2 * 100, 100), r2);
}

#[test]
fn coarse_key_four_digits() {
    // 51.329793 at six digits -> 51.3298 at four
    let k: CoarseKey = coarse_key(&pt(51_329_793, -1_234_567));
    assert_eq!(k.lat, 513_298);
    assert_eq!(k.lng, -12_346);
}

#[test]
fn in_line_exact_collinear() {
    // slope one, exactly collinear: middle point c between a and b
    assert!(in_line(&pt(0, 1), &pt(2, 3), &pt(1, 2)));
    // not collinear
    assert!(!in_line(&pt(0, 0), &pt(2, 2), &pt(1, 2)));
    // degenerate: endpoints equal always count as in line
    assert!(in_line(&pt(5, 5), &pt(5, 5), &pt(9, 1)));
}

#[test]
fn parse_coord_plain_values() {
    assert_eq!(parse_coord("1.5"), Some(1_500_000_000));
    assert_eq!(parse_coord("51.329793"), Some(51_329_793_000));
    assert_eq!(parse_coord("-0.5"), Some(-500_000_000));
    assert_eq!(parse_coord("0.0"), Some(0));
    assert_eq!(parse_coord("0"), Some(0));
    assert_eq!(parse_coord("+7"), Some(7_000_000_000));
    assert_eq!(parse_coord("120"), Some(120_000_000_000));
    assert_eq!(parse_coord("1."), Some(1_000_000_000));
    assert_eq!(parse_coord(".25"), Some(250_000_000));
}

#[test]
fn parse_coord_rounds_tenth_digit_half_away() {
    assert_eq!(parse_coord("0.0000000005"), Some(1));
    assert_eq!(parse_coord("0.0000000004"), Some(0));
    assert_eq!(parse_coord("-0.0000000005"), Some(-1));
    assert_eq!(parse_coord("0.12345678949"), Some(123_456_789));
}

#[test]
fn parse_coord_rejects_malformed() {
    assert_eq!(parse_coord(""), None);
    assert_eq!(parse_coord("-"), None);
    assert_eq!(parse_coord("."), None);
    assert_eq!(parse_coord("+."), None);
    assert_eq!(parse_coord("1.2.3"), None);
    assert_eq!(parse_coord("1e5"), None);
    assert_eq!(parse_coord("12a"), None);
    assert_eq!(parse_coord(" 1"), None);
    assert_eq!(parse_coord("NaN"), None);
}

#[test]
fn parse_coord_rejects_out_of_bound() {
    // magnitudes above one billion degrees do not fit the model
    assert_eq!(parse_coord("1000000001"), None);
    assert_eq!(parse_coord("1000000000"), Some(1_000_000_000_000_000_000));
    assert_eq!(parse_coord("1000000000.1"), None);
    assert_eq!(parse_coord("99999999999999999999999"), None);
}

#[test]
fn output_content_exact_text() {
    // six-digit values 1.5, 2, 3, 4.25
    let coords = vec![pt(1_500_000, 2_000_000), pt(3_000_000, 4_250_000)];
    let out = output_content("mytrack", &coords);
    assert_eq!(out, b"var mytrack = [[1.5,2],[3,4.25]];".to_vec());
}

#[test]
fn output_content_negative_and_zero_fraction() {
    let coords = vec![pt(-500_000, 51_329_793)];
    let out = output_content("t", &coords);
    assert_eq!(out, b"var t = [[-0.5,51.329793]];".to_vec());
}

#[test]
fn output_content_empty_track() {
    let coords: Vec<LatLng> = vec![];
    let out = output_content("empty", &coords);
    assert_eq!(out, b"var empty = [];".to_vec());
}

#[test]
fn count_points_sums_tracks() {
    let files = vec![
        CoordsFile {
            name: "a.gpx".to_string(),
            trk_type: Some("walking".to_string()),
            coords: vec![pt(1, 2), pt(3, 4)],
        },
        CoordsFile { name: "b.gpx".to_string(), trk_type: None, coords: vec![pt(5, 6)] },
    ];
    assert_eq!(count_points(&files), 3);
}
