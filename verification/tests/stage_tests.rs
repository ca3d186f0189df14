use gpx_reduce::dedup::remove_duplicates;
use gpx_reduce::novelty::{CoarseKey, NoveltyRegistry};
use gpx_reduce::geom::LatLng;
use gpx_reduce::novelty::remove_files_without_new_points;
use gpx_reduce::rounding::round_values;
use gpx_reduce::simplify::remove_straight_line_points;
use gpx_reduce::track::CoordsFile;

fn pt(lat: i64, lng: i64) -> LatLng {
    LatLng { lat, lng }
}

fn track(name: &str, ty: Option<&str>, coords: Vec<LatLng>) -> CoordsFile {
    CoordsFile { name: name.to_string(), trk_type: ty.map(|s| s.to_string()), coords }
}

fn points(files: &[CoordsFile], i: usize) -> Vec<(i64, i64)> {
    files[i].coords.iter().map(|p| (p.lat, p.lng)).collect()
}

#[test]
fn round_values_rounds_every_point() {
    // nine-digit raw values become six-digit values
    let mut files = vec![track(
        "a.gpx",
        Some("walking"),
        vec![pt(1_000_000_100, 1_000_000_100), pt(51_329_793_500, -2_500)],
    )];
    round_values(&mut files);
    assert_eq!(points(&files, 0), vec![(1_000_000, 1_000_000), (51_329_794, -3)]);
}

#[test]
fn dedup_collapses_adjacent_runs() {
    // a run of three equal points collapses to one; the non-adjacent
    // repeat of the first point stays
    let mut files = vec![track(
        "a.gpx",
        Some("walking"),
        vec![pt(1, 1), pt(2, 2), pt(2, 2), pt(2, 2), pt(1, 1)],
    )];
    remove_duplicates(&mut files);
    assert_eq!(points(&files, 0), vec![(1, 1), (2, 2), (1, 1)]);
}

#[test]
fn dedup_no_op_without_adjacent_equals() {
    let mut files = vec![track("a.gpx", Some("walking"), vec![pt(1, 1), pt(2, 2), pt(1, 1)])];
    remove_duplicates(&mut files);
    assert_eq!(points(&files, 0), vec![(1, 1), (2, 2), (1, 1)]);
}

#[test]
fn novelty_first_track_retained_second_dropped() {
    // both tracks claim exactly the same coarse coordinate
    let mut files = vec![
        track("a.gpx", Some("walking"), vec![pt(51_329_793, 6_000_000)]),
        track("b.gpx", Some("walking"), vec![pt(51_329_790, 6_000_001)]),
    ];
    remove_files_without_new_points(&mut files);
    assert_eq!(files.len(), 1);
    assert_eq!(files[0].name, "a.gpx");
}

#[test]
fn novelty_types_partitioned() {
    // the same ground covered by a cycling track does not suppress a
    // running track
    let mut files = vec![
        track("a.gpx", Some("cycling"), vec![pt(51_329_793, 6_000_000)]),
        track("b.gpx", Some("running"), vec![pt(51_329_793, 6_000_000)]),
    ];
    remove_files_without_new_points(&mut files);
    assert_eq!(files.len(), 2);
}

#[test]
fn novelty_unknown_type_dropped() {
    let mut files = vec![
        track("a.gpx", Some("swimming"), vec![pt(1_000_000, 1_000_000)]),
        track("b.gpx", None, vec![pt(2_000_000, 2_000_000)]),
        track("c.gpx", Some("walking"), vec![pt(3_000_000, 3_000_000)]),
    ];
    remove_files_without_new_points(&mut files);
    assert_eq!(files.len(), 1);
    assert_eq!(files[0].name, "c.gpx");
}

#[test]
fn novelty_partially_novel_track_survives_and_claims() {
    // b repeats a's point but adds one of its own, so b survives; c then
    // finds its only point already claimed by b and is dropped
    let mut files = vec![
        track("a.gpx", Some("walking"), vec![pt(1_000_000, 1_000_000)]),
        track(
            "b.gpx",
            Some("walking"),
            vec![pt(1_000_000, 1_000_000), pt(2_000_000, 2_000_000)],
        ),
        track("c.gpx", Some("walking"), vec![pt(2_000_000, 2_000_000)]),
    ];
    remove_files_without_new_points(&mut files);
    let names: Vec<&str> = files.iter().map(|f| f.name.as_str()).collect();
    assert_eq!(names, vec!["a.gpx", "b.gpx"]);
}

#[test]
fn novelty_redundant_track_claims_for_later_ones() {
    // b is entirely redundant and is dropped; its points are still
    // claimed, but they add nothing new here
    let mut files = vec![
        track("a.gpx", Some("walking"), vec![pt(1_000_000, 1_000_000), pt(2_000_000, 2_000_000)]),
        track("b.gpx", Some("walking"), vec![pt(1_000_001, 1_000_001)]),
        track("c.gpx", Some("walking"), vec![pt(3_000_000, 3_000_000)]),
    ];
    remove_files_without_new_points(&mut files);
    let names: Vec<&str> = files.iter().map(|f| f.name.as_str()).collect();
    assert_eq!(names, vec!["a.gpx", "c.gpx"]);
}

#[test]
fn novelty_empty_track_dropped() {
    // zero points means zero novel points
    let mut files = vec![track("a.gpx", Some("walking"), vec![])];
    remove_files_without_new_points(&mut files);
    assert_eq!(files.len(), 0);
}

#[test]
fn simplify_removes_collinear_interior_point() {
    let mut files = vec![track(
        "a.gpx",
        Some("walking"),
        vec![pt(0, 1), pt(1, 2), pt(2, 3), pt(5, 9)],
    )];
    remove_straight_line_points(&mut files);
    assert_eq!(points(&files, 0), vec![(0, 1), (2, 3), (5, 9)]);
}

#[test]
fn simplify_rechecks_same_index_after_removal() {
    // five collinear points collapse to the two endpoints, because the
    // index is re-checked after each removal
    let mut files = vec![track(
        "a.gpx",
        Some("walking"),
        vec![pt(0, 0), pt(1, 1), pt(2, 2), pt(3, 3), pt(4, 4)],
    )];
    remove_straight_line_points(&mut files);
    assert_eq!(points(&files, 0), vec![(0, 0), (4, 4)]);
}

#[test]
fn simplify_keeps_short_tracks() {
    let mut files = vec![
        track("a.gpx", Some("walking"), vec![pt(1, 1), pt(2, 2)]),
        track("b.gpx", Some("walking"), vec![pt(7, 7)]),
        track("c.gpx", Some("walking"), vec![]),
    ];
    remove_straight_line_points(&mut files);
    assert_eq!(points(&files, 0), vec![(1, 1), (2, 2)]);
    assert_eq!(points(&files, 1), vec![(7, 7)]);
    assert_eq!(points(&files, 2), vec![]);
}

#[test]
fn simplify_keeps_endpoints_and_never_grows() {
    let input = vec![pt(0, 0), pt(5, 5), pt(10, 10), pt(10, 20), pt(20, 40)];
    let mut files = vec![track("a.gpx", Some("walking"), input.clone())];
    remove_straight_line_points(&mut files);
    let out = points(&files, 0);
    assert!(out.len() <= input.len());
    assert_eq!(out[0], (0, 0));
    assert_eq!(*out.last().unwrap(), (20, 40));
}

#[test]
fn simplify_twice_matches_once_on_plain_track() {
    let input = vec![pt(0, 1), pt(1, 2), pt(2, 3), pt(5, 9), pt(6, 0)];
    let mut files = vec![track("a.gpx", Some("walking"), input)];
    remove_straight_line_points(&mut files);
    let once = points(&files, 0);
    remove_straight_line_points(&mut files);
    assert_eq!(points(&files, 0), once);
}

#[test]
fn simplify_degenerate_revisit_is_not_idempotent() {
    // a track that revisits the point two places back leaves a
    // degenerate triple behind, so a second run still removes a point;
    // such inputs are exactly the ones the idempotence law excludes
    let mut files = vec![track(
        "a.gpx",
        Some("walking"),
        vec![pt(0, 0), pt(0, 1), pt(1, 1), pt(0, 1)],
    )];
    remove_straight_line_points(&mut files);
    assert_eq!(points(&files, 0), vec![(0, 0), (0, 1), (0, 1)]);
    remove_straight_line_points(&mut files);
    assert_eq!(points(&files, 0), vec![(0, 0), (0, 1)]);
}

#[test]
fn registry_grows_monotonically() {
    let mut reg = NoveltyRegistry::new();
    let a = CoarseKey { lat: 10, lng: 20 };
    let b = CoarseKey { lat: 30, lng: 40 };
    assert!(!reg.contains(&a));
    reg.insert(a);
    assert!(reg.contains(&a));
    // later insertions never remove what was claimed
    reg.insert(b);
    reg.insert(a);
    assert!(reg.contains(&a));
    assert!(reg.contains(&b));
}
