use gpx_reduce::geom::LatLng;
use gpx_reduce::loader::{read_track, LoadSkip};
use gpx_reduce::pipeline::process_tracks;
use gpx_reduce::track::CoordsFile;

fn pt(lat: i64, lng: i64) -> LatLng {
    LatLng { lat, lng }
}

fn track(name: &str, ty: Option<&str>, coords: Vec<LatLng>) -> CoordsFile {
    CoordsFile { name: name.to_string(), trk_type: ty.map(|s| s.to_string()), coords }
}

fn points(files: &[CoordsFile], i: usize) -> Vec<(i64, i64)> {
    files[i].coords.iter().map(|p| (p.lat, p.lng)).collect()
}

fn gpx(ty: &str, pts: &[(&str, &str)]) -> String {
    let mut s = String::from("<gpx><trk><type>");
    s.push_str(ty);
    s.push_str("</type><trkseg>");
    for (lat, lon) in pts {
        s.push_str(&format!("<trkpt lat=\"{}\" lon=\"{}\"></trkpt>", lat, lon));
    }
    s.push_str("</trkseg></trk></gpx>");
    s
}

// raw nine-digit scale: whole degrees
fn deg(d: i64) -> i64 {
    d * 1_000_000_000
}

#[test]
fn end_to_end_redundant_track_dropped() {
    // track A has two points; track B's single point rounds to the same
    // coarse key as A's first point, so B is dropped and A keeps both
    // points (two points are never collinear-simplified)
    let mut files = vec![
        track("a.gpx", Some("walking"), vec![pt(deg(1), deg(1)), pt(deg(2), deg(2))]),
        track("b.gpx", Some("walking"), vec![pt(1_000_000_100, 1_000_000_100)]),
    ];
    process_tracks(&mut files);
    assert_eq!(files.len(), 1);
    assert_eq!(files[0].name, "a.gpx");
    assert_eq!(points(&files, 0), vec![(1_000_000, 1_000_000), (2_000_000, 2_000_000)]);
}

#[test]
fn end_to_end_collinear_point_removed() {
    // (0,1),(1,2),(2,3) lie exactly on a slope-one line: the middle one
    // goes; (5,9) breaks the line and stays
    let mut files = vec![track(
        "a.gpx",
        Some("walking"),
        vec![pt(deg(0), deg(1)), pt(deg(1), deg(2)), pt(deg(2), deg(3)), pt(deg(5), deg(9))],
    )];
    process_tracks(&mut files);
    assert_eq!(files.len(), 1);
    assert_eq!(
        points(&files, 0),
        vec![(0, 1_000_000), (2_000_000, 3_000_000), (5_000_000, 9_000_000)]
    );
}

#[test]
fn end_to_end_sentinel_only_file_dropped() {
    // a file whose only point is the (0,0) sentinel loads as a track
    // with zero points, and a track with zero points has zero novel
    // points, so the filter drops it
    let text = gpx("walking", &[("0.0", "0.0")]);
    let t = read_track("only_zero.gpx".to_string(), &text).ok().unwrap();
    assert_eq!(t.coords.len(), 0);
    let mut files = vec![t];
    process_tracks(&mut files);
    assert_eq!(files.len(), 0);
}

#[test]
fn end_to_end_hiking_folds_into_walking() {
    // a hiking track behaves exactly like a walking one for grouping:
    // the walking track covering the same ground is dropped
    let hiking = read_track(
        "h.gpx".to_string(),
        &gpx("hiking", &[("1.0", "1.0")]),
    )
    .ok()
    .unwrap();
    assert_eq!(hiking.trk_type.as_deref(), Some("walking"));
    let walking = read_track(
        "w.gpx".to_string(),
        &gpx("walking", &[("1.0000001", "1.0000001")]),
    )
    .ok()
    .unwrap();
    let mut files = vec![hiking, walking];
    process_tracks(&mut files);
    assert_eq!(files.len(), 1);
    assert_eq!(files[0].name, "h.gpx");
}

#[test]
fn loader_reads_points_in_order() {
    let text = gpx("running", &[("51.329793", "6.5"), ("51.33", "-6.25")]);
    let t = read_track("r.gpx".to_string(), &text).ok().unwrap();
    assert_eq!(t.name, "r.gpx");
    assert_eq!(t.trk_type.as_deref(), Some("running"));
    let got: Vec<(i64, i64)> = t.coords.iter().map(|p| (p.lat, p.lng)).collect();
    assert_eq!(
        got,
        vec![(51_329_793_000, 6_500_000_000), (51_330_000_000, -6_250_000_000)]
    );
}

#[test]
fn loader_skips_invalid_points() {
    // missing lon, malformed lat, the sentinel, then one good point
    let text = "<gpx><trk><type>cycling</type><trkseg>\
        <trkpt lat=\"1.0\"></trkpt>\
        <trkpt lat=\"abc\" lon=\"2.0\"></trkpt>\
        <trkpt lat=\"0\" lon=\"0.000\"></trkpt>\
        <trkpt lat=\"3.5\" lon=\"4.5\"></trkpt>\
        </trkseg></trk></gpx>";
    let t = read_track("c.gpx".to_string(), text).ok().unwrap();
    let got: Vec<(i64, i64)> = t.coords.iter().map(|p| (p.lat, p.lng)).collect();
    assert_eq!(got, vec![(3_500_000_000, 4_500_000_000)]);
}

#[test]
fn loader_zero_on_one_axis_only_is_kept() {
    // the sentinel needs both axes exactly zero
    let text = gpx("walking", &[("0.0", "1.0")]);
    let t = read_track("z.gpx".to_string(), &text).ok().unwrap();
    let got: Vec<(i64, i64)> = t.coords.iter().map(|p| (p.lat, p.lng)).collect();
    assert_eq!(got, vec![(0, 1_000_000_000)]);
}

#[test]
fn loader_without_type_yields_unlabelled_track() {
    let text = "<gpx><trk><trkseg><trkpt lat=\"1\" lon=\"2\"></trkpt></trkseg></trk></gpx>";
    let t = read_track("n.gpx".to_string(), text).ok().unwrap();
    assert_eq!(t.trk_type, None);
    // and the filter later drops an unlabelled track
    let mut files = vec![t];
    process_tracks(&mut files);
    assert_eq!(files.len(), 0);
}

#[test]
fn loader_reports_unparseable_file() {
    let r = read_track("bad.gpx".to_string(), "<gpx><trk>");
    assert!(matches!(r, Err(LoadSkip::Unparseable(_))));
}

#[test]
fn loader_reports_missing_trk() {
    let r = read_track("no_trk.gpx".to_string(), "<gpx><rte></rte></gpx>");
    assert!(matches!(r, Err(LoadSkip::MissingTrk)));
}

#[test]
fn loader_reports_missing_trkseg() {
    let r = read_track(
        "no_seg.gpx".to_string(),
        "<gpx><trk><type>walking</type></trk></gpx>",
    );
    assert!(matches!(r, Err(LoadSkip::MissingTrkseg)));
}

#[test]
fn pipeline_runs_all_stages_in_order() {
    // duplicates collapse after rounding, then the collinear middle
    // point is removed from the survivor
    let mut files = vec![
        track(
            "a.gpx",
            Some("walking"),
            vec![
                pt(deg(1), deg(1)),
                pt(1_000_000_100, 1_000_000_100),  // rounds onto the previous point
                pt(deg(2), deg(2)),
                pt(deg(3), deg(3)),
            ],
        ),
        track("b.gpx", Some("bouldering"), vec![pt(deg(9), deg(9))]),
    ];
    process_tracks(&mut files);
    assert_eq!(files.len(), 1);
    assert_eq!(points(&files, 0), vec![(1_000_000, 1_000_000), (3_000_000, 3_000_000)]);
}

#[test]
fn pipeline_output_roundtrip() {
    // the writer consumes exactly what the pipeline leaves behind
    let mut files = vec![track(
        "a.gpx",
        Some("walking"),
        vec![pt(deg(0), deg(1)), pt(deg(1), deg(2)), pt(deg(2), deg(3)), pt(deg(5), deg(9))],
    )];
    process_tracks(&mut files);
    let out = gpx_reduce::output::output_content("a", &files[0].coords);
    assert_eq!(out, b"var a = [[0,1],[2,3],[5,9]];".to_vec());
}

#[test]
fn loader_skips_exponent_notation_points() {
    // only plain decimal attribute texts are numbers; exponent
    // notation counts as malformed and skips the point
    let text = gpx("walking", &[("1e-5", "2.0"), ("3.5", "4.5")]);
    let t = read_track("e.gpx".to_string(), &text).ok().unwrap();
    let got: Vec<(i64, i64)> = t.coords.iter().map(|p| (p.lat, p.lng)).collect();
    assert_eq!(got, vec![(3_500_000_000, 4_500_000_000)]);
}
