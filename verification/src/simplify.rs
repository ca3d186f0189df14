use vstd::prelude::*;
use crate::geom::{in_line, in_line_spec, latlng_ok, LatLng};
use crate::track::{all_tracks_ok, track_ok, tracks_view, CoordsFile, TrackView};

verus! {

/// The simplification scan from index `i` on: while three consecutive
/// points remain ahead, a middle point exactly collinear with its
/// neighbours is removed and the same index is re-checked against the
/// new configuration; otherwise the scan advances by one.
pub open spec fn simp_from(s: Seq<LatLng>, i: int) -> Seq<LatLng>
    decreases s.len() - i,
    when 0 <= i
{
    if i + 2 >= s.len() {
        s
    } else if in_line_spec(s[i], s[i + 2], s[i + 1]) {
        simp_from(s.remove(i + 1), i)
    } else {
        simp_from(s, i + 1)
    }
}

/// One track's simplified point sequence.
pub open spec fn simplify_spec(s: Seq<LatLng>) -> Seq<LatLng> {
    simp_from(s, 0)
}

/// The simplification stage over a whole batch.
pub open spec fn simplify_stage_spec(ts: Seq<TrackView>) -> Seq<TrackView> {
    ts.map_values(
        |t: TrackView|
            (TrackView { name: t.name, trk_type: t.trk_type, coords: simplify_spec(t.coords) }),
    )
}

/// No three consecutive points of `s` at or beyond index `i` are
/// exactly collinear.
pub open spec fn no_collinear_from(s: Seq<LatLng>, i: int) -> bool {
    forall|j: int|
        i <= j && j + 2 < s.len() ==> !#[trigger] in_line_spec(s[j], s[j + 2], s[j + 1])
}

/// No three consecutive points anywhere in `s` are exactly collinear.
pub open spec fn no_collinear_triple(s: Seq<LatLng>) -> bool {
    no_collinear_from(s, 0)
}

/// Law: simplification never removes an endpoint — the first and last
/// points survive — it only shortens the sequence, and every surviving
/// point is a point of the input.
pub proof fn lemma_simplify_shape(s: Seq<LatLng>, i: int)
    requires
        0 <= i,
    ensures
        simp_from(s, i).len() <= s.len(),
        s.len() > 0 ==> simp_from(s, i).len() > 0 && simp_from(s, i)[0] == s[0] && simp_from(
            s,
            i,
        ).last() == s.last(),
        forall|k: int| 0 <= k < simp_from(s, i).len() ==> s.contains(#[trigger] simp_from(s, i)[k]),
    decreases s.len() - i,
{
    if i + 2 >= s.len() {
        assert forall|k: int| 0 <= k < simp_from(s, i).len() implies s.contains(
            #[trigger] simp_from(s, i)[k],
        ) by {
            assert(s[k] == simp_from(s, i)[k]);
        }
    } else if in_line_spec(s[i], s[i + 2], s[i + 1]) {
        let t = s.remove(i + 1);
        lemma_simplify_shape(t, i);
        assert(t[0] == s[0]);
        assert(t.last() == s[s.len() - 1]);
        assert forall|k: int| 0 <= k < simp_from(s, i).len() implies s.contains(
            #[trigger] simp_from(s, i)[k],
        ) by {
            assert(t.contains(simp_from(s, i)[k]));
            let w = choose|w: int| 0 <= w < t.len() && t[w] == simp_from(s, i)[k];
            if w < i + 1 {
                assert(s[w] == simp_from(s, i)[k]);
            } else {
                assert(s[w + 1] == simp_from(s, i)[k]);
            }
        }
    } else {
        lemma_simplify_shape(s, i + 1);
    }
}

/// A scan over a stretch with no collinear triple changes nothing.
proof fn lemma_simp_from_noop(s: Seq<LatLng>, i: int)
    requires
        0 <= i,
        no_collinear_from(s, i),
    ensures
        simp_from(s, i) == s,
    decreases s.len() - i,
{
    if i + 2 < s.len() {
        assert(!in_line_spec(s[i], s[i + 2], s[i + 1]));
        lemma_simp_from_noop(s, i + 1);
    }
}

/// Law: simplification is idempotent on every input whose simplified
/// form is free of collinear consecutive triples — running it twice
/// yields what one run yields. (An input that leaves a degenerate
/// triple behind, such as a sequence that revisits the point two
/// places back, is excluded: its simplified form still changes.)
pub proof fn lemma_simplify_idempotent(s: Seq<LatLng>)
    requires
        no_collinear_triple(simplify_spec(s)),
    ensures
        simplify_spec(simplify_spec(s)) == simplify_spec(s),
{
    lemma_simp_from_noop(simplify_spec(s), 0);
}

/// A scan that still meets a collinear triple shortens the sequence.
proof fn lemma_simp_from_shrinks(s: Seq<LatLng>, i: int, j: int)
    requires
        0 <= i <= j,
        j + 2 < s.len(),
        in_line_spec(s[j], s[j + 2], s[j + 1]),
    ensures
        simp_from(s, i).len() < s.len(),
    decreases s.len() - i,
{
    if in_line_spec(s[i], s[i + 2], s[i + 1]) {
        lemma_simplify_shape(s.remove(i + 1), i);
    } else {
        assert(j != i);
        lemma_simp_from_shrinks(s, i + 1, j);
    }
}

/// The complement of the idempotence law's premise: on a sequence where
/// a collinear consecutive triple remains, another simplification run
/// still removes a point, so such sequences are never fixed points.
pub proof fn lemma_simplify_moves_on_collinear_triple(s: Seq<LatLng>)
    requires
        !no_collinear_triple(s),
    ensures
        simplify_spec(s) != s,
{
    let j = choose|j: int|
        0 <= j && j + 2 < s.len() && #[trigger] in_line_spec(s[j], s[j + 2], s[j + 1]);
    lemma_simp_from_shrinks(s, 0, j);
}

/// Simplifies one point sequence in place.
fn simplify_points(coords: &mut Vec<LatLng>)
    requires
        forall|k: int| 0 <= k < old(coords)@.len() ==> latlng_ok(#[trigger] old(coords)@[k]),
    ensures
        final(coords)@ == simplify_spec(old(coords)@),
{
    let mut i: usize = 0;
    while 2 < coords.len() - i
        invariant
            0 <= i <= coords@.len(),
            forall|k: int| 0 <= k < coords@.len() ==> latlng_ok(#[trigger] coords@[k]),
            simp_from(coords@, i as int) == simplify_spec(old(coords)@),
        decreases coords@.len() - i,
    {
        let a = coords[i];
        let b = coords[i + 2];
        let c = coords[i + 1];
        if in_line(&a, &b, &c) {
            let ghost pre = coords@;
            coords.remove(i + 1);
            proof {
                assert(coords@ =~= pre.remove(i + 1));
                assert(simp_from(pre, i as int) == simp_from(coords@, i as int));
                assert forall|k: int| 0 <= k < coords@.len() implies latlng_ok(
                    #[trigger] coords@[k],
                ) by {
                    if k < i + 1 {
                        assert(coords@[k] == pre[k]);
                    } else {
                        assert(coords@[k] == pre[k + 1]);
                    }
                }
            }
        } else {
            i += 1;
        }
    }
}

/// The simplification stage, applied in place to every surviving track.
pub fn remove_straight_line_points(parsed_files: &mut Vec<CoordsFile>)
    requires
        all_tracks_ok(tracks_view(old(parsed_files)@)),
    ensures
        tracks_view(final(parsed_files)@) == simplify_stage_spec(tracks_view(old(parsed_files)@)),
{
    let ghost orig = tracks_view(old(parsed_files)@);
    let mut i: usize = 0;
    while i < parsed_files.len()
        invariant
            0 <= i <= parsed_files@.len(),
            parsed_files@.len() == orig.len(),
            forall|j: int| i <= j < orig.len() ==> #[trigger] parsed_files@[j]@ == orig[j],
            forall|j: int|
                0 <= j < i ==> #[trigger] parsed_files@[j]@ == simplify_stage_spec(orig)[j],
            all_tracks_ok(orig),
        decreases parsed_files@.len() - i,
    {
        proof {
            assert(parsed_files@[i as int]@ == orig[i as int]);
            assert(track_ok(orig[i as int]));
            assert(parsed_files@[i as int].coords@ == orig[i as int].coords);
        }
        let f = &mut parsed_files[i];
        simplify_points(&mut f.coords);
        proof {
            assert(parsed_files@[i as int]@ == simplify_stage_spec(orig)[i as int]);
        }
        i += 1;
    }
    proof {
        assert(tracks_view(parsed_files@) =~= simplify_stage_spec(orig));
    }
}

} // verus!
