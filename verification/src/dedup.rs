use vstd::prelude::*;
use crate::geom::LatLng;
use crate::track::{all_tracks_ok, track_ok, tracks_view, CoordsFile, TrackView};

verus! {

/// A point sequence with every immediately-consecutive duplicate
/// removed: of each maximal run of equal adjacent points only the first
/// survives. Points equal to a non-adjacent earlier point are kept.
pub open spec fn dedup_spec(s: Seq<LatLng>) -> Seq<LatLng>
    decreases s.len(),
{
    if s.len() <= 1 {
        s
    } else if s[s.len() - 2] == s[s.len() - 1] {
        dedup_spec(s.drop_last())
    } else {
        dedup_spec(s.drop_last()).push(s.last())
    }
}

/// The duplicate-collapse stage: each track deduplicated independently;
/// names and activity labels untouched.
pub open spec fn dedup_stage_spec(ts: Seq<TrackView>) -> Seq<TrackView> {
    ts.map_values(
        |t: TrackView|
            (TrackView { name: t.name, trk_type: t.trk_type, coords: dedup_spec(t.coords) }),
    )
}

/// Law: duplicate collapse is a no-op on a sequence with no
/// adjacent-equal points.
pub proof fn lemma_dedup_no_adjacent_noop(s: Seq<LatLng>)
    requires
        forall|i: int| 1 <= i < s.len() ==> #[trigger] s[i] != s[i - 1],
    ensures
        dedup_spec(s) == s,
    decreases s.len(),
{
    if s.len() > 1 {
        lemma_dedup_no_adjacent_noop(s.drop_last());
        assert(dedup_spec(s.drop_last()).push(s.last()) =~= s);
    }
}

/// Law: the output of duplicate collapse has no adjacent-equal points;
/// every maximal run of two or more equal adjacent points has been
/// reduced to one.
pub proof fn lemma_dedup_no_adjacent_output(s: Seq<LatLng>)
    ensures
        forall|i: int|
            1 <= i < dedup_spec(s).len() ==> #[trigger] dedup_spec(s)[i] != dedup_spec(s)[i - 1],
        s.len() > 0 ==> dedup_spec(s).len() > 0 && dedup_spec(s)[0] == s[0] && dedup_spec(
            s,
        ).last() == s.last(),
        dedup_spec(s).len() <= s.len(),
    decreases s.len(),
{
    if s.len() > 1 {
        lemma_dedup_no_adjacent_output(s.drop_last());
        assert(s.drop_last().last() == s[s.len() - 2]);
        if s[s.len() - 2] != s[s.len() - 1] {
            let d = dedup_spec(s.drop_last());
            assert(dedup_spec(s) == d.push(s.last()));
            assert(forall|i: int| 1 <= i < d.len() ==> #[trigger] d[i] != d[i - 1]);
            assert(d.last() == s[s.len() - 2]);
            assert forall|i: int| 1 <= i < dedup_spec(s).len() implies #[trigger] dedup_spec(s)[i]
                != dedup_spec(s)[i - 1] by {
                if i < d.len() {
                    assert(dedup_spec(s)[i] == d[i] && dedup_spec(s)[i - 1] == d[i - 1]);
                } else {
                    assert(dedup_spec(s)[i] == s.last());
                    assert(dedup_spec(s)[i - 1] == d.last());
                }
            }
        }
    }
}

/// Law: a run of one equal point repeated `k` times collapses to that
/// single point.
pub proof fn lemma_dedup_run_collapses(p: LatLng, k: int)
    requires
        k >= 1,
    ensures
        dedup_spec(Seq::new(k as nat, |i: int| p)) == seq![p],
    decreases k,
{
    let s = Seq::new(k as nat, |i: int| p);
    if k == 1 {
        assert(s =~= seq![p]);
    } else {
        lemma_dedup_run_collapses(p, k - 1);
        assert(s.drop_last() =~= Seq::new((k - 1) as nat, |i: int| p));
        assert(s[k - 2] == p && s[k - 1] == p);
        assert(dedup_spec(s) == dedup_spec(s.drop_last()));
    }
}

/// Removes immediately-consecutive duplicates from one point sequence.
fn dedup_points(pts: &Vec<LatLng>) -> (r: Vec<LatLng>)
    ensures
        r@ == dedup_spec(pts@),
{
    let mut r: Vec<LatLng> = Vec::new();
    let mut i: usize = 0;
    proof {
        assert(pts@.subrange(0, 0) =~= Seq::<LatLng>::empty());
    }
    while i < pts.len()
        invariant
            0 <= i <= pts@.len(),
            r@ == dedup_spec(pts@.subrange(0, i as int)),
        decreases pts@.len() - i,
    {
        let ghost pre = pts@.subrange(0, i as int);
        let ghost post = pts@.subrange(0, i + 1 as int);
        proof {
            assert(post.drop_last() =~= pre);
            assert(post.last() == pts@[i as int]);
        }
        if i == 0 {
            r.push(pts[i]);
            proof {
                assert(dedup_spec(post) =~= Seq::<LatLng>::empty().push(pts@[0]));
            }
        } else {
            let keep = pts[i] != pts[i - 1];
            proof {
                assert(post[post.len() - 2] == pts@[i - 1]);
            }
            if keep {
                r.push(pts[i]);
            }
        }
        i += 1;
    }
    proof {
        assert(pts@.subrange(0, pts@.len() as int) =~= pts@);
    }
    r
}

/// The duplicate-collapse stage, applied in place to every track.
pub fn remove_duplicates(parsed_files: &mut Vec<CoordsFile>)
    ensures
        tracks_view(final(parsed_files)@) == dedup_stage_spec(tracks_view(old(parsed_files)@)),
        all_tracks_ok(tracks_view(old(parsed_files)@)) ==> all_tracks_ok(
            tracks_view(final(parsed_files)@),
        ),
{
    let ghost orig = tracks_view(old(parsed_files)@);
    let mut i: usize = 0;
    while i < parsed_files.len()
        invariant
            0 <= i <= parsed_files@.len(),
            parsed_files@.len() == orig.len(),
            forall|j: int| i <= j < orig.len() ==> #[trigger] parsed_files@[j]@ == orig[j],
            forall|j: int| 0 <= j < i ==> #[trigger] parsed_files@[j]@ == dedup_stage_spec(orig)[j],
        decreases parsed_files@.len() - i,
    {
        proof {
            assert(parsed_files@[i as int]@ == orig[i as int]);
            assert(parsed_files@[i as int].coords@ == orig[i as int].coords);
        }
        let newc = dedup_points(&parsed_files[i].coords);
        let f = &mut parsed_files[i];
        f.coords = newc;
        proof {
            assert(parsed_files@[i as int]@ == dedup_stage_spec(orig)[i as int]);
        }
        i += 1;
    }
    proof {
        assert(tracks_view(parsed_files@) =~= dedup_stage_spec(orig));
        if all_tracks_ok(orig) {
            assert forall|j: int| 0 <= j < tracks_view(parsed_files@).len() implies track_ok(
                #[trigger] tracks_view(parsed_files@)[j],
            ) by {
                assert(track_ok(orig[j]));
                lemma_dedup_preserves_ok(orig[j].coords);
                let t = tracks_view(parsed_files@)[j];
                assert(t.coords == dedup_spec(orig[j].coords));
                assert forall|k: int| 0 <= k < t.coords.len() implies crate::geom::latlng_ok(
                    #[trigger] t.coords[k],
                ) by {
                    assert(orig[j].coords.contains(t.coords[k]));
                    let w = choose|w: int|
                        0 <= w < orig[j].coords.len() && orig[j].coords[w] == t.coords[k];
                    assert(crate::geom::latlng_ok(orig[j].coords[w]));
                }
            }
        }
    }
}

/// Every point of the deduplicated sequence is a point of the original,
/// so well-formedness carries over.
proof fn lemma_dedup_preserves_ok(s: Seq<LatLng>)
    ensures
        forall|i: int| 0 <= i < dedup_spec(s).len() ==> s.contains(#[trigger] dedup_spec(s)[i]),
    decreases s.len(),
{
    if s.len() > 1 {
        lemma_dedup_preserves_ok(s.drop_last());
        assert forall|i: int| 0 <= i < dedup_spec(s).len() implies s.contains(
            #[trigger] dedup_spec(s)[i],
        ) by {
            let d = dedup_spec(s.drop_last());
            if s[s.len() - 2] == s[s.len() - 1] || i < d.len() {
                assert(s.drop_last().contains(dedup_spec(s)[i]));
                let w = choose|k: int|
                    0 <= k < s.drop_last().len() && s.drop_last()[k] == dedup_spec(s)[i];
                assert(s[w] == dedup_spec(s)[i]);
            } else {
                assert(dedup_spec(s)[i] == s.last());
            }
        }
    }
}

} // verus!
