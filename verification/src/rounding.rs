use vstd::prelude::*;
use crate::geom::{coord_ok, latlng_ok, LatLng, MAX_COORD};
use crate::track::{all_tracks_ok, track_ok, tracks_view, CoordsFile, TrackView};
use vstd::arithmetic::div_mod::{lemma_div_is_ordered, lemma_div_multiples_vanish_fancy};

verus! {

/// `v / m` rounded to the nearest integer, with halves away from zero.
/// `m` is the power of ten between the current scale and the wanted one,
/// so this is the coordinate rounder of the pipeline, stated over the
/// scaled-integer representation.
pub open spec fn round_val_spec(v: int, m: int) -> int {
    if v >= 0 {
        (v + m / 2) / m
    } else {
        -((-v + m / 2) / m)
    }
}

/// Rounds a scaled coordinate value to a coarser scale: dividing by
/// `m == 1000` takes a nine-digit value to six digits, `m == 100` takes
/// six digits to four.
pub fn round_val(v: i64, m: i64) -> (r: i64)
    requires
        1 <= m <= 1_000_000,
        coord_ok(v),
    ensures
        r == round_val_spec(v as int, m as int),
        coord_ok(r),
{
    let half: i64 = m / 2;
    if v >= 0 {
        let r = (v + half) / m;
        proof {
            lemma_round_quotient_bound(v as int, m as int);
        }
        r
    } else {
        let q = ((-v) + half) / m;
        proof {
            lemma_round_quotient_bound(-(v as int), m as int);
        }
        -q
    }
}

/// For `0 <= v <= MAX_COORD` the rounded quotient stays within
/// `MAX_COORD`, and within half of it once the scale really shrinks.
proof fn lemma_round_quotient_bound(v: int, m: int)
    requires
        1 <= m,
        0 <= v <= MAX_COORD,
    ensures
        0 <= (v + m / 2) / m <= MAX_COORD,
{
    let q = (v + m / 2) / m;
    assert(0 <= q) by {
        vstd::arithmetic::div_mod::lemma_div_pos_is_pos(v + m / 2, m);
    }
    if m == 1 {
        assert(q == v / 1);
        assert(q == v) by {
            lemma_div_multiples_vanish_fancy(v, 0, 1);
        }
    } else {
        // v + m/2 <= MAX_COORD + m/2 < (MAX_COORD/2 + 1) * m for m >= 2
        assert(q <= (MAX_COORD / 2 * m + (m - 1)) / m) by {
            assert(v + m / 2 <= MAX_COORD / 2 * m + (m - 1)) by (nonlinear_arith)
                requires
                    2 <= m,
                    0 <= v <= MAX_COORD,
            ;
            lemma_div_is_ordered(v + m / 2, MAX_COORD / 2 * m + (m - 1), m);
        }
        assert((MAX_COORD / 2 * m + (m - 1)) / m == MAX_COORD / 2) by {
            assert(MAX_COORD / 2 * m == m * (MAX_COORD / 2)) by (nonlinear_arith);
            lemma_div_multiples_vanish_fancy(MAX_COORD / 2, m - 1, m);
        }
    }
}

/// Law: the coordinate rounder is idempotent. A value already rounded
/// at some scale, re-expressed at the finer scale and rounded again,
/// comes back unchanged; so `round(round(x, d), d) == round(x, d)`.
pub proof fn lemma_round_val_idempotent(r: int, m: int)
    requires
        1 <= m,
    ensures
        round_val_spec(r * m, m) == r,
{
    if r >= 0 {
        assert(r * m >= 0) by (nonlinear_arith)
            requires
                r >= 0,
                m >= 1,
        ;
        assert((r * m + m / 2) / m == r) by {
            assert(r * m + m / 2 == m * r + m / 2) by (nonlinear_arith);
            lemma_div_multiples_vanish_fancy(r, m / 2, m);
        }
    } else {
        assert(r * m < 0) by (nonlinear_arith)
            requires
                r < 0,
                m >= 1,
        ;
        assert(-(r * m) == (-r) * m) by (nonlinear_arith);
        assert(((-r) * m + m / 2) / m == -r) by {
            assert((-r) * m + m / 2 == m * (-r) + m / 2) by (nonlinear_arith);
            lemma_div_multiples_vanish_fancy(-r, m / 2, m);
        }
    }
}

/// One point with both axes rounded from nine to six fractional digits.
pub open spec fn round_point_spec(p: LatLng) -> LatLng {
    LatLng {
        lat: round_val_spec(p.lat as int, 1000) as i64,
        lng: round_val_spec(p.lng as int, 1000) as i64,
    }
}

/// The rounding stage: every point of every track rounded to six
/// fractional digits; names and activity labels untouched.
pub open spec fn round_stage_spec(ts: Seq<TrackView>) -> Seq<TrackView> {
    ts.map_values(
        |t: TrackView|
            (TrackView {
                name: t.name,
                trk_type: t.trk_type,
                coords: t.coords.map_values(|p: LatLng| round_point_spec(p)),
            }),
    )
}

fn round_points(pts: &Vec<LatLng>) -> (r: Vec<LatLng>)
    requires
        forall|i: int| 0 <= i < pts@.len() ==> latlng_ok(#[trigger] pts@[i]),
    ensures
        r@ == pts@.map_values(|p: LatLng| round_point_spec(p)),
{
    let mut r: Vec<LatLng> = Vec::new();
    let mut i: usize = 0;
    while i < pts.len()
        invariant
            0 <= i <= pts@.len(),
            forall|j: int| 0 <= j < pts@.len() ==> latlng_ok(#[trigger] pts@[j]),
            r@ =~= pts@.subrange(0, i as int).map_values(|p: LatLng| round_point_spec(p)),
        decreases pts@.len() - i,
    {
        let p = pts[i];
        let q = LatLng { lat: round_val(p.lat, 1000), lng: round_val(p.lng, 1000) };
        r.push(q);
        proof {
            assert(pts@.subrange(0, i + 1 as int).map_values(|p: LatLng| round_point_spec(p))
                =~= pts@.subrange(0, i as int).map_values(|p: LatLng| round_point_spec(p)).push(
                round_point_spec(pts@[i as int]),
            ));
        }
        i += 1;
    }
    proof {
        assert(pts@.subrange(0, pts@.len() as int) =~= pts@);
    }
    r
}

/// The rounding stage, applied in place to every track of the batch.
pub fn round_values(parsed_files: &mut Vec<CoordsFile>)
    requires
        all_tracks_ok(tracks_view(old(parsed_files)@)),
    ensures
        tracks_view(final(parsed_files)@) == round_stage_spec(tracks_view(old(parsed_files)@)),
        all_tracks_ok(tracks_view(final(parsed_files)@)),
{
    let ghost orig = tracks_view(old(parsed_files)@);
    let mut i: usize = 0;
    while i < parsed_files.len()
        invariant
            0 <= i <= parsed_files@.len(),
            parsed_files@.len() == orig.len(),
            forall|j: int| i <= j < orig.len() ==> #[trigger] parsed_files@[j]@ == orig[j],
            forall|j: int| 0 <= j < i ==> #[trigger] parsed_files@[j]@ == round_stage_spec(orig)[j],
            all_tracks_ok(orig),
        decreases parsed_files@.len() - i,
    {
        proof {
            assert(parsed_files@[i as int]@ == orig[i as int]);
            assert(track_ok(orig[i as int]));
            assert(parsed_files@[i as int].coords@ == orig[i as int].coords);
            assert forall|k: int| 0 <= k < parsed_files@[i as int].coords@.len() implies latlng_ok(
                #[trigger] parsed_files@[i as int].coords@[k],
            ) by {
                assert(latlng_ok(orig[i as int].coords[k]));
            }
        }
        let newc = round_points(&parsed_files[i].coords);
        let f = &mut parsed_files[i];
        f.coords = newc;
        proof {
            assert(parsed_files@[i as int]@ == round_stage_spec(orig)[i as int]);
        }
        i += 1;
    }
    proof {
        assert(tracks_view(parsed_files@) =~= round_stage_spec(orig));
        assert forall|j: int| 0 <= j < tracks_view(parsed_files@).len() implies track_ok(
            #[trigger] tracks_view(parsed_files@)[j],
        ) by {
            assert(track_ok(orig[j]));
            assert forall|k: int|
                0 <= k < tracks_view(parsed_files@)[j].coords.len() implies latlng_ok(
                #[trigger] tracks_view(parsed_files@)[j].coords[k],
            ) by {
                assert(latlng_ok(orig[j].coords[k]));
                assert(tracks_view(parsed_files@)[j].coords[k] == round_point_spec(
                    orig[j].coords[k],
                ));
                lemma_round_point_ok(orig[j].coords[k]);
            }
        }
    }
}

/// Rounding keeps a point inside the coordinate bound.
proof fn lemma_round_point_ok(p: LatLng)
    requires
        latlng_ok(p),
    ensures
        latlng_ok(round_point_spec(p)),
{
    lemma_round_spec_ok(p.lat as int);
    lemma_round_spec_ok(p.lng as int);
}

proof fn lemma_round_spec_ok(v: int)
    requires
        -MAX_COORD <= v <= MAX_COORD,
    ensures
        -MAX_COORD <= round_val_spec(v, 1000) <= MAX_COORD,
{
    if v >= 0 {
        lemma_round_quotient_bound(v, 1000);
    } else {
        lemma_round_quotient_bound(-v, 1000);
    }
}

} // verus!
