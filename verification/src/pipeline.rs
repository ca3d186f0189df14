use vstd::prelude::*;
use crate::dedup::{dedup_stage_spec, remove_duplicates};
use crate::novelty::{novelty_stage_spec, remove_files_without_new_points, surviving_upto, survives};
use crate::rounding::{round_stage_spec, round_values};
use crate::simplify::{remove_straight_line_points, simplify_stage_spec};
use crate::track::{all_tracks_ok, track_ok, tracks_view, CoordsFile, TrackView};

verus! {

/// The whole in-memory pipeline over the loaded batch, in its fixed
/// order: round every point to six digits, collapse consecutive
/// duplicates, drop the tracks that claim nothing new, and remove the
/// exactly-collinear interior points of the survivors.
pub open spec fn pipeline_spec(ts: Seq<TrackView>) -> Seq<TrackView> {
    simplify_stage_spec(novelty_stage_spec(dedup_stage_spec(round_stage_spec(ts))))
}

/// Every survivor of the novelty filter is one of the filtered tracks,
/// so their well-formedness carries over.
proof fn lemma_surviving_ok(ts: Seq<TrackView>, i: int)
    requires
        0 <= i <= ts.len(),
        all_tracks_ok(ts),
    ensures
        all_tracks_ok(surviving_upto(ts, i)),
    decreases i,
{
    if i > 0 {
        lemma_surviving_ok(ts, i - 1);
        let prev = surviving_upto(ts, i - 1);
        if survives(ts, i - 1) {
            assert(surviving_upto(ts, i) == prev + seq![ts[i - 1]]);
            assert forall|j: int| 0 <= j < surviving_upto(ts, i).len() implies track_ok(
                #[trigger] surviving_upto(ts, i)[j],
            ) by {
                if j < prev.len() {
                    assert(surviving_upto(ts, i)[j] == prev[j]);
                } else {
                    assert(surviving_upto(ts, i)[j] == ts[i - 1]);
                }
            }
        } else {
            assert(surviving_upto(ts, i) =~= prev);
        }
    }
}

/// Runs the pipeline in place. The batch must hold loaded tracks, whose
/// points are within the coordinate bound; what is left afterwards is
/// exactly what the staged specification says.
pub fn process_tracks(parsed_files: &mut Vec<CoordsFile>)
    requires
        all_tracks_ok(tracks_view(old(parsed_files)@)),
    ensures
        tracks_view(final(parsed_files)@) == pipeline_spec(tracks_view(old(parsed_files)@)),
{
    let ghost orig = tracks_view(old(parsed_files)@);
    round_values(parsed_files);
    remove_duplicates(parsed_files);
    proof {
        assert(tracks_view(parsed_files@) == dedup_stage_spec(round_stage_spec(orig)));
        assert(all_tracks_ok(tracks_view(parsed_files@)));
    }
    let ghost prepared = tracks_view(parsed_files@);
    remove_files_without_new_points(parsed_files);
    proof {
        lemma_surviving_ok(prepared, prepared.len() as int);
        assert(all_tracks_ok(tracks_view(parsed_files@)));
    }
    remove_straight_line_points(parsed_files);
}

} // verus!
