use vstd::prelude::*;
use crate::geom::{latlng_ok, LatLng};

verus! {

/// One loaded track: the in-memory image of one accepted input file.
/// `name` identifies the source (and later the output artifact);
/// `trk_type` is the activity label, `None` when the file carried none;
/// `coords` is the point sequence in document order. Later stages only
/// shrink `coords` or round its values in place, never reorder or grow
/// it.
pub struct CoordsFile {
    pub name: String,
    pub trk_type: Option<String>,
    pub coords: Vec<LatLng>,
}

/// The mathematical image of a track, used by every stage contract.
pub struct TrackView {
    pub name: Seq<char>,
    pub trk_type: Option<Seq<char>>,
    pub coords: Seq<LatLng>,
}

pub open spec fn opt_str_view(o: Option<String>) -> Option<Seq<char>> {
    match o {
        Option::None => Option::None,
        Option::Some(s) => Option::Some(s@),
    }
}

impl View for CoordsFile {
    type V = TrackView;

    open spec fn view(&self) -> TrackView {
        TrackView { name: self.name@, trk_type: opt_str_view(self.trk_type), coords: self.coords@ }
    }
}

/// The views of a whole batch, in processing order.
pub open spec fn tracks_view(ts: Seq<CoordsFile>) -> Seq<TrackView> {
    ts.map_values(|t: CoordsFile| t@)
}

pub open spec fn track_ok(t: TrackView) -> bool {
    forall|i: int| 0 <= i < t.coords.len() ==> latlng_ok(#[trigger] t.coords[i])
}

pub open spec fn all_tracks_ok(ts: Seq<TrackView>) -> bool {
    forall|i: int| 0 <= i < ts.len() ==> track_ok(#[trigger] ts[i])
}

/// Total number of points over a batch of tracks.
pub open spec fn total_points(ts: Seq<TrackView>) -> int
    decreases ts.len(),
{
    if ts.len() == 0 {
        0
    } else {
        total_points(ts.drop_last()) + ts.last().coords.len()
    }
}

proof fn lemma_total_points_nonneg(ts: Seq<TrackView>)
    ensures
        total_points(ts) >= 0,
    decreases ts.len(),
{
    if ts.len() > 0 {
        lemma_total_points_nonneg(ts.drop_last());
    }
}

/// Counts the points over all tracks, saturating at `usize::MAX`;
/// surfaced as progress output only.
pub fn count_points(parsed_files: &Vec<CoordsFile>) -> (sum: usize)
    ensures
        sum == if total_points(tracks_view(parsed_files@)) <= usize::MAX as int {
            total_points(tracks_view(parsed_files@))
        } else {
            usize::MAX as int
        },
{
    let mut sum: usize = 0;
    let mut i: usize = 0;
    proof {
        assert(tracks_view(parsed_files@.subrange(0, 0)) =~= Seq::<TrackView>::empty());
    }
    while i < parsed_files.len()
        invariant
            0 <= i <= parsed_files@.len(),
            sum == if total_points(tracks_view(parsed_files@.subrange(0, i as int))) <= usize::MAX as int {
                total_points(tracks_view(parsed_files@.subrange(0, i as int)))
            } else {
                usize::MAX as int
            },
        decreases parsed_files@.len() - i,
    {
        let ghost pre = tracks_view(parsed_files@.subrange(0, i as int));
        let ghost post = tracks_view(parsed_files@.subrange(0, i + 1 as int));
        proof {
            assert(post.drop_last() =~= pre);
            assert(post.last() == parsed_files@[i as int]@);
            lemma_total_points_nonneg(pre);
        }
        let n = parsed_files[i].coords.len();
        if sum > usize::MAX - n {
            sum = usize::MAX;
        } else {
            sum = sum + n;
        }
        i += 1;
    }
    proof {
        assert(parsed_files@.subrange(0, parsed_files@.len() as int) =~= parsed_files@);
    }
    sum
}

} // verus!
