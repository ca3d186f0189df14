use vstd::prelude::*;
use crate::geom::{latlng_ok, LatLng};
use crate::rounding::{round_val, round_val_spec};
use crate::track::{all_tracks_ok, opt_str_view, track_ok, tracks_view, CoordsFile, TrackView};

verus! {

/// A coarse coordinate: both axes of a six-digit point rounded to four
/// fractional digits. The novelty registry is keyed by these.
#[derive(PartialEq, Eq, Structural, Clone, Copy, Debug)]
pub struct CoarseKey {
    pub lat: i64,
    pub lng: i64,
}

pub open spec fn key_view(k: CoarseKey) -> (int, int) {
    (k.lat as int, k.lng as int)
}

/// The coarse key of a point, in the mathematical world.
pub open spec fn coarse_key_spec(p: LatLng) -> (int, int) {
    (round_val_spec(p.lat as int, 100), round_val_spec(p.lng as int, 100))
}

/// Computes the coarse key of a point.
pub fn coarse_key(p: &LatLng) -> (k: CoarseKey)
    requires
        latlng_ok(*p),
    ensures
        key_view(k) == coarse_key_spec(*p),
{
    CoarseKey { lat: round_val(p.lat, 100), lng: round_val(p.lng, 100) }
}

/// The set of coarse coordinates already claimed by earlier tracks.
/// Conceptually a set of coordinate pairs; held as a flat list scanned
/// on lookup, which matches the flat-key-lookup design. It only ever
/// grows while the filter stage runs and is discarded afterwards.
pub struct NoveltyRegistry {
    keys: Vec<CoarseKey>,
}

impl View for NoveltyRegistry {
    type V = Set<(int, int)>;

    closed spec fn view(&self) -> Set<(int, int)> {
        Set::new(
            |x: (int, int)|
                exists|j: int| 0 <= j < self.keys@.len() && x == key_view(#[trigger] self.keys@[j]),
        )
    }
}

impl NoveltyRegistry {
    /// A fresh registry claiming nothing.
    pub fn new() -> (r: NoveltyRegistry)
        ensures
            r@ == Set::<(int, int)>::empty(),
    {
        let r = NoveltyRegistry { keys: Vec::new() };
        proof {
            assert(r@ =~= Set::<(int, int)>::empty());
        }
        r
    }

    /// Whether the key's coordinate pair has been claimed already.
    pub fn contains(&self, k: &CoarseKey) -> (r: bool)
        ensures
            r == self@.contains(key_view(*k)),
    {
        let mut j: usize = 0;
        while j < self.keys.len()
            invariant
                0 <= j <= self.keys@.len(),
                forall|w: int| 0 <= w < j ==> key_view(#[trigger] self.keys@[w]) != key_view(*k),
            decreases self.keys@.len() - j,
        {
            if self.keys[j].lat == k.lat && self.keys[j].lng == k.lng {
                proof {
                    assert(key_view(self.keys@[j as int]) == key_view(*k));
                }
                return true;
            }
            j += 1;
        }
        proof {
            assert(!self@.contains(key_view(*k)));
        }
        false
    }

    /// Claims the key's coordinate pair; claiming an already-claimed
    /// pair changes nothing.
    pub fn insert(&mut self, k: CoarseKey)
        ensures
            final(self)@ == old(self)@.insert(key_view(k)),
    {
        let ghost pre = self.keys@;
        self.keys.push(k);
        proof {
            assert forall|x: (int, int)| self@.contains(x) <==> old(self)@.insert(
                key_view(k),
            ).contains(x) by {
                if self@.contains(x) {
                    let j = choose|j: int|
                        0 <= j < self.keys@.len() && x == key_view(#[trigger] self.keys@[j]);
                    if j < pre.len() {
                        assert(pre[j] == self.keys@[j]);
                        assert(old(self)@.contains(x));
                    } else {
                        assert(x == key_view(k));
                    }
                }
                if old(self)@.contains(x) {
                    let j = choose|j: int| 0 <= j < pre.len() && x == key_view(#[trigger] pre[j]);
                    assert(self.keys@[j] == pre[j]);
                }
                if x == key_view(k) {
                    assert(self.keys@[pre.len() as int] == k);
                }
            }
            assert(self@ =~= old(self)@.insert(key_view(k)));
        }
    }
}

/// The coarse keys of the first `n` points of a sequence.
pub open spec fn track_keys_upto(pts: Seq<LatLng>, n: int) -> Set<(int, int)>
    decreases n,
{
    if n <= 0 {
        Set::empty()
    } else {
        track_keys_upto(pts, n - 1).insert(coarse_key_spec(pts[n - 1]))
    }
}

/// All coarse keys of a track.
pub open spec fn track_keys(t: TrackView) -> Set<(int, int)> {
    track_keys_upto(t.coords, t.coords.len() as int)
}

pub proof fn lemma_track_keys_finite(pts: Seq<LatLng>, n: int)
    ensures
        track_keys_upto(pts, n).finite(),
    decreases n,
{
    if n > 0 {
        lemma_track_keys_finite(pts, n - 1);
    }
}

proof fn lemma_track_keys_elem(pts: Seq<LatLng>, n: int, x: (int, int))
    requires
        track_keys_upto(pts, n).contains(x),
    ensures
        exists|j: int| 0 <= j < n && coarse_key_spec(#[trigger] pts[j]) == x,
    decreases n,
{
    if n > 0 {
        if x == coarse_key_spec(pts[n - 1]) {
            assert(coarse_key_spec(pts[n - 1]) == x);
        } else {
            lemma_track_keys_elem(pts, n - 1, x);
        }
    }
}

/// Whether the track carries exactly this activity label.
pub open spec fn has_type(t: TrackView, ty: Seq<char>) -> bool {
    t.trk_type == Option::Some(ty)
}

/// The known activity classes the filter partitions by.
pub open spec fn known_type(t: TrackView) -> bool {
    has_type(t, "walking"@) || has_type(t, "running"@) || has_type(t, "cycling"@)
}

pub open spec fn type_of(t: TrackView) -> Seq<char> {
    match t.trk_type {
        Option::Some(ty) => ty,
        Option::None => Seq::empty(),
    }
}

/// The coarse coordinates claimed by the tracks before index `i` that
/// carry the label `ty` — the registry contents when track `i` comes up
/// in the pass over that label.
pub open spec fn claimed_upto(ts: Seq<TrackView>, ty: Seq<char>, i: int) -> Set<(int, int)>
    decreases i,
{
    if i <= 0 {
        Set::empty()
    } else {
        claimed_upto(ts, ty, i - 1).union(
            if has_type(ts[i - 1], ty) {
                track_keys(ts[i - 1])
            } else {
                Set::empty()
            },
        )
    }
}

/// Whether track `i` still contributes at least one unclaimed coarse
/// coordinate when its turn comes.
pub open spec fn contributes_novel(ts: Seq<TrackView>, i: int) -> bool {
    exists|j: int|
        0 <= j < ts[i].coords.len() && !claimed_upto(ts, type_of(ts[i]), i).contains(
            #[trigger] coarse_key_spec(ts[i].coords[j]),
        )
}

/// Whether track `i` survives the novelty filter: it carries a known
/// activity label and contributes a novel coarse coordinate.
pub open spec fn survives(ts: Seq<TrackView>, i: int) -> bool {
    known_type(ts[i]) && contributes_novel(ts, i)
}

/// The survivors among the first `i` tracks, in their original order.
pub open spec fn surviving_upto(ts: Seq<TrackView>, i: int) -> Seq<TrackView>
    decreases i,
{
    if i <= 0 {
        Seq::empty()
    } else {
        surviving_upto(ts, i - 1) + if survives(ts, i - 1) {
            seq![ts[i - 1]]
        } else {
            Seq::empty()
        }
    }
}

/// The novelty-filter stage over a whole batch.
pub open spec fn novelty_stage_spec(ts: Seq<TrackView>) -> Seq<TrackView> {
    surviving_upto(ts, ts.len() as int)
}

/// A surviving track stands in the filtered prefix from the point it
/// is taken on.
proof fn lemma_survivor_in_prefix(ts: Seq<TrackView>, i: int, j: int)
    requires
        0 <= i < j <= ts.len(),
        survives(ts, i),
    ensures
        surviving_upto(ts, j).contains(ts[i]),
    decreases j,
{
    if j == i + 1 {
        let prev = surviving_upto(ts, i);
        assert(surviving_upto(ts, j) == prev + seq![ts[i]]);
        assert(surviving_upto(ts, j)[prev.len() as int] == ts[i]);
    } else {
        lemma_survivor_in_prefix(ts, i, j - 1);
        let prev = surviving_upto(ts, j - 1);
        let w = choose|w: int| 0 <= w < prev.len() && prev[w] == ts[i];
        if survives(ts, j - 1) {
            assert(surviving_upto(ts, j)[w] == ts[i]);
        } else {
            assert(surviving_upto(ts, j) =~= prev);
        }
    }
}

/// Law: a track of a known class with any coarse coordinate not yet
/// claimed by the tracks before it is always retained: it survives, and
/// it stands among the filter's output tracks.
pub proof fn lemma_novel_track_retained(ts: Seq<TrackView>, i: int, j: int)
    requires
        0 <= i < ts.len(),
        known_type(ts[i]),
        0 <= j < ts[i].coords.len(),
        !claimed_upto(ts, type_of(ts[i]), i).contains(coarse_key_spec(ts[i].coords[j])),
    ensures
        survives(ts, i),
        novelty_stage_spec(ts).contains(ts[i]),
{
    lemma_survivor_in_prefix(ts, i, ts.len() as int);
}

/// Law: a track whose every coarse coordinate was already claimed by
/// the tracks processed before it is always dropped.
pub proof fn lemma_redundant_track_dropped(ts: Seq<TrackView>, i: int)
    requires
        0 <= i < ts.len(),
        forall|j: int|
            0 <= j < ts[i].coords.len() ==> claimed_upto(ts, type_of(ts[i]), i).contains(
                #[trigger] coarse_key_spec(ts[i].coords[j]),
            ),
    ensures
        !survives(ts, i),
{
}

/// Law: the registry grows monotonically as tracks are processed — the
/// claimed set at a later track includes the claimed set at any earlier
/// one, and the count of distinct claimed coordinates never decreases.
pub proof fn lemma_registry_monotonic(ts: Seq<TrackView>, ty: Seq<char>, i: int, j: int)
    requires
        0 <= i <= j,
    ensures
        claimed_upto(ts, ty, i).subset_of(claimed_upto(ts, ty, j)),
        claimed_upto(ts, ty, i).finite(),
        claimed_upto(ts, ty, j).finite(),
        claimed_upto(ts, ty, i).len() <= claimed_upto(ts, ty, j).len(),
    decreases j - i,
{
    lemma_claimed_finite(ts, ty, i);
    lemma_claimed_finite(ts, ty, j);
    if i < j {
        lemma_registry_monotonic(ts, ty, i, j - 1);
        assert(claimed_upto(ts, ty, j - 1).subset_of(claimed_upto(ts, ty, j)));
        vstd::set_lib::lemma_len_subset(claimed_upto(ts, ty, i), claimed_upto(ts, ty, j));
    }
}

pub proof fn lemma_claimed_finite(ts: Seq<TrackView>, ty: Seq<char>, i: int)
    ensures
        claimed_upto(ts, ty, i).finite(),
    decreases i,
{
    if i > 0 {
        lemma_claimed_finite(ts, ty, i - 1);
        if has_type(ts[i - 1], ty) {
            lemma_track_keys_finite(ts[i - 1].coords, ts[i - 1].coords.len() as int);
        }
    }
}

/// Whether the track's label equals `ty`.
fn type_matches(o: &Option<String>, ty: &str) -> (r: bool)
    ensures
        r == (opt_str_view(*o) == Option::Some(ty@)),
{
    let owned: String = ty.to_owned();
    match o {
        Option::Some(s) => *s == owned,
        Option::None => false,
    }
}

/// Scans one track's points against the registry, claiming every coarse
/// key; reports whether any key was new to the registry.
fn scan_track(pts: &Vec<LatLng>, reg: &mut NoveltyRegistry) -> (novel: bool)
    requires
        forall|k: int| 0 <= k < pts@.len() ==> latlng_ok(#[trigger] pts@[k]),
    ensures
        final(reg)@ == old(reg)@.union(track_keys_upto(pts@, pts@.len() as int)),
        novel == exists|j: int|
            0 <= j < pts@.len() && !old(reg)@.contains(#[trigger] coarse_key_spec(pts@[j])),
{
    let ghost before = reg@;
    let mut novel = false;
    let mut n: usize = 0;
    proof {
        assert(reg@ =~= before.union(track_keys_upto(pts@, 0)));
    }
    while n < pts.len()
        invariant
            0 <= n <= pts@.len(),
            forall|k: int| 0 <= k < pts@.len() ==> latlng_ok(#[trigger] pts@[k]),
            reg@ == before.union(track_keys_upto(pts@, n as int)),
            novel == exists|j: int|
                0 <= j < n && !before.contains(#[trigger] coarse_key_spec(pts@[j])),
        decreases pts@.len() - n,
    {
        let k = coarse_key(&pts[n]);
        let ghost kv = coarse_key_spec(pts@[n as int]);
        let present = reg.contains(&k);
        if !present {
            reg.insert(k);
            proof {
                assert(!before.contains(kv));
                assert(novel == exists|j: int|
                    0 <= j < n && !before.contains(#[trigger] coarse_key_spec(pts@[j])));
            }
            novel = true;
            proof {
                assert(!before.contains(coarse_key_spec(pts@[n as int])));
                assert(exists|j: int|
                    0 <= j < n + 1 && !before.contains(#[trigger] coarse_key_spec(pts@[j])));
                assert(reg@ =~= before.union(track_keys_upto(pts@, n + 1)));
            }
        } else {
            proof {
                if !before.contains(kv) {
                    // the key was claimed by an earlier point of this track
                    lemma_track_keys_elem(pts@, n as int, kv);
                    let w = choose|w: int|
                        0 <= w < n && coarse_key_spec(#[trigger] pts@[w]) == kv;
                    assert(!before.contains(coarse_key_spec(pts@[w])));
                }
                assert(novel == exists|j: int|
                    0 <= j < n + 1 && !before.contains(#[trigger] coarse_key_spec(pts@[j])));
                assert(reg@.insert(kv) =~= reg@);
                assert(reg@ =~= before.union(track_keys_upto(pts@, n + 1)));
            }
        }
        n += 1;
    }
    novel
}

/// One pass of the filter for one activity label: walks the batch in
/// order with a fresh registry and records, for every track of that
/// label, whether it survives.
fn novelty_pass(files: &Vec<CoordsFile>, keep_in: Vec<bool>, ty: &str) -> (keep: Vec<bool>)
    requires
        keep_in@.len() == files@.len(),
        ty@ == "walking"@ || ty@ == "running"@ || ty@ == "cycling"@,
        all_tracks_ok(tracks_view(files@)),
    ensures
        keep@.len() == files@.len(),
        forall|j: int|
            0 <= j < files@.len() && has_type(#[trigger] tracks_view(files@)[j], ty@)
                ==> keep@[j] == survives(tracks_view(files@), j),
        forall|j: int|
            0 <= j < files@.len() && !has_type(#[trigger] tracks_view(files@)[j], ty@)
                ==> keep@[j] == keep_in@[j],
{
    let ghost ts = tracks_view(files@);
    let ghost keep0 = keep_in@;
    let mut keep = keep_in;
    let mut reg = NoveltyRegistry::new();
    let mut i: usize = 0;
    proof {
        assert(reg@ =~= claimed_upto(ts, ty@, 0));
    }
    while i < files.len()
        invariant
            0 <= i <= files@.len(),
            keep@.len() == files@.len(),
            keep0.len() == files@.len(),
            ts == tracks_view(files@),
            ts.len() == files@.len(),
            ty@ == "walking"@ || ty@ == "running"@ || ty@ == "cycling"@,
            all_tracks_ok(tracks_view(files@)),
            reg@ == claimed_upto(ts, ty@, i as int),
            forall|j: int|
                0 <= j < i && has_type(#[trigger] ts[j], ty@) ==> keep@[j] == survives(ts, j),
            forall|j: int|
                0 <= j < files@.len() && !(0 <= j < i && has_type(ts[j], ty@))
                    ==> keep@[j] == #[trigger] keep0[j],
        decreases files@.len() - i,
    {
        proof {
            assert(ts[i as int] == files@[i as int]@);
        }
        let matches_ty = type_matches(&files[i].trk_type, ty);
        if matches_ty {
            proof {
                assert(has_type(ts[i as int], ty@));
                assert(type_of(ts[i as int]) == ty@);
                assert(track_ok(ts[i as int]));
                assert(files@[i as int].coords@ == ts[i as int].coords);
            }
            let novel = scan_track(&files[i].coords, &mut reg);
            proof {
                assert(novel == contributes_novel(ts, i as int));
                assert(known_type(ts[i as int]));
                assert(novel == survives(ts, i as int));
                assert(track_keys_upto(files@[i as int].coords@, files@[i as int].coords@.len() as int)
                    == track_keys(ts[i as int]));
                assert(reg@ =~= claimed_upto(ts, ty@, i + 1));
            }
            let ghost pre_keep = keep@;
            let slot = &mut keep[i];
            *slot = novel;
            proof {
                assert(keep@ =~= pre_keep.update(i as int, novel));
            }
        } else {
            proof {
                assert(!has_type(ts[i as int], ty@));
                assert(claimed_upto(ts, ty@, i as int).union(Set::empty()) =~= claimed_upto(
                    ts,
                    ty@,
                    i as int,
                ));
                assert(reg@ =~= claimed_upto(ts, ty@, i + 1));
            }
        }
        i += 1;
    }
    keep
}

/// The novelty-filter stage: processes tracks in batch order, one
/// independent pass per known activity class, then removes every track
/// that contributed no new coarse coordinate — whose points stay
/// claimed regardless — and every track without a known class,
/// preserving the order of the survivors.
pub fn remove_files_without_new_points(parsed_files: &mut Vec<CoordsFile>)
    requires
        all_tracks_ok(tracks_view(old(parsed_files)@)),
    ensures
        tracks_view(final(parsed_files)@) == novelty_stage_spec(tracks_view(old(parsed_files)@)),
{
    let ghost ts = tracks_view(old(parsed_files)@);
    let n = parsed_files.len();
    let mut keep: Vec<bool> = Vec::new();
    let mut z: usize = 0;
    while z < n
        invariant
            keep@.len() == z,
            0 <= z <= n,
            forall|j: int| 0 <= j < z ==> #[trigger] keep@[j] == false,
        decreases n - z,
    {
        keep.push(false);
        z += 1;
    }
    let keep = novelty_pass(parsed_files, keep, "walking");
    let keep = novelty_pass(parsed_files, keep, "running");
    let keep = novelty_pass(parsed_files, keep, "cycling");
    proof {
        reveal_strlit("walking");
        reveal_strlit("running");
        reveal_strlit("cycling");
        assert forall|j: int| 0 <= j < ts.len() implies #[trigger] keep@[j] == survives(ts, j) by {
            if known_type(ts[j]) {
                assert(has_type(ts[j], "walking"@) || has_type(ts[j], "running"@) || has_type(
                    ts[j],
                    "cycling"@,
                ));
            } else {
                assert(!survives(ts, j));
                assert(keep@[j] == false);
            }
        }
    }
    let mut out: Vec<CoordsFile> = Vec::new();
    let mut i: usize = 0;
    proof {
        assert(parsed_files@.subrange(0, n as int) =~= parsed_files@);
        assert(tracks_view(out@) =~= surviving_upto(ts, 0));
    }
    while i < n
        invariant
            0 <= i <= n,
            n == ts.len(),
            keep@.len() == n,
            parsed_files@.len() == n - i,
            forall|j: int| 0 <= j < n ==> #[trigger] keep@[j] == survives(ts, j),
            forall|j: int| 0 <= j < n - i ==> #[trigger] parsed_files@[j]@ == ts[i + j],
            tracks_view(out@) == surviving_upto(ts, i as int),
        decreases n - i,
    {
        let t = parsed_files.remove(0);
        proof {
            assert(t@ == ts[i as int]);
        }
        let ghost pre_out = tracks_view(out@);
        if keep[i] {
            out.push(t);
            proof {
                assert(tracks_view(out@) =~= pre_out.push(ts[i as int]));
                assert(surviving_upto(ts, i + 1) =~= surviving_upto(ts, i as int) + seq![
                    ts[i as int],
                ]);
                assert(tracks_view(out@) =~= surviving_upto(ts, i + 1));
            }
        } else {
            proof {
                assert(surviving_upto(ts, i + 1) =~= surviving_upto(ts, i as int));
            }
        }
        i += 1;
    }
    parsed_files.append(&mut out);
    proof {
        assert(tracks_view(parsed_files@) =~= novelty_stage_spec(ts));
    }
}

} // verus!
