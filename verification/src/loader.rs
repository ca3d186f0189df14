use vstd::prelude::*;
use crate::geom::{latlng_ok, LatLng, MAX_COORD};
use crate::parse_num::{parse_coord, parse_coord_spec};
use crate::track::{opt_str_view, track_ok, CoordsFile};

verus! {

// ---- trusted declarations for the XML library ----

#[verifier::external_type_specification]
#[verifier::external_body]
pub struct ExDocument<'input>(roxmltree::Document<'input>);

// The XML library's parse, and every navigation call on the parsed
// document, are functions of the input text alone. Each result is
// therefore given a name over the text (and, for per-node calls, over
// the node's plain id, which roxmltree exposes as a `u32`), and each
// wrapper's contract applies its name. All navigation logic — finding
// the track element, its label, its segment, its points — then runs in
// verified code over those names.

/// Whether the text parses as well-formed markup.
pub uninterp spec fn gpx_ok(text: Seq<char>) -> bool;

/// The ids of the parsed document's nodes, in document order.
pub uninterp spec fn xml_node_ids(text: Seq<char>) -> Seq<u32>;

/// The local tag name of the node; empty when the id names no element.
pub uninterp spec fn xml_tag(text: Seq<char>, id: u32) -> Seq<char>;

/// The ids of the node's children, in document order.
pub uninterp spec fn xml_child_ids(text: Seq<char>, id: u32) -> Seq<u32>;

/// The value of the node's attribute of that name, if present.
pub uninterp spec fn xml_attr(text: Seq<char>, id: u32, name: Seq<char>) -> Option<Seq<char>>;

/// The node's leading text content, if any.
pub uninterp spec fn xml_text(text: Seq<char>, id: u32) -> Option<Seq<char>>;

/// A parsed document kept beside the text it was parsed from, so that
/// the navigation wrappers can state their results over that text. The
/// fields are private and only `parse_gpx` constructs a value, which is
/// what ties the document to the text.
struct ParsedGpx<'i> {
    text: &'i str,
    doc: roxmltree::Document<'i>,
}

impl<'i> ParsedGpx<'i> {
    closed spec fn content(&self) -> Seq<char> {
        self.text@
    }
}

/// Relies on roxmltree::Document::parse_with_options (DTDs allowed):
/// whether the text parses, and what document results, depend on the
/// text alone; failure hands back the parse error's message.
#[verifier::external_body]
fn parse_gpx<'i>(text: &'i str) -> (r: Result<ParsedGpx<'i>, String>)
    ensures
        (r is Ok) == gpx_ok(text@),
        (r matches Ok(p) ==> p.content() == text@),
{
    let opt = roxmltree::ParsingOptions { allow_dtd: true, ..roxmltree::ParsingOptions::default() };
    match roxmltree::Document::parse_with_options(text, opt) {
        Ok(doc) => Ok(ParsedGpx { text, doc }),
        Err(e) => Err(format!("{}", e)),
    }
}

/// Relies on roxmltree::Node::descendants over Document::root, with
/// NodeId::get converting each node to its id: all nodes in document
/// order. Ids are `NonZeroU32` values less one, hence below `u32::MAX`.
#[verifier::external_body]
fn descendant_ids(p: &ParsedGpx<'_>) -> (r: Vec<u32>)
    ensures
        r@ == xml_node_ids(p.content()),
        forall|i: int| 0 <= i < r@.len() ==> #[trigger] r@[i] < u32::MAX,
{
    p.doc.root().descendants().map(|n| n.id().get()).collect()
}

/// Relies on roxmltree::Node::children (Document::get_node converts the
/// id back to a node; NodeId::get converts each child): the node's
/// children in document order, none when the id names no node. Ids are
/// below `u32::MAX` as above.
#[verifier::external_body]
fn child_ids(p: &ParsedGpx<'_>, id: u32) -> (r: Vec<u32>)
    requires
        id < u32::MAX,
    ensures
        r@ == xml_child_ids(p.content(), id),
        forall|i: int| 0 <= i < r@.len() ==> #[trigger] r@[i] < u32::MAX,
{
    match p.doc.get_node(roxmltree::NodeId::new(id)) {
        Some(n) => n.children().map(|c| c.id().get()).collect(),
        None => Vec::new(),
    }
}

/// Relies on roxmltree::Node::tag_name (via Document::get_node): the
/// local tag name, empty for non-elements and for absent ids.
#[verifier::external_body]
fn node_tag(p: &ParsedGpx<'_>, id: u32) -> (r: String)
    requires
        id < u32::MAX,
    ensures
        r@ == xml_tag(p.content(), id),
{
    match p.doc.get_node(roxmltree::NodeId::new(id)) {
        Some(n) => n.tag_name().name().to_owned(),
        None => String::new(),
    }
}

/// Relies on roxmltree::Node::attribute (via Document::get_node): the
/// named attribute's value, if the element carries it.
#[verifier::external_body]
fn node_attr(p: &ParsedGpx<'_>, id: u32, name: &str) -> (r: Option<String>)
    requires
        id < u32::MAX,
    ensures
        opt_str_view(r) == xml_attr(p.content(), id, name@),
{
    match p.doc.get_node(roxmltree::NodeId::new(id)) {
        Some(n) => n.attribute(name).map(|v| v.to_owned()),
        None => None,
    }
}

/// Relies on roxmltree::Node::text (via Document::get_node): the node's
/// leading text content, if any.
#[verifier::external_body]
fn node_text(p: &ParsedGpx<'_>, id: u32) -> (r: Option<String>)
    requires
        id < u32::MAX,
    ensures
        opt_str_view(r) == xml_text(p.content(), id),
{
    match p.doc.get_node(roxmltree::NodeId::new(id)) {
        Some(n) => n.text().map(|v| v.to_owned()),
        None => None,
    }
}

// ---- the track loader itself ----

/// Why a source file contributes no track: its text is not well-formed
/// markup, or the expected track or segment element is missing. All of
/// these skip the file without failing the batch.
pub enum LoadSkip {
    Unparseable(String),
    MissingTrk,
    MissingTrkseg,
}

/// One point element as found in the file: the raw attribute texts,
/// absent when the element does not carry them.
pub struct RawPoint {
    pub lat_text: Option<String>,
    pub lng_text: Option<String>,
}

/// One track as found in the file, before any validation: the raw type
/// label and the raw point attributes, in document order.
pub struct RawTrack {
    pub trk_type: Option<String>,
    pub points: Vec<RawPoint>,
}

// ---- what the file's text loads to, over the names above ----

/// The first id in `ids` carrying this element tag.
pub open spec fn first_with_tag(text: Seq<char>, ids: Seq<u32>, tag: Seq<char>) -> Option<u32>
    decreases ids.len(),
{
    if ids.len() == 0 {
        Option::None
    } else if xml_tag(text, ids[0]) == tag {
        Option::Some(ids[0])
    } else {
        first_with_tag(text, ids.drop_first(), tag)
    }
}

/// The first track element among the document's nodes.
pub open spec fn trk_of(text: Seq<char>) -> Option<u32> {
    first_with_tag(text, xml_node_ids(text), "trk"@)
}

/// The track's first type-label child, if any.
pub open spec fn trk_type_node_of(text: Seq<char>) -> Option<u32> {
    match trk_of(text) {
        Option::Some(t) => first_with_tag(text, xml_child_ids(text, t), "type"@),
        Option::None => Option::None,
    }
}

/// The raw activity label the file carries, before the synonym fold.
pub open spec fn raw_label_of(text: Seq<char>) -> Option<Seq<char>> {
    match trk_type_node_of(text) {
        Option::Some(ty) => xml_text(text, ty),
        Option::None => Option::None,
    }
}

/// The track's first segment child, if any.
pub open spec fn trkseg_of(text: Seq<char>) -> Option<u32> {
    match trk_of(text) {
        Option::Some(t) => first_with_tag(text, xml_child_ids(text, t), "trkseg"@),
        Option::None => Option::None,
    }
}

/// A file loads to a track exactly when it parses and holds a track
/// element with a segment.
pub open spec fn loads_ok(text: Seq<char>) -> bool {
    gpx_ok(text) && trk_of(text) is Some && trkseg_of(text) is Some
}

/// What one point element's attribute texts load to. Both must be
/// present and parse as plain decimal numbers; a pair that parses to
/// exactly (0, 0) is the missing-fix sentinel and loads to nothing, as
/// does a point with a missing or malformed axis. Only the plain
/// sign-digits-dot-digits form is a number here: an attribute in
/// exponent notation (`1e-5`) counts as malformed and skips the point,
/// a deliberate narrowing against general floating-point syntax.
pub open spec fn point_of_texts(lat: Option<Seq<char>>, lng: Option<Seq<char>>) -> Option<
    LatLng,
> {
    match (lat, lng) {
        (Option::Some(a), Option::Some(b)) => match (parse_coord_spec(a), parse_coord_spec(b)) {
            (Option::Some(la), Option::Some(lo)) => if la == 0 && lo == 0 {
                Option::None
            } else {
                Option::Some(LatLng { lat: la, lng: lo })
            },
            _ => Option::None,
        },
        _ => Option::None,
    }
}

/// The points loaded from the given segment children, invalid points
/// skipped, order kept.
pub open spec fn points_from(text: Seq<char>, kids: Seq<u32>) -> Seq<LatLng>
    decreases kids.len(),
{
    if kids.len() == 0 {
        Seq::empty()
    } else {
        let rest = points_from(text, kids.drop_last());
        match point_of_texts(
            xml_attr(text, kids.last(), "lat"@),
            xml_attr(text, kids.last(), "lon"@),
        ) {
            Option::Some(q) => rest.push(q),
            Option::None => rest,
        }
    }
}

/// The whole point sequence the file loads to.
pub open spec fn loaded_points_of(text: Seq<char>) -> Seq<LatLng> {
    match trkseg_of(text) {
        Option::Some(seg) => points_from(text, xml_child_ids(text, seg)),
        Option::None => Seq::empty(),
    }
}

/// What one raw point record loads to, in terms of its attribute texts.
pub open spec fn raw_point_spec(p: RawPoint) -> Option<LatLng> {
    point_of_texts(opt_str_view(p.lat_text), opt_str_view(p.lng_text))
}

/// The points a raw point list loads to, invalid points skipped, order
/// kept.
pub open spec fn loaded_points_spec(ps: Seq<RawPoint>) -> Seq<LatLng>
    decreases ps.len(),
{
    if ps.len() == 0 {
        Seq::empty()
    } else {
        let rest = loaded_points_spec(ps.drop_last());
        match raw_point_spec(ps.last()) {
            Option::Some(q) => rest.push(q),
            Option::None => rest,
        }
    }
}

/// The one label synonym: a track typed as hiking is treated as
/// walking; every other label is kept as it stands.
pub open spec fn fold_label_spec(v: Option<Seq<char>>) -> Option<Seq<char>> {
    if v == Option::Some("hiking"@) {
        Option::Some("walking"@)
    } else {
        v
    }
}

/// A raw point list whose attribute texts match the segment children's
/// attributes pointwise loads to the same point sequence.
proof fn lemma_points_correspond(text: Seq<char>, kids: Seq<u32>, ps: Seq<RawPoint>)
    requires
        ps.len() == kids.len(),
        forall|i: int|
            0 <= i < kids.len() ==> opt_str_view(#[trigger] ps[i].lat_text) == xml_attr(
                text,
                kids[i],
                "lat"@,
            ) && opt_str_view(ps[i].lng_text) == xml_attr(text, kids[i], "lon"@),
    ensures
        loaded_points_spec(ps) == points_from(text, kids),
    decreases kids.len(),
{
    if kids.len() > 0 {
        assert forall|i: int|
            0 <= i < kids.drop_last().len() implies opt_str_view(
            #[trigger] ps.drop_last()[i].lat_text,
        ) == xml_attr(text, kids.drop_last()[i], "lat"@) && opt_str_view(
            ps.drop_last()[i].lng_text,
        ) == xml_attr(text, kids.drop_last()[i], "lon"@) by {
            assert(ps.drop_last()[i] == ps[i]);
            assert(kids.drop_last()[i] == kids[i]);
        }
        lemma_points_correspond(text, kids.drop_last(), ps.drop_last());
        assert(opt_str_view(ps.last().lat_text) == xml_attr(text, kids.last(), "lat"@));
        assert(opt_str_view(ps.last().lng_text) == xml_attr(text, kids.last(), "lon"@));
    }
}

/// Every loaded point is within the coordinate bound and is not the
/// (0, 0) sentinel.
pub proof fn lemma_loaded_points_valid(ps: Seq<RawPoint>)
    ensures
        forall|i: int|
            0 <= i < loaded_points_spec(ps).len() ==> latlng_ok(#[trigger] loaded_points_spec(ps)[i])
                && !(loaded_points_spec(ps)[i].lat == 0 && loaded_points_spec(ps)[i].lng == 0),
    decreases ps.len(),
{
    if ps.len() > 0 {
        lemma_loaded_points_valid(ps.drop_last());
        let rest = loaded_points_spec(ps.drop_last());
        match raw_point_spec(ps.last()) {
            Option::Some(q) => {
                match (ps.last().lat_text, ps.last().lng_text) {
                    (Option::Some(a), Option::Some(b)) => {
                        lemma_parse_coord_ok(a@);
                        lemma_parse_coord_ok(b@);
                    },
                    _ => {},
                }
                assert(latlng_ok(q));
                assert(loaded_points_spec(ps) == rest.push(q));
                assert forall|i: int| 0 <= i < loaded_points_spec(ps).len() implies latlng_ok(
                    #[trigger] loaded_points_spec(ps)[i],
                ) && !(loaded_points_spec(ps)[i].lat == 0 && loaded_points_spec(ps)[i].lng
                    == 0) by {
                    if i < rest.len() {
                        assert(loaded_points_spec(ps)[i] == rest[i]);
                        assert(latlng_ok(rest[i]) && !(rest[i].lat == 0 && rest[i].lng == 0));
                    } else {
                        assert(loaded_points_spec(ps)[i] == q);
                    }
                }
            },
            Option::None => {
                assert(loaded_points_spec(ps) == rest);
                assert forall|i: int| 0 <= i < loaded_points_spec(ps).len() implies latlng_ok(
                    #[trigger] loaded_points_spec(ps)[i],
                ) && !(loaded_points_spec(ps)[i].lat == 0 && loaded_points_spec(ps)[i].lng
                    == 0) by {
                    assert(loaded_points_spec(ps)[i] == rest[i]);
                    assert(latlng_ok(rest[i]) && !(rest[i].lat == 0 && rest[i].lng == 0));
                }
            },
        }
    }
}

/// A parsed coordinate is always within the coordinate bound.
pub proof fn lemma_parse_coord_ok(s: Seq<char>)
    ensures
        (parse_coord_spec(s) matches Option::Some(v) ==> crate::geom::coord_ok(v)),
{
    if parse_coord_spec(s) is Some {
        let m = crate::parse_num::magnitude_e9(s);
        assert(0 <= m <= MAX_COORD as int) by {
            lemma_magnitude_nonneg(s);
        }
    }
}

proof fn lemma_magnitude_nonneg(s: Seq<char>)
    requires
        crate::parse_num::number_wf(s),
    ensures
        crate::parse_num::magnitude_e9(s) >= 0,
{
    crate::parse_num::lemma_magnitude_parts_nonneg(s);
}

fn parse_attr(t: &Option<String>) -> (r: Option<i64>)
    ensures
        r == (match *t {
            Option::Some(a) => parse_coord_spec(a@),
            Option::None => Option::None::<i64>,
        }),
{
    match t {
        Option::Some(a) => parse_coord(a.as_str()),
        Option::None => Option::None,
    }
}

/// Builds the in-memory track from what the file held: parses and
/// validates every point and folds the label synonym. This is the whole
/// of the loader's logic once the markup has been read.
pub fn build_track(name: String, raw: RawTrack) -> (t: CoordsFile)
    ensures
        t.name == name,
        opt_str_view(t.trk_type) == fold_label_spec(opt_str_view(raw.trk_type)),
        t.coords@ == loaded_points_spec(raw.points@),
{
    let mut coords: Vec<LatLng> = Vec::new();
    let mut i: usize = 0;
    proof {
        assert(raw.points@.subrange(0, 0) =~= Seq::<RawPoint>::empty());
        assert(coords@ =~= loaded_points_spec(raw.points@.subrange(0, 0)));
    }
    while i < raw.points.len()
        invariant
            0 <= i <= raw.points@.len(),
            coords@ == loaded_points_spec(raw.points@.subrange(0, i as int)),
        decreases raw.points@.len() - i,
    {
        let ghost pre = raw.points@.subrange(0, i as int);
        let ghost post = raw.points@.subrange(0, i + 1 as int);
        proof {
            assert(post.drop_last() =~= pre);
            assert(post.last() == raw.points@[i as int]);
        }
        let rp = &raw.points[i];
        let lat_opt = parse_attr(&rp.lat_text);
        let lng_opt = parse_attr(&rp.lng_text);
        match (lat_opt, lng_opt) {
            (Option::Some(lat), Option::Some(lng)) => {
                if !(lat == 0 && lng == 0) {
                    coords.push(LatLng { lat, lng });
                }
            },
            _ => {},
        }
        proof {
            assert(coords@ == loaded_points_spec(post));
        }
        i += 1;
    }
    proof {
        assert(raw.points@.subrange(0, raw.points@.len() as int) =~= raw.points@);
    }
    let trk_type = match raw.trk_type {
        Option::Some(s) => {
            let hiking: String = "hiking".to_owned();
            if s == hiking {
                Option::Some("walking".to_owned())
            } else {
                Option::Some(s)
            }
        },
        Option::None => Option::None,
    };
    CoordsFile { name, trk_type, coords }
}

/// Finds the first id in `ids` carrying this element tag.
fn find_first_tag(p: &ParsedGpx<'_>, ids: &Vec<u32>, tag: &str) -> (r: Option<u32>)
    requires
        forall|i: int| 0 <= i < ids@.len() ==> #[trigger] ids@[i] < u32::MAX,
    ensures
        r == first_with_tag(p.content(), ids@, tag@),
        (r matches Option::Some(v) ==> ids@.contains(v) && v < u32::MAX),
{
    let wanted: String = tag.to_owned();
    let mut k: usize = 0;
    proof {
        assert(ids@.skip(0) =~= ids@);
    }
    while k < ids.len()
        invariant
            0 <= k <= ids@.len(),
            forall|i: int| 0 <= i < ids@.len() ==> #[trigger] ids@[i] < u32::MAX,
            wanted@ == tag@,
            first_with_tag(p.content(), ids@.skip(k as int), tag@) == first_with_tag(
                p.content(),
                ids@,
                tag@,
            ),
        decreases ids@.len() - k,
    {
        let t = node_tag(p, ids[k]);
        proof {
            assert(ids@.skip(k as int)[0] == ids@[k as int]);
        }
        if t == wanted {
            proof {
                assert(first_with_tag(p.content(), ids@.skip(k as int), tag@) == Option::Some(
                    ids@[k as int],
                ));
            }
            return Option::Some(ids[k]);
        }
        proof {
            assert(ids@.skip(k as int).drop_first() =~= ids@.skip(k + 1));
        }
        k += 1;
    }
    proof {
        assert(ids@.skip(ids@.len() as int).len() == 0);
    }
    Option::None
}

/// Reads the raw track out of one file's text: the first track element
/// among the document's nodes, its first type label, and the attribute
/// texts of its first segment's children, exactly as the navigation
/// names say; or the reason the file is skipped.
pub fn extract_raw(text: &str) -> (r: Result<RawTrack, LoadSkip>)
    ensures
        (r is Ok) == loads_ok(text@),
        (r matches Result::Ok(raw) ==> {
            &&& opt_str_view(raw.trk_type) == raw_label_of(text@)
            &&& loaded_points_spec(raw.points@) == loaded_points_of(text@)
        }),
        (r matches Result::Err(LoadSkip::Unparseable(_))) <==> !gpx_ok(text@),
        (r matches Result::Err(LoadSkip::MissingTrk)) <==> (gpx_ok(text@) && trk_of(text@)
            is None),
        (r matches Result::Err(LoadSkip::MissingTrkseg)) <==> (gpx_ok(text@) && trk_of(text@)
            is Some && trkseg_of(text@) is None),
{
    let p = match parse_gpx(text) {
        Result::Ok(p) => p,
        Result::Err(e) => {
            return Result::Err(LoadSkip::Unparseable(e));
        },
    };
    proof {
        assert(p.content() == text@);
    }
    let all = descendant_ids(&p);
    let trk = match find_first_tag(&p, &all, "trk") {
        Option::Some(t) => t,
        Option::None => {
            return Result::Err(LoadSkip::MissingTrk);
        },
    };
    proof {
        assert(trk_of(text@) == Option::Some(trk));
    }
    let kids = child_ids(&p, trk);
    let trk_type = match find_first_tag(&p, &kids, "type") {
        Option::Some(ty) => node_text(&p, ty),
        Option::None => Option::None,
    };
    proof {
        assert(opt_str_view(trk_type) == raw_label_of(text@));
    }
    let seg = match find_first_tag(&p, &kids, "trkseg") {
        Option::Some(s) => s,
        Option::None => {
            return Result::Err(LoadSkip::MissingTrkseg);
        },
    };
    proof {
        assert(trkseg_of(text@) == Option::Some(seg));
    }
    let pts = child_ids(&p, seg);
    let mut points: Vec<RawPoint> = Vec::new();
    let mut i: usize = 0;
    while i < pts.len()
        invariant
            0 <= i <= pts@.len(),
            points@.len() == i,
            pts@ == xml_child_ids(p.content(), seg),
            p.content() == text@,
            forall|j: int| 0 <= j < pts@.len() ==> #[trigger] pts@[j] < u32::MAX,
            forall|j: int|
                0 <= j < i ==> opt_str_view(#[trigger] points@[j].lat_text) == xml_attr(
                    text@,
                    pts@[j],
                    "lat"@,
                ) && opt_str_view(points@[j].lng_text) == xml_attr(text@, pts@[j], "lon"@),
        decreases pts@.len() - i,
    {
        let lat_text = node_attr(&p, pts[i], "lat");
        let lng_text = node_attr(&p, pts[i], "lon");
        points.push(RawPoint { lat_text, lng_text });
        i += 1;
    }
    proof {
        lemma_points_correspond(text@, pts@, points@);
    }
    Result::Ok(RawTrack { trk_type, points })
}

/// Loads zero or one track from one file's text. It returns a track
/// exactly when the text parses as well-formed markup and holds a track
/// element with a segment; each skip reason names its own failure. The
/// returned track carries the name it was given, the file's points with
/// every invalid point and the (0, 0) sentinel skipped, and the file's
/// label with hiking folded to walking — so it never carries the hiking
/// label, its points are within the coordinate bound, and none of them
/// is the sentinel.
pub fn read_track(name: String, text: &str) -> (r: Result<CoordsFile, LoadSkip>)
    ensures
        (r is Ok) == loads_ok(text@),
        (r matches Result::Err(LoadSkip::Unparseable(_))) <==> !gpx_ok(text@),
        (r matches Result::Err(LoadSkip::MissingTrk)) <==> (gpx_ok(text@) && trk_of(text@)
            is None),
        (r matches Result::Err(LoadSkip::MissingTrkseg)) <==> (gpx_ok(text@) && trk_of(text@)
            is Some && trkseg_of(text@) is None),
        (r matches Result::Ok(t) ==> {
            &&& t.name@ == name@
            &&& t.coords@ == loaded_points_of(text@)
            &&& opt_str_view(t.trk_type) == fold_label_spec(raw_label_of(text@))
            &&& track_ok(t@)
            &&& opt_str_view(t.trk_type) != Option::Some("hiking"@)
            &&& forall|i: int|
                0 <= i < t.coords@.len() ==> !((#[trigger] t.coords@[i]).lat == 0
                    && t.coords@[i].lng == 0)
        }),
{
    match extract_raw(text) {
        Result::Ok(raw) => {
            let ghost rawg = raw;
            let t = build_track(name, raw);
            proof {
                lemma_loaded_points_valid(rawg.points@);
                reveal_strlit("hiking");
                reveal_strlit("walking");
                assert("walking"@.len() == 7);
                assert("hiking"@.len() == 6);
                if opt_str_view(rawg.trk_type) == Option::Some("hiking"@) {
                    assert(opt_str_view(t.trk_type) == Option::Some("walking"@));
                }
            }
            Result::Ok(t)
        },
        Result::Err(e) => Result::Err(e),
    }
}

} // verus!
