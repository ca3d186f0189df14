use vstd::prelude::*;

verus! {

/// Largest magnitude a coordinate value may carry, in scaled units.
/// A raw coordinate is held at nine fractional decimal digits, so any
/// value below one billion degrees fits; the bound also keeps the
/// collinearity cross products inside `i128`.
pub const MAX_COORD: i64 = 1_000_000_000_000_000_000;

/// A geographic point. Both axes are decimal fixed-point values sharing
/// one scale: nine fractional digits as loaded, six after the rounding
/// stage. Equality is exact, which the dedup and collinearity stages
/// depend on.
#[derive(PartialEq, Eq, Structural, Clone, Copy, Debug)]
pub struct LatLng {
    pub lat: i64,
    pub lng: i64,
}

pub open spec fn coord_ok(v: i64) -> bool {
    -MAX_COORD <= v <= MAX_COORD
}

pub open spec fn latlng_ok(p: LatLng) -> bool {
    coord_ok(p.lat) && coord_ok(p.lng)
}

/// Exact collinearity of `c` with `a` and `b`: the cross product of
/// `a - c` and `b - c` is zero. No tolerance is applied; the rounding
/// stage quantizes coordinates first, which makes exact equality
/// meaningful here.
pub open spec fn in_line_spec(a: LatLng, b: LatLng, c: LatLng) -> bool {
    (a.lat - c.lat) * (c.lng - b.lng) == (c.lat - b.lat) * (a.lng - c.lng)
}

proof fn lemma_mul_bound(x: int, y: int, b: int)
    by (nonlinear_arith)
    requires
        0 <= b,
        -b <= x <= b,
        -b <= y <= b,
    ensures
        -b * b <= x * y <= b * b,
{
}

/// Decides whether `c` lies exactly on the line through `a` and `b`.
pub fn in_line(a: &LatLng, b: &LatLng, c: &LatLng) -> (r: bool)
    requires
        latlng_ok(*a),
        latlng_ok(*b),
        latlng_ok(*c),
    ensures
        r == in_line_spec(*a, *b, *c),
{
    let x1: i128 = a.lat as i128 - c.lat as i128;
    let y1: i128 = c.lng as i128 - b.lng as i128;
    let x2: i128 = c.lat as i128 - b.lat as i128;
    let y2: i128 = a.lng as i128 - c.lng as i128;
    proof {
        lemma_mul_bound(x1 as int, y1 as int, 2 * MAX_COORD);
        lemma_mul_bound(x2 as int, y2 as int, 2 * MAX_COORD);
    }
    x1 * y1 == x2 * y2
}

} // verus!
