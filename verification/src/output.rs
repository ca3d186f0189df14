use vstd::prelude::*;
use crate::geom::{coord_ok, latlng_ok, LatLng};
use vstd::string::{StrSliceExecFns, StringSliceAdditionalSpecFns};

verus! {

/// The decimal digits of `n`, most significant first, as bytes.
pub open spec fn dec_digits(n: int) -> Seq<u8>
    decreases n,
    when n >= 0
{
    if n < 10 {
        seq![(48 + n) as u8]
    } else {
        dec_digits(n / 10).push((48 + n % 10) as u8)
    }
}

/// The last `d` decimal digits of `n`, zero padded to `d` bytes.
pub open spec fn pad_digits(n: int, d: int) -> Seq<u8>
    decreases d,
{
    if d <= 0 {
        Seq::empty()
    } else {
        pad_digits(n / 10, d - 1).push((48 + n % 10) as u8)
    }
}

/// A `d`-digit fraction with its trailing zeros trimmed; empty when the
/// fraction is all zeros.
pub open spec fn frac_digits_trimmed(f: int, d: int) -> Seq<u8>
    decreases d,
{
    if d <= 0 {
        Seq::empty()
    } else if f % 10 == 0 {
        frac_digits_trimmed(f / 10, d - 1)
    } else {
        pad_digits(f, d)
    }
}

/// The decimal text of one six-digit fixed-point coordinate, as the
/// writer emits it: optional minus, the integer part, and — only when
/// it is not zero — a dot and the fraction with trailing zeros trimmed.
pub open spec fn coord_text(v: int) -> Seq<u8> {
    let sign: Seq<u8> = if v < 0 {
        seq![45u8]  // '-'
    } else {
        Seq::empty()
    };
    let m = if v < 0 {
        -v
    } else {
        v
    };
    sign + dec_digits(m / 1_000_000) + (if m % 1_000_000 == 0 {
        Seq::<u8>::empty()
    } else {
        seq![46u8] + frac_digits_trimmed(m % 1_000_000, 6)  // '.' then fraction
    })
}

/// One coordinate pair: `[lat,lng]`.
pub open spec fn point_text(p: LatLng) -> Seq<u8> {
    seq![91u8] + coord_text(p.lat as int) + seq![44u8] + coord_text(p.lng as int) + seq![93u8]
}

/// All pairs joined by commas, with no trailing comma.
pub open spec fn coords_body(pts: Seq<LatLng>) -> Seq<u8>
    decreases pts.len(),
{
    if pts.len() == 0 {
        Seq::empty()
    } else if pts.len() == 1 {
        point_text(pts[0])
    } else {
        coords_body(pts.drop_last()) + seq![44u8] + point_text(pts.last())
    }
}

/// The whole output artifact for one track:
/// `var <name> = [<pairs>];`, with `[]` for a track without points.
pub open spec fn render_spec(var_name: Seq<u8>, pts: Seq<LatLng>) -> Seq<u8> {
    seq![118u8, 97u8, 114u8, 32u8]  // "var "
     + var_name + seq![32u8, 61u8, 32u8, 91u8]  // " = ["
     + coords_body(pts) + seq![93u8, 59u8]  // "];"
}

fn push_dec(out: &mut Vec<u8>, n: u64)
    ensures
        final(out)@ == old(out)@ + dec_digits(n as int),
    decreases n,
{
    if n < 10 {
        out.push(48 + n as u8);
        proof {
            assert(out@ =~= old(out)@ + dec_digits(n as int));
        }
    } else {
        push_dec(out, n / 10);
        out.push(48 + (n % 10) as u8);
        proof {
            assert(out@ =~= old(out)@ + dec_digits(n as int));
        }
    }
}

fn push_pad(out: &mut Vec<u8>, f: u64, d: u32)
    ensures
        final(out)@ == old(out)@ + pad_digits(f as int, d as int),
    decreases d,
{
    if d == 0 {
        proof {
            assert(out@ =~= old(out)@ + pad_digits(f as int, 0));
        }
    } else {
        push_pad(out, f / 10, d - 1);
        out.push(48 + (f % 10) as u8);
        proof {
            assert(out@ =~= old(out)@ + pad_digits(f as int, d as int));
        }
    }
}

fn push_frac(out: &mut Vec<u8>, f: u64, d: u32)
    ensures
        final(out)@ == old(out)@ + frac_digits_trimmed(f as int, d as int),
    decreases d,
{
    if d == 0 {
        proof {
            assert(out@ =~= old(out)@ + frac_digits_trimmed(f as int, 0));
        }
    } else if f % 10 == 0 {
        push_frac(out, f / 10, d - 1);
    } else {
        push_pad(out, f, d);
    }
}

fn push_coord(out: &mut Vec<u8>, v: i64)
    requires
        coord_ok(v),
    ensures
        final(out)@ == old(out)@ + coord_text(v as int),
{
    let m: u64 = if v < 0 {
        out.push(45);
        (-v) as u64
    } else {
        v as u64
    };
    let ghost mid = out@;
    push_dec(out, m / 1_000_000);
    let fp = m % 1_000_000;
    if fp != 0 {
        out.push(46);
        push_frac(out, fp, 6);
    }
    proof {
        assert(out@ =~= old(out)@ + coord_text(v as int));
    }
}

/// Builds the writer's output for one surviving track: the named array
/// literal of its final coordinate pairs, ready to be written out.
pub fn output_content(var_name: &str, coords: &Vec<LatLng>) -> (r: Vec<u8>)
    requires
        forall|i: int| 0 <= i < coords@.len() ==> latlng_ok(#[trigger] coords@[i]),
    ensures
        r@ == render_spec(var_name.spec_bytes(), coords@),
{
    let mut out: Vec<u8> = Vec::new();
    out.push(118);
    out.push(97);
    out.push(114);
    out.push(32);
    let mut nb = var_name.as_bytes_vec();
    out.append(&mut nb);
    out.push(32);
    out.push(61);
    out.push(32);
    out.push(91);
    let ghost head = seq![118u8, 97u8, 114u8, 32u8] + var_name.spec_bytes() + seq![
        32u8,
        61u8,
        32u8,
        91u8,
    ];
    proof {
        assert(out@ =~= head);
        assert(out@ =~= head + coords_body(coords@.subrange(0, 0)));
    }
    let mut i: usize = 0;
    while i < coords.len()
        invariant
            0 <= i <= coords@.len(),
            forall|k: int| 0 <= k < coords@.len() ==> latlng_ok(#[trigger] coords@[k]),
            out@ == head + coords_body(coords@.subrange(0, i as int)),
        decreases coords@.len() - i,
    {
        let ghost pre = coords@.subrange(0, i as int);
        let ghost post = coords@.subrange(0, i + 1 as int);
        proof {
            assert(post.drop_last() =~= pre);
            assert(post.last() == coords@[i as int]);
        }
        if i > 0 {
            out.push(44);
        }
        out.push(91);
        push_coord(&mut out, coords[i].lat);
        out.push(44);
        push_coord(&mut out, coords[i].lng);
        out.push(93);
        proof {
            if i == 0 {
                assert(post.len() == 1);
                assert(coords_body(post) == point_text(post[0]));
                assert(out@ =~= head + coords_body(post));
            } else {
                assert(coords_body(post) == coords_body(pre) + seq![44u8] + point_text(
                    post.last(),
                ));
                assert(out@ =~= head + coords_body(post));
            }
        }
        i += 1;
    }
    out.push(93);
    out.push(59);
    proof {
        assert(coords@.subrange(0, coords@.len() as int) =~= coords@);
        assert(out@ =~= render_spec(var_name.spec_bytes(), coords@));
    }
    out
}

} // verus!
