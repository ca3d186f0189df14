use vstd::prelude::*;
use crate::geom::{coord_ok, MAX_COORD};
use vstd::string::StrSliceExecFns;
use vstd::arithmetic::mul::{lemma_mul_is_associative, lemma_mul_nonnegative};

verus! {

pub open spec fn is_digit(c: char) -> bool {
    '0' <= c && c <= '9'
}

pub open spec fn digit_val(c: char) -> int {
    c as int - '0' as int
}

/// One leading `+` or `-` is allowed.
pub open spec fn sign_len(s: Seq<char>) -> int {
    if s.len() > 0 && (s[0] == '+' || s[0] == '-') {
        1
    } else {
        0
    }
}

pub open spec fn is_negative(s: Seq<char>) -> bool {
    s.len() > 0 && s[0] == '-'
}

/// The index of the first `.` at or after `from`; the length if none.
pub open spec fn dot_pos_from(s: Seq<char>, from: int) -> int
    decreases s.len() - from,
{
    if from >= s.len() {
        s.len() as int
    } else if s[from] == '.' {
        from
    } else {
        dot_pos_from(s, from + 1)
    }
}

pub open spec fn all_digits(s: Seq<char>, from: int, to: int) -> bool {
    forall|k: int| from <= k < to ==> is_digit(#[trigger] s[k])
}

pub open spec fn frac_len(s: Seq<char>) -> int {
    let d = dot_pos_from(s, sign_len(s));
    if d < s.len() {
        s.len() - d - 1
    } else {
        0
    }
}

/// A plain decimal number: an optional sign, digits, at most one dot,
/// at least one digit somewhere. Exponents and other notations are not
/// numbers here; an attribute that carries one is an invalid point.
pub open spec fn number_wf(s: Seq<char>) -> bool {
    let b = sign_len(s);
    let d = dot_pos_from(s, b);
    &&& all_digits(s, b, d)
    &&& all_digits(s, d + 1, s.len() as int)
    &&& (d - b) + frac_len(s) > 0
}

pub open spec fn pow10(k: int) -> int
    decreases k,
{
    if k <= 0 {
        1
    } else {
        10 * pow10(k - 1)
    }
}

/// The value of the digit run `s[from..to]`, read as a decimal integer.
pub open spec fn digits_val(s: Seq<char>, from: int, to: int) -> int
    decreases to - from,
{
    if to <= from {
        0
    } else {
        digits_val(s, from, to - 1) * 10 + digit_val(s[to - 1])
    }
}

/// The fraction digits `s[from..to]` scaled to nine decimal places,
/// rounding half away from zero at the tenth digit.
pub open spec fn frac_scaled(s: Seq<char>, from: int, to: int) -> int {
    if to - from <= 0 {
        0
    } else if to - from <= 9 {
        digits_val(s, from, to) * pow10(9 - (to - from))
    } else {
        digits_val(s, from, from + 9) + if digit_val(s[from + 9]) >= 5 {
            1int
        } else {
            0int
        }
    }
}

/// The magnitude of a well-formed number at nine fractional digits.
pub open spec fn magnitude_e9(s: Seq<char>) -> int {
    let b = sign_len(s);
    let d = dot_pos_from(s, b);
    let fs = if d < s.len() {
        frac_scaled(s, d + 1, s.len() as int)
    } else {
        0
    };
    digits_val(s, b, d) * 1_000_000_000 + fs
}

/// What a coordinate attribute parses to: the decimal value as a
/// nine-fractional-digit scaled integer, or nothing when the text is
/// not a plain decimal number or its magnitude exceeds the coordinate
/// bound.
pub open spec fn parse_coord_spec(s: Seq<char>) -> Option<i64> {
    if !number_wf(s) {
        Option::None
    } else if magnitude_e9(s) > MAX_COORD as int {
        Option::None
    } else if is_negative(s) {
        Option::Some((-magnitude_e9(s)) as i64)
    } else {
        Option::Some(magnitude_e9(s) as i64)
    }
}

proof fn lemma_pow10_pos(k: int)
    ensures
        pow10(k) >= 1,
    decreases k,
{
    if k > 0 {
        lemma_pow10_pos(k - 1);
    }
}

proof fn lemma_pow10_add(a: int, b: int)
    requires
        0 <= a,
        0 <= b,
    ensures
        pow10(a) * pow10(b) == pow10(a + b),
    decreases a,
{
    if a == 0 {
        assert(pow10(0) * pow10(b) == pow10(b));
    } else {
        lemma_pow10_add(a - 1, b);
        assert(pow10(a) == 10 * pow10(a - 1));
        lemma_mul_is_associative(10, pow10(a - 1), pow10(b));
        assert(pow10(a) * pow10(b) == 10 * (pow10(a - 1) * pow10(b)));
    }
}

proof fn lemma_digits_val_bounds(s: Seq<char>, from: int, to: int)
    requires
        all_digits(s, from, to),
    ensures
        0 <= digits_val(s, from, to) < pow10(to - from),
    decreases to - from,
{
    if to <= from {
        lemma_pow10_pos(to - from);
    } else {
        lemma_digits_val_bounds(s, from, to - 1);
        assert(is_digit(s[to - 1]));
        assert(0 <= digit_val(s[to - 1]) <= 9);
        assert(pow10(to - from) == 10 * pow10(to - from - 1));
    }
}

proof fn lemma_digits_val_mono(s: Seq<char>, from: int, to1: int, to2: int)
    requires
        from <= to1 <= to2,
        all_digits(s, from, to2),
    ensures
        digits_val(s, from, to2) >= digits_val(s, from, to1),
    decreases to2 - to1,
{
    if to1 < to2 {
        lemma_digits_val_mono(s, from, to1, to2 - 1);
        lemma_digits_val_bounds(s, from, to2 - 1);
        assert(0 <= digit_val(s[to2 - 1]));
    }
}

proof fn lemma_dot_pos_ge(s: Seq<char>, from: int)
    requires
        from <= s.len(),
    ensures
        dot_pos_from(s, from) >= from,
    decreases s.len() - from,
{
    if from < s.len() && s[from] != '.' {
        lemma_dot_pos_ge(s, from + 1);
    }
}

/// Skipping over non-dot characters does not move the first dot.
proof fn lemma_dot_pos_skip(s: Seq<char>, from: int, i: int)
    requires
        0 <= from <= i <= s.len(),
        forall|k: int| from <= k < i ==> #[trigger] s[k] != '.',
    ensures
        dot_pos_from(s, from) == dot_pos_from(s, i),
    decreases i - from,
{
    if from < i {
        lemma_dot_pos_skip(s, from + 1, i);
    }
}

proof fn lemma_frac_scaled_nonneg(s: Seq<char>, from: int, to: int)
    requires
        all_digits(s, from, to),
    ensures
        frac_scaled(s, from, to) >= 0,
{
    if to - from <= 0 {
    } else if to - from <= 9 {
        lemma_digits_val_bounds(s, from, to);
        lemma_pow10_pos(9 - (to - from));
        lemma_mul_nonnegative(digits_val(s, from, to), pow10(9 - (to - from)));
    } else {
        assert(all_digits(s, from, from + 9));
        lemma_digits_val_bounds(s, from, from + 9);
    }
}

/// A well-formed number's scaled magnitude is never negative.
pub proof fn lemma_magnitude_parts_nonneg(s: Seq<char>)
    requires
        number_wf(s),
    ensures
        magnitude_e9(s) >= 0,
{
    let b = sign_len(s);
    let d = dot_pos_from(s, b);
    lemma_digits_val_bounds(s, b, d);
    lemma_mul_nonnegative(digits_val(s, b, d), 1_000_000_000);
    if d < s.len() {
        lemma_frac_scaled_nonneg(s, d + 1, s.len() as int);
    }
}

/// Finds the end of the digit run starting at `from`.
fn digit_run_end(s: &str, n: usize, from: usize) -> (e: usize)
    requires
        n == s@.len(),
        from <= n,
    ensures
        from <= e <= n,
        all_digits(s@, from as int, e as int),
        e < n ==> !is_digit(s@[e as int]),
{
    let mut i = from;
    let mut stop = false;
    while !stop
        invariant
            from <= i <= n,
            n == s@.len(),
            all_digits(s@, from as int, i as int),
            stop ==> i == n || !is_digit(s@[i as int]),
        decreases n - i + (if stop { 0int } else { 1int }),
    {
        if i < n {
            let c = s.get_char(i);
            if c >= '0' && c <= '9' {
                proof {
                    assert(is_digit(s@[i as int]));
                    assert forall|k: int| from <= k < i + 1 implies is_digit(#[trigger] s@[k]) by {
                        if k < i {
                            assert(is_digit(s@[k]));
                        }
                    }
                }
                i += 1;
            } else {
                stop = true;
            }
        } else {
            stop = true;
        }
    }
    i
}

fn pow10_exec(k: u32) -> (r: u64)
    requires
        k <= 9,
    ensures
        r as int == pow10(k as int),
{
    proof {
        reveal_with_fuel(pow10, 11);
    }
    if k == 0 {
        1
    } else if k == 1 {
        10
    } else if k == 2 {
        100
    } else if k == 3 {
        1_000
    } else if k == 4 {
        10_000
    } else if k == 5 {
        100_000
    } else if k == 6 {
        1_000_000
    } else if k == 7 {
        10_000_000
    } else if k == 8 {
        100_000_000
    } else {
        1_000_000_000
    }
}

/// Parses a coordinate attribute into a nine-fractional-digit scaled
/// value. Exactly the plain decimal numbers are accepted, and only up
/// to the coordinate bound; anything else is an invalid point.
pub fn parse_coord(s: &str) -> (r: Option<i64>)
    ensures
        r == parse_coord_spec(s@),
        r matches Option::Some(v) ==> coord_ok(v),
{
    let ghost sv = s@;
    let n = s.unicode_len();
    let mut start: usize = 0;
    let mut neg = false;
    if n > 0 {
        let c0 = s.get_char(0);
        if c0 == '+' {
            start = 1;
        } else if c0 == '-' {
            neg = true;
            start = 1;
        }
    }
    proof {
        assert(sign_len(sv) == start as int);
        assert(is_negative(sv) == neg);
    }
    let int_end = digit_run_end(s, n, start);
    // accumulate the integer part, watching for the coordinate bound
    let mut i = start;
    let mut iv: u64 = 0;
    let mut toobig = false;
    while i < int_end
        invariant
            start <= i <= int_end <= n,
            n == sv.len(),
            sv == s@,
            start as int == sign_len(sv),
            all_digits(sv, start as int, int_end as int),
            !toobig ==> iv as int == digits_val(sv, start as int, i as int) && iv
                <= 1_000_000_000,
            toobig ==> digits_val(sv, start as int, i as int) > 1_000_000_000,
        decreases int_end - i,
    {
        let c = s.get_char(i);
        proof {
            assert(is_digit(sv[i as int]));
        }
        let d = (c as u32 - 48) as u64;
        proof {
            assert(d as int == digit_val(sv[i as int]));
            assert(digits_val(sv, start as int, i + 1) == digits_val(sv, start as int, i as int)
                * 10 + digit_val(sv[i as int]));
        }
        if toobig {
            proof {
                lemma_digits_val_bounds(sv, start as int, i as int);
            }
        } else {
            let next = iv * 10 + d;
            if next > 1_000_000_000 {
                toobig = true;
            } else {
                iv = next;
            }
        }
        i += 1;
    }
    // decide the shape of the rest, and the scaled fraction
    let fs: u64;
    let ghost d_ghost: int;
    if int_end == n {
        proof {
            assert forall|k: int| start <= k < n implies #[trigger] sv[k] != '.' by {
                assert(is_digit(sv[k]));
            }
            lemma_dot_pos_skip(sv, start as int, n as int);
            d_ghost = n as int;
            assert(dot_pos_from(sv, start as int) == n as int);
        }
        if int_end == start {
            proof {
                assert(!number_wf(sv));
            }
            return Option::None;
        }
        fs = 0;
    } else {
        let c = s.get_char(int_end);
        if c != '.' {
            // a character that is neither digit nor dot: not a number
            proof {
                assert forall|k: int| start <= k < int_end + 1 implies #[trigger] sv[k]
                    != '.' by {
                    if k < int_end {
                        assert(is_digit(sv[k]));
                    }
                }
                lemma_dot_pos_skip(sv, start as int, int_end + 1);
                lemma_dot_pos_ge(sv, int_end + 1);
                assert(dot_pos_from(sv, start as int) >= int_end + 1);
                assert(!is_digit(sv[int_end as int]));
                assert(!number_wf(sv));
            }
            return Option::None;
        }
        proof {
            assert forall|k: int| start <= k < int_end implies #[trigger] sv[k] != '.' by {
                assert(is_digit(sv[k]));
            }
            lemma_dot_pos_skip(sv, start as int, int_end as int);
            d_ghost = int_end as int;
            assert(dot_pos_from(sv, start as int) == int_end as int);
        }
        let fstart = int_end + 1;
        let frac_end = digit_run_end(s, n, fstart);
        if frac_end < n {
            // the fraction is interrupted by a non-digit
            proof {
                assert(!is_digit(sv[frac_end as int]));
                assert(!all_digits(sv, int_end + 1, n as int));
                assert(!number_wf(sv));
            }
            return Option::None;
        }
        if int_end == start && frac_end == fstart {
            // a bare dot with no digits on either side
            proof {
                assert(frac_len(sv) == 0);
                assert(!number_wf(sv));
            }
            return Option::None;
        }
        // first nine fraction digits
        let mut j = fstart;
        let mut fv: u64 = 0;
        let mut fcount: u32 = 0;
        while j < n && fcount < 9
            invariant
                fstart <= j <= n,
                n == sv.len(),
                sv == s@,
                fstart == int_end + 1,
                all_digits(sv, fstart as int, n as int),
                fcount as int == j - fstart,
                fcount <= 9,
                fv as int == digits_val(sv, fstart as int, j as int),
                (fv as int) < pow10(fcount as int),
            decreases n - j,
        {
            let c2 = s.get_char(j);
            proof {
                assert(is_digit(sv[j as int]));
            }
            let d2 = (c2 as u32 - 48) as u64;
            proof {
                assert(d2 as int == digit_val(sv[j as int]));
                assert(digits_val(sv, fstart as int, j + 1) == digits_val(
                    sv,
                    fstart as int,
                    j as int,
                ) * 10 + digit_val(sv[j as int]));
                assert(pow10(fcount + 1 as int) == 10 * pow10(fcount as int));
                assert(fv < 1_000_000_000) by {
                    reveal_with_fuel(pow10, 11);
                    assert(pow10(fcount as int) <= pow10(9)) by {
                        lemma_pow10_mono(fcount as int, 9);
                    }
                }
            }
            fv = fv * 10 + d2;
            fcount += 1;
            j += 1;
        }
        if j >= n {
            // nine or fewer fraction digits: scale up to nine
            let mult = pow10_exec(9 - fcount);
            proof {
                lemma_pow10_add(fcount as int, 9 - fcount as int);
                assert(pow10(fcount as int) * pow10(9 - fcount as int) == pow10(9));
                reveal_with_fuel(pow10, 11);
                assert((fv as int) * (mult as int) < pow10(9)) by {
                    lemma_mul_bound_strict(fv as int, mult as int, pow10(fcount as int), pow10(9 - fcount as int));
                }
                lemma_mul_nonnegative(fv as int, mult as int);
            }
            fs = fv * mult;
            proof {
                if fcount == 0 {
                    assert(frac_scaled(sv, fstart as int, n as int) == 0);
                    assert(fs == 0);
                } else {
                    assert(fs as int == frac_scaled(sv, fstart as int, n as int));
                }
            }
        } else {
            // ten or more fraction digits: round at the tenth
            proof {
                assert(fcount == 9);
                assert(is_digit(sv[j as int]));
                assert(j as int == fstart + 9);
            }
            let c3 = s.get_char(j);
            let d3 = c3 as u32 - 48;
            proof {
                reveal_with_fuel(pow10, 11);
                assert(fv < 1_000_000_000);
            }
            if d3 >= 5 {
                fs = fv + 1;
            } else {
                fs = fv;
            }
            proof {
                assert(n as int - fstart as int > 9);
                assert(fs as int == frac_scaled(sv, fstart as int, n as int));
            }
        }
    }
    proof {
        assert(dot_pos_from(sv, start as int) == d_ghost);
        assert(fs as int == (if d_ghost < sv.len() {
            frac_scaled(sv, d_ghost + 1, sv.len() as int)
        } else {
            0
        }));
        assert(fs <= 1_000_000_000) by {
            if d_ghost < sv.len() {
                lemma_frac_scaled_bound(sv, d_ghost + 1, sv.len() as int);
            }
        }
        assert(number_wf(sv));
    }
    if toobig {
        proof {
            lemma_digits_val_mono(sv, start as int, int_end as int, d_ghost);
            assert(digits_val(sv, start as int, d_ghost) > 1_000_000_000);
            assert(magnitude_e9(sv) > MAX_COORD as int);
        }
        return Option::None;
    }
    proof {
        assert(iv as int == digits_val(sv, start as int, d_ghost));
    }
    let mag: u64 = iv * 1_000_000_000 + fs;
    proof {
        assert(mag as int == magnitude_e9(sv));
    }
    if mag > 1_000_000_000_000_000_000 {
        return Option::None;
    }
    let v = mag as i64;
    if neg {
        Option::Some(-v)
    } else {
        Option::Some(v)
    }
}

proof fn lemma_pow10_mono(a: int, b: int)
    requires
        a <= b,
    ensures
        pow10(a) <= pow10(b),
    decreases b - a,
{
    if a < b {
        lemma_pow10_mono(a, b - 1);
        lemma_pow10_pos(b - 1);
    }
}

proof fn lemma_mul_bound_strict(x: int, y: int, bx: int, by: int)
    by (nonlinear_arith)
    requires
        0 <= x < bx,
        0 <= y,
        y <= by,
        0 < by,
    ensures
        x * y < bx * by,
{
}

proof fn lemma_frac_scaled_bound(s: Seq<char>, from: int, to: int)
    requires
        all_digits(s, from, to),
    ensures
        frac_scaled(s, from, to) <= 1_000_000_000,
{
    reveal_with_fuel(pow10, 11);
    if to - from <= 0 {
    } else if to - from <= 9 {
        lemma_digits_val_bounds(s, from, to);
        lemma_pow10_pos(9 - (to - from));
        lemma_mul_bound_strict(
            digits_val(s, from, to),
            pow10(9 - (to - from)),
            pow10(to - from),
            pow10(9 - (to - from)),
        );
        lemma_pow10_add(to - from, 9 - (to - from));
    } else {
        assert(all_digits(s, from, from + 9));
        lemma_digits_val_bounds(s, from, from + 9);
    }
}

} // verus!
