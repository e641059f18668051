//! Specification-level model of canonical decimal strings
//! (`[-]digits[.digits]`): splitting at the decimal point, the rational
//! value such a string denotes, and the exact rendering that an
//! arbitrary-precision decimal library produces for a parsed string.
use vstd::prelude::*;

use crate::digits::{
    char_repeat, digits_val, is_digit, is_digit_seq, lemma_digits_val_concat,
    lemma_digits_val_zeros, pow10, strip_leading_zeros, strip_trailing_zeros,
};

verus! {

/// `s` starts with a `'-'` sign marker.
pub open spec fn is_negative_str(s: Seq<char>) -> bool {
    s.len() > 0 && s[0] == '-'
}

/// `s` without a leading `'-'` sign marker, if one is present.
pub open spec fn unsigned_part(s: Seq<char>) -> Seq<char> {
    if is_negative_str(s) {
        s.skip(1)
    } else {
        s
    }
}

/// Index of the first `'.'` in `u`, or `u.len()` if there is none.
pub open spec fn point_pos(u: Seq<char>) -> nat
    decreases u.len(),
{
    if u.len() == 0 {
        0
    } else if u[0] == '.' {
        0
    } else {
        1 + point_pos(u.skip(1))
    }
}

/// `u` contains a decimal point.
pub open spec fn has_point(u: Seq<char>) -> bool {
    point_pos(u) < u.len()
}

/// The digits before the first `'.'` (the whole of `u` if there is none).
pub open spec fn int_part(u: Seq<char>) -> Seq<char> {
    u.take(point_pos(u) as int)
}

/// The digits after the first `'.'`, or empty if there is none.
pub open spec fn frac_part(u: Seq<char>) -> Seq<char> {
    if has_point(u) {
        u.skip(point_pos(u) + 1 as int)
    } else {
        Seq::empty()
    }
}

/// Shape of an unsigned rendered decimal: a non-empty digit string,
/// optionally followed by a point and at least one more digit.
pub open spec fn is_plain_unsigned_decimal(u: Seq<char>) -> bool {
    &&& point_pos(u) >= 1
    &&& is_digit_seq(int_part(u))
    &&& has_point(u) ==> frac_part(u).len() >= 1 && is_digit_seq(frac_part(u))
}

/// Shape of a rendered decimal with an optional sign.
pub open spec fn is_plain_decimal(s: Seq<char>) -> bool {
    is_plain_unsigned_decimal(unsigned_part(s))
}

/// The fractional digits that carry information: trailing zeros stripped.
pub open spec fn trimmed_frac(u: Seq<char>) -> Seq<char> {
    strip_trailing_zeros(frac_part(u))
}

/// Scaling `u` by `10^d` loses nothing exactly when at most `d` fractional
/// digits remain after stripping trailing zeros.
pub open spec fn precision_ok(u: Seq<char>, d: nat) -> bool {
    trimmed_frac(u).len() <= d
}

/// The digit string of `u` scaled by `10^d`: integer digits, the stripped
/// fractional digits, and zero padding up to `d` places.
pub open spec fn scaled_digits(u: Seq<char>, d: nat) -> Seq<char> {
    int_part(u) + trimmed_frac(u) + char_repeat('0', (d - trimmed_frac(u).len()) as nat)
}

/// `point_pos` is the index of the first point: it lands on a `'.'` when
/// one exists, and nothing before it is a `'.'`.
pub proof fn lemma_point_pos(u: Seq<char>)
    ensures
        point_pos(u) <= u.len(),
        has_point(u) ==> u[point_pos(u) as int] == '.',
        forall|j: int| 0 <= j < point_pos(u) ==> u[j] != '.',
    decreases u.len(),
{
    if u.len() == 0 {
    } else if u[0] == '.' {
    } else {
        lemma_point_pos(u.skip(1));
        assert forall|j: int| 0 <= j < point_pos(u) implies u[j] != '.' by {
            if j > 0 {
                assert(u[j] == u.skip(1)[j - 1]);
            }
        }
        if has_point(u) {
            assert(u[point_pos(u) as int] == u.skip(1)[point_pos(u.skip(1)) as int]);
        }
    }
}

/// A digit string whose suffix from `j` on is all zeros, with a non-zero
/// digit just before `j`, strips to exactly its first `j` characters.
pub proof fn lemma_strip_trailing_zeros_take(s: Seq<char>, j: int)
    requires
        0 <= j <= s.len(),
        forall|k: int| j <= k < s.len() ==> s[k] == '0',
        j > 0 ==> s[j - 1] != '0',
    ensures
        strip_trailing_zeros(s) == s.take(j),
    decreases s.len(),
{
    if s.len() == j {
        assert(s.take(j) =~= s);
    } else {
        assert(s.last() == '0');
        assert(s.drop_last() =~= s.take(s.len() - 1));
        lemma_strip_trailing_zeros_take(s.take(s.len() - 1), j);
        assert(s.take(s.len() - 1).take(j) =~= s.take(j));
    }
}

/// Shape of the string handed to the exact decimal parser: an optional
/// sign, at least one integer digit, a point, and any run of fractional
/// digits (possibly none).
pub open spec fn is_point_form(s: Seq<char>) -> bool {
    let u = unsigned_part(s);
    &&& point_pos(u) >= 1
    &&& has_point(u)
    &&& is_digit_seq(int_part(u))
    &&& is_digit_seq(frac_part(u))
}

/// All digits of `u`, integer and fractional concatenated.
pub open spec fn all_digits(u: Seq<char>) -> Seq<char> {
    int_part(u) + frac_part(u)
}

/// Signed numerator of the value that the decimal string `s` denotes:
/// `s` stands for `dec_num(s) / 10^dec_scale(s)`.
pub open spec fn dec_num(s: Seq<char>) -> int {
    let m = digits_val(all_digits(unsigned_part(s)));
    if is_negative_str(s) {
        -(m as int)
    } else {
        m as int
    }
}

/// Number of fractional digits that the decimal string `s` spells out.
pub open spec fn dec_scale(s: Seq<char>) -> nat {
    frac_part(unsigned_part(s)).len()
}

/// The decimal strings `a` and `b` denote the same rational value.
pub open spec fn dec_values_eq(a: Seq<char>, b: Seq<char>) -> bool {
    dec_num(a) * pow10(dec_scale(b)) == dec_num(b) * pow10(dec_scale(a))
}

/// Exact rendering of a decimal value held as a sign, a minimal magnitude
/// digit string `mag`, and a count `scale` of fractional digits: the point
/// is inserted `scale` digits from the right, with a single `'0'` integer
/// digit and zero padding when the magnitude falls entirely behind it.
pub open spec fn decimal_render(neg: bool, mag: Seq<char>, scale: nat) -> Seq<char> {
    let body = if scale >= mag.len() {
        seq!['0', '.'] + char_repeat('0', (scale - mag.len()) as nat) + mag
    } else if scale == 0 {
        mag
    } else {
        mag.take(mag.len() - scale) + seq!['.'] + mag.skip(mag.len() - scale)
    };
    if neg {
        seq!['-'] + body
    } else {
        body
    }
}

/// Splitting a string built as `digits ++ "." ++ rest` finds exactly that
/// point: the integer part is `a` and the fractional part is `b`.
pub proof fn lemma_split_point_form(a: Seq<char>, b: Seq<char>)
    requires
        is_digit_seq(a),
    ensures
        point_pos(a + seq!['.'] + b) == a.len(),
        int_part(a + seq!['.'] + b) == a,
        frac_part(a + seq!['.'] + b) == b,
    decreases a.len(),
{
    let u = a + seq!['.'] + b;
    if a.len() == 0 {
        assert(u[0] == '.');
        assert(int_part(u) =~= a);
        assert(frac_part(u) =~= b);
    } else {
        assert(u[0] == a[0]);
        assert(u[0] != '.');
        assert(u.skip(1) =~= a.skip(1) + seq!['.'] + b);
        lemma_split_point_form(a.skip(1), b);
        assert(point_pos(u) == 1 + point_pos(u.skip(1)));
        assert(point_pos(u) == a.len());
        assert(int_part(u) =~= a);
        assert(frac_part(u) =~= b);
    }
}

/// `s` left-padded with `fill` up to length `len` (unchanged if already
/// long enough).
pub open spec fn left_padded(s: Seq<char>, len: nat, fill: char) -> Seq<char> {
    if s.len() >= len {
        s
    } else {
        char_repeat(fill, (len - s.len()) as nat) + s
    }
}

/// The point-form string that the fixed-point decoder builds from a
/// magnitude digit string `m` and a scale `d`: the digits left-padded to at
/// least `d + 1` places, split `d` places from the right around a point,
/// with the sign restored in front.
pub open spec fn recompose_fixed(neg: bool, m: Seq<char>, d: nat) -> Seq<char> {
    let p = left_padded(m, d + 1, '0');
    let body = p.take(p.len() - d) + seq!['.'] + p.skip(p.len() - d);
    if neg {
        seq!['-'] + body
    } else {
        body
    }
}

/// What a decimal string of shape `[-]digits[.digits]` renders back to
/// after an exact parse: the digits are read as one magnitude with as many
/// fractional places as stood after the point, leading zeros collapse, and
/// a zero magnitude loses its sign.
pub open spec fn parse_decimal_render(t: Seq<char>) -> Seq<char> {
    let u = unsigned_part(t);
    let ds = all_digits(u);
    let neg = is_negative_str(t) && digits_val(ds) != 0;
    decimal_render(neg, strip_leading_zeros(ds), frac_part(u).len())
}

/// The rendering of a sign, magnitude and scale denotes exactly that
/// value: the sign survives, the fractional part has `scale` digits, and
/// the digits read back as the magnitude.
pub proof fn lemma_decimal_render_value(neg: bool, mag: Seq<char>, k: nat)
    requires
        is_digit_seq(mag),
        mag.len() >= 1,
    ensures
        is_negative_str(decimal_render(neg, mag, k)) == neg,
        dec_scale(decimal_render(neg, mag, k)) == k,
        dec_num(decimal_render(neg, mag, k)) == (if neg {
            -(digits_val(mag) as int)
        } else {
            digits_val(mag) as int
        }),
{
    let r = decimal_render(neg, mag, k);
    let body = if k >= mag.len() {
        seq!['0', '.'] + char_repeat('0', (k - mag.len()) as nat) + mag
    } else if k == 0 {
        mag
    } else {
        mag.take(mag.len() - k) + seq!['.'] + mag.skip(mag.len() - k)
    };
    assert(body.len() >= 1);
    if k >= mag.len() {
        assert(body[0] == '0');
    } else if k == 0 {
        assert(body[0] == mag[0]);
    } else {
        assert(body[0] == mag.take(mag.len() - k)[0]);
        assert(body[0] == mag[0]);
    }
    assert(body[0] != '-');
    if neg {
        assert(r == seq!['-'] + body);
        assert(r[0] == '-');
        assert(unsigned_part(r) =~= body);
    } else {
        assert(r == body);
        assert(!is_negative_str(r));
        assert(unsigned_part(r) == body);
    }
    if k >= mag.len() {
        let zs = char_repeat('0', (k - mag.len()) as nat);
        assert(body =~= seq!['0'] + seq!['.'] + (zs + mag));
        lemma_split_point_form(seq!['0'], zs + mag);
        assert(int_part(body) == seq!['0']);
        assert(frac_part(body) == zs + mag);
        assert(dec_scale(r) == k);
        assert(all_digits(body) =~= (seq!['0'] + zs) + mag);
        assert(seq!['0'] + zs =~= char_repeat('0', (k - mag.len() + 1) as nat));
        lemma_digits_val_zeros((k - mag.len() + 1) as nat);
        lemma_digits_val_concat(char_repeat('0', (k - mag.len() + 1) as nat), mag);
        assert(digits_val(all_digits(body)) == digits_val(mag));
    } else if k == 0 {
        lemma_point_pos(body);
        if has_point(body) {
            assert(body[point_pos(body) as int] == '.');
            assert(is_digit(body[point_pos(body) as int]));
            assert(false);
        }
        assert(int_part(body) =~= mag);
        assert(frac_part(body) == Seq::<char>::empty());
        assert(dec_scale(r) == 0);
        assert(all_digits(body) =~= mag);
    } else {
        let a = mag.take(mag.len() - k);
        let b = mag.skip(mag.len() - k);
        assert(body =~= a + seq!['.'] + b);
        assert forall|j: int| 0 <= j < a.len() implies is_digit(#[trigger] a[j]) by {
            assert(a[j] == mag[j]);
        }
        lemma_split_point_form(a, b);
        assert(int_part(body) == a);
        assert(frac_part(body) == b);
        assert(dec_scale(r) == k);
        assert(all_digits(body) =~= mag);
    }
}

/// Parts of the recomposed point-form string: the sign survives, the
/// fractional part has `d` digits, and the digits read back as `m`.
pub proof fn lemma_recompose_parts(neg: bool, m: Seq<char>, d: nat)
    requires
        is_digit_seq(m),
        m.len() >= 1,
    ensures
        ({
            let t = recompose_fixed(neg, m, d);
            let u = unsigned_part(t);
            &&& is_negative_str(t) == neg
            &&& is_point_form(t)
            &&& frac_part(u).len() == d
            &&& digits_val(all_digits(u)) == digits_val(m)
        }),
{
    let p = left_padded(m, d + 1, '0');
    assert forall|j: int| 0 <= j < p.len() implies is_digit(#[trigger] p[j]) by {
        if p.len() > m.len() {
            if j < p.len() - m.len() {
                assert(p[j] == '0');
            } else {
                assert(p[j] == m[j - (p.len() - m.len())]);
            }
        }
    }
    assert(p.len() >= d + 1);
    let a = p.take(p.len() - d);
    let b = p.skip(p.len() - d);
    assert forall|j: int| 0 <= j < a.len() implies is_digit(#[trigger] a[j]) by {
        assert(a[j] == p[j]);
    }
    let body = a + seq!['.'] + b;
    let t = recompose_fixed(neg, m, d);
    lemma_split_point_form(a, b);
    assert(a.len() >= 1);
    assert(a[0] == p[0]);
    assert(body[0] == a[0]);
    if neg {
        assert(t == seq!['-'] + body);
        assert(t[0] == '-');
        assert(unsigned_part(t) =~= body);
    } else {
        assert(t == body);
        assert(body[0] != '-');
        assert(!is_negative_str(t));
        assert(unsigned_part(t) == body);
    }
    assert(int_part(body) == a);
    assert(frac_part(body) == b);
    assert(b.len() == d);
    assert(all_digits(body) =~= p);
    if p.len() > m.len() {
        let zs = char_repeat('0', (p.len() - m.len()) as nat);
        assert(p =~= zs + m);
        lemma_digits_val_zeros((p.len() - m.len()) as nat);
        lemma_digits_val_concat(zs, m);
        assert(digits_val(p) == digits_val(m));
    }
}

} // verus!
