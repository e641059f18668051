//! Library-wide laws, proved once over the specification functions that
//! the public contracts speak in: the lossless round trip, sign
//! preservation of the signed encoding, and zero handling.
use vstd::prelude::*;

use vstd::arithmetic::power2::pow2;

use crate::decimal::{
    all_digits, dec_num, dec_scale, dec_values_eq, decimal_render, frac_part, int_part,
    is_negative_str, is_plain_decimal, is_plain_unsigned_decimal, lemma_decimal_render_value,
    lemma_recompose_parts, lemma_strip_trailing_zeros_take, parse_decimal_render, precision_ok,
    recompose_fixed, scaled_digits, trimmed_frac, unsigned_part,
};
use crate::digits::{
    char_repeat, dec_digits_of, digits_val, is_digit, is_digit_seq, lemma_dec_digits_of_shape,
    lemma_dec_digits_of_val, lemma_digits_val_concat, lemma_digits_val_strip_leading,
    lemma_digits_val_strip_trailing, lemma_digits_val_zero_all_zeros, lemma_digits_val_zeros,
    lemma_pow10_adds, lemma_pow10_pos, pow10, strip_leading_zeros,
};
use crate::to_ethers::to_signed_fixed_spec;

verus! {

/// Round trip without loss: a decimal whose stripped fractional digits fit
/// the scale `d`, encoded to its scaled digit string and decoded again
/// through the fixed-point decoder, denotes the value it started with.
#[verifier::rlimit(60)]
pub proof fn lemma_round_trip_lossless(s: Seq<char>, d: nat)
    requires
        is_plain_decimal(s),
        is_negative_str(s) ==> digits_val(all_digits(unsigned_part(s))) != 0,
        precision_ok(unsigned_part(s), d),
    ensures
        dec_values_eq(
            parse_decimal_render(
                recompose_fixed(
                    is_negative_str(s),
                    dec_digits_of(digits_val(scaled_digits(unsigned_part(s), d))),
                    d,
                ),
            ),
            s,
        ),
{
    let neg = is_negative_str(s);
    let us = unsigned_part(s);
    let ip = int_part(us);
    let f = frac_part(us);
    let tf = trimmed_frac(us);
    let fl = f.len();
    let tl = tf.len();
    let a = digits_val(ip);
    let b = digits_val(tf);
    let scaled = scaled_digits(us, d);
    let m = digits_val(scaled);
    lemma_digits_val_strip_trailing(f);
    assert(tl <= fl);
    assert(tl <= d);
    lemma_digits_val_concat(ip, tf);
    lemma_digits_val_concat(ip + tf, char_repeat('0', (d - tl) as nat));
    lemma_digits_val_zeros((d - tl) as nat);
    assert(scaled == (ip + tf) + char_repeat('0', (d - tl) as nat));
    assert(m == (a * pow10(tl) + b) * pow10((d - tl) as nat));
    let dv_all = digits_val(all_digits(us));
    lemma_digits_val_concat(ip, f);
    assert(dv_all == a * pow10(fl) + digits_val(f));
    assert(digits_val(f) == b * pow10((fl - tl) as nat));
    lemma_pow10_adds(tl, (d - tl) as nat);
    lemma_pow10_adds((d - tl) as nat, fl);
    lemma_pow10_adds((fl - tl) as nat, d);
    assert((d - tl) as nat + fl == (fl - tl) as nat + d);
    let pt = pow10(tl);
    let pdt = pow10((d - tl) as nat);
    let pfl = pow10(fl);
    let pflt = pow10((fl - tl) as nat);
    let pd = pow10(d);
    assert(m * pfl == dv_all * pd) by (nonlinear_arith)
        requires
            m == (a * pt + b) * pdt,
            dv_all == a * pfl + b * pflt,
            pt * pdt == pd,
            pdt * pfl == pflt * pd,
    ;
    lemma_pow10_pos(tl);
    lemma_pow10_pos((d - tl) as nat);
    lemma_pow10_pos(fl);
    lemma_pow10_pos((fl - tl) as nat);
    lemma_pow10_pos(d);
    if neg {
        assert(m != 0) by (nonlinear_arith)
            requires
                m == (a * pt + b) * pdt,
                dv_all == a * pfl + b * pflt,
                dv_all != 0,
                pt >= 1,
                pdt >= 1,
                pfl >= 1,
                pflt >= 1,
        ;
    }
    let dd = dec_digits_of(m);
    lemma_dec_digits_of_shape(m);
    lemma_dec_digits_of_val(m);
    lemma_recompose_parts(neg, dd, d);
    let t = recompose_fixed(neg, dd, d);
    let u = unsigned_part(t);
    assert(digits_val(all_digits(u)) == m);
    assert forall|j: int| 0 <= j < all_digits(u).len() implies is_digit(
        #[trigger] all_digits(u)[j],
    ) by {
        if j < int_part(u).len() {
            assert(all_digits(u)[j] == int_part(u)[j]);
        } else {
            assert(all_digits(u)[j] == frac_part(u)[j - int_part(u).len()]);
        }
    }
    lemma_digits_val_strip_leading(all_digits(u));
    let mg = strip_leading_zeros(all_digits(u));
    assert(all_digits(u).len() >= 1);
    lemma_decimal_render_value(neg && m != 0, mg, d);
    let r = parse_decimal_render(t);
    assert(r == decimal_render(neg && m != 0, mg, frac_part(u).len()));
    assert(frac_part(u).len() == d);
    assert(dec_scale(r) == d);
    assert(digits_val(mg) == m);
    assert(dec_num(r) == (if neg {
        -(m as int)
    } else {
        m as int
    }));
    assert(dec_num(s) == (if neg {
        -(dv_all as int)
    } else {
        dv_all as int
    }));
    assert(dec_scale(s) == fl);
    assert(dec_num(r) * pfl == dec_num(s) * pd) by (nonlinear_arith)
        requires
            m * pfl == dv_all * pd,
            dec_num(r) == (if neg {
                -(m as int)
            } else {
                m as int
            }),
            dec_num(s) == (if neg {
                -(dv_all as int)
            } else {
                dv_all as int
            }),
    ;
    assert(dec_num(r) * pow10(dec_scale(s)) == dec_num(s) * pow10(dec_scale(r)));
}

/// Sign preservation: where the positive encoding of a magnitude succeeds,
/// the negative encoding of the same magnitude succeeds with the negated
/// value.
pub proof fn lemma_sign_preservation(u: Seq<char>, d: nat, v: int)
    requires
        to_signed_fixed_spec(false, u, d) == Some(v),
    ensures
        to_signed_fixed_spec(true, u, d) == Some(-v),
{
    assert(precision_ok(u, d));
    let m = digits_val(scaled_digits(u, d)) as int;
    assert(m < pow2(255));
    assert(m <= pow2(255));
}

/// Zero handling, encoding side: a decimal denoting zero encodes at any
/// scale, without precision loss, to the integer zero.
pub proof fn lemma_zero_to_fixed(u: Seq<char>, d: nat)
    requires
        is_plain_unsigned_decimal(u),
        digits_val(all_digits(u)) == 0,
    ensures
        precision_ok(u, d),
        digits_val(scaled_digits(u, d)) == 0,
{
    let ip = int_part(u);
    let f = frac_part(u);
    assert forall|j: int| 0 <= j < all_digits(u).len() implies is_digit(
        #[trigger] all_digits(u)[j],
    ) by {
        if j < ip.len() {
            assert(all_digits(u)[j] == ip[j]);
        } else {
            assert(all_digits(u)[j] == f[j - ip.len()]);
        }
    }
    lemma_digits_val_zero_all_zeros(all_digits(u));
    assert forall|k: int| 0 <= k < f.len() implies f[k] == '0' by {
        assert(all_digits(u)[ip.len() + k] == f[k]);
    }
    lemma_strip_trailing_zeros_take(f, 0);
    assert(trimmed_frac(u) =~= Seq::<char>::empty());
    assert(trimmed_frac(u).len() == 0);
    lemma_digits_val_concat(ip, f);
    lemma_pow10_pos(f.len());
    let a = digits_val(ip);
    assert(a == 0) by (nonlinear_arith)
        requires
            a * pow10(f.len()) + digits_val(f) == 0,
            pow10(f.len()) >= 1,
    ;
    lemma_digits_val_concat(ip, trimmed_frac(u));
    lemma_digits_val_concat(ip + trimmed_frac(u), char_repeat('0', d));
    lemma_digits_val_zeros(d);
    assert(ip + trimmed_frac(u) =~= ip);
    assert(scaled_digits(u, d) == (ip + trimmed_frac(u)) + char_repeat('0', d));
    assert(digits_val(scaled_digits(u, d)) == a * pow10(d));
    assert(a * pow10(d) == 0);
}

/// Zero handling, decoding side: the integer zero decodes at any scale to
/// a decimal denoting zero, spelled with `d` fractional digits.
pub proof fn lemma_zero_from_fixed(d: nat)
    ensures
        dec_num(parse_decimal_render(recompose_fixed(false, seq!['0'], d))) == 0,
        dec_scale(parse_decimal_render(recompose_fixed(false, seq!['0'], d))) == d,
{
    let z = seq!['0'];
    assert(is_digit(z[0]));
    assert(z.drop_last() =~= Seq::<char>::empty());
    assert(digits_val(z) == digits_val(Seq::<char>::empty()) * 10 + 0);
    lemma_recompose_parts(false, z, d);
    let t = recompose_fixed(false, z, d);
    let u = unsigned_part(t);
    assert(digits_val(all_digits(u)) == 0);
    assert forall|j: int| 0 <= j < all_digits(u).len() implies is_digit(
        #[trigger] all_digits(u)[j],
    ) by {
        if j < int_part(u).len() {
            assert(all_digits(u)[j] == int_part(u)[j]);
        } else {
            assert(all_digits(u)[j] == frac_part(u)[j - int_part(u).len()]);
        }
    }
    lemma_digits_val_strip_leading(all_digits(u));
    let mg = strip_leading_zeros(all_digits(u));
    assert(all_digits(u).len() >= 1);
    lemma_decimal_render_value(false, mg, d);
    let r = parse_decimal_render(t);
    assert(r == decimal_render(false, mg, frac_part(u).len()));
    assert(dec_num(r) == 0);
    assert(dec_scale(r) == d);
}

} // verus!
