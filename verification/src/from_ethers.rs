//! Decoding a fixed-point integer back into a decimal value: the raw digit
//! string is left-padded, split `decimals` places from the right, and parsed
//! exactly.
use vstd::prelude::*;

use crate::bigdec::{bd_parse_point_form, bd_str};
use crate::decimal::{
    frac_part, int_part, is_negative_str, is_point_form, left_padded, lemma_split_point_form,
    parse_decimal_render, recompose_fixed, unsigned_part,
};
use crate::digits::{
    char_repeat, dec_digits_of, is_digit, is_digit_seq, lemma_dec_digits_of_shape,
};
use crate::int256::{i256_to_digits, i256_val, u256_to_digits, u256_val};
use crate::ConversionError;

verus! {

/// Removes a leading `'-'` from `string` if one is present, and returns the
/// removed sign marker (`"-"` or the empty string).
pub fn parse_negative_sign(string: &mut String) -> (r: String)
    ensures
        is_negative_str(old(string)@) ==> final(string)@ == old(string)@.skip(1) && r@ == seq![
            '-',
        ],
        !is_negative_str(old(string)@) ==> final(string)@ == old(string)@ && r@
            == Seq::<char>::empty(),
{
    let n = string.as_str().unicode_len();
    if n > 0 {
        let c = string.as_str().get_char(0);
        if c == '-' {
            let rest = string.as_str().substring_char(1, n).to_owned();
            *string = rest;
            let sign = String::from_str("-");
            proof {
                reveal_strlit("-");
                assert(sign@ =~= seq!['-']);
            }
            return sign;
        }
    }
    String::new()
}

/// Left-pads `string` with `fill` until it is at least `length` characters
/// long; a string already long enough comes back unchanged.
pub fn left_pad(string: String, length: usize, fill: char) -> (r: String)
    ensures
        r@ == left_padded(string@, length as nat, fill),
{
    let n = string.as_str().unicode_len();
    if n >= length {
        return string;
    }
    let mut out = String::new();
    let mut i: usize = 0;
    while i < length - n
        invariant
            n == string@.len(),
            n < length,
            i <= length - n,
            out@ =~= char_repeat(fill, i as nat),
        decreases length - n - i,
    {
        out.push(fill);
        i = i + 1;
        proof {
            assert(out@ =~= char_repeat(fill, i as nat));
        }
    }
    out.append(string.as_str());
    proof {
        assert(out@ =~= char_repeat(fill, (length - n) as nat) + string@);
    }
    out
}

/// Decodes a raw base-10 digit string (optionally `'-'`-signed) holding a
/// fixed-point integer with `decimals` fractional places into an exact
/// decimal value; a string with any other character is refused as
/// malformed.
pub fn decode_string(string: String, decimals: u8) -> (r: Result<
    bigdecimal::BigDecimal,
    ConversionError,
>)
    ensures
        ({
            let neg = is_negative_str(string@);
            let m = unsigned_part(string@);
            match r {
                Ok(bd) => is_digit_seq(m) && bd_str(bd) == parse_decimal_render(
                    recompose_fixed(neg, m, decimals as nat),
                ),
                Err(e) => !is_digit_seq(m) && e == ConversionError::MalformedInput,
            }
        }),
{
    let ghost orig = string@;
    let mut string = string;
    let negative_sign = parse_negative_sign(&mut string);
    let ghost neg = is_negative_str(orig);
    let ghost m = unsigned_part(orig);
    proof {
        assert(string@ == m);
    }
    // Refuse anything that is not a pure digit string.
    let n = string.as_str().unicode_len();
    let mut i: usize = 0;
    while i < n
        invariant
            n == string@.len(),
            i <= n,
            forall|j: int| 0 <= j < i ==> is_digit(#[trigger] string@[j]),
        decreases n - i,
    {
        let c = string.as_str().get_char(i);
        if c < '0' || c > '9' {
            proof {
                assert(!is_digit(string@[i as int]));
            }
            return Err(ConversionError::MalformedInput);
        }
        i = i + 1;
    }
    assert(is_digit_seq(string@));
    let padded = left_pad(string, decimals as usize + 1, '0');
    let ghost p = left_padded(m, decimals as nat + 1, '0');
    proof {
        assert(padded@ == p);
        assert forall|j: int| 0 <= j < p.len() implies is_digit(#[trigger] p[j]) by {
            if p.len() > m.len() {
                if j < p.len() - m.len() {
                    assert(p[j] == '0');
                } else {
                    assert(p[j] == m[j - (p.len() - m.len())]);
                }
            }
        }
        assert(vstd::utf8::is_ascii_chars(p)) by {
            assert forall|j: int| 0 <= j < p.len() implies '\0' <= #[trigger] p[j] <= '\u{7f}' by {
                assert(is_digit(p[j]));
            }
        }
    }
    let len = padded.as_str().unicode_len();
    let split = len - decimals as usize;
    let int_str = padded.as_str().substring_ascii(0, split);
    let frac_str = padded.as_str().substring_ascii(split, len);
    proof {
        assert(int_str@ =~= p.take(p.len() - decimals as nat));
        assert(frac_str@ =~= p.skip(p.len() - decimals as nat));
    }
    let mut complete = negative_sign;
    complete.append(int_str);
    complete.append(".");
    complete.append(frac_str);
    proof {
        reveal_strlit(".");
        assert(("."@) =~= seq!['.']);
        let body = int_str@ + seq!['.'] + frac_str@;
        assert(complete@ =~= (if neg {
            seq!['-'] + body
        } else {
            body
        }));
        assert(complete@ =~= recompose_fixed(neg, m, decimals as nat));
        lemma_split_point_form(int_str@, frac_str@);
        if neg {
            assert(complete@[0] == '-');
            assert(unsigned_part(complete@) =~= body);
        } else {
            assert(complete@[0] == int_str@[0]);
            assert(unsigned_part(complete@) =~= body);
        }
        assert(int_part(body) == int_str@);
        assert(frac_part(body) == frac_str@);
        assert(is_point_form(complete@));
    }
    match bd_parse_point_form(complete.as_str()) {
        Some(bd) => Ok(bd),
        None => {
            proof {
                assert(false);
            }
            Err(ConversionError::MalformedInput)
        },
    }
}

/// Decodes a raw base-10 digit string (optionally `'-'`-signed) holding a
/// fixed-point integer with `decimals` fractional places into an exact
/// decimal value; a string with any other character is refused.
pub fn to_big_decimal(string: String, decimals: u8) -> (r: Option<bigdecimal::BigDecimal>)
    ensures
        ({
            let neg = is_negative_str(string@);
            let m = unsigned_part(string@);
            match r {
                Some(bd) => is_digit_seq(m) && bd_str(bd) == parse_decimal_render(
                    recompose_fixed(neg, m, decimals as nat),
                ),
                None => !is_digit_seq(m),
            }
        }),
{
    match decode_string(string, decimals) {
        Ok(bd) => Some(bd),
        Err(_) => None,
    }
}

/// Decodes an unsigned 256-bit fixed-point integer with `decimals`
/// fractional places into an exact decimal value.
pub fn from_ethers_u256(bn: &ethers_core::types::U256, decimals: u8) -> (r: Option<
    bigdecimal::BigDecimal,
>)
    ensures
        r is Some,
        r matches Some(bd) ==> bd_str(bd) == parse_decimal_render(
            recompose_fixed(false, dec_digits_of(u256_val(*bn)), decimals as nat),
        ),
{
    let s = u256_to_digits(bn);
    proof {
        lemma_dec_digits_of_shape(u256_val(*bn));
        assert(!is_negative_str(s@));
        assert(unsigned_part(s@) == s@);
    }
    to_big_decimal(s, decimals)
}

/// Decodes a signed 256-bit fixed-point integer with `decimals` fractional
/// places into an exact decimal value.
pub fn from_ethers_i256(bn: &ethers_core::types::I256, decimals: u8) -> (r: Option<
    bigdecimal::BigDecimal,
>)
    ensures
        r is Some,
        r matches Some(bd) ==> bd_str(bd) == parse_decimal_render(
            recompose_fixed(
                i256_val(*bn) < 0,
                dec_digits_of(
                    (if i256_val(*bn) < 0 {
                        -i256_val(*bn)
                    } else {
                        i256_val(*bn)
                    }) as nat,
                ),
                decimals as nat,
            ),
        ),
{
    let s = i256_to_digits(bn);
    let ghost mag = (if i256_val(*bn) < 0 {
        -i256_val(*bn)
    } else {
        i256_val(*bn)
    }) as nat;
    proof {
        lemma_dec_digits_of_shape(mag);
        if i256_val(*bn) < 0 {
            assert(s@[0] == '-');
            assert(unsigned_part(s@) =~= dec_digits_of(mag));
        } else {
            assert(!is_negative_str(s@));
            assert(unsigned_part(s@) == s@);
        }
    }
    to_big_decimal(s, decimals)
}

} // verus!
