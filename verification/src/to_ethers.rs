//! Encoding a decimal value as a fixed-point integer: the canonical string
//! is split at the point, trailing fractional zeros are stripped, the rest
//! is padded out to `decimals` places and read as one integer, with
//! precision loss and range overflow refused.
use vstd::prelude::*;

use vstd::arithmetic::power2::pow2;

use crate::bigdec::{bd_str, bd_to_string};
use crate::decimal::{
    frac_part, int_part, is_negative_str, is_plain_unsigned_decimal, lemma_point_pos,
    lemma_strip_trailing_zeros_take, point_pos, precision_ok, scaled_digits, trimmed_frac,
    unsigned_part,
};
use crate::digits::{char_repeat, digits_val, is_digit, is_digit_seq};
use crate::int256::{
    i256_checked_neg, i256_from_raw, i256_min_abs, i256_val, u256_from_digits, u256_le, u256_val,
};
use crate::ConversionError;

verus! {

/// Splits a rendered unsigned decimal at its point into the integer and
/// fractional digit strings; the fractional string is empty when the
/// rendering had no point.
pub fn split_decimal(u: &str) -> (r: (String, String))
    requires
        is_plain_unsigned_decimal(u@),
    ensures
        r.0@ == int_part(u@),
        r.1@ == frac_part(u@),
{
    proof {
        lemma_point_pos(u@);
        assert(vstd::utf8::is_ascii_chars(u@)) by {
            assert forall|j: int| 0 <= j < u@.len() implies '\0' <= #[trigger] u@[j] <= '\u{7f}' by {
                if j < point_pos(u@) {
                    assert(u@[j] == int_part(u@)[j]);
                    assert(is_digit(u@[j]));
                } else if j == point_pos(u@) {
                    assert(u@[j] == '.');
                } else {
                    assert(u@[j] == frac_part(u@)[j - point_pos(u@) - 1]);
                    assert(is_digit(u@[j]));
                }
            }
        }
    }
    let n = u.unicode_len();
    let mut i: usize = 0;
    while i < n && u.get_ascii(i) != 46
        invariant
            i <= n,
            forall|j: int| 0 <= j < i ==> u@[j] != '.',
        decreases n - i,
    {
        i = i + 1;
    }
    proof {
        if i < n {
            assert(u@[i as int] as u8 == 46);
            assert(u@[i as int] == '.');
        }
        assert(i == point_pos(u@)) by {
            if i < point_pos(u@) {
                assert(u@[i as int] != '.');
            }
            if point_pos(u@) < i {
                assert(u@[point_pos(u@) as int] == '.');
            }
        }
    }
    let int_str = u.substring_ascii(0, i).to_owned();
    if i < n {
        let frac_str = u.substring_ascii(i + 1, n).to_owned();
        proof {
            assert(int_str@ =~= int_part(u@));
            assert(frac_str@ =~= frac_part(u@));
        }
        (int_str, frac_str)
    } else {
        proof {
            assert(int_str@ =~= int_part(u@));
            assert(frac_part(u@) =~= Seq::<char>::empty());
        }
        (int_str, String::new())
    }
}

/// Scales an unsigned rendered decimal by `10^decimals` into one digit
/// string: trailing fractional zeros carry no information and are dropped;
/// more remaining fractional digits than `decimals` would be silently lost,
/// so that case is refused.
pub fn scale_unsigned_decimal(u: &str, decimals: u8) -> (r: Result<String, ConversionError>)
    requires
        is_plain_unsigned_decimal(u@),
    ensures
        (r is Ok) <==> precision_ok(u@, decimals as nat),
        r matches Ok(s) ==> s@ == scaled_digits(u@, decimals as nat) && is_digit_seq(s@),
        r matches Err(e) ==> e == ConversionError::PrecisionLoss,
{
    let (int_str, frac_str) = split_decimal(u);
    proof {
        assert(vstd::utf8::is_ascii_chars(frac_str@)) by {
            assert forall|j: int| 0 <= j < frac_str@.len() implies '\0' <= #[trigger] frac_str@[j]
                <= '\u{7f}' by {
                assert(is_digit(frac_str@[j]));
            }
        }
    }
    let flen = frac_str.as_str().unicode_len();
    let mut j: usize = flen;
    while j > 0 && frac_str.as_str().get_ascii(j - 1) == 48
        invariant
            j <= flen,
            forall|k: int| j <= k < flen ==> frac_str@[k] == '0',
        decreases j,
    {
        proof {
            assert(frac_str@[j - 1] as u8 == 48);
            assert(frac_str@[j - 1] == '0');
        }
        j = j - 1;
    }
    proof {
        if j > 0 {
            assert(frac_str@[j - 1] as u8 != 48);
            assert(frac_str@[j - 1] != '0');
        }
        lemma_strip_trailing_zeros_take(frac_str@, j as int);
    }
    if j > decimals as usize {
        return Err(ConversionError::PrecisionLoss);
    }
    let mut out = int_str;
    out.append(frac_str.as_str().substring_ascii(0, j));
    proof {
        assert(out@ =~= int_part(u@) + trimmed_frac(u@));
    }
    let mut k: usize = j;
    while k < decimals as usize
        invariant
            j <= k <= decimals as usize,
            out@ =~= int_part(u@) + trimmed_frac(u@) + char_repeat('0', (k - j) as nat),
        decreases decimals as usize - k,
    {
        out.push('0');
        k = k + 1;
        proof {
            assert(out@ =~= int_part(u@) + trimmed_frac(u@) + char_repeat('0', (k - j) as nat));
        }
    }
    proof {
        assert(out@ =~= scaled_digits(u@, decimals as nat));
        assert forall|idx: int| 0 <= idx < out@.len() implies is_digit(#[trigger] out@[idx]) by {
            let ip = int_part(u@);
            let tf = trimmed_frac(u@);
            if idx < ip.len() {
                assert(out@[idx] == ip[idx]);
            } else if idx < ip.len() + tf.len() {
                assert(out@[idx] == tf[idx - ip.len()]);
                assert(tf[idx - ip.len()] == frac_part(u@)[idx - ip.len()]);
            } else {
                assert(out@[idx] == '0');
            }
        }
    }
    Ok(out)
}

/// The signed fixed-point encoding of a decimal split into a sign and an
/// unsigned rendering `u`, at scale `d`: the scaled magnitude must fit the
/// asymmetric two's-complement range, `2^255` for negative values and
/// `2^255 - 1` otherwise.
pub open spec fn to_signed_fixed_spec(neg: bool, u: Seq<char>, d: nat) -> Option<int> {
    if !precision_ok(u, d) {
        None
    } else {
        let m = digits_val(scaled_digits(u, d)) as int;
        if neg {
            if m <= pow2(255) {
                Some(-m)
            } else {
                None
            }
        } else {
            if m < pow2(255) {
                Some(m)
            } else {
                None
            }
        }
    }
}

/// Encodes a decimal value as an unsigned 256-bit fixed-point integer with
/// `decimals` fractional places, telling the failures apart: precision loss
/// is reported first, then a value outside the unsigned range (negative, or
/// a scaled magnitude of 256 bits or more).
pub fn encode_u256(bd: &bigdecimal::BigDecimal, decimals: u8) -> (r: Result<
    ethers_core::types::U256,
    ConversionError,
>)
    ensures
        ({
            let s = bd_str(*bd);
            let u = unsigned_part(s);
            let d = decimals as nat;
            match r {
                Ok(v) => !is_negative_str(s) && precision_ok(u, d) && digits_val(
                    scaled_digits(u, d),
                ) < pow2(256) && u256_val(v) == digits_val(scaled_digits(u, d)),
                Err(e) => (!precision_ok(u, d) || is_negative_str(s) || digits_val(
                    scaled_digits(u, d),
                ) >= pow2(256)) && e == (if !precision_ok(u, d) {
                    ConversionError::PrecisionLoss
                } else {
                    ConversionError::Overflow
                }),
            }
        }),
{
    let s = bd_to_string(bd);
    let n = s.as_str().unicode_len();
    let mut neg = false;
    if n > 0 {
        let c = s.as_str().get_char(0);
        if c == '-' {
            neg = true;
        }
    }
    let mag = if neg {
        s.as_str().substring_char(1, n).to_owned()
    } else {
        s
    };
    proof {
        assert(neg == is_negative_str(bd_str(*bd)));
        assert(mag@ == unsigned_part(bd_str(*bd)));
    }
    let scaled = match scale_unsigned_decimal(mag.as_str(), decimals) {
        Ok(x) => x,
        Err(e) => {
            return Err(e);
        },
    };
    if neg {
        return Err(ConversionError::Overflow);
    }
    match u256_from_digits(scaled.as_str()) {
        Some(v) => Ok(v),
        None => Err(ConversionError::Overflow),
    }
}

/// Encodes a decimal value as an unsigned 256-bit fixed-point integer with
/// `decimals` fractional places. Negative values, values with more than
/// `decimals` significant fractional digits, and scaled magnitudes of 256
/// bits or more are refused.
pub fn to_ethers_u256(bd: &bigdecimal::BigDecimal, decimals: u8) -> (r: Option<
    ethers_core::types::U256,
>)
    ensures
        ({
            let s = bd_str(*bd);
            let u = unsigned_part(s);
            let d = decimals as nat;
            match r {
                Some(v) => !is_negative_str(s) && precision_ok(u, d) && digits_val(
                    scaled_digits(u, d),
                ) < pow2(256) && u256_val(v) == digits_val(scaled_digits(u, d)),
                None => !precision_ok(u, d) || is_negative_str(s) || digits_val(
                    scaled_digits(u, d),
                ) >= pow2(256),
            }
        }),
{
    match encode_u256(bd, decimals) {
        Ok(v) => Some(v),
        Err(_) => None,
    }
}

/// Encodes a decimal value as a signed 256-bit fixed-point integer with
/// `decimals` fractional places, telling the failures apart: precision
/// loss is reported first, then a scaled magnitude beyond the asymmetric
/// signed range (`2^255` for negative values, `2^255 - 1` otherwise).
pub fn encode_i256(bd: &bigdecimal::BigDecimal, decimals: u8) -> (r: Result<
    ethers_core::types::I256,
    ConversionError,
>)
    ensures
        ({
            let s = bd_str(*bd);
            let u = unsigned_part(s);
            let d = decimals as nat;
            let spec_r = to_signed_fixed_spec(is_negative_str(s), u, d);
            match r {
                Ok(i) => spec_r == Some(i256_val(i)),
                Err(e) => spec_r is None && e == (if !precision_ok(u, d) {
                    ConversionError::PrecisionLoss
                } else {
                    ConversionError::Overflow
                }),
            }
        }),
{
    let s = bd_to_string(bd);
    let n = s.as_str().unicode_len();
    let mut neg = false;
    if n > 0 {
        let c = s.as_str().get_char(0);
        if c == '-' {
            neg = true;
        }
    }
    let mag = if neg {
        s.as_str().substring_char(1, n).to_owned()
    } else {
        s
    };
    proof {
        assert(neg == is_negative_str(bd_str(*bd)));
        assert(mag@ == unsigned_part(bd_str(*bd)));
    }
    let scaled = match scale_unsigned_decimal(mag.as_str(), decimals) {
        Ok(x) => x,
        Err(e) => {
            return Err(e);
        },
    };
    let u = match u256_from_digits(scaled.as_str()) {
        Some(u) => u,
        None => {
            proof {
                vstd::arithmetic::power2::lemma_pow2_strictly_increases(255, 256);
            }
            return Err(ConversionError::Overflow);
        },
    };
    let bound = i256_min_abs();
    proof {
        vstd::arithmetic::power2::lemma_pow2_adds(1, 255);
        vstd::arithmetic::power2::lemma2_to64();
        vstd::arithmetic::power2::lemma_pow2_pos(255);
        assert(pow2(256) == 2 * pow2(255));
    }
    if neg {
        if u256_le(&u, &bound) {
            let i = i256_from_raw(&u);
            match i256_checked_neg(&i) {
                Some(v) => Ok(v),
                None => Ok(i),
            }
        } else {
            Err(ConversionError::Overflow)
        }
    } else {
        if u256_le(&bound, &u) {
            Err(ConversionError::Overflow)
        } else {
            Ok(i256_from_raw(&u))
        }
    }
}

/// Encodes a decimal value as a signed 256-bit fixed-point integer with
/// `decimals` fractional places: the magnitude is encoded as for the
/// unsigned case and the sign is reapplied, with the asymmetric signed
/// range enforced.
pub fn to_ethers_i256(bd: &bigdecimal::BigDecimal, decimals: u8) -> (r: Option<
    ethers_core::types::I256,
>)
    ensures
        ({
            let spec_r = to_signed_fixed_spec(
                is_negative_str(bd_str(*bd)),
                unsigned_part(bd_str(*bd)),
                decimals as nat,
            );
            match r {
                Some(i) => spec_r == Some(i256_val(i)),
                None => spec_r is None,
            }
        }),
{
    match encode_i256(bd, decimals) {
        Ok(i) => Some(i),
        Err(_) => None,
    }
}

} // verus!
