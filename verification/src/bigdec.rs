//! Trusted boundary to the arbitrary-precision decimal type: the value is
//! opaque here, and is spoken of only through `bd_str`, its rendered
//! canonical decimal string.
use vstd::prelude::*;

use crate::decimal::{
    all_digits, is_negative_str, is_plain_decimal, is_point_form, parse_decimal_render,
    unsigned_part,
};
use crate::digits::digits_val;

verus! {

#[verifier::external_type_specification]
#[verifier::external_body]
pub struct ExBigDecimal(bigdecimal::BigDecimal);

/// The canonical decimal string that `bd` renders to; a function of the
/// value's internal digits and scale alone.
pub uninterp spec fn bd_str(bd: bigdecimal::BigDecimal) -> Seq<char>;

/// Relies on `BigDecimal`'s `Display` (through `ToString`): it always writes
/// the plain form `[-]digits[.digits]` — a sign exactly for negative values
/// (so only over non-zero digits), at least one integer digit, and a
/// non-empty run of fractional digits whenever a point is present; never
/// scientific notation.
#[verifier::external_body]
pub(crate) fn bd_to_string(bd: &bigdecimal::BigDecimal) -> (r: String)
    ensures
        r@ == bd_str(*bd),
        is_plain_decimal(r@),
        is_negative_str(r@) ==> digits_val(all_digits(unsigned_part(r@))) != 0,
{
    bd.to_string()
}

/// Relies on `<BigDecimal as Num>::from_str_radix` with radix 10: a string
/// of shape `[-]digits.digits*` always parses exactly, into the value whose
/// magnitude digits are those of the string, with as many fractional places
/// as stood after the point; that value renders back as
/// `parse_decimal_render` of the input.
#[verifier::external_body]
pub(crate) fn bd_parse_point_form(s: &str) -> (r: Option<bigdecimal::BigDecimal>)
    requires
        is_point_form(s@),
    ensures
        r is Some,
        r matches Some(bd) ==> bd_str(bd) == parse_decimal_render(s@),
{
    <bigdecimal::BigDecimal as bigdecimal::Num>::from_str_radix(s, 10).ok()
}

} // verus!
