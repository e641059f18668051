//! Trusted boundary to the 256-bit fixed-width integers: the values are
//! opaque here, and are spoken of only through `u256_val` and `i256_val`,
//! the numbers they encode.
use vstd::prelude::*;

use vstd::arithmetic::power2::pow2;

use crate::digits::{dec_digits_of, digits_val, is_digit_seq};

verus! {

#[verifier::external_type_specification]
#[verifier::external_body]
pub struct ExU256(ethers_core::types::U256);

#[verifier::external_type_specification]
#[verifier::external_body]
pub struct ExI256(ethers_core::types::I256);

#[verifier::external_type_specification]
#[verifier::external_body]
pub struct ExParseI256Error(ethers_core::types::ParseI256Error);

/// The number that the unsigned 256-bit integer `u` encodes.
pub uninterp spec fn u256_val(u: ethers_core::types::U256) -> nat;

/// The number that the signed (two's complement) 256-bit integer `i`
/// encodes.
pub uninterp spec fn i256_val(i: ethers_core::types::I256) -> int;

/// Relies on `U256::from_dec_str`: it accepts exactly the all-digit
/// strings whose value fits 256 bits (the empty string giving zero), and
/// returns that value.
#[verifier::external_body]
pub(crate) fn u256_from_digits(s: &str) -> (r: Option<ethers_core::types::U256>)
    ensures
        (r is Some) <==> (is_digit_seq(s@) && digits_val(s@) < pow2(256)),
        r matches Some(u) ==> u256_val(u) == digits_val(s@),
{
    ethers_core::types::U256::from_dec_str(s).ok()
}

/// Relies on `U256`'s `Display` (through `ToString`): the minimal decimal
/// digits of the value, `"0"` for zero.
#[verifier::external_body]
pub(crate) fn u256_to_digits(u: &ethers_core::types::U256) -> (r: String)
    ensures
        r@ == dec_digits_of(u256_val(*u)),
{
    u.to_string()
}

/// Relies on `U256`'s `Ord`: comparison of the words from the most
/// significant down, which orders the encoded numbers.
#[verifier::external_body]
pub(crate) fn u256_le(a: &ethers_core::types::U256, b: &ethers_core::types::U256) -> (r: bool)
    ensures
        r == (u256_val(*a) <= u256_val(*b)),
{
    a <= b
}

/// Relies on `I256::MIN` and `I256::unsigned_abs`: the magnitude of the
/// smallest signed 256-bit value, `2^255`.
#[verifier::external_body]
pub(crate) fn i256_min_abs() -> (r: ethers_core::types::U256)
    ensures
        u256_val(r) == pow2(255),
{
    ethers_core::types::I256::MIN.unsigned_abs()
}

/// Relies on `I256::from_raw`: the two's-complement reading of a 256-bit
/// word, unchanged below `2^255` and shifted down by `2^256` above.
#[verifier::external_body]
pub(crate) fn i256_from_raw(u: &ethers_core::types::U256) -> (r: ethers_core::types::I256)
    ensures
        i256_val(r) == (if u256_val(*u) < pow2(255) {
            u256_val(*u) as int
        } else {
            u256_val(*u) - pow2(256)
        }),
{
    ethers_core::types::I256::from_raw(*u)
}

/// Relies on `I256::checked_neg`: exact negation, refused only for the
/// minimum value, whose negation is not representable.
#[verifier::external_body]
pub(crate) fn i256_checked_neg(i: &ethers_core::types::I256) -> (r: Option<ethers_core::types::I256>)
    ensures
        r is Some <==> i256_val(*i) != -(pow2(255) as int),
        r matches Some(n) ==> i256_val(n) == -i256_val(*i),
{
    (*i).checked_neg()
}

/// Relies on `I256`'s `Display` (through `ToString`): a `'-'` exactly for
/// negative values, then the minimal decimal digits of the magnitude.
#[verifier::external_body]
pub(crate) fn i256_to_digits(i: &ethers_core::types::I256) -> (r: String)
    ensures
        r@ == (if i256_val(*i) >= 0 {
            dec_digits_of(i256_val(*i) as nat)
        } else {
            seq!['-'] + dec_digits_of((-i256_val(*i)) as nat)
        }),
{
    i.to_string()
}

} // verus!
