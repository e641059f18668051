//! Conversion between arbitrary-precision decimal numbers and 256-bit
//! fixed-point integers, in the style of ledger "decimals" encodings.
//!
//! A decimal value is carried through its canonical base-10 string form
//! (`[-]digits[.digits]`); the conversions scale it by `10^decimals`,
//! reject silent precision loss, and detect overflow of the 256-bit
//! unsigned and signed ranges.
#![verifier::loop_isolation(false)]
use vstd::prelude::*;

use vstd::arithmetic::power2::pow2;

use crate::bigdec::bd_str;
use crate::decimal::{
    is_negative_str, parse_decimal_render, precision_ok, recompose_fixed, scaled_digits,
    unsigned_part,
};
use crate::digits::{dec_digits_of, digits_val, is_digit_seq};
use crate::int256::{i256_val, u256_val};
use crate::to_ethers::to_signed_fixed_spec;

pub mod bigdec;
pub mod decimal;
pub mod digits;
pub mod from_ethers;
pub mod int256;
pub mod laws;
pub mod strutil;
pub mod to_ethers;

verus! {

/// Why a conversion was refused.
#[derive(Clone, Copy, Debug, PartialEq, Eq, Structural)]
pub enum ConversionError {
    /// Encoding would silently drop non-zero fractional digits.
    PrecisionLoss,
    /// The scaled value does not fit the target 256-bit range.
    Overflow,
    /// The input is not an optionally signed base-10 digit string.
    MalformedInput,
}

/// Conversions between an exact decimal value and 256-bit fixed-point
/// integers, exposed on the decimal type itself. Every method forwards to a
/// verified free function carrying the full contract.
pub trait BigDecimalEthersExt where Self: Sized {
    /// Encode as an unsigned fixed-point integer with `decimals` places.
    fn to_ethers_u256(&self, decimals: u8) -> Option<ethers_core::types::U256>;

    /// Encode as a signed fixed-point integer with `decimals` places.
    fn to_ethers_i256(&self, decimals: u8) -> Option<ethers_core::types::I256>;

    /// Decode an unsigned fixed-point integer with `decimals` places.
    fn from_ethers_u256(bn: &ethers_core::types::U256, decimals: u8) -> Option<Self>;

    /// Decode a signed fixed-point integer with `decimals` places.
    fn from_ethers_i256(bn: &ethers_core::types::I256, decimals: u8) -> Option<Self>;

    /// Decode a raw, optionally signed base-10 digit string holding a
    /// fixed-point integer with `decimals` places.
    fn from_bn_string(bn: String, decimals: u8) -> Option<Self>;
}

impl BigDecimalEthersExt for bigdecimal::BigDecimal {
    fn to_ethers_u256(&self, decimals: u8) -> (r: Option<ethers_core::types::U256>)
        ensures
            ({
                let u = unsigned_part(bd_str(*self));
                let d = decimals as nat;
                match r {
                    Some(v) => !is_negative_str(bd_str(*self)) && precision_ok(u, d) && digits_val(
                        scaled_digits(u, d),
                    ) < pow2(256) && u256_val(v) == digits_val(scaled_digits(u, d)),
                    None => !precision_ok(u, d) || is_negative_str(bd_str(*self)) || digits_val(
                        scaled_digits(u, d),
                    ) >= pow2(256),
                }
            }),
    {
        crate::to_ethers::to_ethers_u256(self, decimals)
    }

    fn to_ethers_i256(&self, decimals: u8) -> (r: Option<ethers_core::types::I256>)
        ensures
            ({
                let spec_r = to_signed_fixed_spec(
                    is_negative_str(bd_str(*self)),
                    unsigned_part(bd_str(*self)),
                    decimals as nat,
                );
                match r {
                    Some(i) => spec_r == Some(i256_val(i)),
                    None => spec_r is None,
                }
            }),
    {
        crate::to_ethers::to_ethers_i256(self, decimals)
    }

    fn from_ethers_u256(bn: &ethers_core::types::U256, decimals: u8) -> (r: Option<Self>)
        ensures
            r is Some,
            r matches Some(bd) ==> bd_str(bd) == parse_decimal_render(
                recompose_fixed(false, dec_digits_of(u256_val(*bn)), decimals as nat),
            ),
    {
        crate::from_ethers::from_ethers_u256(bn, decimals)
    }

    fn from_ethers_i256(bn: &ethers_core::types::I256, decimals: u8) -> (r: Option<Self>)
        ensures
            r is Some,
            r matches Some(bd) ==> bd_str(bd) == parse_decimal_render(
                recompose_fixed(
                    i256_val(*bn) < 0,
                    dec_digits_of(
                        (if i256_val(*bn) < 0 {
                            -i256_val(*bn)
                        } else {
                            i256_val(*bn)
                        }) as nat,
                    ),
                    decimals as nat,
                ),
            ),
    {
        crate::from_ethers::from_ethers_i256(bn, decimals)
    }

    fn from_bn_string(bn: String, decimals: u8) -> (r: Option<Self>)
        ensures
            ({
                let m = unsigned_part(bn@);
                match r {
                    Some(bd) => is_digit_seq(m) && bd_str(bd) == parse_decimal_render(
                        recompose_fixed(is_negative_str(bn@), m, decimals as nat),
                    ),
                    None => !is_digit_seq(m),
                }
            }),
    {
        crate::from_ethers::to_big_decimal(bn, decimals)
    }
}

} // verus!
