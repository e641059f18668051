use std::str::FromStr;

use bigdecimal::{BigDecimal, FromPrimitive};
use bigdecimal_ethers_ext::from_ethers::{decode_string, left_pad, parse_negative_sign};
use bigdecimal_ethers_ext::to_ethers::{encode_i256, encode_u256, scale_unsigned_decimal, split_decimal};
use bigdecimal_ethers_ext::BigDecimalEthersExt;
use bigdecimal_ethers_ext::ConversionError;
use ethers_core::types::{I256, U256};

const I256_MAX_DEC: &str =
    "57896044618658097711785492504343953926634992332820282019728792003956564819967";
const I256_MIN_ABS_DEC: &str =
    "57896044618658097711785492504343953926634992332820282019728792003956564819968";
const I256_MIN_ABS_PLUS_ONE_DEC: &str =
    "57896044618658097711785492504343953926634992332820282019728792003956564819969";

#[test]
fn round_trip_ten_point_five_with_18_decimals() {
    let value = BigDecimal::from_f64(10.5).unwrap();
    let u256 = value.to_ethers_u256(18).unwrap();
    assert_eq!(u256.to_string(), "10500000000000000000");
    let back = BigDecimal::from_ethers_u256(&u256, 18).unwrap();
    assert_eq!(back.to_string(), "10.500000000000000000");
}

#[test]
fn signed_encoding_succeeds_at_positive_boundary() {
    let value = BigDecimal::from_str(I256_MAX_DEC).unwrap();
    let i256 = value.to_ethers_i256(0).unwrap();
    assert_eq!(i256, I256::MAX);
}

#[test]
fn signed_encoding_fails_one_above_positive_boundary() {
    let value = BigDecimal::from_str(I256_MIN_ABS_DEC).unwrap();
    assert!(value.to_ethers_i256(0).is_none());
    assert_eq!(encode_i256(&value, 0), Err(ConversionError::Overflow));
}

#[test]
fn signed_encoding_succeeds_at_negative_boundary() {
    let raw = format!("-{I256_MIN_ABS_DEC}");
    let value = BigDecimal::from_str(&raw).unwrap();
    let i256 = value.to_ethers_i256(0).unwrap();
    assert_eq!(i256, I256::MIN);
}

#[test]
fn signed_encoding_fails_one_below_negative_boundary() {
    let raw = format!("-{I256_MIN_ABS_PLUS_ONE_DEC}");
    let value = BigDecimal::from_str(&raw).unwrap();
    assert!(value.to_ethers_i256(0).is_none());
    assert_eq!(encode_i256(&value, 0), Err(ConversionError::Overflow));
}

#[test]
fn signed_encoding_preserves_sign() {
    let value = BigDecimal::from_f64(100.5).unwrap();
    let positive = value.to_ethers_i256(3).unwrap();
    let negative = (-value).to_ethers_i256(3).unwrap();
    assert_eq!(negative, -positive);
    assert_eq!(positive.to_string(), "100500");
    assert_eq!(negative.to_string(), "-100500");
}

#[test]
fn zero_encodes_to_zero_at_any_scale() {
    let zero = BigDecimal::from_u8(0).unwrap();
    assert_eq!(zero.to_ethers_u256(18).unwrap(), U256::zero());
    assert_eq!(zero.to_ethers_u256(0).unwrap(), U256::zero());
    assert_eq!(zero.to_ethers_i256(7).unwrap(), I256::zero());
}

#[test]
fn zero_decodes_to_zero_at_any_scale() {
    let bd = BigDecimal::from_ethers_u256(&U256::zero(), 3).unwrap();
    assert_eq!(bd.to_string(), "0.000");
    assert_eq!(bd, BigDecimal::from_u8(0).unwrap());
    let bd0 = BigDecimal::from_ethers_u256(&U256::zero(), 0).unwrap();
    assert_eq!(bd0.to_string(), "0");
}

#[test]
fn precision_loss_is_reported_for_too_many_fraction_digits() {
    let value = BigDecimal::from_f64(12.5).unwrap();
    assert_eq!(encode_u256(&value, 0), Err(ConversionError::PrecisionLoss));
    assert_eq!(encode_i256(&value, 0), Err(ConversionError::PrecisionLoss));
    assert_eq!(encode_u256(&value, 1).unwrap().to_string(), "125");
}

#[test]
fn trailing_fraction_zeros_are_not_precision_loss() {
    let value = BigDecimal::from_str("12.500").unwrap();
    assert_eq!(encode_u256(&value, 1).unwrap().to_string(), "125");
    assert_eq!(encode_u256(&value, 2).unwrap().to_string(), "1250");
}

#[test]
fn negative_value_overflows_the_unsigned_range() {
    let value = BigDecimal::from_f64(-12.5).unwrap();
    assert!(value.to_ethers_u256(2).is_none());
    assert_eq!(encode_u256(&value, 2), Err(ConversionError::Overflow));
}

#[test]
fn unsigned_encoding_fails_beyond_256_bits() {
    let value = BigDecimal::from_str(I256_MIN_ABS_DEC).unwrap();
    // 2^255 scaled by one more decimal place exceeds 2^256 - 1.
    assert_eq!(encode_u256(&value, 1), Err(ConversionError::Overflow));
    assert_eq!(
        encode_u256(&value, 0).unwrap().to_string(),
        I256_MIN_ABS_DEC
    );
}

#[test]
fn malformed_strings_are_rejected() {
    assert_eq!(
        decode_string(String::from("12a"), 0),
        Err(ConversionError::MalformedInput)
    );
    assert_eq!(
        decode_string(String::from("1.5"), 2),
        Err(ConversionError::MalformedInput)
    );
    assert!(BigDecimal::from_bn_string(String::from("--3"), 2).is_none());
}

#[test]
fn empty_raw_string_decodes_as_zero() {
    let bd = BigDecimal::from_bn_string(String::new(), 1).unwrap();
    assert_eq!(bd.to_string(), "0.0");
}

#[test]
fn splits_at_the_decimal_point() {
    let (int_part, frac_part) = split_decimal("10.5");
    assert_eq!(int_part, "10");
    assert_eq!(frac_part, "5");
    let (int_only, empty_frac) = split_decimal("42");
    assert_eq!(int_only, "42");
    assert_eq!(empty_frac, "");
}

#[test]
fn scales_by_stripping_and_padding() {
    assert_eq!(scale_unsigned_decimal("10.5", 3).unwrap(), "10500");
    assert_eq!(scale_unsigned_decimal("10.500", 2).unwrap(), "1050");
    assert_eq!(scale_unsigned_decimal("7", 0).unwrap(), "7");
    assert_eq!(
        scale_unsigned_decimal("0.123", 2),
        Err(ConversionError::PrecisionLoss)
    );
}

#[test]
fn pads_on_the_left_to_the_requested_length() {
    assert_eq!(left_pad(String::from("35"), 4, '0'), "0035");
    assert_eq!(left_pad(String::from("35"), 2, '0'), "35");
    assert_eq!(left_pad(String::from("123"), 1, '0'), "123");
    assert_eq!(left_pad(String::new(), 3, 'x'), "xxx");
}

#[test]
fn parses_and_removes_a_leading_negative_sign() {
    let mut signed = String::from("-17");
    assert_eq!(parse_negative_sign(&mut signed), "-");
    assert_eq!(signed, "17");
    let mut unsigned = String::from("17");
    assert_eq!(parse_negative_sign(&mut unsigned), "");
    assert_eq!(unsigned, "17");
}

#[test]
fn maximum_scale_is_supported() {
    let bd = BigDecimal::from_bn_string(String::from("1"), 255).unwrap();
    let expected = format!("0.{}1", "0".repeat(254));
    assert_eq!(bd.to_string(), expected);
    let back = bd.to_ethers_u256(255).unwrap();
    assert_eq!(back.to_string(), "1");
}

#[test]
fn purely_fractional_values_keep_a_zero_integer_digit() {
    let u256 = U256::from_str_radix("3", 10).unwrap();
    let bd = BigDecimal::from_ethers_u256(&u256, 2).unwrap();
    assert_eq!(bd.to_string(), "0.03");
}
