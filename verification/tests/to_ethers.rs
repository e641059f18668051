use bigdecimal::{BigDecimal, FromPrimitive};
use bigdecimal_ethers_ext::BigDecimalEthersExt;

#[test]
fn should_convert_big_decimal_u8_to_ethers_u256_with_18_decimals() {
    let value = BigDecimal::from_u8(10).unwrap();
    let u256 = value.to_ethers_u256(18).unwrap();
    assert_eq!(u256.to_string(), "10000000000000000000");
}

#[test]
fn should_convert_big_decimal_f64_to_ethers_u256_with_18_decimals() {
    let value = BigDecimal::from_f64(12.5).unwrap();
    let u256 = value.to_ethers_u256(18).unwrap();
    assert_eq!(u256.to_string(), "12500000000000000000");
}

#[test]
fn should_convert_big_decimal_f64_to_ethers_i256_with_18_decimals() {
    let value = BigDecimal::from_f64(-12.5).unwrap();
    let i256 = value.to_ethers_i256(18).unwrap();
    assert_eq!(i256.to_string(), "-12500000000000000000");
}

#[test]
fn should_convert_big_decimal_f64_to_ethers_u256_with_2_decimals() {
    let value = BigDecimal::from_f64(12.5).unwrap();
    let u256 = value.to_ethers_u256(2).unwrap();
    assert_eq!(u256.to_string(), "1250");
}

#[test]
fn should_convert_big_decimal_f64_to_ethers_i256_with_2_decimals() {
    let value = BigDecimal::from_f64(-12.5).unwrap();
    let i256 = value.to_ethers_i256(2).unwrap();
    assert_eq!(i256.to_string(), "-1250");
}

#[test]
fn should_convert_big_decimal_f64_to_ethers_u256_with_0_decimals() {
    let value = BigDecimal::from_f64(12.0).unwrap();
    let u256 = value.to_ethers_u256(0).unwrap();
    assert_eq!(u256.to_string(), "12");
}

#[test]
fn should_convert_big_decimal_f64_to_ethers_i256_with_0_decimals() {
    let value = BigDecimal::from_f64(12.0).unwrap();
    let i256 = value.to_ethers_i256(0).unwrap();
    assert_eq!(i256.to_string(), "12");
}

#[test]
fn should_not_convert_big_decimal_f64_to_ethers_u256_with_0_decimals() {
    // This should fail because data would be lost otherwise.
    let value = BigDecimal::from_f64(12.5).unwrap();
    let option = value.to_ethers_u256(0);
    assert!(option.is_none());
}

#[test]
fn should_not_convert_big_decimal_f64_to_ethers_i256_with_0_decimals() {
    // This should fail because data would be lost otherwise.
    let value = BigDecimal::from_f64(12.5).unwrap();
    let option = value.to_ethers_i256(0);
    assert!(option.is_none());
}
