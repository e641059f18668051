use bigdecimal::BigDecimal;
use bigdecimal_ethers_ext::BigDecimalEthersExt;
use ethers_core::types::{I256, U256};

#[test]
fn should_convert_from_ethers_u256_0_decimals_0_digit() {
    let u256 = U256::from_str_radix("", 10).unwrap();
    let bd = BigDecimal::from_ethers_u256(&u256, 0).unwrap();
    let bd_string = bd.to_string();
    assert_eq!(bd_string, "0");
}

#[test]
fn should_convert_from_ethers_u256_0_decimals_1_digit() {
    let u256 = U256::from_str_radix("3", 10).unwrap();
    let bd = BigDecimal::from_ethers_u256(&u256, 0).unwrap();
    let bd_string = bd.to_string();
    assert_eq!(bd_string, "3");
}

#[test]
fn should_convert_from_ethers_i256_0_decimals_1_digit() {
    let i256 = I256::from_dec_str("-3").unwrap();
    let bd = BigDecimal::from_ethers_i256(&i256, 0).unwrap();
    let bd_string = bd.to_string();
    assert_eq!(bd_string, "-3");
}

#[test]
fn should_convert_from_ethers_u256_0_decimals_2_digit() {
    let u256 = U256::from_str_radix("33", 10).unwrap();
    let bd = BigDecimal::from_ethers_u256(&u256, 0).unwrap();
    let bd_string = bd.to_string();
    assert_eq!(bd_string, "33");
}

#[test]
fn should_convert_from_ethers_i256_0_decimals_2_digit() {
    let i256 = I256::from_dec_str("-33").unwrap();
    let bd = BigDecimal::from_ethers_i256(&i256, 0).unwrap();
    let bd_string = bd.to_string();
    assert_eq!(bd_string, "-33");
}

#[test]
fn should_convert_from_ethers_u256_0_decimals_4_digits() {
    let u256 = U256::from_str_radix("1005", 10).unwrap();
    let bd = BigDecimal::from_ethers_u256(&u256, 0).unwrap();
    let bd_string = bd.to_string();
    assert_eq!(bd_string, "1005");
}

#[test]
fn should_convert_from_ethers_i256_0_decimals_4_digits() {
    let i256 = I256::from_dec_str("-1005").unwrap();
    let bd = BigDecimal::from_ethers_i256(&i256, 0).unwrap();
    let bd_string = bd.to_string();
    assert_eq!(bd_string, "-1005");
}

#[test]
fn should_convert_from_ethers_u256_1_decimal_1_digit() {
    let u256 = U256::from_str_radix("3", 10).unwrap();
    let bd = BigDecimal::from_ethers_u256(&u256, 1).unwrap();
    let bd_string = bd.to_string();
    assert_eq!(bd_string, "0.3");
}

#[test]
fn should_convert_from_ethers_i256_1_decimal_1_digit() {
    let i256 = I256::from_dec_str("-3").unwrap();
    let bd = BigDecimal::from_ethers_i256(&i256, 1).unwrap();
    let bd_string = bd.to_string();
    assert_eq!(bd_string, "-0.3");
}

#[test]
fn should_convert_from_ethers_u256_1_decimal_2_digit() {
    let u256 = U256::from_str_radix("33", 10).unwrap();
    let bd = BigDecimal::from_ethers_u256(&u256, 1).unwrap();
    let bd_string = bd.to_string();
    assert_eq!(bd_string, "3.3");
}

#[test]
fn should_convert_from_ethers_i256_1_decimal_2_digit() {
    let i256 = I256::from_dec_str("-33").unwrap();
    let bd = BigDecimal::from_ethers_i256(&i256, 1).unwrap();
    let bd_string = bd.to_string();
    assert_eq!(bd_string, "-3.3");
}

#[test]
fn should_convert_from_ethers_u256_1_decimal_4_digits() {
    let u256 = U256::from_str_radix("1005", 10).unwrap();
    let bd = BigDecimal::from_ethers_u256(&u256, 1).unwrap();
    let bd_string = bd.to_string();
    assert_eq!(bd_string, "100.5");
}

#[test]
fn should_convert_from_ethers_i256_1_decimal_4_digits() {
    let i256 = I256::from_dec_str("-1005").unwrap();
    let bd = BigDecimal::from_ethers_i256(&i256, 1).unwrap();
    let bd_string = bd.to_string();
    assert_eq!(bd_string, "-100.5");
}

#[test]
fn should_convert_from_string_18_decimals_17_digits() {
    let string = String::from("-12345678912345678");
    let bd = BigDecimal::from_bn_string(string, 18).unwrap();
    let bd_string = bd.to_string();
    assert_eq!(bd_string, "-0.012345678912345678")
}

#[test]
fn should_convert_from_string_18_decimals_18_digits() {
    let string = String::from("-123456789123456789");
    let bd = BigDecimal::from_bn_string(string, 18).unwrap();
    let bd_string = bd.to_string();
    assert_eq!(bd_string, "-0.123456789123456789")
}

#[test]
fn should_convert_from_string_18_decimals_19_digits() {
    let string = String::from("-1234567891234567891");
    let bd = BigDecimal::from_bn_string(string, 18).unwrap();
    let bd_string = bd.to_string();
    assert_eq!(bd_string, "-1.234567891234567891")
}
