use swap_quoter::amount::BigAmount;
use swap_quoter::errors::UniswapError;
use swap_quoter::units::{format_units, parse_units};

fn amount(v: u64) -> BigAmount {
    BigAmount::from_u64(v)
}

#[test]
fn test_format_units() {
    let amount_in = amount(1_000_000_000_000_000_000u64);
    assert_eq!(format_units(&amount_in, 18), "1");

    let amount_in = amount(1_500_000_000_000_000_000u64);
    assert_eq!(format_units(&amount_in, 18), "1.5");

    let amount_in = amount(1_000_000u64);
    assert_eq!(format_units(&amount_in, 6), "1");

    let amount_in = amount(100_000_000u64);
    assert_eq!(format_units(&amount_in, 8), "1");

    let amount_in = amount(42);
    assert_eq!(format_units(&amount_in, 0), "42");
}

#[test]
fn test_parse_units() {
    let result = parse_units("1", 18).unwrap();
    assert_eq!(result, amount(1_000_000_000_000_000_000u64));

    let result = parse_units("1.5", 18).unwrap();
    assert_eq!(result, amount(1_500_000_000_000_000_000u64));

    let result = parse_units("1", 6).unwrap();
    assert_eq!(result, amount(1_000_000u64));

    let result = parse_units("1000000", 18).unwrap();
    assert_eq!(
        result,
        BigAmount::from_dec_str("1000000000000000000000000").unwrap()
    );

    let result = parse_units("42", 0).unwrap();
    assert_eq!(result, amount(42));

    let result = parse_units("0.000000000000000001", 18).unwrap();
    assert_eq!(result, amount(1));
}

#[test]
fn test_parse_units_errors() {
    assert!(parse_units("-1", 18).is_err());

    assert!(parse_units("0.0000000000000000001", 18).is_err());

    assert!(parse_units("abc", 18).is_err());
}

#[test]
fn test_parse_units_error_kinds() {
    assert!(matches!(
        parse_units("-1", 18).unwrap_err(),
        UniswapError::NegativeAmount
    ));
    assert!(matches!(
        parse_units("1.23", 1).unwrap_err(),
        UniswapError::PrecisionExceeded
    ));
    assert!(matches!(
        parse_units("abc", 18).unwrap_err(),
        UniswapError::InvalidAmount
    ));
    assert!(matches!(
        parse_units("", 18).unwrap_err(),
        UniswapError::InvalidAmount
    ));
    assert!(matches!(
        parse_units(".", 18).unwrap_err(),
        UniswapError::InvalidAmount
    ));
    // The value 2^256 itself no longer fits the 256-bit width.
    assert!(matches!(
        parse_units(
            "115792089237316195423570985008687907853269984665640564039457584007913129639936",
            0
        )
        .unwrap_err(),
        UniswapError::InvalidAmount
    ));
}

#[test]
fn test_parse_units_accepts_fraction_forms() {
    assert_eq!(parse_units(".5", 1).unwrap(), amount(5));
    assert_eq!(parse_units("5.", 1).unwrap(), amount(50));
    assert_eq!(parse_units("+2", 0).unwrap(), amount(2));
}

#[test]
fn test_parse_units_high_decimals() {
    let result = parse_units("1", 20).unwrap();
    assert_eq!(
        result,
        BigAmount::from_dec_str("100000000000000000000").unwrap()
    );

    let result = parse_units("1", 30).unwrap();
    assert_eq!(
        result,
        BigAmount::from_dec_str("1000000000000000000000000000000").unwrap()
    );

    let result = parse_units("1", 50).unwrap();
    assert_eq!(
        result,
        BigAmount::from_dec_str("100000000000000000000000000000000000000000000000000").unwrap()
    );

    let result = parse_units("1.5", 20).unwrap();
    assert_eq!(
        result,
        BigAmount::from_dec_str("150000000000000000000").unwrap()
    );
}

#[test]
fn test_parse_format_roundtrip() {
    let original = "123.456789";
    let parsed = parse_units(original, 18).unwrap();
    let formatted = format_units(&parsed, 18);
    assert_eq!(formatted, original);
}

#[test]
fn test_parse_format_roundtrip_trims_redundant_zeros() {
    let parsed = parse_units("1.500", 6).unwrap();
    assert_eq!(format_units(&parsed, 6), "1.5");

    let parsed = parse_units("7.000", 6).unwrap();
    assert_eq!(format_units(&parsed, 6), "7");
}

#[test]
fn test_amount_decimal_string_roundtrip() {
    let value = BigAmount::from_dec_str("987654321098765432109876543210").unwrap();
    assert_eq!(
        value.to_dec_string(),
        "987654321098765432109876543210"
    );
    assert_eq!(BigAmount::zero().to_dec_string(), "0");
}

#[test]
fn test_checked_arithmetic_at_the_width() {
    // 2^255 doubles to the very top of the width and no further.
    let half = BigAmount::from_dec_str(
        "57896044618658097711785492504343953926634992332820282019728792003956564819968",
    )
    .unwrap();
    let max = BigAmount::from_dec_str(
        "115792089237316195423570985008687907853269984665640564039457584007913129639935",
    )
    .unwrap();
    assert!(half.checked_plus(&half).is_none());
    assert_eq!(
        max.checked_plus(&BigAmount::zero()).unwrap(),
        max
    );
    assert!(max.checked_times(&BigAmount::from_u64(2)).is_none());
}
