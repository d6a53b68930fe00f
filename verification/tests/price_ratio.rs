use swap_quoter::amount::BigAmount;
use swap_quoter::price::{
    calculate_price_ratio, format_division, format_division_fallback, price_ratio_with_path,
    to_working_precision, RatioPath,
};

fn amount(v: u64) -> BigAmount {
    BigAmount::from_u64(v)
}

fn amount_str(s: &str) -> BigAmount {
    BigAmount::from_dec_str(s).unwrap()
}

#[test]
fn test_format_u256_division_internal_basic() {
    let result = format_division(&amount(10), &amount(3), 6);
    assert_eq!(result, "3.333333");

    let result = format_division(&amount(1), &amount(2), 6);
    assert_eq!(result, "0.5");

    let result = format_division(&amount(100), &amount(10), 6);
    assert_eq!(result, "10.0");
}

#[test]
fn test_format_u256_division_fallback_extreme() {
    // Reserves near the 112-bit on-chain storage ceiling.
    let numerator = amount_str("5000000000000000000000000000000000");
    let denominator = amount_str("2000000000000000000000000000000");

    let result = format_division_fallback(&numerator, &denominator, 0, 0);
    assert_eq!(result, "2500.0");
}

#[test]
fn test_u256_to_decimal_safe() {
    let value = amount(123456789);
    let result = to_working_precision(&value);
    assert!(result.is_ok());
    assert_eq!(result.unwrap().to_dec_string(), "123456789");

    let huge_value = amount_str("1000000000000000000000000000000");
    let result = to_working_precision(&huge_value);
    assert!(result.is_err());
}

#[test]
fn test_calculate_price_ratio_large_pools() {
    let usdc_reserve = amount_str("100000000000000");
    let weth_reserve = amount_str("40000000000000000000000");

    let price = calculate_price_ratio(&usdc_reserve, &weth_reserve, 18, 6);

    let price_value: f64 = price.parse().unwrap();
    assert!((price_value - 2500.0).abs() < 1.0);
}

#[test]
fn test_calculate_price_ratio_extreme_liquidity() {
    let reserve1 = amount_str("5000000000000000000000000000000000");
    let reserve2 = amount_str("1000000000000000000000000000000000");

    let price = calculate_price_ratio(&reserve1, &reserve2, 18, 18);

    let price_value: f64 = price.parse().unwrap();
    assert!((price_value - 5.0).abs() < 0.000001);
}

#[test]
fn test_price_ratio_tags_its_path() {
    // A modest ratio stays at working precision.
    let (price, path) = price_ratio_with_path(&amount(3), &amount(2), 18, 18);
    assert_eq!(path, RatioPath::WorkingPrecision);
    assert_eq!(price, "1.5");

    // A ratio whose scaled form outgrows the 96-bit mantissa falls back.
    let numerator = amount_str("5000000000000000000000000000000000");
    let (price, path) = price_ratio_with_path(&numerator, &amount(2), 0, 0);
    assert_eq!(path, RatioPath::ExactFallback);
    assert_eq!(price, "2500000000000000000000000000000000.0");
}

#[test]
fn test_price_ratio_zero_denominator_is_zero_price() {
    let (price, _path) = price_ratio_with_path(&amount(5), &BigAmount::zero(), 18, 18);
    assert_eq!(price, "0");
}

#[test]
fn test_dual_paths_agree_to_six_digits() {
    // Same inputs through both paths: ten thirds at equal decimal counts.
    let (primary, path) = price_ratio_with_path(&amount(10), &amount(3), 18, 18);
    assert_eq!(path, RatioPath::WorkingPrecision);
    let fallback = format_division_fallback(&amount(10), &amount(3), 18, 18);
    assert_eq!(primary, "3.333333");
    assert_eq!(fallback, "3.333333");

    // A whole-number ratio: the fallback keeps its ".0" tail.
    let (primary, _) = price_ratio_with_path(&amount(100), &amount(10), 18, 18);
    let fallback = format_division_fallback(&amount(100), &amount(10), 18, 18);
    assert_eq!(primary, "10");
    assert_eq!(fallback, "10.0");
}
