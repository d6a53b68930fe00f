use swap_quoter::amount::BigAmount;
use swap_quoter::errors::UniswapError;
use swap_quoter::uniswap::{
    extract_revert_reason, min_output_after_slippage, orient_reserves, UniswapV2Client,
};

fn amount(v: u64) -> BigAmount {
    BigAmount::from_u64(v)
}

fn amount_str(s: &str) -> BigAmount {
    BigAmount::from_dec_str(s).unwrap()
}

#[test]
fn test_calculate_amount_out() {
    let client = UniswapV2Client::new();

    let amount_in = amount(1_000_000_000_000_000_000u64);
    let reserve_in = amount_str("100000000000000000000");
    let reserve_out = amount(200_000_000_000u64);

    let amount_out = client
        .calculate_amount_out(&amount_in, &reserve_in, &reserve_out)
        .unwrap();

    assert!(amount(1_974_000_000u64).lt(&amount_out));
    assert!(amount_out.lt(&amount(1_975_000_000u64)));
}

#[test]
fn test_calculate_price_impact() {
    let client = UniswapV2Client::new();

    let amount_in = amount(1_000_000_000_000_000_000u64);
    let reserve_in = amount_str("100000000000000000000");

    let impact_scaled = client
        .calculate_price_impact(&amount_in, &reserve_in)
        .unwrap();

    let impact = impact_scaled.to_u64() as f64 / 100.0;
    assert!((impact - 1.0).abs() < 0.001);
}

#[test]
fn test_calculate_amount_out_with_fee() {
    let client = UniswapV2Client::new();

    let amount_in = amount(1000);
    let reserve_in = amount(10000);
    let reserve_out = amount(10000);

    let amount_out = client
        .calculate_amount_out(&amount_in, &reserve_in, &reserve_out)
        .unwrap();

    assert_eq!(amount_out, amount(906));
}

#[test]
fn test_calculate_amount_out_zero_amount() {
    let client = UniswapV2Client::new();

    let result = client.calculate_amount_out(&BigAmount::zero(), &amount(1000), &amount(1000));

    assert!(result.is_err());
    assert!(matches!(result.unwrap_err(), UniswapError::InvalidAmount));
}

#[test]
fn test_calculate_amount_out_zero_reserves() {
    let client = UniswapV2Client::new();

    let result = client.calculate_amount_out(&amount(100), &BigAmount::zero(), &amount(1000));

    assert!(result.is_err());
    assert!(matches!(
        result.unwrap_err(),
        UniswapError::InsufficientLiquidity
    ));
}

#[test]
fn test_calculate_amounts_out_multi_hop() {
    let client = UniswapV2Client::new();

    let amount_in = amount(1000);
    let reserves = vec![
        (amount(10000), amount(5000)),
        (amount(5000), amount(20000)),
    ];

    let amounts = client.calculate_amounts_out(&amount_in, &reserves).unwrap();

    assert_eq!(amounts.len(), 3);
    assert_eq!(amounts[0], amount(1000));
    assert_eq!(amounts[1], amount(453));
    assert_eq!(amounts[2], amount(1656));
}

#[test]
fn test_amounts_out_stops_at_first_bad_hop() {
    let client = UniswapV2Client::new();

    let reserves = vec![
        (amount(10000), amount(5000)),
        (BigAmount::zero(), amount(20000)),
    ];

    let result = client.calculate_amounts_out(&amount(1000), &reserves);
    assert!(matches!(
        result.unwrap_err(),
        UniswapError::InsufficientLiquidity
    ));
}

#[test]
fn test_fee_output_monotone_in_input() {
    let client = UniswapV2Client::new();
    let reserve_in = amount(10000);
    let reserve_out = amount(10000);

    let small = client
        .calculate_amount_out(&amount(500), &reserve_in, &reserve_out)
        .unwrap();
    let large = client
        .calculate_amount_out(&amount(1500), &reserve_in, &reserve_out)
        .unwrap();
    assert!(small.lt(&large));
}

#[test]
fn test_fee_output_below_no_fee_output() {
    let client = UniswapV2Client::new();

    // With the fee: (1000 * 997 * 10000) / (10000 * 1000 + 1000 * 997) = 906.
    // Without it: 1000 * 10000 / (10000 + 1000) = 909.
    let with_fee = client
        .calculate_amount_out(&amount(1000), &amount(10000), &amount(10000))
        .unwrap();
    assert!(with_fee.lt(&amount(909)));
}

#[test]
fn test_build_swap_path_direct_and_routed() {
    let client = UniswapV2Client::new();
    let weth = client.weth_address();
    let other = swap_quoter::address::Address::from_hex_str(
        "0xA0b86991c6218b36c1d19D4a2e9Eb0cE3606eB48",
    )
    .unwrap();
    let third = swap_quoter::address::Address::from_hex_str(
        "0x6B175474E89094C44Da98b954EedeAC495271d0F",
    )
    .unwrap();

    let direct = client.build_swap_path(&weth, &other);
    assert_eq!(direct.len(), 2);
    assert_eq!(direct[0], weth);
    assert_eq!(direct[1], other);

    let routed = client.build_swap_path(&other, &third);
    assert_eq!(routed.len(), 3);
    assert_eq!(routed[1], client.weth_address());
}

#[test]
fn test_orient_reserves_by_address_order() {
    let low = swap_quoter::address::Address::from_hex_str(
        "0x1f9840a85d5aF5bf1D1762F925BDADdC4201F984",
    )
    .unwrap();
    let high = swap_quoter::address::Address::from_hex_str(
        "0xC02aaA39b223FE8D0A0e5C4F27eAD9083C756Cc2",
    )
    .unwrap();

    let (a, b) = orient_reserves(&low, &high, &amount(7), &amount(9));
    assert_eq!(a, amount(7));
    assert_eq!(b, amount(9));

    let (c, d) = orient_reserves(&high, &low, &amount(7), &amount(9));
    assert_eq!(c, amount(9));
    assert_eq!(d, amount(7));
}

#[test]
fn test_min_output_after_slippage_basis_points() {
    let out = amount(10000);
    assert_eq!(min_output_after_slippage(&out, 50), amount(9950));
    assert_eq!(min_output_after_slippage(&out, 0), amount(10000));
    assert_eq!(min_output_after_slippage(&out, 10000), BigAmount::zero());
}

#[test]
fn test_quote_from_reserves_direct_swap() {
    let client = UniswapV2Client::new();
    let weth = client.weth_address();
    let usdc = swap_quoter::address::Address::from_hex_str(
        "0xA0b86991c6218b36c1d19D4a2e9Eb0cE3606eB48",
    )
    .unwrap();
    let pool = swap_quoter::address::Address::from_hex_str(
        "0xB4e16d0168e52d35CaCD2c6185b44281Ec28C9Dc",
    )
    .unwrap();

    let path = vec![weth, usdc];
    let reserves = vec![(
        amount_str("100000000000000000000"),
        amount(200_000_000_000u64),
    )];
    let quote = client
        .quote_from_reserves(
            path,
            &amount(1_000_000_000_000_000_000u64),
            &reserves,
            vec![pool],
        )
        .unwrap();

    assert!(amount(1_974_000_000u64).lt(&quote.amount_out));
    assert!(quote.amount_out.lt(&amount(1_975_000_000u64)));
    assert_eq!(quote.price_impact, amount(100));
    assert_eq!(quote.path.len(), 2);
    assert_eq!(quote.pair_addresses.len(), 1);
}

#[test]
fn test_simulation_outcome_success_keeps_gas() {
    let client = UniswapV2Client::new();
    let quote = sample_quote(&client);
    let sim = client.simulation_outcome(quote, Ok(Some(amount(150000))));
    assert!(sim.simulation_success);
    assert_eq!(sim.gas_estimate, Some(amount(150000)));
    assert!(sim.revert_reason.is_none());
}

#[test]
fn test_simulation_outcome_failure_classifies() {
    let client = UniswapV2Client::new();
    let quote = sample_quote(&client);
    let sim = client.simulation_outcome(
        quote,
        Err("call failed: TRANSFER_FROM_FAILED at router".to_string()),
    );
    assert!(!sim.simulation_success);
    assert!(sim.gas_estimate.is_none());
    assert_eq!(
        sim.revert_reason.unwrap(),
        "Token transfer failed (check allowance)"
    );
}

#[test]
fn test_extract_revert_reason_patterns() {
    assert_eq!(
        extract_revert_reason("execution reverted: K").unwrap(),
        "execution reverted: K"
    );
    assert_eq!(
        extract_revert_reason("insufficient funds for gas").unwrap(),
        "Insufficient liquidity or balance"
    );
    assert_eq!(
        extract_revert_reason("deadline EXPIRED").unwrap(),
        "Transaction deadline expired"
    );
    assert_eq!(extract_revert_reason("boom").unwrap(), "boom");
}

fn sample_quote(client: &UniswapV2Client) -> swap_quoter::uniswap::SwapQuote {
    let weth = client.weth_address();
    let usdc = swap_quoter::address::Address::from_hex_str(
        "0xA0b86991c6218b36c1d19D4a2e9Eb0cE3606eB48",
    )
    .unwrap();
    let pool = swap_quoter::address::Address::from_hex_str(
        "0xB4e16d0168e52d35CaCD2c6185b44281Ec28C9Dc",
    )
    .unwrap();
    let reserves = vec![(amount(10000), amount(10000))];
    client
        .quote_from_reserves(vec![weth, usdc], &amount(1000), &reserves, vec![pool])
        .unwrap()
}
