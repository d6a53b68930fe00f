use swap_quoter::erc20::token_info_from_parts;
use swap_quoter::registry::TokenRegistry;
use swap_quoter::types::TokenInfo;

#[test]
fn test_registry_creation() {
    let registry = TokenRegistry::new();
    assert!(registry.contains("ETH"));
    assert!(registry.contains("WETH"));
    assert!(registry.contains("USDC"));
    assert!(registry.contains("DAI"));
}

#[test]
fn test_eth_alias_resolves_to_weth_address() {
    let registry = TokenRegistry::new();

    let eth = registry.resolve("ETH").unwrap();
    assert_eq!(eth.symbol, "ETH");
    assert_eq!(eth.name, "Ether");
    assert_eq!(eth.decimals, 18);

    let weth = registry.resolve("WETH").unwrap();
    assert_eq!(eth.address, weth.address);
    assert_eq!(
        eth.address.to_lowercase(),
        "0xc02aaa39b223fe8d0a0e5c4f27ead9083c756cc2"
    );
}

#[test]
fn test_resolve_by_symbol() {
    let registry = TokenRegistry::new();

    let usdc = registry.resolve("USDC").unwrap();
    assert_eq!(usdc.symbol, "USDC");
    assert_eq!(usdc.decimals, 6);

    let dai = registry.resolve("dai").unwrap();
    assert_eq!(dai.symbol, "DAI");
    assert_eq!(dai.decimals, 18);
}

#[test]
fn test_resolve_by_address() {
    let registry = TokenRegistry::new();

    let weth_addr = "0xC02aaA39b223FE8D0A0e5C4F27eAD9083C756Cc2";
    let token = registry.resolve(weth_addr).unwrap();
    assert!(token.symbol == "WETH" || token.symbol == "ETH");

    let token_lower = registry.resolve(&weth_addr.to_lowercase()).unwrap();
    assert!(token_lower.symbol == "WETH" || token_lower.symbol == "ETH");
}

#[test]
fn test_resolve_unknown_address() {
    let registry = TokenRegistry::new();

    let unknown = registry
        .resolve("0x1234567890123456789012345678901234567890")
        .unwrap();
    assert_eq!(unknown.symbol, "UNKNOWN");
    assert_eq!(unknown.decimals, 18);
}

#[test]
fn test_resolve_invalid() {
    let registry = TokenRegistry::new();

    assert!(registry.resolve("INVALID").is_none());

    assert!(registry.resolve("0xinvalid").is_none());
}

#[test]
fn test_register_custom_token() {
    let mut registry = TokenRegistry::new();

    let custom = TokenInfo {
        symbol: "CUSTOM".to_string(),
        name: "Custom Token".to_string(),
        address: "0x1234567890123456789012345678901234567890".to_string(),
        decimals: 18,
    };
    let custom_address = custom.address.clone();

    registry.register("CUSTOM".to_string(), custom);

    let resolved = registry.resolve("CUSTOM").unwrap();
    assert_eq!(resolved.symbol, "CUSTOM");
    assert_eq!(resolved.address, custom_address);
}

#[test]
fn test_registered_token_found_by_address() {
    let mut registry = TokenRegistry::new();

    let custom = TokenInfo {
        symbol: "CUSTOM".to_string(),
        name: "Custom Token".to_string(),
        address: "0x1234567890123456789012345678901234567890".to_string(),
        decimals: 9,
    };
    registry.register("CUSTOM".to_string(), custom);

    let resolved = registry
        .resolve("0x1234567890123456789012345678901234567890")
        .unwrap();
    assert_eq!(resolved.symbol, "CUSTOM");
    assert_eq!(resolved.decimals, 9);
}

#[test]
fn test_all_tokens() {
    let registry = TokenRegistry::new();
    let all = registry.all_tokens();
    assert!(all.len() >= 6);
}

#[test]
fn test_eth_token_info() {
    let eth = TokenInfo::eth();
    assert_eq!(eth.symbol, "ETH");
    assert_eq!(eth.decimals, 18);
    assert!(eth.is_eth());
}

#[test]
fn test_token_info_from_parts_defaults() {
    let full = token_info_from_parts(
        "0x1234567890123456789012345678901234567890".to_string(),
        Some("TOK".to_string()),
        Some("Token".to_string()),
        Some(6),
    );
    assert_eq!(full.symbol, "TOK");
    assert_eq!(full.name, "Token");
    assert_eq!(full.decimals, 6);

    let bare = token_info_from_parts(
        "0x1234567890123456789012345678901234567890".to_string(),
        None,
        None,
        None,
    );
    assert_eq!(bare.symbol, "UNKNOWN");
    assert_eq!(bare.name, "Unknown Token");
    assert_eq!(bare.decimals, 18);
}
