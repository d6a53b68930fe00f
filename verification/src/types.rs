//! Token metadata and display-level result shapes.

use vstd::prelude::*;

verus! {

/// ERC20-like token metadata: symbol, display name, contract address as a
/// hexadecimal numeral, and the decimal count that fixes the token's scale
/// factor.
#[derive(Debug)]
pub struct TokenInfo {
    /// The ticker symbol.
    pub symbol: String,
    /// The display name.
    pub name: String,
    /// The contract address numeral.
    pub address: String,
    /// The decimal count; `pow10(decimals)` smallest units make one token.
    pub decimals: u8,
}

impl TokenInfo {
    /// A field-for-field copy.
    pub fn duplicate(&self) -> (r: TokenInfo)
        ensures
            r == *self,
    {
        TokenInfo {
            symbol: self.symbol.clone(),
            name: self.name.clone(),
            address: self.address.clone(),
            decimals: self.decimals,
        }
    }

    /// The native coin's metadata: ether itself, with the zero address.
    pub fn eth() -> (r: TokenInfo)
        ensures
            r.symbol@ == "ETH"@,
            r.name@ == "Ether"@,
            r.address@ == "0x0000000000000000000000000000000000000000"@,
            r.decimals == 18,
    {
        TokenInfo {
            symbol: String::from_str("ETH"),
            name: String::from_str("Ether"),
            address: String::from_str("0x0000000000000000000000000000000000000000"),
            decimals: 18,
        }
    }

    /// Whether this metadata stands for the native coin: the zero address,
    /// or the `ETH` symbol.
    pub fn is_eth(&self) -> (r: bool)
        ensures
            r == (self.address@ == "0x0000000000000000000000000000000000000000"@ || self.symbol@
                == "ETH"@),
    {
        let zero = String::from_str("0x0000000000000000000000000000000000000000");
        let eth = String::from_str("ETH");
        self.address.eq(&zero) || self.symbol.eq(&eth)
    }
}

/// A gas estimate projected for display.
#[derive(Debug)]
pub struct GasEstimate {
    /// The gas limit of the call.
    pub gas_limit: u64,
    /// The gas price, in gwei, as a decimal string.
    pub gas_price_gwei: String,
    /// The total cost, in the native coin, as a decimal string.
    pub total_cost_eth: String,
}

/// A swap route projected for display.
#[derive(Debug)]
pub struct SwapRoute {
    /// The protocol the route trades on.
    pub protocol: String,
    /// The token addresses along the route.
    pub path: Vec<String>,
    /// The pool addresses used at each hop.
    pub pools: Vec<String>,
}

} // verus!
