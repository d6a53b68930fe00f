//! The symbol-to-metadata token registry: a lookup table keyed by
//! upper-cased symbols and lower-cased address numerals, preloaded with the
//! network's common tokens.

use vstd::prelude::*;
use crate::address::is_hex_address_chars;
use crate::text::{ascii_lowercase, ascii_uppercase, lower_char, upper_char};
use crate::types::TokenInfo;

verus! {

/// One registry entry: a normalized key and the metadata it names.
pub struct TokenEntry {
    /// The key: an upper-cased symbol or a lower-cased address numeral.
    pub key: String,
    /// The token the key names.
    pub info: TokenInfo,
}

/// The first entry whose key matches, scanning from the front.
pub open spec fn lookup_by_key(entries: Seq<TokenEntry>, key: Seq<char>) -> Option<TokenInfo>
    decreases entries.len(),
{
    if entries.len() == 0 {
        None
    } else if entries[0].key@ == key {
        Some(entries[0].info)
    } else {
        lookup_by_key(entries.skip(1), key)
    }
}

/// The first entry whose stored address, lower-cased, matches, scanning
/// from the front.
pub open spec fn lookup_by_address(entries: Seq<TokenEntry>, addr_lower: Seq<char>) -> Option<
    TokenInfo,
>
    decreases entries.len(),
{
    if entries.len() == 0 {
        None
    } else if normalized_address(entries[0].info.address@) == addr_lower {
        Some(entries[0].info)
    } else {
        lookup_by_address(entries.skip(1), addr_lower)
    }
}

/// The normalized key a caller's text resolves through: symbols are
/// upper-cased.
pub open spec fn normalized_symbol_key(s: Seq<char>) -> Seq<char> {
    if vstd::utf8::is_ascii_chars(s) {
        s.map_values(|c: char| upper_char(c))
    } else {
        s
    }
}

/// The normalized form an address numeral is compared by: lower-cased.
pub open spec fn normalized_address(s: Seq<char>) -> Seq<char> {
    if vstd::utf8::is_ascii_chars(s) {
        s.map_values(|c: char| lower_char(c))
    } else {
        s
    }
}


/// The seven preloaded symbols are pairwise distinct keys.
proof fn lemma_default_keys_distinct()
    ensures
        "WETH"@ != "ETH"@ && "WETH"@ != "USDC"@ && "WETH"@ != "USDT"@ && "WETH"@ != "DAI"@
            && "WETH"@ != "WBTC"@ && "WETH"@ != "UNI"@,
        "ETH"@ != "USDC"@ && "ETH"@ != "USDT"@ && "ETH"@ != "DAI"@ && "ETH"@ != "WBTC"@ && "ETH"@
            != "UNI"@,
        "USDC"@ != "USDT"@ && "USDC"@ != "DAI"@ && "USDC"@ != "WBTC"@ && "USDC"@ != "UNI"@,
        "USDT"@ != "DAI"@ && "USDT"@ != "WBTC"@ && "USDT"@ != "UNI"@,
        "DAI"@ != "WBTC"@ && "DAI"@ != "UNI"@,
        "WBTC"@ != "UNI"@,
{
    reveal_strlit("WETH");
    reveal_strlit("ETH");
    reveal_strlit("USDC");
    reveal_strlit("USDT");
    reveal_strlit("DAI");
    reveal_strlit("WBTC");
    reveal_strlit("UNI");
    assert("WETH"@.len() == 4 && "USDC"@.len() == 4 && "USDT"@.len() == 4 && "WBTC"@.len() == 4);
    assert("ETH"@.len() == 3 && "DAI"@.len() == 3 && "UNI"@.len() == 3);
    assert("WETH"@[0] == 'W' && "USDC"@[0] == 'U' && "USDT"@[0] == 'U' && "WBTC"@[0] == 'W');
    assert("WETH"@[1] == 'E' && "WBTC"@[1] == 'B');
    assert("USDC"@[3] == 'C' && "USDT"@[3] == 'T');
    assert("ETH"@[0] == 'E' && "DAI"@[0] == 'D' && "UNI"@[0] == 'U');
}

/// The symbol-to-metadata lookup table. Later registrations shadow earlier
/// entries of the same key.
pub struct TokenRegistry {
    entries: Vec<TokenEntry>,
}

impl TokenRegistry {
    /// The stored entries, front entries shadowing later ones.
    pub closed spec fn spec_entries(&self) -> Seq<TokenEntry> {
        self.entries@
    }

    /// An empty registry.
    fn empty() -> (r: TokenRegistry)
        ensures
            r.spec_entries() =~= Seq::<TokenEntry>::empty(),
    {
        TokenRegistry { entries: Vec::new() }
    }

    /// A registry preloaded with the network's common tokens. The base
    /// wrapped token sits first so that address lookups prefer it.
    pub fn new() -> (r: TokenRegistry)
        ensures
            r.spec_entries().len() == 7,
            lookup_by_key(r.spec_entries(), "WETH"@) matches Some(t) && t.symbol@ == "WETH"@
                && t.address@ == "0xC02aaA39b223FE8D0A0e5C4F27eAD9083C756Cc2"@ && t.decimals == 18,
            lookup_by_key(r.spec_entries(), "ETH"@) matches Some(t) && t.symbol@ == "ETH"@
                && t.name@ == "Ether"@ && t.address@
                == "0xC02aaA39b223FE8D0A0e5C4F27eAD9083C756Cc2"@ && t.decimals == 18,
            lookup_by_key(r.spec_entries(), "USDC"@) matches Some(t) && t.symbol@ == "USDC"@
                && t.decimals == 6,
            lookup_by_key(r.spec_entries(), "USDT"@) matches Some(t) && t.symbol@ == "USDT"@
                && t.decimals == 6,
            lookup_by_key(r.spec_entries(), "DAI"@) matches Some(t) && t.symbol@ == "DAI"@
                && t.decimals == 18,
            lookup_by_key(r.spec_entries(), "WBTC"@) matches Some(t) && t.symbol@ == "WBTC"@
                && t.decimals == 8,
            lookup_by_key(r.spec_entries(), "UNI"@) matches Some(t) && t.symbol@ == "UNI"@
                && t.decimals == 18,
    {
        let mut registry = TokenRegistry::empty();
        let defaults = default_mainnet_tokens();
        let mut i: usize = defaults.len();
        while i > 0
            invariant
                i <= defaults@.len(),
                defaults@.len() == 7,
                defaults@[0].0@ == "WETH"@,
                defaults@[1].0@ == "ETH"@,
                defaults@[2].0@ == "USDC"@,
                defaults@[3].0@ == "USDT"@,
                defaults@[4].0@ == "DAI"@,
                defaults@[5].0@ == "WBTC"@,
                defaults@[6].0@ == "UNI"@,
                registry.spec_entries().len() == defaults@.len() - i,
                forall|k: int|
                    i <= k < defaults@.len() ==> lookup_by_key(
                        registry.spec_entries(),
                        #[trigger] defaults@[k].0@,
                    ) == Some(defaults@[k].1),
            decreases i,
        {
            i = i - 1;
            let pair = &defaults[i];
            let key = pair.0.clone();
            let info = pair.1.duplicate();
            let ghost gkey = key;
            let ghost ginfo = info;
            proof {
                assert(gkey == defaults@[i as int].0);
                assert(ginfo == defaults@[i as int].1);
            }
            let ghost before = registry.spec_entries();
            registry.insert_front(key, info);
            proof {
                lemma_default_keys_distinct();
                assert(lookup_by_key(registry.spec_entries(), gkey@) == Some(ginfo));
                assert(lookup_by_key(registry.spec_entries(), defaults@[i as int].0@) == Some(
                    defaults@[i as int].1,
                ));
                reveal_strlit("WETH");
                reveal_strlit("ETH");
                reveal_strlit("USDC");
                reveal_strlit("USDT");
                reveal_strlit("DAI");
                reveal_strlit("WBTC");
                reveal_strlit("UNI");
                assert forall|k: int|
                    i <= k < defaults@.len() implies lookup_by_key(
                    registry.spec_entries(),
                    #[trigger] defaults@[k].0@,
                ) == Some(defaults@[k].1) by {
                    if k == i as int {
                        assert(defaults@[k].0@ == gkey@);
                        assert(lookup_by_key(registry.spec_entries(), defaults@[k].0@) == Some(
                            defaults@[k].1,
                        ));
                    } else {
                        assert(k > i);
                        assert(defaults@[k].0@ != defaults@[i as int].0@);
                        assert(lookup_by_key(registry.spec_entries(), defaults@[k].0@)
                            == lookup_by_key(before, defaults@[k].0@));
                        assert(lookup_by_key(before, defaults@[k].0@) == Some(defaults@[k].1));
                    }
                }
            }
        }
        proof {
            reveal_strlit("WETH");
            reveal_strlit("ETH");
            reveal_strlit("USDC");
            reveal_strlit("USDT");
            reveal_strlit("DAI");
            reveal_strlit("WBTC");
            reveal_strlit("UNI");
        }
        registry
    }

    /// Prepend one entry, shadowing any earlier entry of the same key.
    fn insert_front(&mut self, key: String, info: TokenInfo)
        ensures
            final (self).spec_entries().len() == old(self).spec_entries().len() + 1,
            final (self).spec_entries()[0].key == key,
            final (self).spec_entries()[0].info == info,
            final (self).spec_entries().skip(1) == old(self).spec_entries(),
            lookup_by_key(final (self).spec_entries(), key@) == Some(info),
            forall|k: Seq<char>|
                k != key@ ==> #[trigger] lookup_by_key(final (self).spec_entries(), k)
                    == lookup_by_key(old(self).spec_entries(), k),
    {
        self.entries.insert(0, TokenEntry { key, info });
        proof {
            assert(self.spec_entries().skip(1) =~= old(self).spec_entries());
        }
    }

    /// Register or update a token: the upper-cased symbol and the
    /// lower-cased address both come to name the metadata; every other key
    /// keeps its old answer.
    pub fn register(&mut self, symbol: String, info: TokenInfo)
        ensures
            lookup_by_key(final (self).spec_entries(), normalized_address(info.address@)) == Some(
                info,
            ),
            normalized_symbol_key(symbol@) != normalized_address(info.address@) ==> lookup_by_key(
                final (self).spec_entries(),
                normalized_symbol_key(symbol@),
            ) == Some(info),
            forall|k: Seq<char>|
                k != normalized_symbol_key(symbol@) && k != normalized_address(info.address@)
                    ==> #[trigger] lookup_by_key(final (self).spec_entries(), k) == lookup_by_key(
                    old(self).spec_entries(),
                    k,
                ),
    {
        let upper = ascii_uppercase(symbol.as_str());
        let lower = ascii_lowercase(info.address.as_str());
        let copy = info.duplicate();
        self.insert_front(upper, info);
        self.insert_front(lower, copy);
    }

    /// Whether a symbol is registered, after upper-casing.
    pub fn contains(&self, symbol: &str) -> (r: bool)
        ensures
            r == (lookup_by_key(self.spec_entries(), normalized_symbol_key(symbol@)) is Some),
    {
        let key = ascii_uppercase(symbol);
        self.find_by_key(&key).is_some()
    }

    /// Every registered token, in scan order.
    pub fn all_tokens(&self) -> (r: Vec<TokenInfo>)
        ensures
            r@.len() == self.spec_entries().len(),
            forall|i: int|
                0 <= i < r@.len() ==> #[trigger] r@[i] == self.spec_entries()[i].info,
    {
        let mut out: Vec<TokenInfo> = Vec::new();
        let n = self.entries.len();
        let mut i: usize = 0;
        while i < n
            invariant
                i <= n,
                n == self.entries@.len(),
                out@.len() == i,
                forall|k: int| 0 <= k < i ==> #[trigger] out@[k] == self.entries@[k].info,
            decreases n - i,
        {
            out.push(self.entries[i].info.duplicate());
            i = i + 1;
        }
        out
    }

    /// The first entry stored under a key.
    fn find_by_key(&self, key: &String) -> (r: Option<TokenInfo>)
        ensures
            r == lookup_by_key(self.spec_entries(), key@),
    {
        let n = self.entries.len();
        let mut i: usize = 0;
        proof {
            assert(self.entries@.skip(0) =~= self.entries@);
        }
        while i < n
            invariant
                i <= n,
                n == self.entries@.len(),
                lookup_by_key(self.entries@, key@) == lookup_by_key(
                    self.entries@.skip(i as int),
                    key@,
                ),
            decreases n - i,
        {
            if self.entries[i].key.eq(key) {
                proof {
                    assert(self.entries@.skip(i as int)[0] == self.entries@[i as int]);
                }
                return Some(self.entries[i].info.duplicate());
            }
            proof {
                assert(self.entries@.skip(i as int)[0] == self.entries@[i as int]);
                assert(self.entries@.skip(i as int).skip(1) =~= self.entries@.skip(i as int + 1));
            }
            i = i + 1;
        }
        proof {
            assert(self.entries@.skip(n as int) =~= Seq::<TokenEntry>::empty());
        }
        None
    }

    /// The first entry whose stored address, lower-cased, matches.
    fn find_by_address(&self, addr_lower: &String) -> (r: Option<TokenInfo>)
        ensures
            r == lookup_by_address(self.spec_entries(), addr_lower@),
    {
        let n = self.entries.len();
        let mut i: usize = 0;
        proof {
            assert(self.entries@.skip(0) =~= self.entries@);
        }
        while i < n
            invariant
                i <= n,
                n == self.entries@.len(),
                lookup_by_address(self.entries@, addr_lower@) == lookup_by_address(
                    self.entries@.skip(i as int),
                    addr_lower@,
                ),
            decreases n - i,
        {
            let stored = ascii_lowercase(self.entries[i].info.address.as_str());
            proof {
                assert(self.entries@.skip(i as int)[0] == self.entries@[i as int]);
                assert(self.entries@.skip(i as int).skip(1) =~= self.entries@.skip(i as int + 1));
            }
            if stored.eq(addr_lower) {
                return Some(self.entries[i].info.duplicate());
            }
            i = i + 1;
        }
        proof {
            assert(self.entries@.skip(n as int) =~= Seq::<TokenEntry>::empty());
        }
        None
    }

    /// Resolve a caller's token text. An address-shaped numeral resolves to
    /// the first entry holding that address, or to unknown-token metadata
    /// carrying the given address and 18 decimals; anything else is looked
    /// up as a symbol after upper-casing.
    pub fn resolve(&self, symbol_or_address: &str) -> (r: Option<TokenInfo>)
        ensures
            is_hex_address_chars(symbol_or_address@) ==> r is Some,
            is_hex_address_chars(symbol_or_address@) && lookup_by_address(
                self.spec_entries(),
                normalized_address(symbol_or_address@),
            ) is Some ==> r == lookup_by_address(
                self.spec_entries(),
                normalized_address(symbol_or_address@),
            ),
            is_hex_address_chars(symbol_or_address@) && lookup_by_address(
                self.spec_entries(),
                normalized_address(symbol_or_address@),
            ) is None ==> (r matches Some(t) && t.symbol@ == "UNKNOWN"@ && t.name@
                == "Unknown Token"@ && t.address@ == symbol_or_address@ && t.decimals == 18),
            !is_hex_address_chars(symbol_or_address@) ==> r == lookup_by_key(
                self.spec_entries(),
                normalized_symbol_key(symbol_or_address@),
            ),
    {
        if crate::address::Address::from_hex_str(symbol_or_address).is_some() {
            let lower = ascii_lowercase(symbol_or_address);
            match self.find_by_address(&lower) {
                Some(info) => Some(info),
                None => Some(
                    TokenInfo {
                        symbol: String::from_str("UNKNOWN"),
                        name: String::from_str("Unknown Token"),
                        address: symbol_or_address.to_owned(),
                        decimals: 18,
                    },
                ),
            }
        } else {
            let key = ascii_uppercase(symbol_or_address);
            self.find_by_key(&key)
        }
    }
}

/// The network's common tokens: the base wrapped token first, its `ETH`
/// alias at the same contract, then the major stablecoins and blue chips.
pub fn default_mainnet_tokens() -> (r: Vec<(String, TokenInfo)>)
    ensures
        r@.len() == 7,
        r@[0].0@ == "WETH"@,
        r@[1].0@ == "ETH"@,
        r@[2].0@ == "USDC"@,
        r@[3].0@ == "USDT"@,
        r@[4].0@ == "DAI"@,
        r@[5].0@ == "WBTC"@,
        r@[6].0@ == "UNI"@,
        forall|i: int| 0 <= i < 7 ==> (#[trigger] r@[i].1).symbol@ == r@[i].0@,
        r@[0].1.address@ == "0xC02aaA39b223FE8D0A0e5C4F27eAD9083C756Cc2"@,
        r@[1].1.address@ == "0xC02aaA39b223FE8D0A0e5C4F27eAD9083C756Cc2"@,
        r@[2].1.address@ == "0xA0b86991c6218b36c1d19D4a2e9Eb0cE3606eB48"@,
        r@[3].1.address@ == "0xdAC17F958D2ee523a2206206994597C13D831ec7"@,
        r@[4].1.address@ == "0x6B175474E89094C44Da98b954EedeAC495271d0F"@,
        r@[5].1.address@ == "0x2260FAC5E5542a773Aa44fBCfeDf7C193bc2C599"@,
        r@[6].1.address@ == "0x1f9840a85d5aF5bf1D1762F925BDADdC4201F984"@,
        r@[0].1.decimals == 18 && r@[1].1.decimals == 18 && r@[2].1.decimals == 6
            && r@[3].1.decimals == 6 && r@[4].1.decimals == 18 && r@[5].1.decimals == 8
            && r@[6].1.decimals == 18,
        r@[1].1.name@ == "Ether"@,
{
    let mut out: Vec<(String, TokenInfo)> = Vec::new();
    out.push(
        (
            String::from_str("WETH"),
            TokenInfo {
                symbol: String::from_str("WETH"),
                name: String::from_str("Wrapped Ether"),
                address: String::from_str("0xC02aaA39b223FE8D0A0e5C4F27eAD9083C756Cc2"),
                decimals: 18,
            },
        ),
    );
    out.push(
        (
            String::from_str("ETH"),
            TokenInfo {
                symbol: String::from_str("ETH"),
                name: String::from_str("Ether"),
                address: String::from_str("0xC02aaA39b223FE8D0A0e5C4F27eAD9083C756Cc2"),
                decimals: 18,
            },
        ),
    );
    out.push(
        (
            String::from_str("USDC"),
            TokenInfo {
                symbol: String::from_str("USDC"),
                name: String::from_str("USD Coin"),
                address: String::from_str("0xA0b86991c6218b36c1d19D4a2e9Eb0cE3606eB48"),
                decimals: 6,
            },
        ),
    );
    out.push(
        (
            String::from_str("USDT"),
            TokenInfo {
                symbol: String::from_str("USDT"),
                name: String::from_str("Tether USD"),
                address: String::from_str("0xdAC17F958D2ee523a2206206994597C13D831ec7"),
                decimals: 6,
            },
        ),
    );
    out.push(
        (
            String::from_str("DAI"),
            TokenInfo {
                symbol: String::from_str("DAI"),
                name: String::from_str("Dai Stablecoin"),
                address: String::from_str("0x6B175474E89094C44Da98b954EedeAC495271d0F"),
                decimals: 18,
            },
        ),
    );
    out.push(
        (
            String::from_str("WBTC"),
            TokenInfo {
                symbol: String::from_str("WBTC"),
                name: String::from_str("Wrapped BTC"),
                address: String::from_str("0x2260FAC5E5542a773Aa44fBCfeDf7C193bc2C599"),
                decimals: 8,
            },
        ),
    );
    out.push(
        (
            String::from_str("UNI"),
            TokenInfo {
                symbol: String::from_str("UNI"),
                name: String::from_str("Uniswap"),
                address: String::from_str("0x1f9840a85d5aF5bf1D1762F925BDADdC4201F984"),
                decimals: 18,
            },
        ),
    );
    out
}

} // verus!
