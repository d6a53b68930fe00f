//! Token-metadata and balance calls: their payloads and the assembly of
//! looked-up metadata.

use vstd::prelude::*;
use crate::address::Address;
use crate::codec::{arg_word, arg_words, encode_call, CallArg};
use crate::types::TokenInfo;

verus! {

/// The `balanceOf(address)` selector.
pub open spec fn balance_of_selector() -> Seq<u8> {
    seq![0x70u8, 0xa0u8, 0x82u8, 0x31u8]
}

/// The `symbol()` selector.
pub open spec fn symbol_selector() -> Seq<u8> {
    seq![0x95u8, 0xd8u8, 0x9bu8, 0x41u8]
}

/// The `name()` selector.
pub open spec fn name_selector() -> Seq<u8> {
    seq![0x06u8, 0xfdu8, 0xdeu8, 0x03u8]
}

/// The `decimals()` selector.
pub open spec fn decimals_selector() -> Seq<u8> {
    seq![0x31u8, 0x3cu8, 0xe5u8, 0x67u8]
}

/// A 4-byte selector vector.
fn selector_vec(b0: u8, b1: u8, b2: u8, b3: u8, Ghost(target): Ghost<Seq<u8>>) -> (r: Vec<u8>)
    requires
        target =~= seq![b0, b1, b2, b3],
    ensures
        r@ == target,
        r@.len() == 4,
{
    let mut v: Vec<u8> = Vec::new();
    v.push(b0);
    v.push(b1);
    v.push(b2);
    v.push(b3);
    proof {
        assert(v@ =~= target);
    }
    v
}

/// The `balanceOf(address)` call payload for one owner.
pub fn balance_of_calldata(owner: &Address) -> (r: Vec<u8>)
    ensures
        r@ == balance_of_selector() + arg_word(CallArg::Addr(*owner)),
{
    let selector = selector_vec(0x70, 0xa0, 0x82, 0x31, Ghost(balance_of_selector()));
    let mut args: Vec<CallArg> = Vec::new();
    args.push(CallArg::Addr(owner.duplicate()));
    let out = encode_call(&selector, &args);
    proof {
        let a1 = args@;
        assert(a1.drop_last() =~= Seq::<CallArg>::empty());
        assert(arg_words(a1) == arg_words(a1.drop_last()) + arg_word(a1.last()));
        assert(arg_words(Seq::<CallArg>::empty()) =~= Seq::<u8>::empty());
        assert(arg_word(a1.last()) == arg_word(CallArg::Addr(*owner)));
        assert(out@ =~= balance_of_selector() + arg_word(CallArg::Addr(*owner)));
    }
    out
}

/// The `symbol()` call payload.
pub fn symbol_calldata() -> (r: Vec<u8>)
    ensures
        r@ == symbol_selector(),
{
    selector_vec(0x95, 0xd8, 0x9b, 0x41, Ghost(symbol_selector()))
}

/// The `name()` call payload.
pub fn name_calldata() -> (r: Vec<u8>)
    ensures
        r@ == name_selector(),
{
    selector_vec(0x06, 0xfd, 0xde, 0x03, Ghost(name_selector()))
}

/// The `decimals()` call payload.
pub fn decimals_calldata() -> (r: Vec<u8>)
    ensures
        r@ == decimals_selector(),
{
    selector_vec(0x31, 0x3c, 0xe5, 0x67, Ghost(decimals_selector()))
}

/// Metadata assembled from three independent lookups, each tolerated to
/// fail: an unknown symbol, a default name, and 18 decimals stand in for
/// whatever could not be read.
pub fn token_info_from_parts(
    address_text: String,
    symbol: Option<String>,
    name: Option<String>,
    decimals: Option<u8>,
) -> (r: TokenInfo)
    ensures
        r.address == address_text,
        symbol matches Some(s) ==> r.symbol == s,
        symbol is None ==> r.symbol@ == "UNKNOWN"@,
        name matches Some(s) ==> r.name == s,
        name is None ==> r.name@ == "Unknown Token"@,
        decimals matches Some(d) ==> r.decimals == d,
        decimals is None ==> r.decimals == 18,
{
    let symbol_text = match symbol {
        Some(s) => s,
        None => String::from_str("UNKNOWN"),
    };
    let name_text = match name {
        Some(s) => s,
        None => String::from_str("Unknown Token"),
    };
    let decimal_count = match decimals {
        Some(d) => d,
        None => 18,
    };
    TokenInfo { symbol: symbol_text, name: name_text, address: address_text, decimals: decimal_count }
}

} // verus!
