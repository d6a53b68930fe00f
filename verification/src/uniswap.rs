//! The constant-product swap engine: pool clients, the swap-output formula
//! with its protocol fee, price impact, and multi-hop chaining.
//!
//! All arithmetic follows the on-chain contracts exactly: a 0.3% fee is
//! taken from the input by the factor 997/1000, every multiplication is
//! overflow-checked at the 256-bit width, and the final division truncates
//! toward zero.

use vstd::prelude::*;
use crate::address::Address;
use crate::amount::{amount_limit, be_bytes_value, BigAmount};
use crate::codec::{
    arg_word, arg_words, be_bytes_of, decode_address, encode_address_word, encode_amount_word,
    encode_call, CallArg,
};
use crate::errors::UniswapError;
use crate::text::{contains_seq, str_contains};

verus! {

/// Whether the swap formula is defined: a positive input, positive
/// reserves, and no intermediate above the 256-bit width.
pub open spec fn amount_out_ok(a: nat, reserve_in: nat, reserve_out: nat) -> bool {
    &&& a > 0
    &&& reserve_in > 0
    &&& reserve_out > 0
    &&& a * 997 < amount_limit()
    &&& a * 997 * reserve_out < amount_limit()
    &&& reserve_in * 1000 < amount_limit()
    &&& reserve_in * 1000 + a * 997 < amount_limit()
}

/// The constant-product output with the 0.3% input fee, truncated as the
/// on-chain contract truncates.
pub open spec fn amount_out_spec(a: nat, reserve_in: nat, reserve_out: nat) -> nat {
    (a * 997 * reserve_out) / (reserve_in * 1000 + a * 997)
}

/// The failure the formula reports when it is not defined.
pub open spec fn amount_out_err(a: nat, reserve_in: nat, reserve_out: nat) -> UniswapError {
    if a == 0 {
        UniswapError::InvalidAmount
    } else if reserve_in == 0 || reserve_out == 0 {
        UniswapError::InsufficientLiquidity
    } else {
        UniswapError::InvalidAmount
    }
}

/// The depth-depletion estimate in hundredths of a percent of the input
/// reserve.
pub open spec fn price_impact_spec(a: nat, reserve_in: nat) -> nat {
    (a * 10000) / reserve_in
}

/// The reserve pairs of a hop list, as plain values.
pub open spec fn reserve_views(rs: Seq<(BigAmount, BigAmount)>) -> Seq<(nat, nat)> {
    rs.map_values(|p: (BigAmount, BigAmount)| (p.0@, p.1@))
}

/// Whether every hop of a chain is defined, each fed the previous output.
pub open spec fn chain_ok(a: nat, rs: Seq<(nat, nat)>) -> bool
    decreases rs.len(),
{
    if rs.len() == 0 {
        true
    } else {
        chain_ok(a, rs.drop_last()) && amount_out_ok(
            chain_amounts(a, rs.drop_last()).last(),
            rs.last().0,
            rs.last().1,
        )
    }
}

/// The amounts along a chain: the input, then each hop's output.
pub open spec fn chain_amounts(a: nat, rs: Seq<(nat, nat)>) -> Seq<nat>
    decreases rs.len(),
{
    if rs.len() == 0 {
        seq![a]
    } else {
        let prev = chain_amounts(a, rs.drop_last());
        prev.push(amount_out_spec(prev.last(), rs.last().0, rs.last().1))
    }
}

/// The first hop failure of a chain that is not fully defined.
pub open spec fn chain_err(a: nat, rs: Seq<(nat, nat)>) -> UniswapError
    decreases rs.len(),
{
    if rs.len() == 0 {
        UniswapError::InvalidAmount
    } else if !chain_ok(a, rs.drop_last()) {
        chain_err(a, rs.drop_last())
    } else {
        let prev = chain_amounts(a, rs.drop_last());
        amount_out_err(prev.last(), rs.last().0, rs.last().1)
    }
}

/// A chain's amount list holds the input and one output per hop.
pub proof fn lemma_chain_amounts_len(a: nat, rs: Seq<(nat, nat)>)
    ensures
        chain_amounts(a, rs).len() == rs.len() + 1,
    decreases rs.len(),
{
    if rs.len() > 0 {
        lemma_chain_amounts_len(a, rs.drop_last());
    }
}

/// A chain that is defined is defined on every prefix.
pub proof fn lemma_chain_ok_prefix(a: nat, rs: Seq<(nat, nat)>, i: int)
    requires
        chain_ok(a, rs),
        0 <= i <= rs.len(),
    ensures
        chain_ok(a, rs.take(i)),
    decreases rs.len(),
{
    if i == rs.len() {
        assert(rs.take(i) =~= rs);
    } else {
        assert(rs.drop_last().take(i) =~= rs.take(i));
        lemma_chain_ok_prefix(a, rs.drop_last(), i);
    }
}

/// A failure on a prefix is the failure of the whole chain.
pub proof fn lemma_chain_err_prefix(a: nat, rs: Seq<(nat, nat)>, i: int)
    requires
        0 <= i <= rs.len(),
        !chain_ok(a, rs.take(i)),
    ensures
        !chain_ok(a, rs),
        chain_err(a, rs) == chain_err(a, rs.take(i)),
    decreases rs.len() - i,
{
    if i == rs.len() {
        assert(rs.take(i) =~= rs);
    } else {
        assert(rs.take(i + 1).drop_last() =~= rs.take(i));
        assert(!chain_ok(a, rs.take(i + 1)));
        assert(chain_err(a, rs.take(i + 1)) == chain_err(a, rs.take(i)));
        lemma_chain_err_prefix(a, rs, i + 1);
    }
}

/// Zero-amount rejection. A zero input is never priced: whatever the
/// reserves, the formula is undefined on it and the reported failure is
/// `InvalidAmount`.
pub proof fn lemma_zero_amount_rejected(reserve_in: nat, reserve_out: nat)
    ensures
        !amount_out_ok(0, reserve_in, reserve_out),
        amount_out_err(0, reserve_in, reserve_out) == UniswapError::InvalidAmount,
{
}

/// Fee monotonicity. For fixed positive reserves the swap output does not
/// decrease as the input grows, and the exact pre-truncation value grows
/// strictly: cross-multiplied, a strictly larger input gives a strictly
/// larger exact quotient.
pub proof fn lemma_fee_monotonicity(a1: nat, a2: nat, reserve_in: nat, reserve_out: nat)
    requires
        0 < a1 <= a2,
        amount_out_ok(a2, reserve_in, reserve_out),
    ensures
        amount_out_ok(a1, reserve_in, reserve_out),
        amount_out_spec(a1, reserve_in, reserve_out) <= amount_out_spec(
            a2,
            reserve_in,
            reserve_out,
        ),
        a1 < a2 ==> (a1 * 997 * reserve_out) * (reserve_in * 1000 + a2 * 997) < (a2 * 997
            * reserve_out) * (reserve_in * 1000 + a1 * 997),
{
    let n1 = a1 * 997 * reserve_out;
    let d1 = reserve_in * 1000 + a1 * 997;
    let n2 = a2 * 997 * reserve_out;
    let d2 = reserve_in * 1000 + a2 * 997;
    assert(a1 * 997 <= a2 * 997 && a1 * 997 * reserve_out <= a2 * 997 * reserve_out)
        by (nonlinear_arith)
        requires
            a1 <= a2,
            reserve_out >= 0,
    ;
    assert(amount_out_ok(a1, reserve_in, reserve_out));
    assert(n1 * d2 <= n2 * d1 && (a1 < a2 && reserve_in >= 1 && reserve_out >= 1 ==> n1 * d2 < n2
        * d1)) by (nonlinear_arith)
        requires
            0 < a1 <= a2,
            n1 == a1 * 997 * reserve_out,
            d1 == reserve_in * 1000 + a1 * 997,
            n2 == a2 * 997 * reserve_out,
            d2 == reserve_in * 1000 + a2 * 997,
            reserve_in >= 1,
            reserve_out >= 1,
    ;
    lemma_div_le_div(n1, d1, n2, d2);
}

/// Fee bound. The fee-bearing output never exceeds the no-fee
/// constant-product output, and the exact pre-truncation values compare
/// strictly: cross-multiplied, the fee-bearing quotient is strictly below
/// the no-fee quotient.
pub proof fn lemma_fee_bound(a: nat, reserve_in: nat, reserve_out: nat)
    requires
        amount_out_ok(a, reserve_in, reserve_out),
    ensures
        amount_out_spec(a, reserve_in, reserve_out) <= (a * reserve_out) / (reserve_in + a),
        (a * 997 * reserve_out) * (reserve_in + a) < (a * reserve_out) * (reserve_in * 1000 + a
            * 997),
{
    let n1 = a * 997 * reserve_out;
    let d1 = reserve_in * 1000 + a * 997;
    let n2 = a * reserve_out;
    let d2 = reserve_in + a;
    assert(n1 * d2 < n2 * d1) by (nonlinear_arith)
        requires
            n1 == a * 997 * reserve_out,
            d1 == reserve_in * 1000 + a * 997,
            n2 == a * reserve_out,
            d2 == reserve_in + a,
            a >= 1,
            reserve_in >= 1,
            reserve_out >= 1,
    ;
    lemma_div_le_div(n1, d1, n2, d2);
}

/// Quotients of naturals follow cross-multiplied order.
pub proof fn lemma_div_le_div(n1: nat, d1: nat, n2: nat, d2: nat)
    requires
        d1 > 0,
        d2 > 0,
        n1 * d2 <= n2 * d1,
    ensures
        n1 / d1 <= n2 / d2,
{
    let q1 = n1 / d1;
    vstd::arithmetic::div_mod::lemma_fundamental_div_mod(n1 as int, d1 as int);
    assert(q1 * d1 <= n1) by (nonlinear_arith)
        requires
            n1 == d1 * ((n1 as int) / (d1 as int)) + (n1 as int) % (d1 as int),
            (n1 as int) % (d1 as int) >= 0,
            q1 == n1 / d1,
    ;
    assert(q1 * d2 <= n2) by (nonlinear_arith)
        requires
            q1 * d1 <= n1,
            n1 * d2 <= n2 * d1,
            d1 > 0,
            d2 > 0,
    ;
    vstd::arithmetic::div_mod::lemma_div_is_ordered((q1 * d2) as int, n2 as int, d2 as int);
    vstd::arithmetic::div_mod::lemma_div_multiples_vanish(q1 as int, d2 as int);
    assert((d2 as int) * (q1 as int) == (q1 * d2) as int) by (nonlinear_arith);
    assert(((q1 * d2) as int) / (d2 as int) == q1 as int);
}

/// Price-impact bounds. The estimate is the input's share of the reserve in
/// hundredths of a percent, exact to truncation: `impact <= a*10000/r <
/// impact + 1`. It is zero exactly when the scaled input is below the
/// reserve; in particular it is zero for a zero input.
pub proof fn lemma_price_impact_bounds(a: nat, reserve_in: nat)
    requires
        reserve_in > 0,
    ensures
        price_impact_spec(a, reserve_in) * reserve_in <= a * 10000 < (price_impact_spec(
            a,
            reserve_in,
        ) + 1) * reserve_in,
        price_impact_spec(a, reserve_in) == 0 <==> a * 10000 < reserve_in,
        a == 0 ==> price_impact_spec(a, reserve_in) == 0,
{
    let v = a * 10000;
    let q = v / reserve_in;
    vstd::arithmetic::div_mod::lemma_fundamental_div_mod(v as int, reserve_in as int);
    vstd::arithmetic::div_mod::lemma_mod_division_less_than_divisor(v as int, reserve_in as int);
    assert(q * reserve_in <= v && v < (q + 1) * reserve_in) by (nonlinear_arith)
        requires
            v == reserve_in * ((v as int) / (reserve_in as int)) + (v as int) % (reserve_in as int),
            0 <= (v as int) % (reserve_in as int) < reserve_in,
            q == v / reserve_in,
    ;
    if q == 0 {
        assert(v < (q + 1) * reserve_in);
        assert((q + 1) * reserve_in == reserve_in) by (nonlinear_arith)
            requires
                q == 0,
        ;
    } else {
        assert(q * reserve_in >= reserve_in) by (nonlinear_arith)
            requires
                q >= 1,
                reserve_in > 0,
        ;
    }
    if a == 0 {
        assert(v == 0) by (nonlinear_arith)
            requires
                a == 0,
                v == a * 10000,
        ;
    }
}

/// A client of the constant-product exchange: the canonical factory and
/// router it talks to.
pub struct UniswapV2Client {
    factory_address: Address,
    router_address: Address,
}

/// The canonical factory contract's address bytes.
pub open spec fn factory_address_bytes() -> Seq<u8> {
    seq![
        0x5Cu8,
        0x69u8,
        0xbEu8,
        0xe7u8,
        0x01u8,
        0xefu8,
        0x81u8,
        0x4au8,
        0x2Bu8,
        0x6au8,
        0x3Eu8,
        0xDDu8,
        0x4Bu8,
        0x16u8,
        0x52u8,
        0xCBu8,
        0x9cu8,
        0xc5u8,
        0xaAu8,
        0x6fu8,
    ]
}

/// The canonical router contract's address bytes.
pub open spec fn router_address_bytes() -> Seq<u8> {
    seq![
        0x7au8,
        0x25u8,
        0x0du8,
        0x56u8,
        0x30u8,
        0xB4u8,
        0xcFu8,
        0x53u8,
        0x97u8,
        0x39u8,
        0xdFu8,
        0x2Cu8,
        0x5du8,
        0xaCu8,
        0xb4u8,
        0xc6u8,
        0x59u8,
        0xF2u8,
        0x48u8,
        0x8Du8,
    ]
}

/// The wrapped-native base token's address bytes, the routing intermediate.
pub open spec fn weth_address_bytes() -> Seq<u8> {
    seq![
        0xC0u8,
        0x2au8,
        0xaAu8,
        0x39u8,
        0xb2u8,
        0x23u8,
        0xFEu8,
        0x8Du8,
        0x0Au8,
        0x0eu8,
        0x5Cu8,
        0x4Fu8,
        0x27u8,
        0xeAu8,
        0xD9u8,
        0x08u8,
        0x3Cu8,
        0x75u8,
        0x6Cu8,
        0xc2u8,
    ]
}

/// An address built from a 20-byte specification.
fn address_from_spec(b0: u8, b: [u8; 19], Ghost(target): Ghost<Seq<u8>>) -> (r: Address)
    requires
        target.len() == 20,
        target[0] == b0,
        forall|i: int| 0 <= i < 19 ==> target[i + 1] == b@[i],
    ensures
        r@ == target,
{
    let mut v: Vec<u8> = Vec::new();
    v.push(b0);
    let mut i: usize = 0;
    while i < 19
        invariant
            i <= 19,
            v@.len() == i + 1,
            v@[0] == b0,
            forall|j: int| 0 <= j < i ==> v@[j + 1] == b@[j],
        decreases 19 - i,
    {
        v.push(b[i]);
        i = i + 1;
    }
    proof {
        assert forall|j: int| 0 <= j < 20 implies v@[j] == target[j] by {
            if j >= 1 {
                assert(v@[(j - 1) + 1] == b@[j - 1]);
                assert(target[(j - 1) + 1] == b@[j - 1]);
            }
        }
        assert(v@ =~= target);
    }
    Address::from_bytes(v)
}

impl UniswapV2Client {
    /// The factory address the client queries, as its byte string.
    pub closed spec fn spec_factory(&self) -> Seq<u8> {
        self.factory_address@
    }

    /// The router address the client simulates against, as its byte string.
    pub closed spec fn spec_router(&self) -> Seq<u8> {
        self.router_address@
    }

    /// A client of the canonical factory and router.
    pub fn new() -> (r: UniswapV2Client)
        ensures
            r.spec_factory() == factory_address_bytes(),
            r.spec_router() == router_address_bytes(),
    {
        let factory = address_from_spec(
            0x5C,
            [
                0x69, 0xbE, 0xe7, 0x01, 0xef, 0x81, 0x4a, 0x2B, 0x6a, 0x3E, 0xDD, 0x4B, 0x16, 0x52,
                0xCB, 0x9c, 0xc5, 0xaA, 0x6f,
            ],
            Ghost(factory_address_bytes()),
        );
        let router = address_from_spec(
            0x7a,
            [
                0x25, 0x0d, 0x56, 0x30, 0xB4, 0xcF, 0x53, 0x97, 0x39, 0xdF, 0x2C, 0x5d, 0xaC, 0xb4,
                0xc6, 0x59, 0xF2, 0x48, 0x8D,
            ],
            Ghost(router_address_bytes()),
        );
        UniswapV2Client { factory_address: factory, router_address: router }
    }

    /// The factory contract the client queries for pools.
    pub fn factory(&self) -> (r: &Address)
        ensures
            r@ == self.spec_factory(),
    {
        &self.factory_address
    }

    /// The router contract the client simulates swaps against.
    pub fn router(&self) -> (r: &Address)
        ensures
            r@ == self.spec_router(),
    {
        &self.router_address
    }

    /// The router address, as its own copy.
    pub fn router_address(&self) -> (r: Address)
        ensures
            r@ == self.spec_router(),
    {
        self.router_address.duplicate()
    }

    /// The wrapped-native base token, through which indirect paths route.
    pub fn weth_address(&self) -> (r: Address)
        ensures
            r@ == weth_address_bytes(),
    {
        address_from_spec(
            0xC0,
            [
                0x2a, 0xaA, 0x39, 0xb2, 0x23, 0xFE, 0x8D, 0x0A, 0x0e, 0x5C, 0x4F, 0x27, 0xeA, 0xD9,
                0x08, 0x3C, 0x75, 0x6C, 0xc2,
            ],
            Ghost(weth_address_bytes()),
        )
    }

    /// The swap output for one pool: a 0.3% fee is taken from the input,
    /// then the constant-product formula prices the trade and the division
    /// truncates. Fails with `InvalidAmount` on a zero input or any
    /// 256-bit overflow, and with `InsufficientLiquidity` on an empty
    /// reserve.
    pub fn calculate_amount_out(
        &self,
        amount_in: &BigAmount,
        reserve_in: &BigAmount,
        reserve_out: &BigAmount,
    ) -> (r: Result<BigAmount, UniswapError>)
        ensures
            r matches Ok(v) ==> amount_out_ok(amount_in@, reserve_in@, reserve_out@) && v@
                == amount_out_spec(amount_in@, reserve_in@, reserve_out@),
            r is Err <==> !amount_out_ok(amount_in@, reserve_in@, reserve_out@),
            r matches Err(e) ==> e == amount_out_err(amount_in@, reserve_in@, reserve_out@),
    {
        if amount_in.is_zero() {
            return Err(UniswapError::InvalidAmount);
        }
        if reserve_in.is_zero() || reserve_out.is_zero() {
            return Err(UniswapError::InsufficientLiquidity);
        }
        let fee_factor = BigAmount::from_u64(997);
        let thousand = BigAmount::from_u64(1000);
        let amount_in_with_fee = match amount_in.checked_times(&fee_factor) {
            Some(v) => v,
            None => {
                return Err(UniswapError::InvalidAmount);
            },
        };
        let numerator = match amount_in_with_fee.checked_times(reserve_out) {
            Some(v) => v,
            None => {
                return Err(UniswapError::InvalidAmount);
            },
        };
        let scaled_reserve = match reserve_in.checked_times(&thousand) {
            Some(v) => v,
            None => {
                return Err(UniswapError::InvalidAmount);
            },
        };
        let denominator = match scaled_reserve.checked_plus(&amount_in_with_fee) {
            Some(v) => v,
            None => {
                return Err(UniswapError::InvalidAmount);
            },
        };
        proof {
            assert(reserve_in@ * 1000 >= 1 * 1000) by (nonlinear_arith)
                requires
                    reserve_in@ >= 1,
            ;
        }
        Ok(numerator.divide(&denominator))
    }

    /// The depth-depletion estimate of a trade against the input reserve,
    /// in hundredths of a percent: `amount_in * 10000 / reserve_in`,
    /// truncated. Fails with `InsufficientLiquidity` on an empty reserve
    /// and `InvalidAmount` when the scaling overflows 256 bits.
    pub fn calculate_price_impact(
        &self,
        amount_in: &BigAmount,
        reserve_in: &BigAmount,
    ) -> (r: Result<BigAmount, UniswapError>)
        ensures
            r matches Ok(v) ==> reserve_in@ > 0 && amount_in@ * 10000 < amount_limit() && v@
                == price_impact_spec(amount_in@, reserve_in@),
            r is Err <==> reserve_in@ == 0 || amount_in@ * 10000 >= amount_limit(),
            r matches Err(e) ==> (e is InsufficientLiquidity <==> reserve_in@ == 0) && (
            e is InvalidAmount <==> reserve_in@ > 0 && amount_in@ * 10000 >= amount_limit()),
    {
        if reserve_in.is_zero() {
            return Err(UniswapError::InsufficientLiquidity);
        }
        let scale = BigAmount::from_u64(10000);
        let scaled = match amount_in.checked_times(&scale) {
            Some(v) => v,
            None => {
                return Err(UniswapError::InvalidAmount);
            },
        };
        Ok(scaled.divide(reserve_in))
    }

    /// The outputs of a whole path, each hop fed the previous hop's output:
    /// the result starts with the input amount and appends one output per
    /// hop. The first hop that is undefined fails the whole chain with its
    /// own error.
    pub fn calculate_amounts_out(
        &self,
        amount_in: &BigAmount,
        reserves: &Vec<(BigAmount, BigAmount)>,
    ) -> (r: Result<Vec<BigAmount>, UniswapError>)
        ensures
            r matches Ok(v) ==> chain_ok(amount_in@, reserve_views(reserves@)) && v@.len()
                == reserves@.len() + 1 && (forall|i: int|
                0 <= i < v@.len() ==> #[trigger] v@[i]@ == chain_amounts(
                    amount_in@,
                    reserve_views(reserves@),
                )[i]),
            r is Err <==> !chain_ok(amount_in@, reserve_views(reserves@)),
            r matches Err(e) ==> e == chain_err(amount_in@, reserve_views(reserves@)),
    {
        let ghost a0 = amount_in@;
        let ghost rs = reserve_views(reserves@);
        let mut amounts: Vec<BigAmount> = Vec::new();
        amounts.push(amount_in.duplicate());
        let n = reserves.len();
        let mut i: usize = 0;
        proof {
            assert(rs.take(0) =~= Seq::<(nat, nat)>::empty());
            assert(chain_amounts(a0, rs.take(0)) =~= seq![a0]);
        }
        while i < n
            invariant
                i <= n,
                a0 == amount_in@,
                rs == reserve_views(reserves@),
                n == reserves@.len(),
                rs.len() == n,
                forall|k: int|
                    0 <= k < n ==> #[trigger] rs[k] == (reserves@[k].0@, reserves@[k].1@),
                chain_ok(a0, rs.take(i as int)),
                amounts@.len() == i + 1,
                forall|k: int|
                    0 <= k <= i ==> #[trigger] amounts@[k]@ == chain_amounts(a0, rs.take(i as int))[k],
            decreases n - i,
        {
            let pair = &reserves[i];
            let last_index = amounts.len() - 1;
            let ghost prev = chain_amounts(a0, rs.take(i as int));
            proof {
                lemma_chain_amounts_len(a0, rs.take(i as int));
                lemma_chain_amounts_len(a0, rs.take(i as int + 1));
                assert(amounts@[last_index as int]@ == prev[i as int]);
                assert(prev.last() == prev[i as int]);
                assert(rs.take(i as int + 1).drop_last() =~= rs.take(i as int));
                assert(rs.take(i as int + 1).last() == rs[i as int]);
            }
            let step = self.calculate_amount_out(&amounts[last_index], &pair.0, &pair.1);
            match step {
                Ok(next) => {
                    proof {
                        assert(chain_ok(a0, rs.take(i as int + 1)));
                        assert(chain_amounts(a0, rs.take(i as int + 1)) == prev.push(
                            amount_out_spec(prev.last(), rs[i as int].0, rs[i as int].1),
                        ));
                    }
                    amounts.push(next);
                    i = i + 1;
                },
                Err(e) => {
                    proof {
                        assert(!amount_out_ok(prev.last(), rs[i as int].0, rs[i as int].1));
                        assert(!chain_ok(a0, rs.take(i as int + 1)));
                        assert(chain_err(a0, rs.take(i as int + 1)) == amount_out_err(
                            prev.last(),
                            rs[i as int].0,
                            rs[i as int].1,
                        ));
                        lemma_chain_err_prefix(a0, rs, i as int + 1);
                    }
                    return Err(e);
                },
            }
        }
        proof {
            assert(rs.take(n as int) =~= rs);
        }
        Ok(amounts)
    }


    /// The `getPair(address,address)` call payload for the factory, with the
    /// two token addresses in the order given.
    pub fn get_pair_calldata(&self, token_a: &Address, token_b: &Address) -> (r: Vec<u8>)
        ensures
            r@ == get_pair_selector() + arg_word(CallArg::Addr(*token_a)) + arg_word(
                CallArg::Addr(*token_b),
            ),
    {
        let selector = selector_bytes(0xe6, 0xa4, 0x39, 0x05, Ghost(get_pair_selector()));
        let mut args: Vec<CallArg> = Vec::new();
        args.push(CallArg::Addr(token_a.duplicate()));
        args.push(CallArg::Addr(token_b.duplicate()));
        let out = encode_call(&selector, &args);
        proof {
            let a2 = args@;
            assert(a2.drop_last() =~= seq![a2[0]]);
            assert(seq![a2[0]].drop_last() =~= Seq::<CallArg>::empty());
            assert(arg_words(a2) == arg_words(a2.drop_last()) + arg_word(a2.last()));
            assert(arg_words(seq![a2[0]]) == arg_words(Seq::<CallArg>::empty()) + arg_word(a2[0]));
            assert(arg_words(Seq::<CallArg>::empty()) =~= Seq::<u8>::empty());
            assert(arg_word(a2[0]) == arg_word(CallArg::Addr(*token_a)));
            assert(arg_word(a2.last()) == arg_word(CallArg::Addr(*token_b)));
            assert(out@ =~= get_pair_selector() + arg_word(CallArg::Addr(*token_a)) + arg_word(
                CallArg::Addr(*token_b),
            ));
        }
        out
    }

    /// The `getReserves()` call payload for a pool: the bare selector.
    pub fn get_reserves_calldata(&self) -> (r: Vec<u8>)
        ensures
            r@ == get_reserves_selector(),
    {
        selector_bytes(0x09, 0x02, 0xf1, 0xac, Ghost(get_reserves_selector()))
    }

    /// The factory's answer to `getPair`: one address word, where the
    /// all-zero address means the pool does not exist and surfaces as
    /// `PairNotFound`.
    pub fn decode_pair_address(&self, data: &Vec<u8>) -> (r: Result<Address, UniswapError>)
        ensures
            r matches Ok(a) ==> data@.len() == 32 && a@ == data@.subrange(12, 32) && data@.subrange(
                12,
                32,
            ) != zero_address_bytes(),
            r is Err <==> data@.len() != 32 || data@.subrange(12, 32) == zero_address_bytes(),
            r matches Err(e) ==> ((e matches UniswapError::MalformedReturn { expected, actual }
                ==> expected == 32 && actual == data@.len() && data@.len() != 32) && (
            e is PairNotFound <==> data@.len() == 32 && data@.subrange(12, 32)
                == zero_address_bytes()) && (e is PairNotFound || e is MalformedReturn)),
    {
        let addr = match decode_address(data) {
            Ok(a) => a,
            Err(e) => {
                return Err(e);
            },
        };
        if addr.is_zero() {
            return Err(UniswapError::PairNotFound);
        }
        Ok(addr)
    }

    /// A pool's `getReserves` return: at least 64 bytes, the two leading
    /// 32-byte words being the reserves; a zero reserve is
    /// `InsufficientLiquidity`.
    pub fn decode_reserves_return(&self, data: &Vec<u8>) -> (r: Result<
        (BigAmount, BigAmount),
        UniswapError,
    >)
        ensures
            r matches Ok(p) ==> data@.len() >= 64 && p.0@ == be_bytes_value(data@.subrange(0, 32))
                && p.1@ == be_bytes_value(data@.subrange(32, 64)) && p.0@ > 0 && p.1@ > 0,
            r is Err <==> data@.len() < 64 || be_bytes_value(data@.subrange(0, 32)) == 0
                || be_bytes_value(data@.subrange(32, 64)) == 0,
            r matches Err(e) ==> ((e matches UniswapError::MalformedReturn { expected, actual }
                ==> expected == 64 && actual == data@.len() && data@.len() < 64) && (
            e is InsufficientLiquidity <==> data@.len() >= 64 && (be_bytes_value(
                data@.subrange(0, 32),
            ) == 0 || be_bytes_value(data@.subrange(32, 64)) == 0)) && (e is InsufficientLiquidity
                || e is MalformedReturn)),
    {
        let n = data.len();
        if n < 64 {
            return Err(UniswapError::MalformedReturn { expected: 64, actual: n });
        }
        let reserve0 = BigAmount::from_be_bytes(data, 0, 32);
        let reserve1 = BigAmount::from_be_bytes(data, 32, 64);
        if reserve0.is_zero() || reserve1.is_zero() {
            return Err(UniswapError::InsufficientLiquidity);
        }
        Ok((reserve0, reserve1))
    }

    /// The `swapExactTokensForTokens` call payload: the amounts, the offset
    /// word of the trailing path array, the recipient, the never-expiring
    /// deadline sentinel, and the path with its element count.
    pub fn encode_swap_call(
        &self,
        amount_in: &BigAmount,
        amount_out_min: &BigAmount,
        path: &Vec<Address>,
        to: &Address,
    ) -> (r: Vec<u8>)
        ensures
            r@ == swap_calldata_spec(amount_in@, amount_out_min@, path_views(path@), to@),
    {
        let selector = selector_bytes(0x38, 0xed, 0x17, 0x39, Ghost(swap_selector()));
        let mut out = selector;
        let mut word_in = encode_amount_word(amount_in);
        out.append(&mut word_in);
        let mut word_min = encode_amount_word(amount_out_min);
        out.append(&mut word_min);
        // The head holds five 32-byte words, so the array starts at byte 160.
        let offset = BigAmount::from_u64(160);
        let mut word_offset = encode_amount_word(&offset);
        out.append(&mut word_offset);
        let mut word_to = encode_address_word(to);
        out.append(&mut word_to);
        let mut i: usize = 0;
        let ghost before_deadline = out@;
        while i < 32
            invariant
                i <= 32,
                out@ =~= before_deadline + Seq::new(i as nat, |j: int| 0xffu8),
            decreases 32 - i,
        {
            out.push(0xff);
            proof {
                assert(out@ =~= before_deadline + Seq::new((i + 1) as nat, |j: int| 0xffu8));
            }
            i = i + 1;
        }
        let count = BigAmount::from_u64(path.len() as u64);
        let mut word_count = encode_amount_word(&count);
        out.append(&mut word_count);
        let ghost head = out@;
        let n = path.len();
        let mut k: usize = 0;
        proof {
            assert(path_words(path_views(path@).take(0)) =~= Seq::<u8>::empty());
            assert(out@ =~= head + path_words(path_views(path@).take(0)));
        }
        while k < n
            invariant
                k <= n,
                n == path@.len(),
                out@ == head + path_words(path_views(path@).take(k as int)),
            decreases n - k,
        {
            let mut word = encode_address_word(&path[k]);
            proof {
                let pv = path_views(path@);
                assert(pv[k as int] == path@[k as int]@);
                assert(pv.take(k as int + 1).drop_last() =~= pv.take(k as int));
                assert(pv.take(k as int + 1).last() == pv[k as int]);
                assert(path_words(pv.take(k as int + 1)) == path_words(pv.take(k as int)) + (
                Seq::new(12, |j: int| 0u8) + pv[k as int]));
                assert(word@ == Seq::new(12, |j: int| 0u8) + path@[k as int]@);
            }
            out.append(&mut word);
            proof {
                assert(out@ =~= head + path_words(path_views(path@).take(k as int + 1)));
            }
            k = k + 1;
        }
        proof {
            let pv = path_views(path@);
            assert(pv.take(n as int) =~= pv);
            assert(Seq::new(32, |j: int| 0xffu8) =~= deadline_word());
            assert(out@ =~= swap_calldata_spec(amount_in@, amount_out_min@, pv, to@));
        }
        out
    }

    /// The route between two tokens: direct when either end is the
    /// wrapped-native base token, else through it as the intermediate.
    pub fn build_swap_path(&self, token_in: &Address, token_out: &Address) -> (r: Vec<Address>)
        ensures
            r@.len() == swap_path_views(token_in@, token_out@).len(),
            forall|i: int|
                0 <= i < r@.len() ==> #[trigger] r@[i]@ == swap_path_views(token_in@, token_out@)[i],
    {
        let weth = self.weth_address();
        let mut path: Vec<Address> = Vec::new();
        if token_in.eq_address(&weth) || token_out.eq_address(&weth) {
            path.push(token_in.duplicate());
            path.push(token_out.duplicate());
        } else {
            path.push(token_in.duplicate());
            path.push(weth);
            path.push(token_out.duplicate());
        }
        path
    }

}

/// The token views of a swap route: direct when either end is the base
/// token, else routed through it.
pub open spec fn swap_path_views(tin: Seq<u8>, tout: Seq<u8>) -> Seq<Seq<u8>> {
    if tin == weth_address_bytes() || tout == weth_address_bytes() {
        seq![tin, tout]
    } else {
        seq![tin, weth_address_bytes(), tout]
    }
}



/// The all-zero address bytes, the factory's "no pool" answer.
pub open spec fn zero_address_bytes() -> Seq<u8> {
    Seq::new(20, |i: int| 0u8)
}

/// The `getPair(address,address)` selector.
pub open spec fn get_pair_selector() -> Seq<u8> {
    seq![0xe6u8, 0xa4u8, 0x39u8, 0x05u8]
}

/// The `getReserves()` selector.
pub open spec fn get_reserves_selector() -> Seq<u8> {
    seq![0x09u8, 0x02u8, 0xf1u8, 0xacu8]
}

/// The `swapExactTokensForTokens` selector.
pub open spec fn swap_selector() -> Seq<u8> {
    seq![0x38u8, 0xedu8, 0x17u8, 0x39u8]
}

/// The deadline sentinel word: all ones, "never expires", used only for
/// read-only simulation.
pub open spec fn deadline_word() -> Seq<u8> {
    Seq::new(32, |i: int| 0xffu8)
}

/// The address byte strings of a path.
pub open spec fn path_views(path: Seq<Address>) -> Seq<Seq<u8>> {
    path.map_values(|a: Address| a@)
}

/// The concatenated address words of a path.
pub open spec fn path_words(path: Seq<Seq<u8>>) -> Seq<u8>
    decreases path.len(),
{
    if path.len() == 0 {
        Seq::empty()
    } else {
        path_words(path.drop_last()) + (Seq::new(12, |i: int| 0u8) + path.last())
    }
}

/// The full router-swap payload: selector, the two amounts, the array
/// offset word, the recipient, the deadline sentinel, and the path with its
/// count.
pub open spec fn swap_calldata_spec(
    amount_in: nat,
    amount_out_min: nat,
    path: Seq<Seq<u8>>,
    to: Seq<u8>,
) -> Seq<u8> {
    swap_selector() + be_bytes_of(amount_in, 32) + be_bytes_of(amount_out_min, 32) + be_bytes_of(
        160,
        32,
    ) + (Seq::new(12, |i: int| 0u8) + to) + deadline_word() + be_bytes_of(path.len(), 32)
        + path_words(path)
}

/// A 4-byte selector built to its specification.
fn selector_bytes(b0: u8, b1: u8, b2: u8, b3: u8, Ghost(target): Ghost<Seq<u8>>) -> (r: Vec<u8>)
    requires
        target =~= seq![b0, b1, b2, b3],
    ensures
        r@ == target,
        r@.len() == 4,
{
    let mut v: Vec<u8> = Vec::new();
    v.push(b0);
    v.push(b1);
    v.push(b2);
    v.push(b3);
    proof {
        assert(v@ =~= target);
    }
    v
}

/// The two stored reserves of a pool, returned as (input-side,
/// output-side) for a trade from `token_a` to `token_b`: pools store their
/// reserves by ascending token address.
pub fn orient_reserves(
    token_a: &Address,
    token_b: &Address,
    reserve0: &BigAmount,
    reserve1: &BigAmount,
) -> (r: (BigAmount, BigAmount))
    ensures
        be_bytes_value(token_a@) < be_bytes_value(token_b@) ==> r.0@ == reserve0@ && r.1@
            == reserve1@,
        be_bytes_value(token_a@) >= be_bytes_value(token_b@) ==> r.0@ == reserve1@ && r.1@
            == reserve0@,
{
    if token_a.lt_address(token_b) {
        (reserve0.duplicate(), reserve1.duplicate())
    } else {
        (reserve1.duplicate(), reserve0.duplicate())
    }
}

/// The minimum acceptable output after slippage tolerance, in basis
/// points: `amount_out * (10000 - slippage_bps) / 10000`, truncated.
pub fn min_output_after_slippage(amount_out: &BigAmount, slippage_bps: u32) -> (r: BigAmount)
    requires
        slippage_bps <= 10000,
    ensures
        r@ == (amount_out@ * ((10000 - slippage_bps) as nat)) / 10000,
{
    amount_out.mul_div_small(10000 - slippage_bps, 10000)
}

/// The human-readable reason behind a failed simulation call, matched from
/// the transport's message.
pub open spec fn revert_reason_spec(message: Seq<char>) -> Seq<char> {
    if contains_seq(message, "execution reverted"@) {
        message
    } else if contains_seq(message, "insufficient"@) {
        "Insufficient liquidity or balance"@
    } else if contains_seq(message, "TRANSFER_FROM_FAILED"@) {
        "Token transfer failed (check allowance)"@
    } else if contains_seq(message, "EXPIRED"@) {
        "Transaction deadline expired"@
    } else {
        message
    }
}

/// Classify a transport failure into a human-readable revert reason: known
/// patterns map to fixed texts, anything else is passed through.
pub fn extract_revert_reason(error_msg: &str) -> (r: Option<String>)
    ensures
        r matches Some(s) && s@ == revert_reason_spec(error_msg@),
{
    if str_contains(error_msg, "execution reverted") {
        Some(error_msg.to_owned())
    } else if str_contains(error_msg, "insufficient") {
        Some(String::from_str("Insufficient liquidity or balance"))
    } else if str_contains(error_msg, "TRANSFER_FROM_FAILED") {
        Some(String::from_str("Token transfer failed (check allowance)"))
    } else if str_contains(error_msg, "EXPIRED") {
        Some(String::from_str("Transaction deadline expired"))
    } else {
        Some(error_msg.to_owned())
    }
}

/// The result of chaining the formula over a path: the route, its final
/// output, the first hop's price impact in hundredths of a percent, and the
/// pool addresses used.
pub struct SwapQuote {
    /// The token route of the trade.
    pub path: Vec<Address>,
    /// The final output amount.
    pub amount_out: BigAmount,
    /// The first hop's depth depletion, in hundredths of a percent.
    pub price_impact: BigAmount,
    /// The pool traded through at each hop.
    pub pair_addresses: Vec<Address>,
}

/// The result of dispatching a quoted swap as a read-only router call.
pub struct SwapSimulation {
    /// The quote the simulation was built from.
    pub quote: SwapQuote,
    /// The gas estimate, present only when the simulation succeeded.
    pub gas_estimate: Option<BigAmount>,
    /// Whether the read-only call succeeded.
    pub simulation_success: bool,
    /// The classified revert reason of a failed call.
    pub revert_reason: Option<String>,
}

impl UniswapV2Client {
    /// A quote assembled from fetched per-hop reserves: the output chain
    /// over the path, and the first hop's price impact. Fails with the
    /// first undefined hop's error, or with `InvalidAmount` when the
    /// price-impact scaling overflows.
    pub fn quote_from_reserves(
        &self,
        path: Vec<Address>,
        amount_in: &BigAmount,
        reserves: &Vec<(BigAmount, BigAmount)>,
        pair_addresses: Vec<Address>,
    ) -> (r: Result<SwapQuote, UniswapError>)
        requires
            path@.len() >= 2,
            reserves@.len() == path@.len() - 1,
        ensures
            r matches Ok(q) ==> {
                &&& chain_ok(amount_in@, reserve_views(reserves@))
                &&& q.amount_out@ == chain_amounts(amount_in@, reserve_views(reserves@)).last()
                &&& amount_in@ * 10000 < amount_limit()
                &&& q.price_impact@ == price_impact_spec(amount_in@, reserves@[0].0@)
                &&& q.path == path
                &&& q.pair_addresses == pair_addresses
            },
            r is Err <==> !chain_ok(amount_in@, reserve_views(reserves@)) || amount_in@ * 10000
                >= amount_limit(),
            r matches Err(e) ==> e == (if !chain_ok(amount_in@, reserve_views(reserves@)) {
                chain_err(amount_in@, reserve_views(reserves@))
            } else {
                UniswapError::InvalidAmount
            }),
    {
        let amounts = match self.calculate_amounts_out(amount_in, reserves) {
            Ok(v) => v,
            Err(e) => {
                return Err(e);
            },
        };
        proof {
            lemma_chain_amounts_len(amount_in@, reserve_views(reserves@));
        }
        let last = amounts.len() - 1;
        let amount_out = amounts[last].duplicate();
        let first_reserve_in = &reserves[0].0;
        proof {
            assert(reserve_views(reserves@)[0] == (reserves@[0].0@, reserves@[0].1@));
            lemma_chain_ok_prefix(amount_in@, reserve_views(reserves@), 1);
            assert(reserve_views(reserves@).take(1).drop_last() =~= Seq::<(nat, nat)>::empty());
            assert(reserve_views(reserves@).take(1).last() == reserve_views(reserves@)[0]);
            assert(amount_out_ok(amount_in@, reserves@[0].0@, reserves@[0].1@));
        }
        let price_impact = match self.calculate_price_impact(amount_in, first_reserve_in) {
            Ok(v) => v,
            Err(e) => {
                return Err(e);
            },
        };
        Ok(SwapQuote { path, amount_out, price_impact, pair_addresses })
    }

    /// The simulation record of a dispatched router call: on success the
    /// gas estimate is kept and no reason is given; on failure the gas is
    /// dropped and the transport's message is classified.
    pub fn simulation_outcome(
        &self,
        quote: SwapQuote,
        dispatch: Result<Option<BigAmount>, String>,
    ) -> (r: SwapSimulation)
        ensures
            r.quote == quote,
            dispatch matches Ok(g) ==> r.simulation_success && r.gas_estimate == g
                && r.revert_reason is None,
            dispatch matches Err(m) ==> !r.simulation_success && r.gas_estimate is None && (
            r.revert_reason matches Some(t) && t@ == revert_reason_spec(m@)),
    {
        match dispatch {
            Ok(gas_estimate) => SwapSimulation {
                quote,
                gas_estimate,
                simulation_success: true,
                revert_reason: None,
            },
            Err(message) => {
                let reason = extract_revert_reason(message.as_str());
                SwapSimulation {
                    quote,
                    gas_estimate: None,
                    simulation_success: false,
                    revert_reason: reason,
                }
            },
        }
    }
}

} // verus!
