//! The failure kinds that quoting and simulation can surface.

use vstd::prelude::*;

verus! {

/// Everything that can go wrong while quoting or simulating a swap.
///
/// Each failure is surfaced immediately; nothing is retried.
#[derive(Debug, Clone)]
pub enum UniswapError {
    /// The underlying chain call itself failed; carries the transport's
    /// message.
    TransportFailure(String),
    /// A call returned bytes of an unexpected shape; carries the expected
    /// and the actual byte length.
    MalformedReturn { expected: usize, actual: usize },
    /// The factory knows no pool for the token pair.
    PairNotFound,
    /// A pool reserve is zero, so the pool cannot price a trade.
    InsufficientLiquidity,
    /// A zero input amount, or an amount that overflows the 256-bit width.
    InvalidAmount,
    /// A decimal input carries more fractional digits than the token
    /// supports.
    PrecisionExceeded,
    /// A negative amount was given where only unsigned amounts make sense.
    NegativeAmount,
    /// A simulation was requested without an originating wallet address.
    MissingSimulationAddress,
}

} // verus!
