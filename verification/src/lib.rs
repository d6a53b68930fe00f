//! Constant-product swap quoting and simulation engine.
//!
//! The crate models token amounts as exact unsigned integers, encodes and
//! decodes the binary payloads of read-only contract calls, implements the
//! constant-product swap formula with its protocol fee, converts between
//! integer amounts and human-readable decimal strings, and prepares swap
//! simulations over multi-hop pool paths.

pub mod address;
pub mod amount;
pub mod biguint;
pub mod codec;
pub mod erc20;
pub mod errors;
pub mod price;
pub mod registry;
pub mod text;
pub mod types;
pub mod units;
pub mod uniswap;
