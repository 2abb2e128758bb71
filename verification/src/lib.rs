//! Off-chain exchange-rate collection for an automated-market-maker exchange.
//!
//! The library holds the verified core of a small daemon: the fixed-point
//! pricing formula over arbitrary-precision unsigned integers, the best-trade
//! sampling over a fixed ladder of buy amounts, the monotonic block cursor,
//! the drain-loop decisions of the task orchestrator, and the canonical
//! encoding of the per-(pool, block) result record.

pub mod address;
pub mod codec;
pub mod cursor;
pub mod engine;
pub mod orchestrator;
pub mod pools;
pub mod uint;

use vstd::prelude::*;

verus! {

/// Fees are integer numerators over this fixed denominator (10^18).
pub const PRECISION: u64 = 1_000_000_000_000_000_000;

} // verus!
