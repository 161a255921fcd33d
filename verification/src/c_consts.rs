//! Pool constants.
//!
//! Two fixed-point scales are used: `BONE` (18 decimals) inside the pricing
//! math, and `STROOP` (7 decimals) at the token-amount boundary. All token
//! balances, weights, fees and pool shares are denominated in `STROOP` units
//! externally; the math upscales them to the `BONE` domain.

use vstd::prelude::*;

verus! {

/// The fixed-point unit of the internal pricing math: 10^18.
pub const BONE: i128 = 1_000_000_000_000_000_000;

/// The fixed-point unit at the token-amount boundary: 10^7.
pub const STROOP: i128 = 10_000_000;

/// Lifts a `STROOP`-scaled amount into the `BONE` domain: 10^11.
pub const STROOP_SCALAR: i128 = 100_000_000_000;

/// Smallest base accepted by the fractional power, in `BONE` scale.
pub const MIN_CPOW_BASE: i128 = 1;

/// Largest base accepted by the fractional power: 2 * BONE - 1.
pub const MAX_CPOW_BASE: i128 = 1_999_999_999_999_999_999;

/// Stop threshold for the fractional power series, in `BONE` scale.
pub const CPOW_PRECISION: i128 = 100_000_000;

/// Largest fraction of the in-side balance a single operation may pull in.
pub const MAX_IN_RATIO: i128 = 5_000_000;

/// Largest fraction of the out-side balance a single operation may push out.
pub const MAX_OUT_RATIO: i128 = 3_333_334;

/// Shares minted to the controller when the pool is set up.
pub const INIT_POOL_SUPPLY: i128 = 1_000_000_000;

/// Fee retained by the pool on exit; zero in the current design.
pub const EXIT_FEE: i128 = 0;

/// Smallest allowed swap fee, in `STROOP` scale (10^-6).
pub const MIN_FEE: i128 = 10;

/// Largest allowed swap fee, in `STROOP` scale (0.1).
pub const MAX_FEE: i128 = 1_000_000;

/// Fewest tokens a pool may hold once finalized.
pub const MIN_BOUND_TOKENS: u32 = 2;

/// Most tokens a pool may ever hold.
pub const MAX_BOUND_TOKENS: u32 = 8;

/// Upper bound on the sum of all denormalized weights.
pub const MAX_TOTAL_WEIGHT: i128 = 500_000_000;

/// Smallest denormalized weight a bound token may carry.
pub const MIN_WEIGHT: i128 = 10_000_000;

/// Largest denormalized weight a bound token may carry.
pub const MAX_WEIGHT: i128 = 500_000_000;

/// Smallest normalized weight accepted by the one-shot setup, whose weights
/// must sum to exactly `STROOP`.
pub const MIN_INIT_WEIGHT: i128 = 1_000_000;

/// Largest normalized weight accepted by the one-shot setup.
pub const MAX_INIT_WEIGHT: i128 = 9_000_000;

/// Smallest balance a token may be bound with, in `STROOP` units.
pub const MIN_BALANCE: i128 = 100;

/// Largest value, 10^37, the pricing math accepts in its 18-decimal domain;
/// anything above aborts with `ErrMathApprox` before the host arithmetic
/// could leave 256 bits.
pub const UPSCALE_LIMIT: i128 = 10_000_000_000_000_000_000_000_000_000_000_000_000;

} // verus!
