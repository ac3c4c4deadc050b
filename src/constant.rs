use vstd::prelude::*;

verus! {

/// Number of equal-width supply intervals of a price curve.
pub const INTERVAL_NUMBER: u64 = 10;

/// Number of breakpoints of a price curve.
pub const PRICES_LENGTH: usize = 11;

/// Fixed-point scale of normalized prices and amounts.
pub const SCALE: u128 = 1_000_000_000;

/// One whole base token, in base-token units.
pub const BASE_PRECISION: u64 = 1_000_000;

/// Decimals of the base token minted by a market.
pub const MILL_TOKEN_DECIMALS: u8 = 6;

/// Fixed-point scale of the reward-per-share accumulator.
pub const STAKING_SCALE: u128 = 1_000_000_000_000_000_000;

/// Largest total supply that a market may be created with.
pub const MAX_TOTAL_SUPPLY: u64 = 1_000_000_000_000_000;

/// Largest normalized price of the last ask breakpoint.
pub const MAX_PRICE: u64 = 100_000_000_000;

/// 100%, in basis points.
pub const MAX_BPS: u16 = 10_000;

} // verus!
