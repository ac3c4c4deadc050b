//! Pricing and accounting engine of a fully reserved bonding-curve market:
//! piecewise-linear curve integrals, spread-derived swap fees, fee splitting,
//! reward-per-share staking accrual and linear vesting with a cliff.

pub mod config;
pub mod constant;
pub mod curve;
pub mod errors;
pub mod market;
pub mod math;
pub mod rewards;
pub mod staking;
pub mod swap;
pub mod vesting;
mod arith;
mod wide;
