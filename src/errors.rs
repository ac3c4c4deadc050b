use vstd::prelude::*;

verus! {

/// Every way an operation of the engine can be refused.
#[derive(Debug, Clone, Copy, PartialEq, Eq, Structural)]
pub enum TokenMillError {
    /// The creator, staking and protocol fee shares do not add up to 100%.
    InvalidFeeShare,
    /// The total supply is too large, too small or not a multiple of the interval count.
    InvalidTotalSupply,
    /// The price curve of the market was already set.
    PricesAlreadySet,
    /// A bid price is above the ask price of the same breakpoint.
    BidAskMismatch,
    /// A price curve is not strictly increasing.
    DecreasingPrices,
    /// The last ask price is above the maximum price.
    PriceTooHigh,
    /// An amount of zero was given.
    InvalidAmount,
    /// The computed amount misses the caller's slippage threshold.
    AmountThresholdNotMet,
    /// An intermediate or final value does not fit its type.
    MathError,
    /// A withdrawal exceeds the staked principal.
    InsufficientStakeAmount,
    /// Vesting durations are not positive, or the cliff is not shorter than the vesting.
    InvalidVestingDuration,
    /// The vesting would already be over when it is created.
    InvalidVestingStartTime,
}

} // verus!
