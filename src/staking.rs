use vstd::prelude::*;

use crate::constant::STAKING_SCALE;
use crate::errors::TokenMillError;
use crate::market::{Market, MarketFees};

verus! {

/// A market's staking totals and its reward-per-share accumulator.
#[derive(Debug, Clone, Copy, PartialEq, Eq, Structural)]
pub struct MarketStaking {
    /// Principal staked over all positions.
    pub amount_staked: u64,
    /// Unreleased vested amounts over all positions.
    pub total_amount_vested: u64,
    /// Rewards per share ever accrued, scaled by `STAKING_SCALE`.
    pub acc_reward_amount_per_share: u128,
}

/// One user's stake in a market.
#[derive(Debug, Clone, Copy, PartialEq, Eq, Structural)]
pub struct StakePosition {
    /// Principal staked.
    pub amount_staked: u64,
    /// Vested amount not yet released.
    pub total_amount_vested: u64,
    /// Rewards accrued and not yet claimed.
    pub pending_rewards: u64,
    /// The market's accumulator when this position last accrued.
    pub acc_reward_amount_per_share: u128,
}

/// What the accumulator gains when `pending_rewards` are spread over `total_shares`.
pub open spec fn acc_increase(pending_rewards: int, total_shares: int) -> int {
    if total_shares > 0 && pending_rewards > 0 {
        pending_rewards * STAKING_SCALE / total_shares
    } else {
        0
    }
}

impl MarketStaking {
    /// An empty staking record.
    pub fn initialize() -> (r: MarketStaking)
        ensures
            r == (MarketStaking { amount_staked: 0, total_amount_vested: 0, acc_reward_amount_per_share: 0 }),
    {
        MarketStaking { amount_staked: 0, total_amount_vested: 0, acc_reward_amount_per_share: 0 }
    }

    /// Staked and vested amounts: the shares that rewards are spread over.
    pub open spec fn total_shares(self) -> int {
        self.amount_staked + self.total_amount_vested
    }

    /// The accumulator after spreading `pending_rewards`.
    pub open spec fn accrued_acc(self, pending_rewards: int) -> int {
        self.acc_reward_amount_per_share + acc_increase(pending_rewards, self.total_shares())
    }

    /// Spreads `pending_rewards` over the shares, when there are both, and returns the
    /// accumulator. Fails, changing nothing, when the accumulator would overflow.
    pub fn accrue_rewards(&mut self, pending_rewards: u64) -> (r: Result<u128, TokenMillError>)
        ensures
            old(self).accrued_acc(pending_rewards as int) <= u128::MAX ==> r == Ok::<u128, TokenMillError>(
                old(self).accrued_acc(pending_rewards as int) as u128,
            ) && *final(self) == (MarketStaking {
                acc_reward_amount_per_share: old(self).accrued_acc(pending_rewards as int) as u128,
                ..*old(self)
            }),
            old(self).accrued_acc(pending_rewards as int) > u128::MAX ==> r == Err::<u128, TokenMillError>(
                TokenMillError::MathError,
            ) && *final(self) == *old(self),
    {
        let total_shares = self.amount_staked as u128 + self.total_amount_vested as u128;
        if total_shares > 0 && pending_rewards > 0 {
            let increase = pending_rewards as u128 * STAKING_SCALE / total_shares;
            match self.acc_reward_amount_per_share.checked_add(increase) {
                Some(acc) => {
                    self.acc_reward_amount_per_share = acc;
                },
                None => {
                    return Err(TokenMillError::MathError);
                },
            }
        }
        Ok(self.acc_reward_amount_per_share)
    }
}

impl StakePosition {
    /// An empty position.
    pub fn initialize() -> (r: StakePosition)
        ensures
            r == (StakePosition {
                amount_staked: 0,
                total_amount_vested: 0,
                pending_rewards: 0,
                acc_reward_amount_per_share: 0,
            }),
    {
        StakePosition {
            amount_staked: 0,
            total_amount_vested: 0,
            pending_rewards: 0,
            acc_reward_amount_per_share: 0,
        }
    }

    /// Staked and vested amounts of this position.
    pub open spec fn total_shares(self) -> int {
        self.amount_staked + self.total_amount_vested
    }

    /// The product of the shares and the accumulator's growth since the last accrual.
    pub open spec fn owed_scaled(self, acc: int) -> int {
        self.total_shares() * (acc - self.acc_reward_amount_per_share)
    }

    /// Rewards earned since the last accrual, at accumulator `acc`, rounded down.
    pub open spec fn reward_owed(self, acc: int) -> int {
        if self.total_shares() > 0 {
            self.owed_scaled(acc) / STAKING_SCALE as int
        } else {
            0
        }
    }

    /// Accruing at `acc` stays within the integer types.
    pub open spec fn accrual_fits(self, acc: int) -> bool {
        self.total_shares() > 0 ==> (self.owed_scaled(acc) <= u128::MAX && self.pending_rewards
            + self.reward_owed(acc) <= u64::MAX)
    }

    /// Adds the rewards earned since the last accrual and takes `acc` as the new snapshot.
    /// Fails, changing nothing, when the rewards overflow.
    pub fn accrue_rewards(&mut self, acc_reward_amount_per_share: u128) -> (r: Result<(), TokenMillError>)
        requires
            old(self).acc_reward_amount_per_share <= acc_reward_amount_per_share,
        ensures
            old(self).accrual_fits(acc_reward_amount_per_share as int) ==> r is Ok && *final(self) == (
            StakePosition {
                pending_rewards: (old(self).pending_rewards + old(self).reward_owed(acc_reward_amount_per_share as int)) as u64,
                acc_reward_amount_per_share,
                ..*old(self)
            }),
            !old(self).accrual_fits(acc_reward_amount_per_share as int) ==> r == Err::<(), TokenMillError>(
                TokenMillError::MathError,
            ) && *final(self) == *old(self),
    {
        let total_shares = self.amount_staked as u128 + self.total_amount_vested as u128;
        if total_shares > 0 {
            let growth = acc_reward_amount_per_share - self.acc_reward_amount_per_share;
            let scaled = match total_shares.checked_mul(growth) {
                Some(v) => v,
                None => {
                    return Err(TokenMillError::MathError);
                },
            };
            let reward = scaled / STAKING_SCALE;
            if reward > u64::MAX as u128 {
                return Err(TokenMillError::MathError);
            }
            match self.pending_rewards.checked_add(reward as u64) {
                Some(p) => {
                    self.pending_rewards = p;
                },
                None => {
                    return Err(TokenMillError::MathError);
                },
            }
        }
        self.acc_reward_amount_per_share = acc_reward_amount_per_share;
        Ok(())
    }
}

/// The market's pending staking fees after an accrual into `staking`: they are folded into
/// the accumulator, and zeroed, only when there are both shares and fees; otherwise they stay
/// pending.
pub open spec fn pending_after(staking: MarketStaking, pending: u64) -> u64 {
    if staking.total_shares() > 0 && pending > 0 {
        0
    } else {
        pending
    }
}

/// An accrual of `pending` market fees into `staking` and then `position` stays within the
/// integer types.
pub open spec fn accrual_fits(staking: MarketStaking, position: StakePosition, pending: u64) -> bool {
    &&& staking.accrued_acc(pending as int) <= u128::MAX
    &&& position.accrual_fits(staking.accrued_acc(pending as int))
}

/// The staking record after an accrual of `pending` market fees.
pub open spec fn staking_after(staking: MarketStaking, pending: u64) -> MarketStaking {
    MarketStaking { acc_reward_amount_per_share: staking.accrued_acc(pending as int) as u128, ..staking }
}

/// The position after an accrual of `pending` market fees.
pub open spec fn position_after(staking: MarketStaking, position: StakePosition, pending: u64) -> StakePosition {
    let acc = staking.accrued_acc(pending as int);
    StakePosition {
        pending_rewards: (position.pending_rewards + position.reward_owed(acc)) as u64,
        acc_reward_amount_per_share: acc as u128,
        ..position
    }
}

/// Folds the market's pending staking fees into the accumulator, then brings the position up
/// to it. Returns the pending fees it found; changes nothing when it fails.
fn accrue_rewards(market: &mut Market, staking: &mut MarketStaking, stake_position: &mut StakePosition) -> (r:
    Result<u64, TokenMillError>)
    requires
        old(stake_position).acc_reward_amount_per_share <= old(staking).acc_reward_amount_per_share,
    ensures
        accrual_fits(*old(staking), *old(stake_position), old(market).fees.pending_staking_fees) ==> {
            let pending = old(market).fees.pending_staking_fees;
            &&& r == Ok::<u64, TokenMillError>(pending)
            &&& *final(staking) == staking_after(*old(staking), pending)
            &&& *final(stake_position) == position_after(*old(staking), *old(stake_position), pending)
            &&& *final(market) == market_after(*old(market), *old(staking))
        },
        !accrual_fits(*old(staking), *old(stake_position), old(market).fees.pending_staking_fees) ==> r
            == Err::<u64, TokenMillError>(TokenMillError::MathError) && *final(market) == *old(market)
            && *final(staking) == *old(staking) && *final(stake_position) == *old(stake_position),
{
    let pending_staking_fees = market.fees.pending_staking_fees;
    let total_shares = staking.amount_staked as u128 + staking.total_amount_vested as u128;
    let mut new_staking = *staking;
    let acc_reward_amount_per_share = new_staking.accrue_rewards(pending_staking_fees)?;
    let mut new_position = *stake_position;
    new_position.accrue_rewards(acc_reward_amount_per_share)?;
    if total_shares > 0 && pending_staking_fees > 0 {
        market.fees.pending_staking_fees = 0;
    }
    *staking = new_staking;
    *stake_position = new_position;
    Ok(pending_staking_fees)
}

/// The market after an accrual of its pending staking fees into `staking`.
pub open spec fn market_after(market: Market, staking: MarketStaking) -> Market {
    let pending = market.fees.pending_staking_fees;
    Market {
        fees: MarketFees {
            pending_staking_fees: pending_after(staking, pending),
            ..market.fees
        },
        ..market
    }
}

/// Accrues, then adds `amount` to the staked principal of the position and of the market.
/// Returns the pending staking fees found by the accrual. Fails with `MathError`, changing
/// nothing, when an amount or a reward overflows.
pub fn deposit(
    market: &mut Market,
    staking: &mut MarketStaking,
    stake_position: &mut StakePosition,
    amount: u64,
) -> (r: Result<u64, TokenMillError>)
    requires
        old(stake_position).acc_reward_amount_per_share <= old(staking).acc_reward_amount_per_share,
    ensures
        ({
            let pending = old(market).fees.pending_staking_fees;
            let s1 = staking_after(*old(staking), pending);
            let p1 = position_after(*old(staking), *old(stake_position), pending);
            let ok = accrual_fits(*old(staking), *old(stake_position), pending)
                && old(staking).amount_staked + amount <= u64::MAX
                && old(stake_position).amount_staked + amount <= u64::MAX;
            &&& ok ==> r == Ok::<u64, TokenMillError>(pending)
                && *final(staking) == (MarketStaking { amount_staked: (s1.amount_staked + amount) as u64, ..s1 })
                && *final(stake_position) == (StakePosition { amount_staked: (p1.amount_staked + amount) as u64, ..p1 })
                && *final(market) == market_after(*old(market), *old(staking))
            &&& !ok ==> r == Err::<u64, TokenMillError>(TokenMillError::MathError)
                && *final(market) == *old(market) && *final(staking) == *old(staking)
                && *final(stake_position) == *old(stake_position)
        }),
        final(stake_position).acc_reward_amount_per_share <= final(staking).acc_reward_amount_per_share,
{
    if staking.amount_staked.checked_add(amount).is_none() || stake_position.amount_staked.checked_add(amount).is_none() {
        return Err(TokenMillError::MathError);
    }
    let pending_staking_fees = accrue_rewards(market, staking, stake_position)?;
    staking.amount_staked = staking.amount_staked + amount;
    stake_position.amount_staked = stake_position.amount_staked + amount;
    Ok(pending_staking_fees)
}

/// Accrues, then adds `amount` to the vested total of the position and of the market.
/// Returns the pending staking fees found by the accrual. Fails with `MathError`, changing
/// nothing, when an amount or a reward overflows.
pub fn deposit_vested(
    market: &mut Market,
    staking: &mut MarketStaking,
    stake_position: &mut StakePosition,
    amount: u64,
) -> (r: Result<u64, TokenMillError>)
    requires
        old(stake_position).acc_reward_amount_per_share <= old(staking).acc_reward_amount_per_share,
    ensures
        ({
            let pending = old(market).fees.pending_staking_fees;
            let s1 = staking_after(*old(staking), pending);
            let p1 = position_after(*old(staking), *old(stake_position), pending);
            let ok = accrual_fits(*old(staking), *old(stake_position), pending)
                && old(staking).total_amount_vested + amount <= u64::MAX
                && old(stake_position).total_amount_vested + amount <= u64::MAX;
            &&& ok ==> r == Ok::<u64, TokenMillError>(pending)
                && *final(staking) == (MarketStaking { total_amount_vested: (s1.total_amount_vested + amount) as u64, ..s1 })
                && *final(stake_position) == (StakePosition { total_amount_vested: (p1.total_amount_vested + amount) as u64, ..p1 })
                && *final(market) == market_after(*old(market), *old(staking))
            &&& !ok ==> r == Err::<u64, TokenMillError>(TokenMillError::MathError)
                && *final(market) == *old(market) && *final(staking) == *old(staking)
                && *final(stake_position) == *old(stake_position)
        }),
        final(stake_position).acc_reward_amount_per_share <= final(staking).acc_reward_amount_per_share,
{
    if staking.total_amount_vested.checked_add(amount).is_none()
        || stake_position.total_amount_vested.checked_add(amount).is_none() {
        return Err(TokenMillError::MathError);
    }
    let pending_staking_fees = accrue_rewards(market, staking, stake_position)?;
    staking.total_amount_vested = staking.total_amount_vested + amount;
    stake_position.total_amount_vested = stake_position.total_amount_vested + amount;
    Ok(pending_staking_fees)
}

/// Accrues, then takes `amount` out of the staked principal of the position and of the
/// market. Fails with `InsufficientStakeAmount` when the position holds less, and with
/// `MathError` when the market holds less or a reward overflows; a failure changes nothing.
pub fn withdraw(
    market: &mut Market,
    staking: &mut MarketStaking,
    stake_position: &mut StakePosition,
    amount: u64,
) -> (r: Result<u64, TokenMillError>)
    requires
        old(stake_position).acc_reward_amount_per_share <= old(staking).acc_reward_amount_per_share,
    ensures
        ({
            let pending = old(market).fees.pending_staking_fees;
            let s1 = staking_after(*old(staking), pending);
            let p1 = position_after(*old(staking), *old(stake_position), pending);
            let short = amount > old(stake_position).amount_staked;
            let ok = !short && accrual_fits(*old(staking), *old(stake_position), pending)
                && amount <= old(staking).amount_staked;
            &&& short ==> r == Err::<u64, TokenMillError>(TokenMillError::InsufficientStakeAmount)
            &&& ok ==> r == Ok::<u64, TokenMillError>(pending)
                && *final(staking) == (MarketStaking { amount_staked: (s1.amount_staked - amount) as u64, ..s1 })
                && *final(stake_position) == (StakePosition { amount_staked: (p1.amount_staked - amount) as u64, ..p1 })
                && *final(market) == market_after(*old(market), *old(staking))
            &&& !short && !ok ==> r == Err::<u64, TokenMillError>(TokenMillError::MathError)
            &&& !ok ==> *final(market) == *old(market) && *final(staking) == *old(staking)
                && *final(stake_position) == *old(stake_position)
        }),
        final(stake_position).acc_reward_amount_per_share <= final(staking).acc_reward_amount_per_share,
{
    if amount > stake_position.amount_staked {
        return Err(TokenMillError::InsufficientStakeAmount);
    }
    if amount > staking.amount_staked {
        return Err(TokenMillError::MathError);
    }
    let pending_staking_fees = accrue_rewards(market, staking, stake_position)?;
    staking.amount_staked = staking.amount_staked - amount;
    stake_position.amount_staked = stake_position.amount_staked - amount;
    Ok(pending_staking_fees)
}

/// Accrues, then takes `amount` out of the vested total of the position and of the market.
/// Fails with `MathError`, changing nothing, when either holds less or a reward overflows.
pub fn withdraw_vested(
    market: &mut Market,
    staking: &mut MarketStaking,
    stake_position: &mut StakePosition,
    amount: u64,
) -> (r: Result<u64, TokenMillError>)
    requires
        old(stake_position).acc_reward_amount_per_share <= old(staking).acc_reward_amount_per_share,
    ensures
        ({
            let pending = old(market).fees.pending_staking_fees;
            let s1 = staking_after(*old(staking), pending);
            let p1 = position_after(*old(staking), *old(stake_position), pending);
            let ok = accrual_fits(*old(staking), *old(stake_position), pending)
                && amount <= old(staking).total_amount_vested
                && amount <= old(stake_position).total_amount_vested;
            &&& ok ==> r == Ok::<u64, TokenMillError>(pending)
                && *final(staking) == (MarketStaking { total_amount_vested: (s1.total_amount_vested - amount) as u64, ..s1 })
                && *final(stake_position) == (StakePosition { total_amount_vested: (p1.total_amount_vested - amount) as u64, ..p1 })
                && *final(market) == market_after(*old(market), *old(staking))
            &&& !ok ==> r == Err::<u64, TokenMillError>(TokenMillError::MathError)
                && *final(market) == *old(market) && *final(staking) == *old(staking)
                && *final(stake_position) == *old(stake_position)
        }),
        final(stake_position).acc_reward_amount_per_share <= final(staking).acc_reward_amount_per_share,
{
    if amount > staking.total_amount_vested || amount > stake_position.total_amount_vested {
        return Err(TokenMillError::MathError);
    }
    let pending_staking_fees = accrue_rewards(market, staking, stake_position)?;
    staking.total_amount_vested = staking.total_amount_vested - amount;
    stake_position.total_amount_vested = stake_position.total_amount_vested - amount;
    Ok(pending_staking_fees)
}

/// Accrues, then hands out the position's pending rewards and zeroes them. Fails with
/// `MathError`, changing nothing, when a reward overflows.
pub fn claim_rewards(market: &mut Market, staking: &mut MarketStaking, stake_position: &mut StakePosition) -> (r:
    Result<u64, TokenMillError>)
    requires
        old(stake_position).acc_reward_amount_per_share <= old(staking).acc_reward_amount_per_share,
    ensures
        ({
            let pending = old(market).fees.pending_staking_fees;
            let p1 = position_after(*old(staking), *old(stake_position), pending);
            let ok = accrual_fits(*old(staking), *old(stake_position), pending);
            &&& ok ==> r == Ok::<u64, TokenMillError>(p1.pending_rewards)
                && *final(staking) == staking_after(*old(staking), pending)
                && *final(stake_position) == (StakePosition { pending_rewards: 0, ..p1 })
                && *final(market) == market_after(*old(market), *old(staking))
            &&& !ok ==> r == Err::<u64, TokenMillError>(TokenMillError::MathError)
                && *final(market) == *old(market) && *final(staking) == *old(staking)
                && *final(stake_position) == *old(stake_position)
        }),
        final(stake_position).acc_reward_amount_per_share <= final(staking).acc_reward_amount_per_share,
{
    accrue_rewards(market, staking, stake_position)?;
    let pending_rewards = stake_position.pending_rewards;
    stake_position.pending_rewards = 0;
    Ok(pending_rewards)
}

} // verus!
