use vstd::prelude::*;

use crate::errors::TokenMillError;
use crate::market::Market;
use crate::staking::{
    accrual_fits, deposit_vested, market_after, position_after, staking_after, withdraw_vested,
    MarketStaking, StakePosition,
};

verus! {

/// A linear release, with a cliff, of an amount vested into a stake position.
#[derive(Debug, Clone, Copy, PartialEq, Eq, Structural)]
pub struct VestingPlan {
    /// The amount locked at creation.
    pub amount_vested: u64,
    /// The amount released so far.
    pub amount_released: u64,
    /// When the vesting starts.
    pub start: i64,
    /// Time after the start before anything is released.
    pub cliff_duration: i64,
    /// Time after the start when everything is released.
    pub vesting_duration: i64,
}

/// Why a plan with these times would be refused at `current_time`, if it would.
pub open spec fn plan_error(start: int, vesting_duration: int, cliff_duration: int, current_time: int) -> Option<
    TokenMillError,
> {
    if !(start > 0 && vesting_duration > 0 && cliff_duration > 0) || vesting_duration <= cliff_duration {
        Some(TokenMillError::InvalidVestingDuration)
    } else if start + vesting_duration <= current_time {
        Some(TokenMillError::InvalidVestingStartTime)
    } else {
        None
    }
}

impl VestingPlan {
    /// Positive times, a cliff shorter than the vesting, and no more released than vested.
    pub open spec fn wf(self) -> bool {
        &&& self.start > 0
        &&& 0 < self.cliff_duration < self.vesting_duration
        &&& self.amount_released <= self.amount_vested
    }

    /// The part of the vested amount that time `current_time` frees, rounded down.
    pub open spec fn amount_free(self, current_time: int) -> int {
        let elapsed = current_time - self.start;
        if elapsed < self.cliff_duration {
            0
        } else if elapsed >= self.vesting_duration {
            self.amount_vested as int
        } else {
            self.amount_vested * elapsed / self.vesting_duration as int
        }
    }

    /// What a release at `current_time` hands out: nothing before the cliff, everything left
    /// once the vesting is over, and in between what is free beyond what was released.
    pub open spec fn release_amount(self, current_time: int) -> int {
        let elapsed = current_time - self.start;
        if elapsed < self.cliff_duration {
            0
        } else if elapsed >= self.vesting_duration {
            self.amount_vested - self.amount_released
        } else if self.amount_free(current_time) > self.amount_released {
            self.amount_free(current_time) - self.amount_released
        } else {
            0
        }
    }

    /// The plan after a release at `current_time`.
    pub open spec fn released(self, current_time: int) -> VestingPlan {
        VestingPlan {
            amount_released: (self.amount_released + self.release_amount(current_time)) as u64,
            ..self
        }
    }

    /// A plan for `amount_vested` from `start`; refused when a duration is not positive, the
    /// cliff is not shorter than the vesting, or the vesting would be over at `current_time`.
    pub fn initialize(
        start: i64,
        amount_vested: u64,
        vesting_duration: i64,
        cliff_duration: i64,
        current_time: i64,
    ) -> (r: Result<VestingPlan, TokenMillError>)
        ensures
            plan_error(start as int, vesting_duration as int, cliff_duration as int, current_time as int) matches Some(e)
                ==> r == Err::<VestingPlan, TokenMillError>(e),
            plan_error(start as int, vesting_duration as int, cliff_duration as int, current_time as int) is None ==> r
                == Ok::<VestingPlan, TokenMillError>(VestingPlan {
                amount_vested,
                amount_released: 0,
                start,
                cliff_duration,
                vesting_duration,
            }),
            r matches Ok(p) ==> p.wf(),
    {
        if !(start > 0 && vesting_duration > 0 && cliff_duration > 0) {
            return Err(TokenMillError::InvalidVestingDuration);
        }
        if vesting_duration <= cliff_duration {
            return Err(TokenMillError::InvalidVestingDuration);
        }
        if start as i128 + vesting_duration as i128 <= current_time as i128 {
            return Err(TokenMillError::InvalidVestingStartTime);
        }
        Ok(VestingPlan { amount_vested, amount_released: 0, start, cliff_duration, vesting_duration })
    }

    /// Releases what `current_time` frees beyond what was released, and returns it.
    pub fn release(&mut self, current_time: i64) -> (r: Result<u64, TokenMillError>)
        requires
            old(self).wf(),
        ensures
            r == Ok::<u64, TokenMillError>(old(self).release_amount(current_time as int) as u64),
            *final(self) == old(self).released(current_time as int),
            final(self).wf(),
            old(self).amount_released <= final(self).amount_released,
            current_time - old(self).start >= old(self).vesting_duration ==> r == Ok::<u64, TokenMillError>(
                (old(self).amount_vested - old(self).amount_released) as u64,
            ) && final(self).amount_released == final(self).amount_vested,
    {
        let elapsed_time = current_time as i128 - self.start as i128;
        if elapsed_time < self.cliff_duration as i128 {
            return Ok(0);
        }
        if elapsed_time >= self.vesting_duration as i128 {
            let amount_to_release = self.amount_vested - self.amount_released;
            self.amount_released = self.amount_released + amount_to_release;
            return Ok(amount_to_release);
        }
        let ghost vested = self.amount_vested as int;
        let ghost e = elapsed_time as int;
        let ghost d = self.vesting_duration as int;
        proof {
            assert(vested * e <= vested * d) by (nonlinear_arith)
                requires
                    0 <= e < d,
                    vested >= 0,
            ;
            assert(vested * d <= u64::MAX * i64::MAX) by (nonlinear_arith)
                requires
                    0 <= vested <= u64::MAX,
                    0 < d <= i64::MAX,
            ;
            crate::arith::lemma_le_div(0, vested * e, d);
            crate::arith::lemma_div_bounds(vested * e, d);
            assert(vested * e / d <= vested) by (nonlinear_arith)
                requires
                    d * (vested * e / d) <= vested * e,
                    vested * e <= vested * d,
                    d > 0,
            ;
        }
        let amount_free = (self.amount_vested as u128 * elapsed_time as u128 / self.vesting_duration as u128) as u64;
        if amount_free <= self.amount_released {
            return Ok(0);
        }
        let amount_to_release = amount_free - self.amount_released;
        self.amount_released = self.amount_released + amount_to_release;
        Ok(amount_to_release)
    }
}

/// Releasing twice at the same time hands out nothing the second time.
pub proof fn lemma_release_twice_is_zero(plan: VestingPlan, current_time: int)
    requires
        plan.wf(),
    ensures
        plan.released(current_time).release_amount(current_time) == 0,
{
    lemma_release_bounded(plan, current_time);
}

/// A release never takes the released amount down, nor past the vested amount.
pub proof fn lemma_release_bounded(plan: VestingPlan, current_time: int)
    requires
        plan.wf(),
    ensures
        0 <= plan.release_amount(current_time) <= plan.amount_vested - plan.amount_released,
        0 <= plan.amount_free(current_time) <= plan.amount_vested,
        plan.released(current_time).wf(),
        plan.amount_released <= plan.released(current_time).amount_released <= plan.amount_vested,
{
    let e = current_time - plan.start;
    if plan.cliff_duration <= e < plan.vesting_duration {
        let v = plan.amount_vested as int;
        let d = plan.vesting_duration as int;
        assert(v * e <= v * d) by (nonlinear_arith)
            requires
                0 <= e < d,
                v >= 0,
        ;
        crate::arith::lemma_div_bounds(v * e, d);
        assert(v * e / d <= v) by (nonlinear_arith)
            requires
                d * (v * e / d) <= v * e,
                v * e <= v * d,
                d > 0,
        ;
        crate::arith::lemma_le_div(0, v * e, d);
    }
}

/// Creates a vesting plan into `stake_position` and deposits its amount as vested stake;
/// fails, changing nothing, when the plan is refused or the deposit fails.
pub fn create_vesting_plan(
    market: &mut Market,
    staking: &mut MarketStaking,
    stake_position: &mut StakePosition,
    start: i64,
    vesting_amount: u64,
    vesting_duration: i64,
    cliff_duration: i64,
    current_time: i64,
) -> (r: Result<VestingPlan, TokenMillError>)
    requires
        old(stake_position).acc_reward_amount_per_share <= old(staking).acc_reward_amount_per_share,
    ensures
        plan_error(start as int, vesting_duration as int, cliff_duration as int, current_time as int) matches Some(e)
            ==> r == Err::<VestingPlan, TokenMillError>(e),
        plan_error(start as int, vesting_duration as int, cliff_duration as int, current_time as int) is None
            && accrual_fits(*old(staking), *old(stake_position), old(market).fees.pending_staking_fees)
            && old(staking).total_amount_vested + vesting_amount <= u64::MAX
            && old(stake_position).total_amount_vested + vesting_amount <= u64::MAX ==> r is Ok,
        r matches Ok(p) ==> {
            let pending = old(market).fees.pending_staking_fees;
            let s1 = staking_after(*old(staking), pending);
            let p1 = position_after(*old(staking), *old(stake_position), pending);
            &&& p.wf()
            &&& p == (VestingPlan {
                amount_vested: vesting_amount,
                amount_released: 0,
                start,
                cliff_duration,
                vesting_duration,
            })
            &&& *final(staking) == (MarketStaking {
                total_amount_vested: (s1.total_amount_vested + vesting_amount) as u64,
                ..s1
            })
            &&& *final(stake_position) == (StakePosition {
                total_amount_vested: (p1.total_amount_vested + vesting_amount) as u64,
                ..p1
            })
            &&& *final(market) == market_after(*old(market), *old(staking))
        },
        r is Err ==> *final(market) == *old(market) && *final(staking) == *old(staking)
            && *final(stake_position) == *old(stake_position),
        final(stake_position).acc_reward_amount_per_share <= final(staking).acc_reward_amount_per_share,
{
    let plan = VestingPlan::initialize(start, vesting_amount, vesting_duration, cliff_duration, current_time)?;
    deposit_vested(market, staking, stake_position, vesting_amount)?;
    Ok(plan)
}

/// Releases what the plan frees at `current_time` and withdraws it from the vested stake;
/// returns the amount released. Fails, changing nothing, when the withdrawal fails.
pub fn release_vesting(
    market: &mut Market,
    staking: &mut MarketStaking,
    stake_position: &mut StakePosition,
    plan: &mut VestingPlan,
    current_time: i64,
) -> (r: Result<u64, TokenMillError>)
    requires
        old(plan).wf(),
        old(stake_position).acc_reward_amount_per_share <= old(staking).acc_reward_amount_per_share,
    ensures
        accrual_fits(*old(staking), *old(stake_position), old(market).fees.pending_staking_fees)
            && old(plan).release_amount(current_time as int) <= old(staking).total_amount_vested
            && old(plan).release_amount(current_time as int) <= old(stake_position).total_amount_vested
            ==> r is Ok,
        r matches Ok(a) ==> {
            let pending = old(market).fees.pending_staking_fees;
            let s1 = staking_after(*old(staking), pending);
            let p1 = position_after(*old(staking), *old(stake_position), pending);
            &&& a == old(plan).release_amount(current_time as int)
            &&& *final(plan) == old(plan).released(current_time as int)
            &&& *final(staking) == (MarketStaking { total_amount_vested: (s1.total_amount_vested - a) as u64, ..s1 })
            &&& *final(stake_position) == (StakePosition {
                total_amount_vested: (p1.total_amount_vested - a) as u64,
                ..p1
            })
            &&& *final(market) == market_after(*old(market), *old(staking))
        },
        r is Err ==> *final(plan) == *old(plan) && *final(market) == *old(market)
            && *final(staking) == *old(staking) && *final(stake_position) == *old(stake_position),
        final(plan).wf(),
        final(stake_position).acc_reward_amount_per_share <= final(staking).acc_reward_amount_per_share,
{
    let mut new_plan = *plan;
    proof {
        lemma_release_bounded(*plan, current_time as int);
    }
    let amount_released = new_plan.release(current_time)?;
    withdraw_vested(market, staking, stake_position, amount_released)?;
    *plan = new_plan;
    Ok(amount_released)
}

} // verus!
