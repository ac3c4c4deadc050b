use vstd::prelude::*;

use crate::constant::STAKING_SCALE;
use crate::staking::{
    accrual_fits, acc_increase, pending_after, position_after, staking_after, MarketStaking,
    StakePosition,
};

verus! {

/// What one position is owed, scaled by `STAKING_SCALE`: its pending rewards and what its
/// shares earned since its snapshot, before rounding.
pub open spec fn owed_scaled(p: StakePosition, acc: int) -> int {
    p.pending_rewards * STAKING_SCALE + p.total_shares() * (acc - p.acc_reward_amount_per_share)
}

/// What all positions are owed, scaled, at accumulator `acc`.
pub open spec fn owed_total(positions: Seq<StakePosition>, acc: int) -> int
    decreases positions.len(),
{
    if positions.len() == 0 {
        0
    } else {
        owed_total(positions.drop_last(), acc) + owed_scaled(positions.last(), acc)
    }
}

/// The shares of all positions.
pub open spec fn shares_total(positions: Seq<StakePosition>) -> int
    decreases positions.len(),
{
    if positions.len() == 0 {
        0
    } else {
        shares_total(positions.drop_last()) + positions.last().total_shares()
    }
}

/// The pending rewards of all positions.
pub open spec fn pending_total(positions: Seq<StakePosition>) -> int
    decreases positions.len(),
{
    if positions.len() == 0 {
        0
    } else {
        pending_total(positions.drop_last()) + positions.last().pending_rewards
    }
}

/// The staking books balance: no snapshot is ahead of the accumulator, the market's shares
/// are the positions' shares, and what the positions are owed is covered by `distributed`,
/// the staking fees taken from the market so far.
pub open spec fn rewards_backed(staking: MarketStaking, positions: Seq<StakePosition>, distributed: int) -> bool {
    &&& forall|i: int| 0 <= i < positions.len() ==> #[trigger] positions[i].acc_reward_amount_per_share
        <= staking.acc_reward_amount_per_share
    &&& shares_total(positions) == staking.total_shares()
    &&& owed_total(positions, staking.acc_reward_amount_per_share as int) <= distributed * STAKING_SCALE
}

proof fn lemma_owed_shift(positions: Seq<StakePosition>, acc: int, x: int)
    ensures
        owed_total(positions, acc + x) == owed_total(positions, acc) + shares_total(positions) * x,
    decreases positions.len(),
{
    if positions.len() > 0 {
        lemma_owed_shift(positions.drop_last(), acc, x);
        let p = positions.last();
        let sh = p.total_shares();
        let a = p.acc_reward_amount_per_share as int;
        assert(sh * (acc + x - a) == sh * (acc - a) + sh * x) by (nonlinear_arith);
        assert((shares_total(positions.drop_last()) + sh) * x == shares_total(positions.drop_last()) * x + sh * x)
            by (nonlinear_arith);
    }
}

proof fn lemma_totals_update(positions: Seq<StakePosition>, j: int, q: StakePosition, acc: int)
    requires
        0 <= j < positions.len(),
    ensures
        owed_total(positions.update(j, q), acc) == owed_total(positions, acc) - owed_scaled(positions[j], acc)
            + owed_scaled(q, acc),
        shares_total(positions.update(j, q)) == shares_total(positions) - positions[j].total_shares()
            + q.total_shares(),
        pending_total(positions.update(j, q)) == pending_total(positions) - positions[j].pending_rewards
            + q.pending_rewards,
    decreases positions.len(),
{
    let u = positions.update(j, q);
    if j == positions.len() - 1 {
        assert(u.drop_last() =~= positions.drop_last());
    } else {
        assert(u.drop_last() =~= positions.drop_last().update(j, q));
        lemma_totals_update(positions.drop_last(), j, q, acc);
    }
}

proof fn lemma_pending_below_owed(positions: Seq<StakePosition>, acc: int)
    requires
        forall|i: int| 0 <= i < positions.len() ==> #[trigger] positions[i].acc_reward_amount_per_share <= acc,
    ensures
        pending_total(positions) * STAKING_SCALE <= owed_total(positions, acc),
    decreases positions.len(),
{
    if positions.len() > 0 {
        let rest = positions.drop_last();
        assert forall|i: int| 0 <= i < rest.len() implies #[trigger] rest[i].acc_reward_amount_per_share <= acc by {
            assert(rest[i] == positions[i]);
        }
        lemma_pending_below_owed(rest, acc);
        let p = positions.last();
        assert(p == positions[positions.len() - 1]);
        assert(p.total_shares() * (acc - p.acc_reward_amount_per_share) >= 0) by (nonlinear_arith)
            requires
                p.total_shares() >= 0,
                acc - p.acc_reward_amount_per_share >= 0,
        ;
        assert((pending_total(rest) + p.pending_rewards) * STAKING_SCALE == pending_total(rest) * STAKING_SCALE
            + p.pending_rewards * STAKING_SCALE);
    }
}

/// The books balance with no positions and nothing distributed.
pub proof fn lemma_rewards_backed_at_start(staking: MarketStaking)
    requires
        staking.amount_staked == 0,
        staking.total_amount_vested == 0,
    ensures
        rewards_backed(staking, Seq::<StakePosition>::empty(), 0),
{
}

/// Opening an empty position keeps the books balanced.
pub proof fn lemma_open_position_keeps_rewards_backed(
    staking: MarketStaking,
    positions: Seq<StakePosition>,
    distributed: int,
    fresh: StakePosition,
)
    requires
        rewards_backed(staking, positions, distributed),
        fresh.amount_staked == 0,
        fresh.total_amount_vested == 0,
        fresh.pending_rewards == 0,
        fresh.acc_reward_amount_per_share <= staking.acc_reward_amount_per_share,
    ensures
        rewards_backed(staking, positions.push(fresh), distributed),
{
    let ps = positions.push(fresh);
    assert(ps.drop_last() =~= positions);
    assert(ps.last() == fresh);
    let acc = staking.acc_reward_amount_per_share as int;
    assert(fresh.total_shares() * (acc - fresh.acc_reward_amount_per_share) == 0) by (nonlinear_arith)
        requires
            fresh.total_shares() == 0,
    ;
    assert forall|i: int| 0 <= i < ps.len() implies #[trigger] ps[i].acc_reward_amount_per_share
        <= staking.acc_reward_amount_per_share by {
        if i < positions.len() {
            assert(ps[i] == positions[i]);
        }
    }
}

/// Every staking operation on position `j` keeps the books balanced, counting as distributed
/// only the part of the market's `pending` staking fees that the accrual takes in: an accrual
/// (as `deposit`, `withdraw`, their vested forms and `claim_rewards` all start with), then new
/// staked and vested amounts for the position, moved by the same difference on the market,
/// and, for a claim, the pending rewards handed out. Rounding loses less than the market's
/// shares plus one reward unit (both scaled by `STAKING_SCALE`) per operation, so the gap
/// between fees taken in and rewards owed or handed out grows by a bounded amount per accrual.
pub proof fn lemma_operation_keeps_rewards_backed(
    staking: MarketStaking,
    positions: Seq<StakePosition>,
    distributed: int,
    j: int,
    pending: u64,
    new_staked: u64,
    new_vested: u64,
    claim: bool,
)
    requires
        rewards_backed(staking, positions, distributed),
        0 <= j < positions.len(),
        accrual_fits(staking, positions[j], pending),
        0 <= staking.amount_staked - positions[j].amount_staked + new_staked <= u64::MAX,
        0 <= staking.total_amount_vested - positions[j].total_amount_vested + new_vested <= u64::MAX,
    ensures
        ({
            let s1 = staking_after(staking, pending);
            let p1 = position_after(staking, positions[j], pending);
            let s2 = MarketStaking {
                amount_staked: (s1.amount_staked - p1.amount_staked + new_staked) as u64,
                total_amount_vested: (s1.total_amount_vested - p1.total_amount_vested + new_vested) as u64,
                ..s1
            };
            let p2 = StakePosition {
                amount_staked: new_staked,
                total_amount_vested: new_vested,
                pending_rewards: if claim {
                    0
                } else {
                    p1.pending_rewards
                },
                ..p1
            };
            let taken = pending - pending_after(staking, pending);
            let handed_out = if claim {
                p1.pending_rewards as int
            } else {
                0
            };
            &&& rewards_backed(s2, positions.update(j, p2), distributed + taken)
            &&& owed_total(positions.update(j, p2), s2.acc_reward_amount_per_share as int) + handed_out
                * STAKING_SCALE + staking.total_shares() + STAKING_SCALE > owed_total(
                positions,
                staking.acc_reward_amount_per_share as int,
            ) + taken * STAKING_SCALE
        }),
{
    let acc = staking.acc_reward_amount_per_share as int;
    let total = staking.total_shares();
    let inc = acc_increase(pending as int, total);
    let acc1 = acc + inc;
    let p = positions[j];
    let s1 = staking_after(staking, pending);
    let p1 = position_after(staking, p, pending);
    // Folding the fees in: the accumulator's growth over all shares is at most the fees.
    lemma_owed_shift(positions, acc, inc);
    if total > 0 && pending > 0 {
        crate::arith::lemma_div_bounds(pending * STAKING_SCALE, total);
        assert(total * inc <= pending * STAKING_SCALE);
        assert(total * inc > pending * STAKING_SCALE - total);
    }
    let taken = pending - pending_after(staking, pending);
    assert(owed_total(positions, acc1) <= (distributed + taken) * STAKING_SCALE);
    // Accruing the position: rounding its reward down only lowers what it is owed.
    let sh = p.total_shares();
    let a = p.acc_reward_amount_per_share as int;
    assert(sh * (acc1 - a) >= 0) by (nonlinear_arith)
        requires
            sh >= 0,
            acc1 - a >= 0,
    ;
    if sh > 0 {
        crate::arith::lemma_div_bounds(sh * (acc1 - a), STAKING_SCALE as int);
    } else {
        assert(sh * (acc1 - a) == 0) by (nonlinear_arith)
            requires
                sh == 0,
        ;
    }
    assert(p1.pending_rewards * STAKING_SCALE > owed_scaled(p, acc1) - STAKING_SCALE);
    assert(p1.pending_rewards * STAKING_SCALE <= owed_scaled(p, acc1));
    let s2 = MarketStaking {
        amount_staked: (s1.amount_staked - p1.amount_staked + new_staked) as u64,
        total_amount_vested: (s1.total_amount_vested - p1.total_amount_vested + new_vested) as u64,
        ..s1
    };
    let p2 = StakePosition {
        amount_staked: new_staked,
        total_amount_vested: new_vested,
        pending_rewards: if claim {
            0
        } else {
            p1.pending_rewards
        },
        ..p1
    };
    assert(p2.acc_reward_amount_per_share == acc1);
    assert(p2.total_shares() * (acc1 - p2.acc_reward_amount_per_share) == 0) by (nonlinear_arith)
        requires
            acc1 - p2.acc_reward_amount_per_share == 0,
    ;
    assert(owed_scaled(p2, acc1) == p2.pending_rewards * STAKING_SCALE);
    lemma_totals_update(positions, j, p2, acc1);
    let ps = positions.update(j, p2);
    assert forall|i: int| 0 <= i < ps.len() implies #[trigger] ps[i].acc_reward_amount_per_share
        <= s2.acc_reward_amount_per_share by {
        if i != j {
            assert(ps[i] == positions[i]);
        }
    }
}

/// While the books balance, the positions' pending rewards add up to at most the staking
/// fees distributed.
pub proof fn lemma_pending_rewards_bounded(staking: MarketStaking, positions: Seq<StakePosition>, distributed: int)
    requires
        rewards_backed(staking, positions, distributed),
    ensures
        pending_total(positions) <= distributed,
{
    lemma_pending_below_owed(positions, staking.acc_reward_amount_per_share as int);
}

} // verus!
