use token_mill::errors::TokenMillError;
use token_mill::market::Market;
use token_mill::staking::{MarketStaking, StakePosition};
use token_mill::vesting::{release_vesting, VestingPlan};

const VESTING_AMOUNT: u64 = 1_000_000_000;
const STARTING_SLOT: i64 = 333;
const VESTING_DURATION: i64 = 300;
const CLIFF_DURATION: i64 = 60;

fn new_plan() -> VestingPlan {
    VestingPlan::initialize(STARTING_SLOT, VESTING_AMOUNT, VESTING_DURATION, CLIFF_DURATION, STARTING_SLOT).unwrap()
}

#[test]
fn create_vesting_plan() {
    let mut market = Market::initialize(9, 1_000_000_000_000, 2_000, 7_000, 1_000).unwrap();
    let mut staking = MarketStaking::initialize();
    let mut position = StakePosition::initialize();

    let vesting_plan = token_mill::vesting::create_vesting_plan(
        &mut market,
        &mut staking,
        &mut position,
        STARTING_SLOT,
        VESTING_AMOUNT,
        300,
        60,
        STARTING_SLOT,
    )
    .unwrap();

    assert_eq!(vesting_plan.amount_vested, VESTING_AMOUNT);
    assert_eq!(vesting_plan.start, STARTING_SLOT as i64);
    assert_eq!(vesting_plan.vesting_duration, 300);
    assert_eq!(vesting_plan.cliff_duration, 60);
    assert_eq!(position.total_amount_vested, VESTING_AMOUNT);
    assert_eq!(staking.total_amount_vested, VESTING_AMOUNT);
}

#[test]
fn create_vesting_plan_with_invalid_durations() {
    assert_eq!(
        VestingPlan::initialize(STARTING_SLOT, VESTING_AMOUNT, 60, 60, STARTING_SLOT),
        Err(TokenMillError::InvalidVestingDuration)
    );
    assert_eq!(
        VestingPlan::initialize(0, VESTING_AMOUNT, 300, 60, STARTING_SLOT),
        Err(TokenMillError::InvalidVestingDuration)
    );
    assert_eq!(
        VestingPlan::initialize(STARTING_SLOT, VESTING_AMOUNT, 300, 0, STARTING_SLOT),
        Err(TokenMillError::InvalidVestingDuration)
    );
    assert_eq!(
        VestingPlan::initialize(STARTING_SLOT, VESTING_AMOUNT, 300, 60, STARTING_SLOT + 300),
        Err(TokenMillError::InvalidVestingStartTime)
    );
}

#[test]
fn release_before_start() {
    let mut plan = VestingPlan::initialize(
        STARTING_SLOT + 60,
        VESTING_AMOUNT,
        VESTING_DURATION,
        CLIFF_DURATION,
        STARTING_SLOT,
    )
    .unwrap();

    let released = plan.release(STARTING_SLOT + 20).unwrap();

    assert_eq!(released, 0);
    assert_eq!(plan.amount_released, 0);
}

#[test]
fn release_during_cliff() {
    let mut plan = new_plan();

    plan.release(STARTING_SLOT + CLIFF_DURATION / 2).unwrap();

    assert_eq!(plan.amount_released, 0);
}

#[test]
fn release_after_cliff() {
    let mut plan = new_plan();

    plan.release(STARTING_SLOT + VESTING_DURATION / 2).unwrap();

    assert_eq!(plan.amount_released, VESTING_AMOUNT / 2);
}

#[test]
fn release_after_vesting() {
    let mut plan = new_plan();

    plan.release(STARTING_SLOT + VESTING_DURATION + 1).unwrap();

    assert_eq!(plan.amount_released, VESTING_AMOUNT);
}

#[test]
fn consecutive_releases() {
    let mut plan = new_plan();

    plan.release(STARTING_SLOT + VESTING_DURATION / 2).unwrap();
    plan.release(STARTING_SLOT + VESTING_DURATION).unwrap();

    assert_eq!(plan.amount_released, VESTING_AMOUNT);
}

#[test]
fn release_schedule_scenario() {
    let mut plan = new_plan();

    assert_eq!(plan.release(STARTING_SLOT + 150), Ok(500_000_000));
    assert_eq!(plan.amount_released, 500_000_000);
    assert_eq!(plan.release(STARTING_SLOT + 150), Ok(0));
    assert_eq!(plan.release(STARTING_SLOT + 301), Ok(500_000_000));
    assert_eq!(plan.amount_released, VESTING_AMOUNT);
}

#[test]
fn release_with_earlier_time_releases_nothing() {
    let mut plan = new_plan();

    assert_eq!(plan.release(STARTING_SLOT + 200), Ok(666_666_666));
    assert_eq!(plan.release(STARTING_SLOT + 100), Ok(0));
    assert_eq!(plan.amount_released, 666_666_666);
}

#[test]
fn release_vesting_withdraws_vested_stake() {
    let mut market = Market::initialize(9, 1_000_000_000_000, 2_000, 7_000, 1_000).unwrap();
    let mut staking = MarketStaking::initialize();
    let mut position = StakePosition::initialize();
    let mut plan = token_mill::vesting::create_vesting_plan(
        &mut market,
        &mut staking,
        &mut position,
        STARTING_SLOT,
        VESTING_AMOUNT,
        VESTING_DURATION,
        CLIFF_DURATION,
        STARTING_SLOT,
    )
    .unwrap();

    let released =
        release_vesting(&mut market, &mut staking, &mut position, &mut plan, STARTING_SLOT + 150).unwrap();

    assert_eq!(released, 500_000_000);
    assert_eq!(position.total_amount_vested, 500_000_000);
    assert_eq!(staking.total_amount_vested, 500_000_000);
}
