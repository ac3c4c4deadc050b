use token_mill::curve::Curve;
use token_mill::errors::TokenMillError;
use token_mill::market::Market;
use token_mill::staking::{claim_rewards, withdraw, MarketStaking, StakePosition};
use token_mill::swap::{process_swap, SwapAmountType, SwapType};

const STAKE_AMOUNT: u64 = 100_000_000;

fn loose_threshold(swap_amount_type: SwapAmountType) -> u64 {
    match swap_amount_type {
        SwapAmountType::ExactInput => 0,
        SwapAmountType::ExactOutput => u64::MAX,
    }
}

fn setup_market() -> Market {
    let mut market = Market::initialize(9, 1_000_000_000_000, 2_000, 7_000, 1_000).unwrap();
    let curve = Curve::default();
    market.check_and_set_prices(curve.bid_prices, curve.ask_prices).unwrap();
    market
}

#[test]
fn create_staking() {
    let staking = MarketStaking::initialize();
    assert_eq!(staking.amount_staked, 0);
    assert_eq!(staking.total_amount_vested, 0);
    assert_eq!(staking.acc_reward_amount_per_share, 0);
}

#[test]
fn create_stake_position() {
    let position = StakePosition::initialize();
    assert_eq!(position.amount_staked, 0);
    assert_eq!(position.pending_rewards, 0);
}

#[test]
fn deposit() {
    let mut market = setup_market();
    let mut staking = MarketStaking::initialize();
    let mut position = StakePosition::initialize();
    process_swap(&mut market, SwapType::Buy, SwapAmountType::ExactOutput, STAKE_AMOUNT, u64::MAX, None).unwrap();

    let result = token_mill::staking::deposit(&mut market, &mut staking, &mut position, STAKE_AMOUNT);

    assert!(result.is_ok());
    assert_eq!(staking.amount_staked, STAKE_AMOUNT);
    assert_eq!(position.amount_staked, STAKE_AMOUNT);
}

#[test]
fn claim_staking_rewards() {
    let mut market = setup_market();
    let mut staking = MarketStaking::initialize();
    let mut position = StakePosition::initialize();
    process_swap(&mut market, SwapType::Buy, SwapAmountType::ExactOutput, STAKE_AMOUNT, u64::MAX, None).unwrap();
    token_mill::staking::deposit(&mut market, &mut staking, &mut position, STAKE_AMOUNT).unwrap();
    market.fees.pending_staking_fees = 0;

    let receipt = process_swap(
        &mut market,
        SwapType::Buy,
        SwapAmountType::ExactOutput,
        1_000_000_000_000 / 2,
        u64::MAX,
        None,
    )
    .unwrap();

    let rewards = claim_rewards(&mut market, &mut staking, &mut position).unwrap();

    assert!(rewards > 0);
    assert!(rewards <= receipt.staking_fee);
    assert_eq!(receipt.staking_fee - rewards, 0);
    assert_eq!(market.fees.pending_staking_fees, 0);
    assert_eq!(position.pending_rewards, 0);
}

#[test]
fn withdraw_more_than_staked() {
    let mut market = setup_market();
    let mut staking = MarketStaking::initialize();
    let mut position = StakePosition::initialize();
    token_mill::staking::deposit(&mut market, &mut staking, &mut position, STAKE_AMOUNT).unwrap();

    let result = withdraw(&mut market, &mut staking, &mut position, STAKE_AMOUNT + 1);

    assert_eq!(result, Err(TokenMillError::InsufficientStakeAmount));
    assert_eq!(position.amount_staked, STAKE_AMOUNT);
}

#[test]
fn staking() {
    let mut market = setup_market();
    let mut staking = MarketStaking::initialize();
    let mut alice = StakePosition::initialize();
    let mut bob = StakePosition::initialize();
    let scenarios = [
        (SwapType::Buy, SwapAmountType::ExactOutput, 500_000_000u64),
        (SwapType::Sell, SwapAmountType::ExactInput, 20_000_000),
        (SwapType::Sell, SwapAmountType::ExactInput, 300_000_000),
        (SwapType::Buy, SwapAmountType::ExactOutput, 833_333_333),
    ];
    let amount_staked = 500_000_000;

    process_swap(&mut market, SwapType::Buy, SwapAmountType::ExactOutput, amount_staked, u64::MAX, None).unwrap();
    let mut injected = market.fees.pending_staking_fees;
    token_mill::staking::deposit(&mut market, &mut staking, &mut alice, amount_staked).unwrap();
    token_mill::staking::deposit(&mut market, &mut staking, &mut bob, amount_staked / 4).unwrap();

    for (swap_type, swap_amount_type, amount) in scenarios {
        injected += process_swap(&mut market, swap_type, swap_amount_type, amount, loose_threshold(swap_amount_type), None).unwrap().staking_fee;
    }

    let first = claim_rewards(&mut market, &mut staking, &mut alice).unwrap();
    assert!(first > 0);

    withdraw(&mut market, &mut staking, &mut alice, amount_staked / 2).unwrap();

    for (swap_type, swap_amount_type, amount) in scenarios {
        injected += process_swap(&mut market, swap_type, swap_amount_type, amount, loose_threshold(swap_amount_type), None).unwrap().staking_fee;
    }

    let second = claim_rewards(&mut market, &mut staking, &mut alice).unwrap();
    let third = claim_rewards(&mut market, &mut staking, &mut bob).unwrap();
    assert!(second > 0 && third > 0);
    assert!(first + second + third <= injected);
    assert_eq!(staking.amount_staked, amount_staked / 2 + amount_staked / 4);
}

#[test]
fn idle_staking_fees_stay_pending() {
    let mut market = setup_market();
    let mut staking = MarketStaking::initialize();
    let mut position = StakePosition::initialize();
    staking.acc_reward_amount_per_share = 5;
    market.fees.pending_staking_fees = 1_000;

    let found = token_mill::staking::deposit(&mut market, &mut staking, &mut position, STAKE_AMOUNT).unwrap();

    assert_eq!(found, 1_000);
    assert_eq!(market.fees.pending_staking_fees, 1_000);
    assert_eq!(staking.acc_reward_amount_per_share, 5);

    let rewards = claim_rewards(&mut market, &mut staking, &mut position).unwrap();
    assert_eq!(market.fees.pending_staking_fees, 0);
    assert_eq!(rewards, 1_000);
}
