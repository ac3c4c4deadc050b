use token_mill::curve::Curve;
use token_mill::errors::TokenMillError;
use token_mill::market::Market;
use token_mill::math::Rounding;
use token_mill::swap::{process_swap, quote_swap, swap, SwapAmountType, SwapType};

const TOTAL_SUPPLY: u64 = 1_000_000_000_000;
const RESERVE_AFTER_STEPS: u64 = 985_850_392_469;

fn loose_threshold(swap_amount_type: SwapAmountType) -> u64 {
    match swap_amount_type {
        SwapAmountType::ExactInput => 0,
        SwapAmountType::ExactOutput => u64::MAX,
    }
}

fn setup_market() -> Market {
    let mut market = Market::initialize(9, TOTAL_SUPPLY, 2_000, 7_000, 1_000).unwrap();
    let curve = Curve::default();
    market.check_and_set_prices(curve.bid_prices, curve.ask_prices).unwrap();
    market
}

#[test]
fn buy_exact_output_scenario() {
    let mut market = setup_market();

    let (base_amount, quote_amount, swap_fee) =
        swap(&mut market, SwapType::Buy, SwapAmountType::ExactOutput, 500_000_000).unwrap();

    assert_eq!(base_amount, 500_000_000);
    assert_eq!(quote_amount, 1_250_000);
    assert_eq!(market.base_reserve, TOTAL_SUPPLY - 500_000_000);

    let before = setup_market();
    let (_, buyback_amount) = before
        .get_quote_amount_with_parameters(0, base_amount, SwapAmountType::ExactInput, Rounding::Up)
        .unwrap();
    assert_eq!(buyback_amount, 1_125_000);
    assert_eq!(swap_fee, quote_amount - buyback_amount);
    assert_eq!(swap_fee, 125_000);
}

#[test]
fn buy_then_sell_round_trip() {
    let mut market = setup_market();

    let (base_amount, paid, _) =
        swap(&mut market, SwapType::Buy, SwapAmountType::ExactOutput, 1_000_000_000).unwrap();
    let (sold, received, fee) =
        swap(&mut market, SwapType::Sell, SwapAmountType::ExactInput, base_amount).unwrap();

    assert_eq!(sold, base_amount);
    assert!(received <= paid);
    assert_eq!(received, 4_500_000);
    assert_eq!(fee, 0);
    assert_eq!(market.base_reserve, TOTAL_SUPPLY);
}

#[test]
fn supply_is_conserved() {
    let mut market = setup_market();
    let steps = [
        (SwapType::Buy, SwapAmountType::ExactOutput, 1_000_000_000u64),
        (SwapType::Sell, SwapAmountType::ExactOutput, 1_000_000),
        (SwapType::Buy, SwapAmountType::ExactInput, 1_000_000_000),
        (SwapType::Sell, SwapAmountType::ExactInput, 20_000_000),
    ];
    for (swap_type, swap_amount_type, amount) in steps {
        swap(&mut market, swap_type, swap_amount_type, amount).unwrap();
        assert_eq!(market.base_reserve + market.circulating_supply(), market.total_supply);
    }
    assert_eq!(market.base_reserve, RESERVE_AFTER_STEPS);
}

#[test]
fn quote_swap_leaves_market_unchanged() {
    let market = setup_market();
    let quoted = quote_swap(&market, SwapType::Buy, SwapAmountType::ExactInput, 1_000_000_000).unwrap();
    assert_eq!(quoted, (14_142_135_623, 1_000_000_000, 100_000_000));
    assert_eq!(market.base_reserve, TOTAL_SUPPLY);
}

#[test]
fn sell_exact_output_amounts() {
    let mut market = setup_market();
    swap(&mut market, SwapType::Buy, SwapAmountType::ExactOutput, 1_000_000_000).unwrap();
    let (base_amount, quote_amount, fee) =
        swap(&mut market, SwapType::Sell, SwapAmountType::ExactOutput, 1_000_000).unwrap();
    assert_eq!((base_amount, quote_amount, fee), (118_082_897, 1_000_000, 0));
}

#[test]
fn swap_with_invalid_amount_in() {
    let mut market = setup_market();

    let result = process_swap(&mut market, SwapType::Buy, SwapAmountType::ExactOutput, 1_000_000_000, u64::MAX, None);
    assert!(result.is_ok());

    let result = process_swap(&mut market, SwapType::Buy, SwapAmountType::ExactOutput, 1_000_000_000, 0, None);
    assert_eq!(result.err(), Some(TokenMillError::AmountThresholdNotMet));

    let result = process_swap(&mut market, SwapType::Sell, SwapAmountType::ExactOutput, 1_000, 0, None);
    assert_eq!(result.err(), Some(TokenMillError::AmountThresholdNotMet));
}

#[test]
fn swap_with_invalid_amount_out() {
    let mut market = setup_market();

    let result = process_swap(&mut market, SwapType::Buy, SwapAmountType::ExactInput, 1_000_000_000, 0, None);
    assert!(result.is_ok());

    let reserve = market.base_reserve;
    let result = process_swap(&mut market, SwapType::Buy, SwapAmountType::ExactInput, 1_000_000_000, u64::MAX, None);
    assert_eq!(result.err(), Some(TokenMillError::AmountThresholdNotMet));
    assert_eq!(market.base_reserve, reserve);

    let result = process_swap(&mut market, SwapType::Sell, SwapAmountType::ExactInput, 1_000, u64::MAX, None);
    assert_eq!(result.err(), Some(TokenMillError::AmountThresholdNotMet));
}

#[test]
fn swap_with_invalid_amount() {
    let mut market = setup_market();

    let result = process_swap(&mut market, SwapType::Buy, SwapAmountType::ExactInput, 0, 0, None);

    assert_eq!(result.err(), Some(TokenMillError::InvalidAmount));
}

#[test]
fn swap_more_than_total_supply_with_exact_output() {
    let mut market = setup_market();

    let result = process_swap(
        &mut market,
        SwapType::Buy,
        SwapAmountType::ExactOutput,
        TOTAL_SUPPLY + 100_000_000,
        u64::MAX,
        None,
    );

    assert!(result.is_ok());
    assert_eq!(result.unwrap().base_amount, TOTAL_SUPPLY);
    assert_eq!(market.base_reserve, 0);
}

#[test]
fn swap_more_than_total_supply_with_exact_input() {
    let mut market = setup_market();

    let (_, amount_to_buy_supply) =
        market.get_quote_amount(TOTAL_SUPPLY, SwapAmountType::ExactOutput).unwrap();
    assert_eq!(amount_to_buy_supply, 5_000_000_000_000);

    let result = process_swap(
        &mut market,
        SwapType::Buy,
        SwapAmountType::ExactInput,
        amount_to_buy_supply + 100_000_000,
        0,
        None,
    );

    assert!(result.is_ok());
    let receipt = result.unwrap();
    assert_eq!(receipt.base_amount, TOTAL_SUPPLY);
    assert_eq!(receipt.quote_amount, amount_to_buy_supply);
}

#[test]
fn sell_more_than_available() {
    let mut market = setup_market();

    let receipt = process_swap(&mut market, SwapType::Buy, SwapAmountType::ExactOutput, 1_000_000_000, u64::MAX, None)
        .unwrap();
    let market_quote_balance = receipt.quote_amount - receipt.protocol_fee - receipt.referral_fee;

    let result = process_swap(
        &mut market,
        SwapType::Sell,
        SwapAmountType::ExactOutput,
        market_quote_balance + 100,
        u64::MAX,
        None,
    );

    assert!(result.is_ok());
    let receipt = result.unwrap();
    assert_eq!(receipt.base_amount, 1_000_000_000);
    assert_eq!(receipt.quote_amount, 4_500_000);
    assert_eq!(market.circulating_supply(), 0);
}

#[test]
fn swap_with_referral() {
    let mut market = setup_market();

    let receipt = process_swap(
        &mut market,
        SwapType::Buy,
        SwapAmountType::ExactOutput,
        1_000_000_000,
        u64::MAX,
        Some(5_000),
    )
    .unwrap();

    assert_eq!(receipt.swap_fee, 500_000);
    assert_eq!(receipt.creator_fee, 100_000);
    assert_eq!(receipt.staking_fee, 350_000);
    assert_eq!(receipt.protocol_fee, 25_000);
    assert_eq!(receipt.referral_fee, 25_000);
    assert_eq!(market.fees.pending_creator_fees, 100_000);
    assert_eq!(market.fees.pending_staking_fees, 350_000);
}

#[test]
fn sell_more_than_circulating_with_exact_input() {
    let mut market = setup_market();
    let result = swap(&mut market, SwapType::Sell, SwapAmountType::ExactInput, 1);
    assert_eq!(result, Err(TokenMillError::MathError));
    assert_eq!(market.base_reserve, TOTAL_SUPPLY);
}

#[test]
fn fees() {
    let mut market = setup_market();
    let scenarios = [
        (SwapType::Buy, SwapAmountType::ExactOutput, 500_000_000u64),
        (SwapType::Sell, SwapAmountType::ExactInput, 20_000_000),
        (SwapType::Sell, SwapAmountType::ExactInput, 300_000_000),
        (SwapType::Buy, SwapAmountType::ExactOutput, 833_333_333),
    ];

    for _ in 0..2 {
        let mut creator_fees = 0;
        for (swap_type, swap_amount_type, amount) in scenarios {
            let receipt =
                process_swap(&mut market, swap_type, swap_amount_type, amount, loose_threshold(swap_amount_type), Some(2_000))
                    .unwrap();
            assert_eq!(
                receipt.creator_fee + receipt.staking_fee + receipt.protocol_fee + receipt.referral_fee,
                receipt.swap_fee
            );
            if swap_type == SwapType::Sell {
                assert_eq!(receipt.swap_fee, 0);
            }
            creator_fees += receipt.creator_fee;
        }
        assert!(creator_fees > 0);
        assert_eq!(market.fees.claim_creator_fees(), creator_fees);
    }
}

#[test]
fn quote_precision_overflow_is_math_error() {
    let mut market = Market::initialize(40, TOTAL_SUPPLY, 2_000, 7_000, 1_000).unwrap();
    let curve = Curve::default();
    market.check_and_set_prices(curve.bid_prices, curve.ask_prices).unwrap();

    assert_eq!(market.get_base_amount_out(1_000), Err(TokenMillError::MathError));
    assert_eq!(market.get_base_amount_in(1_000), Err(TokenMillError::MathError));
    assert_eq!(
        market.get_quote_amount(1_000_000, SwapAmountType::ExactOutput),
        Err(TokenMillError::MathError)
    );
}

#[test]
fn quote_with_six_decimals() {
    let mut market = Market::initialize(6, TOTAL_SUPPLY, 2_000, 7_000, 1_000).unwrap();
    let curve = Curve::default();
    market.check_and_set_prices(curve.bid_prices, curve.ask_prices).unwrap();

    assert_eq!(market.get_quote_amount(500_000_000, SwapAmountType::ExactOutput), Ok((500_000_000, 1_250)));
}

#[test]
fn exact_input_buy_then_sell_round_trip() {
    let mut market = setup_market();
    swap(&mut market, SwapType::Buy, SwapAmountType::ExactOutput, 2_000_000_000).unwrap();

    let (bought, paid, fee) = swap(&mut market, SwapType::Buy, SwapAmountType::ExactInput, 1_000_000_000).unwrap();
    let (sold, received, sell_fee) = swap(&mut market, SwapType::Sell, SwapAmountType::ExactInput, bought).unwrap();

    assert_eq!(sold, bought);
    assert_eq!(sell_fee, 0);
    assert!(received + fee <= paid);
    assert_eq!(market.base_reserve, TOTAL_SUPPLY - 2_000_000_000);
}
