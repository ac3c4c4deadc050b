use token_mill::config::TokenMillConfig;
use token_mill::constant::{INTERVAL_NUMBER, MAX_BPS, MAX_PRICE, MAX_TOTAL_SUPPLY};
use token_mill::curve::Curve;
use token_mill::errors::TokenMillError;
use token_mill::market::Market;

const DEFAULT_TOTAL_SUPPLY: u64 = 1_000_000_000_000;
const CREATOR_FEE_SHARE: u16 = 2_000;
const STAKING_FEE_SHARE: u16 = 7_000;
const PROTOCOL_FEE_SHARE: u16 = 1_000;

fn new_market() -> Market {
    Market::initialize(9, DEFAULT_TOTAL_SUPPLY, CREATOR_FEE_SHARE, STAKING_FEE_SHARE, PROTOCOL_FEE_SHARE)
        .unwrap()
}

#[test]
fn create_market() {
    let market = new_market();
    assert_eq!(market.total_supply, DEFAULT_TOTAL_SUPPLY);
    assert_eq!(market.base_reserve, DEFAULT_TOTAL_SUPPLY);
    assert_eq!(market.width_scaled, 100_000_000_000_000);
    assert_eq!(market.circulating_supply(), 0);
    assert!(!market.are_prices_set());
}

#[test]
fn create_market_with_invalid_total_supply() {
    for total_supply in [
        10 * INTERVAL_NUMBER,
        MAX_TOTAL_SUPPLY + INTERVAL_NUMBER,
        DEFAULT_TOTAL_SUPPLY + 1,
    ] {
        let result =
            Market::initialize(9, total_supply, CREATOR_FEE_SHARE, STAKING_FEE_SHARE, PROTOCOL_FEE_SHARE);
        assert_eq!(result.err(), Some(TokenMillError::InvalidTotalSupply));
    }
    assert!(Market::initialize(9, MAX_TOTAL_SUPPLY, 0, 0, MAX_BPS).is_ok());
}

#[test]
fn create_market_with_invalid_fee_shares() {
    let result = Market::initialize(9, DEFAULT_TOTAL_SUPPLY, CREATOR_FEE_SHARE, STAKING_FEE_SHARE, 1_001);
    assert_eq!(result.err(), Some(TokenMillError::InvalidFeeShare));
}

#[test]
fn set_market_prices() {
    let mut market = new_market();
    let curve = Curve::default();

    let result = market.check_and_set_prices(curve.bid_prices, curve.ask_prices);

    assert!(result.is_ok());
    assert!(market.are_prices_set());
    assert_eq!(market.bid_prices[2], curve.bid_prices[2]);
    assert_eq!(market.ask_prices[2], curve.ask_prices[2]);
}

#[test]
fn set_market_prices_twice() {
    let mut market = new_market();
    let curve = Curve::default();

    let result = market.check_and_set_prices(curve.bid_prices, curve.ask_prices);
    assert!(result.is_ok());

    let result = market.check_and_set_prices(curve.bid_prices, curve.ask_prices);
    assert!(result.is_err());
    assert_eq!(result.err(), Some(TokenMillError::PricesAlreadySet));
}

#[test]
fn set_market_prices_with_bid_ask_mismatch() {
    let mut market = new_market();
    let mut curve = Curve::default();

    curve.bid_prices[2] = curve.ask_prices[2] + 1;

    let result = market.check_and_set_prices(curve.bid_prices, curve.ask_prices);
    assert!(result.is_err());
    assert_eq!(result.err(), Some(TokenMillError::BidAskMismatch));
    assert!(!market.are_prices_set());
}

#[test]
fn set_market_prices_with_decreasing_bid_prices() {
    let mut market = new_market();
    let mut curve = Curve::default();

    curve.bid_prices[2] = curve.bid_prices[3] + 1;
    curve.ask_prices[2] = curve.bid_prices[2];

    let result = market.check_and_set_prices(curve.bid_prices, curve.ask_prices);
    assert!(result.is_err());
    assert_eq!(result.err(), Some(TokenMillError::DecreasingPrices));
}

#[test]
fn set_market_prices_with_decreasing_ask_prices() {
    let mut market = new_market();
    let mut curve = Curve::default();

    curve.ask_prices[2] = curve.ask_prices[3] + 1;

    let result = market.check_and_set_prices(curve.bid_prices, curve.ask_prices);
    assert!(result.is_err());
    assert_eq!(result.err(), Some(TokenMillError::DecreasingPrices));
}

#[test]
fn set_market_prices_with_price_too_high() {
    let mut market = new_market();
    let mut curve = Curve::default();

    curve.ask_prices[INTERVAL_NUMBER as usize] = MAX_PRICE + 1;

    let result = market.check_and_set_prices(curve.bid_prices, curve.ask_prices);
    assert!(result.is_err());
    assert_eq!(result.err(), Some(TokenMillError::PriceTooHigh));
}

#[test]
fn update_market_fee_shares() {
    let mut market = new_market();

    let result = market.fees.update_fee_shares(3_000, 6_000);

    assert!(result.is_ok());
    assert_eq!(market.fees.creator_fee_share, 3_000);
    assert_eq!(market.fees.staking_fee_share, 6_000);
}

#[test]
fn update_market_fee_shares_with_invalid_distribution() {
    let mut market = new_market();

    let result = market.fees.update_fee_shares(3_000, 6_001);

    assert!(result.is_err());
    assert_eq!(result.err(), Some(TokenMillError::InvalidFeeShare));
    assert_eq!(market.fees.creator_fee_share, CREATOR_FEE_SHARE);
    assert_eq!(market.fees.staking_fee_share, STAKING_FEE_SHARE);
}

#[test]
fn distribute_fee_split() {
    let mut market = new_market();

    let split = market.fees.distribute_fee(12_345, None).unwrap();
    assert_eq!(split, (2_469, 8_641, 1_235, 0));

    let split = market.fees.distribute_fee(12_345, Some(5_000)).unwrap();
    assert_eq!(split, (2_469, 8_641, 618, 617));
    assert_eq!(split.0 + split.1 + split.2 + split.3, 12_345);

    assert_eq!(market.fees.pending_creator_fees, 2 * 2_469);
    assert_eq!(market.fees.pending_staking_fees, 2 * 8_641);
    assert_eq!(market.fees.claim_creator_fees(), 2 * 2_469);
    assert_eq!(market.fees.pending_creator_fees, 0);
}

#[test]
fn distribute_fee_overflow() {
    let mut market = new_market();
    market.fees.pending_creator_fees = u64::MAX;

    let result = market.fees.distribute_fee(10_000, None);

    assert_eq!(result, Err(TokenMillError::MathError));
    assert_eq!(market.fees.pending_staking_fees, 0);
}

#[test]
fn create_config() {
    let config = TokenMillConfig::initialize(1_000, 2_000).unwrap();
    assert_eq!(config.default_protocol_fee_share, 1_000);
    assert_eq!(config.referral_fee_share, 2_000);
}

#[test]
fn create_config_with_invalid_protocol_fee_share() {
    let result = TokenMillConfig::initialize(MAX_BPS + 1, 2_000);
    assert!(result.is_err());
    assert_eq!(result.err(), Some(TokenMillError::InvalidFeeShare));
}

#[test]
fn update_default_fee_shares() {
    let mut config = TokenMillConfig::initialize(1_000, 2_000).unwrap();

    let result = config.update_default_fee_shares(5_000, 5_000);

    assert!(result.is_ok());
    assert_eq!(config.default_protocol_fee_share, 5_000);
    assert_eq!(config.referral_fee_share, 5_000);
}

#[test]
fn update_default_protocol_fee_share_with_invalid_value() {
    let mut config = TokenMillConfig::initialize(1_000, 2_000).unwrap();

    let result = config.update_default_fee_shares(MAX_BPS + 1, 5_000);

    assert!(result.is_err());
    assert_eq!(result.err(), Some(TokenMillError::InvalidFeeShare));
}

#[test]
fn update_default_referral_fee_share_with_invalid_value() {
    let mut config = TokenMillConfig::initialize(1_000, 2_000).unwrap();

    let result = config.update_default_fee_shares(5_000, MAX_BPS + 1);

    assert!(result.is_err());
    assert_eq!(result.err(), Some(TokenMillError::InvalidFeeShare));
}
