use token_mill::constant::PRICES_LENGTH;
use token_mill::curve::Curve;

#[test]
fn default_curve() {
    let curve = Curve::default();
    for i in 0..PRICES_LENGTH {
        assert_eq!(curve.bid_prices[i], i as u64 * 900_000);
        assert_eq!(curve.ask_prices[i], i as u64 * 1_000_000);
    }
}

#[test]
fn to_evm() {
    let curve = Curve::default();
    let (bids, asks) = curve.to_evm();
    assert_eq!(bids.len(), PRICES_LENGTH);
    assert_eq!(asks.len(), PRICES_LENGTH);
    assert_eq!(bids[1], 900_000_000_000_000);
    assert_eq!(asks[10], 10_000_000_000_000_000);
    assert_eq!(bids[0], 0);
}
