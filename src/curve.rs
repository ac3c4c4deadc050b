use vstd::prelude::*;

use crate::constant::{PRICES_LENGTH, SCALE};
use crate::market::valid_curve;

verus! {

/// The fixed-point scale of prices on the 18-decimal convention.
pub const SCALE_EVM: u128 = 1_000_000_000_000_000_000;

/// A pair of bid and ask price curves.
#[derive(Debug, Clone, Copy)]
pub struct Curve {
    pub bid_prices: [u64; PRICES_LENGTH],
    pub ask_prices: [u64; PRICES_LENGTH],
}

/// The default ask price at breakpoint `i`: `i / 1000` quote per base.
pub open spec fn default_ask(i: int) -> int {
    i * SCALE as int / 1_000
}

/// The default bid price at breakpoint `i`: nine tenths of the ask.
pub open spec fn default_bid(i: int) -> int {
    i * SCALE as int * 9 / 10_000
}

/// A price rescaled from `SCALE` to `SCALE_EVM`.
pub open spec fn to_evm_price(p: int) -> int {
    p * SCALE_EVM as int / SCALE as int
}

proof fn lemma_default_prices(i: int)
    requires
        0 <= i,
    ensures
        default_bid(i) == i * 900_000,
        default_ask(i) == i * 1_000_000,
{
    vstd::arithmetic::div_mod::lemma_div_multiples_vanish(i * 900_000, 10_000);
    vstd::arithmetic::div_mod::lemma_div_multiples_vanish(i * 1_000_000, 1_000);
    assert(i * SCALE as int * 9 == 10_000 * (i * 900_000));
    assert(i * SCALE as int == 1_000 * (i * 1_000_000));
}

impl Default for Curve {
    /// Linear curves through zero, the bid at nine tenths of the ask.
    fn default() -> (r: Curve)
        ensures
            forall|i: int| 0 <= i < PRICES_LENGTH ==> #[trigger] r.bid_prices@[i] == default_bid(i)
                && r.ask_prices@[i] == default_ask(i),
            valid_curve(r.bid_prices@, r.ask_prices@),
    {
        let mut bid_prices = [0u64; PRICES_LENGTH];
        let mut ask_prices = [0u64; PRICES_LENGTH];
        let mut i: usize = 0;
        while i < PRICES_LENGTH
            invariant
                0 <= i <= PRICES_LENGTH,
                bid_prices@.len() == PRICES_LENGTH,
                ask_prices@.len() == PRICES_LENGTH,
                forall|j: int| 0 <= j < i ==> #[trigger] bid_prices@[j] == default_bid(j),
                forall|j: int| 0 <= j < i ==> #[trigger] ask_prices@[j] == default_ask(j),
            decreases PRICES_LENGTH - i,
        {
            proof {
                lemma_default_prices(i as int);
                assert(SCALE as u64 == 1_000_000_000);
            }
            bid_prices[i] = i as u64 * SCALE as u64 * 9 / 10_000;
            ask_prices[i] = i as u64 * SCALE as u64 / 1_000;
            i += 1;
        }
        let r = Curve { bid_prices, ask_prices };
        assert forall|j: int| 0 < j < PRICES_LENGTH implies r.bid_prices@[j - 1] < #[trigger] r.bid_prices@[j] by {
            assert(r.bid_prices@[j - 1] == default_bid(j - 1));
            lemma_default_prices(j);
            lemma_default_prices(j - 1);
        }
        assert forall|j: int| 0 < j < PRICES_LENGTH implies r.ask_prices@[j - 1] < #[trigger] r.ask_prices@[j] by {
            assert(r.ask_prices@[j - 1] == default_ask(j - 1));
            lemma_default_prices(j);
            lemma_default_prices(j - 1);
        }
        assert forall|j: int| 0 <= j < PRICES_LENGTH implies #[trigger] r.bid_prices@[j] <= r.ask_prices@[j] by {
            lemma_default_prices(j);
        }
        proof {
            lemma_default_prices(PRICES_LENGTH - 1);
        }
        r
    }
}

impl Curve {
    /// Both curves rescaled to `SCALE_EVM`, rounding down.
    pub fn to_evm(&self) -> (r: (Vec<u128>, Vec<u128>))
        ensures
            r.0@.len() == PRICES_LENGTH,
            r.1@.len() == PRICES_LENGTH,
            forall|i: int| 0 <= i < PRICES_LENGTH ==> #[trigger] r.0@[i] == to_evm_price(self.bid_prices@[i] as int)
                && r.1@[i] == to_evm_price(self.ask_prices@[i] as int),
    {
        let mut bids: Vec<u128> = Vec::new();
        let mut asks: Vec<u128> = Vec::new();
        let mut i: usize = 0;
        while i < PRICES_LENGTH
            invariant
                0 <= i <= PRICES_LENGTH,
                bids@.len() == i,
                asks@.len() == i,
                forall|j: int| 0 <= j < i ==> #[trigger] bids@[j] == to_evm_price(self.bid_prices@[j] as int)
                    && asks@[j] == to_evm_price(self.ask_prices@[j] as int),
            decreases PRICES_LENGTH - i,
        {
            bids.push(self.bid_prices[i] as u128 * SCALE_EVM / SCALE);
            asks.push(self.ask_prices[i] as u128 * SCALE_EVM / SCALE);
            i += 1;
        }
        (bids, asks)
    }
}

} // verus!
