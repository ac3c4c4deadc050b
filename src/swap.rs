use vstd::prelude::*;

use crate::constant::MAX_BPS;
use crate::errors::TokenMillError;
use crate::market::{fee_split, lemma_fee_split_exact, Market, MarketFees};
use crate::math::Rounding;

verus! {

/// Direction of a swap, seen from the base token.
#[derive(Debug, Clone, Copy, PartialEq, Eq, Structural)]
pub enum SwapType {
    /// Buy base tokens with quote tokens.
    Buy,
    /// Sell base tokens for quote tokens.
    Sell,
}

/// Which side of a swap the caller fixes.
#[derive(Debug, Clone, Copy, PartialEq, Eq, Structural)]
pub enum SwapAmountType {
    /// The amount given is what goes in.
    ExactInput,
    /// The amount given is what comes out.
    ExactOutput,
}

/// The base and quote amounts of a swap on `m`, before any fee: exact-input buys and
/// exact-output sells solve for base along the asks or bids; exact-output buys and
/// exact-input sells price the base along the curve. Selling more than circulates fails.
pub open spec fn swap_amounts(m: Market, swap_type: SwapType, swap_amount_type: SwapAmountType, amount: int) -> Result<
    (u64, u64),
    TokenMillError,
> {
    match (swap_type, swap_amount_type) {
        (SwapType::Buy, SwapAmountType::ExactInput) => m.base_out_result(amount),
        (SwapType::Buy, SwapAmountType::ExactOutput) => m.quote_result(
            m.circulating(),
            amount,
            SwapAmountType::ExactOutput,
            Rounding::Up,
        ),
        (SwapType::Sell, SwapAmountType::ExactInput) => if amount > m.circulating() {
            Err(TokenMillError::MathError)
        } else {
            m.quote_result(m.circulating() - amount, amount, SwapAmountType::ExactInput, Rounding::Down)
        },
        (SwapType::Sell, SwapAmountType::ExactOutput) => m.base_in_result(amount),
    }
}

/// The spread-derived fee of a buy of `base_amount` for `quote_amount`: what the quote
/// exceeds selling the same base straight back along the bids (rounded up), or zero.
pub open spec fn buy_fee(m: Market, base_amount: int, quote_amount: int) -> Result<u64, TokenMillError> {
    match m.quote_result(m.circulating(), base_amount, SwapAmountType::ExactInput, Rounding::Up) {
        Err(e) => Err(e),
        Ok((_, buyback_amount)) => Ok(
            if quote_amount > buyback_amount {
                (quote_amount - buyback_amount) as u64
            } else {
                0
            },
        ),
    }
}

/// What a swap gives: `(base_amount, quote_amount, swap_fee)`; only buys carry a fee.
#[verifier::opaque]
pub open spec fn swap_outcome(m: Market, swap_type: SwapType, swap_amount_type: SwapAmountType, amount: int) -> Result<
    (u64, u64, u64),
    TokenMillError,
> {
    match swap_amounts(m, swap_type, swap_amount_type, amount) {
        Err(e) => Err(e),
        Ok((base_amount, quote_amount)) => match swap_type {
            SwapType::Buy => match buy_fee(m, base_amount as int, quote_amount as int) {
                Err(e) => Err(e),
                Ok(fee) => Ok((base_amount, quote_amount, fee)),
            },
            SwapType::Sell => Ok((base_amount, quote_amount, 0)),
        },
    }
}

/// The reserve after a swap of `base_amount`: a buy takes it out, a sell puts it back.
pub open spec fn reserve_after(m: Market, swap_type: SwapType, base_amount: int) -> int {
    match swap_type {
        SwapType::Buy => m.base_reserve - base_amount,
        SwapType::Sell => m.base_reserve + base_amount,
    }
}

/// Prices a swap on `market` without changing it: `(base_amount, quote_amount, swap_fee)`.
pub fn quote_swap(market: &Market, swap_type: SwapType, swap_amount_type: SwapAmountType, amount: u64) -> (r: Result<
    (u64, u64, u64),
    TokenMillError,
>)
    requires
        market.wf(),
    ensures
        r == swap_outcome(*market, swap_type, swap_amount_type, amount as int),
        r matches Ok((b, q, f)) ==> 0 <= reserve_after(*market, swap_type, b as int) <= market.total_supply,
        r matches Ok((b, q, f)) ==> f <= q,
{
    reveal(swap_outcome);
    let (base_amount, quote_amount) = match (swap_type, swap_amount_type) {
        (SwapType::Buy, SwapAmountType::ExactInput) => market.get_base_amount_out(amount)?,
        (SwapType::Buy, SwapAmountType::ExactOutput) => market.get_quote_amount(amount, swap_amount_type)?,
        (SwapType::Sell, SwapAmountType::ExactInput) => {
            if amount > market.circulating_supply() {
                return Err(TokenMillError::MathError);
            }
            market.get_quote_amount(amount, swap_amount_type)?
        },
        (SwapType::Sell, SwapAmountType::ExactOutput) => market.get_base_amount_in(amount)?,
    };
    let mut swap_fee: u64 = 0;
    match swap_type {
        SwapType::Buy => {
            let (_, buyback_amount) = market.get_quote_amount_with_parameters(
                market.circulating_supply(),
                base_amount,
                SwapAmountType::ExactInput,
                Rounding::Up,
            )?;
            if quote_amount > buyback_amount {
                swap_fee = quote_amount - buyback_amount;
            }
        },
        SwapType::Sell => {},
    }
    Ok((base_amount, quote_amount, swap_fee))
}

/// Performs a swap on `market`: prices it as `quote_swap` does and moves the base amount
/// out of the reserve (buy) or into it (sell). Fails, changing nothing, when pricing fails.
pub fn swap(market: &mut Market, swap_type: SwapType, swap_amount_type: SwapAmountType, amount: u64) -> (r: Result<
    (u64, u64, u64),
    TokenMillError,
>)
    requires
        old(market).wf(),
    ensures
        r == swap_outcome(*old(market), swap_type, swap_amount_type, amount as int),
        r matches Ok((b, q, f)) ==> *final(market) == (Market {
            base_reserve: reserve_after(*old(market), swap_type, b as int) as u64,
            ..*old(market)
        }),
        r is Err ==> *final(market) == *old(market),
        final(market).wf(),
        final(market).base_reserve + final(market).circulating() == final(market).total_supply,
{
    let (base_amount, quote_amount, swap_fee) = quote_swap(market, swap_type, swap_amount_type, amount)?;
    match swap_type {
        SwapType::Buy => {
            market.base_reserve = market.base_reserve - base_amount;
        },
        SwapType::Sell => {
            market.base_reserve = market.base_reserve + base_amount;
        },
    }
    Ok((base_amount, quote_amount, swap_fee))
}

/// Buying base and at once selling back all that was bought takes back exactly that base, with
/// no fee, and the sale plus the buy's fee never exceeds what the buy cost: the market never
/// loses quote on a round trip.
pub proof fn lemma_buy_then_sell_never_profits(m: Market, swap_amount_type: SwapAmountType, amount: int)
    requires
        m.wf(),
        0 <= amount <= u64::MAX,
    ensures
        swap_outcome(m, SwapType::Buy, swap_amount_type, amount) matches Ok((b, q, f)) ==> {
            let after = Market { base_reserve: (m.base_reserve - b) as u64, ..m };
            &&& after.wf()
            &&& swap_outcome(after, SwapType::Sell, SwapAmountType::ExactInput, b as int) matches Ok((b2, q2, f2))
            &&& b2 == b
            &&& f2 == 0
            &&& q2 + f <= q
        },
{
    reveal(swap_outcome);
    let circ = m.circulating();
    if let Ok((b, q, f)) = swap_outcome(m, SwapType::Buy, swap_amount_type, amount) {
        if swap_amount_type == SwapAmountType::ExactOutput {
            m.lemma_quote_result_bounds(circ, amount, SwapAmountType::ExactOutput, Rounding::Up);
            m.lemma_sell_quote_below_buy_quote(circ, b as int, amount);
        } else {
            m.lemma_base_out_result_bounds(amount);
            m.lemma_buy_charges_ask_value(amount);
            m.lemma_sell_quote_below_buy_quote(circ, b as int, b as int);
        }
        assert(b <= m.base_reserve);
        let after = Market { base_reserve: (m.base_reserve - b) as u64, ..m };
        assert(after.wf());
        assert(after.circulating() - b == circ);
        m.lemma_sell_back_whole(circ, b as int);
        assert(after.quote_result(circ, b as int, SwapAmountType::ExactInput, Rounding::Down) == m.quote_result(
            circ,
            b as int,
            SwapAmountType::ExactInput,
            Rounding::Down,
        ));
    }
}

/// A market's reserve and circulating supply always add up to its total supply; every swap
/// keeps the market well formed, so this holds after any sequence of swaps.
pub proof fn lemma_supply_conserved(m: Market)
    requires
        m.wf(),
    ensures
        m.base_reserve + m.circulating() == m.total_supply,
{
}

/// Everything a completed swap moved: the amounts traded and how its fee split.
#[derive(Debug, Clone, Copy, PartialEq, Eq, Structural)]
pub struct SwapReceipt {
    pub base_amount: u64,
    pub quote_amount: u64,
    pub swap_fee: u64,
    pub creator_fee: u64,
    pub staking_fee: u64,
    pub protocol_fee: u64,
    pub referral_fee: u64,
}

/// The amount that goes in and the one that comes out of a swap, from the trader's side.
pub open spec fn in_out(swap_type: SwapType, base_amount: int, quote_amount: int) -> (int, int) {
    match swap_type {
        SwapType::Buy => (quote_amount, base_amount),
        SwapType::Sell => (base_amount, quote_amount),
    }
}

/// The trade misses the caller's threshold: less out than asked for an exact input, more in
/// than allowed for an exact output.
pub open spec fn misses_threshold(
    swap_type: SwapType,
    swap_amount_type: SwapAmountType,
    base_amount: int,
    quote_amount: int,
    other_amount_threshold: int,
) -> bool {
    let (amount_in, amount_out) = in_out(swap_type, base_amount, quote_amount);
    match swap_amount_type {
        SwapAmountType::ExactInput => amount_out < other_amount_threshold,
        SwapAmountType::ExactOutput => amount_in > other_amount_threshold,
    }
}

/// A whole swap: refuses a zero amount, prices the trade, holds it to the caller's slippage
/// threshold, splits its fee (with a referral part when a referral share is given) into the
/// market's pending counters and moves the reserve. Every check comes before any change, so
/// a failure changes nothing.
pub fn process_swap(
    market: &mut Market,
    swap_type: SwapType,
    swap_amount_type: SwapAmountType,
    amount: u64,
    other_amount_threshold: u64,
    referral_fee_share: Option<u16>,
) -> (r: Result<SwapReceipt, TokenMillError>)
    requires
        old(market).wf(),
        referral_fee_share matches Some(s) ==> s <= MAX_BPS,
    ensures
        amount == 0 ==> r == Err::<SwapReceipt, TokenMillError>(TokenMillError::InvalidAmount),
        amount != 0 && swap_outcome(*old(market), swap_type, swap_amount_type, amount as int) is Err
            ==> r == Err::<SwapReceipt, TokenMillError>(
            swap_outcome(*old(market), swap_type, swap_amount_type, amount as int)->Err_0,
        ),
        amount != 0 && (swap_outcome(*old(market), swap_type, swap_amount_type, amount as int) matches Ok((b, q, f))
            && misses_threshold(swap_type, swap_amount_type, b as int, q as int, other_amount_threshold as int))
            ==> r == Err::<SwapReceipt, TokenMillError>(TokenMillError::AmountThresholdNotMet),
        swap_outcome(*old(market), swap_type, swap_amount_type, amount as int) matches Ok((b, q, f))
            ==> (amount != 0 && !misses_threshold(
            swap_type,
            swap_amount_type,
            b as int,
            q as int,
            other_amount_threshold as int,
        ) ==> {
            let (c, s, p, x) = fee_split(
                f as int,
                old(market).fees.creator_fee_share as int,
                old(market).fees.staking_fee_share as int,
                referral_fee_share,
            );
            let fits = old(market).fees.pending_creator_fees + c <= u64::MAX
                && old(market).fees.pending_staking_fees + s <= u64::MAX;
            &&& fits ==> r is Ok
            &&& !fits ==> r == Err::<SwapReceipt, TokenMillError>(TokenMillError::MathError)
        }),
        r matches Ok(receipt) ==> {
            let (c, s, p, f) = fee_split(
                receipt.swap_fee as int,
                old(market).fees.creator_fee_share as int,
                old(market).fees.staking_fee_share as int,
                referral_fee_share,
            );
            &&& amount != 0
            &&& swap_outcome(*old(market), swap_type, swap_amount_type, amount as int) == Ok::<
                (u64, u64, u64),
                TokenMillError,
            >((receipt.base_amount, receipt.quote_amount, receipt.swap_fee))
            &&& !misses_threshold(
                swap_type,
                swap_amount_type,
                receipt.base_amount as int,
                receipt.quote_amount as int,
                other_amount_threshold as int,
            )
            &&& receipt.creator_fee == c && receipt.staking_fee == s
            &&& receipt.protocol_fee == p && receipt.referral_fee == f
            &&& receipt.creator_fee + receipt.staking_fee + receipt.protocol_fee + receipt.referral_fee
                == receipt.swap_fee
            &&& *final(market) == (Market {
                base_reserve: reserve_after(*old(market), swap_type, receipt.base_amount as int) as u64,
                fees: MarketFees {
                    pending_creator_fees: (old(market).fees.pending_creator_fees + c) as u64,
                    pending_staking_fees: (old(market).fees.pending_staking_fees + s) as u64,
                    ..old(market).fees
                },
                ..*old(market)
            })
        },
        r is Err ==> *final(market) == *old(market),
        final(market).wf(),
{
    if amount == 0 {
        return Err(TokenMillError::InvalidAmount);
    }
    let (base_amount, quote_amount, swap_fee) = quote_swap(market, swap_type, swap_amount_type, amount)?;
    let (amount_in, amount_out) = match swap_type {
        SwapType::Buy => (quote_amount, base_amount),
        SwapType::Sell => (base_amount, quote_amount),
    };
    match swap_amount_type {
        SwapAmountType::ExactInput => {
            if amount_out < other_amount_threshold {
                return Err(TokenMillError::AmountThresholdNotMet);
            }
        },
        SwapAmountType::ExactOutput => {
            if amount_in > other_amount_threshold {
                return Err(TokenMillError::AmountThresholdNotMet);
            }
        },
    }
    let (creator_fee, staking_fee, protocol_fee, referral_fee) = market.fees.distribute_fee(
        swap_fee,
        referral_fee_share,
    )?;
    match swap_type {
        SwapType::Buy => {
            market.base_reserve = market.base_reserve - base_amount;
        },
        SwapType::Sell => {
            market.base_reserve = market.base_reserve + base_amount;
        },
    }
    proof {
        lemma_fee_split_exact(
            swap_fee as int,
            old(market).fees.creator_fee_share as int,
            old(market).fees.staking_fee_share as int,
            referral_fee_share,
        );
        assert(market.base_reserve == reserve_after(*old(market), swap_type, base_amount as int));
        assert(!misses_threshold(swap_type, swap_amount_type, base_amount as int, quote_amount as int, other_amount_threshold as int));
    }
    Ok(SwapReceipt {
        base_amount,
        quote_amount,
        swap_fee,
        creator_fee,
        staking_fee,
        protocol_fee,
        referral_fee,
    })
}

} // verus!
