use vstd::prelude::*;

use crate::constant::{BASE_PRECISION, INTERVAL_NUMBER, MAX_BPS, MAX_PRICE, MAX_TOTAL_SUPPLY, PRICES_LENGTH, SCALE};
use crate::arith::{lemma_le_div, lemma_rounded_div_bounds, lemma_rounded_div_monotonic};
use crate::errors::TokenMillError;
use crate::math::{
    delta_base_in_spec, delta_base_out_spec, div, get_delta_base_in, get_delta_base_out, interval_ok, interval_quote, lemma_bound_values, lemma_trapezoid_bounds, max_interval_quote,
    max_width_scaled, mul_div, rounded_div, trapezoid, Rounding,
};
use crate::swap::SwapAmountType;

verus! {

/// Fee shares of a market and the fees it holds for its creator and its stakers.
#[derive(Debug, Clone, Copy)]
pub struct MarketFees {
    /// Basis points of each swap fee that go to stakers.
    pub staking_fee_share: u16,
    /// Basis points of each swap fee that go to the creator.
    pub creator_fee_share: u16,
    /// Staking fees not yet folded into the reward accumulator.
    pub pending_staking_fees: u64,
    /// Creator fees not yet claimed.
    pub pending_creator_fees: u64,
}

/// `amount * share / MAX_BPS`, rounded down.
pub open spec fn bps_of(amount: int, share: int) -> int {
    amount * share / MAX_BPS as int
}

/// How a swap fee splits: `(creator, staking, protocol, referral)`.
pub open spec fn fee_split(
    swap_fee: int,
    creator_fee_share: int,
    staking_fee_share: int,
    referral_fee_share: Option<u16>,
) -> (int, int, int, int) {
    let creator_fee = bps_of(swap_fee, creator_fee_share);
    let staking_fee = bps_of(swap_fee, staking_fee_share);
    let remaining_fee = swap_fee - creator_fee - staking_fee;
    let referral_fee = match referral_fee_share {
        Some(share) => bps_of(remaining_fee, share as int),
        None => 0,
    };
    (creator_fee, staking_fee, remaining_fee - referral_fee, referral_fee)
}

proof fn lemma_bps_bounds(amount: int, share: int)
    requires
        amount >= 0,
        0 <= share <= MAX_BPS,
    ensures
        0 <= bps_of(amount, share) <= amount,
        bps_of(amount, share) * (MAX_BPS as int) <= amount * share,
{
    assert(0 <= amount * share <= amount * (MAX_BPS as int)) by (nonlinear_arith)
        requires
            amount >= 0,
            0 <= share <= MAX_BPS,
    ;
    crate::arith::lemma_div_bounds(amount * share, MAX_BPS as int);
    crate::arith::lemma_le_div(0, amount * share, MAX_BPS as int);
    assert(bps_of(amount, share) <= amount) by (nonlinear_arith)
        requires
            (MAX_BPS as int) * bps_of(amount, share) <= amount * share,
            amount * share <= amount * (MAX_BPS as int),
            MAX_BPS > 0,
    {
        if bps_of(amount, share) > amount {
            assert((MAX_BPS as int) * bps_of(amount, share) > (MAX_BPS as int) * amount);
        }
    }
}

/// The four parts of a split fee are non-negative and add up to the fee.
pub proof fn lemma_fee_split_exact(
    swap_fee: int,
    creator_fee_share: int,
    staking_fee_share: int,
    referral_fee_share: Option<u16>,
)
    requires
        swap_fee >= 0,
        0 <= creator_fee_share,
        0 <= staking_fee_share,
        creator_fee_share + staking_fee_share <= MAX_BPS,
        referral_fee_share matches Some(s) ==> s <= MAX_BPS,
    ensures
        ({
            let (c, s, p, r) = fee_split(swap_fee, creator_fee_share, staking_fee_share, referral_fee_share);
            &&& c + s + p + r == swap_fee
            &&& 0 <= c && 0 <= s && 0 <= p && 0 <= r
        }),
{
    lemma_bps_bounds(swap_fee, creator_fee_share);
    lemma_bps_bounds(swap_fee, staking_fee_share);
    let c = bps_of(swap_fee, creator_fee_share);
    let s = bps_of(swap_fee, staking_fee_share);
    assert(c + s <= swap_fee) by (nonlinear_arith)
        requires
            c * (MAX_BPS as int) <= swap_fee * creator_fee_share,
            s * (MAX_BPS as int) <= swap_fee * staking_fee_share,
            creator_fee_share + staking_fee_share <= MAX_BPS,
            swap_fee >= 0,
            MAX_BPS > 0,
    {
        assert((c + s) * (MAX_BPS as int) <= swap_fee * (creator_fee_share + staking_fee_share));
        assert(swap_fee * (creator_fee_share + staking_fee_share) <= swap_fee * (MAX_BPS as int));
    }
    match referral_fee_share {
        Some(share) => {
            lemma_bps_bounds(swap_fee - c - s, share as int);
        },
        None => {},
    }
}

impl MarketFees {
    /// The creator and staking shares leave a non-negative protocol share.
    pub open spec fn wf(self) -> bool {
        self.creator_fee_share + self.staking_fee_share <= MAX_BPS
    }

    /// The protocol's share: what the creator and staking shares leave of 100%.
    pub open spec fn protocol_fee_share(self) -> int {
        MAX_BPS - self.creator_fee_share - self.staking_fee_share
    }

    /// Splits `swap_fee` into creator, staking, protocol and referral parts, and adds the
    /// creator and staking parts to the pending counters. Fails, changing nothing, when a
    /// counter would overflow.
    pub fn distribute_fee(&mut self, swap_fee: u64, referral_fee_share: Option<u16>) -> (r: Result<
        (u64, u64, u64, u64),
        TokenMillError,
    >)
        requires
            old(self).wf(),
            referral_fee_share matches Some(s) ==> s <= MAX_BPS,
        ensures
            ({
                let (c, s, p, f) = fee_split(
                    swap_fee as int,
                    old(self).creator_fee_share as int,
                    old(self).staking_fee_share as int,
                    referral_fee_share,
                );
                let fits = old(self).pending_creator_fees + c <= u64::MAX
                    && old(self).pending_staking_fees + s <= u64::MAX;
                &&& fits ==> r == Ok::<(u64, u64, u64, u64), TokenMillError>(
                    (c as u64, s as u64, p as u64, f as u64),
                )
                &&& fits ==> *final(self) == (MarketFees {
                    pending_creator_fees: (old(self).pending_creator_fees + c) as u64,
                    pending_staking_fees: (old(self).pending_staking_fees + s) as u64,
                    ..*old(self)
                })
                &&& !fits ==> r == Err::<(u64, u64, u64, u64), TokenMillError>(
                    TokenMillError::MathError,
                ) && *final(self) == *old(self)
            }),
            r matches Ok((c, s, p, f)) ==> c + s + p + f == swap_fee,
    {
        proof {
            lemma_fee_split_exact(
                swap_fee as int,
                self.creator_fee_share as int,
                self.staking_fee_share as int,
                referral_fee_share,
            );
            lemma_bps_bounds(swap_fee as int, self.creator_fee_share as int);
            lemma_bps_bounds(swap_fee as int, self.staking_fee_share as int);
        }
        let creator_fee = (swap_fee as u128 * self.creator_fee_share as u128 / MAX_BPS as u128) as u64;
        let staking_fee = (swap_fee as u128 * self.staking_fee_share as u128 / MAX_BPS as u128) as u64;
        let remaining_fee = swap_fee - creator_fee - staking_fee;
        let referral_fee = match referral_fee_share {
            Some(share) => {
                proof {
                    lemma_bps_bounds(remaining_fee as int, share as int);
                }
                (remaining_fee as u128 * share as u128 / MAX_BPS as u128) as u64
            },
            None => 0,
        };
        let protocol_fee = remaining_fee - referral_fee;
        let new_creator = match self.pending_creator_fees.checked_add(creator_fee) {
            Some(v) => v,
            None => {
                return Err(TokenMillError::MathError);
            },
        };
        let new_staking = match self.pending_staking_fees.checked_add(staking_fee) {
            Some(v) => v,
            None => {
                return Err(TokenMillError::MathError);
            },
        };
        self.pending_creator_fees = new_creator;
        self.pending_staking_fees = new_staking;
        Ok((creator_fee, staking_fee, protocol_fee, referral_fee))
    }

    /// Replaces the creator and staking shares; their sum must stay the same, so that the
    /// protocol's share never changes.
    pub fn update_fee_shares(&mut self, new_creator_fee_share: u16, new_staking_fee_share: u16) -> (r:
        Result<(), TokenMillError>)
        ensures
            new_creator_fee_share + new_staking_fee_share == old(self).creator_fee_share
                + old(self).staking_fee_share ==> r is Ok && *final(self) == (MarketFees {
                creator_fee_share: new_creator_fee_share,
                staking_fee_share: new_staking_fee_share,
                ..*old(self)
            }),
            new_creator_fee_share + new_staking_fee_share != old(self).creator_fee_share
                + old(self).staking_fee_share ==> r == Err::<(), TokenMillError>(
                TokenMillError::InvalidFeeShare,
            ) && *final(self) == *old(self),
            final(self).protocol_fee_share() == old(self).protocol_fee_share(),
    {
        if new_creator_fee_share as u32 + new_staking_fee_share as u32 != self.creator_fee_share as u32
            + self.staking_fee_share as u32 {
            return Err(TokenMillError::InvalidFeeShare);
        }
        self.creator_fee_share = new_creator_fee_share;
        self.staking_fee_share = new_staking_fee_share;
        Ok(())
    }

    /// Hands out the pending creator fees and zeroes them.
    pub fn claim_creator_fees(&mut self) -> (r: u64)
        ensures
            r == old(self).pending_creator_fees,
            *final(self) == (MarketFees { pending_creator_fees: 0, ..*old(self) }),
    {
        let pending_fees = self.pending_creator_fees;
        self.pending_creator_fees = 0;
        pending_fees
    }
}

/// A bonding-curve market: its supply, its bid and ask price curves and its fees.
#[derive(Debug, Clone, Copy)]
pub struct Market {
    /// Base tokens still held by the market.
    pub base_reserve: u64,
    /// Normalized bid price at each breakpoint.
    pub bid_prices: [u64; PRICES_LENGTH],
    /// Normalized ask price at each breakpoint.
    pub ask_prices: [u64; PRICES_LENGTH],
    /// Normalized width of one supply interval.
    pub width_scaled: u64,
    /// Base tokens that exist; fixed at creation.
    pub total_supply: u64,
    /// Fee shares and pending fees.
    pub fees: MarketFees,
    /// Decimals of the quote token.
    pub quote_token_decimals: u8,
}

/// A total supply that a market accepts: at most `MAX_TOTAL_SUPPLY`, a multiple of
/// `INTERVAL_NUMBER`, with intervals at least one whole token wide.
pub open spec fn valid_total_supply(total_supply: int) -> bool {
    &&& total_supply <= MAX_TOTAL_SUPPLY
    &&& total_supply / INTERVAL_NUMBER as int >= BASE_PRECISION
    &&& total_supply % INTERVAL_NUMBER as int == 0
}

/// The normalized width of one interval of a market of `total_supply`.
pub open spec fn width_scaled_of(total_supply: int) -> int {
    (total_supply / INTERVAL_NUMBER as int) * SCALE as int / BASE_PRECISION as int
}

/// Every breakpoint's bid is at most its ask.
pub open spec fn bids_below_asks(bid_prices: Seq<u64>, ask_prices: Seq<u64>) -> bool {
    forall|i: int| 0 <= i < PRICES_LENGTH ==> #[trigger] bid_prices[i] <= ask_prices[i]
}

/// The prices rise strictly from each breakpoint to the next.
pub open spec fn strictly_increasing(prices: Seq<u64>) -> bool {
    forall|i: int| 0 < i < PRICES_LENGTH ==> prices[i - 1] < #[trigger] prices[i]
}

/// A curve that `check_and_set_prices` accepts.
pub open spec fn valid_curve(bid_prices: Seq<u64>, ask_prices: Seq<u64>) -> bool {
    &&& bids_below_asks(bid_prices, ask_prices)
    &&& strictly_increasing(bid_prices)
    &&& strictly_increasing(ask_prices)
    &&& ask_prices[PRICES_LENGTH - 1] <= MAX_PRICE
}

/// All prices are zero: the curve was not set yet.
pub open spec fn all_zero(prices: Seq<u64>) -> bool {
    forall|i: int| 0 <= i < PRICES_LENGTH ==> #[trigger] prices[i] == 0
}

/// The first breakpoint at or after `i` that breaks the curve rules, as the error it gives.
pub open spec fn curve_error_from(bid_prices: Seq<u64>, ask_prices: Seq<u64>, i: int) -> Option<
    TokenMillError,
>
    decreases PRICES_LENGTH - i,
{
    if i < 0 || i >= PRICES_LENGTH {
        None
    } else if bid_prices[i] > ask_prices[i] {
        Some(TokenMillError::BidAskMismatch)
    } else if i > 0 && (ask_prices[i] <= ask_prices[i - 1] || bid_prices[i] <= bid_prices[i - 1]) {
        Some(TokenMillError::DecreasingPrices)
    } else {
        curve_error_from(bid_prices, ask_prices, i + 1)
    }
}

/// What setting a curve gives: the first broken rule in breakpoint order, then a last ask
/// price above `MAX_PRICE`.
pub open spec fn curve_check(bid_prices: Seq<u64>, ask_prices: Seq<u64>) -> Result<(), TokenMillError> {
    match curve_error_from(bid_prices, ask_prices, 0) {
        Some(e) => Err(e),
        None => if ask_prices[PRICES_LENGTH - 1] > MAX_PRICE {
            Err(TokenMillError::PriceTooHigh)
        } else {
            Ok(())
        },
    }
}

/// No error from breakpoint `i` on means every breakpoint from `i` on follows the rules.
proof fn lemma_curve_error_from_none(bid_prices: Seq<u64>, ask_prices: Seq<u64>, i: int)
    requires
        0 <= i,
        bid_prices.len() == PRICES_LENGTH,
        ask_prices.len() == PRICES_LENGTH,
    ensures
        curve_error_from(bid_prices, ask_prices, i) is None <==> (forall|j: int|
            i <= j < PRICES_LENGTH ==> #[trigger] bid_prices[j] <= ask_prices[j] && (j > 0 ==> (
            ask_prices[j - 1] < ask_prices[j] && bid_prices[j - 1] < bid_prices[j]))),
    decreases PRICES_LENGTH - i,
{
    if i < PRICES_LENGTH {
        lemma_curve_error_from_none(bid_prices, ask_prices, i + 1);
    }
}

/// `curve_check` accepts exactly the valid curves.
pub proof fn lemma_curve_check_ok(bid_prices: Seq<u64>, ask_prices: Seq<u64>)
    requires
        bid_prices.len() == PRICES_LENGTH,
        ask_prices.len() == PRICES_LENGTH,
    ensures
        curve_check(bid_prices, ask_prices) is Ok <==> valid_curve(bid_prices, ask_prices),
{
    lemma_curve_error_from_none(bid_prices, ask_prices, 0);
    if valid_curve(bid_prices, ask_prices) {
        assert forall|j: int| 0 <= j < PRICES_LENGTH implies #[trigger] bid_prices[j] <= ask_prices[j] && (j > 0 ==> (
            ask_prices[j - 1] < ask_prices[j] && bid_prices[j - 1] < bid_prices[j])) by {
            if j > 0 {
                assert(bid_prices[j - 1] < bid_prices[j]);
                assert(ask_prices[j - 1] < ask_prices[j]);
            }
        }
    }
    if curve_check(bid_prices, ask_prices) is Ok {
        assert forall|i: int| 0 < i < PRICES_LENGTH implies bid_prices[i - 1] < #[trigger] bid_prices[i] by {
            assert(bid_prices[i] <= ask_prices[i]);
        }
        assert forall|i: int| 0 < i < PRICES_LENGTH implies ask_prices[i - 1] < #[trigger] ask_prices[i] by {
            assert(bid_prices[i] <= ask_prices[i]);
        }
    }
}

/// `10^n`.
pub open spec fn pow10(n: nat) -> int
    decreases n,
{
    if n == 0 {
        1
    } else {
        10 * pow10((n - 1) as nat)
    }
}

/// `10^n` grows with `n`.
pub proof fn lemma_pow10_monotonic(m: nat, n: nat)
    requires
        m <= n,
    ensures
        1 <= pow10(m) <= pow10(n),
    decreases n,
{
    if n > m {
        lemma_pow10_monotonic(m, (n - 1) as nat);
    } else if n > 0 {
        lemma_pow10_monotonic(0, (n - 1) as nat);
    }
}

/// `10^decimals` as a `u128`, or `None` when it does not fit.
pub fn quote_precision(decimals: u8) -> (r: Option<u128>)
    ensures
        pow10(decimals as nat) <= u128::MAX ==> r == Some(pow10(decimals as nat) as u128),
        pow10(decimals as nat) > u128::MAX ==> r is None,
{
    let mut p: u128 = 1;
    let mut k: u8 = 0;
    while k < decimals
        invariant
            k <= decimals,
            p == pow10(k as nat),
        decreases decimals - k,
    {
        match p.checked_mul(10) {
            Some(v) => {
                p = v;
            },
            None => {
                proof {
                    lemma_pow10_monotonic((k + 1) as nat, decimals as nat);
                }
                return None;
            },
        }
        k += 1;
    }
    Some(p)
}

/// A base amount in normalized units.
pub open spec fn normalize_base(amount: int) -> int {
    amount * SCALE as int / BASE_PRECISION as int
}

/// Normalizing a base amount multiplies it by a thousand, exactly.
pub proof fn lemma_normalize_base(amount: int)
    requires
        amount >= 0,
    ensures
        normalize_base(amount) == amount * 1000,
{
    vstd::arithmetic::div_mod::lemma_div_multiples_vanish(amount * 1000, 1_000_000);
    assert(amount * SCALE == 1_000_000 * (amount * 1000));
}

/// A normalized quote amount in native quote units, rounded as asked; `None` when
/// `10^decimals`, the product or the result passes its type.
pub open spec fn native_quote(quote: int, decimals: nat, rounding: Rounding) -> Option<int> {
    let precision = pow10(decimals);
    if precision > u128::MAX || quote * precision > u128::MAX {
        None
    } else if rounded_div(quote * precision, SCALE as int, rounding) > u64::MAX {
        None
    } else {
        Some(rounded_div(quote * precision, SCALE as int, rounding))
    }
}

/// Every interval of `curve` is one that the interval functions accept at width `w`.
pub open spec fn curve_intervals_ok(curve: Seq<u64>, w: int) -> bool {
    forall|i: int| 0 < i < PRICES_LENGTH ==> interval_ok(#[trigger] curve[i - 1] as int, curve[i] as int, w)
}

/// Walks the curve forward from breakpoint `i`, `used` units into the interval that ends
/// there, over `left` normalized base units: the units left past the last breakpoint, and the
/// sum of the rounded trapezoid quotes of each interval crossed.
pub open spec fn quote_walk(curve: Seq<u64>, w: int, i: int, used: int, left: int, rounding: Rounding) -> (int, int)
    decreases PRICES_LENGTH - i,
{
    if left > 0 && 0 < i < PRICES_LENGTH {
        let d = if left < w - used { left } else { w - used };
        let rest = quote_walk(curve, w, i + 1, 0, left - d, rounding);
        (rest.0, rest.1 + interval_quote(curve[i - 1] as int, curve[i] as int, w, used, d, rounding))
    } else {
        (left, 0)
    }
}

/// The forward walk leaves at most what it was given, uses at most the supply past its
/// start, and sums at most one maximal quote per interval.
pub proof fn lemma_quote_walk_bounds(curve: Seq<u64>, w: int, i: int, used: int, left: int, rounding: Rounding)
    requires
        curve_intervals_ok(curve, w),
        curve.len() == PRICES_LENGTH,
        w > 0,
        1 <= i <= PRICES_LENGTH,
        0 <= used < w,
        i == PRICES_LENGTH ==> used == 0,
        left >= 0,
    ensures
        0 <= quote_walk(curve, w, i, used, left, rounding).0 <= left,
        left - quote_walk(curve, w, i, used, left, rounding).0 <= (PRICES_LENGTH - 1 - i) * w + w - used,
        0 <= quote_walk(curve, w, i, used, left, rounding).1 <= (PRICES_LENGTH - i) * max_interval_quote(),
    decreases PRICES_LENGTH - i,
{
    if left > 0 && 0 < i < PRICES_LENGTH {
        let d = if left < w - used { left } else { w - used };
        assert(interval_ok(curve[i - 1] as int, curve[i] as int, w));
        lemma_trapezoid_bounds(curve[i - 1] as int, curve[i] as int, w, used, d, rounding);
        lemma_quote_walk_bounds(curve, w, i + 1, 0, left - d, rounding);
        assert((PRICES_LENGTH - (i + 1)) * max_interval_quote() + max_interval_quote() == (
        PRICES_LENGTH - i) * max_interval_quote()) by (nonlinear_arith);
        assert((PRICES_LENGTH - 1 - (i + 1)) * w + w == (PRICES_LENGTH - 1 - i) * w) by (nonlinear_arith);
    } else {
        if i == PRICES_LENGTH {
            assert((PRICES_LENGTH - 1 - i) * w == -w) by (nonlinear_arith)
                requires
                    i == PRICES_LENGTH,
            ;
        }
        assert(0 <= (PRICES_LENGTH - i) * max_interval_quote()) by (nonlinear_arith)
            requires
                i <= PRICES_LENGTH,
                max_interval_quote() >= 0,
        ;
        if i < PRICES_LENGTH {
            assert(0 <= (PRICES_LENGTH - 1 - i) * w) by (nonlinear_arith)
                requires
                    i <= PRICES_LENGTH - 1,
                    w >= 0,
            ;
        }
    }
}

/// Walks the ask curve forward from breakpoint `i`, `used` units into the interval that starts
/// there, spending `left` normalized quote: the quote left at the last breakpoint, and the
/// normalized base bought.
pub open spec fn base_out_walk(curve: Seq<u64>, w: int, i: int, used: int, left: int) -> (int, int)
    decreases PRICES_LENGTH - 1 - i,
{
    if left > 0 && 0 <= i < PRICES_LENGTH - 1 {
        let step = delta_base_out_spec(curve[i] as int, curve[i + 1] as int, w, used, left);
        let rest = base_out_walk(curve, w, i + 1, 0, left - step.1);
        (rest.0, rest.1 + step.0)
    } else {
        (left, 0)
    }
}

/// Walks the bid curve backward from breakpoint `i`, `available` units above the breakpoint
/// below it, asking for `left` normalized quote: the quote still missing at the first
/// breakpoint, and the normalized base sold.
pub open spec fn base_in_walk(curve: Seq<u64>, w: int, i: int, available: int, left: int) -> (int, int)
    decreases i,
{
    if left > 0 && 0 < i < PRICES_LENGTH {
        let step = delta_base_in_spec(curve[i - 1] as int, curve[i] as int, w, available, left);
        let rest = base_in_walk(curve, w, i - 1, w, left - step.1);
        (rest.0, rest.1 + step.0)
    } else {
        (left, 0)
    }
}

/// A trapezoid quote grows with both prices and with the width taken, so rounding the
/// smaller down never passes rounding the larger up.
pub proof fn lemma_interval_quote_monotone(
    b0: int,
    b1: int,
    a0: int,
    a1: int,
    w: int,
    used: int,
    d1: int,
    d2: int,
)
    requires
        interval_ok(b0, b1, w),
        interval_ok(a0, a1, w),
        b0 <= a0,
        b1 <= a1,
        0 <= used,
        0 <= d1 <= d2,
        used + d2 <= w,
    ensures
        interval_quote(b0, b1, w, used, d1, Rounding::Down) <= interval_quote(a0, a1, w, used, d2, Rounding::Up),
{
    let tb = trapezoid(b0, b1, w, used, d1);
    let ta1 = trapezoid(a0, a1, w, used, d1);
    let ta2 = trapezoid(a0, a1, w, used, d2);
    assert(tb <= ta1) by (nonlinear_arith)
        requires
            tb == d1 * ((b1 - b0) * (d1 + 2 * used) + 2 * b0 * w),
            ta1 == d1 * ((a1 - a0) * (d1 + 2 * used) + 2 * a0 * w),
            0 <= b0 <= a0,
            b1 <= a1,
            0 <= d1,
            0 <= used,
            d1 + 2 * used <= 2 * w,
    {
        assert((b1 - b0) * (d1 + 2 * used) + 2 * b0 * w == b1 * (d1 + 2 * used) + b0 * (2 * w - d1 - 2 * used));
        assert((a1 - a0) * (d1 + 2 * used) + 2 * a0 * w == a1 * (d1 + 2 * used) + a0 * (2 * w - d1 - 2 * used));
        assert(b1 * (d1 + 2 * used) <= a1 * (d1 + 2 * used));
        assert(b0 * (2 * w - d1 - 2 * used) <= a0 * (2 * w - d1 - 2 * used));
    }
    assert(ta1 <= ta2) by (nonlinear_arith)
        requires
            ta1 == d1 * ((a1 - a0) * (d1 + 2 * used) + 2 * a0 * w),
            ta2 == d2 * ((a1 - a0) * (d2 + 2 * used) + 2 * a0 * w),
            0 <= a0 <= a1,
            0 <= d1 <= d2,
            0 <= used,
            w > 0,
    {
        assert((a1 - a0) * (d1 + 2 * used) <= (a1 - a0) * (d2 + 2 * used));
        assert(d1 * ((a1 - a0) * (d1 + 2 * used) + 2 * a0 * w) <= d1 * ((a1 - a0) * (d2 + 2 * used) + 2 * a0 * w));
        assert(d1 * ((a1 - a0) * (d2 + 2 * used) + 2 * a0 * w) <= d2 * ((a1 - a0) * (d2 + 2 * used) + 2 * a0 * w));
    }
    lemma_trapezoid_bounds(b0, b1, w, used, d1, Rounding::Down);
    assert(2 * SCALE * w > 0) by (nonlinear_arith)
        requires
            w > 0,
    ;
    lemma_rounded_div_monotonic(tb, ta2, 2 * SCALE * w, Rounding::Down);
    lemma_rounded_div_bounds(ta2, 2 * SCALE * w, Rounding::Down);
}

/// Walking fewer base units along a curve that is nowhere above another, rounding down,
/// never sums to more than walking the other, rounding up.
pub proof fn lemma_quote_walk_monotone(
    low: Seq<u64>,
    high: Seq<u64>,
    w: int,
    i: int,
    used: int,
    l1: int,
    l2: int,
)
    requires
        low.len() == PRICES_LENGTH,
        high.len() == PRICES_LENGTH,
        curve_intervals_ok(low, w),
        curve_intervals_ok(high, w),
        bids_below_asks(low, high),
        w > 0,
        1 <= i <= PRICES_LENGTH,
        0 <= used < w,
        i == PRICES_LENGTH ==> used == 0,
        0 <= l1 <= l2,
    ensures
        quote_walk(low, w, i, used, l1, Rounding::Down).1 <= quote_walk(high, w, i, used, l2, Rounding::Up).1,
    decreases PRICES_LENGTH - i,
{
    lemma_quote_walk_bounds(high, w, i, used, l2, Rounding::Up);
    if l1 > 0 && i < PRICES_LENGTH {
        let d1 = if l1 < w - used { l1 } else { w - used };
        let d2 = if l2 < w - used { l2 } else { w - used };
        assert(low[i - 1] <= high[i - 1] && low[i] <= high[i]);
        assert(interval_ok(low[i - 1] as int, low[i] as int, w));
        assert(interval_ok(high[i - 1] as int, high[i] as int, w));
        lemma_interval_quote_monotone(
            low[i - 1] as int,
            low[i] as int,
            high[i - 1] as int,
            high[i] as int,
            w,
            used,
            d1,
            d2,
        );
        lemma_quote_walk_monotone(low, high, w, i + 1, 0, l1 - d1, l2 - d2);
    }
}

/// A forward walk uses up the base units it is given until the curve runs out: what it leaves
/// is what exceeds the units the curve holds past its start.
pub proof fn lemma_quote_walk_leftover(curve: Seq<u64>, w: int, i: int, used: int, left: int, rounding: Rounding)
    requires
        w > 0,
        1 <= i <= PRICES_LENGTH,
        0 <= used < w,
        i == PRICES_LENGTH ==> used == 0,
        0 <= left,
    ensures
        ({
            let capacity = (PRICES_LENGTH - 1 - i) * w + w - used;
            quote_walk(curve, w, i, used, left, rounding).0 == if left <= capacity {
                0
            } else {
                left - capacity
            }
        }),
    decreases PRICES_LENGTH - i,
{
    if i == PRICES_LENGTH {
        assert((PRICES_LENGTH - 1 - i) * w == -w) by (nonlinear_arith)
            requires
                i == PRICES_LENGTH,
        ;
    } else {
        assert((PRICES_LENGTH - 1 - i) * w >= 0) by (nonlinear_arith)
            requires
                i <= PRICES_LENGTH - 1,
                w > 0,
        ;
    }
    if left > 0 && 0 < i < PRICES_LENGTH {
        let d = if left < w - used { left } else { w - used };
        assert((PRICES_LENGTH - 1 - (i + 1)) * w + w == (PRICES_LENGTH - 1 - i) * w) by (nonlinear_arith);
        if i + 1 == PRICES_LENGTH {
            assert((PRICES_LENGTH - 1 - (i + 1)) * w == -w) by (nonlinear_arith)
                requires
                    i + 1 == PRICES_LENGTH,
            ;
        } else {
            assert((PRICES_LENGTH - 1 - (i + 1)) * w >= 0) by (nonlinear_arith)
                requires
                    i + 1 <= PRICES_LENGTH - 1,
                    w > 0,
            ;
        }
        lemma_quote_walk_leftover(curve, w, i + 1, 0, left - d, rounding);
    }
}

/// Converting normalized quotes to native units keeps their order, and the smaller one,
/// rounded down, fits wherever the larger one, rounded up, does.
pub proof fn lemma_native_quote_monotone(q1: int, q2: int, decimals: nat)
    requires
        0 <= q1 <= q2,
        native_quote(q2, decimals, Rounding::Up) is Some,
    ensures
        native_quote(q1, decimals, Rounding::Down) is Some,
        0 <= native_quote(q1, decimals, Rounding::Down)->0 <= native_quote(q2, decimals, Rounding::Up)->0
            <= u64::MAX,
{
    let p = pow10(decimals);
    lemma_pow10_monotonic(0, decimals);
    assert(q1 * p <= q2 * p) by (nonlinear_arith)
        requires
            0 <= q1 <= q2,
            p >= 1,
    ;
    assert(q1 * p >= 0) by (nonlinear_arith)
        requires
            0 <= q1,
            p >= 1,
    ;
    lemma_rounded_div_monotonic(q1 * p, q2 * p, SCALE as int, Rounding::Down);
    lemma_rounded_div_bounds(q2 * p, SCALE as int, Rounding::Down);
    lemma_rounded_div_bounds(q1 * p, SCALE as int, Rounding::Down);
}

/// The forward buy walk buys at most what the curve holds past its start and spends at most
/// the quote it is given.
pub proof fn lemma_base_out_walk_bounds(curve: Seq<u64>, w: int, i: int, used: int, left: int)
    requires
        curve_intervals_ok(curve, w),
        curve.len() == PRICES_LENGTH,
        w > 0,
        0 <= i <= PRICES_LENGTH - 1,
        0 <= used < w,
        i == PRICES_LENGTH - 1 ==> used == 0,
        left >= 0,
    ensures
        0 <= base_out_walk(curve, w, i, used, left).0 <= left,
        0 <= base_out_walk(curve, w, i, used, left).1 <= (PRICES_LENGTH - 1 - i) * w - used,
    decreases PRICES_LENGTH - 1 - i,
{
    if i < PRICES_LENGTH - 1 {
        assert((PRICES_LENGTH - 1 - i) * w >= w) by (nonlinear_arith)
            requires
                i < PRICES_LENGTH - 1,
                w > 0,
        ;
    } else {
        assert((PRICES_LENGTH - 1 - i) * w == 0) by (nonlinear_arith)
            requires
                i == PRICES_LENGTH - 1,
        ;
    }
    if left > 0 && 0 <= i < PRICES_LENGTH - 1 {
        assert(interval_ok(curve[(i + 1) - 1] as int, curve[i + 1] as int, w));
        crate::math::lemma_delta_base_out_bounds(curve[i] as int, curve[i + 1] as int, w, used, left);
        let step = delta_base_out_spec(curve[i] as int, curve[i + 1] as int, w, used, left);
        lemma_base_out_walk_bounds(curve, w, i + 1, 0, left - step.1);
        assert((PRICES_LENGTH - 1 - (i + 1)) * w + w == (PRICES_LENGTH - 1 - i) * w) by (nonlinear_arith);
    }
}

/// Pricing forward along the same curve, rounding each piece up, the base that a buy walk
/// delivers costs at most the quote that the walk spent.
pub proof fn lemma_forward_cost_within_buy(curve: Seq<u64>, w: int, i: int, used: int, l: int, r: int)
    requires
        curve_intervals_ok(curve, w),
        curve.len() == PRICES_LENGTH,
        w > 0,
        0 <= i <= PRICES_LENGTH - 1,
        0 <= used < w,
        i == PRICES_LENGTH - 1 ==> used == 0,
        r >= 0,
        0 <= l <= base_out_walk(curve, w, i, used, r).1,
    ensures
        quote_walk(curve, w, i + 1, used, l, Rounding::Up).1 <= r - base_out_walk(curve, w, i, used, r).0,
    decreases PRICES_LENGTH - 1 - i,
{
    lemma_base_out_walk_bounds(curve, w, i, used, r);
    if l > 0 {
        assert(r > 0 && i < PRICES_LENGTH - 1);
        let p0 = curve[i] as int;
        let p1 = curve[i + 1] as int;
        assert(interval_ok(curve[(i + 1) - 1] as int, curve[i + 1] as int, w));
        crate::math::lemma_delta_base_out_bounds(p0, p1, w, used, r);
        let step = delta_base_out_spec(p0, p1, w, used, r);
        let (db, dq) = step;
        let rest = base_out_walk(curve, w, i + 1, 0, r - dq);
        lemma_base_out_walk_bounds(curve, w, i + 1, 0, r - dq);
        if db < w - used {
            assert(dq == r);
            assert(rest == (0int, 0int));
        }
        let d = if l < w - used { l } else { w - used };
        assert(d <= db);
        // The forward piece is no wider than the buy's, so it costs no more.
        let pd = p1 - p0;
        assert(trapezoid(p0, p1, w, used, d) <= trapezoid(p0, p1, w, used, db)) by (nonlinear_arith)
            requires
                0 <= p0 <= p1,
                pd == p1 - p0,
                0 <= d <= db,
                0 <= used,
                w > 0,
        {
            assert(pd * (d + 2 * used) <= pd * (db + 2 * used));
            assert(d * (pd * (d + 2 * used) + 2 * p0 * w) <= d * (pd * (db + 2 * used) + 2 * p0 * w));
            assert(d * (pd * (db + 2 * used) + 2 * p0 * w) <= db * (pd * (db + 2 * used) + 2 * p0 * w));
        }
        lemma_trapezoid_bounds(p0, p1, w, used, d, Rounding::Up);
        assert(2 * SCALE * w > 0) by (nonlinear_arith)
            requires
                w > 0,
        ;
        assert(trapezoid(p0, p1, w, used, d) <= dq * (2 * SCALE * w));
        crate::arith::lemma_ceil_le(dq, trapezoid(p0, p1, w, used, d), 2 * SCALE * w);
        if d == l {
            assert(quote_walk(curve, w, i + 2, 0, 0, Rounding::Up).1 == 0);
        } else {
            assert(db == w - used);
            lemma_forward_cost_within_buy(curve, w, i + 1, 0, l - d, r - dq);
        }
    }
}

proof fn lemma_increasing_le(prices: Seq<u64>, i: int, j: int)
    requires
        strictly_increasing(prices),
        0 <= i <= j < PRICES_LENGTH,
    ensures
        prices[i] <= prices[j],
    decreases j - i,
{
    if i < j {
        lemma_increasing_le(prices, i, j - 1);
        assert(prices[j - 1] < prices[j]);
    }
}

impl Market {
    /// The bid and ask curves: both unset, or both valid.
    pub open spec fn prices_wf(self) -> bool {
        (all_zero(self.bid_prices@) && all_zero(self.ask_prices@)) || valid_curve(
            self.bid_prices@,
            self.ask_prices@,
        )
    }

    /// The market's invariant: a valid supply split into equal intervals, a reserve within
    /// it, fee shares within 100%, and curves unset or valid.
    pub open spec fn wf(self) -> bool {
        &&& valid_total_supply(self.total_supply as int)
        &&& self.width_scaled == width_scaled_of(self.total_supply as int)
        &&& self.base_reserve <= self.total_supply
        &&& self.fees.wf()
        &&& self.prices_wf()
    }

    /// Base tokens in circulation.
    pub open spec fn circulating(self) -> int {
        self.total_supply - self.base_reserve
    }

    /// The curve that a walk of the given kind prices on: bids for exact input, asks for
    /// exact output.
    pub open spec fn price_curve(self, swap_amount_type: SwapAmountType) -> Seq<u64> {
        match swap_amount_type {
            SwapAmountType::ExactInput => self.bid_prices@,
            SwapAmountType::ExactOutput => self.ask_prices@,
        }
    }

    /// What `get_quote_amount_with_parameters` gives: walking `base_amount` forward from
    /// `supply`, the base amount that the curve held and its quote in native units.
    pub open spec fn quote_result(
        self,
        supply: int,
        base_amount: int,
        swap_amount_type: SwapAmountType,
        rounding: Rounding,
    ) -> Result<(u64, u64), TokenMillError> {
        let w = self.width_scaled as int;
        let ns = normalize_base(supply);
        let walk = quote_walk(
            self.price_curve(swap_amount_type),
            w,
            ns / w + 1,
            ns % w,
            normalize_base(base_amount),
            rounding,
        );
        let base_swapped = base_amount - rounded_div(
            walk.0 * BASE_PRECISION as int,
            SCALE as int,
            rounding,
        );
        match native_quote(walk.1, self.quote_token_decimals as nat, rounding) {
            Some(q) => Ok((base_swapped as u64, q as u64)),
            None => Err(TokenMillError::MathError),
        }
    }

    /// What `get_base_amount_out` gives: walking the ask curve forward from the circulating
    /// supply with `quote_amount`, the base bought (rounded down) and the quote it takes.
    pub open spec fn base_out_result(self, quote_amount: int) -> Result<(u64, u64), TokenMillError> {
        let precision = pow10(self.quote_token_decimals as nat);
        if precision > u128::MAX {
            Err(TokenMillError::MathError)
        } else {
            let w = self.width_scaled as int;
            let ns = normalize_base(self.circulating());
            let walk = base_out_walk(self.ask_prices@, w, ns / w, ns % w, quote_amount * SCALE as int / precision);
            Ok((
                (walk.1 * BASE_PRECISION as int / SCALE as int) as u64,
                (quote_amount - walk.0 * precision / SCALE as int) as u64,
            ))
        }
    }

    /// What `get_base_amount_in` gives: walking the bid curve backward from the circulating
    /// supply until `quote_amount` is paid out, the base sold (rounded up) and the quote paid.
    pub open spec fn base_in_result(self, quote_amount: int) -> Result<(u64, u64), TokenMillError> {
        let precision = pow10(self.quote_token_decimals as nat);
        if precision > u128::MAX {
            Err(TokenMillError::MathError)
        } else {
            let w = self.width_scaled as int;
            let ns = normalize_base(self.circulating());
            let start = if ns % w == 0 { ns / w } else { ns / w + 1 };
            let available = if ns % w == 0 { w } else { ns % w };
            let walk = base_in_walk(self.bid_prices@, w, start, available, quote_amount * SCALE as int / precision);
            Ok((
                rounded_div(walk.1 * BASE_PRECISION as int, SCALE as int, Rounding::Up) as u64,
                (quote_amount - rounded_div(walk.0 * precision, SCALE as int, Rounding::Up)) as u64,
            ))
        }
    }

    /// Selling base back along the bids never pays more quote than buying it along the asks:
    /// walking at most the same base units from the same supply, the bid walk rounded down
    /// gives at most the ask walk rounded up, and is never the one to fail.
    pub proof fn lemma_sell_quote_below_buy_quote(self, supply: int, sold: int, bought: int)
        requires
            self.wf(),
            0 <= supply <= self.total_supply,
            0 <= sold <= bought,
            self.quote_result(supply, bought, SwapAmountType::ExactOutput, Rounding::Up) is Ok,
        ensures
            self.quote_result(supply, sold, SwapAmountType::ExactInput, Rounding::Down) is Ok,
            self.quote_result(supply, sold, SwapAmountType::ExactInput, Rounding::Down)->Ok_0.1
                <= self.quote_result(supply, bought, SwapAmountType::ExactOutput, Rounding::Up)->Ok_0.1,
    {
        self.lemma_curves_ok();
        lemma_bound_values();
        let w = self.width_scaled as int;
        let ns = normalize_base(supply);
        lemma_normalize_base(supply);
        lemma_normalize_base(sold);
        lemma_normalize_base(bought);
        lemma_normalize_base(self.total_supply as int / 10);
        assert(ns <= 10 * w);
        crate::arith::lemma_div_bounds(ns, w);
        vstd::arithmetic::div_mod::lemma_fundamental_div_mod(ns, w);
        vstd::arithmetic::div_mod::lemma_div_is_ordered(ns, 10 * w, w);
        vstd::arithmetic::div_mod::lemma_div_multiples_vanish(10, w);
        if ns / w == 10 {
            assert(ns % w == 0) by (nonlinear_arith)
                requires
                    ns == w * (ns / w) + ns % w,
                    ns / w == 10,
                    ns <= 10 * w,
                    ns % w >= 0,
            ;
        }
        if valid_curve(self.bid_prices@, self.ask_prices@) {
        } else {
            assert(bids_below_asks(self.bid_prices@, self.ask_prices@));
        }
        lemma_quote_walk_monotone(
            self.bid_prices@,
            self.ask_prices@,
            w,
            ns / w + 1,
            ns % w,
            normalize_base(sold),
            normalize_base(bought),
        );
        lemma_quote_walk_bounds(self.bid_prices@, w, ns / w + 1, ns % w, normalize_base(sold), Rounding::Down);
        lemma_native_quote_monotone(
            quote_walk(self.bid_prices@, w, ns / w + 1, ns % w, normalize_base(sold), Rounding::Down).1,
            quote_walk(self.ask_prices@, w, ns / w + 1, ns % w, normalize_base(bought), Rounding::Up).1,
            self.quote_token_decimals as nat,
        );
    }

    /// Selling back along the bids base that circulates past `supply` takes all of it, and,
    /// rounded down, pays at most the same sale rounded up.
    pub proof fn lemma_sell_back_whole(self, supply: int, base_amount: int)
        requires
            self.wf(),
            0 <= supply,
            0 <= base_amount <= u64::MAX,
            supply + base_amount <= self.total_supply,
            self.quote_result(supply, base_amount, SwapAmountType::ExactInput, Rounding::Up) is Ok,
        ensures
            self.quote_result(supply, base_amount, SwapAmountType::ExactInput, Rounding::Down) is Ok,
            self.quote_result(supply, base_amount, SwapAmountType::ExactInput, Rounding::Down)->Ok_0.0
                == base_amount,
            self.quote_result(supply, base_amount, SwapAmountType::ExactInput, Rounding::Down)->Ok_0.1
                <= self.quote_result(supply, base_amount, SwapAmountType::ExactInput, Rounding::Up)->Ok_0.1,
    {
        self.lemma_curves_ok();
        lemma_bound_values();
        let w = self.width_scaled as int;
        let ts = self.total_supply as int;
        let ns = normalize_base(supply);
        lemma_normalize_base(supply);
        lemma_normalize_base(base_amount);
        lemma_normalize_base(ts / 10);
        assert(ns <= 10 * w);
        crate::arith::lemma_div_bounds(ns, w);
        vstd::arithmetic::div_mod::lemma_fundamental_div_mod(ns, w);
        vstd::arithmetic::div_mod::lemma_div_is_ordered(ns, 10 * w, w);
        vstd::arithmetic::div_mod::lemma_div_multiples_vanish(10, w);
        let i0 = ns / w;
        let u0 = ns % w;
        if i0 == 10 {
            assert(u0 == 0) by (nonlinear_arith)
                requires
                    ns == w * i0 + u0,
                    i0 == 10,
                    ns <= 10 * w,
                    u0 >= 0,
            ;
        }
        assert((PRICES_LENGTH - 1 - (i0 + 1)) * w + w - u0 == 10 * w - ns) by (nonlinear_arith)
            requires
                ns == w * i0 + u0,
                PRICES_LENGTH == 11,
        ;
        let curve = self.bid_prices@;
        lemma_quote_walk_leftover(curve, w, i0 + 1, u0, normalize_base(base_amount), Rounding::Down);
        assert(bids_below_asks(curve, curve));
        lemma_quote_walk_monotone(curve, curve, w, i0 + 1, u0, normalize_base(base_amount), normalize_base(base_amount));
        lemma_quote_walk_bounds(curve, w, i0 + 1, u0, normalize_base(base_amount), Rounding::Down);
        lemma_native_quote_monotone(
            quote_walk(curve, w, i0 + 1, u0, normalize_base(base_amount), Rounding::Down).1,
            quote_walk(curve, w, i0 + 1, u0, normalize_base(base_amount), Rounding::Up).1,
            self.quote_token_decimals as nat,
        );
        assert(rounded_div(0 * BASE_PRECISION as int, SCALE as int, Rounding::Down) == 0);
    }

    /// A buy with a fixed quote charges at least the ask value, rounded up, of the base it
    /// delivers: rounding on the inverse walk never favours the buyer.
    pub proof fn lemma_buy_charges_ask_value(self, quote_amount: int)
        requires
            self.wf(),
            0 <= quote_amount <= u64::MAX,
        ensures
            self.base_out_result(quote_amount) matches Ok((b, q)) ==> {
                let priced = self.quote_result(self.circulating(), b as int, SwapAmountType::ExactOutput, Rounding::Up);
                &&& priced is Ok
                &&& priced->Ok_0.1 <= q
            },
    {
        let precision = pow10(self.quote_token_decimals as nat);
        self.lemma_base_out_result_bounds(quote_amount);
        if precision <= u128::MAX {
            self.lemma_curves_ok();
            lemma_bound_values();
            lemma_pow10_monotonic(0, self.quote_token_decimals as nat);
            let w = self.width_scaled as int;
            let ts = self.total_supply as int;
            let circ = self.circulating();
            let ns = normalize_base(circ);
            lemma_normalize_base(circ);
            lemma_normalize_base(ts / 10);
            assert(ns <= 10 * w);
            crate::arith::lemma_div_bounds(ns, w);
            vstd::arithmetic::div_mod::lemma_fundamental_div_mod(ns, w);
            vstd::arithmetic::div_mod::lemma_div_is_ordered(ns, 10 * w, w);
            vstd::arithmetic::div_mod::lemma_div_multiples_vanish(10, w);
            let i0 = ns / w;
            let u0 = ns % w;
            if i0 == 10 {
                assert(u0 == 0) by (nonlinear_arith)
                    requires
                        ns == w * i0 + u0,
                        i0 == 10,
                        ns <= 10 * w,
                        u0 >= 0,
                ;
            }
            let l0 = quote_amount * SCALE as int / precision;
            lemma_le_div(0, quote_amount * SCALE as int, precision);
            crate::arith::lemma_div_bounds(quote_amount * SCALE as int, precision);
            let walk = base_out_walk(self.ask_prices@, w, i0, u0, l0);
            lemma_base_out_walk_bounds(self.ask_prices@, w, i0, u0, l0);
            let nb = walk.1;
            let left = walk.0;
            let b = nb * 1_000_000 / 1_000_000_000;
            crate::arith::lemma_div_bounds(nb * 1_000_000, 1_000_000_000);
            lemma_normalize_base(b);
            assert(b * 1000 <= nb);
            assert(b <= ts - circ) by {
                assert((PRICES_LENGTH - 1 - i0) * w - u0 == 10 * w - ns) by (nonlinear_arith)
                    requires
                        ns == w * i0 + u0,
                        PRICES_LENGTH == 11,
                ;
            }
            lemma_forward_cost_within_buy(self.ask_prices@, w, i0, u0, b * 1000, l0);
            lemma_quote_walk_bounds(self.ask_prices@, w, i0 + 1, u0, b * 1000, Rounding::Up);
            let qf = quote_walk(self.ask_prices@, w, i0 + 1, u0, b * 1000, Rounding::Up).1;
            // qf <= l0 - left, so qf * precision <= quote * SCALE - left * precision.
            let x = left * precision;
            assert(x >= 0) by (nonlinear_arith)
                requires
                    x == left * precision,
                    left >= 0,
                    precision >= 1,
            ;
            assert(qf * precision <= quote_amount * SCALE as int - x) by (nonlinear_arith)
                requires
                    0 <= qf <= l0 - left,
                    precision * l0 <= quote_amount * SCALE as int,
                    x == left * precision,
                    precision >= 1,
            {
                assert(qf * precision <= (l0 - left) * precision);
            }
            crate::arith::lemma_div_bounds(x, SCALE as int);
            let k = x / SCALE as int;
            assert(qf * precision <= (quote_amount - k) * SCALE as int);
            assert(qf * precision >= 0) by (nonlinear_arith)
                requires
                    qf >= 0,
                    precision >= 1,
            ;
            crate::arith::lemma_ceil_le(quote_amount - k, qf * precision, SCALE as int);
            lemma_rounded_div_bounds(qf * precision, SCALE as int, Rounding::Up);
            assert(k <= quote_amount) by (nonlinear_arith)
                requires
                    (SCALE as int) * k <= x,
                    x <= quote_amount * SCALE as int,
                    SCALE > 0,
            ;
        }
    }

    /// A buy with a fixed quote never takes more base than the reserve holds.
    pub proof fn lemma_base_out_result_bounds(self, quote_amount: int)
        requires
            self.wf(),
            0 <= quote_amount <= u64::MAX,
        ensures
            self.base_out_result(quote_amount) matches Ok((b, q)) ==> b <= self.base_reserve,
    {
        let precision = pow10(self.quote_token_decimals as nat);
        if precision <= u128::MAX {
            self.lemma_curves_ok();
            lemma_bound_values();
            lemma_pow10_monotonic(0, self.quote_token_decimals as nat);
            let w = self.width_scaled as int;
            let ts = self.total_supply as int;
            let circ = self.circulating();
            let ns = normalize_base(circ);
            lemma_normalize_base(circ);
            lemma_normalize_base(ts / 10);
            assert(ns <= 10 * w);
            crate::arith::lemma_div_bounds(ns, w);
            vstd::arithmetic::div_mod::lemma_fundamental_div_mod(ns, w);
            vstd::arithmetic::div_mod::lemma_div_is_ordered(ns, 10 * w, w);
            vstd::arithmetic::div_mod::lemma_div_multiples_vanish(10, w);
            let i0 = ns / w;
            let u0 = ns % w;
            if i0 == 10 {
                assert(u0 == 0) by (nonlinear_arith)
                    requires
                        ns == w * i0 + u0,
                        i0 == 10,
                        ns <= 10 * w,
                        u0 >= 0,
                ;
            }
            let l0 = quote_amount * SCALE as int / precision;
            lemma_le_div(0, quote_amount * SCALE as int, precision);
            lemma_base_out_walk_bounds(self.ask_prices@, w, i0, u0, l0);
            let nb = base_out_walk(self.ask_prices@, w, i0, u0, l0).1;
            assert((PRICES_LENGTH - 1 - i0) * w - u0 == 10 * w - ns) by (nonlinear_arith)
                requires
                    ns == w * i0 + u0,
                    PRICES_LENGTH == 11,
            ;
            assert(10 * w - ns == (ts - circ) * 1000);
            crate::arith::lemma_div_bounds(nb * 1_000_000, 1_000_000_000);
            assert((nb * 1_000_000) / 1_000_000_000 <= ts - circ) by (nonlinear_arith)
                requires
                    1_000_000_000 * ((nb * 1_000_000) / 1_000_000_000) <= nb * 1_000_000,
                    nb <= (ts - circ) * 1000,
            ;
        }
    }

    /// A forward walk hands back at most the base asked for, and at most what the curve holds
    /// past `supply`.
    pub proof fn lemma_quote_result_bounds(
        self,
        supply: int,
        base_amount: int,
        swap_amount_type: SwapAmountType,
        rounding: Rounding,
    )
        requires
            self.wf(),
            0 <= supply <= self.total_supply,
            0 <= base_amount <= u64::MAX,
        ensures
            self.quote_result(supply, base_amount, swap_amount_type, rounding) matches Ok((b, q)) ==> b
                <= base_amount && b <= self.total_supply - supply,
            self.quote_result(supply, base_amount, swap_amount_type, rounding) matches Ok((b, q)) ==> b
                == if base_amount <= self.total_supply - supply {
                base_amount
            } else {
                self.total_supply - supply
            },
    {
        self.lemma_curves_ok();
        lemma_bound_values();
        let w = self.width_scaled as int;
        let ts = self.total_supply as int;
        let ns = normalize_base(supply);
        lemma_normalize_base(supply);
        lemma_normalize_base(base_amount);
        lemma_normalize_base(ts / 10);
        assert(ns <= 10 * w);
        crate::arith::lemma_div_bounds(ns, w);
        vstd::arithmetic::div_mod::lemma_fundamental_div_mod(ns, w);
        vstd::arithmetic::div_mod::lemma_div_is_ordered(ns, 10 * w, w);
        vstd::arithmetic::div_mod::lemma_div_multiples_vanish(10, w);
        let i0 = ns / w;
        let u0 = ns % w;
        if i0 == 10 {
            assert(u0 == 0) by (nonlinear_arith)
                requires
                    ns == w * i0 + u0,
                    i0 == 10,
                    ns <= 10 * w,
                    u0 >= 0,
            ;
        }
        let l0 = normalize_base(base_amount);
        let curve = self.price_curve(swap_amount_type);
        lemma_quote_walk_bounds(curve, w, i0 + 1, u0, l0, rounding);
        lemma_quote_walk_leftover(curve, w, i0 + 1, u0, l0, rounding);
        let nl = quote_walk(curve, w, i0 + 1, u0, l0, rounding).0;
        assert(l0 - nl <= (PRICES_LENGTH - 1 - (i0 + 1)) * w + w - u0);
        assert((PRICES_LENGTH - 1 - (i0 + 1)) * w + w - u0 == 10 * w - ns) by (nonlinear_arith)
            requires
                ns == w * i0 + u0,
                PRICES_LENGTH == 11,
        ;
        lemma_rounded_div_bounds(nl * 1_000_000, 1_000_000_000, rounding);
        lemma_rounded_div_bounds(nl * 1_000_000, 1_000_000_000, Rounding::Down);
        if base_amount > ts - supply {
            lemma_le_div(base_amount - (ts - supply), nl * 1_000_000, 1_000_000_000);
        }
        lemma_le_div(0, nl * 1_000_000, 1_000_000_000);
        crate::arith::lemma_ceil_le(base_amount, nl * 1_000_000, 1_000_000_000);
        // What is left is a whole number of base units, so rounding it either way is exact.
        let excess = if base_amount <= ts - supply { 0 } else { base_amount - (ts - supply) };
        assert(nl == excess * 1000);
        vstd::arithmetic::div_mod::lemma_div_multiples_vanish(excess, 1_000_000_000);
        assert(nl * 1_000_000 == 1_000_000_000 * excess);
        assert((nl * 1_000_000) % 1_000_000_000 == 0) by {
            vstd::arithmetic::div_mod::lemma_mod_multiples_basic(excess, 1_000_000_000);
        }
    }

    /// The market's curves fit the interval functions.
    pub proof fn lemma_curves_ok(self)
        requires
            self.wf(),
        ensures
            curve_intervals_ok(self.bid_prices@, self.width_scaled as int),
            curve_intervals_ok(self.ask_prices@, self.width_scaled as int),
            0 < self.width_scaled <= max_width_scaled(),
    {
        lemma_bound_values();
        let ts = self.total_supply as int;
        assert(self.width_scaled == (ts / 10) * 1000) by {
            lemma_normalize_base(ts / 10);
        }
        if valid_curve(self.bid_prices@, self.ask_prices@) {
            assert forall|i: int| 0 < i < PRICES_LENGTH implies interval_ok(
                #[trigger] self.bid_prices@[i - 1] as int,
                self.bid_prices@[i] as int,
                self.width_scaled as int,
            ) by {
                lemma_increasing_le(self.ask_prices@, i, PRICES_LENGTH - 1);
                assert(self.bid_prices@[i - 1] < self.bid_prices@[i]);
                assert(self.bid_prices@[i] <= self.ask_prices@[i]);
            }
            assert forall|i: int| 0 < i < PRICES_LENGTH implies interval_ok(
                #[trigger] self.ask_prices@[i - 1] as int,
                self.ask_prices@[i] as int,
                self.width_scaled as int,
            ) by {
                lemma_increasing_le(self.ask_prices@, i, PRICES_LENGTH - 1);
                assert(self.ask_prices@[i - 1] < self.ask_prices@[i]);
            }
        } else {
            assert forall|i: int| 0 < i < PRICES_LENGTH implies interval_ok(
                #[trigger] self.bid_prices@[i - 1] as int,
                self.bid_prices@[i] as int,
                self.width_scaled as int,
            ) by {
                assert(self.bid_prices@[i - 1] == 0 && self.bid_prices@[i] == 0);
            }
            assert forall|i: int| 0 < i < PRICES_LENGTH implies interval_ok(
                #[trigger] self.ask_prices@[i - 1] as int,
                self.ask_prices@[i] as int,
                self.width_scaled as int,
            ) by {
                assert(self.ask_prices@[i - 1] == 0 && self.ask_prices@[i] == 0);
            }
        }
    }

    /// Whether the price curve was set.
    pub open spec fn prices_set(self) -> bool {
        self.ask_prices@[PRICES_LENGTH - 1] != 0
    }

    /// Creates a market holding its whole supply, with unset curves. Fails when the fee
    /// shares do not add up to 100% with the protocol's share, or the supply is not valid.
    pub fn initialize(
        quote_token_decimals: u8,
        total_supply: u64,
        creator_fee_share: u16,
        staking_fee_share: u16,
        protocol_fee_share: u16,
    ) -> (r: Result<Market, TokenMillError>)
        ensures
            creator_fee_share + staking_fee_share + protocol_fee_share != MAX_BPS ==> r
                == Err::<Market, TokenMillError>(TokenMillError::InvalidFeeShare),
            creator_fee_share + staking_fee_share + protocol_fee_share == MAX_BPS && !valid_total_supply(
                total_supply as int,
            ) ==> r == Err::<Market, TokenMillError>(TokenMillError::InvalidTotalSupply),
            creator_fee_share + staking_fee_share + protocol_fee_share == MAX_BPS && valid_total_supply(
                total_supply as int,
            ) ==> r is Ok,
            r matches Ok(m) ==> {
                &&& m.wf()
                &&& m.total_supply == total_supply
                &&& m.base_reserve == total_supply
                &&& m.quote_token_decimals == quote_token_decimals
                &&& m.fees.creator_fee_share == creator_fee_share
                &&& m.fees.staking_fee_share == staking_fee_share
                &&& m.fees.protocol_fee_share() == protocol_fee_share
                &&& m.fees.pending_creator_fees == 0
                &&& m.fees.pending_staking_fees == 0
                &&& !m.prices_set()
            },
    {
        if creator_fee_share as u32 + staking_fee_share as u32 + protocol_fee_share as u32 != MAX_BPS as u32 {
            return Err(TokenMillError::InvalidFeeShare);
        }
        if total_supply > MAX_TOTAL_SUPPLY || total_supply / INTERVAL_NUMBER < BASE_PRECISION
            || (total_supply / INTERVAL_NUMBER) * INTERVAL_NUMBER != total_supply {
            return Err(TokenMillError::InvalidTotalSupply);
        }
        let intervals_width = (total_supply / INTERVAL_NUMBER) as u128;
        let width_wide = intervals_width * SCALE / BASE_PRECISION as u128;
        assert(intervals_width <= 100_000_000_000_000);
        proof {
            vstd::arithmetic::div_mod::lemma_div_multiples_vanish(intervals_width * 1000, 1_000_000);
            assert(intervals_width * SCALE == 1_000_000 * (intervals_width * 1000));
        }
        assert(width_wide == intervals_width * 1000);
        let width_scaled = width_wide as u64;
        let m = Market {
            base_reserve: total_supply,
            bid_prices: [0u64; PRICES_LENGTH],
            ask_prices: [0u64; PRICES_LENGTH],
            width_scaled,
            total_supply,
            fees: MarketFees {
                staking_fee_share,
                creator_fee_share,
                pending_staking_fees: 0,
                pending_creator_fees: 0,
            },
            quote_token_decimals,
        };
        assert(all_zero(m.bid_prices@));
        assert(all_zero(m.ask_prices@));
        assert(valid_total_supply(total_supply as int));
        assert(m.width_scaled == width_scaled_of(total_supply as int));
        assert(m.fees.wf());
        assert(!m.prices_set());
        Ok(m)
    }

    /// Sets the bid and ask curves, once. Fails when they were set already, or when the
    /// curves break a rule: the first broken rule in breakpoint order, then a last ask
    /// price above `MAX_PRICE`.
    pub fn check_and_set_prices(&mut self, bid_prices: [u64; PRICES_LENGTH], ask_prices: [u64; PRICES_LENGTH]) -> (r:
        Result<(), TokenMillError>)
        requires
            old(self).wf(),
        ensures
            old(self).prices_set() ==> r == Err::<(), TokenMillError>(TokenMillError::PricesAlreadySet),
            !old(self).prices_set() ==> r == curve_check(bid_prices@, ask_prices@),
            r is Ok ==> valid_curve(bid_prices@, ask_prices@) && final(self).prices_set()
                && *final(self) == (Market { bid_prices, ask_prices, ..*old(self) }),
            r is Err ==> *final(self) == *old(self),
            final(self).wf(),
    {
        if self.are_prices_set() {
            return Err(TokenMillError::PricesAlreadySet);
        }
        let mut i: usize = 0;
        while i < PRICES_LENGTH
            invariant
                0 <= i <= PRICES_LENGTH,
                *self == *old(self),
                !self.prices_set(),
                self.wf(),
                curve_error_from(bid_prices@, ask_prices@, 0) == curve_error_from(
                    bid_prices@,
                    ask_prices@,
                    i as int,
                ),
            decreases PRICES_LENGTH - i,
        {
            let bid_price = bid_prices[i];
            let ask_price = ask_prices[i];
            if bid_price > ask_price {
                return Err(TokenMillError::BidAskMismatch);
            }
            if i > 0 && (ask_price <= ask_prices[i - 1] || bid_price <= bid_prices[i - 1]) {
                return Err(TokenMillError::DecreasingPrices);
            }
            i += 1;
        }
        if ask_prices[INTERVAL_NUMBER as usize] > MAX_PRICE {
            return Err(TokenMillError::PriceTooHigh);
        }
        proof {
            lemma_curve_check_ok(bid_prices@, ask_prices@);
            assert(ask_prices@[PRICES_LENGTH - 1] > ask_prices@[0]);
        }
        self.bid_prices = bid_prices;
        self.ask_prices = ask_prices;
        Ok(())
    }

    /// Whether the price curve was set.
    pub fn are_prices_set(&self) -> (r: bool)
        ensures
            r == self.prices_set(),
    {
        self.ask_prices[INTERVAL_NUMBER as usize] != 0
    }

    /// Walks `base_amount` forward along the bid curve (exact input) or the ask curve (exact
    /// output) from `supply`, interval by interval, summing each trapezoid's quote rounded as
    /// asked. Returns the base amount that the curve held before its last breakpoint and its
    /// quote in native units; fails when the quote does not fit.
    pub fn get_quote_amount_with_parameters(
        &self,
        supply: u64,
        base_amount: u64,
        swap_amount_type: SwapAmountType,
        rounding: Rounding,
    ) -> (r: Result<(u64, u64), TokenMillError>)
        requires
            self.wf(),
            supply <= self.total_supply,
        ensures
            r == self.quote_result(supply as int, base_amount as int, swap_amount_type, rounding),
            r matches Ok((b, q)) ==> b <= base_amount && b <= self.total_supply - supply,
            r matches Ok((b, q)) ==> b == if base_amount <= self.total_supply - supply {
                base_amount
            } else {
                (self.total_supply - supply) as u64
            },
    {
        proof {
            self.lemma_quote_result_bounds(supply as int, base_amount as int, swap_amount_type, rounding);
        }
        let price_curve = match swap_amount_type {
            SwapAmountType::ExactInput => &self.bid_prices,
            SwapAmountType::ExactOutput => &self.ask_prices,
        };
        let ghost curve = self.price_curve(swap_amount_type);
        let ghost ts = self.total_supply as int;
        proof {
            self.lemma_curves_ok();
            lemma_bound_values();
            lemma_normalize_base(supply as int);
            lemma_normalize_base(base_amount as int);
            lemma_normalize_base(ts / 10);
            assert(price_curve@ == curve);
        }
        let w = self.width_scaled as u128;
        let normalized_supply = supply as u128 * SCALE / BASE_PRECISION as u128;
        let mut normalized_base_amount_left = base_amount as u128 * SCALE / BASE_PRECISION as u128;
        let mut normalized_quote_amount: u128 = 0;
        proof {
            assert(normalized_supply <= 10 * w);
            vstd::arithmetic::div_mod::lemma_div_is_ordered(normalized_supply as int, 10 * w, w as int);
            vstd::arithmetic::div_mod::lemma_div_multiples_vanish(10, w as int);
            crate::arith::lemma_div_bounds(normalized_supply as int, w as int);
        }
        let mut i = (normalized_supply / w) as usize;
        let mut interval_supply_already_used = normalized_supply % w;
        let ghost i0 = i as int;
        let ghost u0 = interval_supply_already_used as int;
        let ghost l0 = normalized_base_amount_left as int;
        let mut price_0 = price_curve[i];
        i += 1;
        proof {
            vstd::arithmetic::div_mod::lemma_fundamental_div_mod(normalized_supply as int, w as int);
            assert(normalized_supply == w * i0 + u0);
            if i0 == 10 {
                assert(u0 == 0) by (nonlinear_arith)
                    requires
                        normalized_supply == w * i0 + u0,
                        i0 == 10,
                        normalized_supply <= 10 * w,
                        u0 >= 0,
                ;
            }
            lemma_quote_walk_bounds(curve, w as int, i as int, u0, l0, rounding);
        }
        while normalized_base_amount_left > 0 && i < PRICES_LENGTH
            invariant
                curve == price_curve@,
                curve.len() == PRICES_LENGTH,
                curve_intervals_ok(curve, w as int),
                0 < w <= max_width_scaled(),
                max_interval_quote() == 10_000_000_000_000_000_000,
                1 <= i <= PRICES_LENGTH,
                price_0 == curve[i - 1],
                0 <= interval_supply_already_used < w,
                normalized_base_amount_left <= l0,
                normalized_quote_amount <= (i - 1) * max_interval_quote(),
                quote_walk(curve, w as int, i0 + 1, u0, l0, rounding) == (
                    quote_walk(curve, w as int, i as int, interval_supply_already_used as int, normalized_base_amount_left as int, rounding).0,
                    normalized_quote_amount + quote_walk(curve, w as int, i as int, interval_supply_already_used as int, normalized_base_amount_left as int, rounding).1,
                ),
            decreases PRICES_LENGTH - i,
        {
            let price_1 = price_curve[i];
            let room = w - interval_supply_already_used;
            let delta_base = if normalized_base_amount_left < room {
                normalized_base_amount_left
            } else {
                room
            };
            let ghost used = interval_supply_already_used as int;
            proof {
                assert(interval_ok(curve[i - 1] as int, curve[i as int] as int, w as int));
                lemma_trapezoid_bounds(price_0 as int, price_1 as int, w as int, used, delta_base as int, rounding);
                crate::math::lemma_mul_bound((price_1 - price_0) as int, delta_base + 2 * used, MAX_PRICE as int, 2 * max_width_scaled());
                crate::math::lemma_mul_bound(2 * price_0, w as int, 2 * MAX_PRICE, max_width_scaled());
                crate::math::lemma_mul_bound(2 * SCALE, w as int, 2 * SCALE, max_width_scaled());
                assert(normalized_quote_amount + max_interval_quote() <= i * max_interval_quote()) by (nonlinear_arith)
                    requires
                        normalized_quote_amount <= (i - 1) * max_interval_quote(),
                ;
                assert(i * max_interval_quote() <= PRICES_LENGTH * max_interval_quote()) by (nonlinear_arith)
                    requires
                        i <= PRICES_LENGTH,
                        max_interval_quote() >= 0,
                ;
            }
            let delta_quote = match mul_div(
                delta_base,
                (price_1 - price_0) as u128 * (delta_base + 2 * interval_supply_already_used) + 2
                    * price_0 as u128 * w,
                2 * SCALE * w,
                rounding,
            ) {
                Some(q) => q,
                None => {
                    return Err(TokenMillError::MathError);
                },
            };
            normalized_base_amount_left = normalized_base_amount_left - delta_base;
            normalized_quote_amount = normalized_quote_amount + delta_quote;
            interval_supply_already_used = 0;
            price_0 = price_1;
            i += 1;
        }
        let ghost walk = quote_walk(curve, w as int, i0 + 1, u0, l0, rounding);
        proof {
            assert(walk.0 == normalized_base_amount_left);
            assert(walk.1 == normalized_quote_amount);
            let nl = normalized_base_amount_left as int;
            lemma_rounded_div_bounds(nl * 1_000_000, 1_000_000_000, rounding);
            lemma_rounded_div_bounds(nl * 1_000_000, 1_000_000_000, Rounding::Down);
            vstd::arithmetic::div_mod::lemma_div_multiples_vanish(nl, 1_000_000);
            // The curve past `supply` holds (total - supply) base units, so at least the rest is left.
            assert(l0 - nl <= (PRICES_LENGTH - 1 - (i0 + 1)) * w + w - u0);
            assert((PRICES_LENGTH - 1 - (i0 + 1)) * w + w - u0 == 10 * w - normalized_supply) by (nonlinear_arith)
                requires
                    normalized_supply == w * i0 + u0,
                    PRICES_LENGTH == 11,
            ;
            if base_amount as int > ts - supply {
                lemma_le_div(base_amount - (ts - supply), nl * 1_000_000, 1_000_000_000);
            }
            lemma_le_div(0, nl * 1_000_000, 1_000_000_000);
            crate::arith::lemma_ceil_le(base_amount as int, nl * 1_000_000, 1_000_000_000);
        }
        let base_back = div(normalized_base_amount_left * BASE_PRECISION as u128, SCALE, rounding)?;
        let base_amount_swapped = base_amount - base_back;
        let precision = match quote_precision(self.quote_token_decimals) {
            Some(p) => p,
            None => {
                return Err(TokenMillError::MathError);
            },
        };
        proof {
            lemma_pow10_monotonic(0, self.quote_token_decimals as nat);
            assert(precision as int == pow10(self.quote_token_decimals as nat));
            assert(walk.1 * pow10(self.quote_token_decimals as nat) == normalized_quote_amount * precision);
        }
        let scaled_quote = match normalized_quote_amount.checked_mul(precision) {
            Some(v) => v,
            None => {
                return Err(TokenMillError::MathError);
            },
        };
        let quote_amount_swapped = div(scaled_quote, SCALE, rounding)?;
        Ok((base_amount_swapped, quote_amount_swapped))
    }

    /// The base amount and quote of a curve walk over `base_amount`: exact input prices
    /// selling it back from the circulating supply along the bids, rounding down; exact
    /// output prices buying it from there along the asks, rounding up.
    pub fn get_quote_amount(&self, base_amount: u64, swap_amount_type: SwapAmountType) -> (r: Result<(u64, u64), TokenMillError>)
        requires
            self.wf(),
            swap_amount_type == SwapAmountType::ExactInput ==> base_amount <= self.circulating(),
        ensures
            swap_amount_type == SwapAmountType::ExactInput ==> r == self.quote_result(
                self.circulating() - base_amount,
                base_amount as int,
                swap_amount_type,
                Rounding::Down,
            ),
            swap_amount_type == SwapAmountType::ExactOutput ==> r == self.quote_result(
                self.circulating(),
                base_amount as int,
                swap_amount_type,
                Rounding::Up,
            ),
            r matches Ok((b, q)) ==> b <= base_amount,
            swap_amount_type == SwapAmountType::ExactOutput ==> (r matches Ok((b, q)) ==> b == if base_amount
                <= self.base_reserve {
                base_amount
            } else {
                self.base_reserve
            }),
    {
        let circulating_supply = self.circulating_supply();
        let (supply, rounding) = match swap_amount_type {
            SwapAmountType::ExactInput => (circulating_supply - base_amount, Rounding::Down),
            SwapAmountType::ExactOutput => (circulating_supply, Rounding::Up),
        };
        self.get_quote_amount_with_parameters(supply, base_amount, swap_amount_type, rounding)
    }

    /// Buying with `quote_amount` along the ask curve from the circulating supply: the base
    /// it buys, rounded down, and the part of the quote that it takes; buying stops at the
    /// last breakpoint.
    pub fn get_base_amount_out(&self, quote_amount: u64) -> (r: Result<(u64, u64), TokenMillError>)
        requires
            self.wf(),
        ensures
            r == self.base_out_result(quote_amount as int),
            r matches Ok((b, q)) ==> b <= self.base_reserve && q <= quote_amount,
            r matches Ok((b, q)) ==> (self.quote_result(
                self.circulating(),
                b as int,
                SwapAmountType::ExactOutput,
                Rounding::Up,
            ) matches Ok((b2, q2)) && q2 <= q),
    {
        proof {
            self.lemma_buy_charges_ask_value(quote_amount as int);
        }
        let price_curve = &self.ask_prices;
        let ghost curve = self.ask_prices@;
        let ghost ts = self.total_supply as int;
        let circulating_supply = self.circulating_supply();
        proof {
            self.lemma_curves_ok();
            lemma_bound_values();
            lemma_normalize_base(circulating_supply as int);
            lemma_normalize_base(ts / 10);
        }
        let w = self.width_scaled as u128;
        let normalized_supply = circulating_supply as u128 * SCALE / BASE_PRECISION as u128;
        let quote_precision = match quote_precision(self.quote_token_decimals) {
            Some(p) => p,
            None => {
                return Err(TokenMillError::MathError);
            },
        };
        proof {
            lemma_pow10_monotonic(0, self.quote_token_decimals as nat);
            crate::arith::lemma_div_bounds(quote_amount as int * SCALE as int, quote_precision as int);
            assert(normalized_supply <= 10 * w);
            vstd::arithmetic::div_mod::lemma_div_is_ordered(normalized_supply as int, 10 * w, w as int);
            vstd::arithmetic::div_mod::lemma_div_multiples_vanish(10, w as int);
            vstd::arithmetic::div_mod::lemma_fundamental_div_mod(normalized_supply as int, w as int);
            crate::arith::lemma_div_bounds(normalized_supply as int, w as int);
            crate::arith::lemma_le_div(0, quote_amount as int * SCALE as int, quote_precision as int);
        }
        let mut normalized_quote_amount_left = quote_amount as u128 * SCALE / quote_precision;
        let mut normalized_base_amount: u128 = 0;
        let mut i = (normalized_supply / w) as usize;
        let mut interval_supply_already_used = normalized_supply % w;
        let ghost i0 = i as int;
        let ghost u0 = interval_supply_already_used as int;
        let ghost l0 = normalized_quote_amount_left as int;
        proof {
            assert(normalized_supply == w * i0 + u0);
            if i0 == 10 {
                assert(u0 == 0) by (nonlinear_arith)
                    requires
                        normalized_supply == w * i0 + u0,
                        i0 == 10,
                        normalized_supply <= 10 * w,
                        u0 >= 0,
                ;
            }
        }
        let mut price_0 = price_curve[i];
        while normalized_quote_amount_left > 0 && i < PRICES_LENGTH - 1
            invariant
                curve == price_curve@,
                curve.len() == PRICES_LENGTH,
                curve_intervals_ok(curve, w as int),
                0 < w <= max_width_scaled(),
                0 <= i <= PRICES_LENGTH - 1,
                max_width_scaled() == 100_000_000_000_000_000,
                price_0 == curve[i as int],
                0 <= interval_supply_already_used < w,
                i * w + interval_supply_already_used <= 10 * w,
                normalized_supply + normalized_base_amount <= i * w + interval_supply_already_used,
                normalized_quote_amount_left <= l0,
                base_out_walk(curve, w as int, i0, u0, l0) == (
                    base_out_walk(curve, w as int, i as int, interval_supply_already_used as int, normalized_quote_amount_left as int).0,
                    normalized_base_amount + base_out_walk(curve, w as int, i as int, interval_supply_already_used as int, normalized_quote_amount_left as int).1,
                ),
            decreases PRICES_LENGTH - i,
        {
            let price_1 = price_curve[i + 1];
            proof {
                assert(interval_ok(curve[(i + 1) - 1] as int, curve[(i + 1) as int] as int, w as int));
            }
            let (delta_base, delta_quote) = get_delta_base_out(
                price_0 as u128,
                price_1 as u128,
                w,
                interval_supply_already_used,
                normalized_quote_amount_left,
            )?;
            proof {
                assert((i + 1) * w == i * w + w) by (nonlinear_arith);
                assert((i + 1) * w <= 10 * w) by (nonlinear_arith)
                    requires
                        i + 1 <= 10,
                        w > 0,
                ;
                assert(normalized_base_amount + delta_base <= 10 * w);
            }
            normalized_base_amount = normalized_base_amount + delta_base;
            normalized_quote_amount_left = normalized_quote_amount_left - delta_quote;
            interval_supply_already_used = 0;
            price_0 = price_1;
            i += 1;
        }
        let ghost walk = base_out_walk(curve, w as int, i0, u0, l0);
        proof {
            assert(walk.0 == normalized_quote_amount_left);
            assert(walk.1 == normalized_base_amount);
            let nb = normalized_base_amount as int;
            assert(nb <= 10 * w - normalized_supply);
            assert(10 * w - normalized_supply == (ts - circulating_supply) * 1000);
            lemma_le_div(0, nb * 1_000_000, 1_000_000_000);
            crate::arith::lemma_div_bounds(nb * 1_000_000, 1_000_000_000);
            assert((nb * 1_000_000) / 1_000_000_000 <= ts - circulating_supply) by (nonlinear_arith)
                requires
                    1_000_000_000 * ((nb * 1_000_000) / 1_000_000_000) <= nb * 1_000_000,
                    nb <= (ts - circulating_supply) * 1000,
            ;
            let nl = normalized_quote_amount_left as int;
            assert(nl * quote_precision <= quote_amount as int * SCALE as int) by (nonlinear_arith)
                requires
                    nl <= l0,
                    quote_precision * l0 <= quote_amount as int * SCALE as int,
                    quote_precision >= 1,
            {
                assert(nl * quote_precision <= l0 * quote_precision);
            }
            lemma_le_div(0, nl * quote_precision, SCALE as int);
            crate::arith::lemma_div_bounds(nl * quote_precision, SCALE as int);
            assert((nl * quote_precision) / (SCALE as int) <= quote_amount) by (nonlinear_arith)
                requires
                    (SCALE as int) * ((nl * quote_precision) / (SCALE as int)) <= nl * quote_precision,
                    nl * quote_precision <= quote_amount as int * SCALE as int,
                    SCALE > 0,
            ;
        }
        let base_amount_swapped = div(normalized_base_amount * BASE_PRECISION as u128, SCALE, Rounding::Down)?;
        let quote_back = div(normalized_quote_amount_left * quote_precision, SCALE, Rounding::Down)?;
        let quote_amount_swapped = quote_amount - quote_back;
        Ok((base_amount_swapped, quote_amount_swapped))
    }

    /// Selling for `quote_amount` along the bid curve down from the circulating supply: the
    /// base it takes, rounded up, and the part of the quote paid out; selling stops at the
    /// first breakpoint.
    pub fn get_base_amount_in(&self, quote_amount: u64) -> (r: Result<(u64, u64), TokenMillError>)
        requires
            self.wf(),
        ensures
            r == self.base_in_result(quote_amount as int),
            r matches Ok((b, q)) ==> b <= self.circulating() && q <= quote_amount,
    {
        let price_curve = &self.bid_prices;
        let ghost curve = self.bid_prices@;
        let ghost ts = self.total_supply as int;
        let circulating_supply = self.circulating_supply();
        proof {
            self.lemma_curves_ok();
            lemma_bound_values();
            lemma_normalize_base(circulating_supply as int);
            lemma_normalize_base(ts / 10);
        }
        let w = self.width_scaled as u128;
        let normalized_supply = circulating_supply as u128 * SCALE / BASE_PRECISION as u128;
        let quote_precision = match quote_precision(self.quote_token_decimals) {
            Some(p) => p,
            None => {
                return Err(TokenMillError::MathError);
            },
        };
        proof {
            lemma_pow10_monotonic(0, self.quote_token_decimals as nat);
            crate::arith::lemma_div_bounds(quote_amount as int * SCALE as int, quote_precision as int);
            assert(normalized_supply <= 10 * w);
            vstd::arithmetic::div_mod::lemma_div_is_ordered(normalized_supply as int, 10 * w, w as int);
            vstd::arithmetic::div_mod::lemma_div_multiples_vanish(10, w as int);
            vstd::arithmetic::div_mod::lemma_fundamental_div_mod(normalized_supply as int, w as int);
            crate::arith::lemma_div_bounds(normalized_supply as int, w as int);
            crate::arith::lemma_le_div(0, quote_amount as int * SCALE as int, quote_precision as int);
        }
        let mut normalized_quote_amount_left = quote_amount as u128 * SCALE / quote_precision;
        let mut normalized_base_amount: u128 = 0;
        let mut i = (normalized_supply / w) as usize;
        let mut interval_supply_available = normalized_supply % w;
        proof {
            assert(normalized_supply == w * i + interval_supply_available);
            if i == 10 {
                assert(interval_supply_available == 0) by (nonlinear_arith)
                    requires
                        normalized_supply == w * i + interval_supply_available,
                        i == 10,
                        normalized_supply <= 10 * w,
                        interval_supply_available >= 0,
                ;
            }
        }
        if interval_supply_available == 0 {
            interval_supply_available = w;
        } else {
            i += 1;
        }
        let ghost i0 = i as int;
        let ghost a0 = interval_supply_available as int;
        let ghost l0 = normalized_quote_amount_left as int;
        proof {
            assert((i0 - 1) * w + a0 == normalized_supply) by (nonlinear_arith)
                requires
                    normalized_supply == w * (normalized_supply / w) + normalized_supply % w,
                    (normalized_supply % w == 0 && i0 == normalized_supply / w && a0 == w)
                        || (normalized_supply % w != 0 && i0 == normalized_supply / w + 1 && a0 == normalized_supply % w),
            ;
        }
        let mut price_1 = price_curve[i];
        while normalized_quote_amount_left > 0 && i > 0
            invariant
                curve == price_curve@,
                curve.len() == PRICES_LENGTH,
                curve_intervals_ok(curve, w as int),
                0 < w <= max_width_scaled(),
                0 <= i <= PRICES_LENGTH - 1,
                price_1 == curve[i as int],
                0 < interval_supply_available <= w,
                i == 0 ==> interval_supply_available == w,
                normalized_base_amount + (i - 1) * w + interval_supply_available <= normalized_supply,
                normalized_quote_amount_left <= l0,
                base_in_walk(curve, w as int, i0, a0, l0) == (
                    base_in_walk(curve, w as int, i as int, interval_supply_available as int, normalized_quote_amount_left as int).0,
                    normalized_base_amount + base_in_walk(curve, w as int, i as int, interval_supply_available as int, normalized_quote_amount_left as int).1,
                ),
            decreases i,
        {
            let price_0 = price_curve[i - 1];
            proof {
                assert(interval_ok(curve[i - 1] as int, curve[i as int] as int, w as int));
            }
            let (delta_base, delta_quote) = get_delta_base_in(
                price_0 as u128,
                price_1 as u128,
                w,
                interval_supply_available,
                normalized_quote_amount_left,
            )?;
            proof {
                assert((i - 1) * w == (i - 2) * w + w) by (nonlinear_arith);
            }
            normalized_base_amount = normalized_base_amount + delta_base;
            normalized_quote_amount_left = normalized_quote_amount_left - delta_quote;
            interval_supply_available = w;
            price_1 = price_0;
            i -= 1;
        }
        let ghost walk = base_in_walk(curve, w as int, i0, a0, l0);
        proof {
            assert(walk.0 == normalized_quote_amount_left);
            assert(walk.1 == normalized_base_amount);
            let nb = normalized_base_amount as int;
            if i > 0 {
                assert((i - 1) * w >= 0) by (nonlinear_arith)
                    requires
                        i >= 1,
                        w > 0,
                ;
            } else {
                assert((i - 1) * w == -w) by (nonlinear_arith)
                    requires
                        i == 0,
                ;
            }
            assert(nb <= circulating_supply as int * 1000);
            crate::arith::lemma_ceil_le(circulating_supply as int, nb * 1_000_000, 1_000_000_000);
            lemma_rounded_div_bounds(nb * 1_000_000, 1_000_000_000, Rounding::Up);
            let nl = normalized_quote_amount_left as int;
            assert(nl * quote_precision <= quote_amount as int * SCALE as int) by (nonlinear_arith)
                requires
                    nl <= l0,
                    quote_precision * l0 <= quote_amount as int * SCALE as int,
                    quote_precision >= 1,
            {
                assert(nl * quote_precision <= l0 * quote_precision);
            }
            crate::arith::lemma_ceil_le(quote_amount as int, nl * quote_precision, SCALE as int);
            lemma_rounded_div_bounds(nl * quote_precision, SCALE as int, Rounding::Up);
        }
        let base_amount_swapped = div(normalized_base_amount * BASE_PRECISION as u128, SCALE, Rounding::Up)?;
        let quote_back = div(normalized_quote_amount_left * quote_precision, SCALE, Rounding::Up)?;
        let quote_amount_swapped = quote_amount - quote_back;
        Ok((base_amount_swapped, quote_amount_swapped))
    }

    /// Base tokens in circulation: the total supply less the reserve.
    pub fn circulating_supply(&self) -> (r: u64)
        requires
            self.base_reserve <= self.total_supply,
        ensures
            r == self.circulating(),
    {
        self.total_supply - self.base_reserve
    }
}

} // verus!
