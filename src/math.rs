use vstd::prelude::*;

use crate::arith::{
    lemma_ceil_le, lemma_div_bounds, lemma_le_div, lemma_rounded_div_bounds,
    lemma_rounded_div_monotonic,
};
use crate::constant::{BASE_PRECISION, INTERVAL_NUMBER, MAX_PRICE, MAX_TOTAL_SUPPLY, SCALE};
use crate::errors::TokenMillError;
use crate::wide::{
    lemma_wide_bounded, limb_base, wide_checked_add, wide_checked_mul, wide_div_ceil,
    wide_div_floor, wide_from_u128, wide_modulus, wide_sqrt, wide_to_u128,
};

verus! {

/// Direction in which a division is rounded.
#[derive(Debug, Clone, Copy, PartialEq, Eq, Structural)]
pub enum Rounding {
    Up,
    Down,
}

/// `n / d` rounded in the given direction.
pub open spec fn rounded_div(n: int, d: int, rounding: Rounding) -> int {
    match rounding {
        Rounding::Down => n / d,
        Rounding::Up => if n % d == 0 { n / d } else { n / d + 1 },
    }
}

/// Divides `a` by `b`, rounding as asked; fails when the quotient does not fit in a `u64`.
pub fn div(a: u128, b: u128, rounding: Rounding) -> (r: Result<u64, TokenMillError>)
    requires
        b > 0,
    ensures
        rounded_div(a as int, b as int, rounding) <= u64::MAX ==> r == Ok::<u64, TokenMillError>(
            rounded_div(a as int, b as int, rounding) as u64,
        ),
        rounded_div(a as int, b as int, rounding) > u64::MAX ==> r == Err::<u64, TokenMillError>(
            TokenMillError::MathError,
        ),
{
    let quotient = a / b;
    let remainder = a % b;
    if quotient > u64::MAX as u128 {
        return Err(TokenMillError::MathError);
    }
    let q = quotient as u64;
    if rounding == Rounding::Up && remainder != 0 {
        if q == u64::MAX {
            return Err(TokenMillError::MathError);
        }
        Ok(q + 1)
    } else {
        Ok(q)
    }
}

/// `r` is the floor of the square root of `n`.
pub open spec fn is_floor_sqrt(r: int, n: int) -> bool {
    0 <= r && r * r <= n < (r + 1) * (r + 1)
}

/// The floor of the square root of `n`.
pub open spec fn floor_sqrt(n: int) -> int {
    choose|r: int| is_floor_sqrt(r, n)
}

/// Every non-negative integer has a floor square root.
pub proof fn lemma_floor_sqrt_exists(n: int)
    requires
        n >= 0,
    ensures
        is_floor_sqrt(floor_sqrt(n), n),
    decreases n,
{
    if n == 0 {
        assert(is_floor_sqrt(0, 0));
    } else {
        lemma_floor_sqrt_exists(n - 1);
        let r = floor_sqrt(n - 1);
        if (r + 1) * (r + 1) <= n {
            assert(n < (r + 2) * (r + 2)) by (nonlinear_arith)
                requires
                    n - 1 < (r + 1) * (r + 1),
                    r >= 0,
            ;
            assert(is_floor_sqrt(r + 1, n));
        } else {
            assert(is_floor_sqrt(r, n));
        }
    }
}

/// A floor square root is unique, so it is `floor_sqrt`.
pub proof fn lemma_floor_sqrt_unique(r: int, n: int)
    requires
        is_floor_sqrt(r, n),
    ensures
        floor_sqrt(n) == r,
{
    let s = floor_sqrt(n);
    assert(is_floor_sqrt(s, n));
    if s < r {
        assert((s + 1) * (s + 1) <= r * r) by (nonlinear_arith)
            requires
                0 <= s,
                s + 1 <= r,
        ;
    } else if r < s {
        assert((r + 1) * (r + 1) <= s * s) by (nonlinear_arith)
            requires
                0 <= r,
                r + 1 <= s,
        ;
    }
}

proof fn lemma_u128_product_is_wide(x: u128, y: u128)
    ensures
        (x as nat) * (y as nat) < wide_modulus(),
{
    let b = limb_base() as int;
    assert((x as int) * (y as int) < b * b * b * b) by (nonlinear_arith)
        requires
            0 <= x < b * b,
            0 <= y < b * b,
            b > 0,
    {
        assert((x as int) * (y as int) <= (x as int) * (b * b - 1));
        assert((x as int) * (b * b - 1) <= (b * b - 1) * (b * b - 1));
    }
}

/// `x * y / denominator` rounded as asked, computed over 256 bits; `None` when the
/// denominator is zero or the quotient does not fit in a `u128`.
pub fn mul_div(x: u128, y: u128, denominator: u128, rounding: Rounding) -> (r: Option<u128>)
    ensures
        denominator == 0 ==> r is None,
        denominator > 0 && rounded_div(x * y, denominator as int, rounding) <= u128::MAX ==> r
            == Some(rounded_div(x * y, denominator as int, rounding) as u128),
        denominator > 0 && rounded_div(x * y, denominator as int, rounding) > u128::MAX ==> r is None,
{
    if denominator == 0 {
        return None;
    }
    let wx = wide_from_u128(x);
    let wy = wide_from_u128(y);
    let wd = wide_from_u128(denominator);
    proof {
        lemma_u128_product_is_wide(x, y);
    }
    let prod = match wide_checked_mul(wx, wy) {
        Some(p) => p,
        None => {
            return None;
        },
    };
    let quotient = match rounding {
        Rounding::Up => wide_div_ceil(prod, wd),
        Rounding::Down => wide_div_floor(prod, wd),
    };
    wide_to_u128(quotient)
}

/// The discriminant of the quadratic that inverts a partial-interval integral:
/// `width_scaled * price_diff * current_quote * 2 * SCALE + (price_0 * width_scaled)^2`.
pub open spec fn discriminant(price_diff: int, price_0: int, width_scaled: int, current_quote: int) -> int {
    (width_scaled * price_diff) * (current_quote * 2 * SCALE) + (price_0 * width_scaled) * (
    price_0 * width_scaled)
}

/// The floor of the square root of the discriminant; fails when the discriminant
/// does not fit in 256 bits.
pub fn get_sqrt_discriminant(price_diff: u128, price_0: u128, width_scaled: u128, current_quote: u128) -> (r: Result<u128, TokenMillError>)
    requires
        width_scaled * price_diff <= u128::MAX,
        current_quote * 2 * SCALE <= u128::MAX,
        price_0 * width_scaled <= u128::MAX,
    ensures
        discriminant(price_diff as int, price_0 as int, width_scaled as int, current_quote as int)
            < wide_modulus() ==> r is Ok && is_floor_sqrt(
            r->Ok_0 as int,
            discriminant(price_diff as int, price_0 as int, width_scaled as int, current_quote as int),
        ),
        discriminant(price_diff as int, price_0 as int, width_scaled as int, current_quote as int)
            >= wide_modulus() ==> r == Err::<u128, TokenMillError>(TokenMillError::MathError),
{
    let a = width_scaled * price_diff;
    let b = current_quote * 2 * SCALE;
    let c = price_0 * width_scaled;
    proof {
        lemma_u128_product_is_wide(a, b);
        lemma_u128_product_is_wide(c, c);
    }
    let dl = match wide_checked_mul(wide_from_u128(a), wide_from_u128(b)) {
        Some(p) => p,
        None => {
            return Err(TokenMillError::MathError);
        },
    };
    let dr = match wide_checked_mul(wide_from_u128(c), wide_from_u128(c)) {
        Some(p) => p,
        None => {
            return Err(TokenMillError::MathError);
        },
    };
    let d = match wide_checked_add(dl, dr) {
        Some(s) => s,
        None => {
            return Err(TokenMillError::MathError);
        },
    };
    let root = wide_sqrt(d);
    proof {
        lemma_wide_bounded(d);
        let rv = root.value() as int;
        let m = limb_base() as int;
        assert(rv <= u128::MAX) by (nonlinear_arith)
            requires
                rv * rv < m * m * m * m,
                rv >= 0,
                m == 0x1_0000_0000_0000_0000int,
        {
            if rv >= m * m {
                assert(rv * rv >= (m * m) * (m * m));
            }
        }
    }
    match wide_to_u128(root) {
        Some(v) => Ok(v),
        None => Err(TokenMillError::MathError),
    }
}

/// The widest normalized interval that a market can have.
pub open spec fn max_width_scaled() -> int {
    (MAX_TOTAL_SUPPLY as int / INTERVAL_NUMBER as int) * (SCALE as int / BASE_PRECISION as int)
}

/// The values of the bounds, for the arithmetic that relies on them.
pub proof fn lemma_bound_values()
    ensures
        max_width_scaled() == 100_000_000_000_000_000,
        max_interval_quote() == 10_000_000_000_000_000_000,
        wide_modulus() == 115792089237316195423570985008687907853269984665640564039457584007913129639936nat,
{
    assert(MAX_TOTAL_SUPPLY as int / INTERVAL_NUMBER as int == 100_000_000_000_000);
    assert(SCALE as int / BASE_PRECISION as int == 1000);
    let b = limb_base() as int;
    assert(b * b == 340282366920938463463374607431768211456int);
    assert(b * b * b == 6277101735386680763835789423207666416102355444464034512896int);
    assert(b * b * b * b == 115792089237316195423570985008687907853269984665640564039457584007913129639936int);
}

/// The prices and width that the interval functions accept: a positive width, prices
/// in order up to `MAX_PRICE`, and a rising price unless the interval is all zero.
pub open spec fn interval_ok(price_0: int, price_1: int, width_scaled: int) -> bool {
    &&& 0 < width_scaled <= max_width_scaled()
    &&& 0 <= price_0 <= price_1 <= MAX_PRICE
    &&& (price_0 < price_1 || price_1 == 0)
}

/// `2 * SCALE * width_scaled` times the normalized quote of `d` units of an interval
/// whose price runs linearly from `price_0` to `price_1`, taken `used` units into it:
/// the trapezoid area, before its single division.
pub open spec fn trapezoid(price_0: int, price_1: int, width_scaled: int, used: int, d: int) -> int {
    d * ((price_1 - price_0) * (d + 2 * used) + 2 * price_0 * width_scaled)
}

/// The normalized quote of `d` units of an interval taken `used` units into it, rounded as asked.
pub open spec fn interval_quote(
    price_0: int,
    price_1: int,
    width_scaled: int,
    used: int,
    d: int,
    rounding: Rounding,
) -> int {
    rounded_div(trapezoid(price_0, price_1, width_scaled, used, d), 2 * SCALE * width_scaled, rounding)
}

/// The largest normalized quote of a single interval.
pub open spec fn max_interval_quote() -> int {
    MAX_PRICE * max_width_scaled() / SCALE as int
}

/// The trapezoid is non-negative and at most `2 * d * price_1 * width_scaled`,
/// so its quote is at most `max_interval_quote()`.
pub proof fn lemma_trapezoid_bounds(
    price_0: int,
    price_1: int,
    width_scaled: int,
    used: int,
    d: int,
    rounding: Rounding,
)
    requires
        interval_ok(price_0, price_1, width_scaled),
        0 <= used,
        0 <= d,
        used + d <= width_scaled,
    ensures
        0 <= trapezoid(price_0, price_1, width_scaled, used, d) <= 2 * d * price_1 * width_scaled,
        (price_1 - price_0) * (d + 2 * used) + 2 * price_0 * width_scaled <= 2 * MAX_PRICE * max_width_scaled(),
        0 <= interval_quote(price_0, price_1, width_scaled, used, d, rounding) <= max_interval_quote(),
{
    let pd = price_1 - price_0;
    let w = width_scaled;
    let inner = pd * (d + 2 * used) + 2 * price_0 * w;
    assert(0 <= inner <= 2 * price_1 * w) by (nonlinear_arith)
        requires
            0 <= price_0 <= price_1,
            pd == price_1 - price_0,
            0 <= used,
            0 <= d,
            used + d <= w,
            inner == pd * (d + 2 * used) + 2 * price_0 * w,
    {
        assert(pd * (d + 2 * used) <= pd * (2 * w));
    }
    assert(2 * price_1 * w <= 2 * MAX_PRICE * max_width_scaled()) by (nonlinear_arith)
        requires
            0 <= price_1 <= MAX_PRICE,
            0 < w <= max_width_scaled(),
    ;
    assert(0 <= d * inner <= 2 * d * price_1 * w) by (nonlinear_arith)
        requires
            0 <= inner <= 2 * price_1 * w,
            0 <= d,
    ;
    let den = 2 * SCALE * w;
    assert(den > 0) by (nonlinear_arith)
        requires
            w > 0,
            den == 2 * SCALE * w,
    ;
    assert(d * inner <= max_interval_quote() * den) by (nonlinear_arith)
        requires
            0 <= d * inner <= 2 * d * price_1 * w,
            0 <= d <= max_width_scaled(),
            0 <= price_1 <= MAX_PRICE,
            w > 0,
            den == 2 * SCALE * w,
            max_interval_quote() * SCALE == MAX_PRICE * max_width_scaled(),
    {
        assert(d * price_1 <= max_width_scaled() * MAX_PRICE);
        assert(2 * d * price_1 * w <= 2 * (max_width_scaled() * MAX_PRICE) * w);
    }
    lemma_ceil_le(max_interval_quote(), d * inner, den);
    lemma_rounded_div_bounds(d * inner, den, Rounding::Down);
    lemma_rounded_div_bounds(d * inner, den, rounding);
}

/// Products of bounded non-negative factors are bounded.
pub proof fn lemma_mul_bound(a: int, b: int, ma: int, mb: int)
    requires
        0 <= a <= ma,
        0 <= b <= mb,
    ensures
        0 <= a * b <= ma * mb,
{
    assert(0 <= a * b <= ma * mb) by (nonlinear_arith)
        requires
            0 <= a <= ma,
            0 <= b <= mb,
    {
        assert(a * b <= ma * b);
    }
}

/// `(p0 * w + pd * a)^2 == (p0 * w)^2 + pd * a * (pd * a + 2 * p0 * w)`.
proof fn lemma_square_expansion(p0: int, pd: int, w: int, a: int)
    ensures
        (p0 * w + pd * a) * (p0 * w + pd * a) == (p0 * w) * (p0 * w) + pd * (a * (pd * a + 2 * p0
            * w)),
{
    assert((p0 * w + pd * a) * (p0 * w + pd * a) == (p0 * w) * (p0 * w) + pd * (a * (pd * a + 2
        * p0 * w))) by (nonlinear_arith);
}

/// `s * s <= t * t` with both non-negative gives `s <= t`; `t * t <= n < (s + 1)^2` gives `t <= s`.
proof fn lemma_root_order(s: int, t: int, n: int)
    requires
        is_floor_sqrt(s, n),
        t >= 0,
    ensures
        n <= t * t ==> s <= t,
        t * t <= n ==> t <= s,
{
    if n <= t * t && s > t {
        assert(s * s > t * t) by (nonlinear_arith)
            requires
                s > t,
                t >= 0,
        ;
    }
    if t * t <= n && t > s {
        assert(t * t >= (s + 1) * (s + 1)) by (nonlinear_arith)
            requires
                t >= s + 1,
                s >= 0,
        ;
    }
}

/// A trapezoid taken `used` units into an interval is the prefix up to its end less the
/// prefix up to its start.
pub proof fn lemma_trapezoid_split(price_0: int, price_1: int, w: int, used: int, d: int)
    ensures
        trapezoid(price_0, price_1, w, used, d) == trapezoid(price_0, price_1, w, 0, used + d)
            - trapezoid(price_0, price_1, w, 0, used),
{
    assert(d * ((price_1 - price_0) * (d + 2 * used) + 2 * price_0 * w) == (used + d) * ((price_1 - price_0)
        * (used + d + 2 * 0) + 2 * price_0 * w) - used * ((price_1 - price_0) * (used + 2 * 0) + 2
        * price_0 * w)) by (nonlinear_arith);
}

/// A prefix of `x` units whose end, `p0 * w + pd * x`, is at most the floor root of the
/// discriminant for quote `q` costs at most `q`.
proof fn lemma_prefix_below_root(p0: int, pd: int, w: int, x: int, s: int, q: int)
    requires
        p0 >= 0,
        pd > 0,
        w > 0,
        x >= 0,
        0 <= p0 * w + pd * x <= s,
        is_floor_sqrt(s, discriminant(pd, p0, w, q)),
    ensures
        trapezoid(p0, p0 + pd, w, 0, x) <= 2 * SCALE * w * q,
{
    let e = p0 * w + pd * x;
    assert(e * e <= s * s) by (nonlinear_arith)
        requires
            0 <= e <= s,
    ;
    lemma_square_expansion(p0, pd, w, x);
    let tx = trapezoid(p0, p0 + pd, w, 0, x);
    assert(tx == x * (pd * x + 2 * p0 * w)) by (nonlinear_arith)
        requires
            tx == x * ((p0 + pd - p0) * (x + 2 * 0) + 2 * p0 * w),
    ;
    assert(pd * tx <= pd * (2 * SCALE * w * q)) by (nonlinear_arith)
        requires
            e * e == (p0 * w) * (p0 * w) + pd * (x * (pd * x + 2 * p0 * w)),
            tx == x * (pd * x + 2 * p0 * w),
            e * e <= s * s,
            s * s <= (w * pd) * (q * 2 * SCALE) + (p0 * w) * (p0 * w),
    ;
    assert(tx <= 2 * SCALE * w * q) by (nonlinear_arith)
        requires
            pd * tx <= pd * (2 * SCALE * w * q),
            pd > 0,
    ;
}

/// The partial-interval solution when selling into an interval with `interval_supply_available`
/// units sold from its lower end: the base that `remaining_quote` of normalized quote buys back,
/// and the quote used.
pub open spec fn delta_base_in_spec(
    price_0: int,
    price_1: int,
    width_scaled: int,
    interval_supply_available: int,
    remaining_quote: int,
) -> (int, int) {
    let current_quote = interval_quote(
        price_0,
        price_1,
        width_scaled,
        0,
        interval_supply_available,
        Rounding::Down,
    );
    if remaining_quote >= current_quote {
        (interval_supply_available, current_quote)
    } else {
        let root = floor_sqrt(
            discriminant(price_1 - price_0, price_0, width_scaled, current_quote - remaining_quote),
        );
        (
            rounded_div(
                price_0 * width_scaled + (price_1 - price_0) * interval_supply_available - root,
                price_1 - price_0,
                Rounding::Up,
            ),
            remaining_quote,
        )
    }
}

/// Walking down an interval from `interval_supply_available` units into it: the base amount
/// that `remaining_quote` of normalized quote pays for, rounded up, and the quote it takes;
/// the whole available part when the quote covers it.
pub fn get_delta_base_in(
    price_0: u128,
    price_1: u128,
    width_scaled: u128,
    interval_supply_available: u128,
    remaining_quote: u128,
) -> (r: Result<(u128, u128), TokenMillError>)
    requires
        interval_ok(price_0 as int, price_1 as int, width_scaled as int),
        interval_supply_available <= width_scaled,
    ensures
        r is Ok,
        (r->Ok_0.0 as int, r->Ok_0.1 as int) == delta_base_in_spec(
            price_0 as int,
            price_1 as int,
            width_scaled as int,
            interval_supply_available as int,
            remaining_quote as int,
        ),
        r->Ok_0.0 <= interval_supply_available,
        r->Ok_0.1 <= remaining_quote,
        r->Ok_0.1 <= max_interval_quote(),
        trapezoid(price_0 as int, price_1 as int, width_scaled as int, 0, interval_supply_available as int)
            - trapezoid(
            price_0 as int,
            price_1 as int,
            width_scaled as int,
            0,
            interval_supply_available - r->Ok_0.0,
        ) >= 2 * SCALE * width_scaled * r->Ok_0.1,
{
    let ghost p0 = price_0 as int;
    let ghost p1 = price_1 as int;
    let ghost w = width_scaled as int;
    let ghost a = interval_supply_available as int;
    let price_diff = price_1 - price_0;
    proof {
        lemma_bound_values();
        lemma_trapezoid_bounds(p0, p1, w, 0, a, Rounding::Down);
        lemma_mul_bound(price_diff as int, a, MAX_PRICE as int, max_width_scaled());
        lemma_mul_bound(p0, w, MAX_PRICE as int, max_width_scaled());
        lemma_mul_bound(2 * p0, w, 2 * MAX_PRICE, max_width_scaled());
        lemma_mul_bound(2 * SCALE, w, 2 * SCALE, max_width_scaled());
        assert(a * (price_diff * (a + 2 * 0) + 2 * p0 * w) == a * (price_diff * a + 2 * p0 * w));
    }
    let current_quote = mul_div(
        interval_supply_available,
        price_diff * interval_supply_available + 2 * price_0 * width_scaled,
        2 * SCALE * width_scaled,
        Rounding::Down,
    ).unwrap();
    if remaining_quote >= current_quote {
        proof {
            lemma_rounded_div_bounds(a * (price_diff * a + 2 * p0 * w), 2 * SCALE * w, Rounding::Down);
            assert(trapezoid(p0, p1, w, 0, 0) == 0);
        }
        Ok((interval_supply_available, current_quote))
    } else {
        let q = current_quote - remaining_quote;
        proof {
            lemma_mul_bound(w, price_diff as int, max_width_scaled(), MAX_PRICE as int);
            lemma_mul_bound(q as int, 2 * SCALE, max_interval_quote(), 2 * SCALE);
            lemma_mul_bound(w * price_diff, q * 2 * SCALE, max_width_scaled() * MAX_PRICE, max_interval_quote() * 2 * SCALE);
            lemma_mul_bound(p0 * w, p0 * w, MAX_PRICE * max_width_scaled(), MAX_PRICE * max_width_scaled());
            assert(discriminant(price_diff as int, p0, w, q as int) < wide_modulus());
        }
        let sqrt_discriminant = get_sqrt_discriminant(price_diff, price_0, width_scaled, q)?;
        let ghost s = sqrt_discriminant as int;
        let ghost pd = price_diff as int;
        let ghost t = a * (pd * a + 2 * p0 * w);
        proof {
            lemma_rounded_div_bounds(t, 2 * SCALE * w, Rounding::Down);
            if pd == 0 {
                assert(p0 == 0);
                assert(t == 0) by (nonlinear_arith)
                    requires
                        t == a * (pd * a + 2 * p0 * w),
                        pd == 0,
                        p0 == 0,
                ;
                assert(current_quote == 0);
            }
            assert((w * pd) * (q * 2 * SCALE) <= pd * t) by (nonlinear_arith)
                requires
                    pd > 0,
                    w > 0,
                    0 <= q <= current_quote,
                    (2 * SCALE * w) * current_quote <= t,
            {
                assert((w * pd) * (q * 2 * SCALE) == pd * ((2 * SCALE * w) * q));
                assert((2 * SCALE * w) * q <= (2 * SCALE * w) * current_quote);
            }
            lemma_square_expansion(p0, pd, w, a);
            lemma_root_order(s, p0 * w + pd * a, discriminant(pd, p0, w, q as int));
            lemma_root_order(s, p0 * w, discriminant(pd, p0, w, q as int));
            assert((w * pd) * (q * 2 * SCALE) >= 0) by (nonlinear_arith)
                requires
                    w >= 0,
                    pd >= 0,
                    q >= 0,
            ;
        }
        let rl = price_0 * width_scaled + price_diff * interval_supply_available;
        proof {
            lemma_ceil_le(a, rl - s, pd);
            lemma_rounded_div_bounds(rl - s, pd, Rounding::Up);
            lemma_floor_sqrt_unique(s, discriminant(pd, p0, w, q as int));
        }
        let delta_base = div(rl - sqrt_discriminant, price_diff, Rounding::Up)?;
        proof {
            let d = delta_base as int;
            let x = a - d;
            assert(p0 * w + pd * x <= s) by (nonlinear_arith)
                requires
                    pd * d >= rl - s,
                    rl == p0 * w + pd * a,
                    x == a - d,
            ;
            lemma_prefix_below_root(p0, pd, w, x, s, q as int);
            assert(2 * SCALE * w * current_quote == 2 * SCALE * w * q + 2 * SCALE * w * remaining_quote)
                by (nonlinear_arith)
                requires
                    q == current_quote - remaining_quote,
            ;
            assert(trapezoid(p0, p1, w, 0, a) == t);
        }
        Ok((delta_base as u128, remaining_quote))
    }
}

/// The partial-interval solution when buying into an interval `interval_supply_already_used`
/// units in: the base that `remaining_quote` of normalized quote buys, and the quote used.
pub open spec fn delta_base_out_spec(
    price_0: int,
    price_1: int,
    width_scaled: int,
    interval_supply_already_used: int,
    remaining_quote: int,
) -> (int, int) {
    let current_quote = interval_quote(
        price_0,
        price_1,
        width_scaled,
        0,
        interval_supply_already_used,
        Rounding::Down,
    );
    let next_quote = rounded_div((price_0 + price_1) * width_scaled, 2 * SCALE, Rounding::Up);
    let max_quote = next_quote - current_quote;
    if remaining_quote >= max_quote {
        (width_scaled - interval_supply_already_used, max_quote)
    } else if remaining_quote == 0 {
        (0, 0)
    } else {
        let root = floor_sqrt(
            discriminant(
                price_1 - price_0,
                price_0,
                width_scaled,
                current_quote + remaining_quote,
            ),
        );
        (
            (root - (price_0 * width_scaled + (price_1 - price_0) * interval_supply_already_used))
                / (price_1 - price_0),
            remaining_quote,
        )
    }
}

/// The partial-interval solution when buying stays within the interval and the quote given.
pub proof fn lemma_delta_base_out_bounds(price_0: int, price_1: int, w: int, u: int, remaining: int)
    requires
        interval_ok(price_0, price_1, w),
        0 <= u < w,
        remaining >= 0,
    ensures
        0 <= delta_base_out_spec(price_0, price_1, w, u, remaining).0 <= w - u,
        0 <= delta_base_out_spec(price_0, price_1, w, u, remaining).1 <= remaining,
        delta_base_out_spec(price_0, price_1, w, u, remaining).0 == w - u
            || delta_base_out_spec(price_0, price_1, w, u, remaining).1 == remaining,
        trapezoid(price_0, price_1, w, u, delta_base_out_spec(price_0, price_1, w, u, remaining).0) <= 2
            * SCALE * w * delta_base_out_spec(price_0, price_1, w, u, remaining).1,
{
    let p0 = price_0;
    let p1 = price_1;
    let pd = p1 - p0;
    lemma_bound_values();
    lemma_trapezoid_bounds(p0, p1, w, 0, u, Rounding::Down);
    let t = u * (pd * u + 2 * p0 * w);
    assert(trapezoid(p0, p1, w, 0, u) == t) by (nonlinear_arith)
        requires
            t == u * (pd * u + 2 * p0 * w),
            pd == p1 - p0,
    ;
    let cur = interval_quote(p0, p1, w, 0, u, Rounding::Down);
    let full = (p0 + p1) * w;
    let next = rounded_div(full, 2 * SCALE, Rounding::Up);
    assert(2 * SCALE * w > 0) by (nonlinear_arith)
        requires
            w > 0,
    ;
    assert(full >= 0) by (nonlinear_arith)
        requires
            p0 >= 0,
            p1 >= 0,
            w > 0,
            full == (p0 + p1) * w,
    ;
    lemma_rounded_div_bounds(t, 2 * SCALE * w, Rounding::Down);
    lemma_rounded_div_bounds(full, 2 * SCALE, Rounding::Up);
    assert(2 * SCALE * cur <= full) by (nonlinear_arith)
        requires
            (2 * SCALE * w) * cur <= t,
            t == u * (pd * u + 2 * p0 * w),
            full == (p0 + p1) * w,
            pd == p1 - p0,
            0 <= u < w,
            0 <= p0 <= p1,
            cur >= 0,
    {
        assert(u * (pd * u + 2 * p0 * w) <= w * (pd * w + 2 * p0 * w)) by {
            assert(pd * u <= pd * w);
            assert(u * (pd * u + 2 * p0 * w) <= u * (pd * w + 2 * p0 * w));
            assert(u * (pd * w + 2 * p0 * w) <= w * (pd * w + 2 * p0 * w));
        }
        assert(w * (pd * w + 2 * p0 * w) == w * full);
        assert(w * (2 * SCALE * cur) <= w * full);
    }
    lemma_le_div(cur, full, 2 * SCALE);
    if remaining < next - cur && remaining > 0 {
        let q = cur + remaining;
        assert(pd > 0) by {
            if pd == 0 {
                assert(p0 == 0 && p1 == 0);
                assert(full == 0) by (nonlinear_arith)
                    requires
                        full == (p0 + p1) * w,
                        p0 == 0,
                        p1 == 0,
                ;
            }
        }
        let dsc = discriminant(pd, p0, w, q);
        assert(dsc >= 0) by (nonlinear_arith)
            requires
                dsc == (w * pd) * (q * 2 * SCALE) + (p0 * w) * (p0 * w),
                w > 0,
                pd > 0,
                q >= 0,
        ;
        lemma_floor_sqrt_exists(dsc);
        let s = floor_sqrt(dsc);
        let rr = p0 * w + pd * u;
        lemma_square_expansion(p0, pd, w, u);
        assert(rr * rr <= dsc) by (nonlinear_arith)
            requires
                rr == p0 * w + pd * u,
                dsc == (w * pd) * (q * 2 * SCALE) + (p0 * w) * (p0 * w),
                rr * rr == (p0 * w) * (p0 * w) + pd * t,
                t < (2 * SCALE * w) * cur + 2 * SCALE * w,
                q >= cur + 1,
                pd > 0,
                w > 0,
        {
            assert((w * pd) * (q * 2 * SCALE) == pd * ((2 * SCALE * w) * q));
            assert((2 * SCALE * w) * q >= (2 * SCALE * w) * (cur + 1));
            assert(pd * t <= pd * ((2 * SCALE * w) * q));
        }
        assert(rr >= 0) by (nonlinear_arith)
            requires
                rr == p0 * w + pd * u,
                p0 >= 0,
                w > 0,
                pd > 0,
                u >= 0,
        ;
        lemma_root_order(s, rr, dsc);
        assert(2 * SCALE * q < full) by {
            assert(q <= next - 1);
        }
        assert(dsc < (p1 * w) * (p1 * w)) by (nonlinear_arith)
            requires
                dsc == (w * pd) * (q * 2 * SCALE) + (p0 * w) * (p0 * w),
                2 * SCALE * q < full,
                full == (p0 + p1) * w,
                pd == p1 - p0,
                pd > 0,
                w > 0,
        {
            assert((w * pd) * (q * 2 * SCALE) == (w * pd) * (2 * SCALE * q));
            assert((w * pd) * (2 * SCALE * q) < (w * pd) * full);
            assert((p1 * w) * (p1 * w) == (w * pd) * full + (p0 * w) * (p0 * w));
        }
        if s >= p1 * w {
            assert(s * s >= (p1 * w) * (p1 * w)) by (nonlinear_arith)
                requires
                    s >= p1 * w,
                    p1 * w >= 0,
            ;
        }
        assert(s - rr < pd * (w - u)) by (nonlinear_arith)
            requires
                s < p1 * w,
                rr == p0 * w + pd * u,
                pd == p1 - p0,
        ;
        lemma_div_bounds(s - rr, pd);
        assert((s - rr) / pd < w - u) by (nonlinear_arith)
            requires
                pd * ((s - rr) / pd) <= s - rr,
                s - rr < pd * (w - u),
                pd > 0,
        {
            if (s - rr) / pd >= w - u {
                assert(pd * ((s - rr) / pd) >= pd * (w - u));
            }
        }
        let d = (s - rr) / pd;
        assert(p0 * w + pd * (u + d) <= s) by (nonlinear_arith)
            requires
                pd * d <= s - rr,
                rr == p0 * w + pd * u,
        ;
        assert(p0 * w + pd * (u + d) >= 0) by (nonlinear_arith)
            requires
                p0 >= 0,
                w > 0,
                pd > 0,
                u + d >= 0,
        ;
        assert(p1 == p0 + pd);
        lemma_prefix_below_root(p0, pd, w, u + d, s, q);
        lemma_trapezoid_split(p0, p1, w, u, d);
        assert(2 * SCALE * w * q == 2 * SCALE * w * cur + 2 * SCALE * w * remaining) by (nonlinear_arith)
            requires
                q == cur + remaining,
        ;
    } else if remaining >= next - cur {
        lemma_trapezoid_split(p0, p1, w, u, w - u);
        assert(trapezoid(p0, p1, w, 0, w) == w * full) by (nonlinear_arith)
            requires
                full == (p0 + p1) * w,
        ;
        assert(w * full <= 2 * SCALE * w * next) by (nonlinear_arith)
            requires
                full <= 2 * SCALE * next,
                w > 0,
        ;
        assert(2 * SCALE * w * next - 2 * SCALE * w * cur == 2 * SCALE * w * (next - cur)) by (nonlinear_arith);
    } else {
        assert(trapezoid(p0, p1, w, u, 0) == 0);
    }
}

/// Walking up an interval from `interval_supply_already_used` units into it: the base amount
/// that `remaining_quote` of normalized quote buys, rounded down, and the quote it takes; the
/// rest of the interval, at the quote of the whole interval rounded up minus the part already
/// used, when the quote covers it.
pub fn get_delta_base_out(
    price_0: u128,
    price_1: u128,
    width_scaled: u128,
    interval_supply_already_used: u128,
    remaining_quote: u128,
) -> (r: Result<(u128, u128), TokenMillError>)
    requires
        interval_ok(price_0 as int, price_1 as int, width_scaled as int),
        interval_supply_already_used < width_scaled,
    ensures
        r is Ok,
        (r->Ok_0.0 as int, r->Ok_0.1 as int) == delta_base_out_spec(
            price_0 as int,
            price_1 as int,
            width_scaled as int,
            interval_supply_already_used as int,
            remaining_quote as int,
        ),
        r->Ok_0.0 <= width_scaled - interval_supply_already_used,
        r->Ok_0.1 <= remaining_quote,
        trapezoid(
            price_0 as int,
            price_1 as int,
            width_scaled as int,
            interval_supply_already_used as int,
            r->Ok_0.0 as int,
        ) <= 2 * SCALE * width_scaled * r->Ok_0.1,
{
    let ghost p0 = price_0 as int;
    let ghost p1 = price_1 as int;
    let ghost w = width_scaled as int;
    let ghost u = interval_supply_already_used as int;
    let price_diff = price_1 - price_0;
    let ghost pd = price_diff as int;
    proof {
        lemma_bound_values();
        lemma_trapezoid_bounds(p0, p1, w, 0, u, Rounding::Down);
        lemma_mul_bound(pd, u, MAX_PRICE as int, max_width_scaled());
        lemma_mul_bound(p0, w, MAX_PRICE as int, max_width_scaled());
        lemma_mul_bound(2 * p0, w, 2 * MAX_PRICE, max_width_scaled());
        lemma_mul_bound(2 * SCALE, w, 2 * SCALE, max_width_scaled());
        lemma_mul_bound(p0 + p1, w, 2 * MAX_PRICE, max_width_scaled());
        assert(u * (pd * (u + 2 * 0) + 2 * p0 * w) == u * (pd * u + 2 * p0 * w));
    }
    let current_quote = mul_div(
        interval_supply_already_used,
        price_diff * interval_supply_already_used + 2 * price_0 * width_scaled,
        2 * SCALE * width_scaled,
        Rounding::Down,
    ).unwrap();
    let ghost t = u * (pd * u + 2 * p0 * w);
    let ghost full = (p0 + p1) * w;
    proof {
        lemma_rounded_div_bounds(t, 2 * SCALE * w, Rounding::Down);
        lemma_rounded_div_bounds(full, 2 * SCALE, Rounding::Up);
        lemma_ceil_le(max_interval_quote(), full, 2 * SCALE);
        // The used part of the interval costs at most the whole interval.
        assert(2 * SCALE * current_quote <= full) by (nonlinear_arith)
            requires
                (2 * SCALE * w) * current_quote <= t,
                t == u * (pd * u + 2 * p0 * w),
                full == (p0 + p1) * w,
                pd == p1 - p0,
                0 <= u < w,
                0 <= p0 <= p1,
                current_quote >= 0,
        {
            assert(u * (pd * u + 2 * p0 * w) <= w * (pd * w + 2 * p0 * w)) by {
                assert(pd * u <= pd * w);
                assert(u * (pd * u + 2 * p0 * w) <= u * (pd * w + 2 * p0 * w));
                assert(u * (pd * w + 2 * p0 * w) <= w * (pd * w + 2 * p0 * w));
            }
            assert(w * (pd * w + 2 * p0 * w) == w * full);
            assert(w * (2 * SCALE * current_quote) <= w * full);
        }
        lemma_le_div(current_quote as int, full, 2 * SCALE);
    }
    let next_quote = div((price_0 + price_1) * width_scaled, 2 * SCALE, Rounding::Up)?;
    let max_quote = next_quote as u128 - current_quote;
    if remaining_quote >= max_quote {
        proof {
            // The rest of the interval costs at most the whole interval rounded up, less the
            // used part rounded down.
            lemma_trapezoid_split(p0, p1, w, u, w - u);
            assert(trapezoid(p0, p1, w, 0, w) == w * full) by (nonlinear_arith)
                requires
                    full == (p0 + p1) * w,
            ;
            assert(w * full <= 2 * SCALE * w * next_quote) by (nonlinear_arith)
                requires
                    full <= 2 * SCALE * next_quote,
                    w > 0,
            ;
            assert(trapezoid(p0, p1, w, 0, u) == t);
            assert(2 * SCALE * w * current_quote <= t);
            assert(2 * SCALE * w * next_quote - 2 * SCALE * w * current_quote == 2 * SCALE * w * (next_quote
                - current_quote)) by (nonlinear_arith);
        }
        Ok((width_scaled - interval_supply_already_used, max_quote))
    } else if remaining_quote == 0 {
        proof {
            assert(trapezoid(p0, p1, w, u, 0) == 0);
        }
        Ok((0, 0))
    } else {
        let q = current_quote + remaining_quote;
        proof {
            if pd == 0 {
                assert(p0 == 0 && p1 == 0);
                assert(full == 0);
                assert(next_quote == 0);
            }
            lemma_mul_bound(w, pd, max_width_scaled(), MAX_PRICE as int);
            lemma_mul_bound(q as int, 2 * SCALE, max_interval_quote(), 2 * SCALE);
            lemma_mul_bound(w * pd, q * 2 * SCALE, max_width_scaled() * MAX_PRICE, max_interval_quote() * 2 * SCALE);
            lemma_mul_bound(p0 * w, p0 * w, MAX_PRICE * max_width_scaled(), MAX_PRICE * max_width_scaled());
            assert(discriminant(pd, p0, w, q as int) < wide_modulus());
        }
        let sqrt_discriminant = get_sqrt_discriminant(price_diff, price_0, width_scaled, q)?;
        let ghost s = sqrt_discriminant as int;
        let ghost rr = p0 * w + pd * u;
        let ghost dsc = discriminant(pd, p0, w, q as int);
        proof {
            // The discriminant lies between the squares of the two ends of the solution range.
            lemma_square_expansion(p0, pd, w, u);
            assert(rr * rr <= dsc) by (nonlinear_arith)
                requires
                    rr == p0 * w + pd * u,
                    dsc == (w * pd) * (q * 2 * SCALE) + (p0 * w) * (p0 * w),
                    rr * rr == (p0 * w) * (p0 * w) + pd * t,
                    t < (2 * SCALE * w) * current_quote + 2 * SCALE * w,
                    q >= current_quote + 1,
                    pd > 0,
                    w > 0,
            {
                assert((w * pd) * (q * 2 * SCALE) == pd * ((2 * SCALE * w) * q));
                assert((2 * SCALE * w) * q >= (2 * SCALE * w) * (current_quote + 1));
                assert(pd * t <= pd * ((2 * SCALE * w) * q));
            }
            lemma_root_order(s, rr, dsc);
            assert(2 * SCALE * q < full) by {
                assert(q <= next_quote - 1);
            }
            assert(dsc < (p1 * w) * (p1 * w)) by (nonlinear_arith)
                requires
                    dsc == (w * pd) * (q * 2 * SCALE) + (p0 * w) * (p0 * w),
                    2 * SCALE * q < full,
                    full == (p0 + p1) * w,
                    pd == p1 - p0,
                    pd > 0,
                    w > 0,
            {
                assert((w * pd) * (q * 2 * SCALE) == (w * pd) * (2 * SCALE * q));
                assert((w * pd) * (2 * SCALE * q) < (w * pd) * full);
                assert((p1 * w) * (p1 * w) == (w * pd) * full + (p0 * w) * (p0 * w));
            }
            if s >= p1 * w {
                assert(s * s >= (p1 * w) * (p1 * w)) by (nonlinear_arith)
                    requires
                        s >= p1 * w,
                        p1 * w >= 0,
                ;
            }
            assert(s - rr < pd * (w - u)) by (nonlinear_arith)
                requires
                    s < p1 * w,
                    rr == p0 * w + pd * u,
                    pd == p1 - p0,
            ;
            lemma_div_bounds(s - rr, pd);
            assert((s - rr) / pd < w - u) by (nonlinear_arith)
                requires
                    pd * ((s - rr) / pd) <= s - rr,
                    s - rr < pd * (w - u),
                    pd > 0,
            {
                if (s - rr) / pd >= w - u {
                    assert(pd * ((s - rr) / pd) >= pd * (w - u));
                }
            }
            lemma_floor_sqrt_unique(s, dsc);
        }
        let rr_exec = price_0 * width_scaled + price_diff * interval_supply_already_used;
        let delta_base = div(sqrt_discriminant - rr_exec, price_diff, Rounding::Down)?;
        proof {
            let d = delta_base as int;
            lemma_div_bounds(s - rr, pd);
            assert(p0 * w + pd * (u + d) <= s) by (nonlinear_arith)
                requires
                    pd * d <= s - rr,
                    rr == p0 * w + pd * u,
            ;
            lemma_prefix_below_root(p0, pd, w, u + d, s, q as int);
            lemma_trapezoid_split(p0, p1, w, u, d);
            assert(trapezoid(p0, p1, w, 0, u) == t);
            assert(2 * SCALE * w * q == 2 * SCALE * w * current_quote + 2 * SCALE * w * remaining_quote)
                by (nonlinear_arith)
                requires
                    q == current_quote + remaining_quote,
            ;
        }
        Ok((delta_base as u128, remaining_quote))
    }
}

} // verus!
