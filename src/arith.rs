use vstd::prelude::*;

use vstd::arithmetic::div_mod::{lemma_fundamental_div_mod, lemma_mod_bound};

use crate::math::{rounded_div, Rounding};

verus! {

/// Floor division brackets its dividend.
pub proof fn lemma_div_bounds(n: int, d: int)
    requires
        d > 0,
        n >= 0,
    ensures
        d * (n / d) <= n,
        n < d * (n / d) + d,
        n / d >= 0,
{
    lemma_fundamental_div_mod(n, d);
    lemma_mod_bound(n, d);
    assert(n / d >= 0) by (nonlinear_arith)
        requires
            n == d * (n / d) + n % d,
            0 <= n % d < d,
            n >= 0,
    {
        if n / d < 0 {
            assert(d * (n / d) <= -d);
        }
    }
}

/// A rounded quotient brackets the exact one from the side it rounds to.
pub proof fn lemma_rounded_div_bounds(n: int, d: int, rounding: Rounding)
    requires
        d > 0,
        n >= 0,
    ensures
        rounded_div(n, d, rounding) >= 0,
        rounding == Rounding::Down ==> d * rounded_div(n, d, rounding) <= n < d * rounded_div(
            n,
            d,
            rounding,
        ) + d,
        rounding == Rounding::Up ==> n <= d * rounded_div(n, d, rounding) < n + d,
        rounded_div(n, d, Rounding::Down) <= rounded_div(n, d, Rounding::Up),
        rounded_div(n, d, Rounding::Up) <= rounded_div(n, d, Rounding::Down) + 1,
{
    lemma_div_bounds(n, d);
    lemma_fundamental_div_mod(n, d);
    let q = n / d;
    if n % d != 0 {
        assert(d * (q + 1) == d * q + d) by (nonlinear_arith);
    }
}

/// `a * d <= n` gives `a <= n / d`.
pub proof fn lemma_le_div(a: int, n: int, d: int)
    requires
        d > 0,
        n >= 0,
        a * d <= n,
    ensures
        a <= n / d,
{
    lemma_div_bounds(n, d);
    assert(a <= n / d) by (nonlinear_arith)
        requires
            d > 0,
            a * d <= n,
            n < d * (n / d) + d,
    {
        if a > n / d {
            assert(a * d >= (n / d + 1) * d);
        }
    }
}

/// `n <= a * d` gives a rounded-up quotient of at most `a`.
pub proof fn lemma_ceil_le(a: int, n: int, d: int)
    requires
        d > 0,
        n >= 0,
        n <= a * d,
    ensures
        rounded_div(n, d, Rounding::Up) <= a,
{
    lemma_rounded_div_bounds(n, d, Rounding::Up);
    let q = rounded_div(n, d, Rounding::Up);
    assert(q <= a) by (nonlinear_arith)
        requires
            d > 0,
            n <= a * d,
            d * q < n + d,
    {
        if q > a {
            assert(d * q >= d * (a + 1));
        }
    }
}

/// Rounded division is monotonic in the dividend.
pub proof fn lemma_rounded_div_monotonic(n: int, m: int, d: int, rounding: Rounding)
    requires
        d > 0,
        0 <= n <= m,
    ensures
        rounded_div(n, d, rounding) <= rounded_div(m, d, rounding),
{
    lemma_rounded_div_bounds(n, d, rounding);
    lemma_rounded_div_bounds(m, d, rounding);
    let a = rounded_div(n, d, rounding);
    let b = rounded_div(m, d, rounding);
    if rounding == Rounding::Down {
        assert(a <= b) by (nonlinear_arith)
            requires
                d > 0,
                d * a <= n,
                n <= m,
                m < d * b + d,
        {
            if a > b {
                assert(d * a >= d * (b + 1));
            }
        }
    } else {
        assert(a <= b) by (nonlinear_arith)
            requires
                d > 0,
                d * a < n + d,
                n <= m,
                m <= d * b,
        {
            if a > b {
                assert(d * a >= d * (b + 1));
            }
        }
    }
}

} // verus!
