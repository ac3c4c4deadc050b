use token_mill::math::{
    div, get_delta_base_in, get_delta_base_out, get_sqrt_discriminant, mul_div, Rounding,
};
use token_mill::errors::TokenMillError;

#[test]
fn mul_div_rounding() {
    assert_eq!(mul_div(7, 10, 3, Rounding::Down), Some(23));
    assert_eq!(mul_div(7, 10, 3, Rounding::Up), Some(24));
    assert_eq!(mul_div(6, 10, 3, Rounding::Up), Some(20));
    assert_eq!(mul_div(1, 1, 0, Rounding::Down), None);
}

#[test]
fn mul_div_wide_product() {
    assert_eq!(mul_div(u128::MAX, u128::MAX, u128::MAX, Rounding::Down), Some(u128::MAX));
    assert_eq!(mul_div(u128::MAX, 4, 2, Rounding::Down), None);
    let big: u128 = 1 << 100;
    assert_eq!(mul_div(big, big, big >> 10, Rounding::Up), Some(big << 10));
    assert_eq!(mul_div(big + 1, big, big, Rounding::Down), Some(big + 1));
}

#[test]
fn div_rounding() {
    assert_eq!(div(10, 4, Rounding::Down), Ok(2));
    assert_eq!(div(10, 4, Rounding::Up), Ok(3));
    assert_eq!(div(12, 4, Rounding::Up), Ok(3));
    assert_eq!(div(u128::MAX, 1, Rounding::Down), Err(TokenMillError::MathError));
}

#[test]
fn sqrt_discriminant() {
    let w: u128 = 100_000_000_000_000;
    let r = get_sqrt_discriminant(900_000, 900_000, w, 10_000_000_000).unwrap();
    assert_eq!(r, 99_498_743_710_661_995_473);
    assert_eq!(get_sqrt_discriminant(0, 3, 4, 0), Ok(12));
}

#[test]
fn delta_base_in() {
    let w: u128 = 100_000_000_000_000;
    assert_eq!(
        get_delta_base_in(900_000, 1_800_000, w, w / 2, 10_000_000_000),
        Ok((7_599_937_578_042, 10_000_000_000))
    );
    assert_eq!(
        get_delta_base_in(900_000, 1_800_000, w, w / 2, 1_000_000_000_000_000),
        Ok((50_000_000_000_000, 56_250_000_000))
    );
}

#[test]
fn delta_base_out() {
    let w: u128 = 100_000_000_000_000;
    assert_eq!(
        get_delta_base_out(900_000, 1_800_000, w, w / 2, 10_000_000_000),
        Ok((7_233_018_867_610, 10_000_000_000))
    );
    assert_eq!(
        get_delta_base_out(900_000, 1_800_000, w, w / 2, 1_000_000_000_000_000),
        Ok((50_000_000_000_000, 78_750_000_000))
    );
}
