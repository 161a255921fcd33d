use comet::c_consts::BONE;
use comet::c_num::{c_add, c_div, c_mul, c_pow, c_sub};
use comet::errors::Error;
use soroban_sdk::{Env, I256};

#[test]
fn test_c_pow_low() {
    let env = Env::default();
    let r = c_pow(
        &env,
        &I256::from_i32(&env, 0),
        &I256::from_i32(&env, 2),
        false,
    );
    assert_eq!(r.err(), Some(Error::ErrCPowBaseTooLow));
}

#[test]
fn c_num_test_test_c_pow_high() {
    let env = Env::default();
    let r = c_pow(
        &env,
        &I256::from_i128(&env, 2 * BONE),
        &I256::from_i32(&env, 2),
        false,
    );
    assert_eq!(r.err(), Some(Error::ErrCPowBaseTooHigh));
}

#[test]
fn test_c_add_overflow() {
    let r = c_add(i128::MAX, 1);
    assert_eq!(r.err(), Some(Error::ErrAddOverflow));
}

#[test]
fn test_c_sub_underflow() {
    let r = c_sub(1, 2);
    assert_eq!(r.err(), Some(Error::ErrSubUnderflow));
}

#[test]
fn test_c_mul_overflow() {
    let r = c_mul(2 * BONE, i128::MAX / 2);
    assert_eq!(r.err(), Some(Error::ErrMulOverflow));
}

#[test]
fn test_c_div_error_on_div_by_zero() {
    let r = c_div(1, 0);
    assert_eq!(r.err(), Some(Error::ErrDivInternal));
}

#[test]
fn test_c_pow() {
    let env = Env::default();
    let r = c_pow(
        &env,
        &I256::from_i128(&env, 0),
        &I256::from_i128(&env, 2),
        false,
    );
    assert_eq!(r.err(), Some(Error::ErrCPowBaseTooLow));
}

#[test]
fn c_num_test_256_test_c_pow_high() {
    let env = Env::default();
    let r = c_pow(
        &env,
        &I256::from_i128(&env, 2 * BONE),
        &I256::from_i128(&env, 2),
        true,
    );
    assert_eq!(r.err(), Some(Error::ErrCPowBaseTooHigh));
}

#[test]
fn test_c_add_c_sub_c_mul_c_div_values() {
    // exact fixed-point results of the kernel primitives
    assert_eq!(c_add(2 * BONE, 3 * BONE).unwrap(), 5 * BONE);
    assert_eq!(c_sub(3 * BONE, 2 * BONE).unwrap(), BONE);
    assert_eq!(c_mul(2 * BONE, 3 * BONE).unwrap(), 6 * BONE);
    // floor rounding: 1 * 1e18 / 3e18 at BONE scale
    assert_eq!(c_div(BONE, 3 * BONE).unwrap(), 333333333333333333);
    assert_eq!(c_mul(BONE / 2, 3).unwrap(), 1);
}
