use comet::c_consts::{BONE, STROOP, STROOP_SCALAR};
use comet::c_math::{
    calc_exit_ratio, calc_exit_withdrawal_amount, calc_join_deposit_amount, calc_join_ratio,
    calc_lp_token_amount_given_token_deposits_in,
    calc_lp_token_amount_given_token_withdrawal_amount, calc_spot_price,
    calc_token_deposits_in_given_lp_token_amount, calc_token_in_given_token_out,
    calc_token_out_given_token_in, calc_token_withdrawal_amount_given_lp_token_amount,
    downscale_ceil, downscale_floor, upscale,
};
use comet::c_pool::storage_types::Record;
use comet::errors::Error;
use soroban_sdk::{Env, I256};

#[test]
fn test_scale_stroop() {
    let env = Env::default();
    let x: i128 = 12345_1234567i128;

    let mut scaled = upscale(&env, x, STROOP_SCALAR);
    let expected = I256::from_i128(&env, 12345_1234567_00_000_000_000i128);
    assert_eq!(scaled, expected);

    // takes floor
    scaled = scaled.add(&I256::from_i128(&env, STROOP_SCALAR / 10));
    let floor = downscale_floor(&env, &scaled, STROOP_SCALAR).unwrap();
    assert_eq!(x, floor);

    // takes ceil
    let ceil = downscale_ceil(&env, &scaled, STROOP_SCALAR).unwrap();
    assert_eq!(x + 1, ceil);
}

#[test]
fn test_downscale_floor_too_large_panics() {
    let env = Env::default();
    let x = I256::from_i128(&env, i128::MAX);
    let too_large = x.mul(&I256::from_i128(&env, STROOP_SCALAR)).add(&x);
    let r = downscale_floor(&env, &too_large, STROOP_SCALAR);
    assert_eq!(r.err(), Some(Error::ErrMathApprox));
}

#[test]
fn test_downscale_ceil_too_large_panics() {
    let env = Env::default();
    let x = I256::from_i128(&env, i128::MAX);
    let too_large = x.mul(&I256::from_i128(&env, STROOP_SCALAR)).add(&x);
    let r = downscale_ceil(&env, &too_large, STROOP_SCALAR);
    assert_eq!(r.err(), Some(Error::ErrMathApprox));
}

#[test]
fn test_calc_stroop_inputs_round_correctly() {
    let env = Env::default();
    let swap_fee = 0_0030000;
    let supply = 55 * STROOP / 10; // 5.5 * STROOP

    // price: 1.94 in to 1 out
    let record_1 = Record {
        balance: 5 * STROOP,
        denorm: 3 * STROOP,
        scalar: STROOP_SCALAR,
        index: 0,
        bound: true,
    };
    let record_2 = Record {
        balance: 6 * STROOP,
        denorm: 7 * STROOP,
        scalar: STROOP_SCALAR,
        index: 0,
        bound: true,
    };

    // swap
    let result = calc_token_in_given_token_out(&env, &record_1, &record_2, 1, swap_fee).unwrap();
    assert_eq!(result, 2);
    let result = calc_token_in_given_token_out(&env, &record_2, &record_1, 1, swap_fee).unwrap();
    assert_eq!(result, 1);

    let result = calc_token_out_given_token_in(&env, &record_1, &record_2, 1, swap_fee).unwrap();
    assert_eq!(result, 0);
    let result = calc_token_out_given_token_in(&env, &record_2, &record_1, 1, swap_fee).unwrap();
    assert_eq!(result, 1);

    // exit
    let result = calc_exit_ratio(&env, 10 * STROOP, 1).unwrap();
    assert_eq!(result, I256::from_i128(&env, STROOP_SCALAR / 10));

    let result = calc_exit_withdrawal_amount(
        &env,
        &record_2,
        &I256::from_i128(&env, STROOP_SCALAR / 10),
    )
    .unwrap();
    assert_eq!(result, 0);

    // join
    let result = calc_join_ratio(&env, BONE, 1).unwrap();
    assert_eq!(result, I256::from_i32(&env, 1));

    let result = calc_join_deposit_amount(&env, &record_1, &I256::from_i32(&env, 1)).unwrap();
    assert_eq!(result, 1);

    // deposit
    let result = calc_lp_token_amount_given_token_deposits_in(
        &env,
        &record_1,
        supply,
        10 * STROOP,
        1,
        swap_fee,
    )
    .unwrap();
    assert_eq!(result, 0);

    let result = calc_token_deposits_in_given_lp_token_amount(
        &env,
        &record_1,
        supply,
        10 * STROOP,
        1,
        swap_fee,
    )
    .unwrap();
    assert_eq!(result, 4);

    let result = calc_lp_token_amount_given_token_deposits_in(
        &env,
        &record_2,
        supply,
        10 * STROOP,
        1,
        swap_fee,
    )
    .unwrap();
    assert_eq!(result, 0);

    let result = calc_token_deposits_in_given_lp_token_amount(
        &env,
        &record_2,
        supply,
        10 * STROOP,
        1,
        swap_fee,
    )
    .unwrap();
    assert_eq!(result, 2);

    // withdraw
    let result = calc_lp_token_amount_given_token_withdrawal_amount(
        &env,
        &record_1,
        supply,
        10 * STROOP,
        1,
        swap_fee,
    )
    .unwrap();
    assert_eq!(result, 1);

    let result = calc_token_withdrawal_amount_given_lp_token_amount(
        &env,
        &record_1,
        supply,
        10 * STROOP,
        1,
        swap_fee,
    )
    .unwrap();
    assert_eq!(result, 3);

    let result = calc_lp_token_amount_given_token_withdrawal_amount(
        &env,
        &record_2,
        supply,
        10 * STROOP,
        1,
        swap_fee,
    )
    .unwrap();
    assert_eq!(result, 1);

    let result = calc_token_withdrawal_amount_given_lp_token_amount(
        &env,
        &record_2,
        supply,
        10 * STROOP,
        1,
        swap_fee,
    )
    .unwrap();
    assert_eq!(result, 1);
}

#[test]
fn test_spot_price_two_token_even_pool() {
    // two tokens, equal balances and weights: the fee-free spot price is
    // exactly one STROOP in both directions, and their product is one
    let record_i = Record {
        balance: 10 * STROOP,
        denorm: 5 * STROOP,
        scalar: STROOP_SCALAR,
        index: 0,
        bound: true,
    };
    let record_j = Record {
        balance: 10 * STROOP,
        denorm: 5 * STROOP,
        scalar: STROOP_SCALAR,
        index: 1,
        bound: true,
    };
    let fee = 0_0030000;
    let sans_ij = calc_spot_price(&record_i, &record_j, 0).unwrap();
    let sans_ji = calc_spot_price(&record_j, &record_i, 0).unwrap();
    assert_eq!(sans_ij, STROOP);
    assert_eq!(sans_ji, STROOP);
    assert_eq!(sans_ij * sans_ji / STROOP, STROOP);

    // with the fee the price is STROOP / (1 - fee), rounded up to favor
    // the pool
    let with_fee = calc_spot_price(&record_i, &record_j, fee).unwrap();
    assert_eq!(with_fee, 1_0030091);
}
