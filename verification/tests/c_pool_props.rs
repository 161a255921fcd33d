//! Scenario checks for the pool's stated properties: price reciprocity,
//! round-trip monotonicity, the directed bounds of the fractional power,
//! and conservation of the share supply.

use comet::c_consts::{BONE, STROOP};
use comet::c_math::{calc_token_in_given_token_out, calc_token_out_given_token_in};
use comet::c_num::c_pow;
use comet::c_pool::comet::CometPoolContract;
use comet::c_pool::storage_types::Record;
use comet::errors::Error;
use soroban_sdk::{Env, I256};

const ADMIN: u64 = 1;
const USER: u64 = 2;
const TOKEN_1: u64 = 10;
const TOKEN_2: u64 = 11;

fn even_pool(fee: i128) -> CometPoolContract {
    let mut comet = CometPoolContract::new(0, ADMIN);
    comet
        .init(
            ADMIN,
            &vec![TOKEN_1, TOKEN_2],
            &vec![0_5000000, 0_5000000],
            &vec![10 * STROOP, 10 * STROOP],
            &vec![7, 7],
            fee,
        )
        .unwrap();
    comet
}

#[test]
fn test_even_pool_spot_prices() {
    // two tokens, 50/50 weights, equal balances: the fee-free spot price is
    // exactly one STROOP each way, and the fee-inclusive price is the
    // STROOP divided by one minus the fee
    let fee = 0_0030000;
    let comet = even_pool(fee);
    assert_eq!(comet.get_spot_price_sans_fee(TOKEN_1, TOKEN_2).unwrap(), STROOP);
    assert_eq!(comet.get_spot_price_sans_fee(TOKEN_2, TOKEN_1).unwrap(), STROOP);
    // the fee-inclusive price is the ceiling of STROOP / (1 - fee)
    assert_eq!(comet.get_spot_price(TOKEN_1, TOKEN_2).unwrap(), 1_0030091);
}

#[test]
fn test_spot_price_reciprocity() {
    // for two distinct bound tokens the fee-free spot prices are mutual
    // reciprocals, up to the downscale rounding of both sides
    let mut comet = CometPoolContract::new(0, ADMIN);
    comet
        .init(
            ADMIN,
            &vec![TOKEN_1, TOKEN_2],
            &vec![0_4000000, 0_6000000],
            &vec![173 * STROOP, 911 * STROOP],
            &vec![7, 7],
            0_0030000,
        )
        .unwrap();
    let sp_ij = comet.get_spot_price_sans_fee(TOKEN_1, TOKEN_2).unwrap();
    let sp_ji = comet.get_spot_price_sans_fee(TOKEN_2, TOKEN_1).unwrap();
    let product = sp_ij * sp_ji;
    let one = STROOP * STROOP;
    // each floored division can lose at most one part in ten million
    assert!(product <= one);
    assert!(one - product < one / 1_000_000);
}

#[test]
fn test_round_trip_monotonicity() {
    // the pool never loses value to a round trip through the two swap
    // formulas: buying back what was quoted never yields more than the
    // starting amount
    let env = Env::default();
    let in_record = Record {
        balance: 100 * STROOP,
        denorm: 0_6000000,
        scalar: 100_000_000_000,
        index: 0,
        bound: true,
    };
    let out_record = Record {
        balance: 55 * STROOP,
        denorm: 0_4000000,
        scalar: 100_000_000_000,
        index: 1,
        bound: true,
    };
    let fee = 0_0030000;

    let x = 2 * STROOP;
    // paying the quoted input for x out, the forward formula pays back at
    // most x plus the single unit the up-rounded quote can carry
    let ain = calc_token_in_given_token_out(&env, &in_record, &out_record, x, fee).unwrap();
    let back = calc_token_out_given_token_in(&env, &in_record, &out_record, ain, fee).unwrap();
    assert!(back <= x + 1);

    // the quote for what a forward swap of x pays never falls below x
    let aout = calc_token_out_given_token_in(&env, &in_record, &out_record, x, fee).unwrap();
    let need = calc_token_in_given_token_out(&env, &in_record, &out_record, aout, fee).unwrap();
    assert!(need >= x);
}

#[test]
fn test_c_pow_directed_bounds() {
    // with round_up false the fractional power understates the real power,
    // with round_up true it overstates it, within the series precision
    let env = Env::default();
    let cases: [(i128, i128); 4] = [
        (BONE / 2, 3 * BONE / 2),
        (3 * BONE / 2, BONE / 4),
        (BONE + 123456789, 5 * BONE + BONE / 3),
        (2 * BONE - 1, BONE / 2),
    ];
    for (base, exp) in cases.iter() {
        let b = I256::from_i128(&env, *base);
        let x = I256::from_i128(&env, *exp);
        let low = c_pow(&env, &b, &x, false).unwrap().to_i128().unwrap();
        let high = c_pow(&env, &b, &x, true).unwrap().to_i128().unwrap();
        assert!(low <= high);

        let real = (*base as f64 / 1e18).powf(*exp as f64 / 1e18);
        let low_f = low as f64 / 1e18;
        let high_f = high as f64 / 1e18;
        // CPOW_PRECISION is 1e-10 of BONE; allow the float comparison an
        // extra order of magnitude of slack
        let eps = 1e-9 * real.max(1.0);
        assert!(low_f <= real + eps);
        assert!(high_f >= real - eps);
    }
}

#[test]
fn test_swap_80_20_reference() {
    // 80/20 weights with 100 and 50 balances and a 0.3% fee: a one-token
    // swap pays out what the closed formula gives, rounded down, and the
    // spot price strictly rises
    let env = Env::default();
    let mut comet = CometPoolContract::new(0, ADMIN);
    comet
        .init(
            ADMIN,
            &vec![TOKEN_1, TOKEN_2],
            &vec![0_8000000, 0_2000000],
            &vec![100 * STROOP, 50 * STROOP],
            &vec![7, 7],
            0_0030000,
        )
        .unwrap();
    let sp_before = comet.get_spot_price(TOKEN_1, TOKEN_2).unwrap();
    let (aout, sp_after) = comet
        .swap_exact_amount_in(&env, TOKEN_1, STROOP, TOKEN_2, 0, i128::MAX, USER)
        .unwrap();

    // reference: 50 * (1 - (100 / (100 + 0.997))^(0.8/0.2))
    let expected = 50.0 * (1.0 - (100.0f64 / 100.997).powf(4.0));
    let expected_fixed = (expected * 1e7) as i128;
    assert!(aout <= expected_fixed);
    assert!(expected_fixed - aout <= 10);
    assert!(sp_after > sp_before);
}

#[test]
fn test_supply_equals_sum_of_balances() {
    // the total share supply always equals the sum of all share balances
    let env = Env::default();
    let mut comet = even_pool(0_0030000);
    comet.join_pool(&env, 7 * STROOP, &vec![i128::MAX, i128::MAX], USER).unwrap();
    comet.transfer(USER, 77, 2 * STROOP).unwrap();
    comet.exit_pool(&env, 3 * STROOP, &vec![0, 0], USER).unwrap();
    let sum = comet.balance(ADMIN) + comet.balance(USER) + comet.balance(77);
    assert_eq!(sum, comet.get_total_supply());
}

#[test]
fn test_share_token_allowances() {
    // approvals expire by ledger sequence: a spender can move what is
    // approved and not a stroop more, and an expired approval reads zero
    let seq: u32 = 1000;
    let mut comet = even_pool(0_0030000);
    let spender: u64 = 5;
    let receiver: u64 = 6;

    let r = comet.approve(ADMIN, spender, 10 * STROOP, seq - 1, seq);
    assert_eq!(r.err(), Some(Error::ErrInvalidExpirationLedger));

    comet.approve(ADMIN, spender, 10 * STROOP, seq + 100, seq).unwrap();
    assert_eq!(comet.allowance(ADMIN, spender, seq), 10 * STROOP);
    // reading past the expiration shows nothing left
    assert_eq!(comet.allowance(ADMIN, spender, seq + 101), 0);

    comet.transfer_from(spender, ADMIN, receiver, 4 * STROOP, seq).unwrap();
    assert_eq!(comet.allowance(ADMIN, spender, seq), 6 * STROOP);
    assert_eq!(comet.balance(receiver), 4 * STROOP);

    let r = comet.transfer_from(spender, ADMIN, receiver, 7 * STROOP, seq);
    assert_eq!(r.err(), Some(Error::ErrInsufficientAllowance));

    comet.burn_from(spender, ADMIN, 1 * STROOP, seq).unwrap();
    assert_eq!(comet.get_total_supply(), 99 * STROOP);
    comet.burn(receiver, 1 * STROOP).unwrap();
    assert_eq!(comet.get_total_supply(), 98 * STROOP);
}
