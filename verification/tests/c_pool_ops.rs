//! Operation tests checked against a floating-point reference model of a
//! weighted pool.

use comet::c_consts::STROOP;
use comet::c_pool::comet::CometPoolContract;
use comet::errors::Error;
use soroban_sdk::Env;

const ADMIN: u64 = 1;
const USER: u64 = 2;
const TOKEN_1: u64 = 10;
const TOKEN_2: u64 = 11;
const TOKEN_3: u64 = 12;

/// A floating-point model of a weighted pool, without the integer
/// protections, used as the reference the fixed-point results must track.
struct RefPool {
    balances: Vec<f64>,
    weights: Vec<f64>,
    supply: f64,
    swap_fee: f64,
}

impl RefPool {
    fn new(balances: Vec<f64>, weights: Vec<f64>, swap_fee: f64) -> Self {
        RefPool { balances, weights, supply: 100.0, swap_fee }
    }

    fn spot_price(&self, token_in: usize, token_out: usize) -> f64 {
        let numer = self.balances[token_in] / self.weights[token_in];
        let denom = self.balances[token_out] / self.weights[token_out];
        numer / denom
    }

    fn swap_out_given_in(&mut self, token_in: usize, token_out: usize, amount: f64) -> f64 {
        let amount_net_fees = amount * (1.0 - self.swap_fee);
        let ratio = self.balances[token_in] / (self.balances[token_in] + amount_net_fees);
        let weighted_ratio = ratio.powf(self.weights[token_in] / self.weights[token_out]);
        let out = self.balances[token_out] * (1.0 - weighted_ratio);
        self.balances[token_in] += amount;
        self.balances[token_out] -= out;
        out
    }

    fn swap_in_given_out(&mut self, token_in: usize, token_out: usize, amount: f64) -> f64 {
        let ratio = self.balances[token_out] / (self.balances[token_out] - amount);
        let weighted_ratio = ratio.powf(self.weights[token_out] / self.weights[token_in]);
        let amount_in_net_fees = self.balances[token_in] * (weighted_ratio - 1.0);
        let amount_in = amount_in_net_fees / (1.0 - self.swap_fee);
        self.balances[token_in] += amount_in;
        self.balances[token_out] -= amount;
        amount_in
    }

    fn join_pool(&mut self, to_mint: f64) -> Vec<f64> {
        let ratio = (self.supply + to_mint) / self.supply - 1.0;
        let mut vec_in: Vec<f64> = Vec::new();
        for i in 0..self.balances.len() {
            let amount_in = self.balances[i] * ratio;
            vec_in.push(amount_in);
            self.balances[i] += amount_in;
        }
        self.supply += to_mint;
        vec_in
    }

    fn exit_pool(&mut self, to_burn: f64) -> Vec<f64> {
        let ratio = 1.0 - (self.supply - to_burn) / self.supply;
        let mut vec_out: Vec<f64> = Vec::new();
        for i in 0..self.balances.len() {
            let amount_out = self.balances[i] * ratio;
            vec_out.push(amount_out);
            self.balances[i] -= amount_out;
        }
        self.supply -= to_burn;
        vec_out
    }

    fn single_sided_dep_given_in(&mut self, token: usize, amount: f64) -> f64 {
        let weighted_fee = (1.0 - self.weights[token]) * self.swap_fee;
        let amount_net_fees = amount * (1.0 - weighted_fee);
        let ratio = 1.0 + amount_net_fees / self.balances[token];
        let weighted_ratio = ratio.powf(self.weights[token]) - 1.0;
        let issued = self.supply * weighted_ratio;
        self.balances[token] += amount;
        self.supply += issued;
        issued
    }

    fn single_sided_dep_given_out(&mut self, token: usize, amount: f64) -> f64 {
        let ratio = 1.0 + amount / self.supply;
        let weighted_ratio = ratio.powf(1.0 / self.weights[token]) - 1.0;
        let amount_in_net_fees = self.balances[token] * weighted_ratio;
        let weighted_fee = (1.0 - self.weights[token]) * self.swap_fee;
        let amount_in = amount_in_net_fees / (1.0 - weighted_fee);
        self.balances[token] += amount_in;
        self.supply += amount;
        amount_in
    }

    fn single_sided_wd_given_in(&mut self, token: usize, amount: f64) -> f64 {
        let ratio = 1.0 - amount / self.supply;
        let weighted_ratio = 1.0 - ratio.powf(1.0 / self.weights[token]);
        let withdrawn_with_fee = self.balances[token] * weighted_ratio;
        let weighted_fee = 1.0 - (1.0 - self.weights[token]) * self.swap_fee;
        let withdrawn_net_fee = withdrawn_with_fee * weighted_fee;
        self.balances[token] -= withdrawn_net_fee;
        self.supply -= amount;
        withdrawn_net_fee
    }

    fn single_sided_wd_given_out(&mut self, token: usize, amount: f64) -> f64 {
        let weighted_fee = 1.0 - (1.0 - self.weights[token]) * self.swap_fee;
        let withdrawn_with_fee = amount / weighted_fee;
        let ratio = 1.0 - withdrawn_with_fee / self.balances[token];
        let weighted_ratio = 1.0 - ratio.powf(self.weights[token]);
        let amount_burnt = self.supply * weighted_ratio;
        self.balances[token] -= amount;
        self.supply -= amount_burnt;
        amount_burnt
    }
}

fn to_fixed(x: f64, decimals: u32) -> i128 {
    (x * 10f64.powi(decimals as i32)) as i128
}

/// Asserts `a` is within `percentage` (7-decimal fixed point) of `b`.
fn assert_approx_eq_rel(a: i128, b: i128, percentage: i128) {
    let rel_delta = b * percentage / STROOP;
    assert_approx_eq_abs(a, b, rel_delta);
}

fn assert_approx_eq_abs(a: i128, b: i128, abs: i128) {
    assert!(
        a > b - abs && a < b + abs,
        "assertion failed: left {:?} right {:?} epsilon {:?}",
        a,
        b,
        abs
    );
}

fn make_pool(
    tokens: Vec<u64>,
    weights: Vec<i128>,
    balances: Vec<i128>,
    decimals: Vec<u32>,
    swap_fee: i128,
) -> CometPoolContract {
    let mut comet = CometPoolContract::new(0, ADMIN);
    comet
        .init(ADMIN, &tokens, &weights, &balances, &decimals, swap_fee)
        .unwrap();
    comet
}

#[test]
fn test_join_exit() {
    let env = Env::default();
    let balances: Vec<i128> = vec![100 * STROOP, 150 * STROOP, 50 * STROOP];
    let weights: Vec<i128> = vec![0_2000000, 0_5000000, 0_3000000];
    let mut comet = make_pool(
        vec![TOKEN_1, TOKEN_2, TOKEN_3],
        weights,
        balances,
        vec![7, 7, 7],
        0_0030000,
    );
    let mut reference = RefPool::new(vec![100.0, 150.0, 50.0], vec![0.20, 0.50, 0.30], 0.003);
    let starting_supply = comet.get_total_supply();

    let join_amount = 5.0;
    let join_amount_fixed = to_fixed(join_amount, 7);
    let in_float = reference.join_pool(join_amount);
    let mut in_float_fixed: Vec<i128> = Vec::new();
    let mut above_in_fixed: Vec<i128> = Vec::new();
    for x in in_float.iter() {
        let as_fixed = to_fixed(*x, 7);
        in_float_fixed.push(as_fixed);
        above_in_fixed.push(as_fixed + 1000);
    }

    // verify negative check
    let result = comet.join_pool(&env, -1, &above_in_fixed, USER);
    assert_eq!(result.err(), Some(Error::ErrNegativeOrZero));

    // verify 0 check
    let result = comet.join_pool(&env, 0, &above_in_fixed, USER);
    assert_eq!(result.err(), Some(Error::ErrNegativeOrZero));

    // verify limit in
    let mut below_in_fixed = above_in_fixed.clone();
    below_in_fixed[2] = below_in_fixed[2] - 1001;
    let result = comet.join_pool(&env, join_amount_fixed, &below_in_fixed, USER);
    assert_eq!(result.err(), Some(Error::ErrLimitIn));

    // do join
    let pulled = comet.join_pool(&env, join_amount_fixed, &above_in_fixed, USER).unwrap();
    assert_eq!(comet.balance(USER), join_amount_fixed);
    assert_eq!(comet.get_total_supply(), starting_supply + join_amount_fixed);
    // in-bound tokens rounded up
    for i in 0..3 {
        assert!(pulled[i] >= in_float_fixed[i]);
        assert_approx_eq_rel(pulled[i], in_float_fixed[i], 0_0001000);
    }

    // exit pool
    let exit_amount = 3.0;
    let exit_amount_fixed = to_fixed(exit_amount, 7);
    let out_float = reference.exit_pool(exit_amount);
    let mut out_float_fixed: Vec<i128> = Vec::new();
    let mut below_out_fixed: Vec<i128> = Vec::new();
    for x in out_float.iter() {
        let as_fixed = to_fixed(*x, 7);
        out_float_fixed.push(as_fixed);
        below_out_fixed.push(as_fixed - 1000);
    }

    // verify negative check
    let result = comet.exit_pool(&env, -1, &below_out_fixed, USER);
    assert_eq!(result.err(), Some(Error::ErrNegativeOrZero));

    // verify zero check
    let result = comet.exit_pool(&env, 0, &below_out_fixed, USER);
    assert_eq!(result.err(), Some(Error::ErrNegativeOrZero));

    // verify ratio zero
    let result = comet.exit_pool(&env, 1, &below_out_fixed, USER);
    assert_eq!(result.err(), Some(Error::ErrMathApprox));

    // verify burn too large
    let result = comet.exit_pool(&env, join_amount_fixed + 1, &below_out_fixed, USER);
    assert_eq!(result.err(), Some(Error::ErrInsufficientBalance));

    // verify limit out
    let mut above_out_fixed = below_out_fixed.clone();
    above_out_fixed[2] = above_out_fixed[2] + 100000;
    let result = comet.exit_pool(&env, exit_amount_fixed, &above_out_fixed, USER);
    assert_eq!(result.err(), Some(Error::ErrLimitOut));

    // do exit
    let paid = comet.exit_pool(&env, exit_amount_fixed, &below_out_fixed, USER).unwrap();
    assert_eq!(comet.balance(USER), join_amount_fixed - exit_amount_fixed);
    assert_eq!(
        comet.get_total_supply(),
        starting_supply + join_amount_fixed - exit_amount_fixed
    );
    // out-bound tokens rounded down
    for i in 0..3 {
        assert!(paid[i] <= out_float_fixed[i]);
        assert_approx_eq_rel(paid[i], out_float_fixed[i], 0_0001000);
    }
}

#[test]
fn test_single_sided_dep() {
    let env = Env::default();
    let mut comet = make_pool(
        vec![TOKEN_1, TOKEN_2],
        vec![0_8000000, 0_2000000],
        vec![100 * STROOP, 50 * STROOP],
        vec![7, 7],
        0_0030000,
    );
    let mut reference = RefPool::new(vec![100.0, 50.0], vec![0.80, 0.20], 0.003);
    let starting_supply = comet.get_total_supply();

    // single sided dep given token in
    let dep_amount = 1.0;
    let dep_amount_fixed = to_fixed(dep_amount, 7);
    let bal_pool_mint_fixed = to_fixed(reference.single_sided_dep_given_in(0, dep_amount), 7);

    // verify MAX_IN_RATIO
    let result = comet.dep_tokn_amt_in_get_lp_tokns_out(&env, TOKEN_1, 350_0000000, 0, USER);
    assert_eq!(result.err(), Some(Error::ErrMaxInRatio));

    // verify invalid input
    let result = comet.dep_tokn_amt_in_get_lp_tokns_out(&env, TOKEN_1, 0, 0, USER);
    assert_eq!(result.err(), Some(Error::ErrNegativeOrZero));

    // verify limit out
    let more_than_out = bal_pool_mint_fixed + 1000;
    let result =
        comet.dep_tokn_amt_in_get_lp_tokns_out(&env, TOKEN_1, dep_amount_fixed, more_than_out, USER);
    assert_eq!(result.err(), Some(Error::ErrLimitOut));

    // do deposit
    let pool_mint = comet
        .dep_tokn_amt_in_get_lp_tokns_out(&env, TOKEN_1, dep_amount_fixed, 0, USER)
        .unwrap();
    assert!(pool_mint <= bal_pool_mint_fixed); // rounds down
    assert_approx_eq_rel(pool_mint, bal_pool_mint_fixed, 0_0001000);
    assert_eq!(comet.balance(USER), pool_mint);
    assert_eq!(comet.get_total_supply(), starting_supply + pool_mint);

    // single sided dep given pool mint
    let mint_amount = 1.0;
    let mint_amount_fixed = to_fixed(mint_amount, 7);
    let bal_token_in_fixed = to_fixed(reference.single_sided_dep_given_out(1, mint_amount), 7);
    let over_token_in = bal_token_in_fixed + 1000;

    // verify MAX_IN_RATIO
    let result = comet.dep_lp_tokn_amt_out_get_tokn_in(&env, TOKEN_2, 35_0000000, i128::MAX, USER);
    assert_eq!(result.err(), Some(Error::ErrMaxInRatio));

    // verify invalid input
    let result = comet.dep_lp_tokn_amt_out_get_tokn_in(&env, TOKEN_2, 0, over_token_in, USER);
    assert_eq!(result.err(), Some(Error::ErrNegativeOrZero));

    // verify limit in
    let under_token_in = bal_token_in_fixed - 1000;
    let result =
        comet.dep_lp_tokn_amt_out_get_tokn_in(&env, TOKEN_2, mint_amount_fixed, under_token_in, USER);
    assert_eq!(result.err(), Some(Error::ErrLimitIn));

    // do deposit
    let token_in = comet
        .dep_lp_tokn_amt_out_get_tokn_in(&env, TOKEN_2, mint_amount_fixed, over_token_in, USER)
        .unwrap();
    assert!(token_in >= bal_token_in_fixed); // rounds up
    assert_approx_eq_rel(token_in, bal_token_in_fixed, 0_0001000);
    assert_eq!(comet.balance(USER), pool_mint + mint_amount_fixed);
    assert_eq!(
        comet.get_total_supply(),
        starting_supply + pool_mint + mint_amount_fixed
    );
}

#[test]
fn test_single_sided_wdr() {
    let env = Env::default();
    let mut comet = make_pool(
        vec![TOKEN_1, TOKEN_2],
        vec![0_6000000, 0_4000000],
        vec![100 * STROOP, 50 * STROOP],
        vec![7, 7],
        0_0030000,
    );
    let mut reference = RefPool::new(vec![100.0, 50.0], vec![0.60, 0.40], 0.003);

    // join pool with the user so it has shares to burn
    let starting_bal_comet = 10 * STROOP;
    comet
        .join_pool(&env, starting_bal_comet, &vec![i128::MAX, i128::MAX], USER)
        .unwrap();
    reference.join_pool(10.0);
    let starting_supply = comet.get_total_supply();

    // single sided wdr given shares in
    let burn_amount = 1.0;
    let burn_amount_fixed = to_fixed(burn_amount, 7);
    let bal_token_out_fixed = to_fixed(reference.single_sided_wd_given_in(0, burn_amount), 7);
    let under_out = bal_token_out_fixed - 1000;

    // verify MAX_OUT_RATIO on the withdrawn amount
    let result = comet.wdr_tokn_amt_in_get_lp_tokns_out(&env, TOKEN_1, 99_9999999, 0, ADMIN);
    assert_eq!(result.err(), Some(Error::ErrMaxOutRatio));

    // verify invalid input
    let result = comet.wdr_tokn_amt_in_get_lp_tokns_out(&env, TOKEN_1, 0, 0, USER);
    assert_eq!(result.err(), Some(Error::ErrNegativeOrZero));

    // verify over wdr
    let result =
        comet.wdr_tokn_amt_in_get_lp_tokns_out(&env, TOKEN_1, starting_bal_comet + 1, 0, USER);
    assert_eq!(result.err(), Some(Error::ErrInsufficientBalance));

    // verify limit out
    let over_out = bal_token_out_fixed + 1000;
    let result =
        comet.wdr_tokn_amt_in_get_lp_tokns_out(&env, TOKEN_1, burn_amount_fixed, over_out, USER);
    assert_eq!(result.err(), Some(Error::ErrLimitOut));

    // do withdrawal
    let token_out = comet
        .wdr_tokn_amt_in_get_lp_tokns_out(&env, TOKEN_1, burn_amount_fixed, under_out, USER)
        .unwrap();
    assert!(token_out <= bal_token_out_fixed); // rounds down
    assert_approx_eq_rel(token_out, bal_token_out_fixed, 0_0001000);
    assert_eq!(comet.balance(USER), starting_bal_comet - burn_amount_fixed);
    assert_eq!(comet.get_total_supply(), starting_supply - burn_amount_fixed);

    // single sided wdr given token out
    let token_out_float = 1.0;
    let token_out_fixed = to_fixed(token_out_float, 7);
    let bal_burn_fixed = to_fixed(reference.single_sided_wd_given_out(1, token_out_float), 7);

    // verify MAX_OUT_RATIO
    let result = comet.wdr_tokn_amt_out_get_lp_tokns_in(&env, TOKEN_2, 20_0000000, i128::MAX, ADMIN);
    assert_eq!(result.err(), Some(Error::ErrMaxOutRatio));

    // verify invalid input
    let result = comet.wdr_tokn_amt_out_get_lp_tokns_in(&env, TOKEN_2, 0, bal_burn_fixed + 1000, USER);
    assert_eq!(result.err(), Some(Error::ErrNegativeOrZero));

    // verify limit in
    let under_burn = bal_burn_fixed - 1000;
    let result =
        comet.wdr_tokn_amt_out_get_lp_tokns_in(&env, TOKEN_2, token_out_fixed, under_burn, USER);
    assert_eq!(result.err(), Some(Error::ErrLimitIn));

    // do withdrawal
    let pool_burn = comet
        .wdr_tokn_amt_out_get_lp_tokns_in(&env, TOKEN_2, token_out_fixed, i128::MAX, USER)
        .unwrap();
    assert!(pool_burn >= bal_burn_fixed); // rounds up
    assert_approx_eq_rel(pool_burn, bal_burn_fixed, 0_0001000);
    assert_eq!(
        comet.balance(USER),
        starting_bal_comet - burn_amount_fixed - pool_burn
    );
    assert_eq!(
        comet.get_total_supply(),
        starting_supply - burn_amount_fixed - pool_burn
    );
}

#[test]
fn test_swap_out_given_in() {
    let env = Env::default();
    let mut comet = make_pool(
        vec![TOKEN_1, TOKEN_2],
        vec![0_5000000, 0_5000000],
        vec![100 * STROOP, 75 * STROOP],
        vec![7, 7],
        0_0030000,
    );
    let mut reference = RefPool::new(vec![100.0, 75.0], vec![0.50, 0.50], 0.003);

    // verify MAX_IN_RATIO: over half of the in-side balance is refused
    let result = comet.swap_exact_amount_in(&env, TOKEN_1, 51_0000000, TOKEN_2, 0, i128::MAX, USER);
    assert_eq!(result.err(), Some(Error::ErrMaxInRatio));

    // verify negative input
    let result = comet.swap_exact_amount_in(&env, TOKEN_1, -1, TOKEN_2, 0, i128::MAX, USER);
    assert_eq!(result.err(), Some(Error::ErrNegative));

    let swap_in_amount = 1.0;
    let swap_in_amount_fixed = to_fixed(swap_in_amount, 7);
    let float_out_fixed = to_fixed(reference.swap_out_given_in(0, 1, swap_in_amount), 7);
    let float_price_fixed = to_fixed(reference.spot_price(0, 1), 7);

    // verify price: the post-swap spot price exceeds a cap just above the
    // pre-swap price
    let over_res_price = float_price_fixed + 100;
    let result = comet.swap_exact_amount_in(
        &env,
        TOKEN_1,
        swap_in_amount_fixed,
        TOKEN_2,
        0,
        over_res_price,
        USER,
    );
    assert_eq!(result.err(), Some(Error::ErrLimitPrice));

    // verify limit out
    let more_than_out = float_out_fixed + 100;
    let result = comet.swap_exact_amount_in(
        &env,
        TOKEN_1,
        swap_in_amount_fixed,
        TOKEN_2,
        more_than_out,
        i128::MAX,
        USER,
    );
    assert_eq!(result.err(), Some(Error::ErrLimitOut));

    // do swap
    let (res_2_out, _) = comet
        .swap_exact_amount_in(&env, TOKEN_1, swap_in_amount_fixed, TOKEN_2, 0, i128::MAX, USER)
        .unwrap();
    assert!(res_2_out <= float_out_fixed); // rounds down
    assert_approx_eq_rel(res_2_out, float_out_fixed, 0_0001000);

    // verify pool state
    assert_eq!(
        comet.get_balance(TOKEN_1).unwrap(),
        100 * STROOP + swap_in_amount_fixed
    );
    assert_eq!(comet.get_balance(TOKEN_2).unwrap(), 75 * STROOP - res_2_out);
}

#[test]
fn test_swap_in_given_out() {
    let env = Env::default();
    let mut comet = make_pool(
        vec![TOKEN_1, TOKEN_2],
        vec![0_5000000, 0_5000000],
        vec![100 * STROOP, 75 * STROOP],
        vec![7, 7],
        0_0030000,
    );
    let mut reference = RefPool::new(vec![100.0, 75.0], vec![0.50, 0.50], 0.003);

    // verify MAX_OUT_RATIO
    let result =
        comet.swap_exact_amount_out(&env, TOKEN_2, i128::MAX, TOKEN_1, 36_0000000, i128::MAX, USER);
    assert_eq!(result.err(), Some(Error::ErrMaxOutRatio));

    // verify negative input
    let result = comet.swap_exact_amount_out(&env, TOKEN_2, i128::MAX, TOKEN_1, -2, i128::MAX, USER);
    assert_eq!(result.err(), Some(Error::ErrNegative));

    let swap_out_amount = 1.0;
    let swap_out_amount_fixed = to_fixed(swap_out_amount, 7);
    let float_in_fixed = to_fixed(reference.swap_in_given_out(1, 0, swap_out_amount), 7);
    let float_price_fixed = to_fixed(reference.spot_price(1, 0), 7);

    // verify price
    let over_in = float_in_fixed + 100000;
    let over_res_price = float_price_fixed + 100;
    let result = comet.swap_exact_amount_out(
        &env,
        TOKEN_2,
        over_in,
        TOKEN_1,
        swap_out_amount_fixed,
        over_res_price,
        USER,
    );
    assert_eq!(result.err(), Some(Error::ErrLimitPrice));

    // verify limit in
    let less_than_in = float_in_fixed - 100;
    let result = comet.swap_exact_amount_out(
        &env,
        TOKEN_2,
        less_than_in,
        TOKEN_1,
        swap_out_amount_fixed,
        i128::MAX,
        USER,
    );
    assert_eq!(result.err(), Some(Error::ErrLimitIn));

    // do swap
    let (res_2_in, _) = comet
        .swap_exact_amount_out(
            &env,
            TOKEN_2,
            over_in,
            TOKEN_1,
            swap_out_amount_fixed,
            i128::MAX,
            USER,
        )
        .unwrap();
    assert!(res_2_in >= float_in_fixed); // rounds up
    assert_approx_eq_rel(res_2_in, float_in_fixed, 0_0001000);

    // verify pool state
    assert_eq!(
        comet.get_balance(TOKEN_1).unwrap(),
        100 * STROOP - swap_out_amount_fixed
    );
    assert_eq!(comet.get_balance(TOKEN_2).unwrap(), 75 * STROOP + res_2_in);
}

#[test]
fn test_swap_large_amounts() {
    let env = Env::default();
    let mut comet = make_pool(
        vec![TOKEN_1, TOKEN_2],
        vec![0_3000000, 0_7000000],
        vec![123456789 * STROOP, 987654321 * STROOP],
        vec![7, 7],
        0_0030000,
    );
    let mut reference = RefPool::new(
        vec![123456789.0, 987654321.0],
        vec![0.30, 0.70],
        0.003,
    );

    // small amount
    let amount = 0.042;
    let amount_fixed = to_fixed(amount, 7);

    let bal_out = to_fixed(reference.swap_out_given_in(1, 0, amount), 7);
    let (res_out, _) = comet
        .swap_exact_amount_in(&env, TOKEN_2, amount_fixed, TOKEN_1, 0, i128::MAX, USER)
        .unwrap();
    assert!(res_out <= bal_out);
    assert_approx_eq_rel(res_out, bal_out, 0_0001000);

    let bal_in = to_fixed(reference.swap_in_given_out(1, 0, amount), 7);
    let (res_in, _) = comet
        .swap_exact_amount_out(&env, TOKEN_2, i128::MAX, TOKEN_1, amount_fixed, i128::MAX, USER)
        .unwrap();
    assert!(res_in >= bal_in);
    assert_approx_eq_rel(res_in, bal_in, 0_0001000);

    // large amount
    let amount = 25_000_000.0;
    let amount_fixed = to_fixed(amount, 7);

    let bal_out = to_fixed(reference.swap_out_given_in(1, 0, amount), 7);
    let (res_out, _) = comet
        .swap_exact_amount_in(&env, TOKEN_2, amount_fixed, TOKEN_1, 0, i128::MAX, USER)
        .unwrap();
    assert!(res_out <= bal_out);
    assert_approx_eq_rel(res_out, bal_out, 0_0001000);

    let bal_in = to_fixed(reference.swap_in_given_out(1, 0, amount), 7);
    let (res_in, _) = comet
        .swap_exact_amount_out(&env, TOKEN_2, i128::MAX, TOKEN_1, amount_fixed, i128::MAX, USER)
        .unwrap();
    assert!(res_in >= bal_in);
    assert_approx_eq_rel(res_in, bal_in, 0_0001000);
}

#[test]
fn test_swap_large_price() {
    let env = Env::default();
    let mut comet = make_pool(
        vec![TOKEN_1, TOKEN_2],
        vec![0_1000000, 0_9000000],
        vec![9999999 * STROOP, 100 * STROOP],
        vec![7, 7],
        0_0030000,
    );
    let mut reference = RefPool::new(vec![9999999.0, 100.0], vec![0.10, 0.90], 0.003);

    // small amounts
    let amount = 0.42;
    let amount_fixed = to_fixed(amount, 7);
    let bal_out = to_fixed(reference.swap_out_given_in(0, 1, amount), 7);
    let (res_out, _) = comet
        .swap_exact_amount_in(&env, TOKEN_1, amount_fixed, TOKEN_2, 0, i128::MAX, USER)
        .unwrap();
    assert!(res_out <= bal_out);
    assert_approx_eq_abs(res_out, bal_out, 10);

    let amount = 0.0000024;
    let amount_fixed = to_fixed(amount, 7);
    let bal_in = to_fixed(reference.swap_in_given_out(0, 1, amount), 7);
    let (res_in, _) = comet
        .swap_exact_amount_out(&env, TOKEN_1, i128::MAX, TOKEN_2, amount_fixed, i128::MAX, USER)
        .unwrap();
    assert!(res_in >= bal_in);
    assert_approx_eq_rel(res_in, bal_in, 0_0001000);

    // large amounts
    let amount = 250_000.0;
    let amount_fixed = to_fixed(amount, 7);
    let bal_out = to_fixed(reference.swap_out_given_in(0, 1, amount), 7);
    let (res_out, _) = comet
        .swap_exact_amount_in(&env, TOKEN_1, amount_fixed, TOKEN_2, 0, i128::MAX, USER)
        .unwrap();
    assert!(res_out <= bal_out);
    assert_approx_eq_rel(res_out, bal_out, 0_0001000);

    let amount = 25.0;
    let amount_fixed = to_fixed(amount, 7);
    let bal_in = to_fixed(reference.swap_in_given_out(0, 1, amount), 7);
    let (res_in, _) = comet
        .swap_exact_amount_out(&env, TOKEN_1, i128::MAX, TOKEN_2, amount_fixed, i128::MAX, USER)
        .unwrap();
    // at these scales the float error can exceed the rounding error, so
    // only the relative distance is held to a basis point
    assert_approx_eq_rel(res_in, bal_in, 0_0001000);
}

#[test]
fn test_swap_diff_decimals() {
    let env = Env::default();
    let scalar_6 = 10i128.pow(6);
    let scalar_9 = 10i128.pow(9);
    let mut comet = make_pool(
        vec![TOKEN_1, TOKEN_2],
        vec![0_2000000, 0_8000000],
        vec![1234 * scalar_6, 12345 * scalar_9],
        vec![6, 9],
        0_0030000,
    );
    let mut reference = RefPool::new(vec![1234.0, 12345.0], vec![0.20, 0.80], 0.003);

    let amount = 5.0;

    // token with 6 decimals in for token with 9 decimals out
    let amount_1_in = to_fixed(amount, 6);
    let bal_out = to_fixed(reference.swap_out_given_in(0, 1, amount), 9);
    let (res_out, _) = comet
        .swap_exact_amount_in(&env, TOKEN_1, amount_1_in, TOKEN_2, 0, i128::MAX, USER)
        .unwrap();
    assert!(res_out <= bal_out);
    assert_approx_eq_rel(res_out, bal_out, 0_0001000);

    let amount_2_out = to_fixed(amount, 9);
    let bal_in = to_fixed(reference.swap_in_given_out(0, 1, amount), 6);
    let (res_in, _) = comet
        .swap_exact_amount_out(&env, TOKEN_1, i128::MAX, TOKEN_2, amount_2_out, i128::MAX, USER)
        .unwrap();
    assert!(res_in >= bal_in);
    assert_approx_eq_rel(res_in, bal_in, 0_0001000);

    // token with 9 decimals in for token with 6 decimals out
    let amount_2_in = to_fixed(amount, 9);
    let bal_out = to_fixed(reference.swap_out_given_in(1, 0, amount), 6);
    let (res_out, _) = comet
        .swap_exact_amount_in(&env, TOKEN_2, amount_2_in, TOKEN_1, 0, i128::MAX, USER)
        .unwrap();
    assert!(res_out <= bal_out);
    assert_approx_eq_rel(res_out, bal_out, 0_0001000);

    let amount_1_out = to_fixed(amount, 6);
    let bal_in = to_fixed(reference.swap_in_given_out(1, 0, amount), 9);
    let (res_in, _) = comet
        .swap_exact_amount_out(&env, TOKEN_2, i128::MAX, TOKEN_1, amount_1_out, i128::MAX, USER)
        .unwrap();
    assert!(res_in >= bal_in);
    assert_approx_eq_rel(res_in, bal_in, 0_0001000);
}
