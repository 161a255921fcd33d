use comet::c_pool::comet::CometPoolContract;
use soroban_sdk::Env;

fn to_stroop<T: Into<f64>>(a: T) -> i128 {
    (a.into() * 1e7) as i128
}

const ADMIN: u64 = 1;
const USER1: u64 = 2;
const USER2: u64 = 3;
const TOKEN1: u64 = 10;
const TOKEN2: u64 = 11;

#[test]
fn test_pool_functions_dep_wdr() {
    let env = Env::default();
    let mut client = CometPoolContract::new(ADMIN, ADMIN);

    let controller = client.get_controller();
    assert_eq!(controller, ADMIN);
    let num_tokens = client.get_tokens();
    assert_eq!(num_tokens.len(), 0);

    client.bind(TOKEN1, to_stroop(4), to_stroop(12), 7, ADMIN).unwrap();
    client.bind(TOKEN2, to_stroop(10), to_stroop(10), 7, ADMIN).unwrap();

    client.set_swap_fee(to_stroop(0.003), controller).unwrap();
    client.finalize(controller).unwrap();

    let pool_supply = client.get_total_supply();
    let pulled = client
        .join_pool(&env, to_stroop(120), &vec![i128::MAX, i128::MAX], USER1)
        .unwrap();
    assert_eq!(client.get_total_supply(), pool_supply + to_stroop(120));

    let paid = client.exit_pool(&env, to_stroop(120), &vec![0, 0], USER1).unwrap();
    assert_eq!(client.get_total_supply(), pool_supply);

    // a join followed by an exit of the same share amount gives the tokens
    // back to within one unit per token, and never at the pool's expense
    for i in 0..pulled.len() {
        assert!(paid[i] <= pulled[i]);
        assert!(pulled[i] - paid[i] <= 1);
    }

    let total_shares_before_depositing = client.get_total_supply();
    let token_amount_in = client
        .dep_lp_tokn_amt_out_get_tokn_in(&env, TOKEN2, to_stroop(0.003), to_stroop(0.005), USER1)
        .unwrap();
    assert_eq!(
        to_stroop(0.003),
        client.get_total_supply() - total_shares_before_depositing
    );
    assert!(token_amount_in <= to_stroop(0.005));

    let total_shares_before_withdrawing = client.get_total_supply();
    let _token_amount_out = client
        .wdr_tokn_amt_in_get_lp_tokns_out(&env, TOKEN2, to_stroop(0.003), to_stroop(0.0001), USER1)
        .unwrap();
    let total_shares = client.get_total_supply();
    assert_eq!(total_shares, total_shares_before_withdrawing - to_stroop(0.003));

    let deposited = to_stroop(0.001);
    client
        .dep_tokn_amt_in_get_lp_tokns_out(&env, TOKEN1, deposited, to_stroop(0.0001), USER2)
        .unwrap();

    let withdrawn = to_stroop(0.0009968);
    client
        .wdr_tokn_amt_out_get_lp_tokns_in(&env, TOKEN1, withdrawn, to_stroop(0.1), USER2)
        .unwrap();
    // the user got back slightly less than deposited: the rounding favors
    // the pool
    assert!(withdrawn < deposited);
}
