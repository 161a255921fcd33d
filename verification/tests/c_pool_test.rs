use comet::c_consts::STROOP;
use comet::c_pool::comet::CometPoolContract;
use soroban_sdk::Env;

fn to_stroop<T: Into<f64>>(a: T) -> i128 {
    (a.into() * 1e7) as i128
}

const ADMIN: u64 = 1;
const USER1: u64 = 2;
const USER2: u64 = 3;
const TOKEN1: u64 = 10;
const TOKEN2: u64 = 11;
const TOKEN3: u64 = 12;
const TOKEN4: u64 = 13;

#[test]
fn test_pool_functions() {
    let env = Env::default();
    let mut client = CometPoolContract::new(ADMIN, ADMIN);

    let controller = client.get_controller();
    assert_eq!(controller, ADMIN);
    let num_tokens = client.get_tokens();
    assert_eq!(num_tokens.len(), 0);

    client.bind(TOKEN1, to_stroop(50), to_stroop(5), 7, ADMIN).unwrap();
    client.bind(TOKEN2, to_stroop(20), to_stroop(5), 7, ADMIN).unwrap();
    client.bind(TOKEN3, to_stroop(10000), to_stroop(5), 7, ADMIN).unwrap();
    client.bind(TOKEN4, to_stroop(10), to_stroop(5), 7, ADMIN).unwrap();
    client.unbind(TOKEN4, ADMIN).unwrap();

    let num_tokens = client.get_tokens();
    assert_eq!(num_tokens.len(), 3);
    let total_denormalized_weight = client.get_total_denormalized_weight();
    assert_eq!(to_stroop(15), total_denormalized_weight);
    let current_tokens = client.get_tokens();
    assert!(current_tokens.contains(&TOKEN1));
    assert!(current_tokens.contains(&TOKEN2));
    assert!(current_tokens.contains(&TOKEN3));
    assert_eq!(current_tokens.len(), 3);

    client.set_swap_fee(to_stroop(0.003), controller).unwrap();
    let swap_fee = client.get_swap_fee();
    assert_eq!(swap_fee, to_stroop(0.003));
    client.finalize(controller).unwrap();
    assert_eq!(client.balance(controller), 100 * STROOP);

    let pulled = client
        .join_pool(&env, to_stroop(5), &vec![i128::MAX, i128::MAX, i128::MAX], USER1)
        .unwrap();
    assert_eq!(105000000000, client.get_balance(TOKEN3).unwrap());
    // user1 paid 2.5 of the 25 it held of the first token
    assert_eq!(pulled[0], to_stroop(2.5));
    assert_eq!(to_stroop(25) - pulled[0], 225000000);

    let token_1_price = client.get_spot_price_sans_fee(TOKEN3, TOKEN1).unwrap();
    assert_eq!(token_1_price, to_stroop(200));
    let token_1_price_fee = client.get_spot_price(TOKEN3, TOKEN1).unwrap();
    // using floats: 200.6018054162487462, the fee division rounded up
    assert_eq!(token_1_price_fee, 2006018055);

    client
        .swap_exact_amount_in(
            &env,
            TOKEN1,
            to_stroop(2.5),
            TOKEN3,
            to_stroop(475),
            to_stroop(200),
            USER2,
        )
        .unwrap();

    let val = client.get_spot_price(TOKEN3, TOKEN1).unwrap();
    // using floats: 182.804672101083406128, the fee division rounded up
    assert_eq!(val, 1828046721);

    let txr = client
        .swap_exact_amount_out(
            &env,
            TOKEN1,
            to_stroop(3),
            TOKEN2,
            to_stroop(1.0),
            to_stroop(500),
            USER2,
        )
        .unwrap();
    // using floats: 2.758274824473420261
    assert_eq!(txr.0, 27582749);

    client.set_freeze_status(true, controller).unwrap();

    client.exit_pool(&env, to_stroop(5), &vec![0, 0, 0], USER1).unwrap();

    client.set_freeze_status(false, controller).unwrap();

    // unfrozen again, so joining works
    client
        .join_pool(&env, to_stroop(5), &vec![i128::MAX, i128::MAX, i128::MAX], USER2)
        .unwrap();

    // tokens sent straight to the pool are absorbed without minting shares
    let donated = client.get_balance(TOKEN1).unwrap() + to_stroop(100);
    let supply_before = client.get_total_supply();
    client.gulp(TOKEN1, donated).unwrap();
    assert_eq!(client.get_balance(TOKEN1).unwrap(), donated);
    assert_eq!(client.get_total_supply(), supply_before);
}
