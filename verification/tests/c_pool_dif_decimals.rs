use comet::c_pool::comet::CometPoolContract;
use soroban_sdk::Env;

fn to_stroop<T: Into<f64>>(a: T) -> i128 {
    (a.into() * 1e7) as i128
}
fn to_six_dec<T: Into<f64>>(a: T) -> i128 {
    (a.into() * 1e6) as i128
}

const ADMIN: u64 = 1;
const USER1: u64 = 2;
const USER2: u64 = 3;
const TOKEN1: u64 = 10;
const TOKEN2: u64 = 11;

#[test]
fn test_pool_functions_different_decimals() {
    let env = Env::default();
    let mut client = CometPoolContract::new(ADMIN, ADMIN);

    let tokens = vec![TOKEN1, TOKEN2];
    let weights = vec![5000000i128, 5000000i128];
    let balances = vec![to_six_dec(50), to_stroop(20)];
    let decimals = vec![6u32, 7u32];
    client
        .init(ADMIN, &tokens, &weights, &balances, &decimals, to_stroop(0.003))
        .unwrap();

    client.join_pool(&env, to_stroop(10), &vec![i128::MAX, i128::MAX], USER2).unwrap();
    client.join_pool(&env, to_stroop(10), &vec![i128::MAX, i128::MAX], USER1).unwrap();
    client.exit_pool(&env, to_stroop(10), &vec![0, 0], USER1).unwrap();

    client.join_pool(&env, to_stroop(10), &vec![i128::MAX, i128::MAX], USER1).unwrap();
    client.exit_pool(&env, to_stroop(10), &vec![0, 0], USER1).unwrap();

    client.join_pool(&env, to_stroop(10), &vec![i128::MAX, i128::MAX], USER1).unwrap();
    client.exit_pool(&env, to_stroop(10), &vec![0, 0], USER1).unwrap();

    client.join_pool(&env, to_stroop(10), &vec![i128::MAX, i128::MAX], USER1).unwrap();
    client.exit_pool(&env, to_stroop(10), &vec![0, 0], USER1).unwrap();

    client.join_pool(&env, to_stroop(10), &vec![i128::MAX, i128::MAX], USER1).unwrap();
    client.exit_pool(&env, to_stroop(10), &vec![0, 0], USER1).unwrap();

    client.exit_pool(&env, to_stroop(10), &vec![0, 0], USER2).unwrap();
    client.join_pool(&env, to_stroop(10), &vec![i128::MAX, i128::MAX], USER2).unwrap();
    client.exit_pool(&env, to_stroop(10), &vec![0, 0], USER2).unwrap();

    client.join_pool(&env, to_stroop(10), &vec![i128::MAX, i128::MAX], USER2).unwrap();
    client.exit_pool(&env, to_stroop(10), &vec![0, 0], USER2).unwrap();

    // no user can keep shares or gain surplus from repeated joins and exits
    assert_eq!(client.balance(USER2), 0);
    assert_eq!(client.balance(USER1), 0);
}
