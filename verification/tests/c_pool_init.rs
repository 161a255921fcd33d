use comet::c_consts::{INIT_POOL_SUPPLY, STROOP};
use comet::c_pool::comet::CometPoolContract;
use comet::errors::Error;

const FACTORY: u64 = 90;
const CONTROLLER: u64 = 1;
const TOKEN_1: u64 = 10;
const TOKEN_2: u64 = 11;

#[test]
fn test_init() {
    let mut comet = CometPoolContract::new(FACTORY, CONTROLLER);

    let tokens = vec![TOKEN_1, TOKEN_2];
    let weights = vec![0_4000000i128, 0_6000000i128];
    let balances = vec![STROOP, STROOP];
    let decimals = vec![7u32, 7u32];
    let swap_fee = 0_0030000i128;

    // validates not enough tokens
    let result = comet.init(
        CONTROLLER,
        &vec![TOKEN_1],
        &vec![0_5000000],
        &vec![STROOP],
        &vec![7],
        swap_fee,
    );
    assert_eq!(result.err(), Some(Error::ErrMinTokens));

    // validates all vecs are same len
    let result = comet.init(
        CONTROLLER,
        &tokens,
        &vec![0_5000000],
        &balances,
        &decimals,
        swap_fee,
    );
    assert_eq!(result.err(), Some(Error::ErrInvalidVectorLen));
    let result = comet.init(
        CONTROLLER,
        &tokens,
        &weights,
        &vec![STROOP],
        &decimals,
        swap_fee,
    );
    assert_eq!(result.err(), Some(Error::ErrInvalidVectorLen));

    // validates total weight is 1 STROOP
    let result = comet.init(
        CONTROLLER,
        &tokens,
        &vec![0_5000000, 0_5000001],
        &balances,
        &decimals,
        swap_fee,
    );
    assert_eq!(result.err(), Some(Error::ErrTotalWeight));

    // validates individual weights
    let result = comet.init(
        CONTROLLER,
        &tokens,
        &vec![0_9100000, 0_1000000],
        &balances,
        &decimals,
        swap_fee,
    );
    assert_eq!(result.err(), Some(Error::ErrMaxWeight));
    let result = comet.init(
        CONTROLLER,
        &tokens,
        &vec![0_0900000, 0_9100000],
        &balances,
        &decimals,
        swap_fee,
    );
    assert_eq!(result.err(), Some(Error::ErrMinWeight));

    // validates balances over min
    let result = comet.init(
        CONTROLLER,
        &tokens,
        &weights,
        &vec![STROOP, 99],
        &decimals,
        swap_fee,
    );
    assert_eq!(result.err(), Some(Error::ErrInsufficientBalance));

    // validates swap fee
    let result = comet.init(CONTROLLER, &tokens, &weights, &balances, &decimals, 0_1000001);
    assert_eq!(result.err(), Some(Error::ErrSwapFee));
    let result = comet.init(CONTROLLER, &tokens, &weights, &balances, &decimals, 0_0000009);
    assert_eq!(result.err(), Some(Error::ErrSwapFee));

    // do init
    comet
        .init(CONTROLLER, &tokens, &weights, &balances, &decimals, swap_fee)
        .unwrap();

    assert_eq!(comet.get_swap_fee(), swap_fee);
    assert_eq!(comet.get_controller(), CONTROLLER);
    assert_eq!(comet.get_tokens(), tokens);
    assert_eq!(comet.get_normalized_weight(TOKEN_1).unwrap(), 0_4000000);
    assert_eq!(comet.get_normalized_weight(TOKEN_2).unwrap(), 0_6000000);
    assert_eq!(comet.get_balance(TOKEN_1).unwrap(), STROOP);
    assert_eq!(comet.get_balance(TOKEN_2).unwrap(), STROOP);
    assert_eq!(comet.get_total_supply(), 100 * STROOP);
    assert_eq!(comet.get_total_supply(), INIT_POOL_SUPPLY);
    assert_eq!(comet.balance(CONTROLLER), 100 * STROOP);
    assert!(comet.is_finalized());
    assert!(comet.is_public_swap());
    assert!(comet.is_bound(TOKEN_1) && comet.is_bound(TOKEN_2));

    // verify init cannot be called again
    let result = comet.init(CONTROLLER, &tokens, &weights, &balances, &decimals, swap_fee);
    assert_eq!(result.err(), Some(Error::AlreadyInitialized));
}

#[test]
fn test_init_token_count_bounds() {
    // a single token is too few, nine tokens too many
    let mut comet = CometPoolContract::new(FACTORY, CONTROLLER);
    let result = comet.init(
        CONTROLLER,
        &vec![TOKEN_1],
        &vec![1_0000000],
        &vec![STROOP],
        &vec![7],
        0_0030000,
    );
    assert_eq!(result.err(), Some(Error::ErrMinTokens));

    let nine_tokens: Vec<u64> = (20..29).collect();
    let result = comet.init(
        CONTROLLER,
        &nine_tokens,
        &vec![0_1111111; 9],
        &vec![STROOP; 9],
        &vec![7; 9],
        0_0030000,
    );
    assert_eq!(result.err(), Some(Error::ErrMaxTokens));
}
