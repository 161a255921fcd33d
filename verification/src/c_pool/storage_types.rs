//! The data a pool keeps per bound token and per allowance.

use vstd::prelude::*;

verus! {

/// Bookkeeping for one bound token.
///
/// `balance` and `denorm` are in `STROOP` (7-decimal) units; `scalar` lifts
/// a native amount of this token to the 18-decimal domain and is frozen at
/// bind; `index` is the token's position in the pool's ordered token list.
#[derive(Clone, Copy, Debug, PartialEq, Eq, Structural)]
pub struct Record {
    pub balance: i128,
    pub denorm: i128,
    pub scalar: i128,
    pub index: u32,
    pub bound: bool,
}

/// A share-token allowance: the amount a spender may move and the ledger
/// number past which the allowance no longer counts.
#[derive(Clone, Copy, Debug, PartialEq, Eq, Structural)]
pub struct AllowanceValue {
    pub amount: i128,
    pub expiration_ledger: u32,
}

} // verus!
