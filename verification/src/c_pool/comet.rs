//! The pool contract: lifecycle state machine, trading and liquidity
//! operations, and the share-token surface.
//!
//! Addresses are plain 64-bit identifiers; moving the underlying tokens on
//! the host chain is the caller's side of each operation, which is why the
//! handlers return the exact amounts to move.

use vstd::prelude::*;
use soroban_sdk::Env;
use crate::c_consts::{BONE, INIT_POOL_SUPPLY, MAX_BOUND_TOKENS, MAX_FEE, MAX_INIT_WEIGHT,
    MAX_IN_RATIO, MAX_OUT_RATIO, MAX_TOTAL_WEIGHT, MAX_WEIGHT, MIN_BALANCE,
    MIN_BOUND_TOKENS, MIN_FEE, MIN_INIT_WEIGHT, MIN_WEIGHT, STROOP, STROOP_SCALAR, UPSCALE_LIMIT};
use crate::c_math::{calc_spot_price, res_matches, spot_price_res};
use crate::c_pool::ledger::{Allowances, ShareLedger};
use crate::c_pool::storage_types::{AllowanceValue, Record};
use crate::errors::Error;
use crate::fixed_point::{ceil_div, floor_div, in_i128};

verus! {

/// Largest share supply the pool will mint to, in `STROOP` units; keeps the
/// upscaled supply inside the range the pricing math accepts.
pub const MAX_POOL_SUPPLY: i128 = 100_000_000_000_000_000_000_000_000;

/// The sum of the denormalized weights of all bound tokens.
pub open spec fn sum_denorm(s: Seq<(u64, Record)>) -> int
    decreases s.len(),
{
    if s.len() == 0 {
        0
    } else {
        sum_denorm(s.drop_last()) + s.last().1.denorm as int
    }
}

/// No token address appears twice.
pub open spec fn tokens_unique(s: Seq<(u64, Record)>) -> bool {
    forall|i: int, j: int| 0 <= i < j < s.len() ==> (#[trigger] s[i]).0 != (#[trigger] s[j]).0
}

/// A token is bound when it appears in the record list.
pub open spec fn has_tok(s: Seq<(u64, Record)>, t: u64) -> bool {
    exists|i: int| 0 <= i < s.len() && (#[trigger] s[i]).0 == t
}

/// The position of a bound token.
pub open spec fn tok_idx(s: Seq<(u64, Record)>, t: u64) -> int {
    choose|i: int| 0 <= i < s.len() && (#[trigger] s[i]).0 == t
}

/// The record of a bound token.
pub open spec fn rec_of(s: Seq<(u64, Record)>, t: u64) -> Record {
    s[tok_idx(s, t)].1
}

/// Every weight contributes nonnegatively, so one weight never exceeds the
/// sum of all of them.
pub proof fn lemma_denorm_le_sum(s: Seq<(u64, Record)>, i: int)
    requires
        0 <= i < s.len(),
        forall|j: int| 0 <= j < s.len() ==> (#[trigger] s[j]).1.denorm >= 0,
    ensures
        s[i].1.denorm as int <= sum_denorm(s),
        sum_denorm(s) >= 0,
    decreases s.len(),
{
    if s.len() > 0 {
        assert(forall|j: int| 0 <= j < s.drop_last().len() ==> (#[trigger] s.drop_last()[j]).1.denorm
            >= 0);
        if i == s.len() - 1 {
            if s.len() > 1 {
                lemma_denorm_le_sum(s.drop_last(), 0);
            }
        } else {
            assert(s.drop_last()[i] == s[i]);
            lemma_denorm_le_sum(s.drop_last(), i);
        }
    }
}

/// The weight sum is unchanged by an update that keeps the weight, and
/// moves by the difference otherwise.
pub proof fn lemma_sum_denorm_update(s: Seq<(u64, Record)>, i: int, v: (u64, Record))
    requires
        0 <= i < s.len(),
    ensures
        sum_denorm(s.update(i, v)) == sum_denorm(s) - s[i].1.denorm + v.1.denorm,
    decreases s.len(),
{
    let t = s.update(i, v);
    assert(forall|k: int| 0 <= k < s.len() && k != i ==> t[k] == s[k]);
    if i == s.len() - 1 {
        assert(t.drop_last() =~= s.drop_last());
    } else {
        assert(t.last() == s.last());
        assert(t.drop_last() =~= s.drop_last().update(i, v));
        assert(s.drop_last()[i] == s[i]);
        lemma_sum_denorm_update(s.drop_last(), i, v);
    }
}

/// Appending a record grows the weight sum by its weight.
pub proof fn lemma_sum_denorm_push(s: Seq<(u64, Record)>, v: (u64, Record))
    ensures
        sum_denorm(s.push(v)) == sum_denorm(s) + v.1.denorm,
{
    assert(s.push(v).drop_last() =~= s);
}

/// The pool: bound-token records in their list order, global totals, the
/// lifecycle flags, and the share ledger.
pub struct CometPoolContract {
    pub factory: u64,
    pub controller: u64,
    pub records: Vec<(u64, Record)>,
    pub swap_fee: i128,
    pub total_weight: i128,
    pub finalized: bool,
    pub public_swap: bool,
    pub frozen: bool,
    pub shares: ShareLedger,
    pub allowances: Allowances,
}

impl CometPoolContract {
    /// The pool invariant, maintained by every operation:
    /// unique bound tokens, each record's `index` equal to its position,
    /// every weight and balance within its legal range, the total weight
    /// equal to the sum of weights, and a share ledger whose total supply
    /// equals the sum of share balances.
    pub open spec fn valid(&self) -> bool {
        &&& tokens_unique(self.records@)
        &&& self.records@.len() <= MAX_BOUND_TOKENS as int
        &&& forall|i: int| 0 <= i < self.records@.len() ==> (#[trigger] self.records@[i]).1.index
            == i
        &&& forall|i: int| 0 <= i < self.records@.len() ==> (#[trigger] self.records@[i]).1.bound
        &&& forall|i: int| 0 <= i < self.records@.len() ==> MIN_INIT_WEIGHT as int <= (
        #[trigger] self.records@[i]).1.denorm <= MAX_WEIGHT as int
        &&& !self.finalized ==> forall|i: int| 0 <= i < self.records@.len() ==> MIN_WEIGHT as int
            <= (#[trigger] self.records@[i]).1.denorm
        &&& forall|i: int| 0 <= i < self.records@.len() ==> 1 <= (
        #[trigger] self.records@[i]).1.balance
        &&& forall|i: int| 0 <= i < self.records@.len() ==> 1 <= (
        #[trigger] self.records@[i]).1.scalar <= BONE as int
        &&& forall|i: int| 0 <= i < self.records@.len() ==> (#[trigger] self.records@[i]).1.balance
            as int * self.records@[i].1.scalar as int <= UPSCALE_LIMIT as int
        &&& forall|i: int| 0 <= i < self.records@.len() ==> self.total_weight as int <= 50 * (
        #[trigger] self.records@[i]).1.denorm as int
        &&& self.total_weight as int == sum_denorm(self.records@)
        &&& self.total_weight <= MAX_TOTAL_WEIGHT
        &&& 0 <= self.swap_fee <= MAX_FEE
        &&& self.finalized ==> self.records@.len() >= MIN_BOUND_TOKENS as int
        &&& self.shares.wf()
        &&& 0 <= self.shares.total <= MAX_POOL_SUPPLY
        &&& !self.finalized ==> self.shares.total == 0
        &&& self.allowances.wf()
    }

    /// A fresh pool in its setup state: no tokens, no shares, swaps closed.
    pub fn new(factory: u64, controller: u64) -> (r: CometPoolContract)
        ensures
            r.valid(),
            !r.finalized,
            !r.public_swap,
            !r.frozen,
            r.factory == factory,
            r.controller == controller,
            r.records@.len() == 0,
            r.shares.total == 0,
            r.total_weight == 0,
            forall|a: u64| r.shares.spec_balance(a) == 0,
    {
        CometPoolContract {
            factory,
            controller,
            records: Vec::new(),
            swap_fee: 0,
            total_weight: 0,
            finalized: false,
            public_swap: false,
            frozen: false,
            shares: ShareLedger::new(),
            allowances: Allowances::new(),
        }
    }

    /// The position of a bound token's record.
    #[verifier::loop_isolation(false)]
    fn find_record(&self, t: u64) -> (r: Option<usize>)
        requires
            self.valid(),
        ensures
            match r {
                Some(i) => i < self.records@.len() && self.records@[i as int].0 == t && i as int
                    == tok_idx(self.records@, t) && has_tok(self.records@, t),
                None => !has_tok(self.records@, t),
            },
    {
        let mut i: usize = 0;
        while i < self.records.len()
            invariant
                i <= self.records@.len(),
                forall|j: int| 0 <= j < i ==> (#[trigger] self.records@[j]).0 != t,
            decreases self.records@.len() - i,
        {
            if self.records[i].0 == t {
                proof {
                    assert(has_tok(self.records@, t));
                    let k = tok_idx(self.records@, t);
                    assert(self.records@[k].0 == t);
                    if k != i as int {
                        assert(tokens_unique(self.records@));
                        assert(self.records@[k].0 != self.records@[i as int].0);
                    }
                }
                return Some(i);
            }
            i = i + 1;
        }
        None
    }

    /// Total share supply.
    pub fn get_total_supply(&self) -> (r: i128)
        requires
            self.valid(),
        ensures
            r == self.shares.total,
    {
        self.shares.total
    }

    /// The controller address.
    pub fn get_controller(&self) -> (r: u64)
        ensures
            r == self.controller,
    {
        self.controller
    }

    /// The bound token addresses, in list order.
    pub fn get_tokens(&self) -> (r: Vec<u64>)
        requires
            self.valid(),
        ensures
            r@.len() == self.records@.len(),
            forall|i: int| 0 <= i < r@.len() ==> r@[i] == (#[trigger] self.records@[i]).0,
    {
        let mut out: Vec<u64> = Vec::new();
        let mut i: usize = 0;
        while i < self.records.len()
            invariant
                i <= self.records@.len(),
                out@.len() == i,
                forall|j: int| 0 <= j < i ==> out@[j] == (#[trigger] self.records@[j]).0,
            decreases self.records@.len() - i,
        {
            out.push(self.records[i].0);
            i = i + 1;
        }
        out
    }

    /// The pool's recorded balance of a bound token.
    pub fn get_balance(&self, token: u64) -> (r: Result<i128, Error>)
        requires
            self.valid(),
        ensures
            has_tok(self.records@, token) ==> r == Ok::<i128, Error>(
                rec_of(self.records@, token).balance,
            ),
            !has_tok(self.records@, token) ==> r == Err::<i128, Error>(Error::ErrNotBound),
    {
        match self.find_record(token) {
            Some(i) => Ok(self.records[i].1.balance),
            None => Err(Error::ErrNotBound),
        }
    }

    /// The denormalized weight of a bound token.
    pub fn get_denormalized_weight(&self, token: u64) -> (r: Result<i128, Error>)
        requires
            self.valid(),
        ensures
            has_tok(self.records@, token) ==> r == Ok::<i128, Error>(
                rec_of(self.records@, token).denorm,
            ),
            !has_tok(self.records@, token) ==> r == Err::<i128, Error>(Error::ErrNotBound),
    {
        match self.find_record(token) {
            Some(i) => Ok(self.records[i].1.denorm),
            None => Err(Error::ErrNotBound),
        }
    }

    /// The sum of all denormalized weights.
    pub fn get_total_denormalized_weight(&self) -> (r: i128)
        ensures
            r == self.total_weight,
    {
        self.total_weight
    }

    /// The weight of a bound token as a fraction of the total, in `STROOP`
    /// scale, rounded down.
    pub fn get_normalized_weight(&self, token: u64) -> (r: Result<i128, Error>)
        requires
            self.valid(),
        ensures
            has_tok(self.records@, token) ==> r == Ok::<i128, Error>(
                floor_div(
                    rec_of(self.records@, token).denorm as int * (STROOP as int),
                    self.total_weight as int,
                ) as i128,
            ),
            !has_tok(self.records@, token) ==> r == Err::<i128, Error>(Error::ErrNotBound),
    {
        match self.find_record(token) {
            Some(i) => {
                proof {
                    let k = i as int;
                    lemma_denorm_le_sum(self.records@, k);
                    crate::fixed_point::lemma_floor_div_in_i128(
                        self.records@[k].1.denorm as int * (STROOP as int),
                        self.total_weight as int,
                    );
                    crate::fixed_point::lemma_floor_div_nonneg(
                        self.records@[k].1.denorm as int * (STROOP as int),
                        self.total_weight as int,
                    );
                    crate::c_math::lemma_mul_le_nonneg(
                        self.records@[k].1.denorm as int,
                        STROOP as int,
                        MAX_TOTAL_WEIGHT as int,
                        STROOP as int,
                    );
                }
                match crate::host::i128_fixed_div_floor(
                    self.records[i].1.denorm,
                    self.total_weight,
                    STROOP,
                ) {
                    Some(v) => Ok(v),
                    None => {
                        proof {
                            assert(false);
                        }
                        Err(Error::ErrMathApprox)
                    },
                }
            },
            None => Err(Error::ErrNotBound),
        }
    }

    /// The swap fee, in `STROOP` scale.
    pub fn get_swap_fee(&self) -> (r: i128)
        ensures
            r == self.swap_fee,
    {
        self.swap_fee
    }

    /// Whether the pool is finalized.
    pub fn is_finalized(&self) -> (r: bool)
        ensures
            r == self.finalized,
    {
        self.finalized
    }

    /// Whether public swaps are open.
    pub fn is_public_swap(&self) -> (r: bool)
        ensures
            r == self.public_swap,
    {
        self.public_swap
    }

    /// Whether a token is bound.
    pub fn is_bound(&self, token: u64) -> (r: bool)
        requires
            self.valid(),
        ensures
            r == has_tok(self.records@, token),
    {
        match self.find_record(token) {
            Some(_) => true,
            None => false,
        }
    }

    /// The spot price of `token_in` in `token_out`, fee included.
    pub fn get_spot_price(&self, token_in: u64, token_out: u64) -> (r: Result<i128, Error>)
        requires
            self.valid(),
        ensures
            !has_tok(self.records@, token_in) || !has_tok(self.records@, token_out) ==> r
                == Err::<i128, Error>(Error::ErrNotBound),
            has_tok(self.records@, token_in) && has_tok(self.records@, token_out) ==> res_matches(
                r,
                spot_price_res(
                    rec_of(self.records@, token_in).balance as int,
                    rec_of(self.records@, token_in).denorm as int,
                    rec_of(self.records@, token_out).balance as int,
                    rec_of(self.records@, token_out).denorm as int,
                    self.swap_fee as int,
                ),
            ),
    {
        let i = match self.find_record(token_in) {
            Some(i) => i,
            None => {
                return Err(Error::ErrNotBound);
            },
        };
        let j = match self.find_record(token_out) {
            Some(j) => j,
            None => {
                return Err(Error::ErrNotBound);
            },
        };
        let in_rec = self.records[i].1;
        let out_rec = self.records[j].1;
        calc_spot_price(&in_rec, &out_rec, self.swap_fee)
    }

    /// The spot price of `token_in` in `token_out` with no fee applied.
    pub fn get_spot_price_sans_fee(&self, token_in: u64, token_out: u64) -> (r: Result<
        i128,
        Error,
    >)
        requires
            self.valid(),
        ensures
            !has_tok(self.records@, token_in) || !has_tok(self.records@, token_out) ==> r
                == Err::<i128, Error>(Error::ErrNotBound),
            has_tok(self.records@, token_in) && has_tok(self.records@, token_out) ==> res_matches(
                r,
                spot_price_res(
                    rec_of(self.records@, token_in).balance as int,
                    rec_of(self.records@, token_in).denorm as int,
                    rec_of(self.records@, token_out).balance as int,
                    rec_of(self.records@, token_out).denorm as int,
                    0,
                ),
            ),
    {
        let i = match self.find_record(token_in) {
            Some(i) => i,
            None => {
                return Err(Error::ErrNotBound);
            },
        };
        let j = match self.find_record(token_out) {
            Some(j) => j,
            None => {
                return Err(Error::ErrNotBound);
            },
        };
        let in_rec = self.records[i].1;
        let out_rec = self.records[j].1;
        calc_spot_price(&in_rec, &out_rec, 0)
    }
}

/// 10^n.
pub open spec fn pow10(n: nat) -> int
    decreases n,
{
    if n == 0 {
        1
    } else {
        10 * pow10((n - 1) as nat)
    }
}

pub proof fn lemma_pow10_le_18(n: nat)
    requires
        n <= 18,
    ensures
        1 <= pow10(n) <= BONE as int,
    decreases n,
{
    reveal_with_fuel(pow10, 19);
    if n > 0 {
        lemma_pow10_le_18((n - 1) as nat);
        if n < 18 {
            assert(pow10(18) == 10 * pow10(17));
        }
    }
    assert(pow10(18) == 1000000000000000000) by {
        reveal_with_fuel(pow10, 19);
    }
}

/// The scale factor for a token with `n` decimals.
#[verifier::loop_isolation(false)]
fn pow10_exec(n: u32) -> (r: i128)
    requires
        n <= 18,
    ensures
        r as int == pow10(n as nat),
        1 <= r <= BONE,
{
    let mut acc: i128 = 1;
    let mut i: u32 = 0;
    proof {
        lemma_pow10_le_18(n as nat);
    }
    while i < n
        invariant
            i <= n,
            acc as int == pow10(i as nat),
            1 <= acc,
            acc as int <= BONE as int,
        decreases n - i,
    {
        proof {
            lemma_pow10_le_18(i as nat);
            lemma_pow10_le_18((i + 1) as nat);
        }
        acc = acc * 10;
        i = i + 1;
    }
    acc
}

/// The sum of a list of amounts.
pub open spec fn sum_i128(s: Seq<i128>) -> int
    decreases s.len(),
{
    if s.len() == 0 {
        0
    } else {
        sum_i128(s.drop_last()) + s.last() as int
    }
}

/// Whether the token at position `k` repeats an earlier one.
pub open spec fn dup_in_prefix(tokens: Seq<u64>, k: int) -> bool {
    exists|j: int| 0 <= j < k && tokens[j] == tokens[k]
}

/// The first per-token validation failure of the one-shot setup, scanning
/// from position `k`, if any.
pub open spec fn init_scan(
    tokens: Seq<u64>,
    weights: Seq<i128>,
    balances: Seq<i128>,
    decimals: Seq<u32>,
    k: int,
) -> Option<Error>
    decreases tokens.len() - k,
{
    if k < 0 || k >= tokens.len() {
        None
    } else if dup_in_prefix(tokens, k) {
        Some(Error::ErrIsBound)
    } else if weights[k] < MIN_INIT_WEIGHT {
        Some(Error::ErrMinWeight)
    } else if weights[k] > MAX_INIT_WEIGHT {
        Some(Error::ErrMaxWeight)
    } else if balances[k] < MIN_BALANCE {
        Some(Error::ErrInsufficientBalance)
    } else if decimals[k] > 18 {
        Some(Error::ErrTokenInvalid)
    } else if balances[k] * pow10((18 - decimals[k]) as nat) > UPSCALE_LIMIT as int {
        Some(Error::ErrMathApprox)
    } else {
        init_scan(tokens, weights, balances, decimals, k + 1)
    }
}



/// Records carrying exactly the listed weights sum to the same total.
pub proof fn lemma_sum_denorm_from_weights(recs: Seq<(u64, Record)>, ws: Seq<i128>)
    requires
        recs.len() == ws.len(),
        forall|i: int| 0 <= i < recs.len() ==> (#[trigger] recs[i]).1.denorm == ws[i],
    ensures
        sum_denorm(recs) == sum_i128(ws),
    decreases recs.len(),
{
    if recs.len() > 0 {
        assert(forall|i: int| 0 <= i < recs.drop_last().len() ==> (
        #[trigger] recs.drop_last()[i]).1.denorm == ws.drop_last()[i]);
        lemma_sum_denorm_from_weights(recs.drop_last(), ws.drop_last());
        assert(recs.last().1.denorm == ws[recs.len() - 1]);
    }
}

/// A clean scan means every scanned position passed each of its checks.
pub proof fn lemma_init_scan_ok(
    tokens: Seq<u64>,
    weights: Seq<i128>,
    balances: Seq<i128>,
    decimals: Seq<u32>,
    k: int,
)
    requires
        0 <= k,
        init_scan(tokens, weights, balances, decimals, k) is None,
    ensures
        forall|j: int| k <= j < tokens.len() ==> MIN_INIT_WEIGHT as int <= (
        #[trigger] weights[j]) <= MAX_INIT_WEIGHT as int,
        forall|j: int| k <= j < tokens.len() ==> (#[trigger] balances[j]) >= MIN_BALANCE,
        forall|j: int| k <= j < tokens.len() ==> (#[trigger] decimals[j]) <= 18,
        forall|j: int| k <= j < tokens.len() ==> (#[trigger] balances[j]) as int * pow10(
            (18 - decimals[j]) as nat,
        ) <= UPSCALE_LIMIT as int,
        forall|j: int| k <= j < tokens.len() ==> !dup_in_prefix(tokens, j),
    decreases tokens.len() - k,
{
    if k < tokens.len() {
        lemma_init_scan_ok(tokens, weights, balances, decimals, k + 1);
    }
}

impl CometPoolContract {
    /// The full validation outcome of the one-shot setup.
    pub open spec fn init_err(
        &self,
        tokens: Seq<u64>,
        weights: Seq<i128>,
        balances: Seq<i128>,
        decimals: Seq<u32>,
        swap_fee: i128,
    ) -> Option<Error> {
        if self.finalized || self.records@.len() > 0 || self.shares.total != 0 {
            Some(Error::AlreadyInitialized)
        } else if tokens.len() < MIN_BOUND_TOKENS {
            Some(Error::ErrMinTokens)
        } else if tokens.len() > MAX_BOUND_TOKENS {
            Some(Error::ErrMaxTokens)
        } else if weights.len() != tokens.len() || balances.len() != tokens.len()
            || decimals.len() != tokens.len() {
            Some(Error::ErrInvalidVectorLen)
        } else if swap_fee < MIN_FEE || swap_fee > MAX_FEE {
            Some(Error::ErrSwapFee)
        } else if init_scan(tokens, weights, balances, decimals, 0) is Some {
            init_scan(tokens, weights, balances, decimals, 0)
        } else if sum_i128(weights) != STROOP as int {
            Some(Error::ErrTotalWeight)
        } else {
            None
        }
    }

    /// One-shot setup: validates the token lists, stores the records,
    /// mints the initial supply to the controller and opens trading. The
    /// caller moves each starting balance from the controller to the pool.
    #[verifier::loop_isolation(false)]
    pub fn init(
        &mut self,
        controller: u64,
        tokens: &Vec<u64>,
        weights: &Vec<i128>,
        balances: &Vec<i128>,
        decimals: &Vec<u32>,
        swap_fee: i128,
    ) -> (r: Result<(), Error>)
        requires
            old(self).valid(),
        ensures
            final(self).valid(),
            old(self).init_err(tokens@, weights@, balances@, decimals@, swap_fee) matches Some(er)
                ==> (r == Err::<(), Error>(er) && *final(self) == *old(self)),
            old(self).init_err(tokens@, weights@, balances@, decimals@, swap_fee) is None ==> (
            r matches Ok(u) && final(self).finalized && final(self).public_swap && final(self).controller == controller && final(self).swap_fee == swap_fee && final(self).total_weight == STROOP && final(self).records@.len() == tokens@.len() && (forall|
                i: int,
            |
                0 <= i < tokens@.len() ==> final(self).records@[i] == (
                tokens@[i],
                Record {
                    balance: balances@[i],
                    denorm: weights@[i],
                    scalar: pow10((18 - decimals@[i]) as nat) as i128,
                    index: i as u32,
                    bound: true,
                },
                )) && final(self).shares.total == INIT_POOL_SUPPLY && final(self).shares.spec_balance(controller) == INIT_POOL_SUPPLY as int),
    {
        if self.finalized || self.records.len() > 0 || self.shares.total != 0 {
            return Err(Error::AlreadyInitialized);
        }
        if tokens.len() < MIN_BOUND_TOKENS as usize {
            return Err(Error::ErrMinTokens);
        }
        if tokens.len() > MAX_BOUND_TOKENS as usize {
            return Err(Error::ErrMaxTokens);
        }
        if weights.len() != tokens.len() || balances.len() != tokens.len() || decimals.len()
            != tokens.len() {
            return Err(Error::ErrInvalidVectorLen);
        }
        if swap_fee < MIN_FEE || swap_fee > MAX_FEE {
            return Err(Error::ErrSwapFee);
        }

        let ghost tks = tokens@;
        let mut new_records: Vec<(u64, Record)> = Vec::new();
        let mut total_weight: i128 = 0;
        let mut k: usize = 0;
        while k < tokens.len()
            invariant
                k <= tokens@.len(),
                new_records@.len() == k,
                forall|i: int| 0 <= i < k ==> (#[trigger] new_records@[i]) == (
                tokens@[i],
                Record {
                    balance: balances@[i],
                    denorm: weights@[i],
                    scalar: pow10((18 - decimals@[i]) as nat) as i128,
                    index: i as u32,
                    bound: true,
                },
                ),
                forall|i: int, j: int| 0 <= i < j < k ==> tokens@[i] != tokens@[j],
                init_scan(tokens@, weights@, balances@, decimals@, k as int) == init_scan(
                    tokens@,
                    weights@,
                    balances@,
                    decimals@,
                    0,
                ),
                total_weight as int == sum_i128(weights@.take(k as int)),
                0 <= total_weight,
                total_weight as int <= (k as int) * (MAX_INIT_WEIGHT as int),
            decreases tokens@.len() - k,
        {
            let token = tokens[k];
            let weight = weights[k];
            let balance = balances[k];
            let decs = decimals[k];

            // duplicate check against the records built so far
            let mut j: usize = 0;
            while j < new_records.len()
                invariant
                    j <= new_records@.len(),
                    forall|i: int| 0 <= i < j ==> (#[trigger] new_records@[i]).0 != token,
                decreases new_records@.len() - j,
            {
                if new_records[j].0 == token {
                    proof {
                        assert(tokens@[j as int] == token);
                        assert(dup_in_prefix(tokens@, k as int));
                    }
                    return Err(Error::ErrIsBound);
                }
                j = j + 1;
            }
            proof {
                if dup_in_prefix(tokens@, k as int) {
                    let jj = choose|jj: int| 0 <= jj < k && tokens@[jj] == tokens@[k as int];
                    assert(new_records@[jj].0 == token);
                }
            }
            if weight < MIN_INIT_WEIGHT {
                return Err(Error::ErrMinWeight);
            }
            if weight > MAX_INIT_WEIGHT {
                return Err(Error::ErrMaxWeight);
            }
            if balance < MIN_BALANCE {
                return Err(Error::ErrInsufficientBalance);
            }
            if decs > 18 {
                return Err(Error::ErrTokenInvalid);
            }
            let scalar = pow10_exec(18 - decs);
            let up = match balance.checked_mul(scalar) {
                Some(v) => v,
                None => {
                    proof {
                        assert(balance as int * scalar as int >= 0) by (nonlinear_arith)
                            requires balance >= 0 && scalar >= 1;
                    }
                    return Err(Error::ErrMathApprox);
                },
            };
            if up > UPSCALE_LIMIT {
                return Err(Error::ErrMathApprox);
            }
            total_weight = total_weight + weight;
            let rec = Record { balance, denorm: weight, scalar, index: k as u32, bound: true };
            new_records.push((token, rec));
            proof {
                assert(weights@.take(k as int + 1).drop_last() =~= weights@.take(k as int));
            }
            k = k + 1;
        }
        proof {
            assert(weights@.take(tokens@.len() as int) =~= weights@);
        }
        if total_weight != STROOP {
            return Err(Error::ErrTotalWeight);
        }

        let res = self.shares.receive(controller, INIT_POOL_SUPPLY);
        proof {
            assert(res matches Ok(u));
        }
        self.records = new_records;
        self.total_weight = total_weight;
        self.swap_fee = swap_fee;
        self.controller = controller;
        self.finalized = true;
        self.public_swap = true;
        proof {
            lemma_init_scan_ok(tokens@, weights@, balances@, decimals@, 0);
            lemma_sum_denorm_from_weights(self.records@, weights@);
            crate::c_pool::ledger::lemma_bal_le_sum(old(self).shares.entries@, controller);
            assert forall|i: int| 0 <= i < self.records@.len() implies MIN_INIT_WEIGHT as int <= (
            #[trigger] self.records@[i]).1.denorm <= MAX_WEIGHT as int by {
                assert(self.records@[i].1.denorm == weights@[i]);
            }
            assert forall|i: int| 0 <= i < self.records@.len() implies self.total_weight as int
                <= 50 * (#[trigger] self.records@[i]).1.denorm as int by {
                assert(self.records@[i].1.denorm == weights@[i]);
                assert(weights@[i] >= MIN_INIT_WEIGHT);
            }
            assert forall|i: int| 0 <= i < self.records@.len() implies 1 <= (
            #[trigger] self.records@[i]).1.scalar <= BONE as int by {
                assert(decimals@[i] <= 18);
                lemma_pow10_le_18((18 - decimals@[i]) as nat);
            }
            assert forall|i: int| 0 <= i < self.records@.len() implies (
            #[trigger] self.records@[i]).1.balance as int * self.records@[i].1.scalar as int
                <= UPSCALE_LIMIT as int by {
                assert(self.records@[i].1.balance == balances@[i]);
                assert(decimals@[i] <= 18);
                lemma_pow10_le_18((18 - decimals@[i]) as nat);
                assert(self.records@[i].1.scalar as int == pow10((18 - decimals@[i]) as nat));
            }
            assert(tokens_unique(self.records@)) by {
                assert forall|i: int, j: int| 0 <= i < j < self.records@.len() implies (
                #[trigger] self.records@[i]).0 != (#[trigger] self.records@[j]).0 by {
                    assert(self.records@[i].0 == tokens@[i]);
                    assert(self.records@[j].0 == tokens@[j]);
                }
            }
        }
        Ok(())
    }
}

impl CometPoolContract {
    /// Sets the swap fee; only the controller, and only before finalize.
    pub fn set_swap_fee(&mut self, fee: i128, caller: u64) -> (r: Result<(), Error>)
        requires
            old(self).valid(),
        ensures
            final(self).valid(),
            caller != old(self).controller ==> (r == Err::<(), Error>(Error::ErrNotController)
                && *final(self) == *old(self)),
            caller == old(self).controller && fee < 0 ==> (r == Err::<(), Error>(
                Error::ErrNegative,
            ) && *final(self) == *old(self)),
            caller == old(self).controller && fee >= 0 && old(self).finalized ==> (r == Err::<
                (),
                Error,
            >(Error::ErrFinalized) && *final(self) == *old(self)),
            caller == old(self).controller && fee >= 0 && !old(self).finalized && fee < MIN_FEE
                ==> (r == Err::<(), Error>(Error::ErrMinFee) && *final(self) == *old(self)),
            caller == old(self).controller && fee >= 0 && !old(self).finalized && fee >= MIN_FEE
                && fee > MAX_FEE ==> (r == Err::<(), Error>(Error::ErrMaxFee) && *final(self)
                == *old(self)),
            caller == old(self).controller && MIN_FEE <= fee <= MAX_FEE && !old(self).finalized
                ==> (r == Ok::<(), Error>(()) && *final(self) == CometPoolContract {
                swap_fee: fee,
                ..*old(self)
            }),
    {
        if caller != self.controller {
            return Err(Error::ErrNotController);
        }
        if fee < 0 {
            return Err(Error::ErrNegative);
        }
        if self.finalized {
            return Err(Error::ErrFinalized);
        }
        if fee < MIN_FEE {
            return Err(Error::ErrMinFee);
        }
        if fee > MAX_FEE {
            return Err(Error::ErrMaxFee);
        }
        self.swap_fee = fee;
        Ok(())
    }

    /// Hands the controller role to another address.
    pub fn set_controller(&mut self, manager: u64, caller: u64) -> (r: Result<(), Error>)
        requires
            old(self).valid(),
        ensures
            final(self).valid(),
            caller != old(self).controller ==> (r == Err::<(), Error>(Error::ErrNotController)
                && *final(self) == *old(self)),
            caller == old(self).controller ==> (r == Ok::<(), Error>(()) && *final(self)
                == CometPoolContract { controller: manager, ..*old(self) }),
    {
        if caller != self.controller {
            return Err(Error::ErrNotController);
        }
        self.controller = manager;
        Ok(())
    }

    /// Opens or closes public swaps; only before finalize.
    pub fn set_public_swap(&mut self, val: bool, caller: u64) -> (r: Result<(), Error>)
        requires
            old(self).valid(),
        ensures
            final(self).valid(),
            caller != old(self).controller ==> (r == Err::<(), Error>(Error::ErrNotController)
                && *final(self) == *old(self)),
            caller == old(self).controller && old(self).finalized ==> (r == Err::<(), Error>(
                Error::ErrFinalized,
            ) && *final(self) == *old(self)),
            caller == old(self).controller && !old(self).finalized ==> (r == Ok::<(), Error>(())
                && *final(self) == CometPoolContract { public_swap: val, ..*old(self) }),
    {
        if caller != self.controller {
            return Err(Error::ErrNotController);
        }
        if self.finalized {
            return Err(Error::ErrFinalized);
        }
        self.public_swap = val;
        Ok(())
    }

    /// Freezes the pool so that only withdrawals and exits run, or lifts
    /// the freeze.
    pub fn set_freeze_status(&mut self, val: bool, caller: u64) -> (r: Result<(), Error>)
        requires
            old(self).valid(),
        ensures
            final(self).valid(),
            caller != old(self).controller ==> (r == Err::<(), Error>(Error::ErrNotController)
                && *final(self) == *old(self)),
            caller == old(self).controller ==> (r == Ok::<(), Error>(()) && *final(self)
                == CometPoolContract { frozen: val, ..*old(self) }),
    {
        if caller != self.controller {
            return Err(Error::ErrNotController);
        }
        self.frozen = val;
        Ok(())
    }

    /// Commits the token set: requires enough bound tokens, opens trading,
    /// and mints the initial supply to the controller.
    pub fn finalize(&mut self, caller: u64) -> (r: Result<(), Error>)
        requires
            old(self).valid(),
        ensures
            final(self).valid(),
            caller != old(self).controller ==> (r == Err::<(), Error>(Error::ErrNotController)
                && *final(self) == *old(self)),
            caller == old(self).controller && old(self).finalized ==> (r == Err::<(), Error>(
                Error::ErrFinalized,
            ) && *final(self) == *old(self)),
            caller == old(self).controller && !old(self).finalized && old(self).records@.len()
                < MIN_BOUND_TOKENS as int ==> (r == Err::<(), Error>(Error::ErrMinTokens)
                && *final(self) == *old(self)),
            caller == old(self).controller && !old(self).finalized && old(self).records@.len()
                >= MIN_BOUND_TOKENS as int ==> (r == Ok::<(), Error>(()) && final(self).finalized
                && final(self).public_swap && final(self).records@ == old(self).records@ && final(self).shares.total == old(self).shares.total + INIT_POOL_SUPPLY && final(self).shares.spec_balance(old(self).controller) == old(self).shares.spec_balance(
                old(self).controller,
            ) + INIT_POOL_SUPPLY),
    {
        if caller != self.controller {
            return Err(Error::ErrNotController);
        }
        if self.finalized {
            return Err(Error::ErrFinalized);
        }
        if self.records.len() < MIN_BOUND_TOKENS as usize {
            return Err(Error::ErrMinTokens);
        }
        let res = self.shares.receive(self.controller, INIT_POOL_SUPPLY);
        proof {
            assert(res matches Ok(u));
        }
        self.finalized = true;
        self.public_swap = true;
        Ok(())
    }

    /// Reconciles a bound token's recorded balance with the pool's actual
    /// on-chain holding, which the caller reads and passes in; donations
    /// are credited without minting shares.
    pub fn gulp(&mut self, token: u64, actual_balance: i128) -> (r: Result<(), Error>)
        requires
            old(self).valid(),
        ensures
            final(self).valid(),
            !has_tok(old(self).records@, token) ==> (r == Err::<(), Error>(Error::ErrNotBound)
                && *final(self) == *old(self)),
            has_tok(old(self).records@, token) && actual_balance < (
            if old(self).finalized {
                1
            } else {
                MIN_BALANCE
            }) ==> (r == Err::<(), Error>(Error::ErrNegativeOrZero) && *final(self) == *old(self)),
            has_tok(old(self).records@, token) && actual_balance >= (
            if old(self).finalized {
                1
            } else {
                MIN_BALANCE
            }) && actual_balance as int * rec_of(old(self).records@, token).scalar as int
                > UPSCALE_LIMIT as int ==> (r == Err::<(), Error>(Error::ErrMathApprox) && *final(self) == *old(self)),
            has_tok(old(self).records@, token) && actual_balance >= (
            if old(self).finalized {
                1
            } else {
                MIN_BALANCE
            }) && actual_balance as int * rec_of(old(self).records@, token).scalar as int
                <= UPSCALE_LIMIT as int ==> (r == Ok::<(), Error>(()) && final(self).records@
                == old(self).records@.update(
                tok_idx(old(self).records@, token),
                (
                    token,
                    Record {
                        balance: actual_balance,
                        ..rec_of(old(self).records@, token)
                    },
                ),
            ) && *final(self) == CometPoolContract {
                records: final(self).records,
                ..*old(self)
            }),
    {
        let i = match self.find_record(token) {
            Some(i) => i,
            None => {
                return Err(Error::ErrNotBound);
            },
        };
        let floor = if self.finalized {
            1
        } else {
            MIN_BALANCE
        };
        if actual_balance < floor {
            return Err(Error::ErrNegativeOrZero);
        }
        let rec = self.records[i].1;
        let up = match actual_balance.checked_mul(rec.scalar) {
            Some(v) => v,
            None => {
                proof {
                    assert(actual_balance as int * rec.scalar as int >= 0) by (nonlinear_arith)
                        requires actual_balance >= 0 && rec.scalar >= 1;
                }
                return Err(Error::ErrMathApprox);
            },
        };
        if up > UPSCALE_LIMIT {
            return Err(Error::ErrMathApprox);
        }
        let new_rec = Record { balance: actual_balance, ..rec };
        proof {
            lemma_sum_denorm_update(self.records@, i as int, (token, new_rec));
        }
        self.records.set(i, (token, new_rec));
        proof {
            let s_old = old(self).records@;
            let s_new = self.records@;
            assert(s_new == s_old.update(i as int, (token, new_rec)));
            assert(forall|k: int| 0 <= k < s_new.len() && k != i as int ==> s_new[k] == s_old[k]);
        }
        Ok(())
    }
}

impl CometPoolContract {
    /// The validation outcome of binding a new token.
    pub open spec fn bind_err(
        &self,
        token: u64,
        balance: i128,
        denorm: i128,
        decimals: u32,
        caller: u64,
    ) -> Option<Error> {
        if caller != self.controller {
            Some(Error::ErrNotController)
        } else if denorm < 0 || balance < 0 {
            Some(Error::ErrNegative)
        } else if self.finalized {
            Some(Error::ErrFinalized)
        } else if self.records@.len() >= MAX_BOUND_TOKENS as int {
            Some(Error::ErrMaxTokens)
        } else if has_tok(self.records@, token) {
            Some(Error::ErrIsBound)
        } else if decimals > 18 {
            Some(Error::ErrTokenInvalid)
        } else if denorm < MIN_WEIGHT {
            Some(Error::ErrMinWeight)
        } else if denorm > MAX_WEIGHT {
            Some(Error::ErrMaxWeight)
        } else if balance < MIN_BALANCE {
            Some(Error::ErrMinBalance)
        } else if self.total_weight + denorm > MAX_TOTAL_WEIGHT as int {
            Some(Error::ErrMaxTotalWeight)
        } else if balance * pow10((18 - decimals) as nat) > UPSCALE_LIMIT as int {
            Some(Error::ErrMathApprox)
        } else {
            None
        }
    }

    /// Binds a new token to the pool with its starting balance and weight;
    /// setup only, controller only. Returns the amount the caller must
    /// transfer in.
    pub fn bind(&mut self, token: u64, balance: i128, denorm: i128, decimals: u32, caller: u64)
        -> (r: Result<i128, Error>)
        requires
            old(self).valid(),
        ensures
            final(self).valid(),
            old(self).bind_err(token, balance, denorm, decimals, caller) matches Some(er) ==> (r
                == Err::<i128, Error>(er) && *final(self) == *old(self)),
            old(self).bind_err(token, balance, denorm, decimals, caller) is None ==> (r
                == Ok::<i128, Error>(balance) && final(self).records@ == old(self).records@.push(
                (
                    token,
                    Record {
                        balance,
                        denorm,
                        scalar: pow10((18 - decimals) as nat) as i128,
                        index: old(self).records@.len() as u32,
                        bound: true,
                    },
                ),
            ) && final(self).total_weight == old(self).total_weight + denorm && *final(self)
                == CometPoolContract {
                records: final(self).records,
                total_weight: final(self).total_weight,
                ..*old(self)
            }),
    {
        if caller != self.controller {
            return Err(Error::ErrNotController);
        }
        if denorm < 0 || balance < 0 {
            return Err(Error::ErrNegative);
        }
        if self.finalized {
            return Err(Error::ErrFinalized);
        }
        if self.records.len() >= MAX_BOUND_TOKENS as usize {
            return Err(Error::ErrMaxTokens);
        }
        match self.find_record(token) {
            Some(_) => {
                return Err(Error::ErrIsBound);
            },
            None => {},
        }
        if decimals > 18 {
            return Err(Error::ErrTokenInvalid);
        }
        if denorm < MIN_WEIGHT {
            return Err(Error::ErrMinWeight);
        }
        if denorm > MAX_WEIGHT {
            return Err(Error::ErrMaxWeight);
        }
        if balance < MIN_BALANCE {
            return Err(Error::ErrMinBalance);
        }
        if self.total_weight + denorm > MAX_TOTAL_WEIGHT {
            return Err(Error::ErrMaxTotalWeight);
        }
        let scalar = pow10_exec(18 - decimals);
        let up = match balance.checked_mul(scalar) {
            Some(v) => v,
            None => {
                proof {
                    assert(balance as int * scalar as int >= 0) by (nonlinear_arith)
                        requires balance >= 0 && scalar >= 1;
                }
                return Err(Error::ErrMathApprox);
            },
        };
        if up > UPSCALE_LIMIT {
            return Err(Error::ErrMathApprox);
        }
        let idx = self.records.len();
        let rec = Record { balance, denorm, scalar, index: idx as u32, bound: true };
        proof {
            lemma_sum_denorm_push(self.records@, (token, rec));
        }
        self.records.push((token, rec));
        self.total_weight = self.total_weight + denorm;
        proof {
            let s = self.records@;
            let so = old(self).records@;
            assert(s == so.push((token, rec)));
            assert(forall|k: int| 0 <= k < so.len() ==> s[k] == so[k]);
            assert(tokens_unique(s)) by {
                assert forall|i: int, j: int| 0 <= i < j < s.len() implies (#[trigger] s[i]).0 != (
                #[trigger] s[j]).0 by {
                    if j < so.len() {
                    } else {
                        assert(s[j].0 == token);
                        assert(!has_tok(so, token));
                        assert(s[i] == so[i]);
                    }
                }
            }
            assert forall|i: int| 0 <= i < s.len() implies self.total_weight as int <= 50 * (
            #[trigger] s[i]).1.denorm as int by {
                assert(s[i].1.denorm >= MIN_WEIGHT);
            }
        }
        Ok(balance)
    }

    /// The validation outcome of adjusting a bound token.
    pub open spec fn rebind_err(&self, token: u64, balance: i128, denorm: i128, caller: u64)
        -> Option<Error> {
        if caller != self.controller {
            Some(Error::ErrNotController)
        } else if denorm < 0 || balance < 0 {
            Some(Error::ErrNegative)
        } else if self.finalized {
            Some(Error::ErrFinalized)
        } else if denorm < MIN_WEIGHT {
            Some(Error::ErrMinWeight)
        } else if denorm > MAX_WEIGHT {
            Some(Error::ErrMaxWeight)
        } else if balance < MIN_BALANCE {
            Some(Error::ErrMinBalance)
        } else if !has_tok(self.records@, token) {
            Some(Error::ErrNotBound)
        } else if self.total_weight - rec_of(self.records@, token).denorm + denorm
            > MAX_TOTAL_WEIGHT as int {
            Some(Error::ErrMaxTotalWeight)
        } else if balance * rec_of(self.records@, token).scalar > UPSCALE_LIMIT as int {
            Some(Error::ErrMathApprox)
        } else {
            None
        }
    }

    /// Adjusts the balance and weight of an already-bound token; setup
    /// only, controller only. Returns how much the caller transfers in
    /// (positive) or is paid back (negative).
    pub fn rebind(&mut self, token: u64, balance: i128, denorm: i128, caller: u64) -> (r: Result<
        i128,
        Error,
    >)
        requires
            old(self).valid(),
        ensures
            final(self).valid(),
            old(self).rebind_err(token, balance, denorm, caller) matches Some(er) ==> (r
                == Err::<i128, Error>(er) && *final(self) == *old(self)),
            old(self).rebind_err(token, balance, denorm, caller) is None ==> (r == Ok::<
                i128,
                Error,
            >((balance - rec_of(old(self).records@, token).balance) as i128) && final(self).records@ == old(self).records@.update(
                tok_idx(old(self).records@, token),
                (
                    token,
                    Record { balance, denorm, ..rec_of(old(self).records@, token) },
                ),
            ) && final(self).total_weight == old(self).total_weight - rec_of(
                old(self).records@,
                token,
            ).denorm + denorm && *final(self) == CometPoolContract {
                records: final(self).records,
                total_weight: final(self).total_weight,
                ..*old(self)
            }),
    {
        if caller != self.controller {
            return Err(Error::ErrNotController);
        }
        if denorm < 0 || balance < 0 {
            return Err(Error::ErrNegative);
        }
        if self.finalized {
            return Err(Error::ErrFinalized);
        }
        if denorm < MIN_WEIGHT {
            return Err(Error::ErrMinWeight);
        }
        if denorm > MAX_WEIGHT {
            return Err(Error::ErrMaxWeight);
        }
        if balance < MIN_BALANCE {
            return Err(Error::ErrMinBalance);
        }
        let i = match self.find_record(token) {
            Some(i) => i,
            None => {
                return Err(Error::ErrNotBound);
            },
        };
        let rec = self.records[i].1;
        proof {
            lemma_denorm_le_sum(self.records@, i as int);
        }
        if self.total_weight - rec.denorm + denorm > MAX_TOTAL_WEIGHT {
            return Err(Error::ErrMaxTotalWeight);
        }
        let up = match balance.checked_mul(rec.scalar) {
            Some(v) => v,
            None => {
                proof {
                    assert(balance as int * rec.scalar as int >= 0) by (nonlinear_arith)
                        requires balance >= 0 && rec.scalar >= 1;
                }
                return Err(Error::ErrMathApprox);
            },
        };
        if up > UPSCALE_LIMIT {
            return Err(Error::ErrMathApprox);
        }
        let new_rec = Record { balance, denorm, ..rec };
        proof {
            lemma_sum_denorm_update(self.records@, i as int, (token, new_rec));
            lemma_denorm_le_sum(self.records@, i as int);
        }
        let old_balance = rec.balance;
        self.records.set(i, (token, new_rec));
        self.total_weight = self.total_weight - rec.denorm + denorm;
        proof {
            let s = self.records@;
            let so = old(self).records@;
            assert(forall|k: int| 0 <= k < s.len() && k != i as int ==> s[k] == so[k]);
            assert forall|k: int| 0 <= k < s.len() implies self.total_weight as int <= 50 * (
            #[trigger] s[k]).1.denorm as int by {
                assert(s[k].1.denorm >= MIN_WEIGHT);
            }
        }
        Ok(balance - old_balance)
    }

    /// The validation outcome of unbinding a token.
    pub open spec fn unbind_err(&self, token: u64, caller: u64) -> Option<Error> {
        if caller != self.controller {
            Some(Error::ErrNotController)
        } else if self.finalized {
            Some(Error::ErrFinalized)
        } else if !has_tok(self.records@, token) {
            Some(Error::ErrNotBound)
        } else {
            None
        }
    }

    /// Removes a token from the pool by swapping the last record into its
    /// slot; setup only, controller only. Returns the balance paid back to
    /// the caller.
    pub fn unbind(&mut self, token: u64, caller: u64) -> (r: Result<i128, Error>)
        requires
            old(self).valid(),
        ensures
            final(self).valid(),
            old(self).unbind_err(token, caller) matches Some(er) ==> (r == Err::<i128, Error>(er)
                && *final(self) == *old(self)),
            old(self).unbind_err(token, caller) is None ==> (r == Ok::<i128, Error>(
                rec_of(old(self).records@, token).balance,
            ) && final(self).records@ == old(self).records@.update(
                tok_idx(old(self).records@, token),
                (
                    old(self).records@.last().0,
                    Record {
                        index: tok_idx(old(self).records@, token) as u32,
                        ..old(self).records@.last().1
                    },
                ),
            ).drop_last() && final(self).total_weight == old(self).total_weight - rec_of(
                old(self).records@,
                token,
            ).denorm && *final(self) == CometPoolContract {
                records: final(self).records,
                total_weight: final(self).total_weight,
                ..*old(self)
            }),
    {
        if caller != self.controller {
            return Err(Error::ErrNotController);
        }
        if self.finalized {
            return Err(Error::ErrFinalized);
        }
        let i = match self.find_record(token) {
            Some(i) => i,
            None => {
                return Err(Error::ErrNotBound);
            },
        };
        let rec = self.records[i].1;
        let last_pos = self.records.len() - 1;
        let last = self.records[last_pos];
        let moved = (last.0, Record { index: i as u32, ..last.1 });
        proof {
            lemma_sum_denorm_update(self.records@, i as int, moved);
            lemma_denorm_le_sum(self.records@, i as int);
        }
        self.records.set(i, moved);
        let _ = self.records.pop();
        self.total_weight = self.total_weight - rec.denorm;
        proof {
            let s = self.records@;
            let so = old(self).records@;
            let su = so.update(i as int, moved);
            assert(s =~= su.drop_last());
            assert(sum_denorm(su) == sum_denorm(so) - so[i as int].1.denorm + moved.1.denorm);
            assert(sum_denorm(s) == sum_denorm(su) - su.last().1.denorm);
            assert(su.last().1.denorm == moved.1.denorm);
            assert(forall|k: int| 0 <= k < s.len() && k != i as int ==> s[k] == so[k]);
            assert(tokens_unique(s)) by {
                assert forall|a: int, b: int| 0 <= a < b < s.len() implies (#[trigger] s[a]).0 != (
                #[trigger] s[b]).0 by {
                    if a == i as int {
                        assert(s[a].0 == so[last_pos as int].0);
                        assert(s[b] == so[b]);
                    } else if b == i as int {
                        assert(s[b].0 == so[last_pos as int].0);
                        assert(s[a] == so[a]);
                    }
                }
            }
            assert forall|k: int| 0 <= k < s.len() implies self.total_weight as int <= 50 * (
            #[trigger] s[k]).1.denorm as int by {
                assert(s[k].1.denorm >= MIN_WEIGHT);
                assert(self.total_weight <= old(self).total_weight);
            }
        }
        Ok(rec.balance)
    }
}

impl CometPoolContract {
    /// Everything `swap_exact_amount_in` decides, mirrored over the
    /// mathematical integers: the exact error for every rejected input,
    /// and for an accepted one the out-amount and the spot price after.
    pub open spec fn swap_in_res(
        &self,
        token_in: u64,
        token_amount_in: i128,
        token_out: u64,
        min_amount_out: i128,
        max_price: i128,
    ) -> Result<(int, int), Error> {
        if self.frozen {
            Err(Error::ErrFreezeOnlyWithdrawals)
        } else if token_amount_in < 0 || min_amount_out < 0 || max_price < 0 {
            Err(Error::ErrNegative)
        } else if !self.public_swap {
            Err(Error::ErrSwapNotPublic)
        } else if !has_tok(self.records@, token_in) || !has_tok(self.records@, token_out) {
            Err(Error::ErrNotBound)
        } else {
            let inr = rec_of(self.records@, token_in);
            let outr = rec_of(self.records@, token_out);
            if !in_i128(inr.balance as int * (MAX_IN_RATIO as int)) {
                Err(Error::ErrMathApprox)
            } else if token_amount_in as int > ceil_div(
                inr.balance as int * (MAX_IN_RATIO as int),
                STROOP as int,
            ) {
                Err(Error::ErrMaxInRatio)
            } else {
                match spot_price_res(
                    inr.balance as int,
                    inr.denorm as int,
                    outr.balance as int,
                    outr.denorm as int,
                    self.swap_fee as int,
                ) {
                    Err(e) => Err(e),
                    Ok(sp_before) => if sp_before > max_price as int {
                        Err(Error::ErrBadLimitPrice)
                    } else {
                        match crate::c_math::token_out_res(
                            inr,
                            outr,
                            token_amount_in as int,
                            self.swap_fee as int,
                        ) {
                            Err(e) => Err(e),
                            Ok(out_amount) => if out_amount < min_amount_out as int {
                                Err(Error::ErrLimitOut)
                            } else if (inr.balance + token_amount_in) * inr.scalar
                                > UPSCALE_LIMIT as int {
                                Err(Error::ErrMathApprox)
                            } else if out_amount >= outr.balance as int {
                                Err(Error::ErrInsufficientBalance)
                            } else {
                                let new_in = Record {
                                    balance: (inr.balance + token_amount_in) as i128,
                                    ..inr
                                };
                                let new_out = Record {
                                    balance: (outr.balance - out_amount) as i128,
                                    ..outr
                                };
                                match spot_price_res(
                                    new_in.balance as int,
                                    new_in.denorm as int,
                                    new_out.balance as int,
                                    new_out.denorm as int,
                                    self.swap_fee as int,
                                ) {
                                    Err(e) => Err(e),
                                    Ok(sp_after) => if sp_after < sp_before {
                                        Err(Error::ErrMathApprox)
                                    } else if sp_after > max_price as int {
                                        Err(Error::ErrLimitPrice)
                                    } else if out_amount == 0 || !in_i128(
                                        token_amount_in as int * (STROOP as int),
                                    ) {
                                        Err(Error::ErrDivInternal)
                                    } else if sp_before > floor_div(
                                        token_amount_in as int * (STROOP as int),
                                        out_amount,
                                    ) {
                                        Err(Error::ErrMathApprox)
                                    } else {
                                        Ok((out_amount, sp_after))
                                    },
                                }
                            },
                        }
                    },
                }
            }
        }
    }

    /// Swaps an exact amount of `token_in` for as much `token_out` as the
    /// invariant allows, never less than `min_amount_out` and never past
    /// `max_price`. Returns the out-amount and the spot price after; the
    /// caller pulls `token_amount_in` from the user and pays the out-amount
    /// to them. The spot price never decreases across a successful swap.
    pub fn swap_exact_amount_in(
        &mut self,
        e: &Env,
        token_in: u64,
        token_amount_in: i128,
        token_out: u64,
        min_amount_out: i128,
        max_price: i128,
        user: u64,
    ) -> (r: Result<(i128, i128), Error>)
        requires
            old(self).valid(),
        ensures
            final(self).valid(),
            old(self).swap_in_res(token_in, token_amount_in, token_out, min_amount_out, max_price)
                matches Err(er) ==> (r matches Err(er2) && er2 == er && *final(self) == *old(self)),
            old(self).swap_in_res(token_in, token_amount_in, token_out, min_amount_out, max_price)
                matches Ok(v) ==> (r matches Ok(w) && w.0 as int == v.0 && w.1 as int == v.1
                && final(self).records@ == old(self).records@.update(
                tok_idx(old(self).records@, token_in),
                (
                    token_in,
                    Record {
                        balance: (rec_of(old(self).records@, token_in).balance
                            + token_amount_in) as i128,
                        ..rec_of(old(self).records@, token_in)
                    },
                ),
            ).update(
                tok_idx(old(self).records@, token_out),
                (
                    token_out,
                    Record {
                        balance: (rec_of(old(self).records@, token_out).balance - v.0) as i128,
                        ..rec_of(old(self).records@, token_out)
                    },
                ),
            ) && *final(self) == CometPoolContract {
                records: final(self).records,
                ..*old(self)
            }),
    {
        // authenticating `user` and settling both transfers is the caller's
        // side of the operation
        let _ = user;
        if self.frozen {
            return Err(Error::ErrFreezeOnlyWithdrawals);
        }
        if token_amount_in < 0 || min_amount_out < 0 || max_price < 0 {
            return Err(Error::ErrNegative);
        }
        if !self.public_swap {
            return Err(Error::ErrSwapNotPublic);
        }
        let i = match self.find_record(token_in) {
            Some(i) => i,
            None => {
                return Err(Error::ErrNotBound);
            },
        };
        let j = match self.find_record(token_out) {
            Some(j) => j,
            None => {
                return Err(Error::ErrNotBound);
            },
        };
        let inr = self.records[i].1;
        let outr = self.records[j].1;
        proof {
            assert(inr.balance as int * (MAX_IN_RATIO as int) >= 0) by (nonlinear_arith)
                requires inr.balance >= 1 && MAX_IN_RATIO > 0;
            assert(inr.balance as int * (MAX_IN_RATIO as int) <= (inr.balance as int) * (
            STROOP as int)) by (nonlinear_arith)
                requires inr.balance >= 0 && 0 < MAX_IN_RATIO < STROOP;
            crate::fixed_point::lemma_ceil_div_le(
                inr.balance as int * (MAX_IN_RATIO as int),
                STROOP as int,
                inr.balance as int,
            );
            if in_i128(inr.balance as int * (MAX_IN_RATIO as int)) {
                crate::fixed_point::lemma_ceil_div_in_i128(
                    inr.balance as int * (MAX_IN_RATIO as int),
                    STROOP as int,
                );
            }
        }
        let cap = match crate::host::i128_fixed_mul_ceil(inr.balance, MAX_IN_RATIO, STROOP) {
            Some(v) => v,
            None => {
                return Err(Error::ErrMathApprox);
            },
        };
        if token_amount_in > cap {
            return Err(Error::ErrMaxInRatio);
        }
        proof {
            lemma_denorm_le_sum(self.records@, i as int);
            lemma_denorm_le_sum(self.records@, j as int);
            assert(token_amount_in as int * inr.scalar as int <= inr.balance as int
                * inr.scalar as int) by (nonlinear_arith)
                requires
                    0 <= token_amount_in,
                    token_amount_in as int <= inr.balance as int,
                    inr.scalar >= 1,
            ;
        }
        let sp_before = match calc_spot_price(&inr, &outr, self.swap_fee) {
            Ok(v) => v,
            Err(er) => {
                return Err(er);
            },
        };
        if sp_before > max_price {
            return Err(Error::ErrBadLimitPrice);
        }
        let out_amount = match crate::c_math::calc_token_out_given_token_in(
            e,
            &inr,
            &outr,
            token_amount_in,
            self.swap_fee,
        ) {
            Ok(v) => v,
            Err(er) => {
                return Err(er);
            },
        };
        if out_amount < min_amount_out {
            return Err(Error::ErrLimitOut);
        }
        proof {
            assert(inr.balance as int <= UPSCALE_LIMIT as int) by (nonlinear_arith)
                requires
                    inr.balance as int * inr.scalar as int <= UPSCALE_LIMIT as int,
                    inr.scalar >= 1,
                    inr.balance >= 0,
            ;
        }
        let new_bal_in = inr.balance + token_amount_in;
        let up_in = match new_bal_in.checked_mul(inr.scalar) {
            Some(v) => v,
            None => {
                proof {
                    assert(new_bal_in as int * inr.scalar as int >= 0) by (nonlinear_arith)
                        requires new_bal_in >= 0 && inr.scalar >= 1;
                }
                return Err(Error::ErrMathApprox);
            },
        };
        if up_in > UPSCALE_LIMIT {
            return Err(Error::ErrMathApprox);
        }
        if out_amount >= outr.balance {
            return Err(Error::ErrInsufficientBalance);
        }
        proof {
            // the out-amount a floor-rounded formula pays is never negative
            let m = crate::c_math::token_out_res(inr, outr, token_amount_in as int,
                self.swap_fee as int);
            assert(out_amount >= 0) by {
                if out_amount < 0 {
                    assert(m matches Ok(v) && v == out_amount as int);
                    assert(min_amount_out >= 0);
                }
            }
        }
        let new_inr = Record { balance: new_bal_in, ..inr };
        let new_outr = Record { balance: outr.balance - out_amount, ..outr };
        let sp_after = match calc_spot_price(&new_inr, &new_outr, self.swap_fee) {
            Ok(v) => v,
            Err(er) => {
                return Err(er);
            },
        };
        if sp_after < sp_before {
            return Err(Error::ErrMathApprox);
        }
        if sp_after > max_price {
            return Err(Error::ErrLimitPrice);
        }
        proof {
            if out_amount > 0 && in_i128(token_amount_in as int * (STROOP as int)) {
                crate::fixed_point::lemma_floor_div_in_i128(
                    token_amount_in as int * (STROOP as int),
                    out_amount as int,
                );
            }
            assert(token_amount_in as int * (STROOP as int) >= 0) by (nonlinear_arith)
                requires token_amount_in >= 0 && STROOP > 0;
        }
        let implied = match crate::host::i128_fixed_div_floor(token_amount_in, out_amount, STROOP) {
            Some(v) => v,
            None => {
                return Err(Error::ErrDivInternal);
            },
        };
        if sp_before > implied {
            return Err(Error::ErrMathApprox);
        }
        proof {
            lemma_sum_denorm_update(self.records@, i as int, (token_in, new_inr));
        }
        self.records.set(i, (token_in, new_inr));
        proof {
            lemma_sum_denorm_update(self.records@, j as int, (token_out, new_outr));
        }
        self.records.set(j, (token_out, new_outr));
        proof {
            let s = self.records@;
            let so = old(self).records@;
            assert(s == so.update(i as int, (token_in, new_inr)).update(
                j as int,
                (token_out, new_outr),
            ));
            assert(forall|k: int| 0 <= k < s.len() && k != i as int && k != j as int ==> s[k]
                == so[k]);
            assert forall|k: int| 0 <= k < s.len() implies (#[trigger] s[k]).1.balance as int
                * s[k].1.scalar as int <= UPSCALE_LIMIT as int by {
                if k == j as int {
                    assert(s[k].1 == new_outr);
                    assert(new_outr.balance as int * new_outr.scalar as int
                        <= UPSCALE_LIMIT as int) by (nonlinear_arith)
                        requires
                            0 <= new_outr.balance as int <= outr.balance as int,
                            outr.balance as int * outr.scalar as int <= UPSCALE_LIMIT as int,
                            new_outr.scalar == outr.scalar,
                            outr.scalar >= 1,
                    ;
                } else if k == i as int {
                    assert(s[k].1 == new_inr);
                }
            }
        }
        Ok((out_amount, sp_after))
    }
}

impl CometPoolContract {
    /// Everything `swap_exact_amount_out` decides, mirrored over the
    /// mathematical integers.
    pub open spec fn swap_out_res(
        &self,
        token_in: u64,
        max_amount_in: i128,
        token_out: u64,
        token_amount_out: i128,
        max_price: i128,
    ) -> Result<(int, int), Error> {
        if self.frozen {
            Err(Error::ErrFreezeOnlyWithdrawals)
        } else if token_amount_out < 0 || max_amount_in < 0 || max_price < 0 {
            Err(Error::ErrNegative)
        } else if !self.public_swap {
            Err(Error::ErrSwapNotPublic)
        } else if !has_tok(self.records@, token_in) || !has_tok(self.records@, token_out) {
            Err(Error::ErrNotBound)
        } else {
            let inr = rec_of(self.records@, token_in);
            let outr = rec_of(self.records@, token_out);
            if !in_i128(outr.balance as int * (MAX_OUT_RATIO as int)) {
                Err(Error::ErrMathApprox)
            } else if token_amount_out as int > ceil_div(
                outr.balance as int * (MAX_OUT_RATIO as int),
                STROOP as int,
            ) {
                Err(Error::ErrMaxOutRatio)
            } else {
                match spot_price_res(
                    inr.balance as int,
                    inr.denorm as int,
                    outr.balance as int,
                    outr.denorm as int,
                    self.swap_fee as int,
                ) {
                    Err(e) => Err(e),
                    Ok(sp_before) => if sp_before > max_price as int {
                        Err(Error::ErrBadLimitPrice)
                    } else {
                        match crate::c_math::token_in_res(
                            inr,
                            outr,
                            token_amount_out as int,
                            self.swap_fee as int,
                        ) {
                            Err(e) => Err(e),
                            Ok(in_amount) => if in_amount <= 0 {
                                Err(Error::ErrMathApprox)
                            } else if in_amount > max_amount_in as int {
                                Err(Error::ErrLimitIn)
                            } else if !in_i128(inr.balance + in_amount) || (inr.balance
                                + in_amount) * inr.scalar > UPSCALE_LIMIT as int {
                                Err(Error::ErrMathApprox)
                            } else if token_amount_out as int >= outr.balance as int {
                                Err(Error::ErrInsufficientBalance)
                            } else {
                                let new_in = Record {
                                    balance: (inr.balance + in_amount) as i128,
                                    ..inr
                                };
                                let new_out = Record {
                                    balance: (outr.balance - token_amount_out) as i128,
                                    ..outr
                                };
                                match spot_price_res(
                                    new_in.balance as int,
                                    new_in.denorm as int,
                                    new_out.balance as int,
                                    new_out.denorm as int,
                                    self.swap_fee as int,
                                ) {
                                    Err(e) => Err(e),
                                    Ok(sp_after) => if sp_after < sp_before {
                                        Err(Error::ErrMathApprox)
                                    } else if sp_after > max_price as int {
                                        Err(Error::ErrLimitPrice)
                                    } else if token_amount_out == 0 || !in_i128(
                                        in_amount * (STROOP as int),
                                    ) {
                                        Err(Error::ErrDivInternal)
                                    } else if sp_before > floor_div(
                                        in_amount * (STROOP as int),
                                        token_amount_out as int,
                                    ) {
                                        Err(Error::ErrMathApprox)
                                    } else {
                                        Ok((in_amount, sp_after))
                                    },
                                }
                            },
                        }
                    },
                }
            }
        }
    }

    /// Buys an exact amount of `token_out` for as little `token_in` as the
    /// invariant allows, never more than `max_amount_in` and never past
    /// `max_price`. Returns the in-amount and the spot price after; the
    /// caller pulls the in-amount from the user and pays `token_amount_out`
    /// to them. The spot price never decreases across a successful swap.
    pub fn swap_exact_amount_out(
        &mut self,
        e: &Env,
        token_in: u64,
        max_amount_in: i128,
        token_out: u64,
        token_amount_out: i128,
        max_price: i128,
        user: u64,
    ) -> (r: Result<(i128, i128), Error>)
        requires
            old(self).valid(),
        ensures
            final(self).valid(),
            old(self).swap_out_res(token_in, max_amount_in, token_out, token_amount_out, max_price)
                matches Err(er) ==> (r matches Err(er2) && er2 == er && *final(self) == *old(self)),
            old(self).swap_out_res(token_in, max_amount_in, token_out, token_amount_out, max_price)
                matches Ok(v) ==> (r matches Ok(w) && w.0 as int == v.0 && w.1 as int == v.1
                && final(self).records@ == old(self).records@.update(
                tok_idx(old(self).records@, token_in),
                (
                    token_in,
                    Record {
                        balance: (rec_of(old(self).records@, token_in).balance + v.0) as i128,
                        ..rec_of(old(self).records@, token_in)
                    },
                ),
            ).update(
                tok_idx(old(self).records@, token_out),
                (
                    token_out,
                    Record {
                        balance: (rec_of(old(self).records@, token_out).balance
                            - token_amount_out) as i128,
                        ..rec_of(old(self).records@, token_out)
                    },
                ),
            ) && *final(self) == CometPoolContract {
                records: final(self).records,
                ..*old(self)
            }),
    {
        // authenticating `user` and settling both transfers is the caller's
        // side of the operation
        let _ = user;
        if self.frozen {
            return Err(Error::ErrFreezeOnlyWithdrawals);
        }
        if token_amount_out < 0 || max_amount_in < 0 || max_price < 0 {
            return Err(Error::ErrNegative);
        }
        if !self.public_swap {
            return Err(Error::ErrSwapNotPublic);
        }
        let i = match self.find_record(token_in) {
            Some(i) => i,
            None => {
                return Err(Error::ErrNotBound);
            },
        };
        let j = match self.find_record(token_out) {
            Some(j) => j,
            None => {
                return Err(Error::ErrNotBound);
            },
        };
        let inr = self.records[i].1;
        let outr = self.records[j].1;
        proof {
            assert(outr.balance as int * (MAX_OUT_RATIO as int) >= 0) by (nonlinear_arith)
                requires outr.balance >= 1 && MAX_OUT_RATIO > 0;
            assert(outr.balance as int * (MAX_OUT_RATIO as int) <= (outr.balance as int) * (
            STROOP as int)) by (nonlinear_arith)
                requires outr.balance >= 0 && 0 < MAX_OUT_RATIO < STROOP;
            crate::fixed_point::lemma_ceil_div_le(
                outr.balance as int * (MAX_OUT_RATIO as int),
                STROOP as int,
                outr.balance as int,
            );
            if in_i128(outr.balance as int * (MAX_OUT_RATIO as int)) {
                crate::fixed_point::lemma_ceil_div_in_i128(
                    outr.balance as int * (MAX_OUT_RATIO as int),
                    STROOP as int,
                );
            }
        }
        let cap = match crate::host::i128_fixed_mul_ceil(outr.balance, MAX_OUT_RATIO, STROOP) {
            Some(v) => v,
            None => {
                return Err(Error::ErrMathApprox);
            },
        };
        if token_amount_out > cap {
            return Err(Error::ErrMaxOutRatio);
        }
        proof {
            lemma_denorm_le_sum(self.records@, i as int);
            lemma_denorm_le_sum(self.records@, j as int);
            assert(token_amount_out as int * outr.scalar as int <= outr.balance as int
                * outr.scalar as int) by (nonlinear_arith)
                requires
                    0 <= token_amount_out,
                    token_amount_out as int <= outr.balance as int,
                    outr.scalar >= 1,
            ;
        }
        let sp_before = match calc_spot_price(&inr, &outr, self.swap_fee) {
            Ok(v) => v,
            Err(er) => {
                return Err(er);
            },
        };
        if sp_before > max_price {
            return Err(Error::ErrBadLimitPrice);
        }
        let in_amount = match crate::c_math::calc_token_in_given_token_out(
            e,
            &inr,
            &outr,
            token_amount_out,
            self.swap_fee,
        ) {
            Ok(v) => v,
            Err(er) => {
                return Err(er);
            },
        };
        if in_amount <= 0 {
            return Err(Error::ErrMathApprox);
        }
        if in_amount > max_amount_in {
            return Err(Error::ErrLimitIn);
        }
        proof {
            assert(inr.balance as int <= UPSCALE_LIMIT as int) by (nonlinear_arith)
                requires
                    inr.balance as int * inr.scalar as int <= UPSCALE_LIMIT as int,
                    inr.scalar >= 1,
                    inr.balance >= 0,
            ;
        }
        let new_bal_in = match inr.balance.checked_add(in_amount) {
            Some(v) => v,
            None => {
                return Err(Error::ErrMathApprox);
            },
        };
        let up_in = match new_bal_in.checked_mul(inr.scalar) {
            Some(v) => v,
            None => {
                proof {
                    assert(new_bal_in as int * inr.scalar as int >= 0) by (nonlinear_arith)
                        requires new_bal_in >= 0 && inr.scalar >= 1;
                }
                return Err(Error::ErrMathApprox);
            },
        };
        if up_in > UPSCALE_LIMIT {
            return Err(Error::ErrMathApprox);
        }
        if token_amount_out >= outr.balance {
            return Err(Error::ErrInsufficientBalance);
        }
        let new_inr = Record { balance: new_bal_in, ..inr };
        let new_outr = Record { balance: outr.balance - token_amount_out, ..outr };
        let sp_after = match calc_spot_price(&new_inr, &new_outr, self.swap_fee) {
            Ok(v) => v,
            Err(er) => {
                return Err(er);
            },
        };
        if sp_after < sp_before {
            return Err(Error::ErrMathApprox);
        }
        if sp_after > max_price {
            return Err(Error::ErrLimitPrice);
        }
        proof {
            if token_amount_out > 0 && in_i128(in_amount as int * (STROOP as int)) {
                crate::fixed_point::lemma_floor_div_in_i128(
                    in_amount as int * (STROOP as int),
                    token_amount_out as int,
                );
            }
            assert(in_amount as int * (STROOP as int) >= 0) by (nonlinear_arith)
                requires in_amount >= 0 && STROOP > 0;
        }
        let implied = match crate::host::i128_fixed_div_floor(in_amount, token_amount_out, STROOP) {
            Some(v) => v,
            None => {
                return Err(Error::ErrDivInternal);
            },
        };
        if sp_before > implied {
            return Err(Error::ErrMathApprox);
        }
        proof {
            lemma_sum_denorm_update(self.records@, i as int, (token_in, new_inr));
        }
        self.records.set(i, (token_in, new_inr));
        proof {
            lemma_sum_denorm_update(self.records@, j as int, (token_out, new_outr));
        }
        self.records.set(j, (token_out, new_outr));
        proof {
            let s = self.records@;
            let so = old(self).records@;
            assert(s == so.update(i as int, (token_in, new_inr)).update(
                j as int,
                (token_out, new_outr),
            ));
            assert(forall|k: int| 0 <= k < s.len() && k != i as int && k != j as int ==> s[k]
                == so[k]);
            assert forall|k: int| 0 <= k < s.len() implies (#[trigger] s[k]).1.balance as int
                * s[k].1.scalar as int <= UPSCALE_LIMIT as int by {
                if k == j as int {
                    assert(s[k].1 == new_outr);
                    assert(new_outr.balance as int * new_outr.scalar as int
                        <= UPSCALE_LIMIT as int) by (nonlinear_arith)
                        requires
                            0 <= new_outr.balance as int <= outr.balance as int,
                            outr.balance as int * outr.scalar as int <= UPSCALE_LIMIT as int,
                            new_outr.scalar == outr.scalar,
                            outr.scalar >= 1,
                    ;
                } else if k == i as int {
                    assert(s[k].1 == new_inr);
                }
            }
        }
        Ok((in_amount, sp_after))
    }
}

impl CometPoolContract {
    /// Everything the single-sided deposit of an exact token amount
    /// decides: the shares minted, or the exact error.
    pub open spec fn dep_in_res(
        &self,
        token_in: u64,
        token_amount_in: i128,
        min_pool_amount_out: i128,
    ) -> Result<int, Error> {
        if self.frozen {
            Err(Error::ErrFreezeOnlyWithdrawals)
        } else if token_amount_in <= 0 {
            Err(Error::ErrNegativeOrZero)
        } else if min_pool_amount_out < 0 {
            Err(Error::ErrNegative)
        } else if !self.finalized {
            Err(Error::ErrNotFinalized)
        } else if !self.public_swap {
            Err(Error::ErrSwapNotPublic)
        } else if !has_tok(self.records@, token_in) {
            Err(Error::ErrNotBound)
        } else {
            let inr = rec_of(self.records@, token_in);
            if !in_i128(inr.balance as int * (MAX_IN_RATIO as int)) {
                Err(Error::ErrMathApprox)
            } else if token_amount_in as int > ceil_div(
                inr.balance as int * (MAX_IN_RATIO as int),
                STROOP as int,
            ) {
                Err(Error::ErrMaxInRatio)
            } else {
                match crate::c_math::lp_out_given_deposit_res(
                    inr,
                    self.shares.total as int,
                    self.total_weight as int,
                    token_amount_in as int,
                    self.swap_fee as int,
                ) {
                    Err(e) => Err(e),
                    Ok(pool_out) => if pool_out < min_pool_amount_out as int {
                        Err(Error::ErrLimitOut)
                    } else if (inr.balance + token_amount_in) * inr.scalar > UPSCALE_LIMIT as int {
                        Err(Error::ErrMathApprox)
                    } else if self.shares.total + pool_out > MAX_POOL_SUPPLY as int {
                        Err(Error::ErrMathApprox)
                    } else {
                        Ok(pool_out)
                    },
                }
            }
        }
    }

    /// Deposits an exact amount of one token and mints the computed shares
    /// to the user; the caller pulls the deposit from the user.
    pub fn dep_tokn_amt_in_get_lp_tokns_out(
        &mut self,
        e: &Env,
        token_in: u64,
        token_amount_in: i128,
        min_pool_amount_out: i128,
        user: u64,
    ) -> (r: Result<i128, Error>)
        requires
            old(self).valid(),
        ensures
            final(self).valid(),
            old(self).dep_in_res(token_in, token_amount_in, min_pool_amount_out) matches Err(er)
                ==> (r matches Err(er2) && er2 == er && *final(self) == *old(self)),
            old(self).dep_in_res(token_in, token_amount_in, min_pool_amount_out) matches Ok(v)
                ==> (r matches Ok(w) && w as int == v && final(self).records@ == old(self).records@.update(
                tok_idx(old(self).records@, token_in),
                (
                    token_in,
                    Record {
                        balance: (rec_of(old(self).records@, token_in).balance
                            + token_amount_in) as i128,
                        ..rec_of(old(self).records@, token_in)
                    },
                ),
            ) && final(self).shares.total as int == old(self).shares.total + v && final(self).shares.spec_balance(user) == old(self).shares.spec_balance(user) + v && (forall|
                b: u64,
            |
                b != user ==> final(self).shares.spec_balance(b) == old(self).shares.spec_balance(
                    b,
                )) && *final(self) == CometPoolContract {
                records: final(self).records,
                shares: final(self).shares,
                ..*old(self)
            }),
    {
        if self.frozen {
            return Err(Error::ErrFreezeOnlyWithdrawals);
        }
        if token_amount_in <= 0 {
            return Err(Error::ErrNegativeOrZero);
        }
        if min_pool_amount_out < 0 {
            return Err(Error::ErrNegative);
        }
        if !self.finalized {
            return Err(Error::ErrNotFinalized);
        }
        if !self.public_swap {
            return Err(Error::ErrSwapNotPublic);
        }
        let i = match self.find_record(token_in) {
            Some(i) => i,
            None => {
                return Err(Error::ErrNotBound);
            },
        };
        let inr = self.records[i].1;
        proof {
            assert(inr.balance as int * (MAX_IN_RATIO as int) >= 0) by (nonlinear_arith)
                requires inr.balance >= 1 && MAX_IN_RATIO > 0;
            assert(inr.balance as int * (MAX_IN_RATIO as int) <= (inr.balance as int) * (
            STROOP as int)) by (nonlinear_arith)
                requires inr.balance >= 0 && 0 < MAX_IN_RATIO < STROOP;
            crate::fixed_point::lemma_ceil_div_le(
                inr.balance as int * (MAX_IN_RATIO as int),
                STROOP as int,
                inr.balance as int,
            );
            if in_i128(inr.balance as int * (MAX_IN_RATIO as int)) {
                crate::fixed_point::lemma_ceil_div_in_i128(
                    inr.balance as int * (MAX_IN_RATIO as int),
                    STROOP as int,
                );
            }
        }
        let cap = match crate::host::i128_fixed_mul_ceil(inr.balance, MAX_IN_RATIO, STROOP) {
            Some(v) => v,
            None => {
                return Err(Error::ErrMathApprox);
            },
        };
        if token_amount_in > cap {
            return Err(Error::ErrMaxInRatio);
        }
        proof {
            lemma_denorm_le_sum(self.records@, i as int);
            assert(token_amount_in as int * inr.scalar as int <= inr.balance as int
                * inr.scalar as int) by (nonlinear_arith)
                requires
                    0 <= token_amount_in,
                    token_amount_in as int <= inr.balance as int,
                    inr.scalar >= 1,
            ;
            assert(self.shares.total as int * (STROOP_SCALAR as int) <= UPSCALE_LIMIT as int)
                by (nonlinear_arith)
                requires
                    0 <= self.shares.total <= MAX_POOL_SUPPLY,
                    MAX_POOL_SUPPLY as int * (STROOP_SCALAR as int) == UPSCALE_LIMIT as int,
            ;
        }
        let pool_out = match crate::c_math::calc_lp_token_amount_given_token_deposits_in(
            e,
            &inr,
            self.shares.total,
            self.total_weight,
            token_amount_in,
            self.swap_fee,
        ) {
            Ok(v) => v,
            Err(er) => {
                return Err(er);
            },
        };
        if pool_out < min_pool_amount_out {
            return Err(Error::ErrLimitOut);
        }
        proof {
            assert(inr.balance as int <= UPSCALE_LIMIT as int) by (nonlinear_arith)
                requires
                    inr.balance as int * inr.scalar as int <= UPSCALE_LIMIT as int,
                    inr.scalar >= 1,
                    inr.balance >= 0,
            ;
            let m = crate::c_math::lp_out_given_deposit_res(inr, self.shares.total as int,
                self.total_weight as int, token_amount_in as int, self.swap_fee as int);
            assert(pool_out >= 0) by {
                if pool_out < 0 {
                    assert(m matches Ok(v) && v == pool_out as int);
                    assert(min_pool_amount_out >= 0);
                }
            }
        }
        let new_bal_in = inr.balance + token_amount_in;
        let up_in = match new_bal_in.checked_mul(inr.scalar) {
            Some(v) => v,
            None => {
                proof {
                    assert(new_bal_in as int * inr.scalar as int >= 0) by (nonlinear_arith)
                        requires new_bal_in >= 0 && inr.scalar >= 1;
                }
                return Err(Error::ErrMathApprox);
            },
        };
        if up_in > UPSCALE_LIMIT {
            return Err(Error::ErrMathApprox);
        }
        if self.shares.total > MAX_POOL_SUPPLY - pool_out {
            return Err(Error::ErrMathApprox);
        }
        let res = self.shares.receive(user, pool_out);
        proof {
            assert(res matches Ok(u));
        }
        let new_inr = Record { balance: new_bal_in, ..inr };
        proof {
            lemma_sum_denorm_update(self.records@, i as int, (token_in, new_inr));
        }
        self.records.set(i, (token_in, new_inr));
        proof {
            let s = self.records@;
            let so = old(self).records@;
            assert(s == so.update(i as int, (token_in, new_inr)));
            assert(forall|k: int| 0 <= k < s.len() && k != i as int ==> s[k] == so[k]);
        }
        Ok(pool_out)
    }

    /// Everything the single-sided deposit for an exact share amount
    /// decides: the deposit required, or the exact error.
    pub open spec fn dep_out_res(
        &self,
        token_in: u64,
        pool_amount_out: i128,
        max_amount_in: i128,
    ) -> Result<int, Error> {
        if self.frozen {
            Err(Error::ErrFreezeOnlyWithdrawals)
        } else if pool_amount_out <= 0 || max_amount_in <= 0 {
            Err(Error::ErrNegativeOrZero)
        } else if !self.finalized {
            Err(Error::ErrNotFinalized)
        } else if !self.public_swap {
            Err(Error::ErrSwapNotPublic)
        } else if !has_tok(self.records@, token_in) {
            Err(Error::ErrNotBound)
        } else if pool_amount_out > MAX_POOL_SUPPLY {
            Err(Error::ErrMathApprox)
        } else {
            let inr = rec_of(self.records@, token_in);
            match crate::c_math::deposit_given_lp_out_res(
                inr,
                self.shares.total as int,
                self.total_weight as int,
                pool_amount_out as int,
                self.swap_fee as int,
            ) {
                Err(e) => Err(e),
                Ok(amount_in) => if amount_in <= 0 {
                    Err(Error::ErrMathApprox)
                } else if amount_in > max_amount_in as int {
                    Err(Error::ErrLimitIn)
                } else if !in_i128(inr.balance as int * (MAX_IN_RATIO as int)) {
                    Err(Error::ErrMathApprox)
                } else if amount_in > ceil_div(
                    inr.balance as int * (MAX_IN_RATIO as int),
                    STROOP as int,
                ) {
                    Err(Error::ErrMaxInRatio)
                } else if !in_i128(inr.balance + amount_in) || (inr.balance + amount_in)
                    * inr.scalar > UPSCALE_LIMIT as int {
                    Err(Error::ErrMathApprox)
                } else if self.shares.total + pool_amount_out > MAX_POOL_SUPPLY as int {
                    Err(Error::ErrMathApprox)
                } else {
                    Ok(amount_in)
                },
            }
        }
    }

    /// Mints an exact number of shares to the user against the computed
    /// single-token deposit; the caller pulls the deposit from the user.
    pub fn dep_lp_tokn_amt_out_get_tokn_in(
        &mut self,
        e: &Env,
        token_in: u64,
        pool_amount_out: i128,
        max_amount_in: i128,
        user: u64,
    ) -> (r: Result<i128, Error>)
        requires
            old(self).valid(),
        ensures
            final(self).valid(),
            old(self).dep_out_res(token_in, pool_amount_out, max_amount_in) matches Err(er) ==> (
            r matches Err(er2) && er2 == er && *final(self) == *old(self)),
            old(self).dep_out_res(token_in, pool_amount_out, max_amount_in) matches Ok(v) ==> (
            r matches Ok(w) && w as int == v && final(self).records@ == old(self).records@.update(
                tok_idx(old(self).records@, token_in),
                (
                    token_in,
                    Record {
                        balance: (rec_of(old(self).records@, token_in).balance + v) as i128,
                        ..rec_of(old(self).records@, token_in)
                    },
                ),
            ) && final(self).shares.total == old(self).shares.total + pool_amount_out && final(self).shares.spec_balance(user) == old(self).shares.spec_balance(user) + pool_amount_out
                && (forall|b: u64|
                b != user ==> final(self).shares.spec_balance(b) == old(self).shares.spec_balance(
                    b,
                )) && *final(self) == CometPoolContract {
                records: final(self).records,
                shares: final(self).shares,
                ..*old(self)
            }),
    {
        if self.frozen {
            return Err(Error::ErrFreezeOnlyWithdrawals);
        }
        if pool_amount_out <= 0 || max_amount_in <= 0 {
            return Err(Error::ErrNegativeOrZero);
        }
        if !self.finalized {
            return Err(Error::ErrNotFinalized);
        }
        if !self.public_swap {
            return Err(Error::ErrSwapNotPublic);
        }
        let i = match self.find_record(token_in) {
            Some(i) => i,
            None => {
                return Err(Error::ErrNotBound);
            },
        };
        if pool_amount_out > MAX_POOL_SUPPLY {
            return Err(Error::ErrMathApprox);
        }
        let inr = self.records[i].1;
        proof {
            lemma_denorm_le_sum(self.records@, i as int);
            assert(self.shares.total as int * (STROOP_SCALAR as int) <= UPSCALE_LIMIT as int
                && pool_amount_out as int * (STROOP_SCALAR as int) <= UPSCALE_LIMIT as int)
                by (nonlinear_arith)
                requires
                    0 <= self.shares.total <= MAX_POOL_SUPPLY,
                    0 <= pool_amount_out <= MAX_POOL_SUPPLY,
                    MAX_POOL_SUPPLY as int * (STROOP_SCALAR as int) == UPSCALE_LIMIT as int,
            ;
        }
        let amount_in = match crate::c_math::calc_token_deposits_in_given_lp_token_amount(
            e,
            &inr,
            self.shares.total,
            self.total_weight,
            pool_amount_out,
            self.swap_fee,
        ) {
            Ok(v) => v,
            Err(er) => {
                return Err(er);
            },
        };
        if amount_in <= 0 {
            return Err(Error::ErrMathApprox);
        }
        if amount_in > max_amount_in {
            return Err(Error::ErrLimitIn);
        }
        proof {
            assert(inr.balance as int * (MAX_IN_RATIO as int) >= 0) by (nonlinear_arith)
                requires inr.balance >= 1 && MAX_IN_RATIO > 0;
            assert(inr.balance as int * (MAX_IN_RATIO as int) <= (inr.balance as int) * (
            STROOP as int)) by (nonlinear_arith)
                requires inr.balance >= 0 && 0 < MAX_IN_RATIO < STROOP;
            crate::fixed_point::lemma_ceil_div_le(
                inr.balance as int * (MAX_IN_RATIO as int),
                STROOP as int,
                inr.balance as int,
            );
            if in_i128(inr.balance as int * (MAX_IN_RATIO as int)) {
                crate::fixed_point::lemma_ceil_div_in_i128(
                    inr.balance as int * (MAX_IN_RATIO as int),
                    STROOP as int,
                );
            }
        }
        let cap = match crate::host::i128_fixed_mul_ceil(inr.balance, MAX_IN_RATIO, STROOP) {
            Some(v) => v,
            None => {
                return Err(Error::ErrMathApprox);
            },
        };
        if amount_in > cap {
            return Err(Error::ErrMaxInRatio);
        }
        proof {
            assert(inr.balance as int <= UPSCALE_LIMIT as int) by (nonlinear_arith)
                requires
                    inr.balance as int * inr.scalar as int <= UPSCALE_LIMIT as int,
                    inr.scalar >= 1,
                    inr.balance >= 0,
            ;
        }
        let new_bal_in = match inr.balance.checked_add(amount_in) {
            Some(v) => v,
            None => {
                return Err(Error::ErrMathApprox);
            },
        };
        let up_in = match new_bal_in.checked_mul(inr.scalar) {
            Some(v) => v,
            None => {
                proof {
                    assert(new_bal_in as int * inr.scalar as int >= 0) by (nonlinear_arith)
                        requires new_bal_in >= 0 && inr.scalar >= 1;
                }
                return Err(Error::ErrMathApprox);
            },
        };
        if up_in > UPSCALE_LIMIT {
            return Err(Error::ErrMathApprox);
        }
        if self.shares.total > MAX_POOL_SUPPLY - pool_amount_out {
            return Err(Error::ErrMathApprox);
        }
        let res = self.shares.receive(user, pool_amount_out);
        proof {
            assert(res matches Ok(u));
        }
        let new_inr = Record { balance: new_bal_in, ..inr };
        proof {
            lemma_sum_denorm_update(self.records@, i as int, (token_in, new_inr));
        }
        self.records.set(i, (token_in, new_inr));
        proof {
            let s = self.records@;
            let so = old(self).records@;
            assert(s == so.update(i as int, (token_in, new_inr)));
            assert(forall|k: int| 0 <= k < s.len() && k != i as int ==> s[k] == so[k]);
        }
        Ok(amount_in)
    }
}

impl CometPoolContract {
    /// Everything the single-sided withdrawal of an exact share burn
    /// decides: the amount paid out, or the exact error.
    pub open spec fn wdr_in_res(
        &self,
        token_out: u64,
        pool_amount_in: i128,
        min_amount_out: i128,
        user: u64,
    ) -> Result<int, Error> {
        if pool_amount_in <= 0 {
            Err(Error::ErrNegativeOrZero)
        } else if min_amount_out < 0 {
            Err(Error::ErrNegative)
        } else if !self.finalized {
            Err(Error::ErrNotFinalized)
        } else if !self.public_swap {
            Err(Error::ErrSwapNotPublic)
        } else if !has_tok(self.records@, token_out) {
            Err(Error::ErrNotBound)
        } else if pool_amount_in > MAX_POOL_SUPPLY {
            Err(Error::ErrMathApprox)
        } else {
            let outr = rec_of(self.records@, token_out);
            match crate::c_math::withdrawal_given_lp_in_res(
                outr,
                self.shares.total as int,
                self.total_weight as int,
                pool_amount_in as int,
                self.swap_fee as int,
            ) {
                Err(e) => Err(e),
                Ok(amount_out) => if amount_out < min_amount_out as int {
                    Err(Error::ErrLimitOut)
                } else if !in_i128(outr.balance as int * (MAX_OUT_RATIO as int)) {
                    Err(Error::ErrMathApprox)
                } else if amount_out > ceil_div(
                    outr.balance as int * (MAX_OUT_RATIO as int),
                    STROOP as int,
                ) {
                    Err(Error::ErrMaxOutRatio)
                } else if amount_out >= outr.balance as int {
                    Err(Error::ErrInsufficientBalance)
                } else if self.shares.spec_balance(user) < pool_amount_in {
                    Err(Error::ErrInsufficientBalance)
                } else {
                    Ok(amount_out)
                },
            }
        }
    }

    /// Burns an exact number of shares from the user and pays out the
    /// computed single-token withdrawal; the caller sends the amount to the
    /// user. Runs under a freeze.
    pub fn wdr_tokn_amt_in_get_lp_tokns_out(
        &mut self,
        e: &Env,
        token_out: u64,
        pool_amount_in: i128,
        min_amount_out: i128,
        user: u64,
    ) -> (r: Result<i128, Error>)
        requires
            old(self).valid(),
        ensures
            final(self).valid(),
            old(self).wdr_in_res(token_out, pool_amount_in, min_amount_out, user) matches Err(er)
                ==> (r matches Err(er2) && er2 == er && *final(self) == *old(self)),
            old(self).wdr_in_res(token_out, pool_amount_in, min_amount_out, user) matches Ok(v)
                ==> (r matches Ok(w) && w as int == v && final(self).records@ == old(self).records@.update(
                tok_idx(old(self).records@, token_out),
                (
                    token_out,
                    Record {
                        balance: (rec_of(old(self).records@, token_out).balance - v) as i128,
                        ..rec_of(old(self).records@, token_out)
                    },
                ),
            ) && final(self).shares.total == old(self).shares.total - pool_amount_in && final(self).shares.spec_balance(user) == old(self).shares.spec_balance(user) - pool_amount_in
                && (forall|b: u64|
                b != user ==> final(self).shares.spec_balance(b) == old(self).shares.spec_balance(
                    b,
                )) && *final(self) == CometPoolContract {
                records: final(self).records,
                shares: final(self).shares,
                ..*old(self)
            }),
    {
        if pool_amount_in <= 0 {
            return Err(Error::ErrNegativeOrZero);
        }
        if min_amount_out < 0 {
            return Err(Error::ErrNegative);
        }
        if !self.finalized {
            return Err(Error::ErrNotFinalized);
        }
        if !self.public_swap {
            return Err(Error::ErrSwapNotPublic);
        }
        let i = match self.find_record(token_out) {
            Some(i) => i,
            None => {
                return Err(Error::ErrNotBound);
            },
        };
        if pool_amount_in > MAX_POOL_SUPPLY {
            return Err(Error::ErrMathApprox);
        }
        let outr = self.records[i].1;
        proof {
            lemma_denorm_le_sum(self.records@, i as int);
            assert(self.shares.total as int * (STROOP_SCALAR as int) <= UPSCALE_LIMIT as int
                && pool_amount_in as int * (STROOP_SCALAR as int) <= UPSCALE_LIMIT as int)
                by (nonlinear_arith)
                requires
                    0 <= self.shares.total <= MAX_POOL_SUPPLY,
                    0 <= pool_amount_in <= MAX_POOL_SUPPLY,
                    MAX_POOL_SUPPLY as int * (STROOP_SCALAR as int) == UPSCALE_LIMIT as int,
            ;
        }
        let amount_out = match crate::c_math::calc_token_withdrawal_amount_given_lp_token_amount(
            e,
            &outr,
            self.shares.total,
            self.total_weight,
            pool_amount_in,
            self.swap_fee,
        ) {
            Ok(v) => v,
            Err(er) => {
                return Err(er);
            },
        };
        if amount_out < min_amount_out {
            return Err(Error::ErrLimitOut);
        }
        proof {
            let m = crate::c_math::withdrawal_given_lp_in_res(outr, self.shares.total as int,
                self.total_weight as int, pool_amount_in as int, self.swap_fee as int);
            assert(amount_out >= 0) by {
                if amount_out < 0 {
                    assert(m matches Ok(v) && v == amount_out as int);
                    assert(min_amount_out >= 0);
                }
            }
            assert(outr.balance as int * (MAX_OUT_RATIO as int) >= 0) by (nonlinear_arith)
                requires outr.balance >= 1 && MAX_OUT_RATIO > 0;
            if in_i128(outr.balance as int * (MAX_OUT_RATIO as int)) {
                crate::fixed_point::lemma_ceil_div_in_i128(
                    outr.balance as int * (MAX_OUT_RATIO as int),
                    STROOP as int,
                );
            }
        }
        let cap = match crate::host::i128_fixed_mul_ceil(outr.balance, MAX_OUT_RATIO, STROOP) {
            Some(v) => v,
            None => {
                return Err(Error::ErrMathApprox);
            },
        };
        if amount_out > cap {
            return Err(Error::ErrMaxOutRatio);
        }
        if amount_out >= outr.balance {
            return Err(Error::ErrInsufficientBalance);
        }
        let res = self.shares.spend(user, pool_amount_in);
        match res {
            Ok(_) => {},
            Err(er) => {
                return Err(er);
            },
        }
        proof {
            crate::c_pool::ledger::lemma_bal_le_sum(self.shares.entries@, user);
        }
        let new_outr = Record { balance: outr.balance - amount_out, ..outr };
        proof {
            lemma_sum_denorm_update(self.records@, i as int, (token_out, new_outr));
        }
        self.records.set(i, (token_out, new_outr));
        proof {
            let s = self.records@;
            let so = old(self).records@;
            assert(s == so.update(i as int, (token_out, new_outr)));
            assert(forall|k: int| 0 <= k < s.len() && k != i as int ==> s[k] == so[k]);
            assert forall|k: int| 0 <= k < s.len() implies (#[trigger] s[k]).1.balance as int
                * s[k].1.scalar as int <= UPSCALE_LIMIT as int by {
                if k == i as int {
                    assert(new_outr.balance as int * new_outr.scalar as int
                        <= UPSCALE_LIMIT as int) by (nonlinear_arith)
                        requires
                            0 <= new_outr.balance as int <= outr.balance as int,
                            outr.balance as int * outr.scalar as int <= UPSCALE_LIMIT as int,
                            new_outr.scalar == outr.scalar,
                            outr.scalar >= 1,
                    ;
                }
            }
        }
        Ok(amount_out)
    }

    /// Everything the single-sided withdrawal of an exact token amount
    /// decides: the shares burned, or the exact error.
    pub open spec fn wdr_out_res(
        &self,
        token_out: u64,
        token_amount_out: i128,
        max_pool_amount_in: i128,
        user: u64,
    ) -> Result<int, Error> {
        if token_amount_out <= 0 || max_pool_amount_in <= 0 {
            Err(Error::ErrNegativeOrZero)
        } else if !self.finalized {
            Err(Error::ErrNotFinalized)
        } else if !self.public_swap {
            Err(Error::ErrSwapNotPublic)
        } else if !has_tok(self.records@, token_out) {
            Err(Error::ErrNotBound)
        } else {
            let outr = rec_of(self.records@, token_out);
            if !in_i128(outr.balance as int * (MAX_OUT_RATIO as int)) {
                Err(Error::ErrMathApprox)
            } else if token_amount_out as int > ceil_div(
                outr.balance as int * (MAX_OUT_RATIO as int),
                STROOP as int,
            ) {
                Err(Error::ErrMaxOutRatio)
            } else {
                match crate::c_math::lp_in_given_withdrawal_res(
                    outr,
                    self.shares.total as int,
                    self.total_weight as int,
                    token_amount_out as int,
                    self.swap_fee as int,
                ) {
                    Err(e) => Err(e),
                    Ok(pool_in) => if pool_in <= 0 {
                        Err(Error::ErrMathApprox)
                    } else if pool_in > max_pool_amount_in as int {
                        Err(Error::ErrLimitIn)
                    } else if token_amount_out as int >= outr.balance as int {
                        Err(Error::ErrInsufficientBalance)
                    } else if self.shares.spec_balance(user) < pool_in {
                        Err(Error::ErrInsufficientBalance)
                    } else {
                        Ok(pool_in)
                    },
                }
            }
        }
    }

    /// Pays out an exact single-token amount and burns the computed shares
    /// from the user; the caller sends the amount to the user. Runs under a
    /// freeze.
    pub fn wdr_tokn_amt_out_get_lp_tokns_in(
        &mut self,
        e: &Env,
        token_out: u64,
        token_amount_out: i128,
        max_pool_amount_in: i128,
        user: u64,
    ) -> (r: Result<i128, Error>)
        requires
            old(self).valid(),
        ensures
            final(self).valid(),
            old(self).wdr_out_res(token_out, token_amount_out, max_pool_amount_in, user)
                matches Err(er) ==> (r matches Err(er2) && er2 == er && *final(self) == *old(self)),
            old(self).wdr_out_res(token_out, token_amount_out, max_pool_amount_in, user)
                matches Ok(v) ==> (r matches Ok(w) && w as int == v && final(self).records@
                == old(self).records@.update(
                tok_idx(old(self).records@, token_out),
                (
                    token_out,
                    Record {
                        balance: (rec_of(old(self).records@, token_out).balance
                            - token_amount_out) as i128,
                        ..rec_of(old(self).records@, token_out)
                    },
                ),
            ) && final(self).shares.total as int == old(self).shares.total - v && final(self).shares.spec_balance(user) == old(self).shares.spec_balance(user) - v && (forall|
                b: u64,
            |
                b != user ==> final(self).shares.spec_balance(b) == old(self).shares.spec_balance(
                    b,
                )) && *final(self) == CometPoolContract {
                records: final(self).records,
                shares: final(self).shares,
                ..*old(self)
            }),
    {
        if token_amount_out <= 0 || max_pool_amount_in <= 0 {
            return Err(Error::ErrNegativeOrZero);
        }
        if !self.finalized {
            return Err(Error::ErrNotFinalized);
        }
        if !self.public_swap {
            return Err(Error::ErrSwapNotPublic);
        }
        let i = match self.find_record(token_out) {
            Some(i) => i,
            None => {
                return Err(Error::ErrNotBound);
            },
        };
        let outr = self.records[i].1;
        proof {
            assert(outr.balance as int * (MAX_OUT_RATIO as int) >= 0) by (nonlinear_arith)
                requires outr.balance >= 1 && MAX_OUT_RATIO > 0;
            assert(outr.balance as int * (MAX_OUT_RATIO as int) <= (outr.balance as int) * (
            STROOP as int)) by (nonlinear_arith)
                requires outr.balance >= 0 && 0 < MAX_OUT_RATIO < STROOP;
            crate::fixed_point::lemma_ceil_div_le(
                outr.balance as int * (MAX_OUT_RATIO as int),
                STROOP as int,
                outr.balance as int,
            );
            if in_i128(outr.balance as int * (MAX_OUT_RATIO as int)) {
                crate::fixed_point::lemma_ceil_div_in_i128(
                    outr.balance as int * (MAX_OUT_RATIO as int),
                    STROOP as int,
                );
            }
        }
        let cap = match crate::host::i128_fixed_mul_ceil(outr.balance, MAX_OUT_RATIO, STROOP) {
            Some(v) => v,
            None => {
                return Err(Error::ErrMathApprox);
            },
        };
        if token_amount_out > cap {
            return Err(Error::ErrMaxOutRatio);
        }
        proof {
            lemma_denorm_le_sum(self.records@, i as int);
            assert(token_amount_out as int * outr.scalar as int <= outr.balance as int
                * outr.scalar as int) by (nonlinear_arith)
                requires
                    0 <= token_amount_out,
                    token_amount_out as int <= outr.balance as int,
                    outr.scalar >= 1,
            ;
            assert(self.shares.total as int * (STROOP_SCALAR as int) <= UPSCALE_LIMIT as int)
                by (nonlinear_arith)
                requires
                    0 <= self.shares.total <= MAX_POOL_SUPPLY,
                    MAX_POOL_SUPPLY as int * (STROOP_SCALAR as int) == UPSCALE_LIMIT as int,
            ;
        }
        let pool_in = match crate::c_math::calc_lp_token_amount_given_token_withdrawal_amount(
            e,
            &outr,
            self.shares.total,
            self.total_weight,
            token_amount_out,
            self.swap_fee,
        ) {
            Ok(v) => v,
            Err(er) => {
                return Err(er);
            },
        };
        if pool_in <= 0 {
            return Err(Error::ErrMathApprox);
        }
        if pool_in > max_pool_amount_in {
            return Err(Error::ErrLimitIn);
        }
        if token_amount_out >= outr.balance {
            return Err(Error::ErrInsufficientBalance);
        }
        let res = self.shares.spend(user, pool_in);
        match res {
            Ok(_) => {},
            Err(er) => {
                return Err(er);
            },
        }
        proof {
            crate::c_pool::ledger::lemma_bal_le_sum(self.shares.entries@, user);
        }
        let new_outr = Record { balance: outr.balance - token_amount_out, ..outr };
        proof {
            lemma_sum_denorm_update(self.records@, i as int, (token_out, new_outr));
        }
        self.records.set(i, (token_out, new_outr));
        proof {
            let s = self.records@;
            let so = old(self).records@;
            assert(s == so.update(i as int, (token_out, new_outr)));
            assert(forall|k: int| 0 <= k < s.len() && k != i as int ==> s[k] == so[k]);
            assert forall|k: int| 0 <= k < s.len() implies (#[trigger] s[k]).1.balance as int
                * s[k].1.scalar as int <= UPSCALE_LIMIT as int by {
                if k == i as int {
                    assert(new_outr.balance as int * new_outr.scalar as int
                        <= UPSCALE_LIMIT as int) by (nonlinear_arith)
                        requires
                            0 <= new_outr.balance as int <= outr.balance as int,
                            outr.balance as int * outr.scalar as int <= UPSCALE_LIMIT as int,
                            new_outr.scalar == outr.scalar,
                            outr.scalar >= 1,
                    ;
                }
            }
        }
        Ok(pool_in)
    }
}

/// The first per-token failure of a proportional join, scanning from `k`.
pub open spec fn join_scan(
    recs: Seq<(u64, Record)>,
    ratio: int,
    maxes: Seq<i128>,
    k: int,
) -> Option<Error>
    decreases recs.len() - k,
{
    if k < 0 || k >= recs.len() {
        None
    } else {
        match crate::c_math::join_deposit_res(recs[k].1, ratio) {
            Err(e) => Some(e),
            Ok(a) => if a <= 0 {
                Some(Error::ErrMathApprox)
            } else if maxes[k] <= 0 {
                Some(Error::ErrNegative)
            } else if a > maxes[k] as int {
                Some(Error::ErrLimitIn)
            } else if (recs[k].1.balance + a) * recs[k].1.scalar > UPSCALE_LIMIT as int {
                Some(Error::ErrMathApprox)
            } else {
                join_scan(recs, ratio, maxes, k + 1)
            },
        }
    }
}

/// The first per-token failure of a proportional exit, scanning from `k`.
pub open spec fn exit_scan(
    recs: Seq<(u64, Record)>,
    ratio: int,
    mins: Seq<i128>,
    k: int,
) -> Option<Error>
    decreases recs.len() - k,
{
    if k < 0 || k >= recs.len() {
        None
    } else {
        match crate::c_math::exit_withdrawal_res(recs[k].1, ratio) {
            Err(e) => Some(e),
            Ok(a) => if a <= 0 {
                Some(Error::ErrMathApprox)
            } else if mins[k] < 0 {
                Some(Error::ErrNegative)
            } else if a < mins[k] as int {
                Some(Error::ErrLimitOut)
            } else if a >= recs[k].1.balance as int {
                Some(Error::ErrInsufficientBalance)
            } else {
                exit_scan(recs, ratio, mins, k + 1)
            },
        }
    }
}

impl CometPoolContract {
    /// Everything a proportional join decides: the join ratio when every
    /// check passes, or the exact error.
    pub open spec fn join_res(&self, pool_amount_out: i128, maxes: Seq<i128>) -> Result<
        int,
        Error,
    > {
        if self.frozen {
            Err(Error::ErrFreezeOnlyWithdrawals)
        } else if pool_amount_out <= 0 {
            Err(Error::ErrNegativeOrZero)
        } else if !self.finalized {
            Err(Error::ErrNotFinalized)
        } else if maxes.len() != self.records@.len() {
            Err(Error::ErrInvalidVectorLen)
        } else if pool_amount_out > MAX_POOL_SUPPLY {
            Err(Error::ErrMathApprox)
        } else if self.shares.total == 0 {
            Err(Error::ErrDivInternal)
        } else {
            let ratio = ceil_div(
                (pool_amount_out as int * (STROOP_SCALAR as int)) * (BONE as int),
                self.shares.total as int * (STROOP_SCALAR as int),
            );
            if ratio == 0 {
                Err(Error::ErrMathApprox)
            } else if join_scan(self.records@, ratio, maxes, 0) is Some {
                Err(join_scan(self.records@, ratio, maxes, 0)->Some_0)
            } else if self.shares.total + pool_amount_out > MAX_POOL_SUPPLY as int {
                Err(Error::ErrMathApprox)
            } else {
                Ok(ratio)
            }
        }
    }

    /// Joins the pool proportionally: mints `pool_amount_out` shares to the
    /// user against a deposit of every bound token, each rounded up and
    /// capped by the caller's `max_amounts_in`. Returns the deposits in
    /// token-list order for the caller to pull from the user.
    #[verifier::loop_isolation(false)]
    pub fn join_pool(
        &mut self,
        e: &Env,
        pool_amount_out: i128,
        max_amounts_in: &Vec<i128>,
        user: u64,
    ) -> (r: Result<Vec<i128>, Error>)
        requires
            old(self).valid(),
        ensures
            final(self).valid(),
            old(self).join_res(pool_amount_out, max_amounts_in@) matches Err(er) ==> (r
                matches Err(er2) && er2 == er && *final(self) == *old(self)),
            old(self).join_res(pool_amount_out, max_amounts_in@) matches Ok(ratio) ==> (r
                matches Ok(w) && w@.len() == old(self).records@.len() && (forall|i: int|
                0 <= i < w@.len() ==> (#[trigger] w@[i]) as int == crate::c_math::join_deposit_res(
                    old(self).records@[i].1,
                    ratio,
                )->Ok_0) && final(self).records@.len() == old(self).records@.len() && (forall|
                i: int,
            |
                0 <= i < w@.len() ==> (#[trigger] final(self).records@[i]) == (
                old(self).records@[i].0,
                Record {
                    balance: (old(self).records@[i].1.balance + w@[i]) as i128,
                    ..old(self).records@[i].1
                },
                )) && final(self).shares.total == old(self).shares.total + pool_amount_out
                && final(self).shares.spec_balance(user) == old(self).shares.spec_balance(user)
                + pool_amount_out && (forall|b: u64|
                b != user ==> final(self).shares.spec_balance(b) == old(self).shares.spec_balance(
                    b,
                )) && *final(self) == CometPoolContract {
                records: final(self).records,
                shares: final(self).shares,
                ..*old(self)
            }),
    {
        if self.frozen {
            return Err(Error::ErrFreezeOnlyWithdrawals);
        }
        if pool_amount_out <= 0 {
            return Err(Error::ErrNegativeOrZero);
        }
        if !self.finalized {
            return Err(Error::ErrNotFinalized);
        }
        if max_amounts_in.len() != self.records.len() {
            return Err(Error::ErrInvalidVectorLen);
        }
        if pool_amount_out > MAX_POOL_SUPPLY {
            return Err(Error::ErrMathApprox);
        }
        proof {
            assert(self.shares.total as int * (STROOP_SCALAR as int) <= UPSCALE_LIMIT as int
                && pool_amount_out as int * (STROOP_SCALAR as int) <= UPSCALE_LIMIT as int)
                by (nonlinear_arith)
                requires
                    0 <= self.shares.total <= MAX_POOL_SUPPLY,
                    0 <= pool_amount_out <= MAX_POOL_SUPPLY,
                    MAX_POOL_SUPPLY as int * (STROOP_SCALAR as int) == UPSCALE_LIMIT as int,
            ;
        }
        let ratio = match crate::c_math::calc_join_ratio(e, self.shares.total, pool_amount_out) {
            Ok(v) => v,
            Err(er) => {
                return Err(er);
            },
        };
        let zero = crate::host::i256_from_i128(e, 0);
        if crate::host::i256_eq(&ratio, &zero) {
            return Err(Error::ErrMathApprox);
        }
        let ghost rv: int = crate::host::i256_val(ratio);

        // first pass: compute and validate every deposit without touching
        // the records, so a failure leaves the pool unchanged
        let mut amounts: Vec<i128> = Vec::new();
        let mut k: usize = 0;
        while k < self.records.len()
            invariant
                k <= self.records@.len(),
                amounts@.len() == k,
                forall|i: int| 0 <= i < k ==> (#[trigger] amounts@[i]) as int
                    == crate::c_math::join_deposit_res(self.records@[i].1, rv)->Ok_0,
                forall|i: int| 0 <= i < k ==> 0 < (#[trigger] amounts@[i]),
                forall|i: int| 0 <= i < k ==> (#[trigger] amounts@[i]) <= max_amounts_in@[i],
                forall|i: int| 0 <= i < k ==> (self.records@[i].1.balance + (
                #[trigger] amounts@[i])) * self.records@[i].1.scalar <= UPSCALE_LIMIT as int,
                join_scan(self.records@, rv, max_amounts_in@, k as int) == join_scan(
                    self.records@,
                    rv,
                    max_amounts_in@,
                    0,
                ),
            decreases self.records@.len() - k,
        {
            let rec = self.records[k].1;
            let a = match crate::c_math::calc_join_deposit_amount(e, &rec, &ratio) {
                Ok(v) => v,
                Err(er) => {
                    return Err(er);
                },
            };
            if a <= 0 {
                return Err(Error::ErrMathApprox);
            }
            if max_amounts_in[k] <= 0 {
                return Err(Error::ErrNegative);
            }
            if a > max_amounts_in[k] {
                return Err(Error::ErrLimitIn);
            }
            let new_bal = match rec.balance.checked_add(a) {
                Some(v) => v,
                None => {
                    proof {
                        assert((rec.balance + a) * rec.scalar > UPSCALE_LIMIT as int)
                            by (nonlinear_arith)
                            requires
                                rec.balance + a > i128::MAX as int,
                                rec.scalar >= 1,
                                i128::MAX as int > UPSCALE_LIMIT as int,
                                rec.balance >= 0 && a > 0,
                        ;
                    }
                    return Err(Error::ErrMathApprox);
                },
            };
            let up = match new_bal.checked_mul(rec.scalar) {
                Some(v) => v,
                None => {
                    proof {
                        assert(new_bal as int * rec.scalar as int >= 0) by (nonlinear_arith)
                            requires new_bal >= 0 && rec.scalar >= 1;
                    }
                    return Err(Error::ErrMathApprox);
                },
            };
            if up > UPSCALE_LIMIT {
                return Err(Error::ErrMathApprox);
            }
            amounts.push(a);
            k = k + 1;
        }
        proof {
            assert(forall|i: int| 0 <= i < amounts@.len() ==> (old(self).records@[i].1.balance + (
            #[trigger] amounts@[i])) * old(self).records@[i].1.scalar <= UPSCALE_LIMIT as int);
            assert(forall|i: int| 0 <= i < amounts@.len() ==> 0 < (#[trigger] amounts@[i]));
            assert(forall|i: int| 0 <= i < amounts@.len() ==> (#[trigger] amounts@[i]) as int
                == crate::c_math::join_deposit_res(old(self).records@[i].1, rv)->Ok_0);
        }
        if self.shares.total > MAX_POOL_SUPPLY - pool_amount_out {
            return Err(Error::ErrMathApprox);
        }
        let res = self.shares.receive(user, pool_amount_out);
        proof {
            assert(res matches Ok(u));
        }

        // second pass: apply the validated deposits
        let ghost mid: CometPoolContract = *self;
        let mut k2: usize = 0;
        while k2 < self.records.len()
            invariant
                k2 <= self.records@.len(),
                self.records@.len() == old(self).records@.len(),
                forall|i: int| k2 <= i < self.records@.len() ==> (#[trigger] self.records@[i])
                    == old(self).records@[i],
                forall|i: int| 0 <= i < k2 ==> (#[trigger] self.records@[i]) == (
                old(self).records@[i].0,
                Record {
                    balance: (old(self).records@[i].1.balance + amounts@[i]) as i128,
                    ..old(self).records@[i].1
                },
                ),
                *self == (CometPoolContract { records: self.records, ..mid }),
            decreases self.records@.len() - k2,
        {
            let entry = self.records[k2];
            proof {
                assert(self.records@[k2 as int] == old(self).records@[k2 as int]);
                assert(entry.1.balance + amounts@[k2 as int] <= UPSCALE_LIMIT as int)
                    by (nonlinear_arith)
                    requires
                        (entry.1.balance + amounts@[k2 as int]) * entry.1.scalar
                            <= UPSCALE_LIMIT as int,
                        entry.1.scalar >= 1,
                        entry.1.balance >= 1,
                        amounts@[k2 as int] > 0,
                ;
            }
            let new_rec = Record { balance: entry.1.balance + amounts[k2], ..entry.1 };
            self.records.set(k2, (entry.0, new_rec));
            k2 = k2 + 1;
        }
        proof {
            let s = self.records@;
            let so = old(self).records@;
            assert(tokens_unique(s)) by {
                assert forall|a: int, b: int| 0 <= a < b < s.len() implies (#[trigger] s[a]).0 != (
                #[trigger] s[b]).0 by {
                    assert(s[a].0 == so[a].0 && s[b].0 == so[b].0);
                }
            }
            assert forall|i: int| 0 <= i < s.len() implies 1 <= (#[trigger] s[i]).1.balance
                && s[i].1.balance as int * s[i].1.scalar as int <= UPSCALE_LIMIT as int by {
                assert(so[i].1.balance + amounts@[i] <= UPSCALE_LIMIT as int) by (nonlinear_arith)
                    requires
                        (so[i].1.balance + amounts@[i]) * so[i].1.scalar <= UPSCALE_LIMIT as int,
                        so[i].1.scalar >= 1,
                        so[i].1.balance >= 1,
                        amounts@[i] > 0,
                ;
                assert(s[i].1.balance == so[i].1.balance + amounts@[i]);
                assert(s[i].1.scalar == so[i].1.scalar);
                assert(so[i].1.balance >= 1 && amounts@[i] > 0);
            }
            lemma_sum_denorm_from_weights(s, so.map_values(|p: (u64, Record)| p.1.denorm));
            lemma_sum_denorm_from_weights(so, so.map_values(|p: (u64, Record)| p.1.denorm));
        }
        Ok(amounts)
    }
}

impl CometPoolContract {
    /// Everything a proportional exit decides: the exit ratio when every
    /// check passes, or the exact error.
    pub open spec fn exit_res(&self, pool_amount_in: i128, mins: Seq<i128>, user: u64) -> Result<
        int,
        Error,
    > {
        if pool_amount_in <= 0 {
            Err(Error::ErrNegativeOrZero)
        } else if !self.finalized {
            Err(Error::ErrNotFinalized)
        } else if mins.len() != self.records@.len() {
            Err(Error::ErrInvalidVectorLen)
        } else if pool_amount_in > MAX_POOL_SUPPLY {
            Err(Error::ErrMathApprox)
        } else if self.shares.total == 0 {
            Err(Error::ErrDivInternal)
        } else {
            let ratio = floor_div(
                (pool_amount_in as int * (STROOP_SCALAR as int)) * (BONE as int),
                self.shares.total as int * (STROOP_SCALAR as int),
            );
            if ratio == 0 {
                Err(Error::ErrMathApprox)
            } else if self.shares.spec_balance(user) < pool_amount_in {
                Err(Error::ErrInsufficientBalance)
            } else if exit_scan(self.records@, ratio, mins, 0) is Some {
                Err(exit_scan(self.records@, ratio, mins, 0)->Some_0)
            } else {
                Ok(ratio)
            }
        }
    }

    /// Exits the pool proportionally: burns `pool_amount_in` shares from
    /// the user against a withdrawal of every bound token, each rounded
    /// down and no less than the caller's `min_amounts_out`. Returns the
    /// withdrawals in token-list order for the caller to pay the user.
    /// Runs under a freeze.
    #[verifier::loop_isolation(false)]
    pub fn exit_pool(
        &mut self,
        e: &Env,
        pool_amount_in: i128,
        min_amounts_out: &Vec<i128>,
        user: u64,
    ) -> (r: Result<Vec<i128>, Error>)
        requires
            old(self).valid(),
        ensures
            final(self).valid(),
            old(self).exit_res(pool_amount_in, min_amounts_out@, user) matches Err(er) ==> (r
                matches Err(er2) && er2 == er && *final(self) == *old(self)),
            old(self).exit_res(pool_amount_in, min_amounts_out@, user) matches Ok(ratio) ==> (r
                matches Ok(w) && w@.len() == old(self).records@.len() && (forall|i: int|
                0 <= i < w@.len() ==> (#[trigger] w@[i]) as int
                    == crate::c_math::exit_withdrawal_res(old(self).records@[i].1, ratio)->Ok_0)
                && final(self).records@.len() == old(self).records@.len() && (forall|i: int|
                0 <= i < w@.len() ==> (#[trigger] final(self).records@[i]) == (
                old(self).records@[i].0,
                Record {
                    balance: (old(self).records@[i].1.balance - w@[i]) as i128,
                    ..old(self).records@[i].1
                },
                )) && final(self).shares.total == old(self).shares.total - pool_amount_in
                && final(self).shares.spec_balance(user) == old(self).shares.spec_balance(user)
                - pool_amount_in && (forall|b: u64|
                b != user ==> final(self).shares.spec_balance(b) == old(self).shares.spec_balance(
                    b,
                )) && *final(self) == CometPoolContract {
                records: final(self).records,
                shares: final(self).shares,
                ..*old(self)
            }),
    {
        if pool_amount_in <= 0 {
            return Err(Error::ErrNegativeOrZero);
        }
        if !self.finalized {
            return Err(Error::ErrNotFinalized);
        }
        if min_amounts_out.len() != self.records.len() {
            return Err(Error::ErrInvalidVectorLen);
        }
        if pool_amount_in > MAX_POOL_SUPPLY {
            return Err(Error::ErrMathApprox);
        }
        proof {
            assert(self.shares.total as int * (STROOP_SCALAR as int) <= UPSCALE_LIMIT as int
                && pool_amount_in as int * (STROOP_SCALAR as int) <= UPSCALE_LIMIT as int)
                by (nonlinear_arith)
                requires
                    0 <= self.shares.total <= MAX_POOL_SUPPLY,
                    0 <= pool_amount_in <= MAX_POOL_SUPPLY,
                    MAX_POOL_SUPPLY as int * (STROOP_SCALAR as int) == UPSCALE_LIMIT as int,
            ;
        }
        let ratio = match crate::c_math::calc_exit_ratio(e, self.shares.total, pool_amount_in) {
            Ok(v) => v,
            Err(er) => {
                return Err(er);
            },
        };
        let zero = crate::host::i256_from_i128(e, 0);
        if crate::host::i256_eq(&ratio, &zero) {
            return Err(Error::ErrMathApprox);
        }
        let ghost rv: int = crate::host::i256_val(ratio);
        if self.shares.balance(user) < pool_amount_in {
            return Err(Error::ErrInsufficientBalance);
        }

        // first pass: compute and validate every withdrawal without
        // touching the records, so a failure leaves the pool unchanged
        let mut amounts: Vec<i128> = Vec::new();
        let mut k: usize = 0;
        while k < self.records.len()
            invariant
                k <= self.records@.len(),
                amounts@.len() == k,
                forall|i: int| 0 <= i < k ==> (#[trigger] amounts@[i]) as int
                    == crate::c_math::exit_withdrawal_res(self.records@[i].1, rv)->Ok_0,
                forall|i: int| 0 <= i < k ==> 0 < (#[trigger] amounts@[i]),
                forall|i: int| 0 <= i < k ==> (#[trigger] amounts@[i]) < self.records@[i].1.balance,
                exit_scan(self.records@, rv, min_amounts_out@, k as int) == exit_scan(
                    self.records@,
                    rv,
                    min_amounts_out@,
                    0,
                ),
            decreases self.records@.len() - k,
        {
            let rec = self.records[k].1;
            let a = match crate::c_math::calc_exit_withdrawal_amount(e, &rec, &ratio) {
                Ok(v) => v,
                Err(er) => {
                    return Err(er);
                },
            };
            if a <= 0 {
                return Err(Error::ErrMathApprox);
            }
            if min_amounts_out[k] < 0 {
                return Err(Error::ErrNegative);
            }
            if a < min_amounts_out[k] {
                return Err(Error::ErrLimitOut);
            }
            if a >= rec.balance {
                return Err(Error::ErrInsufficientBalance);
            }
            amounts.push(a);
            k = k + 1;
        }
        proof {
            assert(forall|i: int| 0 <= i < amounts@.len() ==> 0 < (#[trigger] amounts@[i]));
            assert(forall|i: int| 0 <= i < amounts@.len() ==> (#[trigger] amounts@[i]) < old(self).records@[i].1.balance);
            assert(forall|i: int| 0 <= i < amounts@.len() ==> (#[trigger] amounts@[i]) as int
                == crate::c_math::exit_withdrawal_res(old(self).records@[i].1, rv)->Ok_0);
        }
        let res = self.shares.spend(user, pool_amount_in);
        match res {
            Ok(_) => {},
            Err(er) => {
                proof {
                    assert(false);
                }
                return Err(er);
            },
        }
        proof {
            crate::c_pool::ledger::lemma_bal_le_sum(self.shares.entries@, user);
        }

        // second pass: apply the validated withdrawals
        let ghost mid: CometPoolContract = *self;
        let mut k2: usize = 0;
        while k2 < self.records.len()
            invariant
                k2 <= self.records@.len(),
                self.records@.len() == old(self).records@.len(),
                forall|i: int| k2 <= i < self.records@.len() ==> (#[trigger] self.records@[i])
                    == old(self).records@[i],
                forall|i: int| 0 <= i < k2 ==> (#[trigger] self.records@[i]) == (
                old(self).records@[i].0,
                Record {
                    balance: (old(self).records@[i].1.balance - amounts@[i]) as i128,
                    ..old(self).records@[i].1
                },
                ),
                *self == (CometPoolContract { records: self.records, ..mid }),
            decreases self.records@.len() - k2,
        {
            let entry = self.records[k2];
            proof {
                assert(self.records@[k2 as int] == old(self).records@[k2 as int]);
            }
            let new_rec = Record { balance: entry.1.balance - amounts[k2], ..entry.1 };
            self.records.set(k2, (entry.0, new_rec));
            k2 = k2 + 1;
        }
        proof {
            let s = self.records@;
            let so = old(self).records@;
            assert(tokens_unique(s)) by {
                assert forall|a: int, b: int| 0 <= a < b < s.len() implies (#[trigger] s[a]).0 != (
                #[trigger] s[b]).0 by {
                    assert(s[a].0 == so[a].0 && s[b].0 == so[b].0);
                }
            }
            assert forall|i: int| 0 <= i < s.len() implies 1 <= (#[trigger] s[i]).1.balance
                && s[i].1.balance as int * s[i].1.scalar as int <= UPSCALE_LIMIT as int by {
                assert(s[i].1.balance == so[i].1.balance - amounts@[i]);
                assert(s[i].1.scalar == so[i].1.scalar);
                assert(amounts@[i] < so[i].1.balance && amounts@[i] > 0);
                assert((so[i].1.balance - amounts@[i]) * so[i].1.scalar <= UPSCALE_LIMIT as int)
                    by (nonlinear_arith)
                    requires
                        so[i].1.balance * so[i].1.scalar <= UPSCALE_LIMIT as int,
                        so[i].1.scalar >= 1,
                        0 < amounts@[i] < so[i].1.balance,
                ;
            }
            lemma_sum_denorm_from_weights(s, so.map_values(|p: (u64, Record)| p.1.denorm));
            lemma_sum_denorm_from_weights(so, so.map_values(|p: (u64, Record)| p.1.denorm));
        }
        Ok(amounts)
    }
}


/// Rejects a negative token amount with `ErrNegative`.
pub fn check_nonnegative_amount(amount: i128) -> (r: Result<(), Error>)
    ensures
        amount >= 0 ==> r == Ok::<(), Error>(()),
        amount < 0 ==> r == Err::<(), Error>(Error::ErrNegative),
{
    if amount < 0 {
        Err(Error::ErrNegative)
    } else {
        Ok(())
    }
}

impl CometPoolContract {
    /// The share balance of an address.
    pub fn balance(&self, id: u64) -> (r: i128)
        requires
            self.valid(),
        ensures
            r as int == self.shares.spec_balance(id),
    {
        self.shares.balance(id)
    }

    /// The share token's decimal count.
    pub fn decimals(&self) -> (r: u32)
        ensures
            r == 7,
    {
        7
    }

    /// The live allowance of a pair at the given ledger sequence.
    pub fn allowance(&self, from: u64, spender: u64, ledger_seq: u32) -> (r: i128)
        requires
            self.valid(),
        ensures
            r as int == self.allowances.spec_live(from, spender, ledger_seq),
    {
        let v = self.allowances.read(from, spender, ledger_seq);
        v.amount
    }

    /// Grants `spender` an allowance over the caller's shares, expiring
    /// after the given ledger.
    pub fn approve(
        &mut self,
        from: u64,
        spender: u64,
        amount: i128,
        expiration_ledger: u32,
        ledger_seq: u32,
    ) -> (r: Result<(), Error>)
        requires
            old(self).valid(),
        ensures
            final(self).valid(),
            amount < 0 ==> (r == Err::<(), Error>(Error::ErrNegative) && *final(self) == *old(self)),
            amount >= 0 && amount > 0 && expiration_ledger < ledger_seq ==> (r == Err::<
                (),
                Error,
            >(Error::ErrInvalidExpirationLedger) && *final(self) == *old(self)),
            amount >= 0 && !(amount > 0 && expiration_ledger < ledger_seq) ==> (r == Ok::<
                (),
                Error,
            >(()) && final(self).allowances.spec_stored(from, spender) == (AllowanceValue {
                amount,
                expiration_ledger,
            }) && (forall|f: u64, p: u64|
                (f, p) != (from, spender) ==> final(self).allowances.spec_stored(f, p) == old(self).allowances.spec_stored(f, p)) && *final(self) == CometPoolContract {
                allowances: final(self).allowances,
                ..*old(self)
            }),
    {
        match check_nonnegative_amount(amount) {
            Ok(_) => {},
            Err(er) => {
                return Err(er);
            },
        }
        match self.allowances.write(from, spender, amount, expiration_ledger, ledger_seq) {
            Ok(_) => Ok(()),
            Err(er) => Err(er),
        }
    }

    /// Moves shares from the caller to another address.
    pub fn transfer(&mut self, from: u64, to: u64, amount: i128) -> (r: Result<(), Error>)
        requires
            old(self).valid(),
        ensures
            final(self).valid(),
            amount < 0 ==> (r == Err::<(), Error>(Error::ErrNegative) && *final(self) == *old(self)),
            amount >= 0 && old(self).shares.spec_balance(from) < amount ==> (r == Err::<
                (),
                Error,
            >(Error::ErrInsufficientBalance) && *final(self) == *old(self)),
            amount >= 0 && old(self).shares.spec_balance(from) >= amount ==> (r == Ok::<
                (),
                Error,
            >(()) && final(self).shares.total == old(self).shares.total && (from != to ==> final(self).shares.spec_balance(from) == old(self).shares.spec_balance(from) - amount && final(self).shares.spec_balance(to) == old(self).shares.spec_balance(to) + amount) && (from == to
                ==> final(self).shares.spec_balance(from) == old(self).shares.spec_balance(from))
                && (forall|b: u64|
                b != from && b != to ==> final(self).shares.spec_balance(b) == old(self).shares.spec_balance(b)) && *final(self) == CometPoolContract {
                shares: final(self).shares,
                ..*old(self)
            }),
    {
        match check_nonnegative_amount(amount) {
            Ok(_) => {},
            Err(er) => {
                return Err(er);
            },
        }
        let res = self.shares.spend(from, amount);
        match res {
            Ok(_) => {},
            Err(er) => {
                return Err(er);
            },
        }
        proof {
            crate::c_pool::ledger::lemma_bal_le_sum(self.shares.entries@, to);
        }
        let res2 = self.shares.receive(to, amount);
        proof {
            assert(res2 matches Ok(u));
        }
        Ok(())
    }

    /// Moves shares between two addresses on the strength of an allowance.
    pub fn transfer_from(
        &mut self,
        spender: u64,
        from: u64,
        to: u64,
        amount: i128,
        ledger_seq: u32,
    ) -> (r: Result<(), Error>)
        requires
            old(self).valid(),
        ensures
            final(self).valid(),
            amount < 0 ==> (r == Err::<(), Error>(Error::ErrNegative) && *final(self) == *old(self)),
            amount >= 0 && old(self).allowances.spec_live(from, spender, ledger_seq) < amount ==> (
            r == Err::<(), Error>(Error::ErrInsufficientAllowance) && *final(self) == *old(self)),
            amount >= 0 && old(self).allowances.spec_live(from, spender, ledger_seq) >= amount
                && old(self).shares.spec_balance(from) < amount ==> (r == Err::<(), Error>(
                Error::ErrInsufficientBalance,
            ) && *final(self) == *old(self)),
            amount >= 0 && old(self).allowances.spec_live(from, spender, ledger_seq) >= amount
                && old(self).shares.spec_balance(from) >= amount ==> (r == Ok::<(), Error>(())
                && final(self).shares.total == old(self).shares.total && final(self).allowances.spec_live(from, spender, ledger_seq) == old(self).allowances.spec_live(
                from,
                spender,
                ledger_seq,
            ) - amount && (from != to ==> final(self).shares.spec_balance(from) == old(self).shares.spec_balance(from) - amount && final(self).shares.spec_balance(to) == old(self).shares.spec_balance(to) + amount) && (from == to ==> final(self).shares.spec_balance(from)
                == old(self).shares.spec_balance(from)) && (forall|b: u64|
                b != from && b != to ==> final(self).shares.spec_balance(b) == old(self).shares.spec_balance(b)) && (forall|f: u64, p: u64|
                (f, p) != (from, spender) ==> final(self).allowances.spec_stored(f, p) == old(self).allowances.spec_stored(f, p)) && *final(self) == CometPoolContract {
                shares: final(self).shares,
                allowances: final(self).allowances,
                ..*old(self)
            }),
    {
        match check_nonnegative_amount(amount) {
            Ok(_) => {},
            Err(er) => {
                return Err(er);
            },
        }
        let live = self.allowances.read(from, spender, ledger_seq);
        if live.amount < amount {
            return Err(Error::ErrInsufficientAllowance);
        }
        if self.shares.balance(from) < amount {
            return Err(Error::ErrInsufficientBalance);
        }
        let res = self.allowances.spend(from, spender, amount, ledger_seq);
        proof {
            assert(res matches Ok(u));
        }
        let res2 = self.shares.spend(from, amount);
        proof {
            assert(res2 matches Ok(u));
        }
        proof {
            crate::c_pool::ledger::lemma_bal_le_sum(self.shares.entries@, to);
        }
        let res3 = self.shares.receive(to, amount);
        proof {
            assert(res3 matches Ok(u));
        }
        Ok(())
    }

    /// Burns shares from the caller, shrinking the total supply.
    pub fn burn(&mut self, from: u64, amount: i128) -> (r: Result<(), Error>)
        requires
            old(self).valid(),
        ensures
            final(self).valid(),
            amount < 0 ==> (r == Err::<(), Error>(Error::ErrNegative) && *final(self) == *old(self)),
            amount >= 0 && old(self).shares.spec_balance(from) < amount ==> (r == Err::<
                (),
                Error,
            >(Error::ErrInsufficientBalance) && *final(self) == *old(self)),
            amount >= 0 && old(self).shares.spec_balance(from) >= amount ==> (r == Ok::<
                (),
                Error,
            >(()) && final(self).shares.total == old(self).shares.total - amount && final(self).shares.spec_balance(from) == old(self).shares.spec_balance(from) - amount && (forall|
                b: u64,
            |
                b != from ==> final(self).shares.spec_balance(b) == old(self).shares.spec_balance(
                    b,
                )) && *final(self) == CometPoolContract {
                shares: final(self).shares,
                ..*old(self)
            }),
    {
        match check_nonnegative_amount(amount) {
            Ok(_) => {},
            Err(er) => {
                return Err(er);
            },
        }
        proof {
            crate::c_pool::ledger::lemma_bal_le_sum(old(self).shares.entries@, from);
        }
        let res = self.shares.spend(from, amount);
        match res {
            Ok(_) => {},
            Err(er) => {
                return Err(er);
            },
        }
        Ok(())
    }

    /// Burns shares from an address on the strength of an allowance.
    pub fn burn_from(&mut self, spender: u64, from: u64, amount: i128, ledger_seq: u32) -> (r:
        Result<(), Error>)
        requires
            old(self).valid(),
        ensures
            final(self).valid(),
            amount < 0 ==> (r == Err::<(), Error>(Error::ErrNegative) && *final(self) == *old(self)),
            amount >= 0 && old(self).allowances.spec_live(from, spender, ledger_seq) < amount ==> (
            r == Err::<(), Error>(Error::ErrInsufficientAllowance) && *final(self) == *old(self)),
            amount >= 0 && old(self).allowances.spec_live(from, spender, ledger_seq) >= amount
                && old(self).shares.spec_balance(from) < amount ==> (r == Err::<(), Error>(
                Error::ErrInsufficientBalance,
            ) && *final(self) == *old(self)),
            amount >= 0 && old(self).allowances.spec_live(from, spender, ledger_seq) >= amount
                && old(self).shares.spec_balance(from) >= amount ==> (r == Ok::<(), Error>(())
                && final(self).shares.total == old(self).shares.total - amount && final(self).shares.spec_balance(from) == old(self).shares.spec_balance(from) - amount && final(self).allowances.spec_live(from, spender, ledger_seq) == old(self).allowances.spec_live(
                from,
                spender,
                ledger_seq,
            ) - amount && (forall|b: u64|
                b != from ==> final(self).shares.spec_balance(b) == old(self).shares.spec_balance(
                    b,
                )) && (forall|f: u64, p: u64|
                (f, p) != (from, spender) ==> final(self).allowances.spec_stored(f, p) == old(self).allowances.spec_stored(f, p)) && *final(self) == CometPoolContract {
                shares: final(self).shares,
                allowances: final(self).allowances,
                ..*old(self)
            }),
    {
        match check_nonnegative_amount(amount) {
            Ok(_) => {},
            Err(er) => {
                return Err(er);
            },
        }
        let live = self.allowances.read(from, spender, ledger_seq);
        if live.amount < amount {
            return Err(Error::ErrInsufficientAllowance);
        }
        if self.shares.balance(from) < amount {
            return Err(Error::ErrInsufficientBalance);
        }
        let res = self.allowances.spend(from, spender, amount, ledger_seq);
        proof {
            assert(res matches Ok(u));
        }
        proof {
            crate::c_pool::ledger::lemma_bal_le_sum(self.shares.entries@, from);
        }
        let res2 = self.shares.spend(from, amount);
        proof {
            assert(res2 matches Ok(u));
        }
        Ok(())
    }
}

} // verus!
