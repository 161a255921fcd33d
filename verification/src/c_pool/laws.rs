//! The global laws of the pool, stated over the specifications that the
//! operations' own contracts use. Every operation returns a pool satisfying
//! `valid`, so each law below holds after every successful operation.

use vstd::prelude::*;
use crate::c_consts::{BONE, MAX_TOTAL_WEIGHT, MAX_WEIGHT, MIN_INIT_WEIGHT, STROOP};
use crate::c_math::spot_price_res;
use crate::c_pool::comet::{has_tok, rec_of, sum_denorm, CometPoolContract};
use crate::c_pool::ledger::sum_bal;
use crate::errors::Error;
use crate::fixed_point::{ceil_div, floor_div};

verus! {

/// Law: in every valid pool state — the state after any successful
/// operation — the books balance: the share supply equals the sum of all
/// share balances, the total weight equals the sum of the bound tokens'
/// weights and stays under the global cap, and every bound token carries a
/// weight within its legal range and a positive balance.
pub proof fn lemma_pool_accounting(p: CometPoolContract)
    requires
        p.valid(),
    ensures
        p.shares.total as int == sum_bal(p.shares.entries@),
        p.total_weight as int == sum_denorm(p.records@),
        sum_denorm(p.records@) <= MAX_TOTAL_WEIGHT as int,
        forall|i: int| 0 <= i < p.records@.len() ==> MIN_INIT_WEIGHT as int <= (
        #[trigger] p.records@[i]).1.denorm <= MAX_WEIGHT as int,
        forall|i: int| 0 <= i < p.records@.len() ==> 0 < (#[trigger] p.records@[i]).1.balance,
{
}

/// Law: a swap of an exact in-amount that succeeds never lowers the spot
/// price, and the price before the trade never exceeds the realized rate
/// `token_amount_in / token_amount_out` (both at `STROOP` scale, floored).
pub proof fn lemma_swap_in_spot_price_monotone(
    p: CometPoolContract,
    token_in: u64,
    token_amount_in: i128,
    token_out: u64,
    min_amount_out: i128,
    max_price: i128,
    out_amount: int,
    sp_after: int,
)
    requires
        p.valid(),
        p.swap_in_res(token_in, token_amount_in, token_out, min_amount_out, max_price) == Ok::<
            (int, int),
            Error,
        >((out_amount, sp_after)),
    ensures
        has_tok(p.records@, token_in),
        has_tok(p.records@, token_out),
        ({
            let inr = rec_of(p.records@, token_in);
            let outr = rec_of(p.records@, token_out);
            let sp = spot_price_res(
                inr.balance as int,
                inr.denorm as int,
                outr.balance as int,
                outr.denorm as int,
                p.swap_fee as int,
            );
            &&& sp matches Ok(sp_before) && sp_before <= sp_after
            &&& sp matches Ok(sp_before) && sp_before <= floor_div(
                token_amount_in as int * (STROOP as int),
                out_amount,
            )
            &&& out_amount > 0
        }),
{
}

/// Law: a swap of an exact out-amount that succeeds never lowers the spot
/// price, and the price before the trade never exceeds the realized rate.
pub proof fn lemma_swap_out_spot_price_monotone(
    p: CometPoolContract,
    token_in: u64,
    max_amount_in: i128,
    token_out: u64,
    token_amount_out: i128,
    max_price: i128,
    in_amount: int,
    sp_after: int,
)
    requires
        p.valid(),
        p.swap_out_res(token_in, max_amount_in, token_out, token_amount_out, max_price) == Ok::<
            (int, int),
            Error,
        >((in_amount, sp_after)),
    ensures
        has_tok(p.records@, token_in),
        has_tok(p.records@, token_out),
        ({
            let inr = rec_of(p.records@, token_in);
            let outr = rec_of(p.records@, token_out);
            let sp = spot_price_res(
                inr.balance as int,
                inr.denorm as int,
                outr.balance as int,
                outr.denorm as int,
                p.swap_fee as int,
            );
            &&& sp matches Ok(sp_before) && sp_before <= sp_after
            &&& sp matches Ok(sp_before) && sp_before <= floor_div(
                in_amount * (STROOP as int),
                token_amount_out as int,
            )
        }),
{
}

/// Law: a proportional join followed by a proportional exit of the same
/// share amount, with no trade in between, restores the total share supply
/// exactly. The two operations' contracts pin the supply after each step,
/// so the law is arithmetic over those two facts.
pub proof fn lemma_join_then_exit_supply(
    p0: CometPoolContract,
    p1: CometPoolContract,
    p2: CometPoolContract,
    pool_amount: i128,
)
    requires
        p1.shares.total == p0.shares.total + pool_amount,
        p2.shares.total == p1.shares.total - pool_amount,
    ensures
        p2.shares.total == p0.shares.total,
{
}

/// Law: a proportional join followed by a proportional exit of the same
/// share amount never drains a token: the withdrawal the exit pays, rounded
/// down twice against a ratio rounded down, never exceeds the deposit the
/// join took, rounded up twice against a ratio rounded up. `su` and `dsu`
/// are the supply and the share amount lifted to the 18-decimal domain,
/// `bal` the token balance and `s` its scalar.
pub proof fn lemma_join_exit_never_drains(bal: int, s: int, su: int, dsu: int)
    requires
        1 <= bal,
        1 <= s,
        1 <= su,
        1 <= dsu,
    ensures
        ({
            let rj = ceil_div(dsu * (BONE as int), su);
            let re = floor_div(dsu * (BONE as int), su + dsu);
            let a = ceil_div(ceil_div((bal * s) * rj, BONE as int), s);
            let w = floor_div(floor_div(((bal + a) * s) * re, BONE as int), s);
            w <= a
        }),
{
    let bone = BONE as int;
    let rj = ceil_div(dsu * bone, su);
    let re = floor_div(dsu * bone, su + dsu);
    let bu = bal * s;
    let au = ceil_div(bu * rj, bone);
    let a = ceil_div(au, s);

    assert(dsu * bone >= 1) by (nonlinear_arith)
        requires dsu >= 1 && bone >= 1;
    assert(bu >= 1) by (nonlinear_arith)
        requires bu == bal * s && bal >= 1 && s >= 1;

    // the up-rounded ratio covers the exact share fraction
    crate::fixed_point::lemma_ceil_div_bounds(dsu * bone, su);
    assert(su * rj >= dsu * bone);
    crate::fixed_point::lemma_ceil_div_nonneg(dsu * bone, su);

    // the down-rounded ratio stays within it
    crate::fixed_point::lemma_floor_div_bounds(dsu * bone, su + dsu);
    assert((su + dsu) * re <= dsu * bone);
    crate::fixed_point::lemma_floor_div_nonneg(dsu * bone, su + dsu);

    // the upscaled deposit covers the exact scaled amount
    assert(bu * rj >= 0) by (nonlinear_arith)
        requires bu >= 1 && rj >= 0;
    crate::fixed_point::lemma_ceil_div_bounds(bu * rj, bone);
    assert(bone * au >= bu * rj);
    crate::fixed_point::lemma_ceil_div_nonneg(bu * rj, bone);
    crate::fixed_point::lemma_ceil_div_bounds(au, s);
    assert(s * a >= au);
    crate::fixed_point::lemma_ceil_div_nonneg(au, s);

    // chain: the deposit covers the user's exact share of the balance
    assert(a * su >= bal * dsu) by {
        assert((s * a) * (bone * su) >= (bu * rj) * su) by (nonlinear_arith)
            requires
                s * a >= au,
                bone * au >= bu * rj,
                su >= 1,
                bone >= 1,
                au >= 0,
                bu * rj >= 0,
        ;
        assert((bu * rj) * su == (bal * s) * (su * rj)) by (nonlinear_arith)
            requires bu == bal * s;
        assert((bal * s) * (su * rj) >= (bal * s) * (dsu * bone)) by (nonlinear_arith)
            requires su * rj >= dsu * bone && bal * s >= 1;
        assert((s * a) * (bone * su) == (s * bone) * (a * su)) by (nonlinear_arith);
        assert((bal * s) * (dsu * bone) == (s * bone) * (bal * dsu)) by (nonlinear_arith);
        assert((s * bone) * (a * su) >= (s * bone) * (bal * dsu));
        assert(s * bone >= 1) by (nonlinear_arith)
            requires s >= 1 && bone >= 1;
        assert(a * su >= bal * dsu) by (nonlinear_arith)
            requires
                (s * bone) * (a * su) >= (s * bone) * (bal * dsu),
                s * bone >= 1,
        ;
    }
    assert(a >= 1) by {
        if a < 1 {
            assert(a * su <= 0) by (nonlinear_arith)
                requires a <= 0 && su >= 1;
            assert(bal * dsu >= 1) by (nonlinear_arith)
                requires bal >= 1 && dsu >= 1;
        }
    }

    // hence the exit side never exceeds the deposit
    assert((bal + a) * re <= a * bone) by {
        assert(((bal + a) * re) * (su + dsu) == (bal + a) * ((su + dsu) * re))
            by (nonlinear_arith);
        assert((bal + a) * ((su + dsu) * re) <= (bal + a) * (dsu * bone)) by (nonlinear_arith)
            requires (su + dsu) * re <= dsu * bone && bal + a >= 1;
        assert((bal + a) * (dsu * bone) <= (a * bone) * (su + dsu)) by (nonlinear_arith)
            requires
                a * su >= bal * dsu,
                bone >= 1,
                dsu >= 1,
                su >= 1,
                a >= 1,
                bal >= 1,
        ;
        assert(((bal + a) * re) * (su + dsu) <= (a * bone) * (su + dsu));
        assert((bal + a) * re <= a * bone) by (nonlinear_arith)
            requires
                ((bal + a) * re) * (su + dsu) <= (a * bone) * (su + dsu),
                su + dsu >= 2,
        ;
    }

    // push the bound through the two floors of the withdrawal
    let w1 = floor_div(((bal + a) * s) * re, bone);
    assert(((bal + a) * s) * re >= 0) by (nonlinear_arith)
        requires bal + a >= 1 && s >= 1 && re >= 0;
    assert(((bal + a) * s) * re <= (a * s) * bone) by (nonlinear_arith)
        requires (bal + a) * re <= a * bone && s >= 1 && bal + a >= 1 && re >= 0;
    crate::fixed_point::lemma_floor_div_le(((bal + a) * s) * re, bone, a * s);
    assert(w1 <= a * s);
    crate::fixed_point::lemma_floor_div_le(w1, s, a);
}

/// Law: the fee-free spot prices of a pair are mutual reciprocals in the
/// pool's favor — their product, at `STROOP` scale both ways, never exceeds
/// one, because every rounding in the quote goes against the reader. (The
/// product falls short of one only by what the floored divisions lose.)
pub proof fn lemma_spot_price_product_le_one(in_bal: int, in_w: int, out_bal: int, out_w: int)
    requires
        1 <= in_bal,
        1 <= in_w,
        1 <= out_bal,
        1 <= out_w,
        spot_price_res(in_bal, in_w, out_bal, out_w, 0) is Ok,
        spot_price_res(out_bal, out_w, in_bal, in_w, 0) is Ok,
    ensures
        spot_price_res(in_bal, in_w, out_bal, out_w, 0)->Ok_0 * spot_price_res(
            out_bal,
            out_w,
            in_bal,
            in_w,
            0,
        )->Ok_0 <= (STROOP as int) * (STROOP as int),
{
    let stroop = STROOP as int;
    let a = floor_div(in_bal * stroop, in_w);
    let b = floor_div(out_bal * stroop, out_w);
    crate::fixed_point::lemma_floor_div_nonneg(in_bal * stroop, in_w);
    crate::fixed_point::lemma_floor_div_nonneg(out_bal * stroop, out_w);
    assert(in_bal * stroop >= 0 && out_bal * stroop >= 0) by (nonlinear_arith)
        requires in_bal >= 1 && out_bal >= 1 && stroop >= 1;

    // both quotes came back, so neither denominator vanished
    assert(b >= 1);
    assert(a >= 1);

    let p = floor_div(a * stroop, b);
    let q = floor_div(b * stroop, a);
    assert(a * stroop >= 0 && b * stroop >= 0) by (nonlinear_arith)
        requires a >= 1 && b >= 1 && stroop >= 1;
    crate::fixed_point::lemma_floor_div_nonneg(a * stroop, b);
    crate::fixed_point::lemma_floor_div_nonneg(b * stroop, a);

    // with no fee the final division is exact, so each quote is its ratio
    vstd::arithmetic::div_mod::lemma_mod_multiples_basic(p, stroop);
    vstd::arithmetic::div_mod::lemma_div_multiples_vanish(p, stroop);
    assert(p * stroop == stroop * p) by (nonlinear_arith);
    assert(ceil_div(p * stroop, stroop) == p);
    vstd::arithmetic::div_mod::lemma_mod_multiples_basic(q, stroop);
    vstd::arithmetic::div_mod::lemma_div_multiples_vanish(q, stroop);
    assert(q * stroop == stroop * q) by (nonlinear_arith);
    assert(ceil_div(q * stroop, stroop) == q);
    assert(spot_price_res(in_bal, in_w, out_bal, out_w, 0)->Ok_0 == p);
    assert(spot_price_res(out_bal, out_w, in_bal, in_w, 0)->Ok_0 == q);

    // each floor loses against the reader, so the cycle cannot gain
    crate::fixed_point::lemma_floor_div_bounds(a * stroop, b);
    crate::fixed_point::lemma_floor_div_bounds(b * stroop, a);
    assert(b * p <= a * stroop);
    assert(a * q <= b * stroop);
    assert((p * q) * (a * b) <= (stroop * stroop) * (a * b)) by (nonlinear_arith)
        requires
            b * p <= a * stroop,
            a * q <= b * stroop,
            p >= 0,
            q >= 0,
            a >= 1,
            b >= 1,
            stroop >= 1,
    ;
    assert(p * q <= stroop * stroop) by (nonlinear_arith)
        requires
            (p * q) * (a * b) <= (stroop * stroop) * (a * b),
            a >= 1,
            b >= 1,
    ;
}

} // verus!
