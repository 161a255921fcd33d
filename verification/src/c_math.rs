//! The pricing kernel: the closed-form pool formulas over the constant-mean
//! invariant, with the rounding of every step chosen to favor the pool.
//!
//! Each executable function has a specification mirror that pins, as a
//! `Result` over the mathematical integers, both the value computed and the
//! exact condition under which each error comes back.

use vstd::prelude::*;
use soroban_sdk::{Env, I256};
use crate::c_consts::{BONE, MAX_CPOW_BASE, MAX_FEE, MAX_TOTAL_WEIGHT, MIN_CPOW_BASE, STROOP,
    STROOP_SCALAR, UPSCALE_LIMIT};
use crate::c_num::{cpow_spec, c_pow, fmul_ceil, fmul_floor, pow_bound, sub_no_negative};
use crate::c_pool::storage_types::Record;
use crate::errors::Error;
use crate::fixed_point::{ceil_div, floor_div, in_i128, lemma_ceil_div_bound_by,
    lemma_ceil_div_in_i128, lemma_ceil_div_le, lemma_ceil_div_nonneg, lemma_floor_div_bound_by,
    lemma_floor_div_ge, lemma_floor_div_in_i128, lemma_floor_div_le, lemma_floor_div_nonneg};
use crate::host::{i128_fixed_div_floor, i256_add, i256_fixed_div_ceil, i256_fixed_div_floor,
    i256_eq, i256_fixed_mul_ceil, i256_fixed_mul_floor, i256_from_i128, i256_le, i256_lt, i256_sub,
    i256_to_i128, i256_val, in_i256};

verus! {

/// An executable `Result` equals its mathematical mirror.
pub open spec fn res_matches(r: Result<i128, Error>, s: Result<int, Error>) -> bool {
    match s {
        Ok(v) => r matches Ok(w) && w as int == v,
        Err(e) => r matches Err(e2) && e2 == e,
    }
}

/// What `c_pow` yields: its value inside the legal base range, the matching
/// error outside it.
pub open spec fn cpow_res(base: int, exp: int, round_up: bool) -> Result<int, Error> {
    if base < MIN_CPOW_BASE as int {
        Err(Error::ErrCPowBaseTooLow)
    } else if base > MAX_CPOW_BASE as int {
        Err(Error::ErrCPowBaseTooHigh)
    } else {
        Ok(cpow_spec(base, exp, round_up))
    }
}

/// A record whose numbers the pricing math can take: nonnegative balance
/// whose upscaled form stays under `UPSCALE_LIMIT`, a scalar of at most one
/// `BONE`, and a positive weight within the global cap.
pub open spec fn record_scaled(r: Record) -> bool {
    &&& 0 <= r.balance
    &&& 1 <= r.scalar <= BONE as int
    &&& r.balance * r.scalar <= UPSCALE_LIMIT as int
    &&& 1 <= r.denorm <= MAX_TOTAL_WEIGHT as int
}

/// The spot price of the in-token in units of the out-token at `STROOP`
/// scale: `((Bi/Wi) / (Bo/Wo)) / (1 - fee)`, the balance-per-weight ratios
/// floored and the final fee division rounded up to favor the pool.
pub open spec fn spot_price_res(
    in_bal: int,
    in_w: int,
    out_bal: int,
    out_w: int,
    fee: int,
) -> Result<int, Error> {
    let numer = floor_div(in_bal * (STROOP as int), in_w);
    if !in_i128(in_bal * (STROOP as int)) {
        Err(Error::ErrDivInternal)
    } else {
        let denom = floor_div(out_bal * (STROOP as int), out_w);
        if !in_i128(out_bal * (STROOP as int)) {
            Err(Error::ErrDivInternal)
        } else if denom == 0 || !in_i128(numer * (STROOP as int)) {
            Err(Error::ErrDivInternal)
        } else {
            let ratio = floor_div(numer * (STROOP as int), denom);
            if !in_i128(ratio * (STROOP as int)) {
                Err(Error::ErrDivInternal)
            } else {
                Ok(ceil_div(ratio * (STROOP as int), (STROOP as int) - fee))
            }
        }
    }
}

/// Spot price for a token pair from its two records, fee included; fails
/// with `ErrDivInternal` exactly where a fixed-point step leaves `i128` or
/// meets a zero divisor.
pub fn calc_spot_price(in_record: &Record, out_record: &Record, swap_fee: i128) -> (r: Result<
    i128,
    Error,
>)
    requires
        0 <= in_record.balance,
        0 <= out_record.balance,
        in_record.denorm >= 1,
        out_record.denorm >= 1,
        0 <= swap_fee <= MAX_FEE,
    ensures
        res_matches(
            r,
            spot_price_res(
                in_record.balance as int,
                in_record.denorm as int,
                out_record.balance as int,
                out_record.denorm as int,
                swap_fee as int,
            ),
        ),
{
    let numer = match i128_fixed_div_floor(in_record.balance, in_record.denorm, STROOP) {
        Some(v) => v,
        None => {
            proof {
                if in_i128(in_record.balance as int * (STROOP as int)) {
                    lemma_floor_div_in_i128(
                        in_record.balance as int * (STROOP as int),
                        in_record.denorm as int,
                    );
                }
            }
            return Err(Error::ErrDivInternal);
        },
    };
    let denom = match i128_fixed_div_floor(out_record.balance, out_record.denorm, STROOP) {
        Some(v) => v,
        None => {
            proof {
                if in_i128(out_record.balance as int * (STROOP as int)) {
                    lemma_floor_div_in_i128(
                        out_record.balance as int * (STROOP as int),
                        out_record.denorm as int,
                    );
                }
            }
            return Err(Error::ErrDivInternal);
        },
    };
    proof {
        lemma_floor_div_nonneg(in_record.balance as int * (STROOP as int), in_record.denorm as int);
        lemma_floor_div_nonneg(
            out_record.balance as int * (STROOP as int),
            out_record.denorm as int,
        );
    }
    let ratio = match i128_fixed_div_floor(numer, denom, STROOP) {
        Some(v) => v,
        None => {
            proof {
                if denom != 0 && in_i128(numer as int * (STROOP as int)) {
                    lemma_floor_div_in_i128(numer as int * (STROOP as int), denom as int);
                }
            }
            return Err(Error::ErrDivInternal);
        },
    };
    match crate::host::i128_fixed_div_ceil(ratio, STROOP - swap_fee, STROOP) {
        Some(v) => Ok(v),
        None => {
            proof {
                if in_i128(ratio as int * (STROOP as int)) {
                    lemma_ceil_div_in_i128(
                        ratio as int * (STROOP as int),
                        (STROOP - swap_fee) as int,
                    );
                }
            }
            Err(Error::ErrDivInternal)
        },
    }
}

/// `0 <= a*b <= ab*bb` for nonnegative factors under their bounds.
pub proof fn lemma_mul_le_nonneg(a: int, b: int, ab: int, bb: int)
    requires
        0 <= a <= ab,
        0 <= b <= bb,
    ensures
        0 <= a * b <= ab * bb,
{
    assert(0 <= a * b && a * b <= ab * bb) by (nonlinear_arith)
        requires 0 <= a <= ab && 0 <= b <= bb;
}

/// `-(ab*bb) <= a*b <= ab*bb` for a signed factor against a nonnegative one.
pub proof fn lemma_mul_rng(a: int, b: int, ab: int, bb: int)
    requires
        -ab <= a <= ab,
        0 <= b <= bb,
        0 <= ab,
    ensures
        -(ab * bb) <= a * b <= ab * bb,
{
    assert(-(ab * bb) <= a * b && a * b <= ab * bb) by (nonlinear_arith)
        requires -ab <= a <= ab && 0 <= b <= bb && 0 <= ab;
}

/// Lifts a `STROOP`-scaled amount into the 18-decimal host domain.
pub fn upscale(e: &Env, amount: i128, scalar: i128) -> (r: I256)
    requires
        0 <= amount,
        1 <= scalar,
        amount * scalar <= UPSCALE_LIMIT as int,
    ensures
        i256_val(r) == amount * scalar,
        0 <= i256_val(r) <= UPSCALE_LIMIT as int,
{
    proof {
        lemma_mul_le_nonneg(amount as int, scalar as int, amount as int, scalar as int);
    }
    i256_from_i128(e, amount * scalar)
}

/// What downscaling with a floor yields: the quotient where it fits an
/// `i128`, and `ErrMathApprox` where it does not.
pub open spec fn down_floor_res(v: int, scalar: int) -> Result<int, Error> {
    if in_i128(floor_div(v, scalar)) {
        Ok(floor_div(v, scalar))
    } else {
        Err(Error::ErrMathApprox)
    }
}

/// What downscaling with a ceiling yields.
pub open spec fn down_ceil_res(v: int, scalar: int) -> Result<int, Error> {
    if in_i128(ceil_div(v, scalar)) {
        Ok(ceil_div(v, scalar))
    } else {
        Err(Error::ErrMathApprox)
    }
}

/// Brings an 18-decimal host value back to a token amount, rounding down;
/// fails with `ErrMathApprox` past the `i128` range.
pub fn downscale_floor(e: &Env, amount: &I256, scalar: i128) -> (r: Result<i128, Error>)
    requires
        1 <= scalar,
        in_i256(i256_val(*amount)),
    ensures
        res_matches(r, down_floor_res(i256_val(*amount), scalar as int)),
{
    let one = i256_from_i128(e, 1);
    let sc = i256_from_i128(e, scalar);
    proof {
        assert(i256_val(*amount) * 1 == i256_val(*amount));
    }
    let d = i256_fixed_div_floor(e, amount, &sc, &one);
    match i256_to_i128(&d) {
        Some(v) => Ok(v),
        None => Err(Error::ErrMathApprox),
    }
}

/// Brings an 18-decimal host value back to a token amount, rounding up;
/// fails with `ErrMathApprox` past the `i128` range.
pub fn downscale_ceil(e: &Env, amount: &I256, scalar: i128) -> (r: Result<i128, Error>)
    requires
        1 <= scalar,
        in_i256(i256_val(*amount)),
    ensures
        res_matches(r, down_ceil_res(i256_val(*amount), scalar as int)),
{
    let one = i256_from_i128(e, 1);
    let sc = i256_from_i128(e, scalar);
    proof {
        assert(i256_val(*amount) * 1 == i256_val(*amount));
    }
    let d = i256_fixed_div_ceil(e, amount, &sc, &one);
    match i256_to_i128(&d) {
        Some(v) => Ok(v),
        None => Err(Error::ErrMathApprox),
    }
}

/// Numeric value of `pow_bound` for range comparisons.
pub proof fn lemma_pow_bound_val()
    ensures
        pow_bound() == 53 * 9223372036854775808 * (BONE as int) + 1,
{
    crate::c_num::lemma_p2_concrete();
}

/// Amount of out-token for a given in-amount, rounded down to favor the
/// pool: `Bo * (1 - (Bi / (Bi + Ain*(1-f)))^(Wi/Wo))`, all steps in the
/// 18-decimal domain.
pub open spec fn token_out_res(inr: Record, outr: Record, amount_in: int, fee: int) -> Result<
    int,
    Error,
> {
    let bi = inr.balance * inr.scalar;
    let bo = outr.balance * outr.scalar;
    let ai = amount_in * inr.scalar;
    let fr = ((STROOP as int) - fee) * (STROOP_SCALAR as int);
    let wr = floor_div(inr.denorm * (STROOP as int), outr.denorm as int) * (STROOP_SCALAR as int);
    let adj = fmul_floor(ai, fr);
    let base = floor_div(bi * (BONE as int), bi + adj);
    match cpow_res(base, wr, true) {
        Err(e) => Err(e),
        Ok(pw) => if pw > BONE as int {
            Err(Error::ErrSubUnderflow)
        } else {
            down_floor_res(fmul_floor(bo, (BONE as int) - pw), outr.scalar as int)
        },
    }
}

/// Amount of out-token sent for a given amount of in-token; rounds down to
/// benefit the pool.
pub fn calc_token_out_given_token_in(
    e: &Env,
    in_record: &Record,
    out_record: &Record,
    amount_in: i128,
    swap_fee: i128,
) -> (r: Result<i128, Error>)
    requires
        record_scaled(*in_record),
        record_scaled(*out_record),
        1 <= in_record.balance,
        0 <= amount_in,
        amount_in * in_record.scalar <= UPSCALE_LIMIT as int,
        0 <= swap_fee <= MAX_FEE,
        in_record.denorm <= 50 * out_record.denorm,
    ensures
        res_matches(
            r,
            token_out_res(*in_record, *out_record, amount_in as int, swap_fee as int),
        ),
{
    let bone = i256_from_i128(e, BONE);
    let bi = upscale(e, in_record.balance, in_record.scalar);
    let bo = upscale(e, out_record.balance, out_record.scalar);
    let ai = upscale(e, amount_in, in_record.scalar);
    let fee_ratio = upscale(e, STROOP - swap_fee, STROOP_SCALAR);

    proof {
        lemma_mul_le_nonneg(in_record.denorm as int, STROOP as int, MAX_TOTAL_WEIGHT as int,
            STROOP as int);
        lemma_floor_div_in_i128(in_record.denorm as int * (STROOP as int),
            out_record.denorm as int);
        lemma_floor_div_nonneg(in_record.denorm as int * (STROOP as int),
            out_record.denorm as int);
        assert(in_record.denorm as int * (STROOP as int) <= (50 * (STROOP as int))
            * (out_record.denorm as int)) by (nonlinear_arith)
            requires
                in_record.denorm as int <= 50 * (out_record.denorm as int),
                (STROOP as int) > 0,
        ;
        lemma_floor_div_le(in_record.denorm as int * (STROOP as int), out_record.denorm as int,
            50 * (STROOP as int));
    }
    let wr_small = match i128_fixed_div_floor(in_record.denorm, out_record.denorm, STROOP) {
        Some(v) => v,
        None => {
            proof {
                assert(false);
            }
            0
        },
    };
    let weight_ratio = upscale(e, wr_small, STROOP_SCALAR);

    proof {
        lemma_mul_le_nonneg(i256_val(ai), i256_val(fee_ratio), UPSCALE_LIMIT as int, BONE as int);
    }
    let adjusted_in = i256_fixed_mul_floor(e, &ai, &fee_ratio, &bone);
    proof {
        lemma_floor_div_le(i256_val(ai) * i256_val(fee_ratio), BONE as int, UPSCALE_LIMIT as int);
    }
    let denom = i256_add(&bi, &adjusted_in);
    proof {
        assert(i256_val(bi) >= 1) by (nonlinear_arith)
            requires
                i256_val(bi) == in_record.balance as int * in_record.scalar as int,
                in_record.balance >= 1,
                in_record.scalar >= 1,
        ;
        lemma_mul_le_nonneg(i256_val(bi), BONE as int, UPSCALE_LIMIT as int, BONE as int);
        assert(i256_val(bi) * (BONE as int) <= (BONE as int) * i256_val(denom))
            by (nonlinear_arith)
            requires
                i256_val(bi) <= i256_val(denom),
                (BONE as int) > 0,
        ;
        lemma_floor_div_le(i256_val(bi) * (BONE as int), i256_val(denom), BONE as int);
    }
    let base = i256_fixed_div_floor(e, &bi, &denom, &bone);
    let power = match c_pow(e, &base, &weight_ratio, true) {
        Ok(v) => v,
        Err(er) => {
            return Err(er);
        },
    };
    proof {
        lemma_pow_bound_val();
    }
    let balance_ratio = match sub_no_negative(e, &bone, &power) {
        Ok(v) => v,
        Err(er) => {
            return Err(er);
        },
    };
    proof {
        lemma_mul_le_nonneg(
            i256_val(bo),
            i256_val(balance_ratio),
            UPSCALE_LIMIT as int,
            (BONE as int) + pow_bound(),
        );
        assert(UPSCALE_LIMIT as int * ((BONE as int) + pow_bound()) < 
            0x7fffffffffffffffffffffffffffffffffffffffffffffffffffffffffffffff);
        assert(in_i256(i256_val(bo) * i256_val(balance_ratio)));
    }
    let result = i256_fixed_mul_floor(e, &bo, &balance_ratio, &bone);
    downscale_floor(e, &result, out_record.scalar)
}

/// Amount of in-token the pool requires for a given out-amount, rounded up
/// to favor the pool:
/// `Bi * ((Bo/(Bo - Aout))^(Wo/Wi) - 1) / (1 - f)`.
pub open spec fn token_in_res(inr: Record, outr: Record, amount_out: int, fee: int) -> Result<
    int,
    Error,
> {
    let bi = inr.balance * inr.scalar;
    let bo = outr.balance * outr.scalar;
    let ao = amount_out * outr.scalar;
    let fr = ((STROOP as int) - fee) * (STROOP_SCALAR as int);
    let wr = ceil_div(outr.denorm * (STROOP as int), inr.denorm as int) * (STROOP_SCALAR as int);
    let d = bo - ao;
    if d == 0 {
        Err(Error::ErrDivInternal)
    } else if d < 0 {
        Err(Error::ErrCPowBaseTooLow)
    } else {
        let base = ceil_div(bo * (BONE as int), d);
        match cpow_res(base, wr, true) {
            Err(e) => Err(e),
            Ok(pw) => if pw < BONE as int {
                Err(Error::ErrSubUnderflow)
            } else {
                let tai = fmul_ceil(bi, pw - (BONE as int));
                down_ceil_res(ceil_div(tai * (BONE as int), fr), inr.scalar as int)
            },
        }
    }
}

/// Amount of in-token required by the pool for a given out-amount; rounds
/// up to benefit the pool.
pub fn calc_token_in_given_token_out(
    e: &Env,
    in_record: &Record,
    out_record: &Record,
    amount_out: i128,
    swap_fee: i128,
) -> (r: Result<i128, Error>)
    requires
        record_scaled(*in_record),
        record_scaled(*out_record),
        0 <= amount_out,
        amount_out * out_record.scalar <= UPSCALE_LIMIT as int,
        0 <= swap_fee <= MAX_FEE,
        out_record.denorm <= 50 * in_record.denorm,
    ensures
        res_matches(
            r,
            token_in_res(*in_record, *out_record, amount_out as int, swap_fee as int),
        ),
{
    let bone = i256_from_i128(e, BONE);
    let zero = i256_from_i128(e, 0);
    let bi = upscale(e, in_record.balance, in_record.scalar);
    let bo = upscale(e, out_record.balance, out_record.scalar);
    let ao = upscale(e, amount_out, out_record.scalar);
    let fee_ratio = upscale(e, STROOP - swap_fee, STROOP_SCALAR);

    proof {
        lemma_mul_le_nonneg(out_record.denorm as int, STROOP as int, MAX_TOTAL_WEIGHT as int,
            STROOP as int);
        lemma_ceil_div_in_i128(out_record.denorm as int * (STROOP as int), in_record.denorm as int);
        lemma_ceil_div_nonneg(out_record.denorm as int * (STROOP as int), in_record.denorm as int);
        assert(out_record.denorm as int * (STROOP as int) <= (50 * (STROOP as int))
            * (in_record.denorm as int)) by (nonlinear_arith)
            requires
                out_record.denorm as int <= 50 * (in_record.denorm as int),
                (STROOP as int) > 0,
        ;
        lemma_ceil_div_le(out_record.denorm as int * (STROOP as int), in_record.denorm as int,
            50 * (STROOP as int));
    }
    let wr_small = match crate::host::i128_fixed_div_ceil(
        out_record.denorm,
        in_record.denorm,
        STROOP,
    ) {
        Some(v) => v,
        None => {
            proof {
                assert(false);
            }
            0
        },
    };
    let weight_ratio = upscale(e, wr_small, STROOP_SCALAR);

    let d = i256_sub(&bo, &ao);
    if i256_le(&d, &zero) {
        if i256_eq(&d, &zero) {
            return Err(Error::ErrDivInternal);
        }
        return Err(Error::ErrCPowBaseTooLow);
    }
    proof {
        lemma_mul_le_nonneg(i256_val(bo), BONE as int, UPSCALE_LIMIT as int, BONE as int);
    }
    let base = i256_fixed_div_ceil(e, &bo, &d, &bone);
    proof {
        if i256_val(base) < MIN_CPOW_BASE as int {
            lemma_ceil_div_nonneg(i256_val(bo) * (BONE as int), i256_val(d));
        }
    }
    let power = match c_pow(e, &base, &weight_ratio, true) {
        Ok(v) => v,
        Err(er) => {
            return Err(er);
        },
    };
    proof {
        lemma_pow_bound_val();
    }
    let balance_ratio = match sub_no_negative(e, &power, &bone) {
        Ok(v) => v,
        Err(er) => {
            return Err(er);
        },
    };
    proof {
        lemma_mul_le_nonneg(
            i256_val(bi),
            i256_val(balance_ratio),
            UPSCALE_LIMIT as int,
            pow_bound(),
        );
        assert(UPSCALE_LIMIT as int * pow_bound() < 
            0x7fffffffffffffffffffffffffffffffffffffffffffffffffffffffffffffff);
        assert(in_i256(i256_val(bi) * i256_val(balance_ratio)));
    }
    let token_amount_in = i256_fixed_mul_ceil(e, &bi, &balance_ratio, &bone);
    proof {
        lemma_ceil_div_le(
            i256_val(bi) * i256_val(balance_ratio),
            BONE as int,
            UPSCALE_LIMIT as int * 54 * 9223372036854775808,
        );
        assert(i256_val(bi) * i256_val(balance_ratio) <= (UPSCALE_LIMIT as int * 54
            * 9223372036854775808) * (BONE as int)) by (nonlinear_arith)
            requires
                0 <= i256_val(bi) * i256_val(balance_ratio),
                i256_val(bi) * i256_val(balance_ratio) <= UPSCALE_LIMIT as int * pow_bound(),
                pow_bound() == 53 * 9223372036854775808 * (BONE as int) + 1,
                (BONE as int) > 1,
                UPSCALE_LIMIT as int > 0,
        ;
        lemma_mul_le_nonneg(
            i256_val(token_amount_in),
            BONE as int,
            UPSCALE_LIMIT as int * 54 * 9223372036854775808,
            BONE as int,
        );
    }
    proof {
        assert(i256_val(fee_ratio) >= 9000000 * (STROOP_SCALAR as int));
        assert(in_i256(i256_val(token_amount_in) * (BONE as int)));
    }
    let adjusted_in = i256_fixed_div_ceil(e, &token_amount_in, &fee_ratio, &bone);
    downscale_ceil(e, &adjusted_in, in_record.scalar)
}

/// Largest join or exit balance ratio the math accepts, `BONE` squared in
/// the 18-decimal domain; anything above aborts with `ErrMathApprox`.
pub const MAX_JOIN_EXIT_RATIO: i128 = 1_000_000_000_000_000_000_000_000_000_000_000_000;

/// A host-integer `Result` equals its mathematical mirror.
pub open spec fn res256_matches(r: Result<I256, Error>, s: Result<int, Error>) -> bool {
    match s {
        Ok(v) => r matches Ok(w) && i256_val(w) == v,
        Err(e) => r matches Err(e2) && e2 == e,
    }
}

/// The normalized weight of a record at `BONE` scale, rounded down.
pub open spec fn norm_weight_floor(denorm: int, total_weight: int) -> int {
    floor_div(denorm * (STROOP as int), total_weight) * (STROOP_SCALAR as int)
}

/// The normalized weight of a record at `BONE` scale, rounded up.
pub open spec fn norm_weight_ceil(denorm: int, total_weight: int) -> int {
    ceil_div(denorm * (STROOP as int), total_weight) * (STROOP_SCALAR as int)
}

/// Shares minted for a single-sided deposit, rounded down to favor the
/// pool: `S * ((Bi + Ain*(1-(1-wi)*f))/Bi)^wi - S`.
pub open spec fn lp_out_given_deposit_res(
    inr: Record,
    pool_supply: int,
    total_weight: int,
    token_amount_in: int,
    fee: int,
) -> Result<int, Error> {
    let bi = inr.balance * inr.scalar;
    let ai = token_amount_in * inr.scalar;
    let su = pool_supply * (STROOP_SCALAR as int);
    let fu = fee * (STROOP_SCALAR as int);
    let nw = norm_weight_floor(inr.denorm as int, total_weight);
    let zaz = fmul_floor((BONE as int) - nw, fu);
    let ai_after = fmul_floor(ai, (BONE as int) - zaz);
    let ratio = floor_div((bi + ai_after) * (BONE as int), bi);
    match cpow_res(ratio, nw, false) {
        Err(e) => Err(e),
        Ok(pr) => {
            let ns = fmul_floor(pr, su);
            if ns < su {
                Err(Error::ErrSubUnderflow)
            } else {
                down_floor_res(ns - su, STROOP_SCALAR as int)
            }
        },
    }
}

/// The in-amount required for a wanted number of shares, rounded up:
/// the inverse of the single-sided deposit.
pub open spec fn deposit_given_lp_out_res(
    inr: Record,
    pool_supply: int,
    total_weight: int,
    pool_amount_out: int,
    fee: int,
) -> Result<int, Error> {
    let bi = inr.balance * inr.scalar;
    let po = pool_amount_out * (STROOP_SCALAR as int);
    let su = pool_supply * (STROOP_SCALAR as int);
    let fu = fee * (STROOP_SCALAR as int);
    let nw = norm_weight_ceil(inr.denorm as int, total_weight);
    if pool_supply == 0 {
        Err(Error::ErrDivInternal)
    } else {
        let pool_ratio = ceil_div((su + po) * (BONE as int), su);
        let boo = ceil_div((BONE as int) * (BONE as int), nw);
        match cpow_res(pool_ratio, boo, false) {
            Err(e) => Err(e),
            Ok(tir) => {
                let new_bi = fmul_ceil(bi, tir);
                if new_bi < bi {
                    Err(Error::ErrSubUnderflow)
                } else {
                    let zar = fmul_floor((BONE as int) - nw, fu);
                    down_ceil_res(
                        ceil_div((new_bi - bi) * (BONE as int), (BONE as int) - zar),
                        inr.scalar as int,
                    )
                }
            },
        }
    }
}

/// Shares burned for a wanted withdrawal amount, rounded up:
/// `S - S * ((Bo - Aout/(1-(1-wo)*f))/Bo)^wo`.
pub open spec fn lp_in_given_withdrawal_res(
    outr: Record,
    pool_supply: int,
    total_weight: int,
    token_amount_out: int,
    fee: int,
) -> Result<int, Error> {
    let bo = outr.balance * outr.scalar;
    let ao = token_amount_out * outr.scalar;
    let su = pool_supply * (STROOP_SCALAR as int);
    let fu = fee * (STROOP_SCALAR as int);
    let nw = norm_weight_ceil(outr.denorm as int, total_weight);
    let zar = fmul_floor((BONE as int) - nw, fu);
    let before_fee = ceil_div(ao * (BONE as int), (BONE as int) - zar);
    let ratio = ceil_div((bo - before_fee) * (BONE as int), bo);
    match cpow_res(ratio, nw, true) {
        Err(e) => Err(e),
        Ok(pr) => {
            let ns = fmul_ceil(pr, su);
            if su < ns {
                Err(Error::ErrSubUnderflow)
            } else {
                down_ceil_res(su - ns, STROOP_SCALAR as int)
            }
        },
    }
}

/// The withdrawal paid for burning a number of shares, rounded down:
/// the inverse of the share burn.
pub open spec fn withdrawal_given_lp_in_res(
    outr: Record,
    pool_supply: int,
    total_weight: int,
    pool_amount_in: int,
    fee: int,
) -> Result<int, Error> {
    let bo = outr.balance * outr.scalar;
    let pi = pool_amount_in * (STROOP_SCALAR as int);
    let su = pool_supply * (STROOP_SCALAR as int);
    let fu = fee * (STROOP_SCALAR as int);
    let nw = norm_weight_floor(outr.denorm as int, total_weight);
    if pool_supply == 0 {
        Err(Error::ErrDivInternal)
    } else {
        let ratio = floor_div((su - pi) * (BONE as int), su);
        let exp = floor_div((BONE as int) * (BONE as int), nw);
        match cpow_res(ratio, exp, false) {
            Err(e) => Err(e),
            Ok(tor) => {
                let new_bo = fmul_floor(bo, tor);
                if bo < new_bo {
                    Err(Error::ErrSubUnderflow)
                } else {
                    let zaz = fmul_floor((BONE as int) - nw, fu);
                    down_floor_res(
                        fmul_floor(bo - new_bo, (BONE as int) - zaz),
                        outr.scalar as int,
                    )
                }
            },
        }
    }
}

/// The proportional join ratio `ceil(dS / S)` at `BONE` scale.
pub open spec fn join_ratio_res(pool_supply: int, pool_amount_out: int) -> Result<int, Error> {
    if pool_supply == 0 {
        Err(Error::ErrDivInternal)
    } else {
        Ok(
            ceil_div(
                (pool_amount_out * (STROOP_SCALAR as int)) * (BONE as int),
                pool_supply * (STROOP_SCALAR as int),
            ),
        )
    }
}

/// The proportional exit ratio `floor(dS / S)` at `BONE` scale.
pub open spec fn exit_ratio_res(pool_supply: int, pool_amount_in: int) -> Result<int, Error> {
    if pool_supply == 0 {
        Err(Error::ErrDivInternal)
    } else {
        Ok(
            floor_div(
                (pool_amount_in * (STROOP_SCALAR as int)) * (BONE as int),
                pool_supply * (STROOP_SCALAR as int),
            ),
        )
    }
}

/// A token deposit for a join: the record's balance scaled by the join
/// ratio, each rounding up to favor the pool.
pub open spec fn join_deposit_res(inr: Record, ratio: int) -> Result<int, Error> {
    if ratio > MAX_JOIN_EXIT_RATIO as int {
        Err(Error::ErrMathApprox)
    } else {
        down_ceil_res(fmul_ceil(inr.balance * inr.scalar, ratio), inr.scalar as int)
    }
}

/// A token withdrawal for an exit: the record's balance scaled by the exit
/// ratio, each rounding down to favor the pool.
pub open spec fn exit_withdrawal_res(outr: Record, ratio: int) -> Result<int, Error> {
    if ratio > MAX_JOIN_EXIT_RATIO as int {
        Err(Error::ErrMathApprox)
    } else {
        down_floor_res(fmul_floor(outr.balance * outr.scalar, ratio), outr.scalar as int)
    }
}

/// A weight that sits legally inside its pool: positive, no more than the
/// total, and no less than a fiftieth of it.
pub open spec fn weight_in_pool(denorm: int, total_weight: int) -> bool {
    &&& 1 <= denorm <= total_weight
    &&& total_weight <= MAX_TOTAL_WEIGHT as int
    &&& total_weight <= 50 * denorm
}

/// The normalized weight at `BONE` scale, rounded down; always between
/// `BONE/50` and `BONE`.
fn norm_weight_f(e: &Env, denorm: i128, total_weight: i128) -> (r: I256)
    requires
        weight_in_pool(denorm as int, total_weight as int),
    ensures
        i256_val(r) == norm_weight_floor(denorm as int, total_weight as int),
        20_000_000_000_000_000 <= i256_val(r) <= BONE as int,
{
    proof {
        lemma_mul_le_nonneg(denorm as int, STROOP as int, MAX_TOTAL_WEIGHT as int, STROOP as int);
        lemma_floor_div_in_i128(denorm as int * (STROOP as int), total_weight as int);
        assert(denorm as int * (STROOP as int) <= (STROOP as int) * (total_weight as int))
            by (nonlinear_arith)
            requires denorm as int <= total_weight as int && (STROOP as int) > 0;
        lemma_floor_div_le(denorm as int * (STROOP as int), total_weight as int, STROOP as int);
        assert(denorm as int * (STROOP as int) >= 200000 * (total_weight as int))
            by (nonlinear_arith)
            requires total_weight as int <= 50 * (denorm as int) && (STROOP as int) == 10000000;
        lemma_floor_div_ge(denorm as int * (STROOP as int), total_weight as int, 200000);
    }
    let nw_small = match i128_fixed_div_floor(denorm, total_weight, STROOP) {
        Some(v) => v,
        None => {
            proof {
                assert(false);
            }
            0
        },
    };
    upscale(e, nw_small, STROOP_SCALAR)
}

/// The normalized weight at `BONE` scale, rounded up; always between
/// `BONE/50` and `BONE`.
fn norm_weight_c(e: &Env, denorm: i128, total_weight: i128) -> (r: I256)
    requires
        weight_in_pool(denorm as int, total_weight as int),
    ensures
        i256_val(r) == norm_weight_ceil(denorm as int, total_weight as int),
        20_000_000_000_000_000 <= i256_val(r) <= BONE as int,
{
    proof {
        lemma_mul_le_nonneg(denorm as int, STROOP as int, MAX_TOTAL_WEIGHT as int, STROOP as int);
        lemma_ceil_div_in_i128(denorm as int * (STROOP as int), total_weight as int);
        assert(denorm as int * (STROOP as int) <= (STROOP as int) * (total_weight as int))
            by (nonlinear_arith)
            requires denorm as int <= total_weight as int && (STROOP as int) > 0;
        lemma_ceil_div_le(denorm as int * (STROOP as int), total_weight as int, STROOP as int);
        assert(denorm as int * (STROOP as int) >= 200000 * (total_weight as int))
            by (nonlinear_arith)
            requires total_weight as int <= 50 * (denorm as int) && (STROOP as int) == 10000000;
        lemma_floor_div_ge(denorm as int * (STROOP as int), total_weight as int, 200000);
        lemma_ceil_div_nonneg(denorm as int * (STROOP as int), total_weight as int);
    }
    let nw_small = match crate::host::i128_fixed_div_ceil(denorm, total_weight, STROOP) {
        Some(v) => v,
        None => {
            proof {
                assert(false);
            }
            0
        },
    };
    upscale(e, nw_small, STROOP_SCALAR)
}

/// Shares minted to a user for a single-sided deposit; rounds down to
/// benefit the pool.
pub fn calc_lp_token_amount_given_token_deposits_in(
    e: &Env,
    in_record: &Record,
    pool_supply: i128,
    total_weight: i128,
    token_amount_in: i128,
    swap_fee: i128,
) -> (r: Result<i128, Error>)
    requires
        record_scaled(*in_record),
        1 <= in_record.balance,
        weight_in_pool(in_record.denorm as int, total_weight as int),
        0 <= token_amount_in,
        token_amount_in * in_record.scalar <= UPSCALE_LIMIT as int,
        0 <= pool_supply,
        pool_supply * STROOP_SCALAR <= UPSCALE_LIMIT as int,
        0 <= swap_fee <= MAX_FEE,
    ensures
        res_matches(
            r,
            lp_out_given_deposit_res(
                *in_record,
                pool_supply as int,
                total_weight as int,
                token_amount_in as int,
                swap_fee as int,
            ),
        ),
{
    let bone = i256_from_i128(e, BONE);
    let bi = upscale(e, in_record.balance, in_record.scalar);
    let ai = upscale(e, token_amount_in, in_record.scalar);
    let su = upscale(e, pool_supply, STROOP_SCALAR);
    let fu = upscale(e, swap_fee, STROOP_SCALAR);
    let nw = norm_weight_f(e, in_record.denorm, total_weight);

    let bone_minus_nw = i256_sub(&bone, &nw);
    proof {
        lemma_mul_le_nonneg(i256_val(bone_minus_nw), i256_val(fu), BONE as int, BONE as int);
    }
    let zaz = i256_fixed_mul_floor(e, &bone_minus_nw, &fu, &bone);
    proof {
        assert(i256_val(bone_minus_nw) * i256_val(fu) <= i256_val(fu) * (BONE as int))
            by (nonlinear_arith)
            requires
                0 <= i256_val(bone_minus_nw) <= BONE as int,
                0 <= i256_val(fu),
        ;
        lemma_floor_div_le(i256_val(bone_minus_nw) * i256_val(fu), BONE as int, i256_val(fu));
    }
    let bone_minus_zaz = i256_sub(&bone, &zaz);
    proof {
        lemma_mul_le_nonneg(i256_val(ai), i256_val(bone_minus_zaz), UPSCALE_LIMIT as int,
            BONE as int);
    }
    let ai_after = i256_fixed_mul_floor(e, &ai, &bone_minus_zaz, &bone);
    proof {
        lemma_floor_div_le(i256_val(ai) * i256_val(bone_minus_zaz), BONE as int,
            UPSCALE_LIMIT as int);
    }
    let new_bi = i256_add(&bi, &ai_after);
    proof {
        assert(i256_val(bi) >= 1) by (nonlinear_arith)
            requires
                i256_val(bi) == in_record.balance as int * in_record.scalar as int,
                in_record.balance >= 1,
                in_record.scalar >= 1,
        ;
        lemma_mul_le_nonneg(i256_val(new_bi), BONE as int, 2 * (UPSCALE_LIMIT as int),
            BONE as int);
    }
    let ratio = i256_fixed_div_floor(e, &new_bi, &bi, &bone);
    let pool_ratio = match c_pow(e, &ratio, &nw, false) {
        Ok(v) => v,
        Err(er) => {
            return Err(er);
        },
    };
    proof {
        lemma_pow_bound_val();
        lemma_mul_rng(i256_val(pool_ratio), i256_val(su), pow_bound(), UPSCALE_LIMIT as int);
    }
    let new_supply = i256_fixed_mul_floor(e, &pool_ratio, &su, &bone);
    proof {
        lemma_floor_div_bound_by(
            i256_val(pool_ratio) * i256_val(su),
            BONE as int,
            54 * 9223372036854775808 * (UPSCALE_LIMIT as int),
        );
        assert(pow_bound() * (UPSCALE_LIMIT as int) <= (54 * 9223372036854775808 * (
        UPSCALE_LIMIT as int)) * (BONE as int)) by (nonlinear_arith)
            requires
                pow_bound() == 53 * 9223372036854775808 * (BONE as int) + 1,
                (BONE as int) > 1,
                (UPSCALE_LIMIT as int) > 0,
        ;
    }
    let minted = match sub_no_negative(e, &new_supply, &su) {
        Ok(v) => v,
        Err(er) => {
            return Err(er);
        },
    };
    downscale_floor(e, &minted, STROOP_SCALAR)
}

/// The deposit required for a wanted number of shares; rounds up to
/// benefit the pool.
pub fn calc_token_deposits_in_given_lp_token_amount(
    e: &Env,
    in_record: &Record,
    pool_supply: i128,
    total_weight: i128,
    pool_amount_out: i128,
    swap_fee: i128,
) -> (r: Result<i128, Error>)
    requires
        record_scaled(*in_record),
        1 <= in_record.balance,
        weight_in_pool(in_record.denorm as int, total_weight as int),
        0 <= pool_amount_out,
        pool_amount_out * STROOP_SCALAR <= UPSCALE_LIMIT as int,
        0 <= pool_supply,
        pool_supply * STROOP_SCALAR <= UPSCALE_LIMIT as int,
        0 <= swap_fee <= MAX_FEE,
    ensures
        res_matches(
            r,
            deposit_given_lp_out_res(
                *in_record,
                pool_supply as int,
                total_weight as int,
                pool_amount_out as int,
                swap_fee as int,
            ),
        ),
{
    let bone = i256_from_i128(e, BONE);
    let bi = upscale(e, in_record.balance, in_record.scalar);
    let po = upscale(e, pool_amount_out, STROOP_SCALAR);
    let su = upscale(e, pool_supply, STROOP_SCALAR);
    let fu = upscale(e, swap_fee, STROOP_SCALAR);
    let nw = norm_weight_c(e, in_record.denorm, total_weight);

    if pool_supply == 0 {
        return Err(Error::ErrDivInternal);
    }
    let new_supply = i256_add(&su, &po);
    proof {
        assert(i256_val(su) >= STROOP_SCALAR as int) by (nonlinear_arith)
            requires
                i256_val(su) == pool_supply as int * (STROOP_SCALAR as int),
                pool_supply >= 1,
        ;
        lemma_mul_le_nonneg(i256_val(new_supply), BONE as int, 2 * (UPSCALE_LIMIT as int),
            BONE as int);
    }
    let pool_ratio = i256_fixed_div_ceil(e, &new_supply, &su, &bone);
    proof {
        lemma_mul_le_nonneg(BONE as int, BONE as int, BONE as int, BONE as int);
        assert((BONE as int) * (BONE as int) <= (50 * (BONE as int)) * i256_val(nw))
            by (nonlinear_arith)
            requires
                i256_val(nw) >= 20_000_000_000_000_000,
                (BONE as int) == 1_000_000_000_000_000_000,
        ;
        lemma_ceil_div_le((BONE as int) * (BONE as int), i256_val(nw), 50 * (BONE as int));
        lemma_ceil_div_nonneg((BONE as int) * (BONE as int), i256_val(nw));
    }
    let boo = i256_fixed_div_ceil(e, &bone, &nw, &bone);
    let token_in_ratio = match c_pow(e, &pool_ratio, &boo, false) {
        Ok(v) => v,
        Err(er) => {
            return Err(er);
        },
    };
    proof {
        lemma_pow_bound_val();
        lemma_mul_rng(i256_val(token_in_ratio), i256_val(bi), pow_bound(), UPSCALE_LIMIT as int);
        assert(pow_bound() * (UPSCALE_LIMIT as int) <= (54 * 9223372036854775808 * (
        UPSCALE_LIMIT as int)) * (BONE as int)) by (nonlinear_arith)
            requires
                pow_bound() == 53 * 9223372036854775808 * (BONE as int) + 1,
                (BONE as int) > 1,
                (UPSCALE_LIMIT as int) > 0,
        ;
        assert(i256_val(bi) * i256_val(token_in_ratio) == i256_val(token_in_ratio) * i256_val(bi))
            by (nonlinear_arith);
    }
    let new_bi = i256_fixed_mul_ceil(e, &bi, &token_in_ratio, &bone);
    proof {
        lemma_ceil_div_bound_by(
            i256_val(bi) * i256_val(token_in_ratio),
            BONE as int,
            54 * 9223372036854775808 * (UPSCALE_LIMIT as int),
        );
    }
    let after_fee = match sub_no_negative(e, &new_bi, &bi) {
        Ok(v) => v,
        Err(er) => {
            return Err(er);
        },
    };
    let bone_minus_nw = i256_sub(&bone, &nw);
    proof {
        lemma_mul_le_nonneg(i256_val(bone_minus_nw), i256_val(fu), BONE as int, BONE as int);
    }
    let zar = i256_fixed_mul_floor(e, &bone_minus_nw, &fu, &bone);
    proof {
        assert(i256_val(bone_minus_nw) * i256_val(fu) <= i256_val(fu) * (BONE as int))
            by (nonlinear_arith)
            requires
                0 <= i256_val(bone_minus_nw) <= BONE as int,
                0 <= i256_val(fu),
        ;
        lemma_floor_div_le(i256_val(bone_minus_nw) * i256_val(fu), BONE as int, i256_val(fu));
    }
    let bone_minus_zar = i256_sub(&bone, &zar);
    proof {
        lemma_mul_le_nonneg(
            i256_val(after_fee),
            BONE as int,
            54 * 9223372036854775808 * (UPSCALE_LIMIT as int) + 1,
            BONE as int,
        );
    }
    let result = i256_fixed_div_ceil(e, &after_fee, &bone_minus_zar, &bone);
    downscale_ceil(e, &result, in_record.scalar)
}

/// Shares a user must burn for a wanted withdrawal; rounds up to benefit
/// the pool.
pub fn calc_lp_token_amount_given_token_withdrawal_amount(
    e: &Env,
    out_record: &Record,
    pool_supply: i128,
    total_weight: i128,
    token_amount_out: i128,
    swap_fee: i128,
) -> (r: Result<i128, Error>)
    requires
        record_scaled(*out_record),
        1 <= out_record.balance,
        weight_in_pool(out_record.denorm as int, total_weight as int),
        0 <= token_amount_out,
        token_amount_out * out_record.scalar <= UPSCALE_LIMIT as int,
        0 <= pool_supply,
        pool_supply * STROOP_SCALAR <= UPSCALE_LIMIT as int,
        0 <= swap_fee <= MAX_FEE,
    ensures
        res_matches(
            r,
            lp_in_given_withdrawal_res(
                *out_record,
                pool_supply as int,
                total_weight as int,
                token_amount_out as int,
                swap_fee as int,
            ),
        ),
{
    let bone = i256_from_i128(e, BONE);
    let bo = upscale(e, out_record.balance, out_record.scalar);
    let ao = upscale(e, token_amount_out, out_record.scalar);
    let su = upscale(e, pool_supply, STROOP_SCALAR);
    let fu = upscale(e, swap_fee, STROOP_SCALAR);
    let nw = norm_weight_c(e, out_record.denorm, total_weight);

    let bone_minus_nw = i256_sub(&bone, &nw);
    proof {
        lemma_mul_le_nonneg(i256_val(bone_minus_nw), i256_val(fu), BONE as int, BONE as int);
    }
    let zar = i256_fixed_mul_floor(e, &bone_minus_nw, &fu, &bone);
    proof {
        assert(i256_val(bone_minus_nw) * i256_val(fu) <= i256_val(fu) * (BONE as int))
            by (nonlinear_arith)
            requires
                0 <= i256_val(bone_minus_nw) <= BONE as int,
                0 <= i256_val(fu),
        ;
        lemma_floor_div_le(i256_val(bone_minus_nw) * i256_val(fu), BONE as int, i256_val(fu));
    }
    let bone_minus_zar = i256_sub(&bone, &zar);
    proof {
        lemma_mul_le_nonneg(i256_val(ao), BONE as int, UPSCALE_LIMIT as int, BONE as int);
        assert(i256_val(ao) * (BONE as int) <= (2 * (UPSCALE_LIMIT as int)) * i256_val(
        bone_minus_zar)) by (nonlinear_arith)
            requires
                0 <= i256_val(ao) <= UPSCALE_LIMIT as int,
                i256_val(bone_minus_zar) >= 900_000_000_000_000_000,
                (BONE as int) == 1_000_000_000_000_000_000,
                (UPSCALE_LIMIT as int) > 0,
        ;
    }
    let before_fee = i256_fixed_div_ceil(e, &ao, &bone_minus_zar, &bone);
    proof {
        lemma_ceil_div_le(
            i256_val(ao) * (BONE as int),
            i256_val(bone_minus_zar),
            2 * (UPSCALE_LIMIT as int),
        );
    }
    let new_bo = i256_sub(&bo, &before_fee);
    proof {
        assert(i256_val(bo) >= 1) by (nonlinear_arith)
            requires
                i256_val(bo) == out_record.balance as int * out_record.scalar as int,
                out_record.balance >= 1,
                out_record.scalar >= 1,
        ;
        lemma_mul_rng(i256_val(new_bo), BONE as int, 3 * (UPSCALE_LIMIT as int), BONE as int);
    }
    let ratio = i256_fixed_div_ceil(e, &new_bo, &bo, &bone);
    let pool_ratio = match c_pow(e, &ratio, &nw, true) {
        Ok(v) => v,
        Err(er) => {
            return Err(er);
        },
    };
    proof {
        lemma_pow_bound_val();
        lemma_mul_rng(i256_val(pool_ratio), i256_val(su), pow_bound(), UPSCALE_LIMIT as int);
    }
    let new_supply = i256_fixed_mul_ceil(e, &pool_ratio, &su, &bone);
    proof {
        lemma_ceil_div_bound_by(
            i256_val(pool_ratio) * i256_val(su),
            BONE as int,
            54 * 9223372036854775808 * (UPSCALE_LIMIT as int),
        );
        assert(pow_bound() * (UPSCALE_LIMIT as int) <= (54 * 9223372036854775808 * (
        UPSCALE_LIMIT as int)) * (BONE as int)) by (nonlinear_arith)
            requires
                pow_bound() == 53 * 9223372036854775808 * (BONE as int) + 1,
                (BONE as int) > 1,
                (UPSCALE_LIMIT as int) > 0,
        ;
    }
    let burned = match sub_no_negative(e, &su, &new_supply) {
        Ok(v) => v,
        Err(er) => {
            return Err(er);
        },
    };
    downscale_ceil(e, &burned, STROOP_SCALAR)
}

/// The withdrawal paid out for burning a number of shares; rounds down to
/// benefit the pool.
pub fn calc_token_withdrawal_amount_given_lp_token_amount(
    e: &Env,
    out_record: &Record,
    pool_supply: i128,
    total_weight: i128,
    pool_amount_in: i128,
    swap_fee: i128,
) -> (r: Result<i128, Error>)
    requires
        record_scaled(*out_record),
        1 <= out_record.balance,
        weight_in_pool(out_record.denorm as int, total_weight as int),
        0 <= pool_amount_in,
        pool_amount_in * STROOP_SCALAR <= UPSCALE_LIMIT as int,
        0 <= pool_supply,
        pool_supply * STROOP_SCALAR <= UPSCALE_LIMIT as int,
        0 <= swap_fee <= MAX_FEE,
    ensures
        res_matches(
            r,
            withdrawal_given_lp_in_res(
                *out_record,
                pool_supply as int,
                total_weight as int,
                pool_amount_in as int,
                swap_fee as int,
            ),
        ),
{
    let bone = i256_from_i128(e, BONE);
    let bo = upscale(e, out_record.balance, out_record.scalar);
    let pi = upscale(e, pool_amount_in, STROOP_SCALAR);
    let su = upscale(e, pool_supply, STROOP_SCALAR);
    let fu = upscale(e, swap_fee, STROOP_SCALAR);
    let nw = norm_weight_f(e, out_record.denorm, total_weight);

    if pool_supply == 0 {
        return Err(Error::ErrDivInternal);
    }
    let new_supply = i256_sub(&su, &pi);
    proof {
        assert(i256_val(su) >= STROOP_SCALAR as int) by (nonlinear_arith)
            requires
                i256_val(su) == pool_supply as int * (STROOP_SCALAR as int),
                pool_supply >= 1,
        ;
        lemma_mul_rng(i256_val(new_supply), BONE as int, 2 * (UPSCALE_LIMIT as int), BONE as int);
    }
    let ratio = i256_fixed_div_floor(e, &new_supply, &su, &bone);
    proof {
        lemma_mul_le_nonneg(BONE as int, BONE as int, BONE as int, BONE as int);
        assert((BONE as int) * (BONE as int) <= (50 * (BONE as int)) * i256_val(nw))
            by (nonlinear_arith)
            requires
                i256_val(nw) >= 20_000_000_000_000_000,
                (BONE as int) == 1_000_000_000_000_000_000,
        ;
        lemma_floor_div_le((BONE as int) * (BONE as int), i256_val(nw), 50 * (BONE as int));
        lemma_floor_div_nonneg((BONE as int) * (BONE as int), i256_val(nw));
    }
    let exp = i256_fixed_div_floor(e, &bone, &nw, &bone);
    let token_out_ratio = match c_pow(e, &ratio, &exp, false) {
        Ok(v) => v,
        Err(er) => {
            return Err(er);
        },
    };
    proof {
        lemma_pow_bound_val();
        lemma_mul_rng(i256_val(token_out_ratio), i256_val(bo), pow_bound(), UPSCALE_LIMIT as int);
        assert(pow_bound() * (UPSCALE_LIMIT as int) <= (54 * 9223372036854775808 * (
        UPSCALE_LIMIT as int)) * (BONE as int)) by (nonlinear_arith)
            requires
                pow_bound() == 53 * 9223372036854775808 * (BONE as int) + 1,
                (BONE as int) > 1,
                (UPSCALE_LIMIT as int) > 0,
        ;
        assert(i256_val(bo) * i256_val(token_out_ratio) == i256_val(token_out_ratio) * i256_val(
        bo)) by (nonlinear_arith);
    }
    let new_bo = i256_fixed_mul_floor(e, &bo, &token_out_ratio, &bone);
    proof {
        lemma_floor_div_bound_by(
            i256_val(bo) * i256_val(token_out_ratio),
            BONE as int,
            54 * 9223372036854775808 * (UPSCALE_LIMIT as int),
        );
    }
    let before_fee = match sub_no_negative(e, &bo, &new_bo) {
        Ok(v) => v,
        Err(er) => {
            return Err(er);
        },
    };
    let bone_minus_nw = i256_sub(&bone, &nw);
    proof {
        lemma_mul_le_nonneg(i256_val(bone_minus_nw), i256_val(fu), BONE as int, BONE as int);
    }
    let zaz = i256_fixed_mul_floor(e, &bone_minus_nw, &fu, &bone);
    proof {
        assert(i256_val(bone_minus_nw) * i256_val(fu) <= i256_val(fu) * (BONE as int))
            by (nonlinear_arith)
            requires
                0 <= i256_val(bone_minus_nw) <= BONE as int,
                0 <= i256_val(fu),
        ;
        lemma_floor_div_le(i256_val(bone_minus_nw) * i256_val(fu), BONE as int, i256_val(fu));
    }
    let bone_minus_zaz = i256_sub(&bone, &zaz);
    proof {
        lemma_mul_le_nonneg(
            i256_val(before_fee),
            i256_val(bone_minus_zaz),
            54 * 9223372036854775808 * (UPSCALE_LIMIT as int) + 1 + (UPSCALE_LIMIT as int),
            BONE as int,
        );
    }
    let result = i256_fixed_mul_floor(e, &before_fee, &bone_minus_zaz, &bone);
    downscale_floor(e, &result, out_record.scalar)
}

/// The proportional join ratio, rounded up to benefit the pool.
pub fn calc_join_ratio(e: &Env, pool_supply: i128, pool_amount_out: i128) -> (r: Result<
    I256,
    Error,
>)
    requires
        0 <= pool_supply,
        pool_supply * STROOP_SCALAR <= UPSCALE_LIMIT as int,
        0 <= pool_amount_out,
        pool_amount_out * STROOP_SCALAR <= UPSCALE_LIMIT as int,
    ensures
        res256_matches(r, join_ratio_res(pool_supply as int, pool_amount_out as int)),
        r matches Ok(v) ==> 0 <= i256_val(v),
{
    if pool_supply == 0 {
        return Err(Error::ErrDivInternal);
    }
    let bone = i256_from_i128(e, BONE);
    let su = upscale(e, pool_supply, STROOP_SCALAR);
    let po = upscale(e, pool_amount_out, STROOP_SCALAR);
    proof {
        assert(i256_val(su) >= 1) by (nonlinear_arith)
            requires
                i256_val(su) == pool_supply as int * (STROOP_SCALAR as int),
                pool_supply >= 1,
        ;
        lemma_mul_le_nonneg(i256_val(po), BONE as int, UPSCALE_LIMIT as int, BONE as int);
        lemma_ceil_div_nonneg(i256_val(po) * (BONE as int), i256_val(su));
    }
    Ok(i256_fixed_div_ceil(e, &po, &su, &bone))
}

/// The proportional exit ratio, rounded down to benefit the pool.
pub fn calc_exit_ratio(e: &Env, pool_supply: i128, pool_amount_in: i128) -> (r: Result<
    I256,
    Error,
>)
    requires
        0 <= pool_supply,
        pool_supply * STROOP_SCALAR <= UPSCALE_LIMIT as int,
        0 <= pool_amount_in,
        pool_amount_in * STROOP_SCALAR <= UPSCALE_LIMIT as int,
    ensures
        res256_matches(r, exit_ratio_res(pool_supply as int, pool_amount_in as int)),
        r matches Ok(v) ==> 0 <= i256_val(v),
{
    if pool_supply == 0 {
        return Err(Error::ErrDivInternal);
    }
    let bone = i256_from_i128(e, BONE);
    let su = upscale(e, pool_supply, STROOP_SCALAR);
    let pi = upscale(e, pool_amount_in, STROOP_SCALAR);
    proof {
        assert(i256_val(su) >= 1) by (nonlinear_arith)
            requires
                i256_val(su) == pool_supply as int * (STROOP_SCALAR as int),
                pool_supply >= 1,
        ;
        lemma_mul_le_nonneg(i256_val(pi), BONE as int, UPSCALE_LIMIT as int, BONE as int);
        lemma_floor_div_nonneg(i256_val(pi) * (BONE as int), i256_val(su));
    }
    Ok(i256_fixed_div_floor(e, &pi, &su, &bone))
}

/// The deposit one token contributes to a proportional join, rounded up.
pub fn calc_join_deposit_amount(e: &Env, in_record: &Record, join_ratio: &I256) -> (r: Result<
    i128,
    Error,
>)
    requires
        record_scaled(*in_record),
        0 <= i256_val(*join_ratio),
    ensures
        res_matches(r, join_deposit_res(*in_record, i256_val(*join_ratio))),
{
    let cap = i256_from_i128(e, MAX_JOIN_EXIT_RATIO);
    if i256_lt(&cap, join_ratio) {
        return Err(Error::ErrMathApprox);
    }
    let bone = i256_from_i128(e, BONE);
    let bi = upscale(e, in_record.balance, in_record.scalar);
    proof {
        lemma_mul_le_nonneg(
            i256_val(bi),
            i256_val(*join_ratio),
            UPSCALE_LIMIT as int,
            MAX_JOIN_EXIT_RATIO as int,
        );
    }
    let result = i256_fixed_mul_ceil(e, &bi, join_ratio, &bone);
    downscale_ceil(e, &result, in_record.scalar)
}

/// The withdrawal one token pays out in a proportional exit, rounded down.
pub fn calc_exit_withdrawal_amount(e: &Env, out_record: &Record, exit_ratio: &I256) -> (r: Result<
    i128,
    Error,
>)
    requires
        record_scaled(*out_record),
        0 <= i256_val(*exit_ratio),
    ensures
        res_matches(r, exit_withdrawal_res(*out_record, i256_val(*exit_ratio))),
{
    let cap = i256_from_i128(e, MAX_JOIN_EXIT_RATIO);
    if i256_lt(&cap, exit_ratio) {
        return Err(Error::ErrMathApprox);
    }
    let bone = i256_from_i128(e, BONE);
    let bo = upscale(e, out_record.balance, out_record.scalar);
    proof {
        lemma_mul_le_nonneg(
            i256_val(bo),
            i256_val(*exit_ratio),
            UPSCALE_LIMIT as int,
            MAX_JOIN_EXIT_RATIO as int,
        );
    }
    let result = i256_fixed_mul_floor(e, &bo, exit_ratio, &bone);
    downscale_floor(e, &result, out_record.scalar)
}

} // verus!
