//! The fixed-point arithmetic kernel: checked `i128` primitives at `BONE`
//! scale, an integer power by repeated squaring, and the fractional power
//! series with directed rounding.

use vstd::prelude::*;
use soroban_sdk::{Env, I256};
use crate::c_consts::{BONE, CPOW_PRECISION, MAX_CPOW_BASE, MIN_CPOW_BASE};
use crate::errors::Error;
use crate::fixed_point::{abs_int, ceil_div, floor_div, in_i128, lemma_ceil_div_bound_by,
    lemma_floor_div_bound_by, lemma_floor_div_bounds, lemma_floor_div_le, lemma_floor_div_nonneg};
use crate::host::{i256_add, i256_clone, i256_div, i256_eq, i256_fixed_div_floor,
    i256_fixed_mul_ceil, i256_fixed_mul_floor, i256_from_i128, i256_le, i256_lt, i256_mul,
    i256_sub, i256_to_i128, i256_val, in_i256};

verus! {

/// 2^k.
pub open spec fn p2(k: nat) -> int
    decreases k,
{
    if k == 0 {
        1
    } else {
        2 * p2((k - 1) as nat)
    }
}

pub proof fn lemma_p2_pos(k: nat)
    ensures
        p2(k) >= 1,
    decreases k,
{
    if k > 0 {
        lemma_p2_pos((k - 1) as nat);
    }
}

/// 2^a * 2^b == 2^(a+b).
pub proof fn lemma_p2_adds(a: nat, b: nat)
    ensures
        p2(a) * p2(b) == p2(a + b),
    decreases a,
{
    if a == 0 {
        assert(1 * p2(b) == p2(b)) by (nonlinear_arith);
    } else {
        lemma_p2_adds((a - 1) as nat, b);
        assert((2 * p2((a - 1) as nat)) * p2(b) == 2 * (p2((a - 1) as nat) * p2(b)))
            by (nonlinear_arith);
    }
}

pub proof fn lemma_p2_le(a: nat, b: nat)
    requires
        a <= b,
    ensures
        p2(a) <= p2(b),
    decreases b,
{
    if a < b {
        lemma_p2_le(a, (b - 1) as nat);
        lemma_p2_pos((b - 1) as nat);
    }
}


pub proof fn lemma_p2_concrete()
    ensures
        p2(31) == 0x80000000,
        p2(62) == 0x4000000000000000,
        p2(63) == 0x8000000000000000,
{
    reveal_with_fuel(p2, 9);
    assert(p2(8) == 256);
    assert(p2(7) == 128);
    lemma_p2_adds(8, 8);
    assert(p2(16) == 65536);
    lemma_p2_adds(16, 8);
    assert(p2(24) == 16777216);
    lemma_p2_adds(24, 7);
    assert(p2(31) == 0x80000000);
    lemma_p2_adds(31, 31);
    assert(p2(62) == 0x4000000000000000);
    lemma_p2_adds(62, 1);
    assert(p2(1) == 2);
    assert(p2(63) == 0x8000000000000000);
}

/// `floor(a * b / BONE)`: the fixed-point product rounded down.
pub open spec fn fmul_floor(a: int, b: int) -> int {
    floor_div(a * b, BONE as int)
}

/// `ceil(a * b / BONE)`: the fixed-point product rounded up.
pub open spec fn fmul_ceil(a: int, b: int) -> int {
    ceil_div(a * b, BONE as int)
}

/// `floor(a * BONE / b)`: the fixed-point quotient rounded down.
pub open spec fn fdiv_floor(a: int, b: int) -> int {
    floor_div(a * (BONE as int), b)
}

/// `ceil(a * BONE / b)`: the fixed-point quotient rounded up.
pub open spec fn fdiv_ceil(a: int, b: int) -> int {
    ceil_div(a * (BONE as int), b)
}

/// The state of the square-and-multiply loop: accumulator `z`, running
/// square `a`, and the exponent bits `n` still to be consumed.
pub open spec fn powi_loop_spec(z: int, a: int, n: nat) -> int
    decreases n,
{
    if n == 0 {
        z
    } else {
        let a2 = fmul_floor(a, a);
        let z2 = if n % 2 == 1 {
            fmul_floor(z, a2)
        } else {
            z
        };
        powi_loop_spec(z2, a2, n / 2)
    }
}

/// `a^n` at `BONE` scale, computed by repeated squaring with floor rounding
/// after every multiplication.
pub open spec fn powi_spec(a: int, n: nat) -> int {
    powi_loop_spec(if n % 2 == 1 { a } else { BONE as int }, a, n / 2)
}

/// One term of the binomial series: the previous term times
/// `(exp - (i-1)*BONE) * (base - BONE)`, each product floored at `BONE`
/// scale, then floored by `i * BONE`.
pub open spec fn approx_step(term: int, x: int, exp: int, i: int) -> int {
    let c = exp - (i * (BONE as int) - (BONE as int));
    let t2 = fmul_floor(term, fmul_floor(c, x));
    floor_div(t2 * (BONE as int), i * (BONE as int))
}

/// Runs the series from term `i` with accumulator `sum`, stopping when a
/// term's magnitude falls to `prec` or after term 50; yields the final sum
/// and the last term applied.
pub open spec fn approx_rec(x: int, exp: int, prec: int, term: int, sum: int, i: int) -> (int, int)
    decreases 51 - i,
{
    if i >= 51 {
        (sum, term)
    } else {
        let t = approx_step(term, x, exp, i);
        let s = sum + t;
        if abs_int(t) <= prec {
            (s, t)
        } else {
            approx_rec(x, exp, prec, t, s, i + 1)
        }
    }
}

/// The truncated binomial series for `base^(exp/BONE)` with the final
/// corrective term that makes the result a directed bound: rounded toward
/// the pool according to `round_up`.
pub open spec fn cpow_approx_spec(base: int, exp: int, prec: int, round_up: bool) -> int {
    let x = base - (BONE as int);
    let r = approx_rec(x, exp, prec, BONE as int, BONE as int, 1);
    let sum = r.0;
    let term = r.1;
    if x > 0 {
        if term > 0 && !round_up {
            sum - term
        } else if term < 0 && round_up {
            sum - term
        } else {
            sum
        }
    } else if !round_up {
        sum + term
    } else {
        sum
    }
}

/// `base^(exp/BONE)` at `BONE` scale: the integer part by repeated squaring,
/// the fractional part by the binomial series, combined with the rounding
/// direction of `round_up`.
pub open spec fn cpow_spec(base: int, exp: int, round_up: bool) -> int {
    let ip = floor_div(exp, BONE as int);
    let remain = exp - ip * (BONE as int);
    let wp = powi_spec(base, ip as nat);
    if remain == 0 {
        wp
    } else {
        let pa = cpow_approx_spec(base, remain, CPOW_PRECISION as int, round_up);
        if round_up {
            fmul_ceil(wp, pa)
        } else {
            fmul_floor(wp, pa)
        }
    }
}

/// Largest magnitude `c_pow` can return: the integer power is at most
/// `2^63 * BONE` and the series part at most `53 * BONE`.
pub open spec fn pow_bound() -> int {
    53 * p2(63) * (BONE as int) + 1
}

/// Checked addition; fails with `ErrAddOverflow` past the `i128` range.
pub fn c_add(a: i128, b: i128) -> (r: Result<i128, Error>)
    ensures
        in_i128(a + b) ==> r == Ok::<i128, Error>((a + b) as i128),
        !in_i128(a + b) ==> r == Err::<i128, Error>(Error::ErrAddOverflow),
{
    match a.checked_add(b) {
        Some(v) => Ok(v),
        None => Err(Error::ErrAddOverflow),
    }
}

/// Subtraction that refuses a negative result with `ErrSubUnderflow`.
pub fn c_sub(a: i128, b: i128) -> (r: Result<i128, Error>)
    requires
        in_i128(a - b),
        in_i128(b - a),
    ensures
        a >= b ==> r == Ok::<i128, Error>((a - b) as i128),
        a < b ==> r == Err::<i128, Error>(Error::ErrSubUnderflow),
{
    let (c, flag) = c_sub_sign(a, b);
    if flag {
        return Err(Error::ErrSubUnderflow);
    }
    Ok(c)
}

/// The absolute difference of the inputs and whether it was negated.
pub fn c_sub_sign(a: i128, b: i128) -> (r: (i128, bool))
    requires
        in_i128(a - b),
        in_i128(b - a),
    ensures
        a >= b ==> r == ((a - b) as i128, false),
        a < b ==> r == ((b - a) as i128, true),
{
    if a >= b {
        (a - b, false)
    } else {
        (b - a, true)
    }
}

/// Fixed-point multiply at `BONE` scale, rounded down; fails with
/// `ErrMulOverflow` where the product or quotient leaves the `i128` range.
pub fn c_mul(a: i128, b: i128) -> (r: Result<i128, Error>)
    ensures
        (in_i128(a * b) && in_i128(fmul_floor(a as int, b as int))) ==> r == Ok::<i128, Error>(
            fmul_floor(a as int, b as int) as i128),
        !(in_i128(a * b) && in_i128(fmul_floor(a as int, b as int))) ==> r == Err::<i128, Error>(
            Error::ErrMulOverflow),
{
    match crate::host::i128_fixed_mul_floor(a, b, BONE) {
        Some(v) => Ok(v),
        None => Err(Error::ErrMulOverflow),
    }
}

/// Fixed-point divide at `BONE` scale, rounded down; fails with
/// `ErrDivInternal` on a zero divisor or where a value leaves `i128`.
pub fn c_div(a: i128, b: i128) -> (r: Result<i128, Error>)
    ensures
        (b != 0 && in_i128(a * BONE) && in_i128(floor_div(a * (BONE as int), b as int))) ==> r
            == Ok::<i128, Error>(floor_div(a * (BONE as int), b as int) as i128),
        !(b != 0 && in_i128(a * BONE) && in_i128(floor_div(a * (BONE as int), b as int))) ==> r
            == Err::<i128, Error>(Error::ErrDivInternal),
{
    match crate::host::i128_fixed_div_floor(a, b, BONE) {
        Some(v) => Ok(v),
        None => Err(Error::ErrDivInternal),
    }
}

/// `a - b` on host integers, refusing a negative result with
/// `ErrSubUnderflow`.
pub fn sub_no_negative(e: &Env, a: &I256, b: &I256) -> (r: Result<I256, Error>)
    requires
        in_i256(i256_val(*a) - i256_val(*b)),
    ensures
        i256_val(*a) >= i256_val(*b) ==> (r matches Ok(v) && i256_val(v) == i256_val(*a)
            - i256_val(*b)),
        i256_val(*a) < i256_val(*b) ==> (r matches Err(er) && er == Error::ErrSubUnderflow),
{
    let _ = e;
    if i256_lt(a, b) {
        Err(Error::ErrSubUnderflow)
    } else {
        Ok(i256_sub(a, b))
    }
}

/// Floor-rounded fixed-point products of nonnegative values stay under any
/// cap whose product with `BONE` dominates the operand product.
proof fn lemma_fmul_floor_le(a: int, b: int, c: int)
    requires
        0 <= a,
        0 <= b,
        a * b <= c * (BONE as int),
    ensures
        0 <= fmul_floor(a, b) <= c,
{
    assert(a * b >= 0) by (nonlinear_arith)
        requires 0 <= a && 0 <= b;
    crate::fixed_point::lemma_floor_div_le(a * b, BONE as int, c);
}

/// `a^n` at `BONE` scale by repeated squaring with floor rounding.
#[verifier::loop_isolation(false)]
fn c_powi(e: &Env, a: &I256, n: u32) -> (r: I256)
    requires
        0 <= i256_val(*a) <= 2 * (BONE as int),
        n <= 63,
    ensures
        i256_val(r) == powi_spec(i256_val(*a), n as nat),
        0 <= i256_val(r) <= p2(63) * (BONE as int),
{
    let bone = i256_from_i128(e, BONE);
    let ghost a0: int = i256_val(*a);
    let ghost n0: nat = n as nat;

    let mut z = if n % 2 != 0 {
        i256_clone(a)
    } else {
        i256_clone(&bone)
    };
    let mut acc = i256_clone(a);
    let mut m: u32 = n / 2;

    let ghost mut q: nat = 1;
    let ghost mut applied: nat = (n % 2) as nat;

    proof {
        reveal_with_fuel(p2, 3);
        lemma_p2_concrete();
        assert(powi_loop_spec(i256_val(z), i256_val(acc), m as nat) == powi_spec(a0, n0));
        assert(n as int == 2 * ((n / 2) as int) + ((n % 2) as int));
        assert(applied + 2 * q * (m as int) == n0) by (nonlinear_arith)
            requires
                q == 1,
                applied == (n % 2) as int,
                m as int == (n / 2) as int,
                n0 == n as int,
                n as int == 2 * ((n / 2) as int) + ((n % 2) as int),
        ;
    }

    while m != 0
        invariant
            q >= 1,
            applied + 2 * q * (m as int) == n0,
            applied <= 63,
            0 <= i256_val(acc),
            i256_val(acc) <= p2(q) * (BONE as int),
            0 <= i256_val(z),
            i256_val(z) <= p2(applied) * (BONE as int),
            powi_loop_spec(i256_val(z), i256_val(acc), m as nat) == powi_spec(a0, n0),
        decreases m,
    {
        let ghost zv: int = i256_val(z);
        let ghost av: int = i256_val(acc);
        let ghost m_old: u32 = m;
        proof {
            lemma_p2_pos(q);
            lemma_p2_pos(applied);
            // at least one exponent bit is left, so the weight is at most 31
            assert(2 * q <= 2 * q * (m as int)) by (nonlinear_arith)
                requires m >= 1 && q >= 1;
            lemma_p2_le(q, 31);
            lemma_p2_le(applied, 63);
            assert(p2(q) * (BONE as int) <= p2(31) * (BONE as int));
            assert(0 <= av * av <= (p2(31) * (BONE as int)) * (p2(31) * (BONE as int)))
                by (nonlinear_arith)
                requires
                    0 <= av,
                    av <= p2(31) * (BONE as int),
            ;
            assert(in_i256(av * av));
        }
        let sq = i256_fixed_mul_floor(e, &acc, &acc, &bone);
        proof {
            lemma_p2_adds(q, q);
            assert(av * av <= (p2(q) * p2(q) * (BONE as int)) * (BONE as int))
                by (nonlinear_arith)
                requires
                    0 <= av,
                    av <= p2(q) * (BONE as int),
            ;
            lemma_fmul_floor_le(av, av, p2(2 * q) * (BONE as int));
            assert(0 <= i256_val(sq) <= p2(2 * q) * (BONE as int));
        }
        acc = sq;
        if m % 2 != 0 {
            proof {
                lemma_p2_le(2 * q, 62);
                assert(0 <= zv * i256_val(acc) && zv * i256_val(acc) <= (p2(63) * (BONE as int))
                    * (p2(62) * (BONE as int))) by (nonlinear_arith)
                    requires
                        0 <= zv,
                        zv <= p2(63) * (BONE as int),
                        0 <= i256_val(acc),
                        i256_val(acc) <= p2(62) * (BONE as int),
                ;
                assert(zv <= p2(63) * (BONE as int)) by {
                    assert(p2(applied) * (BONE as int) <= p2(63) * (BONE as int));
                }
                assert(i256_val(acc) <= p2(62) * (BONE as int)) by {
                    assert(p2(2 * q) * (BONE as int) <= p2(62) * (BONE as int));
                }
                assert(in_i256(zv * i256_val(acc)));
            }
            let zn = i256_fixed_mul_floor(e, &z, &acc, &bone);
            proof {
                // the applied exponent stays within the budget of 63
                assert(applied + 2 * q <= 63) by (nonlinear_arith)
                    requires
                        applied + 2 * q * (m as int) == n0,
                        n0 <= 63,
                        m >= 1,
                        q >= 1,
                        applied >= 0,
                ;
                lemma_p2_adds(applied, 2 * q);
                assert(zv * i256_val(acc) <= (p2(applied + 2 * q) * (BONE as int)) * (BONE as int))
                    by (nonlinear_arith)
                    requires
                        0 <= zv,
                        zv <= p2(applied) * (BONE as int),
                        0 <= i256_val(acc),
                        i256_val(acc) <= p2(2 * q) * (BONE as int),
                        p2(applied) * p2(2 * q) == p2(applied + 2 * q),
                ;
                assert(zv * i256_val(acc) >= 0) by (nonlinear_arith)
                    requires 0 <= zv && 0 <= i256_val(acc);
                lemma_fmul_floor_le(zv, i256_val(acc), p2(applied + 2 * q) * (BONE as int));
                applied = applied + 2 * q;
                lemma_p2_le(applied, 63);
            }
            z = zn;
        }
        proof {
            assert(m_old as int == 2 * ((m_old / 2) as int) + ((m_old % 2) as int));
            assert(2 * (2 * q) * ((m_old / 2) as int) + (if m_old % 2 != 0 { 2 * q } else { 0 })
                == 2 * q * (m_old as int)) by (nonlinear_arith)
                requires
                    m_old as int == 2 * ((m_old / 2) as int) + ((m_old % 2) as int),
                    ((m_old % 2) as int) == (if m_old % 2 != 0 { 1int } else { 0int }),
            ;
            q = 2 * q;
            // one unfolding of the loop model matches the step just taken
            assert(powi_loop_spec(zv, av, m_old as nat) == powi_loop_spec(
                i256_val(z),
                i256_val(acc),
                (m_old / 2) as nat,
            ));
        }
        m = m / 2;
    }
    proof {
        lemma_p2_le(applied, 63);
        lemma_p2_pos(applied);
        assert(i256_val(z) <= p2(63) * (BONE as int));
    }
    z
}

/// The truncated binomial series for the fractional part of the power, with
/// the final corrective term chosen by `round_up`.
#[verifier::loop_isolation(false)]
fn c_pow_approx(e: &Env, base: &I256, exp: &I256, precision: &I256, round_up: bool) -> (r: I256)
    requires
        1 <= i256_val(*base) <= 2 * (BONE as int) - 1,
        0 <= i256_val(*exp) < BONE as int,
        i256_val(*precision) >= 1,
    ensures
        i256_val(r) == cpow_approx_spec(
            i256_val(*base),
            i256_val(*exp),
            i256_val(*precision),
            round_up,
        ),
        -53 * (BONE as int) <= i256_val(r) <= 53 * (BONE as int),
{
    let bone = i256_from_i128(e, BONE);
    let zero = i256_from_i128(e, 0);
    let x = i256_sub(base, &bone);
    let ghost xv: int = i256_val(x);
    let ghost ev: int = i256_val(*exp);
    let ghost pv: int = i256_val(*precision);

    let mut term = i256_clone(&bone);
    let mut sum = i256_clone(&bone);
    let mut i: i128 = 1;
    let mut stop: bool = false;

    while i <= 50 && !stop
        invariant
            1 <= i <= 51,
            -((BONE as int) + 2 * (i - 1 + (if stop { 1int } else { 0int }))) <= i256_val(term),
            i256_val(term) <= (BONE as int) + 2 * (i - 1 + (if stop { 1int } else { 0int })),
            -((BONE as int) + (i - 1 + (if stop { 1int } else { 0int })) * ((BONE as int) + 102))
                <= i256_val(sum),
            i256_val(sum) <= (BONE as int) + (i - 1 + (if stop { 1int } else { 0int })) * ((
            BONE as int) + 102),
            i - 1 + (if stop { 1int } else { 0int }) <= 50,
            !stop ==> approx_rec(xv, ev, pv, i256_val(term), i256_val(sum), i as int)
                == approx_rec(xv, ev, pv, BONE as int, BONE as int, 1),
            stop ==> approx_rec(xv, ev, pv, BONE as int, BONE as int, 1) == (
            i256_val(sum),
            i256_val(term),
            ),
        decreases 51 - i, if stop { 0int } else { 1int },
    {
        let ghost tv: int = i256_val(term);
        let ghost sv: int = i256_val(sum);
        let ghost ii: int = i as int;
        let ghost tb: int = (BONE as int) + 2 * (ii - 1);

        let big_k = i256_from_i128(e, (i as i128) * BONE);
        let bkb = i256_sub(&big_k, &bone);
        let c = i256_sub(exp, &bkb);
        proof {
            assert(ii * (BONE as int) >= BONE as int) by (nonlinear_arith)
                requires ii >= 1 && BONE as int > 0;
            // |c| <= ii * BONE since 0 <= exp < BONE
            assert(-(ii * (BONE as int)) <= i256_val(c) && i256_val(c) <= ii * (BONE as int));
            assert(-((ii * (BONE as int) - 1) * (BONE as int)) <= i256_val(c) * xv
                && i256_val(c) * xv <= (ii * (BONE as int) - 1) * (BONE as int))
                by (nonlinear_arith)
                requires
                    -(ii * (BONE as int)) <= i256_val(c),
                    i256_val(c) <= ii * (BONE as int),
                    -((BONE as int) - 1) <= xv,
                    xv <= (BONE as int) - 1,
                    1 <= ii,
                    (BONE as int) > 1,
            ;
            assert(in_i256(i256_val(c) * xv));
        }
        let cx = i256_fixed_mul_floor(e, &c, &x, &bone);
        proof {
            lemma_floor_div_bound_by(
                i256_val(c) * xv,
                BONE as int,
                ii * (BONE as int) - 1,
            );
            assert(-((tb * ii) * (BONE as int)) <= tv * i256_val(cx)
                && tv * i256_val(cx) <= (tb * ii) * (BONE as int)) by (nonlinear_arith)
                requires
                    -(ii * (BONE as int)) <= i256_val(cx),
                    i256_val(cx) <= ii * (BONE as int),
                    -tb <= tv,
                    tv <= tb,
                    0 <= tb,
                    1 <= ii,
                    (BONE as int) > 0,
            ;
            assert((tb * ii) * (BONE as int) <= ((BONE as int) + 100) * 50 * (BONE as int))
                by (nonlinear_arith)
                requires
                    0 <= tb <= (BONE as int) + 100,
                    1 <= ii <= 50,
                    (BONE as int) > 0,
            ;
            assert(in_i256(tv * i256_val(cx)));
        }
        let t2 = i256_fixed_mul_floor(e, &term, &cx, &bone);
        proof {
            lemma_floor_div_bound_by(tv * i256_val(cx), BONE as int, tb * ii);
            assert(ii * (BONE as int) > 0) by (nonlinear_arith)
                requires 1 <= ii && (BONE as int) > 0;
            assert(-((tb + 1) * (ii * (BONE as int))) <= i256_val(t2) * (BONE as int)
                && i256_val(t2) * (BONE as int) <= (tb + 1) * (ii * (BONE as int)))
                by (nonlinear_arith)
                requires
                    -(tb * ii + 1) <= i256_val(t2),
                    i256_val(t2) <= tb * ii + 1,
                    0 <= tb,
                    1 <= ii,
                    (BONE as int) > 0,
            ;
            assert((tb + 1) * (ii * (BONE as int)) <= ((BONE as int) + 101) * (50 * (
            BONE as int))) by (nonlinear_arith)
                requires
                    0 <= tb <= (BONE as int) + 100,
                    1 <= ii <= 50,
                    (BONE as int) > 0,
            ;
            assert(in_i256(i256_val(t2) * (BONE as int)));
        }
        let t3 = i256_fixed_div_floor(e, &t2, &big_k, &bone);
        proof {
            lemma_floor_div_bound_by(
                i256_val(t2) * (BONE as int),
                ii * (BONE as int),
                tb + 1,
            );
            assert(-(tb + 2) <= i256_val(t3) && i256_val(t3) <= tb + 2);
        }
        let s2 = i256_add(&sum, &t3);
        let neg = i256_lt(&t3, &zero);
        let abs_t = if neg {
            i256_sub(&zero, &t3)
        } else {
            i256_clone(&t3)
        };
        proof {
            assert(i256_val(abs_t) == abs_int(i256_val(t3)));
            assert(approx_step(tv, xv, ev, ii) == i256_val(t3));
        }
        sum = s2;
        term = t3;
        if i256_le(&abs_t, precision) {
            proof {
                assert(approx_rec(xv, ev, pv, tv, sv, ii) == (i256_val(sum), i256_val(term)));
            }
            stop = true;
        } else {
            proof {
                assert(approx_rec(xv, ev, pv, tv, sv, ii) == approx_rec(
                    xv,
                    ev,
                    pv,
                    i256_val(term),
                    i256_val(sum),
                    ii + 1,
                ));
            }
            i = i + 1;
        }
    }

    proof {
        if !stop {
            assert(approx_rec(xv, ev, pv, i256_val(term), i256_val(sum), 51) == (
            i256_val(sum),
            i256_val(term),
            ));
        }
        assert(approx_rec(xv, ev, pv, BONE as int, BONE as int, 1) == (
        i256_val(sum),
        i256_val(term),
        ));
        assert(i256_val(sum) <= (BONE as int) + 50 * ((BONE as int) + 102)) by (nonlinear_arith)
            requires
                i256_val(sum) <= (BONE as int) + (i - 1 + (if stop { 1int } else { 0int })) * ((
                BONE as int) + 102),
                i - 1 + (if stop { 1int } else { 0int }) <= 50,
                (BONE as int) > 0,
        ;
        assert(-((BONE as int) + 50 * ((BONE as int) + 102)) <= i256_val(sum)) by (nonlinear_arith)
            requires
                -((BONE as int) + (i - 1 + (if stop { 1int } else { 0int })) * ((BONE as int)
                    + 102)) <= i256_val(sum),
                i - 1 + (if stop { 1int } else { 0int }) <= 50,
                (BONE as int) > 0,
        ;
        assert(-((BONE as int) + 102) <= i256_val(term) && i256_val(term) <= (BONE as int) + 102)
            by (nonlinear_arith)
            requires
                -((BONE as int) + 2 * (i - 1 + (if stop { 1int } else { 0int }))) <= i256_val(
                term,
                ),
                i256_val(term) <= (BONE as int) + 2 * (i - 1 + (if stop { 1int } else { 0int })),
                i - 1 + (if stop { 1int } else { 0int }) <= 50,
        ;
    }

    // adjust the final sum by the last term so the result is a one-sided
    // bound in the direction the caller asked for
    let mut out = i256_clone(&sum);
    if i256_lt(&zero, &x) {
        if i256_lt(&zero, &term) && !round_up {
            out = i256_sub(&sum, &term);
        } else if i256_lt(&term, &zero) && round_up {
            out = i256_sub(&sum, &term);
        }
    } else if !round_up {
        out = i256_add(&sum, &term);
    }
    out
}

/// `base^(exp/BONE)` at `BONE` scale, a directed approximation: rounded
/// down when `round_up` is false and up when it is true. The base must lie
/// in `[MIN_CPOW_BASE, MAX_CPOW_BASE]`; outside it the matching error comes
/// back. The exponent is capped at `63 * BONE`, past which the repeated
/// squaring would leave the host's 256 bits; the pool's weight ratios stay
/// under `50 * BONE`.
pub fn c_pow(e: &Env, base: &I256, exp: &I256, round_up: bool) -> (r: Result<I256, Error>)
    requires
        0 <= i256_val(*exp) <= 63 * (BONE as int),
    ensures
        i256_val(*base) < MIN_CPOW_BASE as int ==> (r matches Err(er) && er
            == Error::ErrCPowBaseTooLow),
        i256_val(*base) > MAX_CPOW_BASE as int ==> (r matches Err(er) && er
            == Error::ErrCPowBaseTooHigh),
        MIN_CPOW_BASE as int <= i256_val(*base) <= MAX_CPOW_BASE as int ==> (r matches Ok(v)
            && i256_val(v) == cpow_spec(i256_val(*base), i256_val(*exp), round_up)
            && -pow_bound() <= i256_val(v) <= pow_bound()),
{
    let low = i256_from_i128(e, MIN_CPOW_BASE);
    if i256_lt(base, &low) {
        return Err(Error::ErrCPowBaseTooLow);
    }
    let high = i256_from_i128(e, MAX_CPOW_BASE);
    if i256_lt(&high, base) {
        return Err(Error::ErrCPowBaseTooHigh);
    }

    let bone = i256_from_i128(e, BONE);
    let ip = i256_div(exp, &bone);
    proof {
        lemma_floor_div_nonneg(i256_val(*exp), BONE as int);
        lemma_floor_div_le(i256_val(*exp), BONE as int, 63);
        lemma_floor_div_bounds(i256_val(*exp), BONE as int);
        lemma_p2_concrete();
        lemma_p2_pos(63);
    }
    let ipb = i256_mul(&ip, &bone);
    let remain = i256_sub(exp, &ipb);
    let ip_small = match i256_to_i128(&ip) {
        Some(v) => v,
        None => {
            proof {
                assert(false);
            }
            0
        },
    };
    let n: u32 = ip_small as u32;
    let whole_pow = c_powi(e, base, n);
    let zero = i256_from_i128(e, 0);
    if i256_eq(&remain, &zero) {
        proof {
            assert(p2(63) * (BONE as int) <= 53 * p2(63) * (BONE as int)) by (nonlinear_arith)
                requires p2(63) >= 1 && (BONE as int) > 0;
        }
        return Ok(whole_pow);
    }
    let prec = i256_from_i128(e, CPOW_PRECISION);
    let partial = c_pow_approx(e, base, &remain, &prec, round_up);
    proof {
        assert(-((53 * p2(63) * (BONE as int)) * (BONE as int)) <= i256_val(whole_pow) * i256_val(
        partial,
        ) && i256_val(whole_pow) * i256_val(partial) <= (53 * p2(63) * (BONE as int)) * (
        BONE as int)) by (nonlinear_arith)
            requires
                0 <= i256_val(whole_pow),
                i256_val(whole_pow) <= p2(63) * (BONE as int),
                -53 * (BONE as int) <= i256_val(partial),
                i256_val(partial) <= 53 * (BONE as int),
                p2(63) >= 1,
                (BONE as int) > 0,
        ;
        assert(in_i256(i256_val(whole_pow) * i256_val(partial)));
    }
    if round_up {
        let out = i256_fixed_mul_ceil(e, &whole_pow, &partial, &bone);
        proof {
            crate::fixed_point::lemma_ceil_div_bound_by(
                i256_val(whole_pow) * i256_val(partial),
                BONE as int,
                53 * p2(63) * (BONE as int),
            );
        }
        Ok(out)
    } else {
        let out = i256_fixed_mul_floor(e, &whole_pow, &partial, &bone);
        proof {
            lemma_floor_div_bound_by(
                i256_val(whole_pow) * i256_val(partial),
                BONE as int,
                53 * p2(63) * (BONE as int),
            );
        }
        Ok(out)
    }
}

} // verus!
