//! Directed integer division: the mathematical meaning of every rounding
//! decision the pool makes. `floor_div` rounds toward minus infinity and
//! `ceil_div` toward plus infinity, for any sign of the operands.

use vstd::prelude::*;

verus! {

/// True when `x` fits in an `i128`.
pub open spec fn in_i128(x: int) -> bool {
    i128::MIN <= x <= i128::MAX
}

/// Quotient of `p / q` rounded toward minus infinity.
pub open spec fn floor_div(p: int, q: int) -> int
    recommends q != 0,
{
    if q > 0 {
        p / q
    } else if p % q == 0 {
        p / q
    } else {
        p / q - 1
    }
}

/// Quotient of `p / q` rounded toward plus infinity.
pub open spec fn ceil_div(p: int, q: int) -> int
    recommends q != 0,
{
    if q > 0 {
        if p % q == 0 {
            p / q
        } else {
            p / q + 1
        }
    } else {
        p / q
    }
}

/// The floor quotient is the unique integer `d` with `q*d <= p < q*(d+1)`.
pub proof fn lemma_floor_div_bounds(p: int, q: int)
    requires
        q > 0,
    ensures
        q * floor_div(p, q) <= p,
        p < q * (floor_div(p, q) + 1),
{
    vstd::arithmetic::div_mod::lemma_fundamental_div_mod(p, q);
    vstd::arithmetic::div_mod::lemma_mod_bound(p, q);
    assert(q * (floor_div(p, q) + 1) == q * floor_div(p, q) + q) by (nonlinear_arith);
}

/// The ceiling quotient is the unique integer `d` with `q*(d-1) < p <= q*d`.
pub proof fn lemma_ceil_div_bounds(p: int, q: int)
    requires
        q > 0,
    ensures
        q * (ceil_div(p, q) - 1) < p,
        p <= q * ceil_div(p, q),
{
    vstd::arithmetic::div_mod::lemma_fundamental_div_mod(p, q);
    vstd::arithmetic::div_mod::lemma_mod_bound(p, q);
    assert(q * (ceil_div(p, q) - 1) == q * ceil_div(p, q) - q) by (nonlinear_arith);
    assert(q * (p / q + 1) == q * (p / q) + q) by (nonlinear_arith);
}

/// Floor division of a nonnegative dividend by a positive divisor is
/// monotone in the dividend and never exceeds the dividend itself.
pub proof fn lemma_floor_div_nonneg(p: int, q: int)
    requires
        q > 0,
        p >= 0,
    ensures
        0 <= floor_div(p, q) <= p,
{
    lemma_floor_div_bounds(p, q);
    assert(q * floor_div(p, q) >= floor_div(p, q) || floor_div(p, q) < 0) by (nonlinear_arith)
        requires q >= 1;
    assert(floor_div(p, q) >= 0) by {
        if floor_div(p, q) < 0 {
            assert(q * floor_div(p, q) <= floor_div(p, q)) by (nonlinear_arith)
                requires q >= 1 && floor_div(p, q) < 0;
            assert(p < q * (floor_div(p, q) + 1) <= 0) by (nonlinear_arith)
                requires q >= 1 && floor_div(p, q) < 0 && p < q * (floor_div(p, q) + 1);
        }
    }
}

/// Ceiling division of a nonnegative dividend by a positive divisor stays
/// between zero and the dividend plus one.
pub proof fn lemma_ceil_div_nonneg(p: int, q: int)
    requires
        q > 0,
        p >= 0,
    ensures
        0 <= ceil_div(p, q) <= p,
        p > 0 ==> ceil_div(p, q) >= 1,
        floor_div(p, q) <= ceil_div(p, q) <= floor_div(p, q) + 1,
{
    lemma_ceil_div_bounds(p, q);
    lemma_floor_div_nonneg(p, q);
    if ceil_div(p, q) < 0 {
        assert(q * ceil_div(p, q) <= ceil_div(p, q)) by (nonlinear_arith)
            requires q >= 1 && ceil_div(p, q) < 0;
    }
    if ceil_div(p, q) > p {
        assert(q * (ceil_div(p, q) - 1) >= ceil_div(p, q) - 1) by (nonlinear_arith)
            requires q >= 1 && ceil_div(p, q) - 1 >= 0;
    }
    if p > 0 && ceil_div(p, q) < 1 {
        assert(q * (ceil_div(p, q) - 1) < p);
        assert(q * ceil_div(p, q) >= p);
        assert(q * 0 == 0) by (nonlinear_arith);
        assert(q * ceil_div(p, q) <= 0) by (nonlinear_arith) requires q >= 1 && ceil_div(p, q) <= 0;
    }
}

/// Absolute value over the mathematical integers.
pub open spec fn abs_int(x: int) -> int {
    if x >= 0 {
        x
    } else {
        -x
    }
}

/// A nonnegative dividend below `c * q` keeps its floor quotient below `c`.
pub proof fn lemma_floor_div_le(p: int, q: int, c: int)
    requires
        q > 0,
        0 <= p,
        p <= c * q,
    ensures
        0 <= floor_div(p, q) <= c,
{
    lemma_floor_div_nonneg(p, q);
    lemma_floor_div_bounds(p, q);
    if floor_div(p, q) > c {
        assert(q * floor_div(p, q) >= q * (c + 1)) by (nonlinear_arith)
            requires q > 0 && floor_div(p, q) >= c + 1;
        assert(q * (c + 1) == c * q + q) by (nonlinear_arith);
    }
}

/// A dividend bounded in magnitude by `a * q` has its floor quotient by `q`
/// bounded by `a`, up to the one unit the floor can lose below zero.
pub proof fn lemma_floor_div_bound_by(p: int, q: int, a: int)
    requires
        q > 0,
        -(a * q) <= p,
        p <= a * q,
    ensures
        -a - 1 <= floor_div(p, q) <= a,
        abs_int(floor_div(p, q)) <= a + 1,
{
    lemma_floor_div_bounds(p, q);
    if floor_div(p, q) > a {
        assert(q * floor_div(p, q) >= q * (a + 1)) by (nonlinear_arith)
            requires q > 0 && floor_div(p, q) >= a + 1;
        assert(q * (a + 1) == a * q + q) by (nonlinear_arith);
    }
    if floor_div(p, q) < -a - 1 {
        assert(q * (floor_div(p, q) + 1) <= q * (-a)) by (nonlinear_arith)
            requires q > 0 && floor_div(p, q) + 1 <= -a;
        assert(q * (-a) == -(a * q)) by (nonlinear_arith);
    }
    assert(a >= 0) by {
        if a < 0 {
            assert(a * q <= a) by (nonlinear_arith) requires q >= 1 && a < 0;
        }
    }
}

/// A dividend bounded in magnitude by `a * q` has its ceiling quotient by
/// `q` bounded by `a`, up to the one unit the ceiling can add above zero.
pub proof fn lemma_ceil_div_bound_by(p: int, q: int, a: int)
    requires
        q > 0,
        -(a * q) <= p,
        p <= a * q,
    ensures
        -a <= ceil_div(p, q) <= a + 1,
        abs_int(ceil_div(p, q)) <= a + 1,
{
    lemma_ceil_div_bounds(p, q);
    if ceil_div(p, q) > a + 1 {
        assert(q * (ceil_div(p, q) - 1) >= q * (a + 1)) by (nonlinear_arith)
            requires q > 0 && ceil_div(p, q) - 1 >= a + 1;
        assert(q * (a + 1) == a * q + q) by (nonlinear_arith);
    }
    if ceil_div(p, q) < -a {
        assert(q * ceil_div(p, q) <= q * (-a - 1)) by (nonlinear_arith)
            requires q > 0 && ceil_div(p, q) <= -a - 1;
        assert(q * (-a - 1) == -(a * q) - q) by (nonlinear_arith);
    }
    assert(a >= 0) by {
        if a < 0 {
            assert(a * q <= a) by (nonlinear_arith) requires q >= 1 && a < 0;
        }
    }
}

/// Dividing by at least one keeps a value inside the `i128` range.
pub proof fn lemma_floor_div_in_i128(p: int, q: int)
    requires
        q >= 1,
        in_i128(p),
    ensures
        in_i128(floor_div(p, q)),
{
    if p >= 0 {
        lemma_floor_div_nonneg(p, q);
    } else {
        lemma_floor_div_bounds(p, q);
        if floor_div(p, q) >= 1 {
            assert(q * floor_div(p, q) >= floor_div(p, q)) by (nonlinear_arith)
                requires q >= 1 && floor_div(p, q) >= 1;
        }
        if floor_div(p, q) < p {
            assert(q * (floor_div(p, q) + 1) <= floor_div(p, q) + 1) by (nonlinear_arith)
                requires q >= 1 && floor_div(p, q) + 1 <= 0;
        }
    }
}

/// Dividing by at least one keeps a value inside the `i128` range.
pub proof fn lemma_ceil_div_in_i128(p: int, q: int)
    requires
        q >= 1,
        in_i128(p),
    ensures
        in_i128(ceil_div(p, q)),
{
    if p >= 0 {
        lemma_ceil_div_nonneg(p, q);
    } else {
        lemma_ceil_div_bounds(p, q);
        if ceil_div(p, q) >= 1 {
            assert(q * (ceil_div(p, q) - 1) >= ceil_div(p, q) - 1) by (nonlinear_arith)
                requires q >= 1 && ceil_div(p, q) - 1 >= 0;
        }
        if ceil_div(p, q) < p {
            assert(q * ceil_div(p, q) <= ceil_div(p, q)) by (nonlinear_arith)
                requires q >= 1 && ceil_div(p, q) <= 0;
        }
    }
}

/// A nonnegative dividend of at most `c * q` keeps its ceiling quotient
/// at most `c`.
pub proof fn lemma_ceil_div_le(p: int, q: int, c: int)
    requires
        q > 0,
        0 <= p,
        p <= c * q,
    ensures
        0 <= ceil_div(p, q) <= c,
{
    lemma_ceil_div_nonneg(p, q);
    lemma_ceil_div_bounds(p, q);
    if ceil_div(p, q) > c {
        assert(q * (ceil_div(p, q) - 1) >= q * c) by (nonlinear_arith)
            requires q > 0 && ceil_div(p, q) - 1 >= c;
        assert(q * c == c * q) by (nonlinear_arith);
    }
}

/// A dividend of at least `c * q` keeps its floor quotient at least `c`.
pub proof fn lemma_floor_div_ge(p: int, q: int, c: int)
    requires
        q > 0,
        p >= c * q,
    ensures
        floor_div(p, q) >= c,
{
    lemma_floor_div_bounds(p, q);
    if floor_div(p, q) < c {
        assert(q * (floor_div(p, q) + 1) <= q * c) by (nonlinear_arith)
            requires q > 0 && floor_div(p, q) + 1 <= c;
        assert(q * c == c * q) by (nonlinear_arith);
    }
}

} // verus!
