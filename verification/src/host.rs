//! Trusted boundary to the host's 256-bit signed integers.
//!
//! The pricing math runs in an 18-decimal fixed-point domain whose values
//! exceed `i128`, so the arithmetic is carried out on the host type
//! `soroban_sdk::I256` through `soroban_fixed_point_math`. Each wrapper below
//! states, over the mathematical content `i256_val`, exactly what the host
//! call computes; nothing else in the crate is trusted.

use vstd::prelude::*;
use soroban_sdk::{Env, I256};
use soroban_fixed_point_math::FixedPoint;
use soroban_fixed_point_math::SorobanFixedPoint;
use crate::fixed_point::{floor_div, ceil_div, in_i128};

verus! {

#[verifier::external_type_specification]
#[verifier::external_body]
pub struct ExEnv(Env);

#[verifier::external_type_specification]
#[verifier::external_body]
pub struct ExI256(I256);

/// The signed integer a host 256-bit number holds.
pub uninterp spec fn i256_val(v: I256) -> int;

/// True when `x` fits in a signed 256-bit integer.
pub open spec fn in_i256(x: int) -> bool {
    -0x8000000000000000000000000000000000000000000000000000000000000000 <= x
        <= 0x7fffffffffffffffffffffffffffffffffffffffffffffffffffffffffffffff
}

/// Relies on `soroban_sdk::I256::from_i128`: embeds an `i128` into `I256`.
#[verifier::external_body]
pub(crate) fn i256_from_i128(e: &Env, v: i128) -> (r: I256)
    ensures
        i256_val(r) == v as int,
{
    I256::from_i128(e, v)
}

/// Relies on `soroban_sdk::I256::to_i128`: the value back as an `i128` when
/// it fits, and nothing otherwise.
#[verifier::external_body]
pub(crate) fn i256_to_i128(v: &I256) -> (r: Option<i128>)
    ensures
        in_i128(i256_val(*v)) ==> r == Some(i256_val(*v) as i128),
        !in_i128(i256_val(*v)) ==> r is None,
{
    v.to_i128()
}

/// Relies on `soroban_sdk::I256::clone`: a copy holds the same value.
#[verifier::external_body]
pub(crate) fn i256_clone(v: &I256) -> (r: I256)
    ensures
        i256_val(r) == i256_val(*v),
{
    v.clone()
}

/// Relies on `soroban_sdk::I256::add`, which panics only past 256 bits.
#[verifier::external_body]
pub(crate) fn i256_add(a: &I256, b: &I256) -> (r: I256)
    requires
        in_i256(i256_val(*a) + i256_val(*b)),
    ensures
        i256_val(r) == i256_val(*a) + i256_val(*b),
{
    a.add(b)
}

/// Relies on `soroban_sdk::I256::sub`, which panics only past 256 bits.
#[verifier::external_body]
pub(crate) fn i256_sub(a: &I256, b: &I256) -> (r: I256)
    requires
        in_i256(i256_val(*a) - i256_val(*b)),
    ensures
        i256_val(r) == i256_val(*a) - i256_val(*b),
{
    a.sub(b)
}

/// Relies on `soroban_sdk::I256::mul`, which panics only past 256 bits.
#[verifier::external_body]
pub(crate) fn i256_mul(a: &I256, b: &I256) -> (r: I256)
    requires
        in_i256(i256_val(*a) * i256_val(*b)),
    ensures
        i256_val(r) == i256_val(*a) * i256_val(*b),
{
    a.mul(b)
}

/// Relies on `soroban_sdk::I256::div`: truncating division, which equals the
/// floor for a nonnegative dividend and a positive divisor.
#[verifier::external_body]
pub(crate) fn i256_div(a: &I256, b: &I256) -> (r: I256)
    requires
        i256_val(*a) >= 0,
        i256_val(*b) > 0,
    ensures
        i256_val(r) == floor_div(i256_val(*a), i256_val(*b)),
        in_i256(i256_val(r)),
{
    a.div(b)
}

/// Relies on the `PartialOrd` impl of `soroban_sdk::I256`, which orders by
/// the signed value.
#[verifier::external_body]
pub(crate) fn i256_lt(a: &I256, b: &I256) -> (r: bool)
    ensures
        r == (i256_val(*a) < i256_val(*b)),
{
    a < b
}

/// Relies on the `PartialOrd` impl of `soroban_sdk::I256`, which orders by
/// the signed value.
#[verifier::external_body]
pub(crate) fn i256_le(a: &I256, b: &I256) -> (r: bool)
    ensures
        r == (i256_val(*a) <= i256_val(*b)),
{
    a <= b
}

/// Relies on the `PartialEq` impl of `soroban_sdk::I256`, which compares the
/// signed values.
#[verifier::external_body]
pub(crate) fn i256_eq(a: &I256, b: &I256) -> (r: bool)
    ensures
        r == (i256_val(*a) == i256_val(*b)),
{
    a == b
}

/// Relies on `SorobanFixedPoint::fixed_mul_floor` for `I256`: computes
/// `floor(a * b / d)`, panicking only on a zero denominator or past 256 bits.
#[verifier::external_body]
pub(crate) fn i256_fixed_mul_floor(e: &Env, a: &I256, b: &I256, d: &I256) -> (r: I256)
    requires
        i256_val(*d) > 0,
        in_i256(i256_val(*a) * i256_val(*b)),
    ensures
        i256_val(r) == floor_div(i256_val(*a) * i256_val(*b), i256_val(*d)),
        in_i256(i256_val(r)),
{
    a.fixed_mul_floor(e, b, d)
}

/// Relies on `SorobanFixedPoint::fixed_mul_ceil` for `I256`: computes
/// `ceil(a * b / d)`, panicking only on a zero denominator or past 256 bits.
#[verifier::external_body]
pub(crate) fn i256_fixed_mul_ceil(e: &Env, a: &I256, b: &I256, d: &I256) -> (r: I256)
    requires
        i256_val(*d) > 0,
        in_i256(i256_val(*a) * i256_val(*b)),
    ensures
        i256_val(r) == ceil_div(i256_val(*a) * i256_val(*b), i256_val(*d)),
        in_i256(i256_val(r)),
{
    a.fixed_mul_ceil(e, b, d)
}

/// Relies on `SorobanFixedPoint::fixed_div_floor` for `I256`: computes
/// `floor(a * d / b)`, panicking only on a zero divisor or past 256 bits.
#[verifier::external_body]
pub(crate) fn i256_fixed_div_floor(e: &Env, a: &I256, b: &I256, d: &I256) -> (r: I256)
    requires
        i256_val(*b) > 0,
        in_i256(i256_val(*a) * i256_val(*d)),
    ensures
        i256_val(r) == floor_div(i256_val(*a) * i256_val(*d), i256_val(*b)),
        in_i256(i256_val(r)),
{
    a.fixed_div_floor(e, b, d)
}

/// Relies on `SorobanFixedPoint::fixed_div_ceil` for `I256`: computes
/// `ceil(a * d / b)`, panicking only on a zero divisor or past 256 bits.
#[verifier::external_body]
pub(crate) fn i256_fixed_div_ceil(e: &Env, a: &I256, b: &I256, d: &I256) -> (r: I256)
    requires
        i256_val(*b) > 0,
        in_i256(i256_val(*a) * i256_val(*d)),
    ensures
        i256_val(r) == ceil_div(i256_val(*a) * i256_val(*d), i256_val(*b)),
        in_i256(i256_val(r)),
{
    a.fixed_div_ceil(e, b, d)
}

/// Relies on `FixedPoint::fixed_mul_floor` for `i128`: `floor(x * y / d)`
/// when the product and the quotient fit in an `i128`, and `None` otherwise.
#[verifier::external_body]
pub(crate) fn i128_fixed_mul_floor(x: i128, y: i128, d: i128) -> (r: Option<i128>)
    ensures
        (d != 0 && in_i128(x as int * y as int) && in_i128(floor_div((x as int * y as int), d as int))) ==> r == Some(floor_div((x as int * y as int), d as int) as i128),
        !(d != 0 && in_i128(x as int * y as int) && in_i128(floor_div((x as int * y as int), d as int))) ==> r is None,
{
    x.fixed_mul_floor(y, d)
}

/// Relies on `FixedPoint::fixed_mul_ceil` for `i128`: `ceil(x * y / d)`
/// when the product and the quotient fit in an `i128`, and `None` otherwise.
#[verifier::external_body]
pub(crate) fn i128_fixed_mul_ceil(x: i128, y: i128, d: i128) -> (r: Option<i128>)
    ensures
        (d != 0 && in_i128(x as int * y as int) && in_i128(ceil_div((x as int * y as int), d as int))) ==> r == Some(ceil_div((x as int * y as int), d as int) as i128),
        !(d != 0 && in_i128(x as int * y as int) && in_i128(ceil_div((x as int * y as int), d as int))) ==> r is None,
{
    x.fixed_mul_ceil(y, d)
}

/// Relies on `FixedPoint::fixed_div_floor` for `i128`: `floor(x * d / y)`
/// when the product and the quotient fit in an `i128`, and `None` otherwise.
#[verifier::external_body]
pub(crate) fn i128_fixed_div_floor(x: i128, y: i128, d: i128) -> (r: Option<i128>)
    ensures
        (y != 0 && in_i128(x as int * d as int) && in_i128(floor_div((x as int * d as int), y as int))) ==> r == Some(floor_div((x as int * d as int), y as int) as i128),
        !(y != 0 && in_i128(x as int * d as int) && in_i128(floor_div((x as int * d as int), y as int))) ==> r is None,
{
    x.fixed_div_floor(y, d)
}

/// Relies on `FixedPoint::fixed_div_ceil` for `i128`: `ceil(x * d / y)`
/// when the product and the quotient fit in an `i128`, and `None` otherwise.
#[verifier::external_body]
pub(crate) fn i128_fixed_div_ceil(x: i128, y: i128, d: i128) -> (r: Option<i128>)
    ensures
        (y != 0 && in_i128(x as int * d as int) && in_i128(ceil_div((x as int * d as int), y as int))) ==> r == Some(ceil_div((x as int * d as int), y as int) as i128),
        !(y != 0 && in_i128(x as int * d as int) && in_i128(ceil_div((x as int * d as int), y as int))) ==> r is None,
{
    x.fixed_div_ceil(y, d)
}

} // verus!
