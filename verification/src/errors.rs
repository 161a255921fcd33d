//! The single error taxonomy of the pool. Every validation or arithmetic
//! failure aborts the whole operation with one of these codes; nothing is
//! recovered internally.

use vstd::prelude::*;

verus! {

#[derive(Clone, Copy, Debug, PartialEq, Eq, Structural)]
pub enum Error {
    // authorization
    ErrNotAuthorizedByAdmin,
    ErrNotController,
    // lifecycle
    AlreadyInitialized,
    ErrFinalized,
    ErrNotFinalized,
    ErrSwapNotPublic,
    ErrFreezeOnlyWithdrawals,
    // input validation
    ErrNegative,
    ErrNegativeOrZero,
    ErrInvalidVectorLen,
    ErrInvalidExpirationLedger,
    // token membership
    ErrIsBound,
    ErrNotBound,
    ErrMinTokens,
    ErrMaxTokens,
    ErrTokenInvalid,
    // parameter ranges
    ErrMinWeight,
    ErrMaxWeight,
    ErrMaxTotalWeight,
    ErrTotalWeight,
    ErrMinBalance,
    ErrMinFee,
    ErrMaxFee,
    ErrSwapFee,
    // operation bounds
    ErrMaxInRatio,
    ErrMaxOutRatio,
    ErrBadLimitPrice,
    ErrLimitPrice,
    ErrLimitIn,
    ErrLimitOut,
    ErrInsufficientBalance,
    ErrInsufficientAllowance,
    // arithmetic
    ErrAddOverflow,
    ErrSubUnderflow,
    ErrMulOverflow,
    ErrDivInternal,
    ErrMathApprox,
    ErrCPowBaseTooLow,
    ErrCPowBaseTooHigh,
}

} // verus!
