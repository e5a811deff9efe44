use vstd::prelude::*;

verus! {

/// Every way an operation of the engine can fail. All failures are fatal to
/// the enclosing operation: an operation that returns an error leaves the
/// whole state exactly as it was.
#[derive(Clone, Copy, Debug, PartialEq, Eq, Structural)]
pub enum LendingError {
    /// A pool was accessed before its asset was set up.
    NotInitialized,
    /// An asset was initialized twice.
    AlreadyInitialized,
    /// An amount that is not strictly positive was handed to an operation.
    InvalidAmount,
    /// A loan-to-value ratio over 10000, or a negative price.
    InvalidParameter,
    /// A withdrawal was requested while the deposit balance is zero.
    NothingToWithdraw,
    /// A repayment was requested while the debt balance is zero.
    NoDebt,
    /// The projected debt exceeds the risk-adjusted collateral.
    InsufficientCollateral,
    /// The requested amount exceeds the pool's free liquidity.
    InsufficientLiquidity,
    /// A borrow was attempted against an asset whose price is not positive.
    PriceNotSet,
    /// A checked multiplication or addition left the 128-bit range.
    ArithmeticOverflow,
    /// The host's value-transfer collaborator rejected the movement.
    TransferFailed,
    /// The caller is not the identity the operation requires.
    Unauthorized,
}

} // verus!
