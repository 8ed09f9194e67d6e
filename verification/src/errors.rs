//! Error kinds reported by the staking core.
//!
//! Every failure is reported synchronously to the caller; an operation that
//! fails leaves the state exactly as it was (all-or-nothing semantics).

use vstd::prelude::*;

verus! {

/// The error kinds of the staking core.
#[derive(Clone, Copy, Debug, PartialEq, Eq, Structural)]
pub enum StakingError {
    /// A pool or record that the operation needs is absent.
    NotFound,
    /// The pool identifier was already registered.
    AlreadyRegistered,
    /// The caller is not allowed to perform an owner-only or
    /// rewarder-only operation.
    Unauthorized,
    /// An unbond asks for more than the staker has bonded.
    InsufficientBalance,
    /// A subtraction would go below zero.
    Underflow,
    /// An addition or multiplication does not fit in the integer width.
    Overflow,
    /// A fee fraction outside the interval [0, 1].
    InvalidFee,
    /// The requested unbonding period has no registered fee entry.
    UnknownFeeOption,
    /// A new lock entry would exceed the per-position cap on
    /// outstanding lock entries.
    TooManyLocks,
    /// A token-send hook carried a message this contract does not accept.
    InvalidHookMsg,
}

impl StakingError {
    /// The diagnostic text of this error kind.
    pub fn message(&self) -> (r: &'static str)
        ensures
            (*self is InsufficientBalance) ==> r@ =~= "Cannot unbond more than bond amount"@,
            (*self is Unauthorized) ==> r@ =~= "unauthorized"@,
            (*self is InvalidFee) ==> r@ =~= "Unbond fee must be less than or equal 1"@,
            (*self is AlreadyRegistered) ==> r@ =~= "Asset was already registered"@,
            (*self is InvalidHookMsg) ==> r@ =~= "invalid cw20 hook message"@,
    {
        match self {
            StakingError::NotFound => "not found",
            StakingError::AlreadyRegistered => "Asset was already registered",
            StakingError::Unauthorized => "unauthorized",
            StakingError::InsufficientBalance => "Cannot unbond more than bond amount",
            StakingError::Underflow => "subtraction underflow",
            StakingError::Overflow => "arithmetic overflow",
            StakingError::InvalidFee => "Unbond fee must be less than or equal 1",
            StakingError::UnknownFeeOption => "unknown unbond fee option",
            StakingError::TooManyLocks => "too many outstanding lock entries",
            StakingError::InvalidHookMsg => "invalid cw20 hook message",
        }
    }
}

} // verus!
