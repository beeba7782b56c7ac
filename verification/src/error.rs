//! Errors returned by the staking ledger's operations.

use vstd::prelude::*;

verus! {

/// Every failure an operation of the ledger can report.  Each variant is
/// returned on exactly the inputs stated in the contract of the operation
/// that produces it.
#[derive(Clone, Copy, Debug, PartialEq, Eq, Structural)]
pub enum ContractError {
    /// The configuration is invalid: `tokens_per_weight` was zero.
    ZeroTokensPerWeight,
    /// Funds sent do not match the configured denomination.
    WrongDenom,
    /// An unbond asked for more tokens than the address has staked.
    InsufficientStake,
    /// A first bond was below the configured minimum.
    BelowMinimumBond,
    /// An admin-only operation was attempted by a non-admin, or the admin is unset.
    Unauthorized,
    /// A claim call found no matured claims.
    NothingToClaim,
    /// A hook removal named an address that is not registered.
    HookNotFound,
    /// A hook addition named an address that is already registered.
    HookDuplicate,
}

impl ContractError {
    /// A short description of the error, for callers that render messages.
    pub fn describe(&self) -> (r: &'static str)
        ensures
            r@.len() > 0,
    {
        proof {
            reveal_strlit("tokens_per_weight must be positive");
            reveal_strlit("sent funds do not match the bonding denom");
            reveal_strlit("cannot unbond more than the bonded stake");
            reveal_strlit("first bond is below the minimum bond");
            reveal_strlit("caller is not the admin");
            reveal_strlit("no matured claims to release");
            reveal_strlit("hook is not registered");
            reveal_strlit("hook is already registered");
        }
        match self {
            ContractError::ZeroTokensPerWeight => "tokens_per_weight must be positive",
            ContractError::WrongDenom => "sent funds do not match the bonding denom",
            ContractError::InsufficientStake => "cannot unbond more than the bonded stake",
            ContractError::BelowMinimumBond => "first bond is below the minimum bond",
            ContractError::Unauthorized => "caller is not the admin",
            ContractError::NothingToClaim => "no matured claims to release",
            ContractError::HookNotFound => "hook is not registered",
            ContractError::HookDuplicate => "hook is already registered",
        }
    }
}

} // verus!
