use vstd::prelude::*;

verus! {

/// Why a caller was not allowed to perform an action.
#[derive(Clone, Copy, Debug, PartialEq, Eq, Structural)]
pub enum UnauthorizedReason {
    /// A mint was attempted by an address other than the designated minter.
    NotMinter,
    /// An owner tried to grant a token allowance to themselves.
    SelfApproval,
    /// A transfer named the same address as sender and recipient.
    SelfSend,
}

/// Every way a mutating ledger call can fail. A failing call leaves the
/// ledger exactly as it was.
#[derive(Clone, Copy, Debug, PartialEq, Eq, Structural)]
pub enum ContractError {
    /// The caller is not allowed to perform this action.
    Unauthorized(UnauthorizedReason),
    /// A mint or an allowance grant named amount zero.
    InvalidZeroAmount,
    /// An approval was granted with an expiration that has already elapsed.
    InvalidExpiration,
    /// An issuance or a credit would exceed the maximum representable amount.
    ArithmeticOverflow,
    /// A balance debit or an allowance consumption exceeded what is available.
    NotEnoughTokens { available: u128, requested: u128 },
    /// A spender-initiated transfer found no live allowance record.
    ApprovalNotFound,
}

} // verus!
