//! The error taxonomy of the ledger.
//!
//! Every failure of a ledger operation is a typed result; no operation has
//! a side effect when it returns an error.

use vstd::prelude::*;

verus! {

/// Why a ledger operation or query failed.
#[derive(Clone, Copy, Debug, PartialEq, Eq, Structural)]
pub enum NftError {
    /// The caller does not own the token it tried to move, burn or approve.
    UnauthorizedOwner,
    /// The caller is not the operator of the token it tried to move.
    UnauthorizedOperator,
    /// No principal entry in the owner index.
    OwnerNotFound,
    /// No principal entry in the operator index.
    OperatorNotFound,
    /// The token identifier is not in the token store.
    TokenNotFound,
    /// A mint used a token identifier that is already present.
    ExistedNFT,
    /// An approval named the caller itself as operator.
    SelfApprove,
    /// A transfer named the current owner as receiver.
    SelfTransfer,
    /// An owner was expected but the token is burned.
    BurnedNFT,
    /// A transaction sequence number outside the log.
    TxNotFound,
    /// A conversion or encoding failure.
    Other,
}

/// The interface families this ledger supports.
#[derive(Clone, Copy, Debug, PartialEq, Eq, Structural)]
pub enum SupportedInterface {
    Approval,
    Mint,
    Burn,
    TransactionHistory,
}

/// The supported interface families, in their fixed order.
pub fn supported_interfaces() -> (r: Vec<SupportedInterface>)
    ensures
        r@ == seq![
            SupportedInterface::Approval,
            SupportedInterface::Mint,
            SupportedInterface::Burn,
            SupportedInterface::TransactionHistory,
        ],
{
    let mut r: Vec<SupportedInterface> = Vec::new();
    r.push(SupportedInterface::Approval);
    r.push(SupportedInterface::Mint);
    r.push(SupportedInterface::Burn);
    r.push(SupportedInterface::TransactionHistory);
    proof {
        assert(r@ =~= seq![
            SupportedInterface::Approval,
            SupportedInterface::Mint,
            SupportedInterface::Burn,
            SupportedInterface::TransactionHistory,
        ]);
    }
    r
}

} // verus!
