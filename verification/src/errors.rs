use vstd::prelude::*;

verus! {

/// Everything that can go wrong in a ledger operation.
///
/// Every failure is reported to the caller; nothing is retried or swallowed,
/// and a failed operation leaves the ledger exactly as it was.
#[derive(Clone, Copy, Debug, PartialEq, Eq, Structural)]
pub enum Error {
    /// An empty account id, a zero amount or zero supply, a transfer directed
    /// at the super account, or an account id that collides with one of the
    /// reserved metadata keys.
    InvalidInput,
    /// The requested account has no value in the store at all (distinct from
    /// an account that is present with an empty holdings sequence).
    AccountNotFound,
    /// A sending account holds fewer token units than the transfer asks for.
    InsufficientBalance,
    /// The super account's remaining supply is smaller than the mint asks for.
    InsufficientSupply,
    /// A stored value is not a well-formed encoding; the failure is confined
    /// to the one operation that read it.
    CorruptEncoding,
    /// The underlying store failed to read or commit.  The verified in-memory
    /// store never fails this way; the variant exists for front ends that run
    /// the same protocol against an external engine.
    StoreUnavailable,
}

} // verus!
