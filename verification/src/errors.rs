use vstd::prelude::*;

verus! {

/// The error kinds surfaced by the core engine.
#[derive(Debug, Clone, Copy, PartialEq, Eq, Structural)]
pub enum ChainError {
    /// The transfer amount is zero or exceeds the cap.
    InvalidAmount,
    /// The sending address is not a known wallet.
    UnknownSender,
    /// The queried address is not a known wallet.
    UnknownWallet,
    /// The sender balance does not cover amount plus fee.
    InsufficientFunds,
    /// Mining accepted no transaction.
    EmptyBlock,
    /// The submitted block does not carry the next index.
    BadIndex,
    /// The submitted block does not link to the current tip.
    BadLink,
    /// The submitted block hash does not recompute.
    BadHash,
    /// The storage adapter failed.
    PersistenceError,
}

} // verus!
