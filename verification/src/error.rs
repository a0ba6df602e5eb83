//! Why the pool refuses a transaction.

use vstd::prelude::*;
use crate::types::{BlobId, ContractId, Nonce, TxId, UtxoId};

verus! {

/// Why an input of a transaction cannot be spent or read.
#[derive(Clone, Copy, Debug, PartialEq, Eq, Structural)]
pub enum InputValidationError {
    /// The coin is neither confirmed nor produced by a pool transaction.
    UtxoNotFound(UtxoId),
    /// The pool transaction named by the input has no spendable output in
    /// that slot.
    NotSpendableOutput(UtxoId),
    /// The message is not known.
    MessageNotFound(Nonce),
    /// The message was spent already.
    MessageSpent(Nonce),
    /// The contract does not exist.
    ContractNotFound(ContractId),
}

/// Why a transaction was not admitted.
#[derive(Clone, Copy, Debug, PartialEq, Eq, Structural)]
pub enum Error {
    /// The transaction may use no gas at all.
    ZeroMaxGas,
    /// A transaction with this id is in the pool already.
    DuplicateTxId(TxId),
    /// An input of the transaction is banned.
    Blacklisted,
    /// The blob exists already in the chain's state.
    BlobIdAlreadyTaken(BlobId),
    /// An input of the transaction is not valid.
    NotInsertedInputsInvalid(InputValidationError),
    /// The transaction depends on a pool transaction that it also collides
    /// with.
    NotInsertedCollisionIsDependency,
    /// The transaction collides with the given pool transaction and does
    /// not pay enough to displace it.
    Collided(TxId),
    /// The pool is full, and room for the transaction cannot be made.
    NotInsertedLimitHit,
    /// A chain of dependent transactions would grow beyond the limit.
    ChainTooLong,
}

} // verus!
