//! What the pool learns from the chain's state.

use vstd::prelude::*;
use crate::config::{holds_id, holds_utxo};
use crate::types::{BlobId, ContractId, Nonce, UtxoId};

verus! {

/// A snapshot of the chain's state, as far as one candidate transaction
/// asks about it.
#[derive(Clone, Debug)]
pub struct PersistentView {
    /// The confirmed coins that are not spent.
    pub coins: Vec<UtxoId>,
    /// The contracts that exist.
    pub contracts: Vec<ContractId>,
    /// The blobs that exist.
    pub blobs: Vec<BlobId>,
    /// The messages that are known.
    pub messages: Vec<Nonce>,
    /// The messages that were spent.
    pub spent_messages: Vec<Nonce>,
}

impl PersistentView {
    /// A snapshot of an empty state.
    pub fn new() -> (view: PersistentView)
        ensures
            view.coins@.len() == 0,
            view.contracts@.len() == 0,
            view.blobs@.len() == 0,
            view.messages@.len() == 0,
            view.spent_messages@.len() == 0,
    {
        PersistentView {
            coins: Vec::new(),
            contracts: Vec::new(),
            blobs: Vec::new(),
            messages: Vec::new(),
            spent_messages: Vec::new(),
        }
    }

    /// Whether the coin is confirmed and not spent.
    pub fn utxo(&self, utxo_id: &UtxoId) -> (r: bool)
        ensures
            r == self.coins@.contains(*utxo_id),
    {
        holds_utxo(&self.coins, utxo_id)
    }

    /// Whether the contract exists.
    pub fn contract_exist(&self, contract_id: &ContractId) -> (r: bool)
        ensures
            r == self.contracts@.contains(*contract_id),
    {
        holds_id(&self.contracts, contract_id)
    }

    /// Whether the blob exists.
    pub fn blob_exist(&self, blob_id: &BlobId) -> (r: bool)
        ensures
            r == self.blobs@.contains(*blob_id),
    {
        holds_id(&self.blobs, blob_id)
    }

    /// Whether the message is known.
    pub fn message(&self, nonce: &Nonce) -> (r: bool)
        ensures
            r == self.messages@.contains(*nonce),
    {
        holds_id(&self.messages, nonce)
    }

    /// Whether the message was spent.
    pub fn spent_message(&self, nonce: &Nonce) -> (r: bool)
        ensures
            r == self.spent_messages@.contains(*nonce),
    {
        holds_id(&self.spent_messages, nonce)
    }
}

} // verus!
