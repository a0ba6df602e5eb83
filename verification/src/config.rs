//! Configuration of the pool.

use vstd::prelude::*;
use crate::types::{Address, AssetId, ContractId, Input, Nonce, PoolTx, UtxoId};

verus! {

/// How much the pool may hold. The limits are soft: when room is made for
/// a transaction, what leaves with a dependent of two evicted transactions
/// is counted twice.
#[derive(Clone, Copy, Debug, PartialEq, Eq)]
pub struct PoolLimits {
    /// Number of transactions.
    pub max_txs: usize,
    /// Sum of the maximal gas of the transactions.
    pub max_gas: u64,
    /// Sum of the sizes of the transactions.
    pub max_bytes_size: usize,
}

/// What is banned from the pool.
#[derive(Clone, Debug)]
pub struct BlackList {
    /// Owners, senders and recipients that may not spend.
    pub owners: Vec<Address>,
    /// Assets that may not be spent.
    pub asset_ids: Vec<AssetId>,
    /// Coins that may not be spent.
    pub coins: Vec<UtxoId>,
    /// Messages that may not be spent.
    pub messages: Vec<Nonce>,
    /// Contracts that may not be read.
    pub contracts: Vec<ContractId>,
}

/// Whether `items` holds `x`.
pub fn holds_id(items: &Vec<crate::types::Bytes32>, x: &crate::types::Bytes32) -> (r: bool)
    ensures
        r == items@.contains(*x),
{
    let mut i: usize = 0;
    while i < items.len()
        invariant
            0 <= i <= items@.len(),
            forall|j: int| 0 <= j < i ==> items@[j] != *x,
        decreases items@.len() - i,
    {
        if items[i] == *x {
            return true;
        }
        i += 1;
    }
    false
}

/// Whether `items` holds `x`.
pub fn holds_utxo(items: &Vec<UtxoId>, x: &UtxoId) -> (r: bool)
    ensures
        r == items@.contains(*x),
{
    let mut i: usize = 0;
    while i < items.len()
        invariant
            0 <= i <= items@.len(),
            forall|j: int| 0 <= j < i ==> items@[j] != *x,
        decreases items@.len() - i,
    {
        if items[i] == *x {
            return true;
        }
        i += 1;
    }
    false
}

impl BlackList {
    /// A list that bans nothing.
    pub fn new() -> (list: BlackList)
        ensures
            list.owners@.len() == 0,
            list.asset_ids@.len() == 0,
            list.coins@.len() == 0,
            list.messages@.len() == 0,
            list.contracts@.len() == 0,
            forall|tx: PoolTx| !list.bans(tx),
    {
        let list = BlackList {
            owners: Vec::new(),
            asset_ids: Vec::new(),
            coins: Vec::new(),
            messages: Vec::new(),
            contracts: Vec::new(),
        };
        proof {
            assert forall|tx: PoolTx| !list.bans(tx) by {
                if list.bans(tx) {
                    let i = choose|i: int|
                        0 <= i < tx.inputs@.len() && list.bans_input(#[trigger] tx.inputs@[i]);
                }
            }
        }
        list
    }

    /// Whether the list bans the input.
    pub open spec fn bans_input(&self, input: Input) -> bool {
        match input {
            Input::Coin { utxo_id, owner, asset_id } => self.coins@.contains(utxo_id)
                || self.owners@.contains(owner) || self.asset_ids@.contains(asset_id),
            Input::Message { nonce, sender, recipient } => self.messages@.contains(nonce)
                || self.owners@.contains(sender) || self.owners@.contains(recipient),
            Input::Contract { contract_id } => self.contracts@.contains(contract_id),
        }
    }

    /// Whether the list bans an input of the transaction.
    pub open spec fn bans(&self, tx: PoolTx) -> bool {
        exists|i: int| 0 <= i < tx.inputs@.len() && self.bans_input(#[trigger] tx.inputs@[i])
    }

    /// Whether the list bans the input.
    pub fn is_input_banned(&self, input: &Input) -> (r: bool)
        ensures
            r == self.bans_input(*input),
    {
        match input {
            Input::Coin { utxo_id, owner, asset_id } => holds_utxo(&self.coins, utxo_id)
                || holds_id(&self.owners, owner) || holds_id(&self.asset_ids, asset_id),
            Input::Message { nonce, sender, recipient } => holds_id(&self.messages, nonce)
                || holds_id(&self.owners, sender) || holds_id(&self.owners, recipient),
            Input::Contract { contract_id } => holds_id(&self.contracts, contract_id),
        }
    }

    /// Refuses a transaction with a banned input.
    pub fn check_blacklisting(&self, tx: &PoolTx) -> (r: Result<(), crate::error::Error>)
        ensures
            r is Err <==> self.bans(*tx),
            r matches Err(e) ==> e == crate::error::Error::Blacklisted,
    {
        let mut i: usize = 0;
        while i < tx.inputs.len()
            invariant
                0 <= i <= tx.inputs@.len(),
                forall|j: int| 0 <= j < i ==> !self.bans_input(#[trigger] tx.inputs@[j]),
            decreases tx.inputs@.len() - i,
        {
            if self.is_input_banned(&tx.inputs[i]) {
                return Err(crate::error::Error::Blacklisted);
            }
            i += 1;
        }
        Ok(())
    }
}

/// Configuration of the pool.
#[derive(Clone, Debug)]
pub struct Config {
    /// Whether a coin that no pool transaction produces must be confirmed.
    pub utxo_validation: bool,
    /// Gas that one block may use.
    pub max_block_gas: u64,
    /// The largest number of transactions in a chain of dependent
    /// transactions.
    pub max_txs_chain_count: usize,
    /// How much the pool may hold.
    pub pool_limits: PoolLimits,
    /// What is banned from the pool.
    pub black_list: BlackList,
}

impl Default for Config {
    fn default() -> (config: Config)
        ensures
            config.utxo_validation,
            config.max_block_gas == 100_000_000,
            config.max_txs_chain_count == 1_000,
            config.pool_limits.max_txs == 10_000,
            config.pool_limits.max_gas == 100_000_000_000,
            config.pool_limits.max_bytes_size == 1_000_000_000,
            forall|tx: PoolTx| !config.black_list.bans(tx),
    {
        Config {
            utxo_validation: true,
            max_block_gas: 100_000_000,
            max_txs_chain_count: 1_000,
            pool_limits: PoolLimits {
                max_txs: 10_000,
                max_gas: 100_000_000_000,
                max_bytes_size: 1_000_000_000,
            },
            black_list: BlackList::new(),
        }
    }
}

} // verus!
