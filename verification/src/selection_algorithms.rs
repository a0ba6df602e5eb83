//! Choosing the transactions of the next block.

use vstd::prelude::*;

pub mod ratio_tip_gas;

verus! {

/// The budget of one block.
#[derive(Clone, Copy, Debug)]
pub struct Constraints {
    /// Gas price of the block: transactions that cap their gas price below
    /// it are passed over.
    pub minimal_gas_price: u64,
    /// Gas that the block may use.
    pub max_gas: u64,
    /// Number of transactions that the block may hold.
    pub maximum_txs: u16,
    /// Bytes that the block may hold.
    pub maximum_block_size: u32,
}

} // verus!
