//! A transaction whose place in the dependency graph has been worked out.

use vstd::prelude::*;
use crate::storage::chains::chain_length;
use crate::storage::{above, live, node, reaches, Nodes};
use crate::types::{PoolTx, StorageIndex};

verus! {

/// The stored transaction `p` produced an output that `tx` spends.
pub open spec fn depends_on(g: Nodes, tx: PoolTx, p: StorageIndex) -> bool {
    live(g, p) && tx.spends_output_of(node(g, p).transaction.id)
}

/// `a` is a stored transaction that `tx` depends on, directly or through
/// other stored transactions.
pub open spec fn is_ancestor(g: Nodes, tx: PoolTx, a: StorageIndex) -> bool {
    exists|p: StorageIndex| depends_on(g, tx, p) && #[trigger] reaches(g, a, p)
}

/// Storing `tx` would make a chain longer than `max_txs_chain_count`: the
/// limit allows no transaction at all, or the longest chain that ends with
/// one of the transactions that `tx` depends on is full.
pub open spec fn chain_too_long(
    g: Nodes,
    ages: Seq<nat>,
    max_txs_chain_count: usize,
    tx: PoolTx,
) -> bool {
    max_txs_chain_count == 0 || exists|p: StorageIndex| #[trigger]
        depends_on(g, tx, p) && chain_length(g, ages, p) >= max_txs_chain_count
}

/// A transaction together with the stored transactions it depends on.
#[derive(Debug)]
pub struct CheckedTransaction {
    pub tx: PoolTx,
    /// The stored transactions whose outputs the transaction spends.
    pub direct_dependencies: Vec<StorageIndex>,
    /// The direct dependencies and all their ancestors.
    pub all_dependencies: Vec<StorageIndex>,
}

impl CheckedTransaction {
    /// The dependencies are those that the transaction has in the graph
    /// `g`, and no chain that ends with one of them is full.
    pub open spec fn valid_for(
        &self,
        g: Nodes,
        ages: Seq<nat>,
        max_txs_chain_count: usize,
    ) -> bool {
        &&& self.direct_dependencies@.no_duplicates()
        &&& forall|p: StorageIndex|
            self.direct_dependencies@.contains(p) <==> depends_on(g, self.tx, p)
        &&& self.all_dependencies@.no_duplicates()
        &&& forall|a: StorageIndex|
            self.all_dependencies@.contains(a) <==> above(g, self.direct_dependencies@, a)
        &&& max_txs_chain_count >= 1
        &&& forall|p: StorageIndex|
            self.direct_dependencies@.contains(p) ==> chain_length(g, ages, p)
                < max_txs_chain_count
    }

    /// The transaction.
    pub fn tx(&self) -> (tx: &PoolTx)
        ensures
            *tx == self.tx,
    {
        &self.tx
    }

    /// Gives the transaction back.
    pub fn into_tx(self) -> (tx: PoolTx)
        ensures
            tx == self.tx,
    {
        self.tx
    }

    /// The stored transactions that the transaction depends on, directly
    /// or not.
    pub fn all_dependencies(&self) -> (deps: &Vec<StorageIndex>)
        ensures
            *deps == self.all_dependencies,
    {
        &self.all_dependencies
    }

    /// Whether the transaction depends on a stored transaction.
    pub fn has_dependencies(&self) -> (r: bool)
        ensures
            r == (self.all_dependencies@.len() > 0),
    {
        self.all_dependencies.len() > 0
    }
}

/// The ancestors of a list of direct dependencies are the ancestors of the
/// transaction.
pub proof fn lemma_above_is_ancestor(g: Nodes, tx: PoolTx, direct: Seq<StorageIndex>, a: StorageIndex)
    requires
        forall|p: StorageIndex| direct.contains(p) <==> depends_on(g, tx, p),
    ensures
        above(g, direct, a) <==> is_ancestor(g, tx, a),
{
    if above(g, direct, a) {
        let m = choose|m: int| 0 <= m < direct.len() && reaches(g, a, #[trigger] direct[m]);
        assert(direct.contains(direct[m]));
        assert(depends_on(g, tx, direct[m]));
    }
    if is_ancestor(g, tx, a) {
        let p = choose|p: StorageIndex| depends_on(g, tx, p) && #[trigger] reaches(g, a, p);
        assert(direct.contains(p));
        let m = choose|m: int| 0 <= m < direct.len() && direct[m] == p;
        assert(reaches(g, a, direct[m]));
    }
}

} // verus!
