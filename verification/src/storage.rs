//! The records the pool keeps for its transactions, and the graph they form:
//! an edge leads from a transaction to each transaction that spends one of
//! its outputs.

use vstd::prelude::*;
use crate::sums::sum_to;
use crate::types::{PoolTx, StorageIndex};

pub mod chains;
pub mod checked;
pub mod graph;
pub mod inputs;
pub mod reach;
pub mod steps;

verus! {

/// The pool's record of one stored transaction.
#[derive(Debug)]
pub struct StorageData {
    pub transaction: PoolTx,
    /// When the transaction was admitted.
    pub creation_instant: u64,
    /// Sum of the tips of the transaction and of all its dependents.
    pub dependents_cumulative_tip: u128,
    /// Sum of the maximal gas of the transaction and of all its dependents.
    pub dependents_cumulative_gas: u128,
    /// Sum of the sizes of the transaction and of all its dependents.
    pub dependents_cumulative_bytes_size: u128,
    /// Number of transactions that leave with this one: the transaction and
    /// all its dependents.
    pub number_dependents_in_chain: usize,
    /// The stored transactions whose outputs this one spends.
    pub parents: Vec<StorageIndex>,
    /// The stored transactions that spend an output of this one.
    pub children: Vec<StorageIndex>,
}

/// The slots of the storage: a slot is either free or holds a record.
pub type Nodes = Seq<Option<StorageData>>;

/// One of the four quantities that are summed over sets of transactions.
pub enum Measure {
    Tip,
    Gas,
    Bytes,
    Count,
}

/// What a transaction contributes to a sum of the given measure.
pub open spec fn weight(tx: PoolTx, m: Measure) -> int {
    match m {
        Measure::Tip => tx.tip as int,
        Measure::Gas => tx.max_gas as int,
        Measure::Bytes => tx.metered_bytes_size as int,
        Measure::Count => 1,
    }
}

/// Slot `i` holds a record.
pub open spec fn live(g: Nodes, i: StorageIndex) -> bool {
    (i as int) < g.len() && g[i as int] is Some
}

/// The record in slot `i`.
pub open spec fn node(g: Nodes, i: StorageIndex) -> StorageData {
    g[i as int]->0
}

/// `c` is listed as a child of the stored transaction `p`.
pub open spec fn has_child(g: Nodes, p: StorageIndex, c: StorageIndex) -> bool {
    live(g, p) && node(g, p).children@.contains(c)
}

/// `p` is a non-empty walk along child links between stored transactions.
pub open spec fn is_path(g: Nodes, p: Seq<StorageIndex>) -> bool {
    &&& p.len() > 0
    &&& forall|k: int| 0 <= k < p.len() ==> live(g, #[trigger] p[k])
    &&& forall|k: int|
        0 <= k < p.len() - 1 ==> node(g, #[trigger] p[k]).children@.contains(p[k + 1])
}

/// `b` is `a` or one of its direct or indirect dependents.
pub open spec fn reaches(g: Nodes, a: StorageIndex, b: StorageIndex) -> bool {
    exists|p: Seq<StorageIndex>| #[trigger] is_path(g, p) && p[0] == a && p[p.len() - 1] == b
}

/// `a` is one of `starts` or an ancestor of one of them.
pub open spec fn above(g: Nodes, starts: Seq<StorageIndex>, a: StorageIndex) -> bool {
    exists|m: int| 0 <= m < starts.len() && reaches(g, a, #[trigger] starts[m])
}

/// The contribution of slot `j` to a sum over the subtree of `i`.
pub open spec fn subtree_term(g: Nodes, i: StorageIndex, m: Measure, j: int) -> int {
    if 0 <= j < g.len() && j <= usize::MAX && reaches(g, i, j as usize) {
        weight(node(g, j as usize).transaction, m)
    } else {
        0
    }
}

/// The sum of a measure over `i` and all its dependents.
pub open spec fn subtree_total(g: Nodes, i: StorageIndex, m: Measure) -> int {
    sum_to(|j: int| subtree_term(g, i, m, j), g.len() as int)
}

/// The contribution of slot `j` to a sum over all stored transactions.
pub open spec fn pool_term(g: Nodes, m: Measure, j: int) -> int {
    if 0 <= j < g.len() && g[j] is Some {
        weight(g[j]->0.transaction, m)
    } else {
        0
    }
}

/// The sum of a measure over all stored transactions.
pub open spec fn pool_total(g: Nodes, m: Measure) -> int {
    sum_to(|j: int| pool_term(g, m, j), g.len() as int)
}

/// The sum of a measure over a list of records.
pub open spec fn records_total(records: Seq<StorageData>, m: Measure) -> int
    decreases records.len(),
{
    if records.len() == 0 {
        0
    } else {
        records_total(records.drop_last(), m) + weight(records.last().transaction, m)
    }
}

/// Parent and child links mirror each other, name stored transactions only,
/// and list none twice.
pub open spec fn links_wf(g: Nodes) -> bool {
    forall|i: StorageIndex| #[trigger]
        live(g, i) ==> {
            &&& node(g, i).parents@.no_duplicates()
            &&& node(g, i).children@.no_duplicates()
            &&& forall|k: int|
                0 <= k < node(g, i).parents@.len() ==> has_child(
                    g,
                    #[trigger] node(g, i).parents@[k],
                    i,
                )
            &&& forall|k: int|
                0 <= k < node(g, i).children@.len() ==> live(
                    g,
                    #[trigger] node(g, i).children@[k],
                ) && node(g, node(g, i).children@[k]).parents@.contains(i)
        }
}

/// The sum that a record keeps for the given measure.
pub open spec fn aggregate(data: StorageData, m: Measure) -> int {
    match m {
        Measure::Tip => data.dependents_cumulative_tip as int,
        Measure::Gas => data.dependents_cumulative_gas as int,
        Measure::Bytes => data.dependents_cumulative_bytes_size as int,
        Measure::Count => data.number_dependents_in_chain as int,
    }
}

/// Every record's subtree sums are exact.
pub open spec fn aggregates_wf(g: Nodes) -> bool {
    forall|i: StorageIndex, m: Measure|
        live(g, i) ==> aggregate(node(g, i), m) == #[trigger] subtree_total(g, i, m)
}

/// Every parent was stored before its children: `ages` numbers the records
/// in the order of their arrival.
pub open spec fn ages_wf(g: Nodes, ages: Seq<nat>, next_age: nat) -> bool {
    &&& ages.len() == g.len()
    &&& forall|i: StorageIndex| #[trigger] live(g, i) ==> ages[i as int] < next_age
    &&& forall|i: StorageIndex, k: int|
        live(g, i) && 0 <= k < node(g, i).parents@.len() ==> ages[(
        #[trigger] node(g, i).parents@[k]) as int] < ages[i as int]
}

} // verus!
