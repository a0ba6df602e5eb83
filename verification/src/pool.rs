//! The pool: the storage, the collision manager and the selection index,
//! kept consistent with each other and with the pool's own accounts.

use vstd::prelude::*;
use crate::collision_manager::basic::BasicCollisionManager;
use crate::collision_manager::{claims_wf, Claim};
use crate::config::Config;
use crate::selection_algorithms::ratio_tip_gas::{
    selection_complete, selection_fresh, selection_sound, sorted, Entry, RatioTipGasSelection,
};
use crate::storage::graph::GraphStorage;
use crate::storage::{live, node, pool_total, Measure, Nodes};
use crate::types::{PoolTx, Resource, StorageIndex, TxId};

pub mod admission;
pub mod caches;
pub mod commit;

verus! {

/// A transaction id and the slot of the transaction.
#[derive(Clone, Copy, Debug, PartialEq, Eq, Structural)]
pub struct IdEntry {
    pub id: TxId,
    pub slot: StorageIndex,
}

/// The slots of the pool's transactions, by transaction id.
#[derive(Debug)]
pub struct TxIdIndex {
    pub entries: Vec<IdEntry>,
}

/// No id is listed twice.
pub open spec fn ids_wf(index: Seq<IdEntry>) -> bool {
    forall|a: int, b: int|
        0 <= a < index.len() && 0 <= b < index.len() && a != b ==> (#[trigger] index[a]).id != (
        #[trigger] index[b]).id
}

/// The index lists an entry with the id.
pub open spec fn lists_id(index: Seq<IdEntry>, id: TxId) -> bool {
    exists|k: int| 0 <= k < index.len() && (#[trigger] index[k]).id == id
}

impl TxIdIndex {
    /// The entries.
    pub open spec fn view(&self) -> Seq<IdEntry> {
        self.entries@
    }

    /// An empty index.
    pub fn new() -> (index: TxIdIndex)
        ensures
            index@.len() == 0,
    {
        TxIdIndex { entries: Vec::new() }
    }

    /// Number of entries.
    pub fn len(&self) -> (n: usize)
        ensures
            n == self@.len(),
    {
        self.entries.len()
    }

    /// Whether the index has no entry.
    pub fn is_empty(&self) -> (r: bool)
        ensures
            r == (self@.len() == 0),
    {
        self.entries.len() == 0
    }

    /// The position of the entry with the given id.
    fn position(&self, id: &TxId) -> (pos: Option<usize>)
        ensures
            pos matches Some(p) ==> p < self@.len() && self@[p as int].id == *id,
            pos is None ==> !lists_id(self@, *id),
    {
        let mut k: usize = 0;
        while k < self.entries.len()
            invariant
                0 <= k <= self@.len(),
                forall|j: int| 0 <= j < k ==> (#[trigger] self@[j]).id != *id,
            decreases self@.len() - k,
        {
            if self.entries[k].id == *id {
                return Some(k);
            }
            k += 1;
        }
        None
    }

    /// The slot of the transaction with the given id.
    pub fn get(&self, id: &TxId) -> (slot: Option<StorageIndex>)
        ensures
            slot matches Some(s) ==> self@.contains(IdEntry { id: *id, slot: s }),
            slot is None ==> !lists_id(self@, *id),
    {
        match self.position(id) {
            Some(p) => {
                proof {
                    assert(self@[p as int] == (IdEntry { id: *id, slot: self@[p as int].slot }));
                }
                Some(self.entries[p].slot)
            },
            None => None,
        }
    }

    /// Whether a transaction with the given id is listed.
    pub fn contains_key(&self, id: &TxId) -> (r: bool)
        ensures
            r == lists_id(self@, *id),
    {
        self.position(id).is_some()
    }

    /// Lists a transaction under an id that is not listed yet.
    pub fn insert(&mut self, id: TxId, slot: StorageIndex)
        requires
            ids_wf(old(self)@),
            !lists_id(old(self)@, id),
        ensures
            ids_wf(final(self)@),
            final(self)@ == old(self)@.push(IdEntry { id, slot }),
    {
        self.entries.push(IdEntry { id, slot });
        proof {
            let before = old(self)@;
            assert forall|a: int, b: int|
                0 <= a < self@.len() && 0 <= b < self@.len() && a != b implies (
            #[trigger] self@[a]).id != (#[trigger] self@[b]).id by {
                if a < before.len() {
                    assert(self@[a] == before[a]);
                }
                if b < before.len() {
                    assert(self@[b] == before[b]);
                }
            }
        }
    }

    /// Strikes the transaction with the given id from the index.
    pub fn remove(&mut self, id: &TxId)
        requires
            ids_wf(old(self)@),
        ensures
            ids_wf(final(self)@),
            forall|e: IdEntry| #[trigger]
                final(self)@.contains(e) <==> (old(self)@.contains(e) && e.id != *id),
            lists_id(old(self)@, *id) ==> final(self)@.len() == old(self)@.len() - 1,
            !lists_id(old(self)@, *id) ==> final(self)@ == old(self)@,
    {
        let ghost before = self@;
        match self.position(id) {
            Some(p) => {
                self.entries.remove(p);
                proof {
                    assert(self@ == before.remove(p as int));
                    assert forall|a: int, b: int|
                        0 <= a < self@.len() && 0 <= b < self@.len() && a != b implies (
                    #[trigger] self@[a]).id != (#[trigger] self@[b]).id by {
                        let a0 = if a < p { a } else { a + 1 };
                        let b0 = if b < p { b } else { b + 1 };
                        assert(self@[a] == before[a0]);
                        assert(self@[b] == before[b0]);
                    }
                    assert forall|e: IdEntry| #[trigger]
                        self@.contains(e) <==> (before.contains(e) && e.id != *id) by {
                        if self@.contains(e) {
                            let a = choose|a: int| 0 <= a < self@.len() && self@[a] == e;
                            let a0 = if a < p { a } else { a + 1 };
                            assert(before[a0] == e);
                            assert(before[a0].id != before[p as int].id);
                        }
                        if before.contains(e) && e.id != *id {
                            let a0 = choose|a0: int| 0 <= a0 < before.len() && before[a0] == e;
                            if a0 < p {
                                assert(self@[a0] == e);
                            } else {
                                assert(self@[a0 - 1] == e);
                            }
                        }
                    }
                    assert(lists_id(before, *id));
                }
            },
            None => {
                proof {
                    assert forall|e: IdEntry| #[trigger] before.contains(e) implies e.id != *id by {
                        let a = choose|a: int| 0 <= a < before.len() && before[a] == e;
                        assert(before[a].id != *id);
                    }
                }
            },
        }
    }
}

/// The index lists exactly the stored transactions, each under its id.
pub open spec fn ids_match(index: Seq<IdEntry>, g: Nodes) -> bool {
    &&& ids_wf(index)
    &&& forall|k: int|
        0 <= k < index.len() ==> live(g, (#[trigger] index[k]).slot) && node(
            g,
            index[k].slot,
        ).transaction.id == index[k].id
    &&& forall|i: StorageIndex| #[trigger]
        live(g, i) ==> index.contains(IdEntry { id: node(g, i).transaction.id, slot: i })
}

/// The claims are exactly those of the stored transactions, and no
/// resource is claimed twice.
pub open spec fn claims_match(claims: Seq<Claim>, g: Nodes) -> bool {
    &&& claims_wf(claims)
    &&& forall|k: int|
        0 <= k < claims.len() ==> live(g, (#[trigger] claims[k]).owner) && node(
            g,
            claims[k].owner,
        ).transaction.claims(claims[k].resource)
    &&& forall|i: StorageIndex, r: Resource|
        live(g, i) && #[trigger] node(g, i).transaction.claims(r) ==> claims.contains(
            Claim { resource: r, owner: i },
        )
}

/// The selection index holds exactly the stored transactions without
/// parents, each under its key, best first.
pub open spec fn selection_match(sel: Seq<Entry>, g: Nodes) -> bool {
    &&& sorted(sel)
    &&& selection_sound(sel, g)
    &&& selection_complete(sel, g)
    &&& selection_fresh(sel, g)
}

/// The pool of unconfirmed transactions.
pub struct Pool {
    /// Configuration of the pool.
    pub config: Config,
    /// The stored transactions and their dependencies.
    pub storage: GraphStorage,
    /// The resources that the stored transactions claim.
    pub collision_manager: BasicCollisionManager,
    /// The stored transactions without parents, best first.
    pub selection_algorithm: RatioTipGasSelection,
    /// The slots of the stored transactions, by transaction id.
    pub tx_id_to_storage_id: TxIdIndex,
    /// Sum of the maximal gas of the stored transactions.
    pub current_gas: u128,
    /// Sum of the sizes of the stored transactions.
    pub current_bytes_size: u128,
}

impl Pool {
    /// The stored transactions.
    pub open spec fn view(&self) -> Nodes {
        self.storage@
    }

    /// The pool holds a transaction with the given id.
    pub open spec fn holds_id(&self, id: TxId) -> bool {
        crate::storage::steps::contains_id(self@, id)
    }

    /// The invariant of the pool: the storage is well formed and has the
    /// pool's limit on chains, and the id index, the collision manager, the
    /// selection index and the two sums say of the stored transactions what
    /// the storage says.
    pub open spec fn wf(&self) -> bool {
        &&& self.storage.wf()
        &&& self.storage.config.max_txs_chain_count == self.config.max_txs_chain_count
        &&& ids_match(self.tx_id_to_storage_id@, self@)
        &&& self.tx_id_to_storage_id@.len() == self.storage.count
        &&& claims_match(self.collision_manager@, self@)
        &&& selection_match(self.selection_algorithm@, self@)
        &&& self.current_gas == pool_total(self@, Measure::Gas)
        &&& self.current_bytes_size == pool_total(self@, Measure::Bytes)
    }

    /// A pool made of empty parts.
    pub fn new(
        storage: GraphStorage,
        collision_manager: BasicCollisionManager,
        selection_algorithm: RatioTipGasSelection,
        config: Config,
    ) -> (pool: Pool)
        requires
            storage.wf(),
            storage.config.max_txs_chain_count == config.max_txs_chain_count,
            storage@.len() == 0,
            collision_manager@.len() == 0,
            selection_algorithm@.len() == 0,
        ensures
            pool.wf(),
            pool.config == config,
            pool.storage == storage,
            pool.current_gas == 0,
            pool.current_bytes_size == 0,
            forall|i: StorageIndex| !live(pool@, i),
    {
        let pool = Pool {
            config,
            storage,
            collision_manager,
            selection_algorithm,
            tx_id_to_storage_id: TxIdIndex::new(),
            current_gas: 0,
            current_bytes_size: 0,
        };
        proof {
            assert(pool_total(pool@, Measure::Gas) == 0);
            assert(pool_total(pool@, Measure::Bytes) == 0);
            assert(pool_total(pool@, Measure::Count) == 0);
        }
        pool
    }

    /// The pool transaction with the given id.
    pub fn find_one(&self, tx_id: &TxId) -> (tx: Option<&PoolTx>)
        requires
            self.wf(),
        ensures
            tx is Some <==> self.holds_id(*tx_id),
            tx matches Some(t) ==> t.id == *tx_id && exists|i: StorageIndex| #[trigger]
                live(self@, i) && node(self@, i).transaction == *t,
    {
        match self.tx_id_to_storage_id.get(tx_id) {
            Some(slot) => {
                proof {
                    let e = IdEntry { id: *tx_id, slot };
                    let k = choose|k: int|
                        0 <= k < self.tx_id_to_storage_id@.len() && self.tx_id_to_storage_id@[k]
                            == e;
                    assert(live(self@, self.tx_id_to_storage_id@[k].slot));
                }
                match self.storage.get(slot) {
                    Some(data) => Some(&data.transaction),
                    None => None,
                }
            },
            None => {
                proof {
                    if self.holds_id(*tx_id) {
                        let i = choose|i: StorageIndex| #[trigger]
                            live(self@, i) && node(self@, i).transaction.id == *tx_id;
                        let e = IdEntry { id: *tx_id, slot: i };
                        assert(self.tx_id_to_storage_id@.contains(e));
                        let k = choose|k: int|
                            0 <= k < self.tx_id_to_storage_id@.len() && self.tx_id_to_storage_id@[k]
                                == e;
                        assert(self.tx_id_to_storage_id@[k].id == *tx_id);
                    }
                }
                None
            },
        }
    }

    /// Number of transactions in the pool.
    pub fn tx_count(&self) -> (n: usize)
        ensures
            n == self.tx_id_to_storage_id@.len(),
    {
        self.tx_id_to_storage_id.len()
    }
}

} // verus!
