//! The operations that change the pool: admission, extraction and removal.

use vstd::prelude::*;
use crate::collision_manager::{collides, Claim, Collisions};
use crate::error::Error;
use crate::pool::admission::{
    admitted, has_dependencies, lemma_has_dependencies, passes, refused, room_for,
    CanStoreTransaction,
};
use crate::pool::caches::{
    into_transactions, lemma_cascade, lemma_ids_and_claims_after_removal,
    lemma_selection_after_extraction, lemma_without_slots_compose, survivors,
};
use crate::pool::{claims_match, ids_match, lists_id, selection_match, IdEntry, Pool};
use crate::ports::PersistentView;
use crate::selection_algorithms::Constraints;
use crate::selection_algorithms::ratio_tip_gas::{
    all_priced, entry_of, gathered, key_of, lemma_key_order_equal, lemma_records_total_count,
    saturated, sorted, Entry,
};
use crate::storage::checked::depends_on;
use crate::storage::graph::{records_of, subtree_removed, without_slots};
use crate::storage::reach::{lemma_pool_total_bounds, lemma_reaches_live};
use crate::storage::steps::{contains_id, leaf_step};
use crate::storage::{
    above, is_path, live, node, pool_total, reaches, records_total, weight, Measure, Nodes,
    StorageData,
};
use crate::types::{PoolTx, Resource, StorageIndex, TxId};

verus! {

/// A walk in what is left of a graph is a walk in the graph.
pub proof fn lemma_reaches_before_removal(
    g: Nodes,
    h: Nodes,
    gone: Seq<StorageIndex>,
    a: StorageIndex,
    b: StorageIndex,
)
    requires
        without_slots(g, h, gone),
        reaches(h, a, b),
    ensures
        reaches(g, a, b),
{
    let p = choose|p: Seq<StorageIndex>| #[trigger]
        is_path(h, p) && p[0] == a && p[p.len() - 1] == b;
    assert forall|k: int| 0 <= k < p.len() implies live(g, #[trigger] p[k]) by {
        assert(live(h, p[k]));
    }
    assert forall|k: int| 0 <= k < p.len() - 1 implies node(g, #[trigger] p[k]).children@.contains(
        p[k + 1],
    ) by {
        assert(live(h, p[k]));
        assert(node(h, p[k]).children@.contains(p[k + 1]));
    }
    assert(is_path(g, p));
}

/// `x` is one of `roots` or a dependent of one of them.
pub open spec fn below(g: Nodes, roots: Seq<StorageIndex>, x: StorageIndex) -> bool {
    exists|j: int| 0 <= j < roots.len() && reaches(g, #[trigger] roots[j], x)
}

/// The graph `h` holds `tx` in the slot `k`, and besides it the
/// transactions of `g` but those in the slots `gone`.
pub open spec fn placed(
    g: Nodes,
    h: Nodes,
    k: StorageIndex,
    tx: PoolTx,
    creation_instant: u64,
    gone: Seq<StorageIndex>,
) -> bool {
    &&& live(h, k)
    &&& live(g, k) ==> gone.contains(k)
    &&& node(h, k).transaction == tx
    &&& node(h, k).creation_instant == creation_instant
    &&& forall|p: StorageIndex| node(h, k).parents@.contains(p) <==> depends_on(g, tx, p)
    &&& forall|i: StorageIndex|
        i != k ==> (#[trigger] live(h, i) <==> (live(g, i) && !gone.contains(i)))
    &&& forall|i: StorageIndex|
        i != k && #[trigger] live(h, i) ==> node(h, i).transaction == node(g, i).transaction
            && node(h, i).creation_instant == node(g, i).creation_instant && node(
            h,
            i,
        ).parents@ == node(g, i).parents@
}

/// The stored transactions that leave for a candidate: those that it
/// collides with, and those that make room for it.
pub open spec fn roots_for(pool: Pool, tx: PoolTx, root: StorageIndex) -> bool {
    collides(pool.collision_manager@, tx, root) || (room_for(pool, tx) is Some && room_for(
        pool,
        tx,
    )->0.contains(root))
}

/// The candidate has joined the pool, and `removed` are the transactions
/// that have left it: those that the candidate collides with, those that
/// make room for it, and the dependents of both.
pub open spec fn inserted(
    pool: Pool,
    h: Nodes,
    tx: PoolTx,
    creation_instant: u64,
    gone: Seq<StorageIndex>,
    removed: Seq<PoolTx>,
) -> bool {
    &&& gone.no_duplicates()
    &&& removed.len() == gone.len()
    &&& forall|j: int|
        0 <= j < gone.len() ==> live(pool@, #[trigger] gone[j]) && removed[j] == node(
            pool@,
            gone[j],
        ).transaction
    &&& forall|x: StorageIndex|
        gone.contains(x) <==> exists|root: StorageIndex|
            roots_for(pool, tx, root) && #[trigger] reaches(pool@, root, x)
    &&& exists|k: StorageIndex| #[trigger] placed(pool@, h, k, tx, creation_instant, gone)
}

/// The candidate has joined the pool, and `removed` are the transactions
/// that have left it for the candidate.
pub open spec fn joined(
    pool: Pool,
    h: Nodes,
    tx: PoolTx,
    creation_instant: u64,
    removed: Seq<PoolTx>,
) -> bool {
    exists|gone: Seq<StorageIndex>| #[trigger]
        inserted(pool, h, tx, creation_instant, gone, removed)
}

/// `txs` have left the pool for a block: `h` is what remains of `g`.
pub open spec fn extraction(
    g: Nodes,
    h: Nodes,
    sel: Seq<Entry>,
    constraints: Constraints,
    slots: Seq<StorageIndex>,
    records: Seq<StorageData>,
    txs: Seq<PoolTx>,
) -> bool {
    &&& gathered(g, h, sel, constraints, slots, records)
    &&& txs.len() == records.len()
    &&& forall|j: int| 0 <= j < txs.len() ==> #[trigger] txs[j] == records[j].transaction
    &&& all_priced(records, constraints.minimal_gas_price)
    &&& records.len() <= constraints.maximum_txs
    &&& records_total(records, Measure::Gas) <= constraints.max_gas
    &&& records_total(records, Measure::Bytes) <= constraints.maximum_block_size
    &&& saturated(h, constraints, records)
}

/// The budget of a block at the given gas price: the block's gas is
/// bounded by the pool's configuration, its size and the number of its
/// transactions only by what the types can hold.
pub open spec fn block_constraints(max_block_gas: u64, gas_price: u64) -> Constraints {
    Constraints {
        minimal_gas_price: gas_price,
        max_gas: max_block_gas,
        maximum_txs: u16::MAX,
        maximum_block_size: u32::MAX,
    }
}

/// `txs` have left the pool for a block with the given budget, and `h` is
/// what remains of `g`.
pub open spec fn taken(
    g: Nodes,
    h: Nodes,
    sel: Seq<Entry>,
    constraints: Constraints,
    txs: Seq<PoolTx>,
) -> bool {
    exists|slots: Seq<StorageIndex>, records: Seq<StorageData>| #[trigger]
        extraction(g, h, sel, constraints, slots, records, txs)
}

/// The stored transaction `root` has one of the given ids.
pub open spec fn named(g: Nodes, ids: Seq<TxId>, root: StorageIndex) -> bool {
    live(g, root) && ids.contains(node(g, root).transaction.id)
}

/// `gone` are the slots, and `txs` the transactions, of the stored
/// transactions with one of the given ids and of their dependents; `h` is
/// what remains of `g`.
pub open spec fn removal(
    g: Nodes,
    h: Nodes,
    ids: Seq<TxId>,
    gone: Seq<StorageIndex>,
    txs: Seq<PoolTx>,
) -> bool {
    &&& gone.no_duplicates()
    &&& txs.len() == gone.len()
    &&& forall|j: int|
        0 <= j < gone.len() ==> live(g, #[trigger] gone[j]) && txs[j] == node(
            g,
            gone[j],
        ).transaction
    &&& forall|x: StorageIndex|
        gone.contains(x) <==> exists|root: StorageIndex|
            named(g, ids, root) && #[trigger] reaches(g, root, x)
    &&& without_slots(g, h, gone)
}

/// The transactions with one of the given ids have left the pool with
/// their dependents, and nothing else has.
pub open spec fn left(g: Nodes, h: Nodes, ids: Seq<TxId>, txs: Seq<PoolTx>) -> bool {
    exists|gone: Seq<StorageIndex>| #[trigger] removal(g, h, ids, gone, txs)
}

impl Collisions {
    /// The slots of the colliding transactions.
    pub fn storage_ids(&self) -> (slots: Vec<StorageIndex>)
        ensures
            slots@.len() == self@.len(),
            forall|j: int| 0 <= j < slots@.len() ==> #[trigger] slots@[j] == self@[j].storage_id,
    {
        let mut slots: Vec<StorageIndex> = Vec::new();
        let mut k: usize = 0;
        while k < self.colliders.len()
            invariant
                0 <= k <= self@.len(),
                slots@.len() == k,
                forall|j: int| 0 <= j < k ==> #[trigger] slots@[j] == self@[j].storage_id,
            decreases self@.len() - k,
        {
            slots.push(self.colliders[k].storage_id);
            k += 1;
        }
        slots
    }
}

impl Pool {
    /// Removes the listed transactions from the pool, each with all its
    /// dependents, and adds their records to `removed`.
    pub(crate) fn displace_all(
        &mut self,
        roots: &Vec<StorageIndex>,
        removed: &mut Vec<StorageData>,
        Ghost(g0): Ghost<Nodes>,
        Ghost(gone0): Ghost<Seq<StorageIndex>>,
    ) -> (gone: Ghost<Seq<StorageIndex>>)
        requires
            old(self).wf(),
            without_slots(g0, old(self)@, gone0),
            records_of(g0, old(removed)@, gone0),
        ensures
            final(self).wf(),
            final(self).config == old(self).config,
            final(self).storage.config == old(self).storage.config,
            without_slots(g0, final(self)@, gone@),
            records_of(g0, final(removed)@, gone@),
            forall|x: StorageIndex| gone0.contains(x) ==> gone@.contains(x),
            forall|x: StorageIndex| gone@.contains(x) ==> gone0.contains(x) || below(g0, roots@, x),
            forall|j: int| 0 <= j < roots@.len() ==> !live(final(self)@, #[trigger] roots@[j]),
            roots@.len() == 0 ==> *final(self) == *old(self) && final(removed)@ == old(removed)@
                && gone@ == gone0,
    {
        let ghost mut gone = gone0;
        let mut k: usize = 0;
        while k < roots.len()
            invariant
                0 <= k <= roots@.len(),
                self.wf(),
                self.config == old(self).config,
                self.storage.config == old(self).storage.config,
                without_slots(g0, self@, gone),
                records_of(g0, removed@, gone),
                forall|x: StorageIndex| gone0.contains(x) ==> gone.contains(x),
                forall|x: StorageIndex| gone.contains(x) ==> gone0.contains(x) || below(
                    g0,
                    roots@,
                    x,
                ),
                forall|j: int| 0 <= j < k ==> !live(self@, #[trigger] roots@[j]),
                k == 0 ==> *self == *old(self) && removed@ == old(removed)@ && gone == gone0,
            decreases roots@.len() - k,
        {
            let root = roots[k];
            let ghost cur = self@;
            let ghost records0 = removed@;
            let mut left = self.displace(root);
            let ghost left_records = left@;
            removed.append(&mut left);
            proof {
                if live(cur, root) {
                    let slots = choose|slots: Seq<StorageIndex>| #[trigger]
                        subtree_removed(cur, self@, root, left_records, slots);
                    lemma_without_slots_compose(
                        g0,
                        cur,
                        self@,
                        gone,
                        slots,
                        records0,
                        left_records,
                    );
                    let gone2 = gone + slots;
                    assert forall|x: StorageIndex| gone2.contains(x) implies gone0.contains(x)
                        || below(g0, roots@, x) by {
                        let j = choose|j: int| 0 <= j < gone2.len() && gone2[j] == x;
                        if j < gone.len() {
                            assert(gone[j] == x);
                            assert(gone.contains(x));
                        } else {
                            assert(slots[j - gone.len()] == x);
                            assert(slots.contains(x));
                            assert(reaches(cur, root, x));
                            lemma_reaches_before_removal(g0, cur, gone, root, x);
                            assert(reaches(g0, roots@[k as int], x));
                        }
                    }
                    assert forall|x: StorageIndex| gone0.contains(x) implies gone2.contains(x) by {
                        assert(gone.contains(x));
                        let j = choose|j: int| 0 <= j < gone.len() && gone[j] == x;
                        assert(gone2[j] == x);
                    }
                    crate::storage::reach::lemma_reaches_self(cur, root);
                    assert(slots.contains(root));
                    gone = gone2;
                } else {
                    assert(removed@ == records0);
                }
                assert forall|j: int| 0 <= j < k + 1 implies !live(self@, #[trigger] roots@[j]) by {
                    if j < k {
                        assert(!live(cur, roots@[j]));
                    }
                }
            }
            k += 1;
        }
        Ghost(gone)
    }

    /// Inserts a transaction into the pool, at the given instant.
    ///
    /// Returns the transactions that have left the pool for it, or the
    /// first check that the transaction fails; then the pool is as it was.
    pub fn insert(&mut self, tx: PoolTx, view: &PersistentView, creation_instant: u64) -> (r: Result<
        Vec<PoolTx>,
        Error,
    >)
        requires
            old(self).wf(),
        ensures
            final(self).wf(),
            final(self).config == old(self).config,
            final(self).storage.config == old(self).storage.config,
            r matches Err(e) ==> *final(self) == *old(self) && refused(*old(self), *view, tx, e),
            r is Ok ==> passes(*old(self), *view, tx, 8),
            r is Ok ==> room_for(*old(self), tx) is Some,
            r matches Ok(removed) ==> joined(
                *old(self),
                final(self)@,
                tx,
                creation_instant,
                removed@,
            ),
    {
        let plan = match self.can_insert_transaction(tx, view) {
            Err(e) => {
                return Err(e);
            },
            Ok(plan) => plan,
        };
        let removed = self.commit(plan, creation_instant, Ghost(tx), Ghost(*view));
        Ok(removed)
    }

    /// Carries out the decision to admit a candidate: what has to leave
    /// leaves, and the candidate is stored and listed.
    pub(crate) fn commit(
        &mut self,
        plan: CanStoreTransaction,
        creation_instant: u64,
        Ghost(tx): Ghost<PoolTx>,
        Ghost(view): Ghost<PersistentView>,
    ) -> (removed: Vec<PoolTx>)
        requires
            old(self).wf(),
            admitted(*old(self), view, tx, plan),
        ensures
            final(self).wf(),
            final(self).config == old(self).config,
            final(self).storage.config == old(self).storage.config,
            joined(*old(self), final(self)@, tx, creation_instant, removed@),
    {
        let ghost g0 = self@;
        let ghost pool0 = *self;
        let ghost claims0 = self.collision_manager@;
        let CanStoreTransaction { checked_transaction, transactions_to_remove, collisions } = plan;
        let dependent = checked_transaction.has_dependencies();
        let colliders = collisions.storage_ids();
        let ghost candidate = checked_transaction.tx;
        let ghost max = self.storage.config.max_txs_chain_count;
        proof {
            lemma_has_dependencies(g0, self.storage.ages@, max, checked_transaction);
            assert(without_slots(g0, g0, Seq::<StorageIndex>::empty()));
        }
        let mut removed_records: Vec<StorageData> = Vec::new();
        let Ghost(gone1) = self.displace_all(
            &transactions_to_remove,
            &mut removed_records,
            Ghost(g0),
            Ghost(Seq::empty()),
        );
        let Ghost(gone) = self.displace_all(&colliders, &mut removed_records, Ghost(g0), Ghost(gone1));
        let ghost h = self@;
        let ghost index1 = self.tx_id_to_storage_id@;
        let ghost claims1 = self.collision_manager@;
        let ghost sel1 = self.selection_algorithm@;
        proof {
            // What collides with the candidate, and what makes room for it, has left.
            assert forall|root: StorageIndex| roots_for(pool0, candidate, root) implies !live(
                h,
                root,
            ) by {
                if collides(claims0, candidate, root) {
                    assert(collisions.has(root));
                    let j = choose|j: int|
                        0 <= j < collisions@.len() && (#[trigger] collisions@[j]).storage_id
                            == root;
                    assert(colliders@[j] == root);
                } else {
                    let j = choose|j: int|
                        0 <= j < transactions_to_remove@.len() && transactions_to_remove@[j]
                            == root;
                    assert(gone1.contains(root) || !live(g0, root)) by {
                        assert(transactions_to_remove@[j] == root);
                    }
                }
            }
            // The candidate depends in what is left on what it depended on before.
            if dependent {
                assert(transactions_to_remove@.len() == 0) by {
                    if transactions_to_remove@.len() > 0 {
                        crate::pool::admission::lemma_room_without_dependencies(pool0, candidate);
                    }
                }
                assert(collisions@.len() == 0) by {
                    if collisions@.len() > 0 {
                        let i = collisions@[0].storage_id;
                        let c = Claim { resource: collisions@[0].resource, owner: i };
                        assert(claims0.contains(c));
                        let x = choose|x: int| 0 <= x < claims0.len() && claims0[x] == c;
                        assert(claims0[x].owner == i && candidate.claims(claims0[x].resource));
                        assert(collides(claims0, candidate, i));
                    }
                }
                assert(h == g0);
            } else {
                assert forall|p: StorageIndex| !depends_on(h, candidate, p) by {
                    if depends_on(h, candidate, p) {
                        assert(live(h, p));
                        assert(depends_on(g0, candidate, p));
                    }
                }
                assert forall|a: StorageIndex|
                    !above(h, checked_transaction.direct_dependencies@, a) by {}
                assert(checked_transaction.all_dependencies@ =~= Seq::<StorageIndex>::empty());
                assert(checked_transaction.direct_dependencies@ =~= Seq::<StorageIndex>::empty());
            }
            assert(checked_transaction.valid_for(h, self.storage.ages@, max));
            assert(!contains_id(h, candidate.id)) by {
                if contains_id(h, candidate.id) {
                    let i = choose|i: StorageIndex| #[trigger]
                        live(h, i) && node(h, i).transaction.id == candidate.id;
                    assert(live(g0, i));
                    assert(contains_id(g0, candidate.id));
                }
            }
        }
        let tx_id = checked_transaction.tx().id;
        let gas = checked_transaction.tx().max_gas;
        let bytes_size = checked_transaction.tx().metered_bytes_size;
        let ghost direct = checked_transaction.direct_dependencies@;
        let storage_id = self.storage.store_transaction(checked_transaction, creation_instant);
        let ghost gf = self@;
        proof {
            lemma_pool_total_bounds(gf, Measure::Gas);
            lemma_pool_total_bounds(gf, Measure::Bytes);
            assert(gf.len() * u64::MAX <= u128::MAX) by (nonlinear_arith)
                requires
                    gf.len() <= u64::MAX,
            ;
            assert(pool_total(gf, Measure::Gas) == pool_total(h, Measure::Gas) + weight(
                candidate,
                Measure::Gas,
            ));
            assert(pool_total(gf, Measure::Bytes) == pool_total(h, Measure::Bytes) + weight(
                candidate,
                Measure::Bytes,
            ));
            assert(!lists_id(index1, tx_id)) by {
                if lists_id(index1, tx_id) {
                    let x = choose|x: int|
                        0 <= x < index1.len() && (#[trigger] index1[x]).id == tx_id;
                    assert(live(h, index1[x].slot));
                }
            }
        }
        self.current_gas = self.current_gas + gas as u128;
        self.current_bytes_size = self.current_bytes_size + bytes_size as u128;
        self.tx_id_to_storage_id.insert(tx_id, storage_id);
        match self.storage.get(storage_id) {
            Some(data) => {
                self.collision_manager.on_stored_transaction(storage_id, &data.transaction);
                // Without dependencies the candidate is executable at once.
                if !dependent {
                    self.selection_algorithm.new_executable_transaction(storage_id, data);
                }
            },
            None => {},
        }
        proof {
            lemma_caches_after_store(
                h,
                gf,
                storage_id,
                candidate,
                dependent,
                index1,
                self.tx_id_to_storage_id@,
                claims1,
                self.collision_manager@,
                sel1,
                self.selection_algorithm@,
            );
        }
        let removed = into_transactions(removed_records);
        proof {
            let roots = transactions_to_remove@ + colliders@;
            assert(placed(g0, gf, storage_id, candidate, creation_instant, gone)) by {
                assert(!live(h, storage_id));
                assert(live(h, storage_id) <==> (live(g0, storage_id) && !gone.contains(
                    storage_id,
                )));
                assert forall|p: StorageIndex|
                    node(gf, storage_id).parents@.contains(p) <==> depends_on(g0, candidate, p) by {
                    if dependent {
                        assert(h == g0);
                    } else {
                        if depends_on(g0, candidate, p) {
                            assert(has_dependencies(g0, candidate));
                        }
                    }
                }
                assert forall|i: StorageIndex| i != storage_id implies (#[trigger] live(gf, i) <==> (
                live(g0, i) && !gone.contains(i))) by {
                    assert(live(h, i) == live(gf, i));
                }
                assert forall|i: StorageIndex| i != storage_id && #[trigger] live(gf, i) implies node(
                    gf,
                    i,
                ).transaction == node(g0, i).transaction && node(gf, i).creation_instant == node(
                    g0,
                    i,
                ).creation_instant && node(gf, i).parents@ == node(g0, i).parents@ by {
                    assert(live(h, i) == live(gf, i));
                    assert(live(h, i));
                }
            }
            assert forall|x: StorageIndex|
                gone.contains(x) <==> exists|root: StorageIndex|
                    roots_for(pool0, candidate, root) && #[trigger] reaches(g0, root, x) by {
                if gone.contains(x) {
                    if gone1.contains(x) {
                        let j = choose|j: int|
                            0 <= j < transactions_to_remove@.len() && reaches(
                                g0,
                                #[trigger] transactions_to_remove@[j],
                                x,
                            );
                        let root = transactions_to_remove@[j];
                        assert(transactions_to_remove@.contains(root));
                        assert(roots_for(pool0, candidate, root) && reaches(g0, root, x));
                    } else {
                        let j = choose|j: int|
                            0 <= j < colliders@.len() && reaches(g0, #[trigger] colliders@[j], x);
                        let root = colliders@[j];
                        let c = Claim { resource: collisions@[j].resource, owner: root };
                        assert(collisions@[j].storage_id == root);
                        assert(claims0.contains(c));
                        let y = choose|y: int| 0 <= y < claims0.len() && claims0[y] == c;
                        assert(claims0[y].owner == root && candidate.claims(claims0[y].resource));
                        assert(collides(claims0, candidate, root));
                        assert(roots_for(pool0, candidate, root) && reaches(g0, root, x));
                    }
                }
                if exists|root: StorageIndex|
                    roots_for(pool0, candidate, root) && #[trigger] reaches(g0, root, x) {
                    let root = choose|root: StorageIndex|
                        roots_for(pool0, candidate, root) && #[trigger] reaches(g0, root, x);
                    assert(!live(h, root));
                    lemma_cascade(g0, h, gone, root, x);
                    lemma_reaches_live(g0, root, x);
                    assert(live(h, x) <==> (live(g0, x) && !gone.contains(x)));
                }
            }
            assert(inserted(pool0, gf, candidate, creation_instant, gone, removed@)) by {
                assert forall|j: int| 0 <= j < gone.len() implies live(g0, #[trigger] gone[j])
                    && removed@[j] == node(g0, gone[j]).transaction by {
                    assert(removed@[j] == removed_records@[j].transaction);
                }
            }
            assert(inserted(*old(self), self@, tx, creation_instant, gone, removed@));
        }
        removed
    }
}

impl Pool {
    /// Takes the transactions of the next block out of the pool, best
    /// first, at the given gas price.
    pub fn extract_transactions_for_block(&mut self, gas_price: u64) -> (txs: Vec<PoolTx>)
        requires
            old(self).wf(),
        ensures
            final(self).wf(),
            final(self).config == old(self).config,
            final(self).storage.config == old(self).storage.config,
            taken(
                old(self)@,
                final(self)@,
                old(self).selection_algorithm@,
                block_constraints(old(self).config.max_block_gas, gas_price),
                txs@,
            ),
    {
        let ghost g0 = self@;
        let ghost index0 = self.tx_id_to_storage_id@;
        let ghost claims0 = self.collision_manager@;
        let ghost sel0 = self.selection_algorithm@;
        let constraints = Constraints {
            minimal_gas_price: gas_price,
            max_gas: self.config.max_block_gas,
            maximum_txs: u16::MAX,
            maximum_block_size: u32::MAX,
        };
        let extracted_transactions = self.selection_algorithm.gather_best_txs(
            constraints,
            &mut self.storage,
        );
        let ghost h = self@;
        let ghost sel1 = self.selection_algorithm@;
        let ghost slots = choose|slots: Seq<StorageIndex>| #[trigger]
            gathered(g0, h, sel0, constraints, slots, extracted_transactions@);
        proof {
            lemma_pool_total_bounds(h, Measure::Gas);
            lemma_pool_total_bounds(h, Measure::Bytes);
            lemma_records_total_count(extracted_transactions@);
            assert(pool_total(h, Measure::Count) == pool_total(g0, Measure::Count)
                - records_total(extracted_transactions@, Measure::Count));
        }
        self.update_components_and_caches_on_removal(
            &extracted_transactions,
            Ghost(g0),
            Ghost(slots),
        );
        proof {
            assert(survivors(g0, h, slots));
            lemma_ids_and_claims_after_removal(
                g0,
                h,
                slots,
                extracted_transactions@,
                index0,
                self.tx_id_to_storage_id@,
                claims0,
                self.collision_manager@,
            );
            lemma_selection_after_extraction(
                g0,
                h,
                slots,
                extracted_transactions@,
                sel1,
                self.selection_algorithm@,
            );
        }
        let ghost records = extracted_transactions@;
        let txs = into_transactions(extracted_transactions);
        proof {
            assert(extraction(g0, h, sel0, constraints, slots, records, txs@));
        }
        txs
    }

    /// The slots of the pool transactions with the given ids.
    pub(crate) fn slots_of(&self, tx_ids: &Vec<TxId>) -> (roots: Vec<StorageIndex>)
        requires
            self.wf(),
        ensures
            forall|j: int| 0 <= j < roots@.len() ==> named(self@, tx_ids@, #[trigger] roots@[j]),
            forall|root: StorageIndex|
                #![trigger live(self@, root)]
                named(self@, tx_ids@, root) ==> roots@.contains(root),
    {
        let ghost g0 = self@;
        let mut roots: Vec<StorageIndex> = Vec::new();
        let mut k: usize = 0;
        while k < tx_ids.len()
            invariant
                0 <= k <= tx_ids@.len(),
                self.wf(),
                g0 == self@,
                forall|j: int| 0 <= j < roots@.len() ==> named(g0, tx_ids@, #[trigger] roots@[j]),
                forall|root: StorageIndex|
                    #![trigger live(g0, root)]
                    live(g0, root) && crate::selection_algorithms::ratio_tip_gas::occurs_id(
                        tx_ids@,
                        k as int,
                        node(g0, root).transaction.id,
                    ) ==> roots@.contains(root),
            decreases tx_ids@.len() - k,
        {
            let ghost roots0 = roots@;
            let found = self.tx_id_to_storage_id.get(&tx_ids[k]);
            match found {
                Some(slot) => {
                    roots.push(slot);
                    proof {
                        let e = IdEntry { id: tx_ids@[k as int], slot };
                        let index = self.tx_id_to_storage_id@;
                        let x = choose|x: int| 0 <= x < index.len() && index[x] == e;
                        assert(live(g0, index[x].slot));
                        assert(tx_ids@.contains(tx_ids@[k as int]));
                        assert forall|j: int| 0 <= j < roots@.len() implies named(
                            g0,
                            tx_ids@,
                            #[trigger] roots@[j],
                        ) by {
                            if j < roots0.len() {
                                assert(roots@[j] == roots0[j]);
                            }
                        }
                    }
                },
                None => {},
            }
            proof {
                assert forall|root: StorageIndex|
                    #![trigger live(g0, root)]
                    live(g0, root) && crate::selection_algorithms::ratio_tip_gas::occurs_id(
                        tx_ids@,
                        k + 1,
                        node(g0, root).transaction.id,
                    ) implies roots@.contains(root) by {
                    let id = node(g0, root).transaction.id;
                    let x = choose|x: int| 0 <= x < k + 1 && #[trigger] tx_ids@[x] == id;
                    if x < k {
                        assert(tx_ids@[x] == id);
                        assert(crate::selection_algorithms::ratio_tip_gas::occurs_id(
                            tx_ids@,
                            k as int,
                            id,
                        ));
                        assert(roots0.contains(root));
                        let y = choose|y: int| 0 <= y < roots0.len() && roots0[y] == root;
                        assert(roots@[y] == root);
                    } else {
                        let index = self.tx_id_to_storage_id@;
                        let e = IdEntry { id, slot: root };
                        assert(index.contains(e));
                        let z = choose|z: int| 0 <= z < index.len() && index[z] == e;
                        assert(index[z].id == id);
                        assert(lists_id(index, id));
                        let slot = found->0;
                        let e2 = IdEntry { id, slot };
                        let z2 = choose|z2: int| 0 <= z2 < index.len() && index[z2] == e2;
                        assert(index[z].id == index[z2].id);
                        assert(z == z2);
                        assert(roots@[roots0.len() as int] == root);
                    }
                }
            }
            k += 1;
        }
        proof {
            assert forall|root: StorageIndex|
                #![trigger live(g0, root)]
                named(g0, tx_ids@, root) implies roots@.contains(root) by {
                let id = node(g0, root).transaction.id;
                let y = choose|y: int| 0 <= y < tx_ids@.len() && tx_ids@[y] == id;
                assert(tx_ids@[y] == id);
                assert(crate::selection_algorithms::ratio_tip_gas::occurs_id(
                    tx_ids@,
                    tx_ids@.len() as int,
                    id,
                ));
            }
        }
        roots
    }

    /// Removes the transactions with the given ids from the pool, each
    /// with all its dependents, and returns what was removed.
    pub fn remove_transaction(&mut self, tx_ids: Vec<TxId>) -> (removed: Vec<PoolTx>)
        requires
            old(self).wf(),
        ensures
            final(self).wf(),
            final(self).config == old(self).config,
            final(self).storage.config == old(self).storage.config,
            left(old(self)@, final(self)@, tx_ids@, removed@),
    {
        let ghost g0 = self@;
        let roots = self.slots_of(&tx_ids);
        let mut removed_records: Vec<StorageData> = Vec::new();
        proof {
            assert(without_slots(g0, g0, Seq::<StorageIndex>::empty()));
        }
        let Ghost(gone) = self.displace_all(&roots, &mut removed_records, Ghost(g0), Ghost(Seq::empty()));
        let ghost h = self@;
        let ghost records = removed_records@;
        let removed = into_transactions(removed_records);
        proof {
            lemma_removal(g0, h, tx_ids@, roots@, gone, records, removed@);
        }
        removed
    }
}

/// What left the pool with the named transactions is what they reach.
proof fn lemma_removal(
    g: Nodes,
    h: Nodes,
    ids: Seq<TxId>,
    roots: Seq<StorageIndex>,
    gone: Seq<StorageIndex>,
    records: Seq<StorageData>,
    removed: Seq<PoolTx>,
)
    requires
        crate::storage::links_wf(g),
        crate::storage::links_wf(h),
        without_slots(g, h, gone),
        records_of(g, records, gone),
        removed.len() == records.len(),
        forall|j: int| 0 <= j < removed.len() ==> #[trigger] removed[j] == records[j].transaction,
        forall|j: int| 0 <= j < roots.len() ==> named(g, ids, #[trigger] roots[j]),
        forall|root: StorageIndex|
            #![trigger live(g, root)]
            named(g, ids, root) ==> roots.contains(root),
        forall|x: StorageIndex| gone.contains(x) ==> below(g, roots, x),
        forall|j: int| 0 <= j < roots.len() ==> !live(h, #[trigger] roots[j]),
    ensures
        removal(g, h, ids, gone, removed),
{
    assert forall|x: StorageIndex|
        gone.contains(x) <==> exists|root: StorageIndex|
            named(g, ids, root) && #[trigger] reaches(g, root, x) by {
        if gone.contains(x) {
            let j = choose|j: int| 0 <= j < roots.len() && reaches(g, #[trigger] roots[j], x);
            assert(named(g, ids, roots[j]) && reaches(g, roots[j], x));
        }
        if exists|root: StorageIndex| named(g, ids, root) && #[trigger] reaches(g, root, x) {
            let root = choose|root: StorageIndex|
                named(g, ids, root) && #[trigger] reaches(g, root, x);
            assert(live(g, root));
            assert(roots.contains(root));
            let j = choose|j: int| 0 <= j < roots.len() && roots[j] == root;
            assert(!live(h, roots[j]));
            lemma_cascade(g, h, gone, root, x);
            lemma_reaches_live(g, root, x);
            assert(live(h, x) <==> (live(g, x) && !gone.contains(x)));
        }
    }
    assert forall|j: int| 0 <= j < gone.len() implies live(g, #[trigger] gone[j]) && removed[j]
        == node(g, gone[j]).transaction by {
        assert(removed[j] == records[j].transaction);
    }
}

/// After the candidate is stored and listed, the id index, the claims and
/// the selection index match the storage again.
pub proof fn lemma_caches_after_store(
    h: Nodes,
    gf: Nodes,
    k: StorageIndex,
    tx: PoolTx,
    dependent: bool,
    index1: Seq<IdEntry>,
    index: Seq<IdEntry>,
    claims1: Seq<Claim>,
    claims: Seq<Claim>,
    sel1: Seq<Entry>,
    sel: Seq<Entry>,
)
    requires
        leaf_step(h, gf, k),
        node(gf, k).transaction == tx,
        dependent == (node(gf, k).parents@.len() > 0),
        tx.max_gas != 0,
        !contains_id(h, tx.id),
        ids_match(index1, h),
        claims_match(claims1, h),
        selection_match(sel1, h),
        forall|i: StorageIndex| #[trigger] collides(claims1, tx, i) ==> !live(h, i),
        index == index1.push(IdEntry { id: tx.id, slot: k }),
        crate::pool::ids_wf(index),
        crate::collision_manager::claims_wf(claims),
        forall|c: Claim| #[trigger]
            claims.contains(c) <==> ((claims1.contains(c) && !tx.claims(c.resource)) || (
            tx.claims(c.resource) && c.owner == k)),
        sorted(sel),
        dependent ==> sel == sel1,
        !dependent ==> forall|e: Entry| #[trigger]
            sel.contains(e) <==> ((sel1.contains(e) && !(e.key.order(
                key_of(node(gf, k)),
            ) is Equal)) || e == entry_of(gf, k)),
    ensures
        ids_match(index, gf),
        claims_match(claims, gf),
        selection_match(sel, gf),
{
    assert forall|i: StorageIndex| i != k implies #[trigger] live(gf, i) == live(h, i) by {
        assert(live(h, i) == live(gf, i));
    }
    assert forall|i: StorageIndex| #[trigger] live(h, i) implies i != k && live(gf, i) && node(
        gf,
        i,
    ).transaction == node(h, i).transaction && node(gf, i).creation_instant == node(
        h,
        i,
    ).creation_instant && node(gf, i).parents@ == node(h, i).parents@ by {}
    // ids
    assert forall|x: int| 0 <= x < index.len() implies live(gf, (#[trigger] index[x]).slot) && node(
        gf,
        index[x].slot,
    ).transaction.id == index[x].id by {
        if x < index1.len() {
            assert(index[x] == index1[x]);
            assert(live(h, index1[x].slot));
        }
    }
    assert forall|i: StorageIndex| #[trigger] live(gf, i) implies index.contains(
        IdEntry { id: node(gf, i).transaction.id, slot: i },
    ) by {
        let e = IdEntry { id: node(gf, i).transaction.id, slot: i };
        if i == k {
            assert(index[index1.len() as int] == e);
        } else {
            assert(live(h, i));
            assert(index1.contains(e));
            let x = choose|x: int| 0 <= x < index1.len() && index1[x] == e;
            assert(index[x] == e);
        }
    }
    // claims
    assert forall|x: int| 0 <= x < claims.len() implies live(gf, (#[trigger] claims[x]).owner)
        && node(gf, claims[x].owner).transaction.claims(claims[x].resource) by {
        let c = claims[x];
        assert(claims.contains(c));
        if claims1.contains(c) && !tx.claims(c.resource) {
            let y = choose|y: int| 0 <= y < claims1.len() && claims1[y] == c;
            assert(live(h, claims1[y].owner));
        }
    }
    assert forall|i: StorageIndex, r: Resource|
        live(gf, i) && #[trigger] node(gf, i).transaction.claims(r) implies claims.contains(
        Claim { resource: r, owner: i },
    ) by {
        let c = Claim { resource: r, owner: i };
        if i != k {
            assert(live(h, i));
            assert(node(h, i).transaction.claims(r));
            assert(claims1.contains(c));
            if tx.claims(r) {
                let y = choose|y: int| 0 <= y < claims1.len() && claims1[y] == c;
                assert(claims1[y].owner == i && tx.claims(claims1[y].resource));
                assert(collides(claims1, tx, i));
            }
        }
    }
    // selection
    assert forall|x: int| 0 <= x < sel.len() implies live(gf, (#[trigger] sel[x]).storage_id) by {
        let e = sel[x];
        assert(sel.contains(e));
        if sel1.contains(e) {
            let y = choose|y: int| 0 <= y < sel1.len() && sel1[y] == e;
            assert(live(h, sel1[y].storage_id));
        }
    }
    assert forall|x: int| 0 <= x < sel.len() && live(gf, (#[trigger] sel[x]).storage_id) implies node(
        gf,
        sel[x].storage_id,
    ).parents@.len() == 0 && sel[x] == entry_of(gf, sel[x].storage_id) by {
        let e = sel[x];
        assert(sel.contains(e));
        if sel1.contains(e) {
            let y = choose|y: int| 0 <= y < sel1.len() && sel1[y] == e;
            assert(live(h, sel1[y].storage_id));
        }
    }
    assert forall|i: StorageIndex|
        #![trigger live(gf, i)]
        live(gf, i) && node(gf, i).parents@.len() == 0 implies sel.contains(entry_of(gf, i)) by {
        if i != k {
            assert(live(h, i));
            assert(sel1.contains(entry_of(h, i)));
            assert(entry_of(h, i) == entry_of(gf, i));
            if !dependent {
                if entry_of(gf, i).key.order(key_of(node(gf, k))) is Equal {
                    lemma_key_order_equal(entry_of(gf, i).key, key_of(node(gf, k)));
                    assert(node(h, i).transaction.id == tx.id);
                    assert(contains_id(h, tx.id));
                }
            }
        }
    }
}

} // verus!
