//! The rules by which the pool admits a transaction.

use vstd::prelude::*;
use crate::collision_manager::{collides, Claim, Collisions};
use crate::config::PoolLimits;
use crate::error::Error;
use crate::pool::Pool;
use crate::ports::PersistentView;
use crate::ratio::{compare_ratios, ratio_order, Order};
use crate::selection_algorithms::ratio_tip_gas::Entry;
use crate::storage::checked::{
    chain_too_long, depends_on, is_ancestor, lemma_above_is_ancestor, CheckedTransaction,
};
use crate::storage::inputs::inputs_error;
use crate::storage::reach::{
    lemma_pool_total_bounds, lemma_reaches_self, lemma_subtree_total_bounds,
};
use crate::storage::{above, aggregate, live, node, reaches, subtree_total, Measure, Nodes};
use crate::types::{BlobId, PoolTx, StorageIndex, TxId, TxKind};

verus! {

/// What the pool would hold with a candidate, where that is more than it
/// may hold.
#[derive(Clone, Copy, Debug, PartialEq, Eq)]
pub struct NotEnoughSpace {
    pub gas_left: u128,
    pub bytes_left: u128,
    pub txs_left: u128,
}

/// Whether the pool has room for a candidate.
#[derive(Clone, Copy, Debug, PartialEq, Eq)]
pub enum SpaceCheckResult {
    EnoughSpace,
    NotEnoughSpace(NotEnoughSpace),
}

/// The pool's decision to admit a candidate, and what has to leave for it.
#[derive(Debug)]
pub struct CanStoreTransaction {
    /// The candidate, with its place in the dependency graph.
    pub checked_transaction: CheckedTransaction,
    /// The transactions that leave, with their dependents, to make room.
    pub transactions_to_remove: Vec<StorageIndex>,
    /// The transactions that leave, with their dependents, because the
    /// candidate claims their resources.
    pub collisions: Collisions,
}

impl CanStoreTransaction {
    /// Gives the candidate back.
    pub fn into_transaction(self) -> (tx: PoolTx)
        ensures
            tx == self.checked_transaction.tx,
    {
        self.checked_transaction.into_tx()
    }
}

/// The three amounts are within the limits.
pub open spec fn fits(limits: PoolLimits, gas: int, bytes: int, txs: int) -> bool {
    gas <= limits.max_gas && bytes <= limits.max_bytes_size && txs <= limits.max_txs
}

/// `a - b`, or zero where that is negative.
pub open spec fn minus(a: int, b: int) -> int {
    if a >= b {
        a - b
    } else {
        0
    }
}

/// The slots of the index from the least worth entry upward.
pub open spec fn less_worth(sel: Seq<Entry>) -> Seq<StorageIndex> {
    Seq::new(sel.len(), |k: int| sel[sel.len() - 1 - k].storage_id)
}

/// The stored transaction `i`, with its dependents, is worth more per gas
/// than a candidate with the given tip and gas.
pub open spec fn worth_more(g: Nodes, i: StorageIndex, tip: u64, gas: u64) -> bool {
    ratio_order(
        node(g, i).dependents_cumulative_tip,
        node(g, i).dependents_cumulative_gas,
        tip as u128,
        gas as u128,
    ) is Greater
}

/// The transactions that leave to make room: walking `order` from
/// position `from`, each stored transaction leaves, and what it holds with
/// its dependents is taken from the three amounts, until the amounts are
/// within the limits. There is no room where the walk ends before that, or
/// meets a transaction that is worth more than the candidate.
pub open spec fn victims_from(
    g: Nodes,
    limits: PoolLimits,
    order: Seq<StorageIndex>,
    from: int,
    gas: int,
    bytes: int,
    txs: int,
    tip: u64,
    max_gas: u64,
) -> Option<Seq<StorageIndex>>
    decreases order.len() - from,
{
    if fits(limits, gas, bytes, txs) {
        Some(Seq::empty())
    } else if from < 0 || from >= order.len() {
        None
    } else if !live(g, order[from]) {
        victims_from(g, limits, order, from + 1, gas, bytes, txs, tip, max_gas)
    } else if worth_more(g, order[from], tip, max_gas) {
        None
    } else {
        let data = node(g, order[from]);
        match victims_from(
            g,
            limits,
            order,
            from + 1,
            minus(gas, data.dependents_cumulative_gas as int),
            minus(bytes, data.dependents_cumulative_bytes_size as int),
            minus(txs, data.number_dependents_in_chain as int),
            tip,
            max_gas,
        ) {
            Some(rest) => Some(seq![order[from]] + rest),
            None => None,
        }
    }
}

/// The candidate depends on a stored transaction.
pub open spec fn has_dependencies(g: Nodes, tx: PoolTx) -> bool {
    exists|p: StorageIndex| #[trigger] depends_on(g, tx, p)
}

/// The candidate may displace the stored transaction `i`: it depends on
/// nothing, and it is worth strictly more per gas than `i` with its
/// dependents.
pub open spec fn displaces(g: Nodes, tx: PoolTx, i: StorageIndex) -> bool {
    !has_dependencies(g, tx) && ratio_order(
        tx.tip as u128,
        tx.max_gas as u128,
        node(g, i).dependents_cumulative_tip,
        node(g, i).dependents_cumulative_gas,
    ) is Greater
}

/// The id of the blob that a transaction uploads.
pub open spec fn blob_of(tx: PoolTx) -> Option<BlobId> {
    match tx.kind {
        TxKind::Blob { blob_id } => Some(blob_id),
        _ => None,
    }
}

/// How far a candidate gets in the checks of the pool: stage `n` means that
/// the first `n` checks pass. The checks, in order: the candidate may use
/// some gas; its id is new; no input is banned; its blob does not exist yet;
/// its inputs can be spent and read; no chain becomes too long; it depends
/// on no transaction that it collides with; it may displace every
/// transaction that it collides with.
pub open spec fn passes(pool: Pool, view: PersistentView, tx: PoolTx, stage: int) -> bool {
    &&& stage >= 1 ==> tx.max_gas != 0
    &&& stage >= 2 ==> !pool.holds_id(tx.id)
    &&& stage >= 3 ==> !pool.config.black_list.bans(tx)
    &&& stage >= 4 ==> !(blob_of(tx) is Some && view.blobs@.contains(blob_of(tx)->0))
    &&& stage >= 5 ==> inputs_error(pool@, view, pool.config.utxo_validation, tx) is None
    &&& stage >= 6 ==> !chain_too_long(
        pool@,
        pool.storage.ages@,
        pool.storage.config.max_txs_chain_count,
        tx,
    )
    &&& stage >= 7 ==> forall|i: StorageIndex| #[trigger]
        collides(pool.collision_manager@, tx, i) ==> !is_ancestor(pool@, tx, i)
    &&& stage >= 8 ==> forall|i: StorageIndex| #[trigger]
        collides(pool.collision_manager@, tx, i) ==> displaces(pool@, tx, i)
}

/// The transactions that leave to make room for a candidate, or `None`
/// where there is no room for it.
pub open spec fn room_for(pool: Pool, tx: PoolTx) -> Option<Seq<StorageIndex>> {
    let gas = pool.current_gas + tx.max_gas;
    let bytes = pool.current_bytes_size + tx.metered_bytes_size;
    let txs = pool.tx_id_to_storage_id@.len() as int + 1;
    if fits(pool.config.pool_limits, gas, bytes, txs) {
        Some(Seq::empty())
    } else if has_dependencies(pool@, tx) {
        None
    } else {
        victims_from(
            pool@,
            pool.config.pool_limits,
            less_worth(pool.selection_algorithm@),
            0,
            gas,
            bytes,
            txs,
            tx.tip,
            tx.max_gas,
        )
    }
}

/// The error names the first check that the candidate fails.
pub open spec fn refused(pool: Pool, view: PersistentView, tx: PoolTx, e: Error) -> bool {
    match e {
        Error::ZeroMaxGas => tx.max_gas == 0,
        Error::DuplicateTxId(id) => passes(pool, view, tx, 1) && pool.holds_id(tx.id) && id
            == tx.id,
        Error::Blacklisted => passes(pool, view, tx, 2) && pool.config.black_list.bans(tx),
        Error::BlobIdAlreadyTaken(blob_id) => passes(pool, view, tx, 3) && blob_of(tx) == Some(
            blob_id,
        ) && view.blobs@.contains(blob_id),
        Error::NotInsertedInputsInvalid(detail) => passes(pool, view, tx, 4) && inputs_error(
            pool@,
            view,
            pool.config.utxo_validation,
            tx,
        ) == Some(detail),
        Error::ChainTooLong => passes(pool, view, tx, 5) && chain_too_long(
            pool@,
            pool.storage.ages@,
            pool.storage.config.max_txs_chain_count,
            tx,
        ),
        Error::NotInsertedCollisionIsDependency => passes(pool, view, tx, 6) && exists|
            i: StorageIndex,
        | #[trigger]
            collides(pool.collision_manager@, tx, i) && is_ancestor(pool@, tx, i),
        Error::Collided(id) => passes(pool, view, tx, 7) && exists|i: StorageIndex| #[trigger]
            collides(pool.collision_manager@, tx, i) && !displaces(pool@, tx, i) && node(
                pool@,
                i,
            ).transaction.id == id,
        Error::NotInsertedLimitHit => passes(pool, view, tx, 8) && room_for(pool, tx) is None,
    }
}

/// The decision admits the candidate: every check passes, the decision
/// names the transactions that the candidate collides with, and those that
/// leave to make room.
pub open spec fn admitted(pool: Pool, view: PersistentView, tx: PoolTx, plan: CanStoreTransaction) -> bool {
    &&& passes(pool, view, tx, 8)
    &&& plan.checked_transaction.tx == tx
    &&& plan.checked_transaction.valid_for(
        pool@,
        pool.storage.ages@,
        pool.storage.config.max_txs_chain_count,
    )
    &&& plan.collisions.valid_for(pool.collision_manager@, tx)
    &&& room_for(pool, tx) == Some(plan.transactions_to_remove@)
}

/// The candidate has dependencies exactly where its list of direct
/// dependencies is not empty.
pub proof fn lemma_has_dependencies(
    g: Nodes,
    ages: Seq<nat>,
    max: usize,
    checked: CheckedTransaction,
)
    requires
        checked.valid_for(g, ages, max),
    ensures
        has_dependencies(g, checked.tx) <==> checked.all_dependencies@.len() > 0,
        has_dependencies(g, checked.tx) <==> checked.direct_dependencies@.len() > 0,
{
    let direct = checked.direct_dependencies@;
    let all = checked.all_dependencies@;
    if has_dependencies(g, checked.tx) {
        let p = choose|p: StorageIndex| #[trigger] depends_on(g, checked.tx, p);
        assert(direct.contains(p));
        let m = choose|m: int| 0 <= m < direct.len() && direct[m] == p;
        lemma_reaches_self(g, p);
        assert(reaches(g, p, direct[m]));
        assert(above(g, direct, p));
        assert(all.contains(p));
    }
    if all.len() > 0 {
        assert(all.contains(all[0]));
        assert(above(g, direct, all[0]));
        let m = choose|m: int| 0 <= m < direct.len() && reaches(g, all[0], #[trigger] direct[m]);
        assert(direct.contains(direct[m]));
        assert(depends_on(g, checked.tx, direct[m]));
    }
    if direct.len() > 0 {
        assert(direct.contains(direct[0]));
        assert(depends_on(g, checked.tx, direct[0]));
    }
}

/// Room is made only for a candidate without dependencies.
pub proof fn lemma_room_without_dependencies(pool: Pool, tx: PoolTx)
    requires
        room_for(pool, tx) is Some,
        room_for(pool, tx)->0.len() > 0,
    ensures
        !has_dependencies(pool@, tx),
{
}

impl Pool {
    /// Whether the pool has room for the candidate. Refuses a candidate
    /// with dependencies where it has not.
    pub(crate) fn can_fit_into_pool(&self, checked_transaction: &CheckedTransaction) -> (r: Result<
        SpaceCheckResult,
        Error,
    >)
        requires
            self.wf(),
            checked_transaction.valid_for(
                self@,
                self.storage.ages@,
                self.storage.config.max_txs_chain_count,
            ),
        ensures
            ({
                let tx = checked_transaction.tx;
                let gas = self.current_gas + tx.max_gas;
                let bytes = self.current_bytes_size + tx.metered_bytes_size;
                let txs = self.tx_id_to_storage_id@.len() as int + 1;
                let room = fits(self.config.pool_limits, gas, bytes, txs);
                &&& room ==> r == Ok::<SpaceCheckResult, Error>(SpaceCheckResult::EnoughSpace)
                &&& !room && has_dependencies(self@, tx) ==> r == Err::<SpaceCheckResult, Error>(
                    Error::NotInsertedLimitHit,
                )
                &&& !room && !has_dependencies(self@, tx) ==> r == Ok::<SpaceCheckResult, Error>(
                    SpaceCheckResult::NotEnoughSpace(
                        NotEnoughSpace {
                            gas_left: gas as u128,
                            bytes_left: bytes as u128,
                            txs_left: txs as u128,
                        },
                    ),
                ) && gas <= u128::MAX && bytes <= u128::MAX
            }),
    {
        let tx = checked_transaction.tx();
        proof {
            lemma_pool_total_bounds(self@, Measure::Gas);
            lemma_pool_total_bounds(self@, Measure::Bytes);
            assert(self@.len() * u64::MAX + u64::MAX <= u128::MAX) by (nonlinear_arith)
                requires
                    self@.len() <= u64::MAX,
            ;
            lemma_has_dependencies(
                self@,
                self.storage.ages@,
                self.storage.config.max_txs_chain_count,
                *checked_transaction,
            );
        }
        let gas_left = self.current_gas + tx.max_gas as u128;
        let bytes_left = self.current_bytes_size + tx.metered_bytes_size as u128;
        let txs_left = self.tx_id_to_storage_id.len() as u128 + 1;
        if gas_left <= self.config.pool_limits.max_gas as u128 && bytes_left
            <= self.config.pool_limits.max_bytes_size as u128 && txs_left
            <= self.config.pool_limits.max_txs as u128 {
            return Ok(SpaceCheckResult::EnoughSpace);
        }
        // No room is made for a candidate with dependencies.
        if checked_transaction.has_dependencies() {
            return Err(Error::NotInsertedLimitHit);
        }
        Ok(SpaceCheckResult::NotEnoughSpace(NotEnoughSpace { gas_left, bytes_left, txs_left }))
    }

    /// Finds room in the pool by marking the least worth transactions for
    /// removal, each with all its dependents.
    pub(crate) fn find_free_space(&self, left: NotEnoughSpace, tx: &PoolTx) -> (r: Result<
        Vec<StorageIndex>,
        Error,
    >)
        requires
            self.wf(),
            tx.max_gas != 0,
        ensures
            ({
                let victims = victims_from(
                    self@,
                    self.config.pool_limits,
                    less_worth(self.selection_algorithm@),
                    0,
                    left.gas_left as int,
                    left.bytes_left as int,
                    left.txs_left as int,
                    tx.tip,
                    tx.max_gas,
                );
                &&& r is Ok <==> victims is Some
                &&& r matches Ok(list) ==> victims == Some(list@)
                &&& r matches Err(e) ==> e == Error::NotInsertedLimitHit
            }),
    {
        let mut gas_left = left.gas_left;
        let mut bytes_left = left.bytes_left;
        let mut txs_left = left.txs_left;
        // Only transactions without parents are candidates for eviction: with dependent
        // ones the same subtree would be counted once for each of them.
        let sorted_txs = self.selection_algorithm.get_less_worth_txs();
        let ghost order = less_worth(self.selection_algorithm@);
        let ghost limits = self.config.pool_limits;
        let ghost goal = victims_from(
            self@,
            limits,
            order,
            0,
            left.gas_left as int,
            left.bytes_left as int,
            left.txs_left as int,
            tx.tip,
            tx.max_gas,
        );
        let mut transactions_to_remove: Vec<StorageIndex> = Vec::new();
        let mut next: usize = 0;
        proof {
            assert(sorted_txs@ =~= order);
            assert(transactions_to_remove@ + Seq::<StorageIndex>::empty()
                == transactions_to_remove@);
        }
        while gas_left > self.config.pool_limits.max_gas as u128 || bytes_left
            > self.config.pool_limits.max_bytes_size as u128 || txs_left
            > self.config.pool_limits.max_txs as u128
            invariant
                self.wf(),
                tx.max_gas != 0,
                limits == self.config.pool_limits,
                sorted_txs@ == order,
                order == less_worth(self.selection_algorithm@),
                goal == victims_from(
                    self@,
                    limits,
                    order,
                    0,
                    left.gas_left as int,
                    left.bytes_left as int,
                    left.txs_left as int,
                    tx.tip,
                    tx.max_gas,
                ),
                0 <= next <= order.len(),
                goal == (match victims_from(
                    self@,
                    limits,
                    order,
                    next as int,
                    gas_left as int,
                    bytes_left as int,
                    txs_left as int,
                    tx.tip,
                    tx.max_gas,
                ) {
                    Some(rest) => Some(transactions_to_remove@ + rest),
                    None => None,
                }),
            decreases order.len() - next,
        {
            proof {
                assert(!fits(limits, gas_left as int, bytes_left as int, txs_left as int));
            }
            if next >= sorted_txs.len() {
                proof {
                    assert(victims_from(
                        self@,
                        limits,
                        order,
                        next as int,
                        gas_left as int,
                        bytes_left as int,
                        txs_left as int,
                        tx.tip,
                        tx.max_gas,
                    ) is None);
                }
                return Err(Error::NotInsertedLimitHit);
            }
            let storage_id = sorted_txs[next];
            let ghost before = transactions_to_remove@;
            let ghost here = victims_from(
                self@,
                limits,
                order,
                next as int,
                gas_left as int,
                bytes_left as int,
                txs_left as int,
                tx.tip,
                tx.max_gas,
            );
            proof {
                assert(order[next as int] == storage_id);
            }
            match self.storage.get(storage_id) {
                Some(storage_data) => {
                    proof {
                        let g = self@;
                        lemma_reaches_self(g, storage_id);
                        lemma_subtree_total_bounds(g, storage_id, storage_id, Measure::Gas);
                        assert(aggregate(node(g, storage_id), Measure::Gas) == subtree_total(
                            g,
                            storage_id,
                            Measure::Gas,
                        ));
                        assert(node(g, storage_id).transaction.max_gas > 0);
                    }
                    let by_ratio = compare_ratios(
                        storage_data.dependents_cumulative_tip,
                        storage_data.dependents_cumulative_gas,
                        u128::from(tx.tip),
                        u128::from(tx.max_gas),
                    );
                    match by_ratio {
                        Order::Greater => {
                            proof {
                                assert(live(self@, storage_id));
                                assert(worth_more(self@, storage_id, tx.tip, tx.max_gas));
                                assert(here is None);
                            }
                            return Err(Error::NotInsertedLimitHit);
                        },
                        _ => {},
                    }
                    // The sums over the subtree say how much room the eviction makes
                    // only roughly: a dependent of two evicted transactions is counted
                    // with both,
                    //
                    //   E   E        E: without parents
                    //    \ /         D: dependent
                    //     D
                    //
                    // so that evicting both E makes room for E + E + D, not for
                    // 2 * (E + D). The limits of the pool are soft, and this is cheap.
                    let gas = storage_data.dependents_cumulative_gas;
                    let bytes = storage_data.dependents_cumulative_bytes_size;
                    let txs = storage_data.number_dependents_in_chain as u128;
                    let ghost gas0 = gas_left;
                    let ghost bytes0 = bytes_left;
                    let ghost txs0 = txs_left;
                    gas_left = gas_left.saturating_sub(gas);
                    bytes_left = bytes_left.saturating_sub(bytes);
                    txs_left = txs_left.saturating_sub(txs);
                    transactions_to_remove.push(storage_id);
                    proof {
                        let rest = victims_from(
                            self@,
                            limits,
                            order,
                            next + 1,
                            gas_left as int,
                            bytes_left as int,
                            txs_left as int,
                            tx.tip,
                            tx.max_gas,
                        );
                        assert(gas_left == minus(gas0 as int, gas as int));
                        assert(bytes_left == minus(bytes0 as int, bytes as int));
                        assert(txs_left == minus(txs0 as int, txs as int));
                        assert(live(self@, storage_id));
                        assert(!worth_more(self@, storage_id, tx.tip, tx.max_gas));
                        assert(here == (match rest {
                            Some(list) => Some(seq![storage_id] + list),
                            None => None,
                        }));
                        if rest is Some {
                            assert(before + (seq![storage_id] + rest->0) == before.push(storage_id)
                                + rest->0);
                        }
                    }
                },
                None => {
                    proof {
                        assert(!live(self@, storage_id));
                        assert(here == victims_from(
                            self@,
                            limits,
                            order,
                            next + 1,
                            gas_left as int,
                            bytes_left as int,
                            txs_left as int,
                            tx.tip,
                            tx.max_gas,
                        ));
                    }
                },
            }
            next += 1;
        }
        Ok(transactions_to_remove)
    }

    /// Refuses a candidate that uploads a blob that exists already.
    pub(crate) fn check_blob_does_not_exist(tx: &PoolTx, view: &PersistentView) -> (r: Result<
        (),
        Error,
    >)
        ensures
            r is Err <==> (blob_of(*tx) is Some && view.blobs@.contains(blob_of(*tx)->0)),
            r matches Err(e) ==> e == Error::BlobIdAlreadyTaken(blob_of(*tx)->0),
    {
        match tx.kind {
            TxKind::Blob { blob_id } => {
                if view.blob_exist(&blob_id) {
                    return Err(Error::BlobIdAlreadyTaken(blob_id));
                }
            },
            _ => {},
        }
        Ok(())
    }

    /// Refuses a candidate that may not displace one of the transactions
    /// that it collides with, and names that transaction.
    pub(crate) fn check_collision_requirements(
        &self,
        collisions: &Collisions,
        checked_transaction: &CheckedTransaction,
    ) -> (r: Result<(), TxId>)
        requires
            self.wf(),
            checked_transaction.tx.max_gas != 0,
            checked_transaction.valid_for(
                self@,
                self.storage.ages@,
                self.storage.config.max_txs_chain_count,
            ),
            collisions.valid_for(self.collision_manager@, checked_transaction.tx),
        ensures
            r is Ok <==> forall|i: StorageIndex| #[trigger]
                collides(self.collision_manager@, checked_transaction.tx, i) ==> displaces(
                    self@,
                    checked_transaction.tx,
                    i,
                ),
            r matches Err(id) ==> exists|i: StorageIndex| #[trigger]
                collides(self.collision_manager@, checked_transaction.tx, i) && !displaces(
                    self@,
                    checked_transaction.tx,
                    i,
                ) && node(self@, i).transaction.id == id,
    {
        let tx = checked_transaction.tx();
        let dependent = checked_transaction.has_dependencies();
        let ghost g = self@;
        let ghost claims = self.collision_manager@;
        proof {
            lemma_has_dependencies(
                g,
                self.storage.ages@,
                self.storage.config.max_txs_chain_count,
                *checked_transaction,
            );
        }
        let mut k: usize = 0;
        while k < collisions.colliders.len()
            invariant
                self.wf(),
                g == self@,
                claims == self.collision_manager@,
                *tx == checked_transaction.tx,
                tx.max_gas != 0,
                dependent == has_dependencies(g, *tx),
                collisions.valid_for(claims, *tx),
                0 <= k <= collisions@.len(),
                forall|j: int|
                    0 <= j < k ==> displaces(g, *tx, (#[trigger] collisions@[j]).storage_id),
            decreases collisions@.len() - k,
        {
            let collider = collisions.colliders[k].storage_id;
            proof {
                let c = Claim { resource: collisions@[k as int].resource, owner: collider };
                assert(claims.contains(c));
                let x = choose|x: int| 0 <= x < claims.len() && claims[x] == c;
                assert(live(g, claims[x].owner));
                assert(claims[x].owner == collider && tx.claims(claims[x].resource));
                assert(collides(claims, *tx, collider));
                lemma_reaches_self(g, collider);
                lemma_subtree_total_bounds(g, collider, collider, Measure::Gas);
                assert(aggregate(node(g, collider), Measure::Gas) == subtree_total(
                    g,
                    collider,
                    Measure::Gas,
                ));
                assert(node(g, collider).transaction.max_gas > 0);
            }
            match self.storage.get(collider) {
                Some(storage_data) => {
                    if dependent {
                        return Err(storage_data.transaction.id);
                    }
                    let by_ratio = compare_ratios(
                        u128::from(tx.tip),
                        u128::from(tx.max_gas),
                        storage_data.dependents_cumulative_tip,
                        storage_data.dependents_cumulative_gas,
                    );
                    match by_ratio {
                        Order::Greater => {},
                        _ => {
                            return Err(storage_data.transaction.id);
                        },
                    }
                },
                None => {},
            }
            k += 1;
        }
        proof {
            assert forall|i: StorageIndex| #[trigger] collides(claims, *tx, i) implies displaces(
                g,
                *tx,
                i,
            ) by {
                assert(collisions.has(i));
                let j = choose|j: int|
                    0 <= j < collisions@.len() && (#[trigger] collisions@[j]).storage_id == i;
                assert(displaces(g, *tx, collisions@[j].storage_id));
            }
        }
        Ok(())
    }

    /// Checks whether a transaction can be inserted into the pool, and
    /// works out what has to leave for it. The pool itself is not changed.
    pub fn can_insert_transaction(&self, tx: PoolTx, view: &PersistentView) -> (r: Result<
        CanStoreTransaction,
        Error,
    >)
        requires
            self.wf(),
        ensures
            r matches Err(e) ==> refused(*self, *view, tx, e),
            r matches Ok(plan) ==> admitted(*self, *view, tx, plan),
    {
        if tx.max_gas == 0 {
            return Err(Error::ZeroMaxGas);
        }
        let tx_id = tx.id;
        if self.tx_id_to_storage_id.contains_key(&tx_id) {
            proof {
                let k = choose|k: int|
                    0 <= k < self.tx_id_to_storage_id@.len() && (
                    #[trigger] self.tx_id_to_storage_id@[k]).id == tx_id;
                assert(live(self@, self.tx_id_to_storage_id@[k].slot));
            }
            return Err(Error::DuplicateTxId(tx_id));
        }
        proof {
            if self.holds_id(tx_id) {
                let i = choose|i: StorageIndex| #[trigger]
                    live(self@, i) && node(self@, i).transaction.id == tx_id;
                let e = crate::pool::IdEntry { id: tx_id, slot: i };
                assert(self.tx_id_to_storage_id@.contains(e));
                let k = choose|k: int|
                    0 <= k < self.tx_id_to_storage_id@.len() && self.tx_id_to_storage_id@[k] == e;
                assert(self.tx_id_to_storage_id@[k].id == tx_id);
            }
        }
        match self.config.black_list.check_blacklisting(&tx) {
            Err(e) => {
                return Err(e);
            },
            Ok(_) => {},
        }
        match Self::check_blob_does_not_exist(&tx, view) {
            Err(e) => {
                return Err(e);
            },
            Ok(_) => {},
        }
        match self.storage.validate_inputs(&tx, view, self.config.utxo_validation) {
            Err(e) => {
                return Err(e);
            },
            Ok(_) => {},
        }
        let collisions = self.collision_manager.find_collisions(&tx);
        let ghost claims = self.collision_manager@;
        let ghost candidate = tx;
        let checked_transaction = match self.storage.can_store_transaction(tx) {
            Err(e) => {
                return Err(e);
            },
            Ok(checked) => checked,
        };
        let mut k: usize = 0;
        while k < collisions.colliders.len()
            invariant
                self.wf(),
                candidate == tx,
                claims == self.collision_manager@,
                collisions.valid_for(claims, candidate),
                checked_transaction.tx == candidate,
                checked_transaction.valid_for(
                self@,
                self.storage.ages@,
                self.storage.config.max_txs_chain_count,
            ),
                passes(*self, *view, candidate, 6),
                0 <= k <= collisions@.len(),
                forall|j: int|
                    0 <= j < k ==> !checked_transaction.all_dependencies@.contains(
                        (#[trigger] collisions@[j]).storage_id,
                    ),
            decreases collisions@.len() - k,
        {
            if contains_slot(checked_transaction.all_dependencies(), collisions.colliders[k].storage_id) {
                proof {
                    let i = collisions@[k as int].storage_id;
                    let c = Claim { resource: collisions@[k as int].resource, owner: i };
                    assert(claims.contains(c));
                    let x = choose|x: int| 0 <= x < claims.len() && claims[x] == c;
                    assert(claims[x].owner == i && candidate.claims(claims[x].resource));
                    assert(collides(claims, candidate, i));
                    lemma_above_is_ancestor(
                        self@,
                        candidate,
                        checked_transaction.direct_dependencies@,
                        i,
                    );
                    assert(checked_transaction.all_dependencies@.contains(i));
                    assert(above(self@, checked_transaction.direct_dependencies@, i));
                    assert(is_ancestor(self@, candidate, i));
                    assert(collides(self.collision_manager@, candidate, i) && is_ancestor(
                        self@,
                        candidate,
                        i,
                    ));
                    assert(passes(*self, *view, candidate, 6));
                }
                return Err(Error::NotInsertedCollisionIsDependency);
            }
            k += 1;
        }
        proof {
            assert forall|i: StorageIndex| #[trigger] collides(claims, candidate, i) implies !is_ancestor(
                self@,
                candidate,
                i,
            ) by {
                assert(collisions.has(i));
                let j = choose|j: int|
                    0 <= j < collisions@.len() && (#[trigger] collisions@[j]).storage_id == i;
                lemma_above_is_ancestor(
                    self@,
                    candidate,
                    checked_transaction.direct_dependencies@,
                    i,
                );
            }
        }
        match self.check_collision_requirements(&collisions, &checked_transaction) {
            Err(id) => {
                return Err(Error::Collided(id));
            },
            Ok(_) => {},
        }
        let can_fit_into_pool = match self.can_fit_into_pool(&checked_transaction) {
            Err(e) => {
                return Err(e);
            },
            Ok(space) => space,
        };
        let mut transactions_to_remove: Vec<StorageIndex> = Vec::new();
        match can_fit_into_pool {
            SpaceCheckResult::NotEnoughSpace(left) => {
                transactions_to_remove = match self.find_free_space(
                    left,
                    checked_transaction.tx(),
                ) {
                    Err(e) => {
                        return Err(e);
                    },
                    Ok(list) => list,
                };
            },
            SpaceCheckResult::EnoughSpace => {},
        }
        Ok(CanStoreTransaction { checked_transaction, transactions_to_remove, collisions })
    }
}

/// Whether `slots` holds `slot`.
pub fn contains_slot(slots: &Vec<StorageIndex>, slot: StorageIndex) -> (r: bool)
    ensures
        r == slots@.contains(slot),
{
    let mut i: usize = 0;
    while i < slots.len()
        invariant
            0 <= i <= slots@.len(),
            forall|j: int| 0 <= j < i ==> slots@[j] != slot,
        decreases slots@.len() - i,
    {
        if slots[i] == slot {
            return true;
        }
        i += 1;
    }
    false
}

} // verus!
