//! What holds of every well-formed pool, and of every admission, extraction
//! and removal.

use vstd::prelude::*;
use crate::collision_manager::Claim;
use crate::error::Error;
use crate::pool::Pool;
use crate::pool::admission::{passes, refused};
use crate::pool::commit::{inserted, joined, left, placed, removal};
use crate::ports::PersistentView;
use crate::selection_algorithms::Constraints;
use crate::selection_algorithms::ratio_tip_gas::{
    entry_of, extracted, gas_left_after, gathered, key_of, lemma_key_order_mirror, occurs_slot,
    passed_over, rivals, saturated, space_left_after,
};
use crate::storage::chains::lemma_path_within_chain;
use crate::storage::graph::GraphStorage;
use crate::storage::steps::records_wf;
use crate::storage::{
    ages_wf, aggregate, has_child, is_path, links_wf, live, node, pool_total, reaches,
    records_total, subtree_total, Measure, Nodes, StorageData,
};
use crate::types::{PoolTx, Resource, StorageIndex, TxId};

verus! {

/// The pool holds the transaction.
pub open spec fn holds(g: Nodes, tx: PoolTx) -> bool {
    exists|i: StorageIndex| #[trigger] live(g, i) && node(g, i).transaction == tx
}

/// The pool's two sums are the sums of the maximal gas and of the sizes of
/// its transactions, and the id index lists as many transactions as the
/// storage holds.
pub proof fn lemma_accounts_are_exact(pool: Pool)
    requires
        pool.wf(),
    ensures
        pool.current_gas == pool_total(pool@, Measure::Gas),
        pool.current_bytes_size == pool_total(pool@, Measure::Bytes),
        pool.tx_id_to_storage_id@.len() == pool.storage.count,
        pool.storage.count == pool_total(pool@, Measure::Count),
{
}

/// The selection index holds the transactions without parents, and no
/// others.
pub proof fn lemma_selection_holds_the_executable(pool: Pool, i: StorageIndex)
    requires
        pool.wf(),
    ensures
        (live(pool@, i) && node(pool@, i).parents@.len() == 0) <==> pool.selection_algorithm@.contains(
            entry_of(pool@, i),
        ),
        forall|k: int|
            0 <= k < pool.selection_algorithm@.len() ==> live(
                pool@,
                (#[trigger] pool.selection_algorithm@[k]).storage_id,
            ) && node(pool@, pool.selection_algorithm@[k].storage_id).parents@.len() == 0,
{
    let sel = pool.selection_algorithm@;
    if sel.contains(entry_of(pool@, i)) {
        let k = choose|k: int| 0 <= k < sel.len() && sel[k] == entry_of(pool@, i);
        assert(live(pool@, sel[k].storage_id));
    }
    assert forall|k: int| 0 <= k < sel.len() implies live(pool@, (#[trigger] sel[k]).storage_id)
        && node(pool@, sel[k].storage_id).parents@.len() == 0 by {}
}

/// Every parent and every child of a stored transaction is stored.
pub proof fn lemma_links_stay_inside(storage: GraphStorage, i: StorageIndex, other: StorageIndex)
    requires
        storage.wf(),
        live(storage@, i),
    ensures
        node(storage@, i).parents@.contains(other) ==> live(storage@, other) && node(
            storage@,
            other,
        ).children@.contains(i),
        node(storage@, i).children@.contains(other) ==> live(storage@, other) && node(
            storage@,
            other,
        ).parents@.contains(i),
{
    let g = storage@;
    if node(g, i).parents@.contains(other) {
        let k = choose|k: int| 0 <= k < node(g, i).parents@.len() && node(g, i).parents@[k] == other;
        assert(has_child(g, node(g, i).parents@[k], i));
    }
    if node(g, i).children@.contains(other) {
        let k = choose|k: int|
            0 <= k < node(g, i).children@.len() && node(g, i).children@[k] == other;
        assert(live(g, node(g, i).children@[k]) && node(g, node(g, i).children@[k]).parents@.contains(
            i,
        ));
    }
}

/// No two transactions of the pool claim the same resource.
pub proof fn lemma_claims_are_exclusive(pool: Pool, i: StorageIndex, j: StorageIndex, r: Resource)
    requires
        pool.wf(),
        live(pool@, i),
        live(pool@, j),
        node(pool@, i).transaction.claims(r),
        node(pool@, j).transaction.claims(r),
    ensures
        i == j,
{
    let claims = pool.collision_manager@;
    let a = Claim { resource: r, owner: i };
    let b = Claim { resource: r, owner: j };
    assert(claims.contains(a));
    assert(claims.contains(b));
    let x = choose|x: int| 0 <= x < claims.len() && claims[x] == a;
    let y = choose|y: int| 0 <= y < claims.len() && claims[y] == b;
    assert(claims[x].resource == claims[y].resource);
}

/// No two transactions of the pool have the same id.
pub proof fn lemma_ids_are_distinct(pool: Pool, i: StorageIndex, j: StorageIndex)
    requires
        pool.wf(),
        live(pool@, i),
        live(pool@, j),
        node(pool@, i).transaction.id == node(pool@, j).transaction.id,
    ensures
        i == j,
{
}

/// Every record's sums are the sums over the transaction and all its
/// dependents.
pub proof fn lemma_subtree_sums_are_exact(storage: GraphStorage, i: StorageIndex)
    requires
        storage.wf(),
        live(storage@, i),
    ensures
        node(storage@, i).dependents_cumulative_tip == subtree_total(storage@, i, Measure::Tip),
        node(storage@, i).dependents_cumulative_gas == subtree_total(storage@, i, Measure::Gas),
        node(storage@, i).dependents_cumulative_bytes_size == subtree_total(
            storage@,
            i,
            Measure::Bytes,
        ),
        node(storage@, i).number_dependents_in_chain == subtree_total(
            storage@,
            i,
            Measure::Count,
        ),
{
    let g = storage@;
    assert(aggregate(node(g, i), Measure::Tip) == subtree_total(g, i, Measure::Tip));
    assert(aggregate(node(g, i), Measure::Gas) == subtree_total(g, i, Measure::Gas));
    assert(aggregate(node(g, i), Measure::Bytes) == subtree_total(g, i, Measure::Bytes));
    assert(aggregate(node(g, i), Measure::Count) == subtree_total(g, i, Measure::Count));
}

/// No chain of dependent transactions is longer than the limit: a walk
/// along child links passes at most `max_txs_chain_count` transactions.
pub proof fn lemma_chains_are_bounded(storage: GraphStorage, p: Seq<StorageIndex>)
    requires
        storage.wf(),
        is_path(storage@, p),
    ensures
        p.len() <= storage.config.max_txs_chain_count,
{
    lemma_path_within_chain(storage@, storage.ages@, storage.next_age@, p, p.len() - 1);
    assert(live(storage@, p[p.len() - 1]));
}

/// No chain of dependent transactions in the pool is longer than the
/// pool's configuration allows.
pub proof fn lemma_pool_chains_are_bounded(pool: Pool, p: Seq<StorageIndex>)
    requires
        pool.wf(),
        is_path(pool@, p),
    ensures
        p.len() <= pool.config.max_txs_chain_count,
{
    lemma_chains_are_bounded(pool.storage, p);
}

proof fn lemma_descend_to_root(g: Nodes, ages: Seq<nat>, next_age: nat, i: StorageIndex) -> (r:
    StorageIndex)
    requires
        links_wf(g),
        ages_wf(g, ages, next_age),
        live(g, i),
    ensures
        live(g, r),
        node(g, r).parents@.len() == 0,
    decreases ages[i as int],
{
    if node(g, i).parents@.len() == 0 {
        i
    } else {
        let p = node(g, i).parents@[0];
        assert(has_child(g, node(g, i).parents@[0], i));
        assert(ages[(node(g, i).parents@[0]) as int] < ages[i as int]);
        lemma_descend_to_root(g, ages, next_age, p)
    }
}

/// A pool that holds a transaction holds one without parents.
pub proof fn lemma_some_transaction_is_executable(storage: GraphStorage, i: StorageIndex)
    requires
        storage.wf(),
        live(storage@, i),
    ensures
        exists|r: StorageIndex| #[trigger]
            live(storage@, r) && node(storage@, r).parents@.len() == 0,
{
    let r = lemma_descend_to_root(storage@, storage.ages@, storage.next_age@, i);
    assert(live(storage@, r) && node(storage@, r).parents@.len() == 0);
}

/// What an extraction returns was in the pool, each transaction once, and
/// is in the pool no longer; every other transaction stays.
pub proof fn lemma_extraction_returns_each_once(
    g: Nodes,
    h: Nodes,
    slots: Seq<StorageIndex>,
    records: Seq<StorageData>,
    txs: Seq<PoolTx>,
)
    requires
        records_wf(g),
        extracted(g, h, slots, records),
        txs.len() == records.len(),
        forall|j: int| 0 <= j < txs.len() ==> #[trigger] txs[j] == records[j].transaction,
    ensures
        forall|a: int, b: int|
            0 <= a < txs.len() && 0 <= b < txs.len() && a != b ==> (#[trigger] txs[a]).id != (
            #[trigger] txs[b]).id,
        forall|a: int| 0 <= a < txs.len() ==> holds(g, #[trigger] txs[a]) && !holds(h, txs[a]),
        forall|i: StorageIndex| #[trigger]
            live(g, i) ==> (live(h, i) && node(h, i).transaction == node(g, i).transaction)
                || txs.contains(node(g, i).transaction),
{
    assert forall|a: int, b: int| 0 <= a < txs.len() && 0 <= b < txs.len() && a != b implies (
    #[trigger] txs[a]).id != (#[trigger] txs[b]).id by {
        assert(live(g, slots[a]) && live(g, slots[b]));
        assert(slots[a] != slots[b]);
        assert(txs[a] == node(g, slots[a]).transaction);
        assert(txs[b] == node(g, slots[b]).transaction);
    }
    assert forall|a: int| 0 <= a < txs.len() implies holds(g, #[trigger] txs[a]) && !holds(
        h,
        txs[a],
    ) by {
        assert(live(g, slots[a]));
        assert(txs[a] == node(g, slots[a]).transaction);
        if holds(h, txs[a]) {
            let i = choose|i: StorageIndex| #[trigger] live(h, i) && node(h, i).transaction == txs[a];
            assert(live(g, i));
            assert(i == slots[a]);
            assert(slots.contains(slots[a]));
        }
    }
    assert forall|i: StorageIndex| #[trigger] live(g, i) implies (live(h, i) && node(
        h,
        i,
    ).transaction == node(g, i).transaction) || txs.contains(node(g, i).transaction) by {
        if !live(h, i) {
            assert(slots.contains(i));
            let a = choose|a: int| 0 <= a < slots.len() && slots[a] == i;
            assert(live(g, slots[a]));
            assert(txs[a] == node(g, i).transaction);
        }
    }
}

/// `txs` are the transactions that an extraction took from `g`, in the
/// order in which it took them, and `h` is what it left.
pub open spec fn block_of(g: Nodes, h: Nodes, txs: Seq<PoolTx>) -> bool {
    exists|slots: Seq<StorageIndex>, records: Seq<StorageData>| #[trigger]
        extracted(g, h, slots, records) && txs.len() == records.len() && forall|j: int|
            0 <= j < txs.len() ==> #[trigger] txs[j] == records[j].transaction
}

/// Extractions took `blocks` from the pool, one after the other, and left
/// it empty: `states` are the states of the pool before, between and after
/// them.
pub open spec fn drained(states: Seq<Nodes>, blocks: Seq<Seq<PoolTx>>) -> bool {
    &&& states.len() == blocks.len() + 1
    &&& forall|k: int|
        0 <= k < blocks.len() ==> block_of(#[trigger] states[k], states[k + 1], blocks[k])
    &&& forall|i: StorageIndex| !live(states[blocks.len() as int], i)
}

/// What an extraction takes from the pool is a block in this sense.
pub proof fn lemma_extraction_is_a_block(
    g: Nodes,
    h: Nodes,
    sel: Seq<crate::selection_algorithms::ratio_tip_gas::Entry>,
    constraints: Constraints,
    txs: Seq<PoolTx>,
)
    requires
        crate::pool::commit::taken(g, h, sel, constraints, txs),
    ensures
        block_of(g, h, txs),
{
    let (slots, records) = choose|slots: Seq<StorageIndex>, records: Seq<StorageData>| #[trigger]
        crate::pool::commit::extraction(g, h, sel, constraints, slots, records, txs);
    assert(extracted(g, h, slots, records) && txs.len() == records.len() && forall|j: int|
        0 <= j < txs.len() ==> #[trigger] txs[j] == records[j].transaction);
}

proof fn lemma_block_step(g: Nodes, h: Nodes, txs: Seq<PoolTx>)
    requires
        records_wf(g),
        block_of(g, h, txs),
    ensures
        records_wf(h),
        forall|i: StorageIndex| #[trigger]
            live(h, i) ==> live(g, i) && node(h, i).transaction == node(g, i).transaction,
        forall|a: int, b: int|
            0 <= a < txs.len() && 0 <= b < txs.len() && a != b ==> (#[trigger] txs[a]).id != (
            #[trigger] txs[b]).id,
        forall|a: int| 0 <= a < txs.len() ==> holds(g, #[trigger] txs[a]) && !holds(h, txs[a]),
        forall|i: StorageIndex| #[trigger]
            live(g, i) ==> (live(h, i) && node(h, i).transaction == node(g, i).transaction)
                || txs.contains(node(g, i).transaction),
{
    let (slots, records) = choose|slots: Seq<StorageIndex>, records: Seq<StorageData>| #[trigger]
        extracted(g, h, slots, records) && txs.len() == records.len() && forall|j: int|
            0 <= j < txs.len() ==> #[trigger] txs[j] == records[j].transaction;
    lemma_extraction_returns_each_once(g, h, slots, records, txs);
    assert forall|i: StorageIndex| #[trigger] live(h, i) implies live(g, i) && node(
        h,
        i,
    ).transaction == node(g, i).transaction by {}
    assert(records_wf(h)) by {
        assert forall|i: StorageIndex| #[trigger] live(h, i) implies node(h, i).transaction.max_gas
            > 0 by {
            assert(live(g, i));
        }
        assert forall|i: StorageIndex, j: StorageIndex|
            #![trigger live(h, i), live(h, j)]
            live(h, i) && live(h, j) && node(h, i).transaction.id == node(h, j).transaction.id implies i
            == j by {
            assert(live(g, i) && live(g, j));
        }
    }
}

proof fn lemma_drain_states(
    states: Seq<Nodes>,
    blocks: Seq<Seq<PoolTx>>,
    from: int,
    to: int,
)
    requires
        records_wf(states[0]),
        drained(states, blocks),
        0 <= from <= to <= blocks.len(),
    ensures
        records_wf(states[from]),
        records_wf(states[to]),
        forall|i: StorageIndex| #[trigger]
            live(states[to], i) ==> live(states[from], i) && node(states[to], i).transaction
                == node(states[from], i).transaction,
    decreases to,
{
    if to == 0 {
    } else if from == to {
        lemma_drain_states(states, blocks, 0, to - 1);
        assert(block_of(states[to - 1], states[to - 1 + 1], blocks[to - 1]));
        lemma_block_step(states[to - 1], states[to], blocks[to - 1]);
    } else {
        lemma_drain_states(states, blocks, from, to - 1);
        assert(block_of(states[to - 1], states[to - 1 + 1], blocks[to - 1]));
        lemma_block_step(states[to - 1], states[to], blocks[to - 1]);
        assert forall|i: StorageIndex| #[trigger] live(states[to], i) implies live(
            states[from],
            i,
        ) && node(states[to], i).transaction == node(states[from], i).transaction by {
            assert(live(states[to - 1], i));
        }
    }
}

proof fn lemma_drain_finds(
    states: Seq<Nodes>,
    blocks: Seq<Seq<PoolTx>>,
    i: StorageIndex,
    k: int,
) -> (at: (int, int))
    requires
        records_wf(states[0]),
        drained(states, blocks),
        0 <= k <= blocks.len(),
        live(states[k], i),
    ensures
        k <= at.0 < blocks.len(),
        0 <= at.1 < blocks[at.0].len(),
        blocks[at.0][at.1] == node(states[k], i).transaction,
    decreases blocks.len() - k,
{
    lemma_drain_states(states, blocks, 0, k);
    assert(k < blocks.len());
    assert(block_of(states[k], states[k + 1], blocks[k]));
    lemma_block_step(states[k], states[k + 1], blocks[k]);
    if live(states[k + 1], i) {
        lemma_drain_finds(states, blocks, i, k + 1)
    } else {
        let tx = node(states[k], i).transaction;
        assert(blocks[k].contains(tx));
        let j = choose|j: int| 0 <= j < blocks[k].len() && blocks[k][j] == tx;
        (k, j)
    }
}

/// Extractions that leave the pool empty return every transaction of the
/// pool.
pub proof fn lemma_drain_returns_every_transaction(
    states: Seq<Nodes>,
    blocks: Seq<Seq<PoolTx>>,
    i: StorageIndex,
) -> (at: (int, int))
    requires
        records_wf(states[0]),
        drained(states, blocks),
        live(states[0], i),
    ensures
        0 <= at.0 < blocks.len(),
        0 <= at.1 < blocks[at.0].len(),
        blocks[at.0][at.1] == node(states[0], i).transaction,
{
    lemma_drain_finds(states, blocks, i, 0)
}

/// Extractions return transactions of the pool only, and none twice.
pub proof fn lemma_drain_returns_no_transaction_twice(
    states: Seq<Nodes>,
    blocks: Seq<Seq<PoolTx>>,
    k1: int,
    j1: int,
    k2: int,
    j2: int,
)
    requires
        records_wf(states[0]),
        drained(states, blocks),
        0 <= k1 <= k2 < blocks.len(),
        0 <= j1 < blocks[k1].len(),
        0 <= j2 < blocks[k2].len(),
        blocks[k1][j1].id == blocks[k2][j2].id,
    ensures
        k1 == k2 && j1 == j2,
        holds(states[0], blocks[k1][j1]),
{
    let g1 = states[k1];
    let t1 = blocks[k1][j1];
    let t2 = blocks[k2][j2];
    lemma_drain_states(states, blocks, 0, k1);
    assert(block_of(states[k1], states[k1 + 1], blocks[k1]));
    lemma_block_step(states[k1], states[k1 + 1], blocks[k1]);
    assert(holds(g1, t1));
    let i1 = choose|i: StorageIndex| #[trigger] live(g1, i) && node(g1, i).transaction == t1;
    assert(live(states[0], i1) && node(states[0], i1).transaction == t1);
    if k1 < k2 {
        lemma_drain_states(states, blocks, k1 + 1, k2);
        lemma_drain_states(states, blocks, 0, k2);
        assert(block_of(states[k2], states[k2 + 1], blocks[k2]));
        lemma_block_step(states[k2], states[k2 + 1], blocks[k2]);
        assert(holds(states[k2], t2));
        let i2 = choose|i: StorageIndex| #[trigger]
            live(states[k2], i) && node(states[k2], i).transaction == t2;
        assert(live(states[k1 + 1], i2) && node(states[k1 + 1], i2).transaction == t2);
        assert(live(g1, i2) && node(g1, i2).transaction == t2);
        assert(live(g1, i1) && live(g1, i2));
        assert(i1 == i2);
        assert(holds(states[k1 + 1], t1));
    } else {
        if j1 != j2 {
            assert(blocks[k1][j1].id != blocks[k1][j2].id);
        }
    }
}

/// An extraction that returns nothing leaves nothing that could join the
/// block: the pool is empty, or the block has no gas, no room or no place,
/// or every transaction without parents caps its gas price below the
/// block's, or asks for more gas or for more room than the block has.
pub proof fn lemma_empty_extraction_means_saturation(
    storage: GraphStorage,
    constraints: Constraints,
    i: StorageIndex,
)
    requires
        storage.wf(),
        live(storage@, i),
        saturated(storage@, constraints, Seq::<StorageData>::empty()),
        constraints.max_gas > 0,
        constraints.maximum_block_size > 0,
        constraints.maximum_txs > 0,
    ensures
        exists|r: StorageIndex| #[trigger]
            live(storage@, r) && node(storage@, r).parents@.len() == 0 && passed_over(
                storage@,
                r,
                constraints.minimal_gas_price,
                constraints.max_gas as int,
                constraints.maximum_block_size as int,
            ),
{
    let g = storage@;
    let r = lemma_descend_to_root(g, storage.ages@, storage.next_age@, i);
    let none = Seq::<StorageData>::empty();
    assert(records_total(none, Measure::Gas) == 0);
    assert(records_total(none, Measure::Bytes) == 0);
    assert(gas_left_after(constraints, none) == constraints.max_gas);
    assert(space_left_after(constraints, none) == constraints.maximum_block_size);
    assert(live(g, r));
}

/// Of two transactions without parents that ask for the same gas and the
/// same size, the one with the better key leaves first: where the one with
/// the worse key is extracted, and the other accepts the gas price, the
/// other is extracted before it.
pub proof fn lemma_extraction_takes_the_better_first(
    pool: Pool,
    h: Nodes,
    constraints: Constraints,
    slots: Seq<StorageIndex>,
    records: Seq<StorageData>,
    a: StorageIndex,
    b: StorageIndex,
    pb: int,
)
    requires
        pool.wf(),
        gathered(pool@, h, pool.selection_algorithm@, constraints, slots, records),
        records_total(records, Measure::Gas) <= constraints.max_gas,
        records_total(records, Measure::Bytes) <= constraints.maximum_block_size,
        rivals(pool@, constraints.minimal_gas_price, a, b),
        node(pool@, a).parents@.len() == 0,
        node(pool@, b).parents@.len() == 0,
        key_of(node(pool@, a)).before(key_of(node(pool@, b))),
        0 <= pb < slots.len(),
        slots[pb] == b,
    ensures
        occurs_slot(slots, pb, a),
{
    let g = pool@;
    let sel = pool.selection_algorithm@;
    assert(sel.contains(entry_of(g, a)));
    assert(sel.contains(entry_of(g, b)));
    let ja = choose|ja: int| 0 <= ja < sel.len() && sel[ja] == entry_of(g, a);
    let jb = choose|jb: int| 0 <= jb < sel.len() && sel[jb] == entry_of(g, b);
    lemma_key_order_mirror(sel[ja].key, sel[jb].key);
    if jb < ja {
        assert(sel[jb].key.before(sel[ja].key));
    }
    assert(ja != jb);
    assert(slots[pb] == sel[jb].storage_id && live(g, sel[ja].storage_id));
    // What is left when `b` leaves is enough for `b`, so for `a` too.
    crate::pool::caches::lemma_records_total_prefix(records, pb, Measure::Gas);
    crate::pool::caches::lemma_records_total_prefix(records, pb, Measure::Bytes);
    crate::pool::caches::lemma_records_total_prefix(records, pb + 1, Measure::Gas);
    crate::pool::caches::lemma_records_total_prefix(records, pb + 1, Measure::Bytes);
    assert(live(g, slots[pb]));
    assert(records[pb].transaction == node(g, slots[pb]).transaction);
}

/// After an admission the pool holds what it held before, without the
/// transactions that the admission returns and with the candidate; and what
/// the admission returns was in the pool.
pub proof fn lemma_displacement_is_conserved(
    pool: Pool,
    h: Nodes,
    tx: PoolTx,
    creation_instant: u64,
    removed: Seq<PoolTx>,
    other: PoolTx,
)
    requires
        pool.wf(),
        !pool.holds_id(tx.id),
        joined(pool, h, tx, creation_instant, removed),
    ensures
        holds(h, other) <==> ((holds(pool@, other) && !removed.contains(other)) || other == tx),
        removed.contains(other) ==> holds(pool@, other),
{
    let g = pool@;
    let gone = choose|gone: Seq<StorageIndex>| #[trigger]
        inserted(pool, h, tx, creation_instant, gone, removed);
    let k = choose|k: StorageIndex| #[trigger] placed(g, h, k, tx, creation_instant, gone);
    if holds(h, other) {
        let i = choose|i: StorageIndex| #[trigger] live(h, i) && node(h, i).transaction == other;
        if i != k {
            assert(live(h, i));
            assert(live(g, i) && !gone.contains(i));
            if removed.contains(other) {
                let j = choose|j: int| 0 <= j < removed.len() && removed[j] == other;
                assert(live(g, gone[j]));
                assert(gone[j] == i);
                assert(gone.contains(gone[j]));
            }
        }
    }
    if holds(g, other) && !removed.contains(other) {
        let i = choose|i: StorageIndex| #[trigger] live(g, i) && node(g, i).transaction == other;
        assert(other.id != tx.id);
        if gone.contains(i) {
            let j = choose|j: int| 0 <= j < gone.len() && gone[j] == i;
            assert(live(g, gone[j]));
            assert(removed[j] == other);
        }
        // The slot of the candidate is free or was left by a transaction.
        assert(i != k);
        assert(live(h, i) <==> (live(g, i) && !gone.contains(i)));
        assert(live(h, i) && node(h, i).transaction == other);
    }
    if other == tx {
        assert(live(h, k) && node(h, k).transaction == other);
    }
    if removed.contains(other) {
        let j = choose|j: int| 0 <= j < removed.len() && removed[j] == other;
        assert(live(g, gone[j]) && node(g, gone[j]).transaction == other);
    }
}

/// A removal takes the named transactions and all their dependents, and
/// nothing else.
pub proof fn lemma_removal_cascades(
    g: Nodes,
    h: Nodes,
    ids: Seq<TxId>,
    removed: Seq<PoolTx>,
    x: StorageIndex,
)
    requires
        left(g, h, ids, removed),
        live(g, x),
    ensures
        !live(h, x) <==> exists|root: StorageIndex|
            live(g, root) && ids.contains(node(g, root).transaction.id) && #[trigger] reaches(
                g,
                root,
                x,
            ),
        live(h, x) ==> node(h, x).transaction == node(g, x).transaction,
        !live(h, x) ==> removed.contains(node(g, x).transaction),
{
    let gone = choose|gone: Seq<StorageIndex>| #[trigger] removal(g, h, ids, gone, removed);
    assert(live(h, x) <==> (live(g, x) && !gone.contains(x)));
    if !live(h, x) {
        let j = choose|j: int| 0 <= j < gone.len() && gone[j] == x;
        assert(live(g, gone[j]));
        assert(removed[j] == node(g, x).transaction);
    }
}

/// A candidate whose id is in the pool already, and which may use some gas,
/// is refused as a duplicate.
pub proof fn lemma_duplicate_is_refused(pool: Pool, view: PersistentView, tx: PoolTx, e: Error)
    requires
        pool.holds_id(tx.id),
        tx.max_gas != 0,
    ensures
        !passes(pool, view, tx, 8),
        refused(pool, view, tx, e) ==> e == Error::DuplicateTxId(tx.id),
{
}

} // verus!
