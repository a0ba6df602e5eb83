//! How the pool's indices follow the storage when transactions leave it.

use vstd::prelude::*;
use crate::collision_manager::{claims_wf, Claim};
use crate::pool::{claims_match, ids_match, ids_wf, lists_id, selection_match, IdEntry, Pool};
use crate::selection_algorithms::ratio_tip_gas::{
    entry_of, key_of, lemma_key_order_equal, lemma_records_total_push, sorted, Entry, Key,
};
use crate::storage::graph::{records_of, subtree_removed, without_slots};
use crate::storage::reach::lemma_pool_total_bounds;
use crate::storage::steps::records_wf;
use crate::storage::{
    has_child, is_path, links_wf, live, node, reaches, records_total, weight, Measure, Nodes,
    StorageData,
};
use crate::types::{PoolTx, Resource, StorageIndex, TxId};

verus! {

/// `h` holds the transactions of `g` but those in the slots `gone`, each
/// with the transaction and the instant that it had in `g`.
pub open spec fn survivors(g: Nodes, h: Nodes, gone: Seq<StorageIndex>) -> bool {
    &&& h.len() == g.len()
    &&& forall|i: StorageIndex| #[trigger] live(h, i) <==> (live(g, i) && !gone.contains(i))
    &&& forall|i: StorageIndex| #[trigger]
        live(h, i) ==> node(h, i).transaction == node(g, i).transaction && node(
            h,
            i,
        ).creation_instant == node(g, i).creation_instant
}

/// One of the first `upto` records has the id.
pub open spec fn id_removed(records: Seq<StorageData>, upto: int, id: TxId) -> bool {
    exists|j: int| 0 <= j < upto && (#[trigger] records[j]).transaction.id == id
}

/// One of the first `upto` records claims the resource.
pub open spec fn claim_removed(records: Seq<StorageData>, upto: int, r: Resource) -> bool {
    exists|j: int| 0 <= j < upto && (#[trigger] records[j]).transaction.claims(r)
}

/// One of the first `upto` records has a key equal to `key`.
pub open spec fn key_removed(records: Seq<StorageData>, upto: int, key: Key) -> bool {
    exists|j: int| 0 <= j < upto && key.order(key_of(#[trigger] records[j])) is Equal
}

/// The sum over the first records of a list is at most the sum over all,
/// and grows by the weight of the next record.
pub proof fn lemma_records_total_prefix(records: Seq<StorageData>, k: int, m: Measure)
    requires
        0 <= k <= records.len(),
    ensures
        0 <= records_total(records.subrange(0, k), m) <= records_total(records, m),
        k < records.len() ==> records_total(records.subrange(0, k + 1), m) == records_total(
            records.subrange(0, k),
            m,
        ) + weight(records[k].transaction, m),
    decreases records.len() - k,
{
    lemma_records_total_push(records.subrange(0, k), records[0], m);
    if k < records.len() {
        assert(records.subrange(0, k + 1) == records.subrange(0, k).push(records[k]));
        lemma_records_total_push(records.subrange(0, k), records[k], m);
        lemma_records_total_prefix(records, k + 1, m);
    } else {
        assert(records.subrange(0, k) == records);
    }
}

/// The records of a list of slots are the records of its prefixes.
pub proof fn lemma_records_of_distinct_ids(
    g: Nodes,
    records: Seq<StorageData>,
    slots: Seq<StorageIndex>,
    a: int,
    b: int,
)
    requires
        records_wf(g),
        records_of(g, records, slots),
        0 <= a < records.len(),
        0 <= b < records.len(),
        a != b,
    ensures
        records[a].transaction.id != records[b].transaction.id,
{
    assert(live(g, slots[a]) && live(g, slots[b]));
    assert(slots[a] != slots[b]);
}

/// A removal that leaves the parents of the others alone is a removal of
/// whole subtrees: what a removed transaction reaches is removed too.
pub proof fn lemma_cascade(
    g: Nodes,
    h: Nodes,
    gone: Seq<StorageIndex>,
    r: StorageIndex,
    x: StorageIndex,
)
    requires
        links_wf(g),
        links_wf(h),
        without_slots(g, h, gone),
        reaches(g, r, x),
        !live(h, r),
    ensures
        !live(h, x),
{
    let p = choose|p: Seq<StorageIndex>| #[trigger]
        is_path(g, p) && p[0] == r && p[p.len() - 1] == x;
    lemma_cascade_path(g, h, gone, p, p.len() - 1);
}

proof fn lemma_cascade_path(
    g: Nodes,
    h: Nodes,
    gone: Seq<StorageIndex>,
    p: Seq<StorageIndex>,
    k: int,
)
    requires
        links_wf(g),
        links_wf(h),
        without_slots(g, h, gone),
        is_path(g, p),
        !live(h, p[0]),
        0 <= k < p.len(),
    ensures
        !live(h, p[k]),
    decreases k,
{
    if k > 0 {
        lemma_cascade_path(g, h, gone, p, k - 1);
        let a = p[k - 1];
        let b = p[k];
        assert(live(g, p[k - 1]));
        assert(node(g, p[k - 1]).children@.contains(p[k - 1 + 1]));
        if live(h, b) {
            let j = choose|j: int|
                0 <= j < node(g, a).children@.len() && node(g, a).children@[j] == b;
            assert(live(g, node(g, a).children@[j]) && node(
                g,
                node(g, a).children@[j],
            ).parents@.contains(a));
            assert(node(h, b).parents@.contains(a));
            let y = choose|y: int|
                0 <= y < node(h, b).parents@.len() && node(h, b).parents@[y] == a;
            assert(has_child(h, node(h, b).parents@[y], b));
        }
    }
}

/// Two removals in a row are one removal.
pub proof fn lemma_without_slots_compose(
    g0: Nodes,
    g1: Nodes,
    g2: Nodes,
    s1: Seq<StorageIndex>,
    s2: Seq<StorageIndex>,
    r1: Seq<StorageData>,
    r2: Seq<StorageData>,
)
    requires
        without_slots(g0, g1, s1),
        without_slots(g1, g2, s2),
        records_of(g0, r1, s1),
        records_of(g1, r2, s2),
    ensures
        without_slots(g0, g2, s1 + s2),
        records_of(g0, r1 + r2, s1 + s2),
{
    let s = s1 + s2;
    let r = r1 + r2;
    assert forall|i: StorageIndex| s.contains(i) <==> (s1.contains(i) || s2.contains(i)) by {
        if s.contains(i) {
            let j = choose|j: int| 0 <= j < s.len() && s[j] == i;
            if j < s1.len() {
                assert(s1[j] == i);
            } else {
                assert(s2[j - s1.len()] == i);
            }
        }
        if s1.contains(i) {
            let j = choose|j: int| 0 <= j < s1.len() && s1[j] == i;
            assert(s[j] == i);
        }
        if s2.contains(i) {
            let j = choose|j: int| 0 <= j < s2.len() && s2[j] == i;
            assert(s[j + s1.len()] == i);
        }
    }
    assert forall|i: StorageIndex| #[trigger] live(g2, i) <==> (live(g0, i) && !s.contains(i)) by {
        assert(live(g2, i) <==> (live(g1, i) && !s2.contains(i)));
        assert(live(g1, i) <==> (live(g0, i) && !s1.contains(i)));
    }
    assert forall|i: StorageIndex| #[trigger] live(g2, i) implies {
        &&& node(g2, i).transaction == node(g0, i).transaction
        &&& node(g2, i).creation_instant == node(g0, i).creation_instant
        &&& node(g2, i).parents@ == node(g0, i).parents@
        &&& forall|c: StorageIndex|
            #![trigger node(g2, i).children@.contains(c)]
            #![trigger node(g0, i).children@.contains(c)]
            node(g2, i).children@.contains(c) <==> (node(g0, i).children@.contains(c)
                && !s.contains(c))
    } by {
        assert(live(g1, i));
        assert forall|c: StorageIndex|
            #![trigger node(g2, i).children@.contains(c)]
            #![trigger node(g0, i).children@.contains(c)]
            node(g2, i).children@.contains(c) <==> (node(g0, i).children@.contains(c)
                && !s.contains(c)) by {
            assert(node(g2, i).children@.contains(c) <==> (node(g1, i).children@.contains(c)
                && !s2.contains(c)));
            assert(node(g1, i).children@.contains(c) <==> (node(g0, i).children@.contains(c)
                && !s1.contains(c)));
        }
    }
    assert forall|a: int, b: int| 0 <= a < s.len() && 0 <= b < s.len() && a != b implies s[a]
        != s[b] by {
        if a < s1.len() && b >= s1.len() {
            assert(s1.contains(s1[a]));
            assert(live(g1, s2[b - s1.len()]));
        }
        if b < s1.len() && a >= s1.len() {
            assert(s1.contains(s1[b]));
            assert(live(g1, s2[a - s1.len()]));
        }
    }
    assert forall|k: int| 0 <= k < s.len() implies {
        &&& live(g0, #[trigger] s[k])
        &&& r[k].transaction == node(g0, s[k]).transaction
        &&& r[k].creation_instant == node(g0, s[k]).creation_instant
    } by {
        if k < s1.len() {
            assert(s[k] == s1[k]);
            assert(r[k] == r1[k]);
        } else {
            assert(s[k] == s2[k - s1.len()]);
            assert(r[k] == r2[k - s1.len()]);
            assert(live(g1, s2[k - s1.len()]));
        }
    }
}

/// After the removal, the id index and the claims match the storage again.
pub proof fn lemma_ids_and_claims_after_removal(
    g: Nodes,
    h: Nodes,
    slots: Seq<StorageIndex>,
    records: Seq<StorageData>,
    index0: Seq<IdEntry>,
    index: Seq<IdEntry>,
    claims0: Seq<Claim>,
    claims: Seq<Claim>,
)
    requires
        records_wf(g),
        survivors(g, h, slots),
        records_of(g, records, slots),
        ids_match(index0, g),
        claims_match(claims0, g),
        ids_wf(index),
        claims_wf(claims),
        forall|e: IdEntry| #[trigger]
            index.contains(e) <==> (index0.contains(e) && !id_removed(
                records,
                records.len() as int,
                e.id,
            )),
        forall|c: Claim| #[trigger]
            claims.contains(c) <==> (claims0.contains(c) && !claim_removed(
                records,
                records.len() as int,
                c.resource,
            )),
    ensures
        ids_match(index, h),
        claims_match(claims, h),
{
    let n = records.len() as int;
    assert forall|k: int| 0 <= k < index.len() implies live(h, (#[trigger] index[k]).slot) && node(
        h,
        index[k].slot,
    ).transaction.id == index[k].id by {
        let e = index[k];
        assert(index.contains(e));
        assert(index0.contains(e));
        let x = choose|x: int| 0 <= x < index0.len() && index0[x] == e;
        assert(live(g, index0[x].slot));
        assert(node(g, e.slot).transaction.id == e.id);
        assert(!slots.contains(e.slot)) by {
            if slots.contains(e.slot) {
                let j = choose|j: int| 0 <= j < slots.len() && slots[j] == e.slot;
                assert(live(g, slots[j]));
                assert(records[j].transaction == node(g, slots[j]).transaction);
                assert(records[j].transaction.id == e.id);
                assert(id_removed(records, n, e.id));
            }
        }
        assert(live(h, e.slot));
    }
    assert forall|i: StorageIndex| #[trigger] live(h, i) implies index.contains(
        IdEntry { id: node(h, i).transaction.id, slot: i },
    ) by {
        let e = IdEntry { id: node(h, i).transaction.id, slot: i };
        assert(live(g, i));
        if id_removed(records, n, e.id) {
            let j = choose|j: int| 0 <= j < n && (#[trigger] records[j]).transaction.id == e.id;
            assert(live(g, slots[j]));
            assert(slots[j] == i);
            assert(slots.contains(i));
        }
    }
    assert forall|k: int| 0 <= k < claims.len() implies live(h, (#[trigger] claims[k]).owner)
        && node(h, claims[k].owner).transaction.claims(claims[k].resource) by {
        let c = claims[k];
        assert(claims.contains(c));
        assert(claims0.contains(c));
        let x = choose|x: int| 0 <= x < claims0.len() && claims0[x] == c;
        assert(live(g, claims0[x].owner));
        assert(node(g, c.owner).transaction.claims(c.resource));
        assert(!slots.contains(c.owner)) by {
            if slots.contains(c.owner) {
                let j = choose|j: int| 0 <= j < slots.len() && slots[j] == c.owner;
                assert(live(g, slots[j]));
                assert(records[j].transaction == node(g, slots[j]).transaction);
                assert(records[j].transaction.claims(c.resource));
                assert(claim_removed(records, n, c.resource));
            }
        }
        assert(live(h, c.owner));
    }
    assert forall|i: StorageIndex, r: Resource|
        live(h, i) && #[trigger] node(h, i).transaction.claims(r) implies claims.contains(
        Claim { resource: r, owner: i },
    ) by {
        let c = Claim { resource: r, owner: i };
        assert(live(g, i));
        assert(node(g, i).transaction.claims(r));
        assert(claims0.contains(c));
        if claim_removed(records, n, r) {
            let j = choose|j: int| 0 <= j < n && (#[trigger] records[j]).transaction.claims(r);
            assert(live(g, slots[j]));
            assert(node(g, slots[j]).transaction.claims(r));
            let c2 = Claim { resource: r, owner: slots[j] };
            assert(claims0.contains(c2));
            let x = choose|x: int| 0 <= x < claims0.len() && claims0[x] == c;
            let y = choose|y: int| 0 <= y < claims0.len() && claims0[y] == c2;
            assert(claims0[x].resource == claims0[y].resource);
            assert(x == y);
            assert(slots.contains(i));
        }
    }
}

/// After the removal of whole subtrees, the selection index matches the
/// storage again.
pub proof fn lemma_selection_after_subtrees(
    g: Nodes,
    h: Nodes,
    slots: Seq<StorageIndex>,
    records: Seq<StorageData>,
    sel0: Seq<Entry>,
    sel: Seq<Entry>,
)
    requires
        records_wf(g),
        without_slots(g, h, slots),
        records_of(g, records, slots),
        selection_match(sel0, g),
        sorted(sel),
        forall|e: Entry| #[trigger]
            sel.contains(e) <==> (sel0.contains(e) && !key_removed(
                records,
                records.len() as int,
                e.key,
            )),
    ensures
        selection_match(sel, h),
{
    let n = records.len() as int;
    assert forall|k: int| 0 <= k < sel.len() implies live(h, (#[trigger] sel[k]).storage_id) by {
        let e = sel[k];
        assert(sel.contains(e));
        let x = choose|x: int| 0 <= x < sel0.len() && sel0[x] == e;
        assert(live(g, sel0[x].storage_id));
        if slots.contains(e.storage_id) {
            let j = choose|j: int| 0 <= j < slots.len() && slots[j] == e.storage_id;
            assert(key_of(records[j]) == e.key);
            lemma_key_order_equal(e.key, e.key);
            assert(key_removed(records, n, e.key));
        }
    }
    assert forall|k: int| 0 <= k < sel.len() && live(h, (#[trigger] sel[k]).storage_id) implies node(
        h,
        sel[k].storage_id,
    ).parents@.len() == 0 && sel[k] == entry_of(h, sel[k].storage_id) by {
        let e = sel[k];
        assert(sel.contains(e));
        let x = choose|x: int| 0 <= x < sel0.len() && sel0[x] == e;
        assert(live(g, sel0[x].storage_id));
    }
    assert forall|i: StorageIndex|
        #![trigger live(h, i)]
        live(h, i) && node(h, i).parents@.len() == 0 implies sel.contains(entry_of(h, i)) by {
        let e = entry_of(h, i);
        assert(live(g, i));
        assert(sel0.contains(entry_of(g, i)));
        if key_removed(records, n, e.key) {
            let j = choose|j: int| 0 <= j < n && e.key.order(key_of(#[trigger] records[j])) is Equal;
            lemma_key_order_equal(e.key, key_of(records[j]));
            assert(live(g, slots[j]));
            assert(slots[j] == i);
            assert(slots.contains(i));
        }
    }
}

/// After an extraction, and the removal of the keys of what was extracted
/// from a selection index that matched the storage already, the index still
/// matches.
pub proof fn lemma_selection_after_extraction(
    g: Nodes,
    h: Nodes,
    slots: Seq<StorageIndex>,
    records: Seq<StorageData>,
    sel0: Seq<Entry>,
    sel: Seq<Entry>,
)
    requires
        records_wf(g),
        survivors(g, h, slots),
        records_of(g, records, slots),
        selection_match(sel0, h),
        sorted(sel),
        forall|e: Entry| #[trigger]
            sel.contains(e) <==> (sel0.contains(e) && !key_removed(
                records,
                records.len() as int,
                e.key,
            )),
    ensures
        selection_match(sel, h),
{
    let n = records.len() as int;
    assert forall|k: int| 0 <= k < sel.len() implies live(h, (#[trigger] sel[k]).storage_id) by {
        let e = sel[k];
        assert(sel.contains(e));
        let x = choose|x: int| 0 <= x < sel0.len() && sel0[x] == e;
        assert(live(h, sel0[x].storage_id));
    }
    assert forall|k: int| 0 <= k < sel.len() && live(h, (#[trigger] sel[k]).storage_id) implies node(
        h,
        sel[k].storage_id,
    ).parents@.len() == 0 && sel[k] == entry_of(h, sel[k].storage_id) by {
        let e = sel[k];
        assert(sel.contains(e));
        let x = choose|x: int| 0 <= x < sel0.len() && sel0[x] == e;
        assert(live(h, sel0[x].storage_id));
    }
    assert forall|i: StorageIndex|
        #![trigger live(h, i)]
        live(h, i) && node(h, i).parents@.len() == 0 implies sel.contains(entry_of(h, i)) by {
        let e = entry_of(h, i);
        assert(live(g, i));
        assert(sel0.contains(e));
        if key_removed(records, n, e.key) {
            let j = choose|j: int| 0 <= j < n && e.key.order(key_of(#[trigger] records[j])) is Equal;
            lemma_key_order_equal(e.key, key_of(records[j]));
            assert(live(g, slots[j]));
            assert(slots[j] == i);
            assert(slots.contains(i));
        }
    }
}

/// The transactions of a list of records, in the same order.
pub fn into_transactions(records: Vec<StorageData>) -> (txs: Vec<PoolTx>)
    ensures
        txs@.len() == records@.len(),
        forall|j: int| 0 <= j < txs@.len() ==> #[trigger] txs@[j] == records@[j].transaction,
{
    let ghost all = records@;
    let mut records = records;
    let mut reversed: Vec<PoolTx> = Vec::new();
    while records.len() > 0
        invariant
            records@.len() + reversed@.len() == all.len(),
            forall|j: int| 0 <= j < records@.len() ==> #[trigger] records@[j] == all[j],
            forall|j: int|
                0 <= j < reversed@.len() ==> #[trigger] reversed@[j] == all[all.len() - 1
                    - j].transaction,
        decreases records@.len(),
    {
        let data = records.pop().unwrap();
        reversed.push(data.transaction);
    }
    let ghost turned = reversed@;
    let mut txs: Vec<PoolTx> = Vec::new();
    while reversed.len() > 0
        invariant
            turned.len() == all.len(),
            reversed@.len() + txs@.len() == all.len(),
            forall|j: int| 0 <= j < reversed@.len() ==> #[trigger] reversed@[j] == turned[j],
            forall|j: int| 0 <= j < turned.len() ==> #[trigger] turned[j] == all[all.len() - 1
                - j].transaction,
            forall|j: int| 0 <= j < txs@.len() ==> #[trigger] txs@[j] == all[j].transaction,
        decreases reversed@.len(),
    {
        let tx = reversed.pop().unwrap();
        txs.push(tx);
    }
    txs
}

impl Pool {
    /// Takes the removed transactions out of the id index, the collision
    /// manager and the selection index, and their gas and size out of the
    /// pool's sums.
    pub(crate) fn update_components_and_caches_on_removal(
        &mut self,
        removed: &Vec<StorageData>,
        Ghost(g): Ghost<Nodes>,
        Ghost(slots): Ghost<Seq<StorageIndex>>,
    )
        requires
            records_wf(g),
            records_of(g, removed@, slots),
            ids_match(old(self).tx_id_to_storage_id@, g),
            old(self).collision_manager.wf(),
            old(self).selection_algorithm.wf(),
            old(self).current_gas >= records_total(removed@, Measure::Gas),
            old(self).current_bytes_size >= records_total(removed@, Measure::Bytes),
        ensures
            final(self).storage == old(self).storage,
            final(self).config == old(self).config,
            ids_wf(final(self).tx_id_to_storage_id@),
            forall|e: IdEntry| #[trigger]
                final(self).tx_id_to_storage_id@.contains(e) <==> (old(
                    self,
                ).tx_id_to_storage_id@.contains(e) && !id_removed(
                    removed@,
                    removed@.len() as int,
                    e.id,
                )),
            final(self).tx_id_to_storage_id@.len() == old(self).tx_id_to_storage_id@.len()
                - removed@.len(),
            final(self).collision_manager.wf(),
            forall|c: Claim| #[trigger]
                final(self).collision_manager@.contains(c) <==> (old(
                    self,
                ).collision_manager@.contains(c) && !claim_removed(
                    removed@,
                    removed@.len() as int,
                    c.resource,
                )),
            final(self).selection_algorithm.wf(),
            forall|e: Entry| #[trigger]
                final(self).selection_algorithm@.contains(e) <==> (old(
                    self,
                ).selection_algorithm@.contains(e) && !key_removed(
                    removed@,
                    removed@.len() as int,
                    e.key,
                )),
            final(self).current_gas == old(self).current_gas - records_total(
                removed@,
                Measure::Gas,
            ),
            final(self).current_bytes_size == old(self).current_bytes_size - records_total(
                removed@,
                Measure::Bytes,
            ),
    {
        let ghost index0 = self.tx_id_to_storage_id@;
        let ghost claims0 = self.collision_manager@;
        let ghost sel0 = self.selection_algorithm@;
        let mut k: usize = 0;
        proof {
            lemma_records_total_prefix(removed@, 0, Measure::Gas);
            lemma_records_total_prefix(removed@, 0, Measure::Bytes);
            assert(removed@.subrange(0, 0).len() == 0);
        }
        while k < removed.len()
            invariant
                0 <= k <= removed@.len(),
                records_wf(g),
                records_of(g, removed@, slots),
                ids_match(index0, g),
                self.storage == old(self).storage,
                self.config == old(self).config,
                ids_wf(self.tx_id_to_storage_id@),
                forall|e: IdEntry| #[trigger]
                    self.tx_id_to_storage_id@.contains(e) <==> (index0.contains(e) && !id_removed(
                        removed@,
                        k as int,
                        e.id,
                    )),
                self.tx_id_to_storage_id@.len() == index0.len() - k,
                self.collision_manager.wf(),
                forall|c: Claim| #[trigger]
                    self.collision_manager@.contains(c) <==> (claims0.contains(c)
                        && !claim_removed(removed@, k as int, c.resource)),
                self.selection_algorithm.wf(),
                forall|e: Entry| #[trigger]
                    self.selection_algorithm@.contains(e) <==> (sel0.contains(e) && !key_removed(
                        removed@,
                        k as int,
                        e.key,
                    )),
                old(self).current_gas >= records_total(removed@, Measure::Gas),
                old(self).current_bytes_size >= records_total(removed@, Measure::Bytes),
                self.current_gas == old(self).current_gas - records_total(
                    removed@.subrange(0, k as int),
                    Measure::Gas,
                ),
                self.current_bytes_size == old(self).current_bytes_size - records_total(
                    removed@.subrange(0, k as int),
                    Measure::Bytes,
                ),
            decreases removed@.len() - k,
        {
            let storage_entry = &removed[k];
            let ghost index1 = self.tx_id_to_storage_id@;
            let ghost claims1 = self.collision_manager@;
            let ghost sel1 = self.selection_algorithm@;
            proof {
                lemma_records_total_prefix(removed@, k as int, Measure::Gas);
                lemma_records_total_prefix(removed@, k as int, Measure::Bytes);
                lemma_records_total_prefix(removed@, k + 1, Measure::Gas);
                lemma_records_total_prefix(removed@, k + 1, Measure::Bytes);
                // The id is still listed.
                let id = removed@[k as int].transaction.id;
                let e0 = IdEntry { id, slot: slots[k as int] };
                assert(live(g, slots[k as int]));
                assert(index0.contains(e0));
                if id_removed(removed@, k as int, id) {
                    let j = choose|j: int|
                        0 <= j < k && (#[trigger] removed@[j]).transaction.id == id;
                    lemma_records_of_distinct_ids(g, removed@, slots, j, k as int);
                }
                assert(index1.contains(e0));
                let x = choose|x: int| 0 <= x < index1.len() && index1[x] == e0;
                assert(index1[x].id == id);
                assert(lists_id(index1, id));
                assert(node(g, slots[k as int]).transaction.max_gas > 0);
            }
            self.current_gas = self.current_gas - storage_entry.transaction.max_gas as u128;
            self.current_bytes_size = self.current_bytes_size
                - storage_entry.transaction.metered_bytes_size as u128;
            self.tx_id_to_storage_id.remove(&storage_entry.transaction.id);
            self.collision_manager.on_removed_transaction(&storage_entry.transaction);
            self.selection_algorithm.on_removed_transaction(storage_entry);
            proof {
                let rec = removed@[k as int];
                assert forall|e: IdEntry| #[trigger]
                    self.tx_id_to_storage_id@.contains(e) <==> (index0.contains(e) && !id_removed(
                        removed@,
                        k + 1,
                        e.id,
                    )) by {
                    assert(self.tx_id_to_storage_id@.contains(e) <==> (index1.contains(e) && e.id
                        != rec.transaction.id));
                    if id_removed(removed@, k + 1, e.id) {
                        let j = choose|j: int|
                            0 <= j < k + 1 && (#[trigger] removed@[j]).transaction.id == e.id;
                        if j < k {
                            assert(id_removed(removed@, k as int, e.id));
                        }
                    }
                    if id_removed(removed@, k as int, e.id) {
                        let j = choose|j: int|
                            0 <= j < k && (#[trigger] removed@[j]).transaction.id == e.id;
                        assert(removed@[j].transaction.id == e.id);
                    }
                    if e.id == rec.transaction.id {
                        assert(removed@[k as int].transaction.id == e.id);
                    }
                }
                assert forall|c: Claim| #[trigger]
                    self.collision_manager@.contains(c) <==> (claims0.contains(c)
                        && !claim_removed(removed@, k + 1, c.resource)) by {
                    assert(self.collision_manager@.contains(c) <==> (claims1.contains(c)
                        && !rec.transaction.claims(c.resource)));
                    if claim_removed(removed@, k + 1, c.resource) {
                        let j = choose|j: int|
                            0 <= j < k + 1 && (#[trigger] removed@[j]).transaction.claims(
                                c.resource,
                            );
                        if j < k {
                            assert(claim_removed(removed@, k as int, c.resource));
                        }
                    }
                    if claim_removed(removed@, k as int, c.resource) {
                        let j = choose|j: int|
                            0 <= j < k && (#[trigger] removed@[j]).transaction.claims(c.resource);
                        assert(removed@[j].transaction.claims(c.resource));
                    }
                    if rec.transaction.claims(c.resource) {
                        assert(removed@[k as int].transaction.claims(c.resource));
                    }
                }
                assert forall|e: Entry| #[trigger]
                    self.selection_algorithm@.contains(e) <==> (sel0.contains(e) && !key_removed(
                        removed@,
                        k + 1,
                        e.key,
                    )) by {
                    assert(self.selection_algorithm@.contains(e) <==> (sel1.contains(e) && !(
                    e.key.order(key_of(rec)) is Equal)));
                    if key_removed(removed@, k + 1, e.key) {
                        let j = choose|j: int|
                            0 <= j < k + 1 && e.key.order(key_of(#[trigger] removed@[j])) is Equal;
                        if j < k {
                            assert(key_removed(removed@, k as int, e.key));
                        }
                    }
                    if key_removed(removed@, k as int, e.key) {
                        let j = choose|j: int|
                            0 <= j < k && e.key.order(key_of(#[trigger] removed@[j])) is Equal;
                        assert(e.key.order(key_of(removed@[j])) is Equal);
                    }
                    if e.key.order(key_of(rec)) is Equal {
                        assert(e.key.order(key_of(removed@[k as int])) is Equal);
                    }
                }
            }
            k += 1;
        }
        proof {
            assert(removed@.subrange(0, removed@.len() as int) == removed@);
        }
    }

    /// Removes a stored transaction and all its dependents from the pool.
    pub(crate) fn displace(&mut self, root: StorageIndex) -> (removed: Vec<StorageData>)
        requires
            old(self).wf(),
        ensures
            final(self).wf(),
            final(self).config == old(self).config,
            final(self).storage.config == old(self).storage.config,
            !live(old(self)@, root) ==> removed@.len() == 0 && *final(self) == *old(self),
            live(old(self)@, root) ==> exists|slots: Seq<StorageIndex>| #[trigger]
                subtree_removed(old(self)@, final(self)@, root, removed@, slots),
    {
        let ghost g = self@;
        let ghost index0 = self.tx_id_to_storage_id@;
        let ghost claims0 = self.collision_manager@;
        let ghost sel0 = self.selection_algorithm@;
        let removed = self.storage.remove_transaction_and_dependents_subtree(root);
        if removed.len() == 0 {
            proof {
                if live(g, root) {
                    let slots = choose|slots: Seq<StorageIndex>| #[trigger]
                        subtree_removed(g, self@, root, removed@, slots);
                    crate::storage::reach::lemma_reaches_self(g, root);
                    assert(slots.contains(root));
                }
            }
            return removed;
        }
        proof {
            assert(live(g, root));
        }
        let ghost slots = choose|slots: Seq<StorageIndex>| #[trigger]
            subtree_removed(g, self@, root, removed@, slots);
        proof {
            lemma_pool_total_bounds(self@, Measure::Gas);
            lemma_pool_total_bounds(self@, Measure::Bytes);
        }
        self.update_components_and_caches_on_removal(&removed, Ghost(g), Ghost(slots));
        proof {
            assert(survivors(g, self@, slots));
            lemma_ids_and_claims_after_removal(
                g,
                self@,
                slots,
                removed@,
                index0,
                self.tx_id_to_storage_id@,
                claims0,
                self.collision_manager@,
            );
            lemma_selection_after_subtrees(
                g,
                self@,
                slots,
                removed@,
                sel0,
                self.selection_algorithm@,
            );
        }
        removed
    }
}

} // verus!
