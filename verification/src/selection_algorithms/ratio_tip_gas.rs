//! Selection by tip per gas: the executable transactions, best first.

use vstd::prelude::*;
use crate::ratio::{
    compare_ratios, lemma_ratio_order_mirror, lemma_ratio_order_transitive, ratio_order, Order,
};
use crate::selection_algorithms::Constraints;
use crate::storage::graph::GraphStorage;
use crate::storage::reach::{lemma_pool_total_bounds, lemma_root_pool_total};
use crate::storage::steps::{records_wf, root_step};
use crate::storage::{
    links_wf, live, node, pool_total, records_total, weight, Measure, Nodes, StorageData,
};
use crate::types::{StorageIndex, TxId};

verus! {

/// Key by which the executable transactions are sorted: by tip per gas,
/// then by the instant of admission, then by transaction id.
#[derive(Clone, Copy, Debug, PartialEq, Eq, Structural)]
pub struct Key {
    /// Numerator of the ratio: the tip.
    pub tip: u64,
    /// Denominator of the ratio: the maximal gas, which is not zero.
    pub gas: u64,
    pub creation_instant: u64,
    pub tx_id: TxId,
}

impl Key {
    /// How `self` stands to `other`. The greater key is the one selected
    /// first: the one with the higher ratio; at equal ratios the one admitted
    /// earlier; at equal instants the one with the lower transaction id.
    pub open spec fn order(self, other: Key) -> Order {
        match ratio_order(self.tip as u128, self.gas as u128, other.tip as u128, other.gas as u128) {
            Order::Less => Order::Less,
            Order::Greater => Order::Greater,
            Order::Equal => {
                if self.creation_instant > other.creation_instant {
                    Order::Less
                } else if self.creation_instant < other.creation_instant {
                    Order::Greater
                } else if other.tx_id.precedes(self.tx_id) {
                    Order::Less
                } else if self.tx_id.precedes(other.tx_id) {
                    Order::Greater
                } else {
                    Order::Equal
                }
            },
        }
    }

    /// `self` is selected before `other`.
    pub open spec fn before(self, other: Key) -> bool {
        self.order(other) is Greater
    }

    /// Compares two keys.
    pub fn cmp(&self, other: &Key) -> (r: Order)
        requires
            self.gas != 0,
            other.gas != 0,
        ensures
            r == self.order(*other),
    {
        let by_ratio = compare_ratios(
            u128::from(self.tip),
            u128::from(self.gas),
            u128::from(other.tip),
            u128::from(other.gas),
        );
        match by_ratio {
            Order::Less => Order::Less,
            Order::Greater => Order::Greater,
            Order::Equal => {
                if self.creation_instant > other.creation_instant {
                    Order::Less
                } else if self.creation_instant < other.creation_instant {
                    Order::Greater
                } else if other.tx_id.lt(&self.tx_id) {
                    Order::Less
                } else if self.tx_id.lt(&other.tx_id) {
                    Order::Greater
                } else {
                    Order::Equal
                }
            },
        }
    }

    /// Compares two keys; every two keys are comparable.
    pub fn partial_cmp(&self, other: &Key) -> (r: Option<Order>)
        requires
            self.gas != 0,
            other.gas != 0,
        ensures
            r == Some(self.order(*other)),
    {
        Some(self.cmp(other))
    }

    /// Whether the two keys compare as equal.
    pub fn is_equal(&self, other: &Key) -> (r: bool)
        requires
            self.gas != 0,
            other.gas != 0,
        ensures
            r == (self.order(*other) is Equal),
    {
        match self.cmp(other) {
            Order::Equal => true,
            _ => false,
        }
    }

    /// Whether `self` is selected before `other`.
    pub fn is_before(&self, other: &Key) -> (r: bool)
        requires
            self.gas != 0,
            other.gas != 0,
        ensures
            r == self.before(*other),
    {
        match self.cmp(other) {
            Order::Greater => true,
            _ => false,
        }
    }
}

/// Keys that compare as equal have the same ratio, the same instant and the
/// same transaction id.
pub proof fn lemma_key_order_equal(a: Key, b: Key)
    ensures
        a.order(b) is Equal <==> (ratio_order(
            a.tip as u128,
            a.gas as u128,
            b.tip as u128,
            b.gas as u128,
        ) is Equal && a.creation_instant == b.creation_instant && a.tx_id == b.tx_id),
        a.order(a) is Equal,
{
}

/// Swapping two keys mirrors their order.
pub proof fn lemma_key_order_mirror(a: Key, b: Key)
    ensures
        a.order(b) is Less <==> b.order(a) is Greater,
        a.order(b) is Equal <==> b.order(a) is Equal,
        a.order(b) is Greater <==> b.order(a) is Less,
{
    lemma_ratio_order_mirror(a.tip as u128, a.gas as u128, b.tip as u128, b.gas as u128);
}

/// The order of keys is transitive.
pub proof fn lemma_key_order_transitive(a: Key, b: Key, c: Key)
    requires
        a.gas != 0,
        b.gas != 0,
        c.gas != 0,
        !(a.order(b) is Less),
        !(b.order(c) is Less),
    ensures
        !(a.order(c) is Less),
        a.order(b) is Greater || b.order(c) is Greater ==> a.order(c) is Greater,
{
    lemma_ratio_order_transitive(
        a.tip as u128,
        a.gas as u128,
        b.tip as u128,
        b.gas as u128,
        c.tip as u128,
        c.gas as u128,
    );
    lemma_ratio_order_mirror(a.tip as u128, a.gas as u128, c.tip as u128, c.gas as u128);
    if ratio_order(a.tip as u128, a.gas as u128, c.tip as u128, c.gas as u128) is Equal {
        // Then all three ratios are equal.
        lemma_ratio_order_mirror(a.tip as u128, a.gas as u128, b.tip as u128, b.gas as u128);
        lemma_ratio_order_mirror(b.tip as u128, b.gas as u128, c.tip as u128, c.gas as u128);
        if ratio_order(a.tip as u128, a.gas as u128, b.tip as u128, b.gas as u128) is Greater {
            lemma_ratio_order_transitive(
                c.tip as u128,
                c.gas as u128,
                a.tip as u128,
                a.gas as u128,
                b.tip as u128,
                b.gas as u128,
            );
        }
    }
}

/// One executable transaction in the sorted index.
#[derive(Clone, Copy, Debug, PartialEq, Eq, Structural)]
pub struct Entry {
    pub key: Key,
    pub storage_id: StorageIndex,
}

/// The key of a stored transaction.
pub open spec fn key_of(data: StorageData) -> Key {
    Key {
        tip: data.transaction.tip,
        gas: data.transaction.max_gas,
        creation_instant: data.creation_instant,
        tx_id: data.transaction.id,
    }
}

/// The entries are sorted, best first, and no two have equal keys.
pub open spec fn sorted(entries: Seq<Entry>) -> bool {
    &&& forall|i: int| 0 <= i < entries.len() ==> (#[trigger] entries[i]).key.gas != 0
    &&& forall|i: int, j: int|
        0 <= i < j < entries.len() ==> (#[trigger] entries[i]).key.before(
            (#[trigger] entries[j]).key,
        )
}

/// The entry that an executable transaction has in the index.
pub open spec fn entry_of(g: Nodes, i: StorageIndex) -> Entry {
    Entry { key: key_of(node(g, i)), storage_id: i }
}

/// Every entry whose transaction is stored belongs to a transaction without
/// parents, and holds its key.
pub open spec fn selection_sound(sel: Seq<Entry>, g: Nodes) -> bool {
    forall|k: int|
        0 <= k < sel.len() && live(g, (#[trigger] sel[k]).storage_id) ==> node(
            g,
            sel[k].storage_id,
        ).parents@.len() == 0 && sel[k] == entry_of(g, sel[k].storage_id)
}

/// Every stored transaction without parents has its entry.
pub open spec fn selection_complete(sel: Seq<Entry>, g: Nodes) -> bool {
    forall|i: StorageIndex|
        #![trigger live(g, i)]
        live(g, i) && node(g, i).parents@.len() == 0 ==> sel.contains(entry_of(g, i))
}

/// Every entry belongs to a stored transaction.
pub open spec fn selection_fresh(sel: Seq<Entry>, g: Nodes) -> bool {
    forall|k: int| 0 <= k < sel.len() ==> live(g, (#[trigger] sel[k]).storage_id)
}

/// `h` is `g` without the transactions in `gone`, each of which had lost
/// all its parents when it left: the others keep their transaction, their
/// instant and their children, and lose the parents that `gone` holds.
pub open spec fn without_roots(g: Nodes, h: Nodes, gone: Seq<StorageIndex>) -> bool {
    &&& h.len() == g.len()
    &&& forall|i: StorageIndex| #[trigger] live(h, i) <==> (live(g, i) && !gone.contains(i))
    &&& forall|i: StorageIndex| #[trigger]
        live(h, i) ==> {
            &&& node(h, i).transaction == node(g, i).transaction
            &&& node(h, i).creation_instant == node(g, i).creation_instant
            &&& node(h, i).children@ == node(g, i).children@
            &&& forall|p: StorageIndex|
                #![trigger node(h, i).parents@.contains(p)]
                #![trigger node(g, i).parents@.contains(p)]
                node(h, i).parents@.contains(p) <==> (node(g, i).parents@.contains(p)
                    && !gone.contains(p))
        }
}

/// `records` are the records of the transactions that left `g` from the
/// slots `slots`, in the order in which they left; each left after all its
/// parents; `h` is what remains.
pub open spec fn extracted(
    g: Nodes,
    h: Nodes,
    slots: Seq<StorageIndex>,
    records: Seq<StorageData>,
) -> bool {
    &&& crate::storage::graph::records_of(g, records, slots)
    &&& without_roots(g, h, slots)
    &&& forall|k: int, p: StorageIndex|
        0 <= k < slots.len() && #[trigger] node(g, slots[k]).parents@.contains(p) ==> exists|
            j: int,
        |
            0 <= j < k && slots[j] == p
}

/// Every record accepts the gas price.
pub open spec fn all_priced(records: Seq<StorageData>, minimal_gas_price: u64) -> bool {
    forall|k: int|
        0 <= k < records.len() ==> (#[trigger] records[k]).transaction.max_gas_price
            >= minimal_gas_price
}

/// The stored transaction `i` cannot join the block: it caps its gas price
/// below the block's, or it does not fit into what is left of the block.
pub open spec fn passed_over(
    g: Nodes,
    i: StorageIndex,
    minimal_gas_price: u64,
    gas_left: int,
    space_left: int,
) -> bool {
    ||| node(g, i).transaction.max_gas_price < minimal_gas_price
    ||| node(g, i).transaction.max_gas > gas_left
    ||| node(g, i).transaction.metered_bytes_size > space_left
}

/// Gas that `records` leave of the block's budget.
pub open spec fn gas_left_after(constraints: Constraints, records: Seq<StorageData>) -> int {
    constraints.max_gas - records_total(records, Measure::Gas)
}

/// Bytes that `records` leave of the block's budget.
pub open spec fn space_left_after(constraints: Constraints, records: Seq<StorageData>) -> int {
    constraints.maximum_block_size - records_total(records, Measure::Bytes)
}

/// Nothing more can join the block: one of its budgets is used up, or every
/// stored transaction without parents is passed over.
pub open spec fn saturated(g: Nodes, constraints: Constraints, records: Seq<StorageData>) -> bool {
    ||| gas_left_after(constraints, records) == 0
    ||| space_left_after(constraints, records) == 0
    ||| records.len() >= constraints.maximum_txs
    ||| forall|i: StorageIndex|
        #![trigger live(g, i)]
        live(g, i) && node(g, i).parents@.len() == 0 ==> passed_over(
            g,
            i,
            constraints.minimal_gas_price,
            gas_left_after(constraints, records),
            space_left_after(constraints, records),
        )
}

proof fn lemma_empty_by_contains(s: Seq<StorageIndex>)
    requires
        forall|p: StorageIndex| !s.contains(p),
    ensures
        s.len() == 0,
{
    if s.len() > 0 {
        assert(s.contains(s[0]));
    }
}

proof fn lemma_entry_contains_push(s: Seq<Entry>, x: Entry, y: Entry)
    ensures
        s.push(x).contains(y) <==> (s.contains(y) || y == x),
{
    if s.push(x).contains(y) {
        let j = choose|j: int| 0 <= j < s.push(x).len() && s.push(x)[j] == y;
        if j < s.len() {
            assert(s[j] == y);
        }
    }
    if s.contains(y) {
        let j = choose|j: int| 0 <= j < s.len() && s[j] == y;
        assert(s.push(x)[j] == y);
    }
    if y == x {
        assert(s.push(x)[s.len() as int] == y);
    }
}

proof fn lemma_index_contains_push(s: Seq<StorageIndex>, x: StorageIndex, y: StorageIndex)
    ensures
        s.push(x).contains(y) <==> (s.contains(y) || y == x),
{
    if s.push(x).contains(y) {
        let j = choose|j: int| 0 <= j < s.push(x).len() && s.push(x)[j] == y;
        if j < s.len() {
            assert(s[j] == y);
        }
    }
    if s.contains(y) {
        let j = choose|j: int| 0 <= j < s.len() && s[j] == y;
        assert(s.push(x)[j] == y);
    }
    if y == x {
        assert(s.push(x)[s.len() as int] == y);
    }
}

/// One more root leaves.
proof fn lemma_without_roots_step(
    g: Nodes,
    h: Nodes,
    h2: Nodes,
    gone: Seq<StorageIndex>,
    r: StorageIndex,
)
    requires
        without_roots(g, h, gone),
        root_step(h, h2, r),
    ensures
        without_roots(g, h2, gone.push(r)),
{
    let gone2 = gone.push(r);
    assert forall|i: StorageIndex| gone2.contains(i) <==> (gone.contains(i) || i == r) by {
        lemma_index_contains_push(gone, r, i);
    }
    assert forall|i: StorageIndex| #[trigger] live(h2, i) <==> (live(g, i) && !gone2.contains(
        i,
    )) by {
        if i != r {
            assert(live(h, i) == live(h2, i));
        }
    }
    assert forall|i: StorageIndex| #[trigger] live(h2, i) implies {
        &&& node(h2, i).transaction == node(g, i).transaction
        &&& node(h2, i).creation_instant == node(g, i).creation_instant
        &&& node(h2, i).children@ == node(g, i).children@
        &&& forall|p: StorageIndex|
            #![trigger node(h2, i).parents@.contains(p)]
            #![trigger node(g, i).parents@.contains(p)]
            node(h2, i).parents@.contains(p) <==> (node(g, i).parents@.contains(p)
                && !gone2.contains(p))
    } by {
        assert(i != r);
        assert(live(h, i));
        assert(node(h2, i).transaction == node(h, i).transaction);
        assert(node(h2, i).children@ == node(h, i).children@);
        assert(node(h2, i).creation_instant == node(h, i).creation_instant);
        let ph2 = node(h2, i).parents@;
        let ph = node(h, i).parents@;
        let pg = node(g, i).parents@;
        assert(forall|p: StorageIndex| ph2.contains(p) <==> (ph.contains(p) && p != r));
        assert(forall|p: StorageIndex| ph.contains(p) <==> (pg.contains(p) && !gone.contains(p)));
        assert forall|p: StorageIndex| #[trigger]
            ph2.contains(p) <==> (pg.contains(p) && !gone2.contains(p)) by {
            lemma_index_contains_push(gone, r, p);
            assert(ph2.contains(p) <==> (ph.contains(p) && p != r));
            assert(ph.contains(p) <==> (pg.contains(p) && !gone.contains(p)));
        }
    }
}

/// The records grow by the one that just left.
proof fn lemma_extracted_step(
    g: Nodes,
    h: Nodes,
    h2: Nodes,
    slots: Seq<StorageIndex>,
    records: Seq<StorageData>,
    r: StorageIndex,
    data: StorageData,
)
    requires
        extracted(g, h, slots, records),
        root_step(h, h2, r),
        data == node(h, r),
        node(h, r).parents@.len() == 0,
    ensures
        extracted(g, h2, slots.push(r), records.push(data)),
{
    let slots2 = slots.push(r);
    let records2 = records.push(data);
    lemma_without_roots_step(g, h, h2, slots, r);
    assert(live(h, r));
    assert(!slots.contains(r));
    assert forall|a: int, b: int| 0 <= a < slots2.len() && 0 <= b < slots2.len() && a
        != b implies slots2[a] != slots2[b] by {
        if a < slots.len() {
            assert(slots.contains(slots[a]));
        }
        if b < slots.len() {
            assert(slots.contains(slots[b]));
        }
    }
    assert forall|k: int| 0 <= k < slots2.len() implies {
        &&& live(g, #[trigger] slots2[k])
        &&& records2[k].transaction == node(g, slots2[k]).transaction
        &&& records2[k].creation_instant == node(g, slots2[k]).creation_instant
    } by {
        if k < slots.len() {
            assert(slots2[k] == slots[k]);
            assert(records2[k] == records[k]);
        }
    }
    assert forall|k: int, p: StorageIndex|
        0 <= k < slots2.len() && #[trigger] node(g, slots2[k]).parents@.contains(
            p,
        ) implies exists|j: int| 0 <= j < k && slots2[j] == p by {
        if k < slots.len() {
            assert(slots2[k] == slots[k]);
            let j = choose|j: int| 0 <= j < k && slots[j] == p;
            assert(slots2[j] == p);
        } else {
            assert(!node(h, r).parents@.contains(p)) by {
                if node(h, r).parents@.contains(p) {
                    let x = choose|x: int|
                        0 <= x < node(h, r).parents@.len() && node(h, r).parents@[x] == p;
                }
            }
            assert(slots.contains(p));
            let j = choose|j: int| 0 <= j < slots.len() && slots[j] == p;
            assert(slots2[j] == p);
        }
    }
}

/// The index stays sound when a root leaves.
proof fn lemma_sound_step(sel: Seq<Entry>, h: Nodes, h2: Nodes, r: StorageIndex)
    requires
        selection_sound(sel, h),
        root_step(h, h2, r),
    ensures
        selection_sound(sel, h2),
{
    assert forall|k: int| 0 <= k < sel.len() && live(h2, (#[trigger] sel[k]).storage_id) implies node(
        h2,
        sel[k].storage_id,
    ).parents@.len() == 0 && sel[k] == entry_of(h2, sel[k].storage_id) by {
        let i = sel[k].storage_id;
        assert(i != r);
        assert(live(h, i));
        assert forall|p: StorageIndex| !node(h2, i).parents@.contains(p) by {
            if node(h, i).parents@.contains(p) {
                let x = choose|x: int|
                    0 <= x < node(h, i).parents@.len() && node(h, i).parents@[x] == p;
            }
        }
        lemma_empty_by_contains(node(h2, i).parents@);
    }
}

/// When the entry at position `k` of the walk leaves, the better still go
/// first, and what was passed over is passed over at the smaller budget too.
proof fn lemma_best_first_step(
    watch: Seq<Entry>,
    entries: Seq<Entry>,
    first: bool,
    k: int,
    g: Nodes,
    h: Nodes,
    h2: Nodes,
    constraints: Constraints,
    slots: Seq<StorageIndex>,
    records: Seq<StorageData>,
    id: StorageIndex,
    data: StorageData,
)
    requires
        sorted(entries),
        selection_sound(entries, h),
        0 <= k < entries.len(),
        entries[k].storage_id == id,
        first ==> watch == entries,
        without_roots(g, h, slots),
        slots.len() == records.len(),
        root_step(h, h2, id),
        live(h, id),
        data == node(h, id),
        unfit_or_gone(
            watch,
            if first {
                k
            } else {
                watch.len() as int
            },
            g,
            h,
            constraints.minimal_gas_price,
            gas_left_after(constraints, records),
            space_left_after(constraints, records),
        ),
        best_first(watch, g, constraints, slots, records),
    ensures
        unfit_or_gone(
            watch,
            if first {
                k + 1
            } else {
                watch.len() as int
            },
            g,
            h2,
            constraints.minimal_gas_price,
            gas_left_after(constraints, records.push(data)),
            space_left_after(constraints, records.push(data)),
        ),
        best_first(watch, g, constraints, slots.push(id), records.push(data)),
{
    let upto = if first {
        k
    } else {
        watch.len() as int
    };
    let slots2 = slots.push(id);
    let records2 = records.push(data);
    let price = constraints.minimal_gas_price;
    lemma_records_total_push(records, data, Measure::Gas);
    lemma_records_total_push(records, data, Measure::Bytes);
    assert forall|j: int|
        0 <= j < (if first {
            k + 1
        } else {
            watch.len() as int
        }) && live(g, (#[trigger] watch[j]).storage_id) && live(
            h2,
            watch[j].storage_id,
        ) implies passed_over(
        g,
        watch[j].storage_id,
        price,
        gas_left_after(constraints, records2),
        space_left_after(constraints, records2),
    ) by {
        let a = watch[j].storage_id;
        assert(a != id);
        assert(live(h, a) == live(h2, a));
        if first && j == k {
            assert(watch[j].storage_id == id);
        }
    }
    assert forall|ja: int, jb: int, pb: int|
        0 <= ja < jb < watch.len() && 0 <= pb < slots2.len() && #[trigger] slots2[pb] == (
        #[trigger] watch[jb]).storage_id && live(g, (#[trigger] watch[ja]).storage_id)
            && !occurs_slot(slots2, pb, watch[ja].storage_id) implies passed_over(
        g,
        watch[ja].storage_id,
        price,
        gas_left_after(constraints, records2.subrange(0, pb)),
        space_left_after(constraints, records2.subrange(0, pb)),
    ) by {
        let a = watch[ja].storage_id;
        if pb < slots.len() {
            assert(slots2[pb] == slots[pb]);
            assert(records2.subrange(0, pb) == records.subrange(0, pb));
            if occurs_slot(slots, pb, a) {
                let x = choose|x: int| 0 <= x < pb && #[trigger] slots[x] == a;
                assert(slots2[x] == a);
            }
        } else {
            assert(records2.subrange(0, pb) == records);
            assert(watch[jb].storage_id == id);
            if first {
                // The entry is the one at which the walk stands.
                assert(live(h, entries[jb].storage_id));
                assert(entries[jb] == entry_of(h, id));
                assert(entries[k] == entry_of(h, id));
                if jb < k {
                    assert(entries[jb].key.before(entries[k].key));
                    lemma_key_order_equal(entries[k].key, entries[k].key);
                } else if jb > k {
                    assert(entries[k].key.before(entries[jb].key));
                    lemma_key_order_equal(entries[k].key, entries[k].key);
                }
                assert(jb == k);
            }
            assert(ja < upto);
            if slots.contains(a) {
                let x = choose|x: int| 0 <= x < slots.len() && slots[x] == a;
                assert(slots2[x] == a);
            }
            assert(live(h, a));
        }
    }
}

/// The number of records in a list is the sum of their counts.
pub proof fn lemma_records_total_count(records: Seq<StorageData>)
    ensures
        records_total(records, Measure::Count) == records.len(),
    decreases records.len(),
{
    if records.len() > 0 {
        lemma_records_total_count(records.drop_last());
    }
}

/// The sum over a list of records grows by the weight of a record that is
/// appended.
pub proof fn lemma_records_total_push(records: Seq<StorageData>, data: StorageData, m: Measure)
    ensures
        records_total(records.push(data), m) == records_total(records, m) + weight(
            data.transaction,
            m,
        ),
        records_total(records, m) >= 0,
    decreases records.len(),
{
    assert(records.push(data).drop_last() == records);
    if records.len() > 0 {
        lemma_records_total_push(records.drop_last(), records.last(), m);
        assert(records.drop_last().push(records.last()) == records);
    }
}

/// Each of the first `upto` entries of `watch` whose transaction was stored
/// in `g` and is still stored in `h` is passed over at what is left of the
/// budget.
pub open spec fn unfit_or_gone(
    watch: Seq<Entry>,
    upto: int,
    g: Nodes,
    h: Nodes,
    minimal_gas_price: u64,
    gas_left: int,
    space_left: int,
) -> bool {
    forall|j: int|
        0 <= j < upto && live(g, (#[trigger] watch[j]).storage_id) && live(
            h,
            watch[j].storage_id,
        ) ==> passed_over(g, watch[j].storage_id, minimal_gas_price, gas_left, space_left)
}

/// The transactions in the slots `a` and `b` ask for the same gas and the
/// same size, and `a` accepts the gas price.
pub open spec fn rivals(g: Nodes, minimal_gas_price: u64, a: StorageIndex, b: StorageIndex) -> bool {
    &&& live(g, a)
    &&& live(g, b)
    &&& node(g, a).transaction.max_gas_price >= minimal_gas_price
    &&& node(g, a).transaction.max_gas == node(g, b).transaction.max_gas
    &&& node(g, a).transaction.metered_bytes_size == node(g, b).transaction.metered_bytes_size
}

/// Whenever an entry of `watch` leaves, every better entry of `watch` has
/// left before it or is passed over at what is left of the budget at that
/// moment. `slots` are the slots, and `records` the records, of what left,
/// in the order of leaving.
pub open spec fn best_first(
    watch: Seq<Entry>,
    g: Nodes,
    constraints: Constraints,
    slots: Seq<StorageIndex>,
    records: Seq<StorageData>,
) -> bool {
    forall|ja: int, jb: int, pb: int|
        0 <= ja < jb < watch.len() && 0 <= pb < slots.len() && #[trigger] slots[pb] == (
        #[trigger] watch[jb]).storage_id && live(g, (#[trigger] watch[ja]).storage_id)
            && !occurs_slot(slots, pb, watch[ja].storage_id) ==> passed_over(
            g,
            watch[ja].storage_id,
            constraints.minimal_gas_price,
            gas_left_after(constraints, records.subrange(0, pb)),
            space_left_after(constraints, records.subrange(0, pb)),
        )
}

/// `records` have left `g` for a block from the slots `slots`, `h` is what
/// remains, and among the entries of `sel` the better went first.
pub open spec fn gathered(
    g: Nodes,
    h: Nodes,
    sel: Seq<Entry>,
    constraints: Constraints,
    slots: Seq<StorageIndex>,
    records: Seq<StorageData>,
) -> bool {
    &&& extracted(g, h, slots, records)
    &&& best_first(sel, g, constraints, slots, records)
}

/// `e` is one of the first `upto` entries.
pub open spec fn occurs(entries: Seq<Entry>, upto: int, e: Entry) -> bool {
    exists|j: int| 0 <= j < upto && #[trigger] entries[j] == e
}

/// `id` is one of the first `upto` ids.
pub open spec fn occurs_id(ids: Seq<TxId>, upto: int, id: TxId) -> bool {
    exists|j: int| 0 <= j < upto && #[trigger] ids[j] == id
}

/// `i` is one of the first `upto` slots.
pub open spec fn occurs_slot(slots: Seq<StorageIndex>, upto: int, i: StorageIndex) -> bool {
    exists|j: int| 0 <= j < upto && #[trigger] slots[j] == i
}

/// Every stored transaction without parents has its entry, or is one of
/// `promoted` from position `from` on.
pub open spec fn complete_with(
    sel: Seq<Entry>,
    g: Nodes,
    promoted: Seq<StorageIndex>,
    from: int,
) -> bool {
    forall|i: StorageIndex|
        #![trigger live(g, i)]
        live(g, i) && node(g, i).parents@.len() == 0 ==> sel.contains(entry_of(g, i))
            || promoted.subrange(from, promoted.len() as int).contains(i)
}

/// Each of `promoted` is stored and has no parents.
pub open spec fn all_executable(g: Nodes, promoted: Seq<StorageIndex>) -> bool {
    forall|j: int|
        0 <= j < promoted.len() ==> live(g, #[trigger] promoted[j]) && node(
            g,
            promoted[j],
        ).parents@.len() == 0
}

/// Each of the first `upto` entries belongs to no stored transaction, or
/// to one that is passed over.
pub open spec fn all_passed_over(
    sel: Seq<Entry>,
    upto: int,
    g: Nodes,
    minimal_gas_price: u64,
    gas_left: int,
    space_left: int,
) -> bool {
    forall|j: int|
        0 <= j < upto ==> !live(g, (#[trigger] sel[j]).storage_id) || passed_over(
            g,
            sel[j].storage_id,
            minimal_gas_price,
            gas_left,
            space_left,
        )
}

/// What the selection needs of the storage that holds the transactions.
pub trait RatioTipGasSelectionAlgorithmStorage {
    /// The slots of the storage.
    spec fn slots(&self) -> Nodes;

    /// The invariant of the storage.
    spec fn well_formed(&self) -> bool;

    /// What the storage holds besides its slots is as it is in `before`.
    spec fn settings_kept(&self, before: &Self) -> bool;

    /// A storage keeps its own settings, and keeping is transitive.
    proof fn lemma_settings_kept(&self, middle: &Self, before: &Self)
        ensures
            self.settings_kept(self),
            self.settings_kept(middle) && middle.settings_kept(before) ==> self.settings_kept(
                before,
            ),
    ;

    /// In a well-formed storage the links between the transactions are
    /// mutual, no two transactions have the same id, and each may use some
    /// gas.
    proof fn lemma_well_formed(&self)
        requires
            self.well_formed(),
        ensures
            self.slots().len() <= usize::MAX,
            links_wf(self.slots()),
            records_wf(self.slots()),
    ;

    /// The record in slot `index`, if the slot holds one.
    fn get(&self, index: &StorageIndex) -> (data: Option<&StorageData>)
        ensures
            live(self.slots(), *index) ==> data == Some(&node(self.slots(), *index)),
            !live(self.slots(), *index) ==> data is None,
    ;

    /// The transactions that spend an output of the transaction in slot
    /// `index`.
    fn get_dependents(&self, index: &StorageIndex) -> (dependents: Vec<StorageIndex>)
        ensures
            live(self.slots(), *index) ==> dependents@ == node(self.slots(), *index).children@,
            !live(self.slots(), *index) ==> dependents@.len() == 0,
    ;

    /// Whether the transaction in slot `index` depends on a stored
    /// transaction.
    fn has_dependencies(&self, index: &StorageIndex) -> (r: bool)
        ensures
            r == (live(self.slots(), *index) && node(self.slots(), *index).parents@.len() > 0),
    ;

    /// Removes the transaction in slot `index`, which depends on no stored
    /// transaction, and leaves its dependents in the storage.
    fn remove(&mut self, index: &StorageIndex) -> (removed: Option<StorageData>)
        requires
            old(self).well_formed(),
            live(old(self).slots(), *index) ==> node(old(self).slots(), *index).parents@.len()
                == 0,
        ensures
            final(self).well_formed(),
            final(self).settings_kept(old(self)),
            !live(old(self).slots(), *index) ==> removed is None && final(self).slots() == old(
                self,
            ).slots(),
            live(old(self).slots(), *index) ==> removed == Some(node(old(self).slots(), *index))
                && root_step(old(self).slots(), final(self).slots(), *index),
    ;
}

impl RatioTipGasSelectionAlgorithmStorage for GraphStorage {
    open spec fn slots(&self) -> Nodes {
        self@
    }

    open spec fn well_formed(&self) -> bool {
        self.wf()
    }

    open spec fn settings_kept(&self, before: &Self) -> bool {
        self.config == before.config
    }

    proof fn lemma_settings_kept(&self, middle: &Self, before: &Self) {
    }

    proof fn lemma_well_formed(&self) {
    }

    fn get(&self, index: &StorageIndex) -> (data: Option<&StorageData>) {
        GraphStorage::get(self, *index)
    }

    fn get_dependents(&self, index: &StorageIndex) -> (dependents: Vec<StorageIndex>) {
        GraphStorage::get_dependents(self, *index)
    }

    fn has_dependencies(&self, index: &StorageIndex) -> (r: bool) {
        GraphStorage::has_dependencies(self, *index)
    }

    fn remove(&mut self, index: &StorageIndex) -> (removed: Option<StorageData>) {
        GraphStorage::remove(self, *index)
    }
}

/// The executable transactions, sorted by tip per gas.
pub struct RatioTipGasSelection {
    /// The entries, best first.
    pub executable_transactions_sorted_tip_gas_ratio: Vec<Entry>,
}

/// What is left of a block's budget.
struct Budget {
    gas_left: u64,
    space_left: usize,
    nb_left: u16,
}

impl RatioTipGasSelection {
    /// The entries, best first.
    pub open spec fn view(&self) -> Seq<Entry> {
        self.executable_transactions_sorted_tip_gas_ratio@
    }

    /// The entries are sorted by their keys, and no key has zero gas.
    pub open spec fn wf(&self) -> bool {
        sorted(self@)
    }

    /// An empty index.
    pub fn new() -> (selection: RatioTipGasSelection)
        ensures
            selection.wf(),
            selection@.len() == 0,
    {
        RatioTipGasSelection { executable_transactions_sorted_tip_gas_ratio: Vec::new() }
    }

    /// Whether the index holds no entry.
    pub fn is_empty(&self) -> (r: bool)
        ensures
            r == (self@.len() == 0),
    {
        self.executable_transactions_sorted_tip_gas_ratio.len() == 0
    }

    /// The key of a stored transaction.
    pub fn key(store_entry: &StorageData) -> (key: Key)
        ensures
            key == key_of(*store_entry),
    {
        Key {
            tip: store_entry.transaction.tip,
            gas: store_entry.transaction.max_gas,
            creation_instant: store_entry.creation_instant,
            tx_id: store_entry.transaction.id,
        }
    }

    /// The first position whose key does not come before `key`.
    fn position(&self, key: &Key) -> (pos: usize)
        requires
            self.wf(),
            key.gas != 0,
        ensures
            pos <= self@.len(),
            forall|i: int| 0 <= i < pos ==> (#[trigger] self@[i]).key.before(*key),
            forall|i: int| pos <= i < self@.len() ==> !(#[trigger] self@[i]).key.before(*key),
            forall|i: int| pos < i < self@.len() ==> key.before((#[trigger] self@[i]).key),
    {
        let mut pos: usize = 0;
        while pos < self.executable_transactions_sorted_tip_gas_ratio.len()
            invariant
                self.wf(),
                key.gas != 0,
                pos <= self@.len(),
                forall|i: int| 0 <= i < pos ==> (#[trigger] self@[i]).key.before(*key),
            decreases self@.len() - pos,
        {
            if !self.executable_transactions_sorted_tip_gas_ratio[pos].key.is_before(key) {
                proof {
                    let at = self@[pos as int].key;
                    assert forall|i: int| pos <= i < self@.len() implies !(#[trigger] self@[i]).key.before(
                        *key,
                    ) by {
                        if i > pos {
                            // key >= at > self@[i]
                            lemma_key_order_mirror(at, *key);
                            assert(self@[pos as int].key.before(self@[i].key));
                            lemma_key_order_transitive(*key, at, self@[i].key);
                            lemma_key_order_mirror(*key, self@[i].key);
                        }
                    }
                    assert forall|i: int| pos < i < self@.len() implies key.before(
                        (#[trigger] self@[i]).key,
                    ) by {
                        lemma_key_order_mirror(at, *key);
                        assert(self@[pos as int].key.before(self@[i].key));
                        lemma_key_order_transitive(*key, at, self@[i].key);
                    }
                }
                return pos;
            }
            pos += 1;
        }
        pos
    }

    /// Takes the entry with the given key out of the index, if there is one.
    pub fn on_removed_transaction_inner(&mut self, key: Key)
        requires
            old(self).wf(),
            key.gas != 0,
        ensures
            final(self).wf(),
            forall|e: Entry|
                final(self)@.contains(e) <==> (old(self)@.contains(e) && !(e.key.order(
                    key,
                ) is Equal)),
    {
        let pos = self.position(&key);
        let ghost before = self@;
        let found = pos < self.executable_transactions_sorted_tip_gas_ratio.len()
            && self.executable_transactions_sorted_tip_gas_ratio[pos].key.is_equal(&key);
        if found {
            self.executable_transactions_sorted_tip_gas_ratio.remove(pos);
            proof {
                assert(self@ == before.remove(pos as int));
                assert forall|i: int, j: int| 0 <= i < j < self@.len() implies (
                #[trigger] self@[i]).key.before((#[trigger] self@[j]).key) by {
                    let i0 = if i < pos { i } else { i + 1 };
                    let j0 = if j < pos { j } else { j + 1 };
                    assert(self@[i] == before[i0]);
                    assert(self@[j] == before[j0]);
                }
                assert forall|i: int| 0 <= i < self@.len() implies (#[trigger] self@[i]).key.gas
                    != 0 by {
                    let i0 = if i < pos { i } else { i + 1 };
                    assert(self@[i] == before[i0]);
                }
                assert forall|e: Entry|
                    self@.contains(e) <==> (before.contains(e) && !(e.key.order(key) is Equal)) by {
                    if self@.contains(e) {
                        let i = choose|i: int| 0 <= i < self@.len() && self@[i] == e;
                        let i0 = if i < pos { i } else { i + 1 };
                        assert(before[i0] == e);
                        if i0 > pos {
                            assert(key.before(before[i0].key));
                            lemma_key_order_mirror(key, e.key);
                        } else {
                            assert(before[i0].key.before(key));
                        }
                    }
                    if before.contains(e) && !(e.key.order(key) is Equal) {
                        let i0 = choose|i0: int| 0 <= i0 < before.len() && before[i0] == e;
                        assert(i0 != pos);
                        if i0 < pos {
                            assert(self@[i0] == e);
                        } else {
                            assert(self@[i0 - 1] == e);
                        }
                    }
                }
            }
        } else {
            proof {
                assert forall|e: Entry| before.contains(e) implies !(e.key.order(key) is Equal) by {
                    let i0 = choose|i0: int| 0 <= i0 < before.len() && before[i0] == e;
                    if i0 < pos {
                        assert(before[i0].key.before(key));
                    } else if i0 > pos {
                        assert(key.before(before[i0].key));
                        lemma_key_order_mirror(key, e.key);
                    }
                }
            }
        }
    }

    /// Puts a stored transaction without parents into the index. An entry
    /// with an equal key is replaced.
    pub fn new_executable_transaction(
        &mut self,
        storage_id: StorageIndex,
        store_entry: &StorageData,
    )
        requires
            old(self).wf(),
            store_entry.transaction.max_gas != 0,
        ensures
            final(self).wf(),
            forall|e: Entry|
                final(self)@.contains(e) <==> ((old(self)@.contains(e) && !(e.key.order(
                    key_of(*store_entry),
                ) is Equal)) || e == (Entry { key: key_of(*store_entry), storage_id })),
    {
        let key = Self::key(store_entry);
        let entry = Entry { key, storage_id };
        let pos = self.position(&key);
        let ghost before = self@;
        let found = pos < self.executable_transactions_sorted_tip_gas_ratio.len()
            && self.executable_transactions_sorted_tip_gas_ratio[pos].key.is_equal(&key);
        if found {
            self.executable_transactions_sorted_tip_gas_ratio[pos] = entry;
        } else {
            self.executable_transactions_sorted_tip_gas_ratio.insert(pos, entry);
        }
        proof {
            let after = self@;
            if found {
                assert(after == before.update(pos as int, entry));
                assert forall|i: int, j: int| 0 <= i < j < after.len() implies (
                #[trigger] after[i]).key.before((#[trigger] after[j]).key) by {
                    if i == pos {
                        assert(after[j] == before[j]);
                    } else if j == pos {
                        assert(after[i] == before[i]);
                    } else {
                        assert(after[i] == before[i]);
                        assert(after[j] == before[j]);
                        assert(before[i].key.before(before[j].key));
                    }
                }
                assert forall|i: int| 0 <= i < after.len() implies (#[trigger] after[i]).key.gas
                    != 0 by {
                    if i != pos {
                        assert(after[i] == before[i]);
                    }
                }
                assert forall|e: Entry| #[trigger]
                    after.contains(e) <==> ((before.contains(e) && !(e.key.order(key) is Equal))
                        || e == entry) by {
                    if after.contains(e) {
                        let i = choose|i: int| 0 <= i < after.len() && after[i] == e;
                        if i != pos {
                            assert(before[i] == e);
                            if i > pos {
                                assert(key.before(before[i].key));
                                lemma_key_order_mirror(key, e.key);
                            } else {
                                assert(before[i].key.before(key));
                            }
                        }
                    }
                    if before.contains(e) && !(e.key.order(key) is Equal) {
                        let i0 = choose|i0: int| 0 <= i0 < before.len() && before[i0] == e;
                        assert(i0 != pos);
                        assert(after[i0] == e);
                    }
                    if e == entry {
                        assert(after[pos as int] == e);
                    }
                }
            } else {
                assert(after == before.insert(pos as int, entry));
                if pos < before.len() {
                    lemma_key_order_mirror(before[pos as int].key, key);
                }
                assert forall|i: int| pos <= i < before.len() implies key.before(
                    (#[trigger] before[i]).key,
                ) by {}
                assert forall|i: int, j: int| 0 <= i < j < after.len() implies (
                #[trigger] after[i]).key.before((#[trigger] after[j]).key) by {
                    let i0 = if i < pos { i } else { i - 1 };
                    let j0 = if j < pos { j } else { j - 1 };
                    if i == pos {
                        assert(after[j] == before[j0]);
                    } else if j == pos {
                        assert(after[i] == before[i0]);
                    } else {
                        assert(after[i] == before[i0]);
                        assert(after[j] == before[j0]);
                        assert(before[i0].key.before(before[j0].key));
                    }
                }
                assert forall|i: int| 0 <= i < after.len() implies (#[trigger] after[i]).key.gas
                    != 0 by {
                    let i0 = if i < pos { i } else { i - 1 };
                    if i != pos {
                        assert(after[i] == before[i0]);
                    }
                }
                assert forall|e: Entry| #[trigger]
                    after.contains(e) <==> ((before.contains(e) && !(e.key.order(key) is Equal))
                        || e == entry) by {
                    if after.contains(e) {
                        let i = choose|i: int| 0 <= i < after.len() && after[i] == e;
                        let i0 = if i < pos { i } else { i - 1 };
                        if i != pos {
                            assert(before[i0] == e);
                            if i0 >= pos {
                                assert(key.before(before[i0].key));
                                lemma_key_order_mirror(key, e.key);
                            } else {
                                assert(before[i0].key.before(key));
                            }
                        }
                    }
                    if before.contains(e) && !(e.key.order(key) is Equal) {
                        let i0 = choose|i0: int| 0 <= i0 < before.len() && before[i0] == e;
                        if i0 < pos {
                            assert(after[i0] == e);
                        } else {
                            assert(after[i0 + 1] == e);
                        }
                    }
                    if e == entry {
                        assert(after[pos as int] == e);
                    }
                }
            }
        }
    }

    /// Takes a stored transaction out of the index.
    pub fn on_removed_transaction(&mut self, storage_entry: &StorageData)
        requires
            old(self).wf(),
            storage_entry.transaction.max_gas != 0,
        ensures
            final(self).wf(),
            forall|e: Entry|
                final(self)@.contains(e) <==> (old(self)@.contains(e) && !(e.key.order(
                    key_of(*storage_entry),
                ) is Equal)),
    {
        let key = Self::key(storage_entry);
        self.on_removed_transaction_inner(key)
    }

    /// The slots of the executable transactions, from the least worth
    /// upward.
    pub fn get_less_worth_txs(&self) -> (slots: Vec<StorageIndex>)
        ensures
            slots@.len() == self@.len(),
            forall|k: int|
                0 <= k < slots@.len() ==> #[trigger] slots@[k] == self@[self@.len() - 1
                    - k].storage_id,
    {
        let mut slots: Vec<StorageIndex> = Vec::new();
        let n = self.executable_transactions_sorted_tip_gas_ratio.len();
        let mut k: usize = 0;
        while k < n
            invariant
                n == self@.len(),
                0 <= k <= n,
                slots@.len() == k,
                forall|j: int|
                    0 <= j < k ==> #[trigger] slots@[j] == self@[self@.len() - 1 - j].storage_id,
            decreases n - k,
        {
            slots.push(self.executable_transactions_sorted_tip_gas_ratio[n - 1 - k].storage_id);
            k += 1;
        }
        slots
    }

    /// Drops the entries whose transaction is no longer stored.
    fn retain_live<S: RatioTipGasSelectionAlgorithmStorage>(&mut self, storage: &S)
        requires
            old(self).wf(),
        ensures
            final(self).wf(),
            forall|e: Entry| #[trigger]
                final(self)@.contains(e) <==> (old(self)@.contains(e) && live(
                    storage.slots(),
                    e.storage_id,
                )),
    {
        let ghost before = self@;
        let mut kept: Vec<Entry> = Vec::new();
        let mut k: usize = 0;
        while k < self.executable_transactions_sorted_tip_gas_ratio.len()
            invariant
                self@ == before,
                sorted(before),
                0 <= k <= before.len(),
                sorted(kept@),
                forall|e: Entry| #[trigger]
                    kept@.contains(e) <==> (occurs(before, k as int, e) && live(
                        storage.slots(),
                        e.storage_id,
                    )),
            decreases before.len() - k,
        {
            let entry = self.executable_transactions_sorted_tip_gas_ratio[k];
            let ghost kept0 = kept@;
            let is_live = storage.get(&entry.storage_id).is_some();
            if is_live {
                kept.push(entry);
                proof {
                    assert forall|i: int, j: int| 0 <= i < j < kept@.len() implies (
                    #[trigger] kept@[i]).key.before((#[trigger] kept@[j]).key) by {
                        assert(kept@[i] == kept0[i]);
                        assert(kept0.contains(kept0[i]));
                        if j == kept0.len() {
                            assert(occurs(before, k as int, kept0[i]));
                            let x = choose|x: int| 0 <= x < k && #[trigger] before[x] == kept0[i];
                            assert(before[x].key.before(before[k as int].key));
                        } else {
                            assert(kept@[j] == kept0[j]);
                        }
                    }
                    assert forall|i: int| 0 <= i < kept@.len() implies (#[trigger] kept@[i]).key.gas
                        != 0 by {
                        if i < kept0.len() {
                            assert(kept@[i] == kept0[i]);
                        } else {
                            assert(kept@[i] == before[k as int]);
                        }
                    }
                }
            }
            proof {
                assert forall|e: Entry| #[trigger]
                    kept@.contains(e) <==> (occurs(before, k + 1, e) && live(
                        storage.slots(),
                        e.storage_id,
                    )) by {
                    if is_live {
                        lemma_entry_contains_push(kept0, entry, e);
                    }
                    if occurs(before, k as int, e) {
                        let x = choose|x: int| 0 <= x < k && #[trigger] before[x] == e;
                        assert(before[x] == e);
                    }
                    if occurs(before, k + 1, e) {
                        let x = choose|x: int| 0 <= x < k + 1 && #[trigger] before[x] == e;
                        if x < k {
                            assert(before[x] == e);
                            assert(occurs(before, k as int, e));
                        }
                    }
                    if e == entry {
                        assert(before[k as int] == e);
                    }
                }
            }
            k += 1;
        }
        self.executable_transactions_sorted_tip_gas_ratio = kept;
        proof {
            assert forall|e: Entry| #[trigger]
                self@.contains(e) <==> (before.contains(e) && live(storage.slots(), e.storage_id)) by {
                if before.contains(e) {
                    let x = choose|x: int| 0 <= x < before.len() && before[x] == e;
                    assert(before[x] == e);
                    assert(occurs(before, before.len() as int, e));
                }
                if occurs(before, before.len() as int, e) {
                    let x = choose|x: int| 0 <= x < before.len() && #[trigger] before[x] == e;
                    assert(before.contains(e));
                }
            }
        }
    }

    /// Adds to `promoted` the listed transactions that are stored and have
    /// no parents.
    fn collect_promotions<S: RatioTipGasSelectionAlgorithmStorage>(
        storage: &S,
        dependents: &Vec<StorageIndex>,
        promoted: &mut Vec<StorageIndex>,
    )
        ensures
            forall|i: StorageIndex| #[trigger]
                final(promoted)@.contains(i) <==> (old(promoted)@.contains(i) || (
                dependents@.contains(i) && live(storage.slots(), i) && node(storage.slots(), i).parents@.len()
                    == 0)),
            final(promoted)@.len() >= old(promoted)@.len(),
    {
        let mut k: usize = 0;
        while k < dependents.len()
            invariant
                0 <= k <= dependents@.len(),
                forall|i: StorageIndex| #[trigger]
                    promoted@.contains(i) <==> (old(promoted)@.contains(i) || (occurs_slot(
                        dependents@,
                        k as int,
                        i,
                    ) && live(storage.slots(), i) && node(storage.slots(), i).parents@.len() == 0)),
                promoted@.len() >= old(promoted)@.len(),
            decreases dependents@.len() - k,
        {
            let dependent = dependents[k];
            let ghost promoted0 = promoted@;
            let executable = storage.get(&dependent).is_some() && !storage.has_dependencies(
                &dependent,
            );
            if executable {
                promoted.push(dependent);
            }
            proof {
                assert forall|i: StorageIndex| #[trigger]
                    promoted@.contains(i) <==> (old(promoted)@.contains(i) || (occurs_slot(
                        dependents@,
                        k + 1,
                        i,
                    ) && live(storage.slots(), i) && node(storage.slots(), i).parents@.len() == 0)) by {
                    if executable {
                        lemma_index_contains_push(promoted0, dependent, i);
                    }
                    if occurs_slot(dependents@, k + 1, i) {
                        let x = choose|x: int| 0 <= x < k + 1 && #[trigger] dependents@[x] == i;
                        if x < k {
                            assert(dependents@[x] == i);
                            assert(occurs_slot(dependents@, k as int, i));
                        }
                    }
                    if occurs_slot(dependents@, k as int, i) {
                        let x = choose|x: int| 0 <= x < k && #[trigger] dependents@[x] == i;
                        assert(dependents@[x] == i);
                    }
                    if i == dependent {
                        assert(dependents@[k as int] == i);
                    }
                }
            }
            k += 1;
        }
        proof {
            assert forall|i: StorageIndex| #[trigger]
                promoted@.contains(i) <==> (old(promoted)@.contains(i) || (dependents@.contains(i)
                    && live(storage.slots(), i) && node(storage.slots(), i).parents@.len() == 0)) by {
                if dependents@.contains(i) {
                    let x = choose|x: int| 0 <= x < dependents@.len() && dependents@[x] == i;
                    assert(dependents@[x] == i);
                    assert(occurs_slot(dependents@, dependents@.len() as int, i));
                }
                if occurs_slot(dependents@, dependents@.len() as int, i) {
                    let x = choose|x: int|
                        0 <= x < dependents@.len() && #[trigger] dependents@[x] == i;
                    assert(dependents@.contains(i));
                }
            }
        }
    }

    /// Walks the index once, best first, and takes out of the storage every
    /// transaction that accepts the gas price and fits into what is left of
    /// the budget, until the block has no place left. Returns whether it took
    /// any, and the dependents that the walk left without parents.
    fn sweep<S: RatioTipGasSelectionAlgorithmStorage>(
        &self,
        storage: &mut S,
        constraints: Constraints,
        budget: &mut Budget,
        result: &mut Vec<StorageData>,
        Ghost(g0): Ghost<Nodes>,
        Ghost(slots0): Ghost<Seq<StorageIndex>>,
        Ghost(watch): Ghost<Seq<Entry>>,
        Ghost(first): Ghost<bool>,
    ) -> (out: (bool, Vec<StorageIndex>, Ghost<Seq<StorageIndex>>))
        requires
            self.wf(),
            old(storage).well_formed(),
            selection_sound(self@, old(storage).slots()),
            extracted(g0, old(storage).slots(), slots0, old(result)@),
            all_priced(old(result)@, constraints.minimal_gas_price),
            first ==> watch == self@ && old(storage).slots() == g0,
            !first ==> unfit_or_gone(
                watch,
                watch.len() as int,
                g0,
                old(storage).slots(),
                constraints.minimal_gas_price,
                old(budget).gas_left as int,
                old(budget).space_left as int,
            ),
            best_first(watch, g0, constraints, slots0, old(result)@),
            old(budget).gas_left == gas_left_after(constraints, old(result)@),
            old(budget).space_left == space_left_after(constraints, old(result)@),
            old(budget).nb_left > 0,
        ensures
            final(budget).nb_left > 0 ==> unfit_or_gone(
                watch,
                watch.len() as int,
                g0,
                final(storage).slots(),
                constraints.minimal_gas_price,
                final(budget).gas_left as int,
                final(budget).space_left as int,
            ),
            best_first(watch, g0, constraints, out.2@, final(result)@),
            final(storage).well_formed(),
            final(storage).settings_kept(old(storage)),
            extracted(g0, final(storage).slots(), out.2@, final(result)@),
            all_priced(final(result)@, constraints.minimal_gas_price),
            final(result)@.len() >= old(result)@.len(),
            final(budget).gas_left == gas_left_after(constraints, final(result)@),
            final(budget).space_left == space_left_after(constraints, final(result)@),
            final(budget).nb_left + final(result)@.len() == old(budget).nb_left + old(
                result,
            )@.len(),
            forall|m: Measure|
                #![trigger pool_total(final(storage).slots(), m)]
                pool_total(final(storage).slots(), m) + records_total(final(result)@, m) == pool_total(
                    old(storage).slots(),
                    m,
                ) + records_total(old(result)@, m),
            selection_sound(self@, final(storage).slots()),
            all_executable(final(storage).slots(), out.1@),
            selection_complete(self@, old(storage).slots()) ==> complete_with(
                self@,
                final(storage).slots(),
                out.1@,
                0,
            ),
            out.0 == (final(result)@.len() > old(result)@.len()),
            !out.0 ==> {
                &&& *final(storage) == *old(storage)
                &&& final(budget).gas_left == old(budget).gas_left
                &&& final(budget).space_left == old(budget).space_left
                &&& final(result)@ == old(result)@
                &&& out.1@.len() == 0
                &&& all_passed_over(
                    self@,
                    self@.len() as int,
                    old(storage).slots(),
                    constraints.minimal_gas_price,
                    old(budget).gas_left as int,
                    old(budget).space_left as int,
                )
            },
    {
        let ghost hs = storage.slots();
        let ghost entries = self@;
        let ghost mut slots = slots0;
        let ghost mut pass_slots: Seq<StorageIndex> = Seq::empty();
        let mut promoted: Vec<StorageIndex> = Vec::new();
        let mut selected_any = false;
        let mut k: usize = 0;
        proof {
            storage.lemma_well_formed();
            storage.lemma_settings_kept(storage, storage);
            assert(without_roots(hs, hs, pass_slots));
            assert(complete_with(entries, hs, promoted@, 0) <== selection_complete(entries, hs));
        }
        let n = self.executable_transactions_sorted_tip_gas_ratio.len();
        while k < n && budget.nb_left > 0
            invariant
                n == entries.len(),
                0 <= k <= entries.len(),
                budget.nb_left > 0 || selected_any,
                entries == self@,
                sorted(entries),
                selection_sound(entries, hs),
                hs == old(storage).slots(),
                hs.len() <= usize::MAX,
                storage.well_formed(),
                storage.settings_kept(old(storage)),
                extracted(g0, storage.slots(), slots, result@),
                all_priced(result@, constraints.minimal_gas_price),
                result@.len() >= old(result)@.len(),
                budget.gas_left == gas_left_after(constraints, result@),
                budget.space_left == space_left_after(constraints, result@),
                budget.nb_left + result@.len() == old(budget).nb_left + old(result)@.len(),
                forall|m: Measure|
                    #![trigger pool_total(storage.slots(), m)]
                    pool_total(storage.slots(), m) + records_total(result@, m) == pool_total(hs, m)
                        + records_total(old(result)@, m),
                selection_sound(entries, storage.slots()),
                without_roots(hs, storage.slots(), pass_slots),
                all_executable(storage.slots(), promoted@),
                forall|j: int|
                    0 <= j < promoted@.len() ==> node(hs, #[trigger] promoted@[j]).parents@.len()
                        > 0,
                selection_complete(entries, hs) ==> complete_with(entries, storage.slots(), promoted@, 0),
                selected_any == (result@.len() > old(result)@.len()),
                !selected_any ==> {
                    &&& *storage == *old(storage)
                    &&& budget.gas_left == old(budget).gas_left
                    &&& budget.space_left == old(budget).space_left
                    &&& result@ == old(result)@
                    &&& promoted@.len() == 0
                    &&& all_passed_over(
                        entries,
                        k as int,
                        hs,
                        constraints.minimal_gas_price,
                        old(budget).gas_left as int,
                        old(budget).space_left as int,
                    )
                },
                first ==> watch == entries && hs == g0,
                unfit_or_gone(
                    watch,
                    if first {
                        k as int
                    } else {
                        watch.len() as int
                    },
                    g0,
                    storage.slots(),
                    constraints.minimal_gas_price,
                    budget.gas_left as int,
                    budget.space_left as int,
                ),
                best_first(watch, g0, constraints, slots, result@),
            decreases entries.len() - k,
        {
            let id = self.executable_transactions_sorted_tip_gas_ratio[k].storage_id;
            let ghost h = storage.slots();
            let ghost result0 = result@;
            let ghost promoted0 = promoted@;
            proof {
                storage.lemma_well_formed();
            }
            let ghost gas_before = budget.gas_left;
            let ghost space_before = budget.space_left;
            let fits = match storage.get(&id) {
                Some(data) => data.transaction.max_gas_price >= constraints.minimal_gas_price
                    && data.transaction.max_gas <= budget.gas_left
                    && data.transaction.metered_bytes_size <= budget.space_left,
                None => false,
            };
            if fits {
                proof {
                    assert(live(h, entries[k as int].storage_id));
                }
                let ghost before_removal = *storage;
                let removed = storage.remove(&id);
                proof {
                    storage.lemma_settings_kept(&before_removal, old(storage));
                }
                let data = removed.unwrap();
                budget.gas_left = budget.gas_left - data.transaction.max_gas;
                budget.space_left = budget.space_left - data.transaction.metered_bytes_size;
                budget.nb_left = budget.nb_left - 1;
                Self::collect_promotions(storage, &data.children, &mut promoted);
                let ghost h2 = storage.slots();
                result.push(data);
                selected_any = true;
                proof {
                    lemma_best_first_step(
                        watch,
                        entries,
                        first,
                        k as int,
                        g0,
                        h,
                        h2,
                        constraints,
                        slots,
                        result0,
                        id,
                        data,
                    );
                    lemma_extracted_step(g0, h, h2, slots, result0, id, data);
                    slots = slots.push(id);
                    lemma_without_roots_step(hs, h, h2, pass_slots, id);
                    pass_slots = pass_slots.push(id);
                    lemma_sound_step(entries, h, h2, id);
                    assert forall|m: Measure|
                        #![trigger pool_total(storage.slots(), m)]
                        pool_total(storage.slots(), m) + records_total(result@, m) == pool_total(hs, m)
                            + records_total(old(result)@, m) by {
                        lemma_records_total_push(result0, data, m);
                        lemma_root_pool_total(h, h2, id, m);
                        assert(pool_total(h, m) + records_total(result0, m) == pool_total(hs, m)
                            + records_total(old(result)@, m));
                        assert(pool_total(h2, m) == pool_total(h, m) - weight(
                            node(h, id).transaction,
                            m,
                        ));
                    }
                    lemma_records_total_push(result0, data, Measure::Gas);
                    lemma_records_total_push(result0, data, Measure::Bytes);
                    assert(all_priced(result@, constraints.minimal_gas_price)) by {
                        assert forall|j: int| 0 <= j < result@.len() implies (
                        #[trigger] result@[j]).transaction.max_gas_price >= constraints.minimal_gas_price by {
                            if j < result0.len() {
                                assert(result@[j] == result0[j]);
                            }
                        }
                    }
                    // The transaction was executable when the walk began.
                    assert(live(hs, id));
                    assert(node(hs, id).parents@.len() == 0);
                    assert(all_executable(h2, promoted@) && (forall|j: int|
                        0 <= j < promoted@.len() ==> node(hs, #[trigger] promoted@[j]).parents@.len()
                            > 0)) by {
                        assert forall|j: int| 0 <= j < promoted@.len() implies live(
                            h2,
                            #[trigger] promoted@[j],
                        ) && node(h2, promoted@[j]).parents@.len() == 0 && node(
                            hs,
                            promoted@[j],
                        ).parents@.len() > 0 by {
                            let c = promoted@[j];
                            assert(promoted@.contains(c));
                            if promoted0.contains(c) {
                                let x = choose|x: int|
                                    0 <= x < promoted0.len() && promoted0[x] == c;
                                assert(live(h, promoted0[x]));
                                assert(node(hs, promoted0[x]).parents@.len() > 0);
                                assert(c != id);
                                assert(live(h2, c));
                                assert forall|p: StorageIndex| !node(h2, c).parents@.contains(p) by {
                                    if node(h, c).parents@.contains(p) {
                                        let y = choose|y: int|
                                            0 <= y < node(h, c).parents@.len() && node(
                                                h,
                                                c,
                                            ).parents@[y] == p;
                                    }
                                }
                                lemma_empty_by_contains(node(h2, c).parents@);
                            } else {
                                assert(node(h, id).children@.contains(c));
                                let y = choose|y: int|
                                    0 <= y < node(h, id).children@.len() && node(
                                        h,
                                        id,
                                    ).children@[y] == c;
                                assert(live(h, node(h, id).children@[y]) && node(
                                    h,
                                    node(h, id).children@[y],
                                ).parents@.contains(id));
                                assert(node(hs, c).parents@.contains(id));
                            }
                        }
                    }
                    if selection_complete(entries, hs) {
                        assert forall|i: StorageIndex|
                            #![trigger live(h2, i)]
                            live(h2, i) && node(h2, i).parents@.len()
                                == 0 implies entries.contains(entry_of(h2, i))
                            || promoted@.subrange(0, promoted@.len() as int).contains(i) by {
                            assert(promoted@.subrange(0, promoted@.len() as int) == promoted@);
                            assert(promoted0.subrange(0, promoted0.len() as int) == promoted0);
                            assert(i != id);
                            assert(live(h, i));
                            assert(entry_of(h2, i) == entry_of(h, i));
                            if node(h, i).parents@.len() == 0 {
                                assert(entries.contains(entry_of(h, i)) || promoted0.contains(i));
                            } else {
                                let p = node(h, i).parents@[0];
                                assert(node(h, i).parents@.contains(p));
                                if p != id {
                                    assert(node(h2, i).parents@.contains(p));
                                    let y = choose|y: int|
                                        0 <= y < node(h2, i).parents@.len() && node(
                                            h2,
                                            i,
                                        ).parents@[y] == p;
                                }
                                assert(crate::storage::has_child(
                                    h,
                                    node(h, i).parents@[0],
                                    i,
                                ));
                                assert(promoted@.contains(i));
                            }
                        }
                    }
                }
            } else {
                proof {
                    if first {
                        assert forall|j: int|
                            0 <= j < k + 1 && live(g0, (#[trigger] watch[j]).storage_id) && live(
                                storage.slots(),
                                watch[j].storage_id,
                            ) implies passed_over(
                            g0,
                            watch[j].storage_id,
                            constraints.minimal_gas_price,
                            budget.gas_left as int,
                            budget.space_left as int,
                        ) by {
                            if j == k {
                                assert(node(h, id).transaction == node(g0, id).transaction);
                            }
                        }
                    }
                    if !selected_any {
                        assert(all_passed_over(
                            entries,
                            k + 1,
                            hs,
                            constraints.minimal_gas_price,
                            old(budget).gas_left as int,
                            old(budget).space_left as int,
                        )) by {
                            assert forall|j: int| 0 <= j < k + 1 implies !live(
                                hs,
                                (#[trigger] entries[j]).storage_id,
                            ) || passed_over(
                                hs,
                                entries[j].storage_id,
                                constraints.minimal_gas_price,
                                old(budget).gas_left as int,
                                old(budget).space_left as int,
                            ) by {}
                        }
                    }
                }
            }
            k += 1;
        }
        (selected_any, promoted, Ghost(slots))
    }

    /// Puts the promoted transactions into the index.
    fn promote<S: RatioTipGasSelectionAlgorithmStorage>(
        &mut self,
        storage: &S,
        promoted: &Vec<StorageIndex>,
    )
        requires
            old(self).wf(),
            storage.well_formed(),
            selection_sound(old(self)@, storage.slots()),
            all_executable(storage.slots(), promoted@),
        ensures
            final(self).wf(),
            selection_sound(final(self)@, storage.slots()),
            selection_fresh(old(self)@, storage.slots()) ==> selection_fresh(final(self)@, storage.slots()),
            complete_with(old(self)@, storage.slots(), promoted@, 0) ==> selection_complete(
                final(self)@,
                storage.slots(),
            ),
    {
        let ghost g = storage.slots();
        let mut m: usize = 0;
        while m < promoted.len()
            invariant
                0 <= m <= promoted@.len(),
                self.wf(),
                storage.well_formed(),
                g == storage.slots(),
                selection_sound(self@, g),
                all_executable(g, promoted@),
                selection_fresh(old(self)@, g) ==> selection_fresh(self@, g),
                complete_with(old(self)@, g, promoted@, 0) ==> complete_with(
                    self@,
                    g,
                    promoted@,
                    m as int,
                ),
            decreases promoted@.len() - m,
        {
            let c = promoted[m];
            let ghost before = self@;
            proof {
                storage.lemma_well_formed();
                assert(live(g, promoted@[m as int]));
            }
            match storage.get(&c) {
                Some(data) => {
                    self.new_executable_transaction(c, data);
                },
                None => {},
            }
            proof {
                let entry = entry_of(g, c);
                assert(forall|e: Entry| #[trigger]
                    self@.contains(e) <==> ((before.contains(e) && !(e.key.order(entry.key) is Equal))
                        || e == entry));
                assert forall|k: int|
                    0 <= k < self@.len() && live(g, (#[trigger] self@[k]).storage_id) implies node(
                    g,
                    self@[k].storage_id,
                ).parents@.len() == 0 && self@[k] == entry_of(g, self@[k].storage_id) by {
                    let e = self@[k];
                    assert(self@.contains(e));
                    if e != entry {
                        assert(before.contains(e));
                        let x = choose|x: int| 0 <= x < before.len() && before[x] == e;
                        assert(live(g, before[x].storage_id));
                    }
                }
                if selection_fresh(old(self)@, g) {
                    assert forall|k: int| 0 <= k < self@.len() implies live(
                        g,
                        (#[trigger] self@[k]).storage_id,
                    ) by {
                        let e = self@[k];
                        assert(self@.contains(e));
                        if e != entry {
                            assert(before.contains(e));
                            let x = choose|x: int| 0 <= x < before.len() && before[x] == e;
                            assert(live(g, before[x].storage_id));
                        }
                    }
                }
                if complete_with(old(self)@, g, promoted@, 0) {
                    assert forall|i: StorageIndex|
                        #![trigger live(g, i)]
                        live(g, i) && node(g, i).parents@.len() == 0 implies self@.contains(
                            entry_of(g, i),
                        ) || promoted@.subrange(m + 1, promoted@.len() as int).contains(i) by {
                        let rest = promoted@.subrange(m as int, promoted@.len() as int);
                        let rest2 = promoted@.subrange(m + 1, promoted@.len() as int);
                        if before.contains(entry_of(g, i)) {
                            if entry_of(g, i).key.order(entry.key) is Equal {
                                lemma_key_order_equal(entry_of(g, i).key, entry.key);
                                assert(node(g, i).transaction.id == node(g, c).transaction.id);
                                assert(i == c);
                            }
                        } else {
                            assert(rest.contains(i));
                            let x = choose|x: int| 0 <= x < rest.len() && rest[x] == i;
                            if x == 0 {
                                assert(i == c);
                            } else {
                                assert(rest2[x - 1] == i);
                            }
                        }
                    }
                }
            }
            m += 1;
        }
        proof {
            if complete_with(old(self)@, g, promoted@, 0) {
                assert forall|i: StorageIndex|
                    #![trigger live(g, i)]
                    live(g, i) && node(g, i).parents@.len() == 0 implies self@.contains(
                        entry_of(g, i),
                    ) by {
                    let rest = promoted@.subrange(promoted@.len() as int, promoted@.len() as int);
                    if rest.contains(i) {
                        let x = choose|x: int| 0 <= x < rest.len() && rest[x] == i;
                    }
                }
            }
        }
    }

    /// Takes the best transactions for a block out of the storage: walks
    /// the index best first and takes those that accept the gas price and
    /// fit into what is left of the budget, puts the dependents that were
    /// left without parents into the index, and walks again, until a budget
    /// is used up, the index is empty, or a walk takes nothing.
    pub fn gather_best_txs<S: RatioTipGasSelectionAlgorithmStorage>(
        &mut self,
        constraints: Constraints,
        storage: &mut S,
    ) -> (result: Vec<StorageData>)
        requires
            old(self).wf(),
            old(storage).well_formed(),
            selection_sound(old(self)@, old(storage).slots()),
        ensures
            final(self).wf(),
            final(storage).well_formed(),
            final(storage).settings_kept(old(storage)),
            selection_sound(final(self)@, final(storage).slots()),
            selection_complete(old(self)@, old(storage).slots()) ==> selection_complete(
                final(self)@,
                final(storage).slots(),
            ),
            selection_fresh(old(self)@, old(storage).slots()) ==> selection_fresh(
                final(self)@,
                final(storage).slots(),
            ),
            exists|slots: Seq<StorageIndex>| #[trigger]
                gathered(
                    old(storage).slots(),
                    final(storage).slots(),
                    old(self)@,
                    constraints,
                    slots,
                    result@,
                ),
            all_priced(result@, constraints.minimal_gas_price),
            result@.len() <= constraints.maximum_txs,
            records_total(result@, Measure::Gas) <= constraints.max_gas,
            records_total(result@, Measure::Bytes) <= constraints.maximum_block_size,
            forall|m: Measure|
                #![trigger pool_total(final(storage).slots(), m)]
                pool_total(final(storage).slots(), m) == pool_total(old(storage).slots(), m) - records_total(
                    result@,
                    m,
                ),
            selection_complete(old(self)@, old(storage).slots()) ==> saturated(
                final(storage).slots(),
                constraints,
                result@,
            ),
    {
        let ghost g0 = storage.slots();
        let ghost sel0 = self@;
        let ghost mut slots: Seq<StorageIndex> = Seq::empty();
        let mut budget = Budget {
            gas_left: constraints.max_gas,
            space_left: constraints.maximum_block_size as usize,
            nb_left: constraints.maximum_txs,
        };
        let mut result: Vec<StorageData> = Vec::new();
        let mut stalled = false;
        let ghost mut first = true;
        proof {
            storage.lemma_settings_kept(storage, storage);
            assert(extracted(g0, g0, slots, result@));
            assert forall|m: Measure| #[trigger] records_total(result@, m) == 0 by {}
        }
        while !stalled && budget.gas_left > 0 && budget.nb_left > 0 && budget.space_left > 0
            && !self.is_empty()
            invariant
                self.wf(),
                storage.well_formed(),
                storage.settings_kept(old(storage)),
                selection_sound(self@, storage.slots()),
                extracted(g0, storage.slots(), slots, result@),
                all_priced(result@, constraints.minimal_gas_price),
                budget.gas_left == gas_left_after(constraints, result@),
                budget.space_left == space_left_after(constraints, result@),
                budget.nb_left + result@.len() == constraints.maximum_txs,
                forall|m: Measure|
                    #![trigger pool_total(storage.slots(), m)]
                    pool_total(storage.slots(), m) + records_total(result@, m) == pool_total(g0, m),
                selection_complete(sel0, g0) ==> selection_complete(self@, storage.slots()),
                selection_fresh(sel0, g0) ==> selection_fresh(self@, storage.slots()),
                first ==> self@ == sel0 && storage.slots() == g0,
                !first && budget.nb_left > 0 ==> unfit_or_gone(
                    sel0,
                    sel0.len() as int,
                    g0,
                    storage.slots(),
                    constraints.minimal_gas_price,
                    budget.gas_left as int,
                    budget.space_left as int,
                ),
                best_first(sel0, g0, constraints, slots, result@),
                stalled && selection_complete(sel0, g0) ==> forall|i: StorageIndex|
                    #![trigger live(storage.slots(), i)]
                    live(storage.slots(), i) && node(storage.slots(), i).parents@.len() == 0 ==> passed_over(
                        storage.slots(),
                        i,
                        constraints.minimal_gas_price,
                        budget.gas_left as int,
                        budget.space_left as int,
                    ),
            decreases pool_total(storage.slots(), Measure::Count), (if stalled { 0int } else { 1int }),
        {
            let ghost hs = storage.slots();
            let ghost entries = self@;
            let ghost result0 = result@;
            let ghost before_sweep = *storage;
            let (selected_any, promoted, Ghost(slots2)) = self.sweep(
                storage,
                constraints,
                &mut budget,
                &mut result,
                Ghost(g0),
                Ghost(slots),
                Ghost(sel0),
                Ghost(first),
            );
            proof {
                slots = slots2;
                first = false;
                storage.lemma_settings_kept(&before_sweep, old(storage));
                lemma_records_total_count(result0);
                lemma_records_total_count(result@);
                lemma_pool_total_bounds(storage.slots(), Measure::Count);
                assert(pool_total(storage.slots(), Measure::Count) + records_total(
                    result@,
                    Measure::Count,
                ) == pool_total(hs, Measure::Count) + records_total(result0, Measure::Count));
            }
            self.retain_live(storage);
            let ghost kept = self@;
            proof {
                let h = storage.slots();
                assert(selection_sound(kept, h)) by {
                    assert forall|k: int|
                        0 <= k < kept.len() && live(h, (#[trigger] kept[k]).storage_id) implies node(
                        h,
                        kept[k].storage_id,
                    ).parents@.len() == 0 && kept[k] == entry_of(h, kept[k].storage_id) by {
                        assert(kept.contains(kept[k]));
                        assert(entries.contains(kept[k]));
                        let x = choose|x: int| 0 <= x < entries.len() && entries[x] == kept[k];
                        assert(live(h, entries[x].storage_id));
                    }
                }
                assert(selection_fresh(kept, h)) by {
                    assert forall|k: int| 0 <= k < kept.len() implies live(
                        h,
                        (#[trigger] kept[k]).storage_id,
                    ) by {
                        assert(kept.contains(kept[k]));
                    }
                }
                if selection_complete(sel0, g0) {
                    assert(complete_with(kept, h, promoted@, 0)) by {
                        assert forall|i: StorageIndex|
                            #![trigger live(h, i)]
                            live(h, i) && node(h, i).parents@.len() == 0 implies kept.contains(
                                entry_of(h, i),
                            ) || promoted@.subrange(0, promoted@.len() as int).contains(i) by {
                            if entries.contains(entry_of(h, i)) {
                                assert(kept.contains(entry_of(h, i)));
                            }
                        }
                    }
                }
                assert forall|m: Measure|
                    #![trigger pool_total(storage.slots(), m)]
                    pool_total(storage.slots(), m) + records_total(result@, m) == pool_total(g0, m) by {
                    assert(pool_total(storage.slots(), m) + records_total(result@, m) == pool_total(hs, m)
                        + records_total(result0, m));
                    assert(pool_total(hs, m) + records_total(result0, m) == pool_total(g0, m));
                }
            }
            if !selected_any && promoted.len() == 0 {
                stalled = true;
                proof {
                    let h = storage.slots();
                    if selection_complete(sel0, g0) {
                        assert forall|i: StorageIndex|
                            #![trigger live(h, i)]
                            live(h, i) && node(h, i).parents@.len() == 0 implies passed_over(
                            h,
                            i,
                            constraints.minimal_gas_price,
                            budget.gas_left as int,
                            budget.space_left as int,
                        ) by {
                            assert(entries.contains(entry_of(h, i)));
                            let x = choose|x: int|
                                0 <= x < entries.len() && entries[x] == entry_of(h, i);
                            assert(entries[x].storage_id == i);
                        }
                        assert(selection_complete(kept, h)) by {
                            assert forall|i: StorageIndex|
                                #![trigger live(h, i)]
                                live(h, i) && node(h, i).parents@.len() == 0 implies kept.contains(
                                entry_of(h, i),
                            ) by {
                                let rest = promoted@.subrange(0, promoted@.len() as int);
                                if rest.contains(i) {
                                    let x = choose|x: int| 0 <= x < rest.len() && rest[x] == i;
                                }
                            }
                        }
                    }
                }
            } else {
                self.promote(storage, &promoted);
            }
        }
        proof {
            let h = storage.slots();
            lemma_records_total_push(result@, arbitrary(), Measure::Gas);
            lemma_records_total_push(result@, arbitrary(), Measure::Bytes);
            if selection_complete(sel0, g0) {
                if !stalled && budget.gas_left > 0 && budget.nb_left > 0 && budget.space_left > 0 {
                    assert(self@.len() == 0);
                    assert forall|i: StorageIndex|
                        #![trigger live(h, i)]
                        live(h, i) && node(h, i).parents@.len() == 0 implies passed_over(
                        h,
                        i,
                        constraints.minimal_gas_price,
                        gas_left_after(constraints, result@),
                        space_left_after(constraints, result@),
                    ) by {
                        assert(self@.contains(entry_of(h, i)));
                        let x = choose|x: int| 0 <= x < self@.len() && self@[x] == entry_of(h, i);
                    }
                }
                assert(saturated(h, constraints, result@));
            }
            assert(gathered(g0, h, sel0, constraints, slots, result@));
        }
        result
    }
}

} // verus!
