//! The dependency graph, stored in an arena of slots.

use vstd::prelude::*;
use crate::error::Error;
use crate::storage::chains::{chain_length, chains_wf, lemma_chain_length_kept, longest_above};
use crate::storage::checked::{chain_too_long, depends_on, CheckedTransaction};
use crate::storage::reach::{
    leaf_extension, lemma_count_below_len, lemma_pool_total_bounds, lemma_push_free_slot,
    lemma_reaches_ages, lemma_reaches_extend, lemma_reaches_live, lemma_reaches_self,
    lemma_subtree_total_bounds,
};
use crate::storage::steps::{
    aggregates_shifted, children_changed, contains_id, leaf_step, lemma_records_with_leaf,
    lemma_records_without_leaf, lemma_records_without_root, lemma_remove_leaf, lemma_remove_root,
    lemma_store_leaf, parents_changed, records_wf, root_step, shift,
};
use crate::storage::{
    above, ages_wf, aggregate, aggregates_wf, has_child, is_path, links_wf, live, node, pool_total,
    reaches, records_total, subtree_total, weight, Measure, Nodes, StorageData,
};
use crate::types::{PoolTx, StorageIndex};

verus! {

/// Limits of the dependency graph.
#[derive(Clone, Copy, Debug)]
pub struct GraphConfig {
    /// The largest number of transactions in a chain: a walk from a
    /// transaction without parents down along dependents.
    pub max_txs_chain_count: usize,
}

/// The stored transactions and the dependencies between them.
pub struct GraphStorage {
    pub config: GraphConfig,
    /// The slots; a removed transaction leaves its slot free for reuse.
    pub nodes: Vec<Option<StorageData>>,
    /// Number of stored transactions.
    pub count: usize,
    /// For each slot, the arrival number of the record it holds.
    pub ages: Ghost<Seq<nat>>,
    /// The arrival number of the next record.
    pub next_age: Ghost<nat>,
}

/// Removes `x` from a list that holds no value twice.
fn remove_value(v: &mut Vec<StorageIndex>, x: StorageIndex)
    requires
        old(v)@.no_duplicates(),
    ensures
        final(v)@.no_duplicates(),
        forall|y: StorageIndex| final(v)@.contains(y) <==> (old(v)@.contains(y) && y != x),
        !old(v)@.contains(x) ==> final(v)@ == old(v)@,
        final(v)@.len() <= old(v)@.len(),
{
    let mut i: usize = 0;
    while i < v.len()
        invariant
            0 <= i <= v@.len(),
            v@ == old(v)@,
            v@.no_duplicates(),
            forall|j: int| 0 <= j < i ==> v@[j] != x,
        decreases v@.len() - i,
    {
        if v[i] == x {
            let ghost before = v@;
            v.remove(i);
            proof {
                assert(v@ == before.remove(i as int));
                assert forall|y: StorageIndex| v@.contains(y) <==> (before.contains(y) && y
                    != x) by {
                    if v@.contains(y) {
                        let j = choose|j: int| 0 <= j < v@.len() && v@[j] == y;
                        if j < i {
                            assert(before[j] == y);
                        } else {
                            assert(before[j + 1] == y);
                            assert(before[j + 1] != before[i as int]);
                        }
                    }
                    if before.contains(y) && y != x {
                        let j = choose|j: int| 0 <= j < before.len() && before[j] == y;
                        if j < i {
                            assert(v@[j] == y);
                        } else {
                            assert(j != i);
                            assert(v@[j - 1] == before[j]);
                        }
                    }
                }
                assert forall|a: int, b: int| 0 <= a < v@.len() && 0 <= b < v@.len() && a != b
                    implies v@[a] != v@[b] by {
                    let a0 = if a < i { a } else { a + 1 };
                    let b0 = if b < i { b } else { b + 1 };
                    assert(v@[a] == before[a0]);
                    assert(v@[b] == before[b0]);
                    assert(before[a0] != before[b0]);
                }
            }
            return ;
        }
        i += 1;
    }
    proof {
        assert forall|y: StorageIndex| v@.contains(y) implies y != x by {
            let j = choose|j: int| 0 <= j < v@.len() && v@[j] == y;
        }
    }
}

/// Appends the values of `items` to `stack`.
fn push_all(stack: &mut Vec<StorageIndex>, items: &Vec<StorageIndex>)
    ensures
        final(stack)@ == old(stack)@ + items@,
{
    let mut i: usize = 0;
    while i < items.len()
        invariant
            0 <= i <= items@.len(),
            stack@ == old(stack)@ + items@.subrange(0, i as int),
        decreases items@.len() - i,
    {
        stack.push(items[i]);
        proof {
            assert(items@.subrange(0, i + 1) == items@.subrange(0, i as int).push(items@[i as int]));
        }
        i += 1;
    }
    proof {
        assert(items@.subrange(0, items@.len() as int) == items@);
    }
}

/// Number of entries of `marks` that are not set.
pub open spec fn unmarked(marks: Seq<bool>) -> int {
    crate::sums::sum_to(
        |j: int|
            if 0 <= j < marks.len() && !marks[j] {
                1int
            } else {
                0int
            },
        marks.len() as int,
    )
}

proof fn lemma_unmarked_nonneg(marks: Seq<bool>)
    ensures
        unmarked(marks) >= 0,
{
    let g = |j: int|
        if 0 <= j < marks.len() && !marks[j] {
            1int
        } else {
            0int
        };
    assert forall|i: int| 0 <= i < marks.len() implies 0 <= #[trigger] g(i) by {}
    crate::sums::lemma_sum_nonneg(g, marks.len() as int);
}

proof fn lemma_unmarked_decreases(marks: Seq<bool>, x: int)
    requires
        0 <= x < marks.len(),
        !marks[x],
    ensures
        unmarked(marks.update(x, true)) == unmarked(marks) - 1,
        unmarked(marks.update(x, true)) >= 0,
{
    let after = marks.update(x, true);
    let f = |j: int|
        if 0 <= j < marks.len() && !marks[j] {
            1int
        } else {
            0int
        };
    let g = |j: int|
        if 0 <= j < after.len() && !after[j] {
            1int
        } else {
            0int
        };
    assert forall|i: int| 0 <= i < marks.len() && i != x implies #[trigger] f(i) == g(i) by {}
    crate::sums::lemma_sum_differs_at(f, g, marks.len() as int, x);
    assert forall|i: int| 0 <= i < after.len() implies 0 <= #[trigger] g(i) by {}
    crate::sums::lemma_sum_nonneg(g, after.len() as int);
}

proof fn lemma_contains_push(s: Seq<StorageIndex>, x: StorageIndex, y: StorageIndex)
    ensures
        s.push(x).contains(y) <==> (s.contains(y) || y == x),
{
    if s.push(x).contains(y) {
        let j = choose|j: int| 0 <= j < s.push(x).len() && s.push(x)[j] == y;
        if j < s.len() {
            assert(s[j] == y);
        }
    }
    if s.contains(y) {
        let j = choose|j: int| 0 <= j < s.len() && s[j] == y;
        assert(s.push(x)[j] == y);
    }
    if y == x {
        assert(s.push(x)[s.len() as int] == y);
    }
}

proof fn lemma_contains_drop_last(s: Seq<StorageIndex>, y: StorageIndex)
    requires
        s.len() > 0,
    ensures
        s.contains(y) <==> (s.drop_last().contains(y) || y == s.last()),
{
    if s.contains(y) {
        let j = choose|j: int| 0 <= j < s.len() && s[j] == y;
        if j < s.len() - 1 {
            assert(s.drop_last()[j] == y);
        }
    }
    if s.drop_last().contains(y) {
        let j = choose|j: int| 0 <= j < s.drop_last().len() && s.drop_last()[j] == y;
        assert(s[j] == y);
    }
    if y == s.last() {
        assert(s[s.len() - 1] == y);
    }
}

proof fn lemma_contains_concat(s: Seq<StorageIndex>, t: Seq<StorageIndex>, y: StorageIndex)
    ensures
        (s + t).contains(y) <==> (s.contains(y) || t.contains(y)),
{
    if (s + t).contains(y) {
        let j = choose|j: int| 0 <= j < (s + t).len() && (s + t)[j] == y;
        if j < s.len() {
            assert(s[j] == y);
        } else {
            assert(t[j - s.len()] == y);
        }
    }
    if s.contains(y) {
        let j = choose|j: int| 0 <= j < s.len() && s[j] == y;
        assert((s + t)[j] == y);
    }
    if t.contains(y) {
        let j = choose|j: int| 0 <= j < t.len() && t[j] == y;
        assert((s + t)[j + s.len()] == y);
    }
}

/// `set` holds the parents of each of its members.
pub open spec fn closed_under_parents(g: Nodes, set: Seq<StorageIndex>) -> bool {
    forall|y: StorageIndex, m: int|
        set.contains(y) && live(g, y) && 0 <= m < node(g, y).parents@.len() ==> set.contains(
            #[trigger] node(g, y).parents@[m],
        )
}

proof fn lemma_closed_holds_path(
    g: Nodes,
    set: Seq<StorageIndex>,
    p: Seq<StorageIndex>,
    k: int,
)
    requires
        links_wf(g),
        closed_under_parents(g, set),
        is_path(g, p),
        set.contains(p[p.len() - 1]),
        0 <= k < p.len(),
    ensures
        set.contains(p[k]),
    decreases p.len() - k,
{
    if k < p.len() - 1 {
        lemma_closed_holds_path(g, set, p, k + 1);
        let x = p[k];
        let y = p[k + 1];
        assert(live(g, p[k]));
        assert(live(g, p[k + 1]));
        assert(node(g, p[k]).children@.contains(p[k + 1]));
        let m = choose|m: int|
            0 <= m < node(g, x).children@.len() && node(g, x).children@[m] == y;
        assert(live(g, node(g, x).children@[m]) && node(g, node(g, x).children@[m]).parents@.contains(x));
        let n = choose|n: int| 0 <= n < node(g, y).parents@.len() && node(g, y).parents@[n] == x;
        assert(set.contains(node(g, y).parents@[n]));
    }
}

/// A set that holds `starts` and the parents of each of its members holds
/// every ancestor of `starts`.
proof fn lemma_closed_holds_above(
    g: Nodes,
    starts: Seq<StorageIndex>,
    set: Seq<StorageIndex>,
    a: StorageIndex,
)
    requires
        links_wf(g),
        closed_under_parents(g, set),
        forall|k: int| 0 <= k < starts.len() ==> set.contains(#[trigger] starts[k]),
        above(g, starts, a),
    ensures
        set.contains(a),
{
    let m = choose|m: int| 0 <= m < starts.len() && reaches(g, a, #[trigger] starts[m]);
    let p = choose|p: Seq<StorageIndex>| #[trigger]
        is_path(g, p) && p[0] == a && p[p.len() - 1] == starts[m];
    lemma_closed_holds_path(g, set, p, 0);
}

/// `h` is `g` without the transactions that `gone` holds: the others keep
/// their transaction, their instant and their parents, and lose the
/// children that `gone` holds.
pub open spec fn without_slots(g: Nodes, h: Nodes, gone: Seq<StorageIndex>) -> bool {
    &&& h.len() == g.len()
    &&& forall|i: StorageIndex| #[trigger] live(h, i) <==> (live(g, i) && !gone.contains(i))
    &&& forall|i: StorageIndex| #[trigger]
        live(h, i) ==> {
            &&& node(h, i).transaction == node(g, i).transaction
            &&& node(h, i).creation_instant == node(g, i).creation_instant
            &&& node(h, i).parents@ == node(g, i).parents@
            &&& forall|c: StorageIndex|
                #![trigger node(h, i).children@.contains(c)]
                #![trigger node(g, i).children@.contains(c)]
                node(h, i).children@.contains(c) <==> (node(g, i).children@.contains(c)
                    && !gone.contains(c))
        }
}

/// `records` are the records that `g` held in the slots `slots`, in the
/// same order.
pub open spec fn records_of(g: Nodes, records: Seq<StorageData>, slots: Seq<StorageIndex>) -> bool {
    &&& slots.len() == records.len()
    &&& slots.no_duplicates()
    &&& forall|k: int|
        0 <= k < slots.len() ==> {
            &&& live(g, #[trigger] slots[k])
            &&& records[k].transaction == node(g, slots[k]).transaction
            &&& records[k].creation_instant == node(g, slots[k]).creation_instant
        }
}

/// The subtree of `root` has left the storage: `records` are its records,
/// and `h` is `g` without them.
pub open spec fn subtree_removed(
    g: Nodes,
    h: Nodes,
    root: StorageIndex,
    records: Seq<StorageData>,
    slots: Seq<StorageIndex>,
) -> bool {
    &&& records_of(g, records, slots)
    &&& forall|i: StorageIndex| slots.contains(i) <==> reaches(g, root, i)
    &&& without_slots(g, h, slots)
}

/// `set` holds the children of each of its members.
pub open spec fn closed_under_children(g: Nodes, set: Seq<StorageIndex>) -> bool {
    forall|x: StorageIndex, c: StorageIndex|
        set.contains(x) && live(g, x) && #[trigger] node(g, x).children@.contains(c)
            ==> set.contains(c)
}

proof fn lemma_closed_holds_subtree_path(
    g: Nodes,
    set: Seq<StorageIndex>,
    p: Seq<StorageIndex>,
    k: int,
)
    requires
        closed_under_children(g, set),
        is_path(g, p),
        set.contains(p[0]),
        0 <= k < p.len(),
    ensures
        set.contains(p[k]),
    decreases k,
{
    if k > 0 {
        lemma_closed_holds_subtree_path(g, set, p, k - 1);
        assert(live(g, p[k - 1]));
        assert(node(g, p[k - 1]).children@.contains(p[k - 1 + 1]));
    }
}

/// A set that holds `root` and the children of each of its members holds
/// the subtree of `root`.
proof fn lemma_closed_holds_subtree(
    g: Nodes,
    set: Seq<StorageIndex>,
    root: StorageIndex,
    y: StorageIndex,
)
    requires
        closed_under_children(g, set),
        set.contains(root),
        reaches(g, root, y),
    ensures
        set.contains(y),
{
    let p = choose|p: Seq<StorageIndex>| #[trigger]
        is_path(g, p) && p[0] == root && p[p.len() - 1] == y;
    lemma_closed_holds_subtree_path(g, set, p, p.len() - 1);
}

/// A leaf step from an arena with a free slot appended is a leaf step from
/// the arena itself.
proof fn lemma_leaf_step_unpad(g0: Nodes, gp: Nodes, h: Nodes, k: StorageIndex)
    requires
        gp == g0 || gp == g0.push(None),
        leaf_step(gp, h, k),
    ensures
        leaf_step(g0, h, k),
{
    if gp != g0 {
        lemma_push_free_slot(g0, gp);
        assert forall|i: StorageIndex| i != k implies #[trigger] live(g0, i) == live(h, i) by {
            assert(live(gp, i) == live(g0, i));
        }
        assert forall|i: StorageIndex| i != k && #[trigger] live(g0, i) implies node(
            h,
            i,
        ).transaction == node(g0, i).transaction by {
            assert(live(gp, i));
        }
        assert forall|i: StorageIndex, c: StorageIndex|
            i != k && c != k && live(g0, i) implies (#[trigger] node(g0, i).children@.contains(c)
            <==> node(h, i).children@.contains(c)) by {
            assert(live(gp, i));
            assert(node(gp, i) == node(g0, i));
            assert(node(gp, i).children@.contains(c) <==> node(h, i).children@.contains(c));
        }
        assert forall|i: StorageIndex, c: StorageIndex|
            i != k && c != k && live(g0, i) implies (node(g0, i).children@.contains(c)
            <==> #[trigger] node(h, i).children@.contains(c)) by {
            assert(live(gp, i));
            assert(node(gp, i) == node(g0, i));
            assert(node(gp, i).children@.contains(c) <==> node(h, i).children@.contains(c));
        }
        assert forall|i: StorageIndex| #[trigger] live(g0, i) implies !node(g0, i).children@.contains(
            k,
        ) by {
            assert(live(gp, i));
        }
        assert forall|m: int| 0 <= m < node(h, k).parents@.len() implies live(
            g0,
            #[trigger] node(h, k).parents@[m],
        ) by {
            assert(live(gp, node(h, k).parents@[m]));
        }
        assert(!live(g0, k)) by {
            assert(live(gp, k) == live(g0, k));
        }
        assert(leaf_extension(g0, h, k));
        assert forall|i: StorageIndex| i != k && #[trigger] live(g0, i) implies node(
            h,
            i,
        ).parents@ == node(g0, i).parents@ && node(h, i).creation_instant == node(
            g0,
            i,
        ).creation_instant by {
            assert(live(gp, i));
        }
    }
}

/// Appending a free slot keeps the storage's invariant.
proof fn lemma_push_free_slot_wf(
    g: Nodes,
    h: Nodes,
    ages: Seq<nat>,
    ages2: Seq<nat>,
    next_age: nat,
    max: usize,
)
    requires
        h == g.push(None),
        ages2 == ages.push(0),
        links_wf(g),
        aggregates_wf(g),
        ages_wf(g, ages, next_age),
        chains_wf(g, ages, max),
        records_wf(g),
    ensures
        links_wf(h),
        aggregates_wf(h),
        ages_wf(h, ages2, next_age),
        chains_wf(h, ages2, max),
        records_wf(h),
        pool_total(h, Measure::Count) == pool_total(g, Measure::Count),
{
    lemma_push_free_slot(g, h);
    assert(records_wf(h)) by {
        assert forall|i: StorageIndex| #[trigger] live(h, i) implies node(h, i).transaction.max_gas
            > 0 by {
            assert(live(h, i) == live(g, i));
            assert(node(h, i) == node(g, i));
        }
        assert forall|i: StorageIndex, j: StorageIndex|
            #![trigger live(h, i), live(h, j)]
            live(h, i) && live(h, j) && node(h, i).transaction.id == node(h, j).transaction.id implies i
            == j by {
            assert(live(h, i) == live(g, i));
            assert(live(h, j) == live(g, j));
            assert(node(h, i) == node(g, i));
            assert(node(h, j) == node(g, j));
        }
    }
    assert forall|j: StorageIndex| #[trigger] live(h, j) implies live(g, j) && node(h, j) == node(
        g,
        j,
    ) by {
        assert(live(h, j) == live(g, j));
    }
    assert forall|j: StorageIndex| #[trigger] live(g, j) implies live(h, j) by {
        assert(live(h, j) == live(g, j));
    }
    assert forall|j: StorageIndex| #[trigger] live(h, j) implies {
        &&& node(h, j).parents@.no_duplicates()
        &&& node(h, j).children@.no_duplicates()
        &&& forall|k: int|
            0 <= k < node(h, j).parents@.len() ==> has_child(h, #[trigger] node(h, j).parents@[k], j)
        &&& forall|k: int|
            0 <= k < node(h, j).children@.len() ==> live(h, #[trigger] node(h, j).children@[k])
                && node(h, node(h, j).children@[k]).parents@.contains(j)
    } by {
        assert(live(g, j));
        assert forall|k: int| 0 <= k < node(h, j).parents@.len() implies has_child(
            h,
            #[trigger] node(h, j).parents@[k],
            j,
        ) by {
            let p = node(g, j).parents@[k];
            assert(has_child(g, p, j));
            assert(live(g, p));
        }
        assert forall|k: int| 0 <= k < node(h, j).children@.len() implies live(
            h,
            #[trigger] node(h, j).children@[k],
        ) && node(h, node(h, j).children@[k]).parents@.contains(j) by {
            let c = node(g, j).children@[k];
            assert(live(g, c));
        }
    }
    assert forall|j: StorageIndex, m: Measure| live(h, j) implies aggregate(node(h, j), m)
        == #[trigger] subtree_total(h, j, m) by {
        assert(live(g, j));
        assert(subtree_total(h, j, m) == subtree_total(g, j, m));
    }
    assert forall|j: StorageIndex| #[trigger] live(h, j) implies ages2[j as int] < next_age by {
        assert(live(g, j));
    }
    assert forall|j: StorageIndex, k: int|
        live(h, j) && 0 <= k < node(h, j).parents@.len() implies ages2[(#[trigger] node(
            h,
            j,
        ).parents@[k]) as int] < ages2[j as int] by {
        assert(live(g, j));
        assert(has_child(g, node(g, j).parents@[k], j));
    }
    assert forall|j: StorageIndex| #[trigger] live(h, j) implies chain_length(h, ages2, j)
        <= max by {
        assert(live(g, j));
        lemma_chain_length_kept(g, ages, next_age, h, ages2, j);
    }
}

/// `n`, or `cap` where `n` is greater.
pub open spec fn capped(n: nat, cap: usize) -> nat {
    if n >= cap {
        cap as nat
    } else {
        n
    }
}

/// What `memo` holds for a slot is the length of the longest chain that
/// ends there, or `cap` where the chain is longer; zero stands for a slot
/// that was not looked at.
pub open spec fn memo_wf(g: Nodes, ages: Seq<nat>, cap: usize, memo: Seq<usize>) -> bool {
    forall|j: int|
        0 <= j < memo.len() && #[trigger] memo[j] != 0 ==> live(g, j as usize) && memo[j]
            == capped(chain_length(g, ages, j as usize), cap)
}

impl GraphStorage {
    /// The slots of the storage.
    pub open spec fn view(&self) -> Nodes {
        self.nodes@
    }

    /// The invariant of the storage: links are mutual, parents are older
    /// than their children, every subtree sum is exact, no chain is longer
    /// than the limit, and the count is the number of stored transactions.
    pub open spec fn wf(&self) -> bool {
        &&& self@.len() <= usize::MAX
        &&& links_wf(self@)
        &&& aggregates_wf(self@)
        &&& ages_wf(self@, self.ages@, self.next_age@)
        &&& chains_wf(self@, self.ages@, self.config.max_txs_chain_count)
        &&& records_wf(self@)
        &&& self.count == pool_total(self@, Measure::Count)
    }

    /// An empty storage.
    pub fn new(config: GraphConfig) -> (storage: GraphStorage)
        ensures
            storage.wf(),
            storage@.len() == 0,
            storage.config == config,
            storage.count == 0,
    {
        GraphStorage {
            config,
            nodes: Vec::new(),
            count: 0,
            ages: Ghost(Seq::empty()),
            next_age: Ghost(0),
        }
    }

    /// The record in slot `index`, if the slot holds one.
    pub fn get(&self, index: StorageIndex) -> (data: Option<&StorageData>)
        ensures
            live(self@, index) ==> data == Some(&node(self@, index)),
            !live(self@, index) ==> data is None,
    {
        if index < self.nodes.len() {
            self.nodes[index].as_ref()
        } else {
            None
        }
    }

    /// Whether the transaction in slot `index` depends on a stored
    /// transaction.
    pub fn has_dependencies(&self, index: StorageIndex) -> (r: bool)
        ensures
            r == (live(self@, index) && node(self@, index).parents@.len() > 0),
    {
        match self.get(index) {
            Some(data) => data.parents.len() > 0,
            None => false,
        }
    }

    /// The transactions that spend an output of the transaction in slot
    /// `index`.
    pub fn get_dependents(&self, index: StorageIndex) -> (dependents: Vec<StorageIndex>)
        ensures
            live(self@, index) ==> dependents@ == node(self@, index).children@,
            !live(self@, index) ==> dependents@.len() == 0,
    {
        let mut dependents: Vec<StorageIndex> = Vec::new();
        match self.get(index) {
            Some(data) => {
                push_all(&mut dependents, &data.children);
                proof {
                    assert(Seq::<StorageIndex>::empty() + data.children@ == data.children@);
                }
            },
            None => {},
        }
        dependents
    }

    /// Number of stored transactions.
    pub fn len(&self) -> (n: usize)
        ensures
            n == self.count,
    {
        self.count
    }

    /// Whether nothing is stored.
    pub fn is_empty(&self) -> (r: bool)
        requires
            self.wf(),
        ensures
            r == (self.count == 0),
            r == (forall|i: StorageIndex| !live(self@, i)),
    {
        proof {
            lemma_pool_total_bounds(self@, Measure::Count);
            if self.count == 0 {
                assert forall|i: StorageIndex| !live(self@, i) by {
                    if live(self@, i) {
                        assert(weight(node(self@, i).transaction, Measure::Count) == 1);
                    }
                }
            } else {
                if forall|i: StorageIndex| !live(self@, i) {
                    let t = |j: int| crate::storage::pool_term(self@, Measure::Count, j);
                    assert forall|j: int| 0 <= j < self@.len() implies #[trigger] t(j) == 0 by {
                        assert(!live(self@, j as usize));
                    }
                    crate::sums::lemma_sum_zero_tail(t, 0, self@.len() as int);
                }
            }
        }
        self.count == 0
    }

    /// The given stored transactions and all their ancestors, each once.
    pub fn collect_ancestors(&self, starts: &Vec<StorageIndex>) -> (ancestors: Vec<StorageIndex>)
        requires
            self.wf(),
            forall|k: int| 0 <= k < starts@.len() ==> live(self@, #[trigger] starts@[k]),
        ensures
            ancestors@.no_duplicates(),
            forall|a: StorageIndex| ancestors@.contains(a) <==> above(self@, starts@, a),
    {
        let n = self.nodes.len();
        let mut marks: Vec<bool> = Vec::new();
        let mut i: usize = 0;
        while i < n
            invariant
                0 <= i <= n,
                marks@.len() == i,
                forall|j: int| 0 <= j < i ==> !marks@[j],
            decreases n - i,
        {
            marks.push(false);
            i += 1;
        }
        let mut result: Vec<StorageIndex> = Vec::new();
        let mut stack: Vec<StorageIndex> = Vec::new();
        push_all(&mut stack, starts);
        proof {
            assert(stack@ == starts@);
            assert forall|k: int| 0 <= k < stack@.len() implies above(
                self@,
                starts@,
                #[trigger] stack@[k],
            ) by {
                lemma_reaches_self(self@, starts@[k]);
            }
            assert forall|k: int| 0 <= k < starts@.len() implies result@.contains(
                #[trigger] starts@[k],
            ) || stack@.contains(starts@[k]) by {
                assert(stack@[k] == starts@[k]);
            }
        }
        proof {
            lemma_unmarked_nonneg(marks@);
        }
        while stack.len() > 0
            invariant
                links_wf(self@),
                n == self@.len(),
                marks@.len() == n,
                forall|j: int| 0 <= j < n ==> (#[trigger] marks@[j] <==> result@.contains(j as usize)),
                result@.no_duplicates(),
                forall|k: int| 0 <= k < result@.len() ==> above(self@, starts@, #[trigger] result@[k]),
                forall|k: int| 0 <= k < stack@.len() ==> above(self@, starts@, #[trigger] stack@[k]),
                forall|k: int|
                    0 <= k < starts@.len() ==> result@.contains(#[trigger] starts@[k])
                        || stack@.contains(starts@[k]),
                forall|y: StorageIndex, m: int|
                    result@.contains(y) && live(self@, y) && 0 <= m < node(self@, y).parents@.len()
                        ==> result@.contains(#[trigger] node(self@, y).parents@[m])
                        || stack@.contains(node(self@, y).parents@[m]),
                unmarked(marks@) >= 0,
            decreases unmarked(marks@), stack@.len(),
        {
            let ghost stack0 = stack@;
            let ghost result0 = result@;
            let ghost marks0 = marks@;
            let x = stack.pop().unwrap();
            proof {
                assert(above(self@, starts@, stack0[stack0.len() - 1]));
                let m = choose|m: int|
                    0 <= m < starts@.len() && reaches(self@, x, #[trigger] starts@[m]);
                lemma_reaches_live(self@, x, starts@[m]);
                assert(stack@ == stack0.drop_last());
                assert forall|y: StorageIndex| stack0.contains(y) implies stack@.contains(y) || y
                    == x by {
                    lemma_contains_drop_last(stack0, y);
                }
            }
            if !marks[x] {
                marks.set(x, true);
                result.push(x);
                let ghost stack1 = stack@;
                match &self.nodes[x] {
                    Some(data) => {
                        push_all(&mut stack, &data.parents);
                    },
                    None => {},
                }
                proof {
                    let parents = node(self@, x).parents@;
                    assert(stack@ == stack1 + parents);
                    lemma_unmarked_decreases(marks0, x as int);
                    assert(marks@ == marks0.update(x as int, true));
                    assert forall|j: int| 0 <= j < n implies (#[trigger] marks@[j]
                        <==> result@.contains(j as usize)) by {
                        lemma_contains_push(result0, x, j as usize);
                    }
                    assert forall|a: int, b: int|
                        0 <= a < result@.len() && 0 <= b < result@.len() && a != b implies result@[a]
                        != result@[b] by {
                        if a == result0.len() {
                            assert(result0[b] == result@[b]);
                            assert(result0.contains(result0[b]));
                        } else if b == result0.len() {
                            assert(result0[a] == result@[a]);
                            assert(result0.contains(result0[a]));
                        } else {
                            assert(result0[a] == result@[a]);
                            assert(result0[b] == result@[b]);
                        }
                    }
                    assert forall|k: int| 0 <= k < result@.len() implies above(
                        self@,
                        starts@,
                        #[trigger] result@[k],
                    ) by {
                        if k < result0.len() {
                            assert(result@[k] == result0[k]);
                        }
                    }
                    assert forall|k: int| 0 <= k < stack@.len() implies above(
                        self@,
                        starts@,
                        #[trigger] stack@[k],
                    ) by {
                        if k < stack1.len() {
                            assert(stack@[k] == stack1[k]);
                            assert(stack1[k] == stack0[k]);
                        } else {
                            let p = parents[k - stack1.len()];
                            assert(stack@[k] == p);
                            assert(live(self@, x));
                            assert(has_child(self@, node(self@, x).parents@[k - stack1.len()], x));
                            let m = choose|m: int|
                                0 <= m < starts@.len() && reaches(self@, x, #[trigger] starts@[m]);
                            crate::storage::reach::lemma_reaches_prepend(self@, p, x, starts@[m]);
                        }
                    }
                    assert forall|k: int| 0 <= k < starts@.len() implies result@.contains(
                        #[trigger] starts@[k],
                    ) || stack@.contains(starts@[k]) by {
                        let y = starts@[k];
                        lemma_contains_push(result0, x, y);
                        lemma_contains_concat(stack1, parents, y);
                    }
                    assert forall|y: StorageIndex, m: int|
                        result@.contains(y) && live(self@, y) && 0 <= m < node(
                            self@,
                            y,
                        ).parents@.len() implies result@.contains(
                        #[trigger] node(self@, y).parents@[m],
                    ) || stack@.contains(node(self@, y).parents@[m]) by {
                        let q = node(self@, y).parents@[m];
                        lemma_contains_push(result0, x, y);
                        lemma_contains_push(result0, x, q);
                        lemma_contains_concat(stack1, parents, q);
                        if y == x {
                            assert(parents.contains(q));
                        } else {
                            assert(result0.contains(q) || stack0.contains(q));
                        }
                    }
                }
            } else {
                proof {
                    assert(result@.contains(x));
                }
            }
        }
        proof {
            assert forall|a: StorageIndex| result@.contains(a) <==> above(self@, starts@, a) by {
                if result@.contains(a) {
                    let k = choose|k: int| 0 <= k < result@.len() && result@[k] == a;
                    assert(above(self@, starts@, result@[k]));
                }
                if above(self@, starts@, a) {
                    assert(closed_under_parents(self@, result@)) by {
                        assert forall|y: StorageIndex, m: int|
                            result@.contains(y) && live(self@, y) && 0 <= m < node(
                                self@,
                                y,
                            ).parents@.len() implies result@.contains(
                            #[trigger] node(self@, y).parents@[m],
                        ) by {
                            let q = node(self@, y).parents@[m];
                            if stack@.contains(q) {
                                let j = choose|j: int| 0 <= j < stack@.len() && stack@[j] == q;
                            }
                        }
                    }
                    assert forall|k: int| 0 <= k < starts@.len() implies result@.contains(
                        #[trigger] starts@[k],
                    ) by {
                        if stack@.contains(starts@[k]) {
                            let j = choose|j: int| 0 <= j < stack@.len() && stack@[j] == starts@[k];
                        }
                    }
                    lemma_closed_holds_above(self@, starts@, result@, a);
                }
            }
        }
        result
    }

    /// Adds the weight of `tx` to the sums of the listed records.
    fn add_to_ancestors(&mut self, ancestors: &Vec<StorageIndex>, tx: &PoolTx)
        requires
            ancestors@.no_duplicates(),
            forall|j: int| 0 <= j < ancestors@.len() ==> live(old(self)@, #[trigger] ancestors@[j]),
            forall|j: int|
                0 <= j < ancestors@.len() ==> {
                    let data = node(old(self)@, #[trigger] ancestors@[j]);
                    &&& data.dependents_cumulative_tip + tx.tip <= u128::MAX
                    &&& data.dependents_cumulative_gas + tx.max_gas <= u128::MAX
                    &&& data.dependents_cumulative_bytes_size + tx.metered_bytes_size <= u128::MAX
                    &&& data.number_dependents_in_chain + 1 <= usize::MAX
                },
        ensures
            aggregates_shifted(old(self)@, final(self)@, ancestors@, *tx, true),
            final(self).config == old(self).config,
            final(self).count == old(self).count,
            final(self).ages == old(self).ages,
            final(self).next_age == old(self).next_age,
    {
        let ghost g0 = self@;
        let mut m: usize = 0;
        while m < ancestors.len()
            invariant
                0 <= m <= ancestors@.len(),
                ancestors@.no_duplicates(),
                forall|j: int| 0 <= j < ancestors@.len() ==> live(g0, #[trigger] ancestors@[j]),
                forall|j: int|
                    0 <= j < ancestors@.len() ==> {
                        let data = node(g0, #[trigger] ancestors@[j]);
                        &&& data.dependents_cumulative_tip + tx.tip <= u128::MAX
                        &&& data.dependents_cumulative_gas + tx.max_gas <= u128::MAX
                        &&& data.dependents_cumulative_bytes_size + tx.metered_bytes_size
                            <= u128::MAX
                        &&& data.number_dependents_in_chain + 1 <= usize::MAX
                    },
                aggregates_shifted(g0, self@, ancestors@.subrange(0, m as int), *tx, true),
                self.config == old(self).config,
                self.count == old(self).count,
                self.ages == old(self).ages,
                self.next_age == old(self).next_age,
            decreases ancestors@.len() - m,
        {
            let a = ancestors[m];
            let ghost before = self@;
            let ghost done = ancestors@.subrange(0, m as int);
            proof {
                assert(live(g0, ancestors@[m as int]));
                assert(live(before, a) == live(g0, a));
                assert(!done.contains(a)) by {
                    if done.contains(a) {
                        let j = choose|j: int| 0 <= j < done.len() && done[j] == a;
                        assert(ancestors@[j] == ancestors@[m as int]);
                    }
                }
                assert(aggregate(node(before, a), Measure::Tip) == aggregate(
                    node(g0, a),
                    Measure::Tip,
                ));
                assert(aggregate(node(before, a), Measure::Gas) == aggregate(
                    node(g0, a),
                    Measure::Gas,
                ));
                assert(aggregate(node(before, a), Measure::Bytes) == aggregate(
                    node(g0, a),
                    Measure::Bytes,
                ));
                assert(aggregate(node(before, a), Measure::Count) == aggregate(
                    node(g0, a),
                    Measure::Count,
                ));
            }
            match &mut self.nodes[a] {
                Some(data) => {
                    data.dependents_cumulative_tip = data.dependents_cumulative_tip
                        + tx.tip as u128;
                    data.dependents_cumulative_gas = data.dependents_cumulative_gas
                        + tx.max_gas as u128;
                    data.dependents_cumulative_bytes_size = data.dependents_cumulative_bytes_size
                        + tx.metered_bytes_size as u128;
                    data.number_dependents_in_chain = data.number_dependents_in_chain + 1;
                },
                None => {},
            }
            proof {
                let done2 = ancestors@.subrange(0, m + 1);
                assert(done2 == done.push(a));
                assert forall|i: StorageIndex| #[trigger] live(self@, i) == live(g0, i) by {
                    assert(live(before, i) == live(g0, i));
                }
                assert forall|i: StorageIndex| #[trigger] live(g0, i) implies {
                    &&& node(self@, i).transaction == node(g0, i).transaction
                    &&& node(self@, i).creation_instant == node(g0, i).creation_instant
                    &&& node(self@, i).parents == node(g0, i).parents
                    &&& node(self@, i).children == node(g0, i).children
                    &&& forall|mm: Measure| #[trigger]
                        aggregate(node(self@, i), mm) == aggregate(node(g0, i), mm) + (
                        if done2.contains(i) {
                            shift(*tx, true, mm)
                        } else {
                            0
                        })
                } by {
                    lemma_contains_push(done, a, i);
                    assert forall|mm: Measure| #[trigger]
                        aggregate(node(self@, i), mm) == aggregate(node(g0, i), mm) + (
                        if done2.contains(i) {
                            shift(*tx, true, mm)
                        } else {
                            0
                        }) by {
                        assert(aggregate(node(before, i), mm) == aggregate(node(g0, i), mm) + (
                        if done.contains(i) {
                            shift(*tx, true, mm)
                        } else {
                            0
                        }));
                    }
                }
            }
            m += 1;
        }
        proof {
            assert(ancestors@.subrange(0, ancestors@.len() as int) == ancestors@);
        }
    }

    /// Takes the weight of `tx` from the sums of the listed records.
    fn subtract_from_ancestors(&mut self, ancestors: &Vec<StorageIndex>, tx: &PoolTx)
        requires
            ancestors@.no_duplicates(),
            forall|j: int| 0 <= j < ancestors@.len() ==> live(old(self)@, #[trigger] ancestors@[j]),
            forall|j: int|
                0 <= j < ancestors@.len() ==> {
                    let data = node(old(self)@, #[trigger] ancestors@[j]);
                    &&& data.dependents_cumulative_tip >= tx.tip
                    &&& data.dependents_cumulative_gas >= tx.max_gas
                    &&& data.dependents_cumulative_bytes_size >= tx.metered_bytes_size
                    &&& data.number_dependents_in_chain >= 1
                },
        ensures
            aggregates_shifted(old(self)@, final(self)@, ancestors@, *tx, false),
            final(self).config == old(self).config,
            final(self).count == old(self).count,
            final(self).ages == old(self).ages,
            final(self).next_age == old(self).next_age,
    {
        let ghost g0 = self@;
        let mut m: usize = 0;
        while m < ancestors.len()
            invariant
                0 <= m <= ancestors@.len(),
                ancestors@.no_duplicates(),
                forall|j: int| 0 <= j < ancestors@.len() ==> live(g0, #[trigger] ancestors@[j]),
                forall|j: int|
                    0 <= j < ancestors@.len() ==> {
                        let data = node(g0, #[trigger] ancestors@[j]);
                        &&& data.dependents_cumulative_tip >= tx.tip
                        &&& data.dependents_cumulative_gas >= tx.max_gas
                        &&& data.dependents_cumulative_bytes_size >= tx.metered_bytes_size
                        &&& data.number_dependents_in_chain >= 1
                    },
                aggregates_shifted(g0, self@, ancestors@.subrange(0, m as int), *tx, false),
                self.config == old(self).config,
                self.count == old(self).count,
                self.ages == old(self).ages,
                self.next_age == old(self).next_age,
            decreases ancestors@.len() - m,
        {
            let a = ancestors[m];
            let ghost before = self@;
            let ghost done = ancestors@.subrange(0, m as int);
            proof {
                assert(live(g0, ancestors@[m as int]));
                assert(live(before, a) == live(g0, a));
                assert(!done.contains(a)) by {
                    if done.contains(a) {
                        let j = choose|j: int| 0 <= j < done.len() && done[j] == a;
                        assert(ancestors@[j] == ancestors@[m as int]);
                    }
                }
                assert(aggregate(node(before, a), Measure::Tip) == aggregate(
                    node(g0, a),
                    Measure::Tip,
                ));
                assert(aggregate(node(before, a), Measure::Gas) == aggregate(
                    node(g0, a),
                    Measure::Gas,
                ));
                assert(aggregate(node(before, a), Measure::Bytes) == aggregate(
                    node(g0, a),
                    Measure::Bytes,
                ));
                assert(aggregate(node(before, a), Measure::Count) == aggregate(
                    node(g0, a),
                    Measure::Count,
                ));
            }
            match &mut self.nodes[a] {
                Some(data) => {
                    data.dependents_cumulative_tip = data.dependents_cumulative_tip
                        - tx.tip as u128;
                    data.dependents_cumulative_gas = data.dependents_cumulative_gas
                        - tx.max_gas as u128;
                    data.dependents_cumulative_bytes_size = data.dependents_cumulative_bytes_size
                        - tx.metered_bytes_size as u128;
                    data.number_dependents_in_chain = data.number_dependents_in_chain - 1;
                },
                None => {},
            }
            proof {
                let done2 = ancestors@.subrange(0, m + 1);
                assert(done2 == done.push(a));
                assert forall|i: StorageIndex| #[trigger] live(self@, i) == live(g0, i) by {
                    assert(live(before, i) == live(g0, i));
                }
                assert forall|i: StorageIndex| #[trigger] live(g0, i) implies {
                    &&& node(self@, i).transaction == node(g0, i).transaction
                    &&& node(self@, i).creation_instant == node(g0, i).creation_instant
                    &&& node(self@, i).parents == node(g0, i).parents
                    &&& node(self@, i).children == node(g0, i).children
                    &&& forall|mm: Measure| #[trigger]
                        aggregate(node(self@, i), mm) == aggregate(node(g0, i), mm) + (
                        if done2.contains(i) {
                            shift(*tx, false, mm)
                        } else {
                            0
                        })
                } by {
                    lemma_contains_push(done, a, i);
                    assert forall|mm: Measure| #[trigger]
                        aggregate(node(self@, i), mm) == aggregate(node(g0, i), mm) + (
                        if done2.contains(i) {
                            shift(*tx, false, mm)
                        } else {
                            0
                        }) by {
                        assert(aggregate(node(before, i), mm) == aggregate(node(g0, i), mm) + (
                        if done.contains(i) {
                            shift(*tx, false, mm)
                        } else {
                            0
                        }));
                    }
                }
            }
            m += 1;
        }
        proof {
            assert(ancestors@.subrange(0, ancestors@.len() as int) == ancestors@);
        }
    }

    /// Lists `k` as a child of each of the listed records.
    fn link_children(&mut self, parents: &Vec<StorageIndex>, k: StorageIndex)
        requires
            parents@.no_duplicates(),
            forall|j: int| 0 <= j < parents@.len() ==> live(old(self)@, #[trigger] parents@[j]),
        ensures
            children_changed(old(self)@, final(self)@, parents@, k, true),
            final(self).config == old(self).config,
            final(self).count == old(self).count,
            final(self).ages == old(self).ages,
            final(self).next_age == old(self).next_age,
    {
        let ghost g0 = self@;
        let mut m: usize = 0;
        while m < parents.len()
            invariant
                0 <= m <= parents@.len(),
                parents@.no_duplicates(),
                forall|j: int| 0 <= j < parents@.len() ==> live(g0, #[trigger] parents@[j]),
                children_changed(g0, self@, parents@.subrange(0, m as int), k, true),
                self.config == old(self).config,
                self.count == old(self).count,
                self.ages == old(self).ages,
                self.next_age == old(self).next_age,
            decreases parents@.len() - m,
        {
            let p = parents[m];
            let ghost before = self@;
            let ghost done = parents@.subrange(0, m as int);
            proof {
                assert(live(g0, parents@[m as int]));
                assert(live(before, p) == live(g0, p));
                assert(!done.contains(p)) by {
                    if done.contains(p) {
                        let j = choose|j: int| 0 <= j < done.len() && done[j] == p;
                        assert(parents@[j] == parents@[m as int]);
                    }
                }
            }
            match &mut self.nodes[p] {
                Some(data) => {
                    data.children.push(k);
                },
                None => {},
            }
            proof {
                let done2 = parents@.subrange(0, m + 1);
                assert(done2 == done.push(p));
                assert forall|i: StorageIndex| #[trigger] live(self@, i) == live(g0, i) by {
                    assert(live(before, i) == live(g0, i));
                }
                assert forall|i: StorageIndex| #[trigger] live(g0, i) implies {
                    &&& node(self@, i).transaction == node(g0, i).transaction
                    &&& node(self@, i).creation_instant == node(g0, i).creation_instant
                    &&& node(self@, i).parents == node(g0, i).parents
                    &&& forall|mm: Measure| #[trigger]
                        aggregate(node(self@, i), mm) == aggregate(node(g0, i), mm)
                    &&& !done2.contains(i) ==> node(self@, i).children == node(g0, i).children
                    &&& done2.contains(i) ==> node(self@, i).children@ == node(
                        g0,
                        i,
                    ).children@.push(k)
                } by {
                    lemma_contains_push(done, p, i);
                    assert forall|mm: Measure| #[trigger]
                        aggregate(node(self@, i), mm) == aggregate(node(g0, i), mm) by {
                        assert(aggregate(node(before, i), mm) == aggregate(node(g0, i), mm));
                    }
                }
            }
            m += 1;
        }
        proof {
            assert(parents@.subrange(0, parents@.len() as int) == parents@);
        }
    }

    /// Strikes `k` from the children of each of the listed records.
    fn unlink_children(&mut self, parents: &Vec<StorageIndex>, k: StorageIndex)
        requires
            parents@.no_duplicates(),
            forall|j: int|
                0 <= j < parents@.len() ==> live(old(self)@, #[trigger] parents@[j]) && node(
                    old(self)@,
                    parents@[j],
                ).children@.no_duplicates(),
        ensures
            children_changed(old(self)@, final(self)@, parents@, k, false),
            final(self).config == old(self).config,
            final(self).count == old(self).count,
            final(self).ages == old(self).ages,
            final(self).next_age == old(self).next_age,
    {
        let ghost g0 = self@;
        let mut m: usize = 0;
        while m < parents.len()
            invariant
                0 <= m <= parents@.len(),
                parents@.no_duplicates(),
                forall|j: int|
                    0 <= j < parents@.len() ==> live(g0, #[trigger] parents@[j]) && node(
                        g0,
                        parents@[j],
                    ).children@.no_duplicates(),
                children_changed(g0, self@, parents@.subrange(0, m as int), k, false),
                self.config == old(self).config,
                self.count == old(self).count,
                self.ages == old(self).ages,
                self.next_age == old(self).next_age,
            decreases parents@.len() - m,
        {
            let p = parents[m];
            let ghost before = self@;
            let ghost done = parents@.subrange(0, m as int);
            proof {
                assert(live(g0, parents@[m as int]));
                assert(live(before, p) == live(g0, p));
                assert(!done.contains(p)) by {
                    if done.contains(p) {
                        let j = choose|j: int| 0 <= j < done.len() && done[j] == p;
                        assert(parents@[j] == parents@[m as int]);
                    }
                }
                assert(node(before, p).children == node(g0, p).children);
            }
            match &mut self.nodes[p] {
                Some(data) => {
                    remove_value(&mut data.children, k);
                },
                None => {},
            }
            proof {
                let done2 = parents@.subrange(0, m + 1);
                assert(done2 == done.push(p));
                assert forall|i: StorageIndex| #[trigger] live(self@, i) == live(g0, i) by {
                    assert(live(before, i) == live(g0, i));
                }
                assert forall|i: StorageIndex| #[trigger] live(g0, i) implies {
                    &&& node(self@, i).transaction == node(g0, i).transaction
                    &&& node(self@, i).creation_instant == node(g0, i).creation_instant
                    &&& node(self@, i).parents == node(g0, i).parents
                    &&& forall|mm: Measure| #[trigger]
                        aggregate(node(self@, i), mm) == aggregate(node(g0, i), mm)
                    &&& !done2.contains(i) ==> node(self@, i).children == node(g0, i).children
                    &&& done2.contains(i) ==> {
                        &&& node(self@, i).children@.no_duplicates()
                        &&& forall|c: StorageIndex|
                            node(self@, i).children@.contains(c) <==> (node(
                                g0,
                                i,
                            ).children@.contains(c) && c != k)
                    }
                } by {
                    lemma_contains_push(done, p, i);
                    assert forall|mm: Measure| #[trigger]
                        aggregate(node(self@, i), mm) == aggregate(node(g0, i), mm) by {
                        assert(aggregate(node(before, i), mm) == aggregate(node(g0, i), mm));
                    }
                }
            }
            m += 1;
        }
        proof {
            assert(parents@.subrange(0, parents@.len() as int) == parents@);
        }
    }

    /// Strikes `r` from the parents of each of the listed records.
    fn unlink_parents(&mut self, children: &Vec<StorageIndex>, r: StorageIndex)
        requires
            children@.no_duplicates(),
            forall|j: int|
                0 <= j < children@.len() ==> live(old(self)@, #[trigger] children@[j]) && node(
                    old(self)@,
                    children@[j],
                ).parents@.no_duplicates(),
        ensures
            parents_changed(old(self)@, final(self)@, children@, r),
            final(self).config == old(self).config,
            final(self).count == old(self).count,
            final(self).ages == old(self).ages,
            final(self).next_age == old(self).next_age,
    {
        let ghost g0 = self@;
        let mut m: usize = 0;
        while m < children.len()
            invariant
                0 <= m <= children@.len(),
                children@.no_duplicates(),
                forall|j: int|
                    0 <= j < children@.len() ==> live(g0, #[trigger] children@[j]) && node(
                        g0,
                        children@[j],
                    ).parents@.no_duplicates(),
                parents_changed(g0, self@, children@.subrange(0, m as int), r),
                self.config == old(self).config,
                self.count == old(self).count,
                self.ages == old(self).ages,
                self.next_age == old(self).next_age,
            decreases children@.len() - m,
        {
            let c = children[m];
            let ghost before = self@;
            let ghost done = children@.subrange(0, m as int);
            proof {
                assert(live(g0, children@[m as int]));
                assert(live(before, c) == live(g0, c));
                assert(!done.contains(c)) by {
                    if done.contains(c) {
                        let j = choose|j: int| 0 <= j < done.len() && done[j] == c;
                        assert(children@[j] == children@[m as int]);
                    }
                }
                assert(node(before, c).parents == node(g0, c).parents);
            }
            match &mut self.nodes[c] {
                Some(data) => {
                    remove_value(&mut data.parents, r);
                },
                None => {},
            }
            proof {
                let done2 = children@.subrange(0, m + 1);
                assert(done2 == done.push(c));
                assert forall|i: StorageIndex| #[trigger] live(self@, i) == live(g0, i) by {
                    assert(live(before, i) == live(g0, i));
                }
                assert forall|i: StorageIndex| #[trigger] live(g0, i) implies {
                    &&& node(self@, i).transaction == node(g0, i).transaction
                    &&& node(self@, i).creation_instant == node(g0, i).creation_instant
                    &&& node(self@, i).children == node(g0, i).children
                    &&& forall|mm: Measure| #[trigger]
                        aggregate(node(self@, i), mm) == aggregate(node(g0, i), mm)
                    &&& !done2.contains(i) ==> node(self@, i).parents == node(g0, i).parents
                    &&& done2.contains(i) ==> {
                        &&& node(self@, i).parents@.no_duplicates()
                        &&& forall|q: StorageIndex|
                            node(self@, i).parents@.contains(q) <==> (node(
                                g0,
                                i,
                            ).parents@.contains(q) && q != r)
                    }
                } by {
                    lemma_contains_push(done, c, i);
                    assert forall|mm: Measure| #[trigger]
                        aggregate(node(self@, i), mm) == aggregate(node(g0, i), mm) by {
                        assert(aggregate(node(before, i), mm) == aggregate(node(g0, i), mm));
                    }
                }
            }
            m += 1;
        }
        proof {
            assert(children@.subrange(0, children@.len() as int) == children@);
        }
    }

    /// The length of the longest chain that ends with the transaction in
    /// slot `i`, or `cap` where the chain is longer. `memo` holds what
    /// earlier calls have found.
    fn chain_length_up_to(&self, i: StorageIndex, cap: usize, memo: &mut Vec<usize>) -> (length:
        usize)
        requires
            self.wf(),
            live(self@, i),
            cap >= 1,
            old(memo)@.len() == self@.len(),
            memo_wf(self@, self.ages@, cap, old(memo)@),
        ensures
            length == capped(chain_length(self@, self.ages@, i), cap),
            final(memo)@.len() == self@.len(),
            memo_wf(self@, self.ages@, cap, final(memo)@),
        decreases self.ages@[i as int],
    {
        if memo[i] != 0 {
            return memo[i];
        }
        let ghost g = self@;
        let ghost ages = self.ages@;
        let mut longest: usize = 0;
        let mut m: usize = 0;
        let count = match &self.nodes[i] {
            Some(data) => data.parents.len(),
            None => 0,
        };
        while m < count
            invariant
                self.wf(),
                g == self@,
                ages == self.ages@,
                live(g, i),
                cap >= 1,
                count == node(g, i).parents@.len(),
                0 <= m <= count,
                memo@.len() == g.len(),
                memo_wf(g, ages, cap, memo@),
                longest == capped(longest_above(g, ages, i, m as nat), cap),
            decreases count - m,
        {
            let parent = match &self.nodes[i] {
                Some(data) => data.parents[m],
                None => i,
            };
            proof {
                assert(has_child(g, node(g, i).parents@[m as int], i));
                assert(ages[(node(g, i).parents@[m as int]) as int] < ages[i as int]);
            }
            let length = self.chain_length_up_to(parent, cap, memo);
            if length > longest {
                longest = length;
            }
            m += 1;
        }
        let length = if longest >= cap {
            cap
        } else {
            longest + 1
        };
        memo.set(i, length);
        length
    }

    /// Works out which stored transactions `transaction` depends on, and
    /// refuses it when storing it would make a chain too long.
    pub fn can_store_transaction(&self, transaction: PoolTx) -> (r: Result<
        CheckedTransaction,
        Error,
    >)
        requires
            self.wf(),
        ensures
            r is Err <==> chain_too_long(
                self@,
                self.ages@,
                self.config.max_txs_chain_count,
                transaction,
            ),
            r matches Err(e) ==> e == Error::ChainTooLong,
            r matches Ok(checked) ==> checked.tx == transaction && checked.valid_for(
                self@,
                self.ages@,
                self.config.max_txs_chain_count,
            ),
    {
        let max = self.config.max_txs_chain_count;
        if max == 0 {
            return Err(Error::ChainTooLong);
        }
        let mut direct: Vec<StorageIndex> = Vec::new();
        let mut i: usize = 0;
        while i < self.nodes.len()
            invariant
                0 <= i <= self@.len(),
                forall|j: int| 0 <= j < direct@.len() ==> (#[trigger] direct@[j]) < i,
                forall|a: int, b: int| 0 <= a < b < direct@.len() ==> direct@[a] < direct@[b],
                forall|p: StorageIndex|
                    direct@.contains(p) <==> (p < i && depends_on(self@, transaction, p)),
            decreases self@.len() - i,
        {
            let ghost before = direct@;
            let hit = match &self.nodes[i] {
                Some(data) => transaction.has_input_from(&data.transaction.id),
                None => false,
            };
            if hit {
                direct.push(i);
            }
            proof {
                assert forall|p: StorageIndex|
                    direct@.contains(p) <==> (p < i + 1 && depends_on(self@, transaction, p)) by {
                    lemma_contains_push(before, i, p);
                }
            }
            i += 1;
        }
        proof {
            assert forall|j: int| 0 <= j < direct@.len() implies live(self@, #[trigger] direct@[j]) by {
                assert(direct@.contains(direct@[j]));
            }
        }
        let mut memo: Vec<usize> = Vec::new();
        let mut z: usize = 0;
        while z < self.nodes.len()
            invariant
                0 <= z <= self@.len(),
                memo@.len() == z,
                forall|j: int| 0 <= j < z ==> memo@[j] == 0,
            decreases self@.len() - z,
        {
            memo.push(0);
            z += 1;
        }
        let mut k: usize = 0;
        while k < direct.len()
            invariant
                self.wf(),
                0 <= k <= direct@.len(),
                max == self.config.max_txs_chain_count,
                max >= 1,
                forall|j: int| 0 <= j < direct@.len() ==> live(self@, #[trigger] direct@[j]),
                forall|p: StorageIndex| direct@.contains(p) <==> depends_on(self@, transaction, p),
                memo@.len() == self@.len(),
                memo_wf(self@, self.ages@, max, memo@),
                forall|j: int|
                    0 <= j < k ==> chain_length(self@, self.ages@, #[trigger] direct@[j]) < max,
            decreases direct@.len() - k,
        {
            let length = self.chain_length_up_to(direct[k], max, &mut memo);
            if length >= max {
                proof {
                    assert(direct@.contains(direct@[k as int]));
                    assert(depends_on(self@, transaction, direct@[k as int]));
                }
                return Err(Error::ChainTooLong);
            }
            k += 1;
        }
        let all = self.collect_ancestors(&direct);
        proof {
            assert forall|p: StorageIndex| direct@.contains(p) implies chain_length(
                self@,
                self.ages@,
                p,
            ) < max by {
                let j = choose|j: int| 0 <= j < direct@.len() && direct@[j] == p;
                assert(chain_length(self@, self.ages@, direct@[j]) < max);
            }
            assert(!chain_too_long(self@, self.ages@, max, transaction)) by {
                if chain_too_long(self@, self.ages@, max, transaction) {
                    let p = choose|p: StorageIndex| #[trigger]
                        depends_on(self@, transaction, p) && chain_length(self@, self.ages@, p)
                            >= max;
                    assert(direct@.contains(p));
                }
            }
        }
        Ok(CheckedTransaction { tx: transaction, direct_dependencies: direct, all_dependencies: all })
    }

    /// Stores a checked transaction as a new leaf of the graph and returns
    /// its slot.
    pub fn store_transaction(&mut self, checked: CheckedTransaction, creation_instant: u64) -> (index:
        StorageIndex)
        requires
            old(self).wf(),
            checked.valid_for(old(self)@, old(self).ages@, old(self).config.max_txs_chain_count),
            checked.tx.max_gas > 0,
            !contains_id(old(self)@, checked.tx.id),
        ensures
            final(self).wf(),
            final(self).config == old(self).config,
            final(self).count == old(self).count + 1,
            leaf_step(old(self)@, final(self)@, index),
            node(final(self)@, index).transaction == checked.tx,
            node(final(self)@, index).creation_instant == creation_instant,
            node(final(self)@, index).parents@ == checked.direct_dependencies@,
            forall|m: Measure| #[trigger]
                pool_total(final(self)@, m) == pool_total(old(self)@, m) + weight(checked.tx, m),
    {
        let ghost g0 = self@;
        let ghost ages0 = self.ages@;
        let max = self.config.max_txs_chain_count;
        let k = self.free_slot();
        let ghost gp = self@;
        let ghost agesp = self.ages@;
        let CheckedTransaction { tx, direct_dependencies, all_dependencies } = checked;
        proof {
            if gp != g0 {
                lemma_push_free_slot(g0, gp);
            }
            assert forall|i: StorageIndex| #[trigger] live(gp, i) == live(g0, i) by {}
            assert forall|a: StorageIndex, b: StorageIndex| #[trigger]
                reaches(gp, a, b) == reaches(g0, a, b) by {}
            assert forall|a: StorageIndex|
                all_dependencies@.contains(a) <==> above(gp, direct_dependencies@, a) by {
                if above(gp, direct_dependencies@, a) {
                    let m = choose|m: int|
                        0 <= m < direct_dependencies@.len() && reaches(
                            gp,
                            a,
                            #[trigger] direct_dependencies@[m],
                        );
                    assert(reaches(g0, a, direct_dependencies@[m]));
                }
                if above(g0, direct_dependencies@, a) {
                    let m = choose|m: int|
                        0 <= m < direct_dependencies@.len() && reaches(
                            g0,
                            a,
                            #[trigger] direct_dependencies@[m],
                        );
                    assert(reaches(gp, a, direct_dependencies@[m]));
                }
            }
            assert forall|j: int| 0 <= j < direct_dependencies@.len() implies live(
                gp,
                #[trigger] direct_dependencies@[j],
            ) by {
                assert(direct_dependencies@.contains(direct_dependencies@[j]));
                assert(depends_on(g0, tx, direct_dependencies@[j]));
            }
            lemma_pool_total_bounds(gp, Measure::Tip);
            lemma_pool_total_bounds(gp, Measure::Gas);
            lemma_pool_total_bounds(gp, Measure::Bytes);
            assert(gp.len() * u64::MAX + u64::MAX <= u128::MAX) by (nonlinear_arith)
                requires
                    gp.len() <= u64::MAX,
            ;
            assert forall|j: int| 0 <= j < all_dependencies@.len() implies {
                let data = node(gp, #[trigger] all_dependencies@[j]);
                &&& live(gp, all_dependencies@[j])
                &&& data.dependents_cumulative_tip + tx.tip <= u128::MAX
                &&& data.dependents_cumulative_gas + tx.max_gas <= u128::MAX
                &&& data.dependents_cumulative_bytes_size + tx.metered_bytes_size <= u128::MAX
                &&& data.number_dependents_in_chain + 1 <= usize::MAX
            } by {
                let a = all_dependencies@[j];
                assert(all_dependencies@.contains(a));
                let m = choose|m: int|
                    0 <= m < direct_dependencies@.len() && reaches(
                        gp,
                        a,
                        #[trigger] direct_dependencies@[m],
                    );
                lemma_reaches_live(gp, a, direct_dependencies@[m]);
                lemma_reaches_self(gp, a);
                lemma_subtree_total_bounds(gp, a, a, Measure::Tip);
                lemma_subtree_total_bounds(gp, a, a, Measure::Gas);
                lemma_subtree_total_bounds(gp, a, a, Measure::Bytes);
                lemma_subtree_total_bounds(gp, a, a, Measure::Count);
                lemma_count_below_len(gp, k);
                assert(aggregate(node(gp, a), Measure::Count) == subtree_total(
                    gp,
                    a,
                    Measure::Count,
                ));
                assert(aggregate(node(gp, a), Measure::Tip) == subtree_total(gp, a, Measure::Tip));
                assert(aggregate(node(gp, a), Measure::Gas) == subtree_total(gp, a, Measure::Gas));
                assert(aggregate(node(gp, a), Measure::Bytes) == subtree_total(
                    gp,
                    a,
                    Measure::Bytes,
                ));
                assert(node(g0, a) == node(gp, a));
            }
        }
        self.add_to_ancestors(&all_dependencies, &tx);
        let ghost g1 = self@;
        proof {
            assert forall|j: int| 0 <= j < direct_dependencies@.len() implies live(
                g1,
                #[trigger] direct_dependencies@[j],
            ) by {
                assert(live(gp, direct_dependencies@[j]));
                assert(live(g1, direct_dependencies@[j]) == live(gp, direct_dependencies@[j]));
            }
        }
        self.link_children(&direct_dependencies, k);
        let ghost g2 = self@;
        let data = StorageData {
            dependents_cumulative_tip: tx.tip as u128,
            dependents_cumulative_gas: tx.max_gas as u128,
            dependents_cumulative_bytes_size: tx.metered_bytes_size as u128,
            number_dependents_in_chain: 1,
            transaction: tx,
            creation_instant,
            parents: direct_dependencies,
            children: Vec::new(),
        };
        let ghost new_data = data;
        proof {
            lemma_count_below_len(gp, k);
        }
        self.nodes[k] = Some(data);
        self.count = self.count + 1;
        proof {
            self.ages@ = agesp.update(k as int, self.next_age@);
            self.next_age@ = self.next_age@ + 1;
            assert(self@ == g2.update(k as int, Some(new_data)));
            assert forall|j: int| 0 <= j < new_data.parents@.len() implies chain_length(
                gp,
                agesp,
                #[trigger] new_data.parents@[j],
            ) < max by {
                let q = direct_dependencies@[j];
                assert(direct_dependencies@.contains(q));
                assert(live(g0, q));
                lemma_chain_length_kept(g0, ages0, old(self).next_age@, gp, agesp, q);
            }
            lemma_store_leaf(
                gp,
                g1,
                g2,
                self@,
                k,
                new_data,
                all_dependencies@,
                agesp,
                old(self).next_age@,
                max,
            );
            lemma_leaf_step_unpad(g0, gp, self@, k);
            lemma_records_with_leaf(g0, self@, k);
            assert forall|m: Measure| #[trigger]
                pool_total(self@, m) == pool_total(g0, m) + weight(new_data.transaction, m) by {
                assert(pool_total(self@, m) == pool_total(gp, m) + weight(new_data.transaction, m));
            }
        }
        k
    }

    /// Removes the stored transaction `d`, which has no dependents.
    pub fn remove_leaf(&mut self, d: StorageIndex) -> (data: StorageData)
        requires
            old(self).wf(),
            live(old(self)@, d),
            node(old(self)@, d).children@.len() == 0,
        ensures
            final(self).wf(),
            final(self).config == old(self).config,
            final(self).count == old(self).count - 1,
            final(self).ages == old(self).ages,
            final(self).next_age == old(self).next_age,
            final(self)@.len() == old(self)@.len(),
            leaf_step(final(self)@, old(self)@, d),
            data == node(old(self)@, d),
            forall|m: Measure| #[trigger]
                pool_total(final(self)@, m) == pool_total(old(self)@, m) - weight(
                    data.transaction,
                    m,
                ),
    {
        let ghost g0 = self@;
        let ancestors = match &self.nodes[d] {
            Some(data) => self.collect_ancestors(&data.parents),
            None => Vec::new(),
        };
        let data = self.nodes[d].take().unwrap();
        let ghost ga = self@;
        proof {
            assert(ga == g0.update(d as int, None));
            let parents = data.parents@;
            assert forall|j: int| 0 <= j < ancestors@.len() implies {
                let rec = node(ga, #[trigger] ancestors@[j]);
                &&& live(ga, ancestors@[j])
                &&& rec.dependents_cumulative_tip >= data.transaction.tip
                &&& rec.dependents_cumulative_gas >= data.transaction.max_gas
                &&& rec.dependents_cumulative_bytes_size >= data.transaction.metered_bytes_size
                &&& rec.number_dependents_in_chain >= 1
            } by {
                let a = ancestors@[j];
                assert(ancestors@.contains(a));
                let m = choose|m: int| 0 <= m < parents.len() && reaches(g0, a, #[trigger] parents[m]);
                let p = parents[m];
                lemma_reaches_live(g0, a, p);
                lemma_reaches_ages(g0, self.ages@, self.next_age@, a, p);
                assert(self.ages@[(node(g0, d).parents@[m]) as int] < self.ages@[d as int]);
                assert(a != d);
                assert(has_child(g0, node(g0, d).parents@[m], d));
                lemma_reaches_extend(g0, a, p, d);
                lemma_subtree_total_bounds(g0, a, d, Measure::Tip);
                lemma_subtree_total_bounds(g0, a, d, Measure::Gas);
                lemma_subtree_total_bounds(g0, a, d, Measure::Bytes);
                lemma_subtree_total_bounds(g0, a, d, Measure::Count);
                assert(aggregate(node(g0, a), Measure::Tip) == subtree_total(g0, a, Measure::Tip));
                assert(aggregate(node(g0, a), Measure::Gas) == subtree_total(g0, a, Measure::Gas));
                assert(aggregate(node(g0, a), Measure::Bytes) == subtree_total(
                    g0,
                    a,
                    Measure::Bytes,
                ));
                assert(aggregate(node(g0, a), Measure::Count) == subtree_total(
                    g0,
                    a,
                    Measure::Count,
                ));
            }
        }
        self.subtract_from_ancestors(&ancestors, &data.transaction);
        let ghost gb = self@;
        proof {
            let parents = data.parents@;
            assert forall|j: int| 0 <= j < parents.len() implies live(gb, #[trigger] parents[j])
                && node(gb, parents[j]).children@.no_duplicates() by {
                let p = parents[j];
                assert(has_child(g0, node(g0, d).parents@[j], d));
                if p == d {
                    assert(node(g0, d).children@.contains(d));
                }
                assert(live(ga, p));
                assert(live(gb, p) == live(ga, p));
                assert(node(gb, p).children == node(ga, p).children);
            }
            assert(parents.no_duplicates());
            lemma_pool_total_bounds(g0, Measure::Count);
            assert(weight(node(g0, d).transaction, Measure::Count) <= pool_total(
                g0,
                Measure::Count,
            ));
        }
        self.unlink_children(&data.parents, d);
        self.count = self.count - 1;
        proof {
            lemma_remove_leaf(
                g0,
                ga,
                gb,
                self@,
                d,
                ancestors@,
                self.ages@,
                self.next_age@,
                self.config.max_txs_chain_count,
            );
            lemma_records_without_leaf(self@, g0, d);
        }
        data
    }

    /// Removes the stored transaction `index`, which depends on no stored
    /// transaction, and leaves its dependents in the storage.
    pub fn remove(&mut self, index: StorageIndex) -> (removed: Option<StorageData>)
        requires
            old(self).wf(),
            live(old(self)@, index) ==> node(old(self)@, index).parents@.len() == 0,
        ensures
            final(self).wf(),
            final(self).config == old(self).config,
            final(self).ages == old(self).ages,
            final(self).next_age == old(self).next_age,
            !live(old(self)@, index) ==> removed is None && *final(self) == *old(self),
            live(old(self)@, index) ==> {
                &&& removed == Some(node(old(self)@, index))
                &&& root_step(old(self)@, final(self)@, index)
                &&& final(self).count == old(self).count - 1
                &&& forall|m: Measure| #[trigger]
                    pool_total(final(self)@, m) == pool_total(old(self)@, m) - weight(
                        node(old(self)@, index).transaction,
                        m,
                    )
            },
    {
        if index >= self.nodes.len() {
            return None;
        }
        if self.nodes[index].is_none() {
            return None;
        }
        let ghost g0 = self@;
        let data = self.nodes[index].take().unwrap();
        let ghost ga = self@;
        proof {
            assert(ga == g0.update(index as int, None));
            let children = data.children@;
            assert forall|j: int| 0 <= j < children.len() implies live(ga, #[trigger] children[j])
                && node(ga, children[j]).parents@.no_duplicates() by {
                let c = children[j];
                assert(live(g0, node(g0, index).children@[j]) && node(
                    g0,
                    node(g0, index).children@[j],
                ).parents@.contains(index));
                assert(c != index);
            }
            assert(live(g0, index));
            assert(children.no_duplicates());
            lemma_pool_total_bounds(g0, Measure::Count);
            assert(weight(node(g0, index).transaction, Measure::Count) <= pool_total(
                g0,
                Measure::Count,
            ));
        }
        self.unlink_parents(&data.children, index);
        self.count = self.count - 1;
        proof {
            lemma_remove_root(
                g0,
                ga,
                self@,
                index,
                self.ages@,
                self.next_age@,
                self.config.max_txs_chain_count,
            );
            lemma_records_without_root(g0, self@, index);
        }
        Some(data)
    }

    /// Removes the stored transaction `root` together with all its
    /// dependents, and returns their records.
    pub fn remove_transaction_and_dependents_subtree(&mut self, root: StorageIndex) -> (removed:
        Vec<StorageData>)
        requires
            old(self).wf(),
        ensures
            final(self).wf(),
            final(self).config == old(self).config,
            !live(old(self)@, root) ==> removed@.len() == 0 && *final(self) == *old(self),
            live(old(self)@, root) ==> exists|slots: Seq<StorageIndex>| #[trigger]
                subtree_removed(old(self)@, final(self)@, root, removed@, slots),
            final(self).count == old(self).count - removed@.len(),
            forall|m: Measure| #[trigger]
                pool_total(final(self)@, m) == pool_total(old(self)@, m) - records_total(
                    removed@,
                    m,
                ),
    {
        let mut removed: Vec<StorageData> = Vec::new();
        proof {
            assert forall|m: Measure| #[trigger] records_total(removed@, m) == 0 by {}
        }
        if root >= self.nodes.len() {
            return removed;
        }
        if self.nodes[root].is_none() {
            return removed;
        }
        let ghost g0 = self@;
        let ghost mut slots: Seq<StorageIndex> = Seq::empty();
        let mut stack: Vec<StorageIndex> = Vec::new();
        stack.push(root);
        proof {
            lemma_reaches_self(g0, root);
        }
        while stack.len() > 0
            invariant
                self.wf(),
                self.config == old(self).config,
                self.ages == old(self).ages,
                self.next_age == old(self).next_age,
                live(g0, root),
                without_slots(g0, self@, slots),
                records_of(g0, removed@, slots),
                closed_under_children(g0, slots),
                forall|k: int| 0 <= k < slots.len() ==> reaches(g0, root, #[trigger] slots[k]),
                forall|m: int|
                    0 <= m < stack@.len() ==> live(self@, #[trigger] stack@[m]) && reaches(
                        g0,
                        root,
                        stack@[m],
                    ),
                forall|a: int, b: int|
                    0 <= a < b < stack@.len() ==> self.ages@[stack@[a] as int]
                        < self.ages@[stack@[b] as int],
                forall|m: int|
                    0 <= m < stack@.len() - 1 ==> node(self@, #[trigger] stack@[m]).children@.contains(
                        stack@[m + 1],
                    ),
                stack@.len() > 0 ==> stack@[0] == root,
                stack@.len() == 0 ==> slots.contains(root),
                self.count == old(self).count - removed@.len(),
                forall|m: Measure| #[trigger]
                    pool_total(self@, m) == pool_total(g0, m) - records_total(removed@, m),
            decreases
                    self.count,
                    (if stack@.len() > 0 {
                        self.next_age@ - self.ages@[stack@[stack@.len() - 1] as int]
                    } else {
                        0
                    }),
        {
            let top = stack[stack.len() - 1];
            let ghost h = self@;
            let ghost stack0 = stack@;
            proof {
                assert(live(h, stack0[stack0.len() - 1]));
            }
            let child = match &self.nodes[top] {
                Some(data) => {
                    if data.children.len() > 0 {
                        Some(data.children[0])
                    } else {
                        None
                    }
                },
                None => None,
            };
            match child {
                Some(c) => {
                    stack.push(c);
                    proof {
                        assert(node(h, top).children@[0] == c);
                        assert(node(h, top).children@.contains(c));
                        assert(live(h, node(h, top).children@[0]) && node(
                            h,
                            node(h, top).children@[0],
                        ).parents@.contains(top));
                        let j = choose|j: int|
                            0 <= j < node(h, c).parents@.len() && node(h, c).parents@[j] == top;
                        assert(self.ages@[(node(h, c).parents@[j]) as int] < self.ages@[c as int]);
                        assert(node(g0, top).children@.contains(c));
                        assert(live(g0, c));
                        lemma_reaches_extend(g0, root, top, c);
                        assert forall|m: int| 0 <= m < stack@.len() - 1 implies node(
                            self@,
                            #[trigger] stack@[m],
                        ).children@.contains(stack@[m + 1]) by {
                            if m < stack0.len() - 1 {
                                assert(stack@[m] == stack0[m]);
                                assert(stack@[m + 1] == stack0[m + 1]);
                            }
                        }
                        assert forall|a: int, b: int| 0 <= a < b < stack@.len() implies self.ages@[stack@[a] as int]
                            < self.ages@[stack@[b] as int] by {
                            if b < stack0.len() {
                            } else if a < stack0.len() - 1 {
                                assert(self.ages@[stack0[a] as int] < self.ages@[stack0[stack0.len()
                                    - 1] as int]);
                            }
                        }
                    }
                },
                None => {
                    stack.pop();
                    let ghost slots0 = slots;
                    let ghost removed0 = removed@;
                    let data = self.remove_leaf(top);
                    removed.push(data);
                    proof {
                        slots = slots0.push(top);
                        assert(!slots0.contains(top));
                        assert forall|y: StorageIndex| slots.contains(y) <==> (slots0.contains(y)
                            || y == top) by {
                            lemma_contains_push(slots0, top, y);
                        }
                        assert(slots.no_duplicates()) by {
                            assert forall|a: int, b: int|
                                0 <= a < slots.len() && 0 <= b < slots.len() && a != b implies slots[a]
                                != slots[b] by {
                                if a < slots0.len() {
                                    assert(slots0.contains(slots0[a]));
                                }
                                if b < slots0.len() {
                                    assert(slots0.contains(slots0[b]));
                                }
                            }
                        }
                        assert(records_of(g0, removed@, slots)) by {
                            assert forall|k: int| 0 <= k < slots.len() implies {
                                &&& live(g0, #[trigger] slots[k])
                                &&& removed@[k].transaction == node(g0, slots[k]).transaction
                                &&& removed@[k].creation_instant == node(
                                    g0,
                                    slots[k],
                                ).creation_instant
                            } by {
                                if k < slots0.len() {
                                    assert(slots[k] == slots0[k]);
                                    assert(removed@[k] == removed0[k]);
                                }
                            }
                        }
                        assert(without_slots(g0, self@, slots)) by {
                            assert forall|i: StorageIndex| #[trigger]
                                live(self@, i) <==> (live(g0, i) && !slots.contains(i)) by {
                                if i != top {
                                    assert(live(self@, i) == live(h, i));
                                }
                            }
                            assert forall|i: StorageIndex| #[trigger] live(self@, i) implies {
                                &&& node(self@, i).transaction == node(g0, i).transaction
                                &&& node(self@, i).creation_instant == node(g0, i).creation_instant
                                &&& node(self@, i).parents@ == node(g0, i).parents@
                                &&& forall|c: StorageIndex|
                                    node(self@, i).children@.contains(c) <==> (node(
                                        g0,
                                        i,
                                    ).children@.contains(c) && !slots.contains(c))
                            } by {
                                assert(i != top);
                                assert(live(h, i));
                                assert forall|c: StorageIndex|
                                    node(self@, i).children@.contains(c) <==> (node(
                                        g0,
                                        i,
                                    ).children@.contains(c) && !slots.contains(c)) by {
                                    if c != top {
                                        assert(node(self@, i).children@.contains(c) <==> node(
                                            h,
                                            i,
                                        ).children@.contains(c));
                                    }
                                }
                            }
                        }
                        assert(closed_under_children(g0, slots)) by {
                            assert forall|x: StorageIndex, c: StorageIndex|
                                slots.contains(x) && live(g0, x) && #[trigger] node(
                                    g0,
                                    x,
                                ).children@.contains(c) implies slots.contains(c) by {
                                if x == top {
                                    if !slots0.contains(c) {
                                        assert(node(h, top).children@.contains(c));
                                    }
                                }
                            }
                        }
                        assert forall|k: int| 0 <= k < slots.len() implies reaches(
                            g0,
                            root,
                            #[trigger] slots[k],
                        ) by {
                            if k < slots0.len() {
                                assert(slots[k] == slots0[k]);
                            }
                        }
                        assert forall|m: int| 0 <= m < stack@.len() implies live(
                            self@,
                            #[trigger] stack@[m],
                        ) && reaches(g0, root, stack@[m]) by {
                            assert(stack@[m] == stack0[m]);
                            assert(self.ages@[stack0[m] as int] < self.ages@[stack0[stack0.len()
                                - 1] as int]);
                            assert(live(h, stack0[m]));
                        }
                        assert forall|m: int| 0 <= m < stack@.len() - 1 implies node(
                            self@,
                            #[trigger] stack@[m],
                        ).children@.contains(stack@[m + 1]) by {
                            assert(stack@[m] == stack0[m]);
                            assert(stack@[m + 1] == stack0[m + 1]);
                            assert(self.ages@[stack0[m + 1] as int] < self.ages@[stack0[stack0.len()
                                - 1] as int]);
                            assert(self.ages@[stack0[m] as int] < self.ages@[stack0[stack0.len()
                                - 1] as int]);
                            assert(live(h, stack0[m]));
                            assert(node(h, stack0[m]).children@.contains(stack0[m + 1]));
                        }
                        assert forall|m: Measure| #[trigger]
                            pool_total(self@, m) == pool_total(g0, m) - records_total(
                                removed@,
                                m,
                            ) by {
                            assert(removed@.drop_last() == removed0);
                            assert(pool_total(h, m) == pool_total(g0, m) - records_total(
                                removed0,
                                m,
                            ));
                            assert(pool_total(self@, m) == pool_total(h, m) - weight(
                                data.transaction,
                                m,
                            ));
                        }
                        if stack@.len() > 0 {
                            assert(stack@[0] == stack0[0]);
                        }
                    }
                },
            }
        }
        proof {
            assert forall|i: StorageIndex| slots.contains(i) <==> reaches(g0, root, i) by {
                if slots.contains(i) {
                    let k = choose|k: int| 0 <= k < slots.len() && slots[k] == i;
                    assert(reaches(g0, root, slots[k]));
                }
                if reaches(g0, root, i) {
                    lemma_closed_holds_subtree(g0, slots, root, i);
                }
            }
            assert(subtree_removed(g0, self@, root, removed@, slots));
        }
        removed
    }

    /// A free slot, appended to the arena when every slot is taken.
    fn free_slot(&mut self) -> (k: StorageIndex)
        requires
            old(self).wf(),
        ensures
            final(self).wf(),
            (k as int) < final(self)@.len(),
            final(self)@[k as int] is None,
            (final(self)@ == old(self)@ && final(self).ages@ == old(self).ages@) || (final(self)@
                == old(self)@.push(None) && k == old(self)@.len() && final(self).ages@ == old(
                self,
            ).ages@.push(0)),
            final(self).config == old(self).config,
            final(self).count == old(self).count,
            final(self).next_age == old(self).next_age,
    {
        let mut i: usize = 0;
        while i < self.nodes.len()
            invariant
                0 <= i <= self.nodes@.len(),
                *self == *old(self),
                self.wf(),
            decreases self.nodes@.len() - i,
        {
            if self.nodes[i].is_none() {
                return i;
            }
            i += 1;
        }
        let ghost g = self@;
        self.nodes.push(None);
        let n = self.nodes.len();
        proof {
            self.ages@ = self.ages@.push(0);
            lemma_push_free_slot_wf(
                g,
                self@,
                old(self).ages@,
                self.ages@,
                self.next_age@,
                self.config.max_txs_chain_count,
            );
        }
        i
    }
}

} // verus!
