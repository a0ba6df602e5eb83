//! The three steps by which the graph changes (a leaf joins, a leaf leaves,
//! a root leaves), each shown to keep the graph's invariant.

use vstd::prelude::*;
use crate::storage::chains::{
    chain_length, chains_wf, lemma_chain_length_kept, lemma_chain_length_without_root,
    lemma_longest_above, longest_above,
};
use crate::storage::reach::{
    leaf_extension, lemma_leaf_pool_total, lemma_leaf_reaches_others, lemma_leaf_subtree_total,
    lemma_root_pool_total, lemma_root_subtree_total, root_removal,
};
use crate::storage::{
    above, ages_wf, aggregate, aggregates_wf, has_child, links_wf, live, node, pool_total, reaches,
    subtree_total, weight, Measure, Nodes, StorageData,
};
use crate::types::{PoolTx, StorageIndex};

verus! {

/// No two stored transactions have the same id, and each may use some gas.
pub open spec fn records_wf(g: Nodes) -> bool {
    &&& forall|i: StorageIndex| #[trigger] live(g, i) ==> node(g, i).transaction.max_gas > 0
    &&& forall|i: StorageIndex, j: StorageIndex|
        #![trigger live(g, i), live(g, j)]
        live(g, i) && live(g, j) && node(g, i).transaction.id == node(g, j).transaction.id ==> i
            == j
}

/// A stored transaction has the given id.
pub open spec fn contains_id(g: Nodes, id: crate::types::TxId) -> bool {
    exists|i: StorageIndex| #[trigger] live(g, i) && node(g, i).transaction.id == id
}

/// What the arrival (or the departure) of `tx` adds to a sum that counts it.
pub open spec fn shift(tx: PoolTx, add: bool, m: Measure) -> int {
    if add {
        weight(tx, m)
    } else {
        -weight(tx, m)
    }
}

/// `g` and `h` have the same slots taken.
pub open spec fn same_slots(g: Nodes, h: Nodes) -> bool {
    &&& h.len() == g.len()
    &&& forall|i: StorageIndex| #[trigger] live(h, i) == live(g, i)
}

/// `h` is `g` with the sums of the records listed in `done` shifted by the
/// weight of `tx`.
pub open spec fn aggregates_shifted(
    g: Nodes,
    h: Nodes,
    done: Seq<StorageIndex>,
    tx: PoolTx,
    add: bool,
) -> bool {
    &&& same_slots(g, h)
    &&& forall|i: StorageIndex| #[trigger]
        live(g, i) ==> {
            &&& node(h, i).transaction == node(g, i).transaction
            &&& node(h, i).creation_instant == node(g, i).creation_instant
            &&& node(h, i).parents == node(g, i).parents
            &&& node(h, i).children == node(g, i).children
            &&& forall|m: Measure| #[trigger]
                aggregate(node(h, i), m) == aggregate(node(g, i), m) + (if done.contains(i) {
                    shift(tx, add, m)
                } else {
                    0
                })
        }
}

/// `h` is `g` with `k` added to (or taken from) the children of the records
/// listed in `done`.
pub open spec fn children_changed(
    g: Nodes,
    h: Nodes,
    done: Seq<StorageIndex>,
    k: StorageIndex,
    add: bool,
) -> bool {
    &&& same_slots(g, h)
    &&& forall|i: StorageIndex| #[trigger]
        live(g, i) ==> {
            &&& node(h, i).transaction == node(g, i).transaction
            &&& node(h, i).creation_instant == node(g, i).creation_instant
            &&& node(h, i).parents == node(g, i).parents
            &&& forall|m: Measure| #[trigger]
                aggregate(node(h, i), m) == aggregate(node(g, i), m)
            &&& !done.contains(i) ==> node(h, i).children == node(g, i).children
            &&& done.contains(i) && add ==> node(h, i).children@ == node(g, i).children@.push(k)
            &&& done.contains(i) && !add ==> {
                &&& node(h, i).children@.no_duplicates()
                &&& forall|c: StorageIndex|
                    node(h, i).children@.contains(c) <==> (node(g, i).children@.contains(c) && c
                        != k)
            }
        }
}

/// `h` is `g` with `r` taken from the parents of the records listed in
/// `done`.
pub open spec fn parents_changed(
    g: Nodes,
    h: Nodes,
    done: Seq<StorageIndex>,
    r: StorageIndex,
) -> bool {
    &&& same_slots(g, h)
    &&& forall|i: StorageIndex| #[trigger]
        live(g, i) ==> {
            &&& node(h, i).transaction == node(g, i).transaction
            &&& node(h, i).creation_instant == node(g, i).creation_instant
            &&& node(h, i).children == node(g, i).children
            &&& forall|m: Measure| #[trigger]
                aggregate(node(h, i), m) == aggregate(node(g, i), m)
            &&& !done.contains(i) ==> node(h, i).parents == node(g, i).parents
            &&& done.contains(i) ==> {
                &&& node(h, i).parents@.no_duplicates()
                &&& forall|p: StorageIndex|
                    node(h, i).parents@.contains(p) <==> (node(g, i).parents@.contains(p) && p
                        != r)
            }
        }
}

/// `h` is `g` with the leaf `k` added, and the other records keep their
/// transaction, their instant and their parents.
pub open spec fn leaf_step(g: Nodes, h: Nodes, k: StorageIndex) -> bool {
    &&& leaf_extension(g, h, k)
    &&& forall|i: StorageIndex|
        i != k && #[trigger] live(g, i) ==> node(h, i).parents@ == node(g, i).parents@ && node(
            h,
            i,
        ).creation_instant == node(g, i).creation_instant
}

/// `h` is `g` without the root `r`, and the other records keep their
/// transaction, their instant, their sums and their children, and lose `r`
/// as a parent.
pub open spec fn root_step(g: Nodes, h: Nodes, r: StorageIndex) -> bool {
    &&& root_removal(g, h, r)
    &&& forall|i: StorageIndex|
        i != r && #[trigger] live(g, i) ==> {
            &&& node(h, i).creation_instant == node(g, i).creation_instant
            &&& forall|m: Measure| #[trigger]
                aggregate(node(h, i), m) == aggregate(node(g, i), m)
            &&& forall|p: StorageIndex|
                #![trigger node(h, i).parents@.contains(p)]
                #![trigger node(g, i).parents@.contains(p)]
                node(h, i).parents@.contains(p) <==> (node(g, i).parents@.contains(p) && p != r)
        }
}

proof fn lemma_push_no_duplicates(s: Seq<StorageIndex>, x: StorageIndex)
    requires
        s.no_duplicates(),
        !s.contains(x),
    ensures
        s.push(x).no_duplicates(),
        forall|y: StorageIndex| s.push(x).contains(y) <==> (s.contains(y) || y == x),
{
    let t = s.push(x);
    assert forall|a: int, b: int| 0 <= a < t.len() && 0 <= b < t.len() && a != b implies t[a]
        != t[b] by {
        if a < s.len() {
            assert(s.contains(s[a]));
        }
        if b < s.len() {
            assert(s.contains(s[b]));
        }
    }
    assert forall|y: StorageIndex| t.contains(y) <==> (s.contains(y) || y == x) by {
        if t.contains(y) {
            let j = choose|j: int| 0 <= j < t.len() && t[j] == y;
            if j < s.len() {
                assert(s[j] == y);
            }
        }
        if s.contains(y) {
            let j = choose|j: int| 0 <= j < s.len() && s[j] == y;
            assert(t[j] == y);
        }
        if y == x {
            assert(t[s.len() as int] == y);
        }
    }
}

/// A new leaf with a fresh id and some gas keeps the ids distinct.
pub proof fn lemma_records_with_leaf(g: Nodes, h: Nodes, k: StorageIndex)
    requires
        leaf_step(g, h, k),
        records_wf(g),
        node(h, k).transaction.max_gas > 0,
        !contains_id(g, node(h, k).transaction.id),
    ensures
        records_wf(h),
{
    assert forall|i: StorageIndex| #[trigger] live(h, i) implies node(h, i).transaction.max_gas
        > 0 by {
        if i != k {
            assert(live(g, i));
        }
    }
    assert forall|i: StorageIndex, j: StorageIndex|
        #![trigger live(h, i), live(h, j)]
        live(h, i) && live(h, j) && node(h, i).transaction.id == node(h, j).transaction.id implies i
        == j by {
        if i != k {
            assert(live(g, i));
        }
        if j != k {
            assert(live(g, j));
        }
    }
}

/// Without one of its leaves, a graph still has distinct ids.
pub proof fn lemma_records_without_leaf(g: Nodes, h: Nodes, k: StorageIndex)
    requires
        leaf_step(g, h, k),
        records_wf(h),
    ensures
        records_wf(g),
{
    assert forall|i: StorageIndex| #[trigger] live(g, i) implies node(g, i).transaction.max_gas
        > 0 by {
        assert(live(h, i));
    }
    assert forall|i: StorageIndex, j: StorageIndex|
        #![trigger live(g, i), live(g, j)]
        live(g, i) && live(g, j) && node(g, i).transaction.id == node(g, j).transaction.id implies i
        == j by {
        assert(live(h, i));
        assert(live(h, j));
    }
}

/// Without one of its roots, a graph still has distinct ids.
pub proof fn lemma_records_without_root(g: Nodes, h: Nodes, r: StorageIndex)
    requires
        root_step(g, h, r),
        records_wf(g),
    ensures
        records_wf(h),
{
    assert forall|i: StorageIndex| #[trigger] live(h, i) implies node(h, i).transaction.max_gas
        > 0 by {
        assert(live(g, i));
    }
    assert forall|i: StorageIndex, j: StorageIndex|
        #![trigger live(h, i), live(h, j)]
        live(h, i) && live(h, j) && node(h, i).transaction.id == node(h, j).transaction.id implies i
        == j by {
        assert(live(g, i));
        assert(live(g, j));
    }
}

/// Storing a leaf keeps the invariant of the graph.
pub proof fn lemma_store_leaf(
    gp: Nodes,
    g1: Nodes,
    g2: Nodes,
    h: Nodes,
    k: StorageIndex,
    data: StorageData,
    ancestors: Seq<StorageIndex>,
    ages: Seq<nat>,
    next_age: nat,
    max: usize,
)
    requires
        gp.len() <= usize::MAX,
        links_wf(gp),
        aggregates_wf(gp),
        ages_wf(gp, ages, next_age),
        chains_wf(gp, ages, max),
        (k as int) < gp.len(),
        !live(gp, k),
        data.parents@.no_duplicates(),
        forall|j: int| 0 <= j < data.parents@.len() ==> live(gp, #[trigger] data.parents@[j]),
        forall|a: StorageIndex| ancestors.contains(a) <==> above(gp, data.parents@, a),
        forall|j: int|
            0 <= j < data.parents@.len() ==> chain_length(gp, ages, #[trigger] data.parents@[j])
                < max,
        max >= 1,
        data.children@.len() == 0,
        forall|m: Measure| #[trigger] aggregate(data, m) == weight(data.transaction, m),
        aggregates_shifted(gp, g1, ancestors, data.transaction, true),
        children_changed(g1, g2, data.parents@, k, true),
        h == g2.update(k as int, Some(data)),
    ensures
        leaf_step(gp, h, k),
        node(h, k) == data,
        links_wf(h),
        aggregates_wf(h),
        ages_wf(h, ages.update(k as int, next_age), next_age + 1),
        chains_wf(h, ages.update(k as int, next_age), max),
        forall|m: Measure| #[trigger]
            pool_total(h, m) == pool_total(gp, m) + weight(data.transaction, m),
{
    let parents = data.parents@;
    assert forall|i: StorageIndex| i != k implies #[trigger] live(gp, i) == live(h, i) by {
        assert(live(g1, i) == live(gp, i));
        assert(live(g2, i) == live(g1, i));
    }
    assert forall|i: StorageIndex| i != k && #[trigger] live(gp, i) implies {
        &&& node(h, i) == node(g2, i)
        &&& live(g1, i)
        &&& node(h, i).transaction == node(gp, i).transaction
        &&& node(h, i).creation_instant == node(gp, i).creation_instant
        &&& node(h, i).parents@ == node(gp, i).parents@
        &&& !node(gp, i).children@.contains(k)
        &&& node(gp, i).children@.no_duplicates()
        &&& parents.contains(i) ==> node(h, i).children@ == node(gp, i).children@.push(k)
        &&& !parents.contains(i) ==> node(h, i).children@ == node(gp, i).children@
    } by {
        assert(live(g1, i) == live(gp, i));
        if node(gp, i).children@.contains(k) {
            let j = choose|j: int|
                0 <= j < node(gp, i).children@.len() && node(gp, i).children@[j] == k;
            assert(live(gp, node(gp, i).children@[j]));
        }
    }
    assert forall|i: StorageIndex, c: StorageIndex|
        i != k && c != k && live(gp, i) implies (node(gp, i).children@.contains(c) <==> node(
        h,
        i,
    ).children@.contains(c)) by {
        if parents.contains(i) {
            lemma_push_no_duplicates(node(gp, i).children@, k);
        }
    }
    assert forall|i: StorageIndex| i != k && #[trigger] live(h, i) implies (node(
        h,
        i,
    ).children@.contains(k) <==> node(h, k).parents@.contains(i)) by {
        assert(live(gp, i));
        if parents.contains(i) {
            lemma_push_no_duplicates(node(gp, i).children@, k);
        }
    }
    assert(leaf_extension(gp, h, k));
    assert(leaf_step(gp, h, k));
    // links
    assert forall|i: StorageIndex| #[trigger] live(h, i) implies {
        &&& node(h, i).parents@.no_duplicates()
        &&& node(h, i).children@.no_duplicates()
        &&& forall|j: int|
            0 <= j < node(h, i).parents@.len() ==> has_child(h, #[trigger] node(h, i).parents@[j], i)
        &&& forall|j: int|
            0 <= j < node(h, i).children@.len() ==> live(h, #[trigger] node(h, i).children@[j])
                && node(h, node(h, i).children@[j]).parents@.contains(i)
    } by {
        if i == k {
            assert forall|j: int| 0 <= j < node(h, i).parents@.len() implies has_child(
                h,
                #[trigger] node(h, i).parents@[j],
                i,
            ) by {
                let p = parents[j];
                assert(live(gp, p));
                assert(parents.contains(p));
                lemma_push_no_duplicates(node(gp, p).children@, k);
            }
        } else {
            assert(live(gp, i));
            if parents.contains(i) {
                lemma_push_no_duplicates(node(gp, i).children@, k);
            }
            assert forall|j: int| 0 <= j < node(h, i).parents@.len() implies has_child(
                h,
                #[trigger] node(h, i).parents@[j],
                i,
            ) by {
                let p = node(gp, i).parents@[j];
                assert(has_child(gp, p, i));
                assert(live(gp, p));
                assert(node(gp, p).children@.contains(i) <==> node(h, p).children@.contains(i));
            }
            assert forall|j: int| 0 <= j < node(h, i).children@.len() implies live(
                h,
                #[trigger] node(h, i).children@[j],
            ) && node(h, node(h, i).children@[j]).parents@.contains(i) by {
                let c = node(h, i).children@[j];
                assert(node(h, i).children@.contains(c));
                if c != k {
                    assert(node(gp, i).children@.contains(c));
                    let j2 = choose|j2: int|
                        0 <= j2 < node(gp, i).children@.len() && node(gp, i).children@[j2] == c;
                    assert(live(gp, node(gp, i).children@[j2]));
                    assert(live(gp, c));
                }
            }
        }
    }
    // sums
    assert forall|a: StorageIndex, m: Measure| live(h, a) implies aggregate(node(h, a), m)
        == #[trigger] subtree_total(h, a, m) by {
        lemma_leaf_subtree_total(gp, h, k, a, m);
        if a != k {
            assert(live(gp, a));
            assert(aggregate(node(g2, a), m) == aggregate(node(g1, a), m));
            assert(aggregate(node(g1, a), m) == aggregate(node(gp, a), m) + (if ancestors.contains(
                a,
            ) {
                shift(data.transaction, true, m)
            } else {
                0
            }));
            assert(aggregate(node(gp, a), m) == subtree_total(gp, a, m));
        }
    }
    // ages
    let ages2 = ages.update(k as int, next_age);
    assert forall|i: StorageIndex| #[trigger] live(h, i) implies ages2[i as int] < next_age
        + 1 by {
        if i != k {
            assert(live(gp, i));
        }
    }
    assert forall|i: StorageIndex, j: int|
        live(h, i) && 0 <= j < node(h, i).parents@.len() implies ages2[(#[trigger] node(
            h,
            i,
        ).parents@[j]) as int] < ages2[i as int] by {
        if i == k {
            assert(live(gp, parents[j]));
        } else {
            assert(live(gp, i));
            assert(has_child(gp, node(gp, i).parents@[j], i));
        }
    }
    // chains
    assert forall|i: StorageIndex| #[trigger] live(h, i) implies chain_length(h, ages2, i)
        <= max by {
        if i == k {
            let n = node(h, k).parents@.len();
            lemma_longest_above(h, ages2, next_age + 1, k, n);
            if n > 0 {
                let m = choose|m: int|
                    0 <= m < n && longest_above(h, ages2, k, n) == chain_length(
                        h,
                        ages2,
                        #[trigger] node(h, k).parents@[m],
                    );
                let q = parents[m];
                assert(live(gp, q));
                lemma_chain_length_kept(gp, ages, next_age, h, ages2, q);
            }
        } else {
            assert(live(gp, i));
            lemma_chain_length_kept(gp, ages, next_age, h, ages2, i);
        }
    }
    assert forall|m: Measure| #[trigger]
        pool_total(h, m) == pool_total(gp, m) + weight(data.transaction, m) by {
        lemma_leaf_pool_total(gp, h, k, m);
    }
}

/// Removing a leaf keeps the invariant of the graph.
pub proof fn lemma_remove_leaf(
    g0: Nodes,
    ga: Nodes,
    gb: Nodes,
    h: Nodes,
    d: StorageIndex,
    ancestors: Seq<StorageIndex>,
    ages: Seq<nat>,
    next_age: nat,
    max: usize,
)
    requires
        g0.len() <= usize::MAX,
        links_wf(g0),
        aggregates_wf(g0),
        ages_wf(g0, ages, next_age),
        chains_wf(g0, ages, max),
        live(g0, d),
        node(g0, d).children@.len() == 0,
        forall|a: StorageIndex| ancestors.contains(a) <==> above(g0, node(g0, d).parents@, a),
        ga == g0.update(d as int, None),
        aggregates_shifted(ga, gb, ancestors, node(g0, d).transaction, false),
        children_changed(gb, h, node(g0, d).parents@, d, false),
    ensures
        leaf_step(h, g0, d),
        links_wf(h),
        aggregates_wf(h),
        ages_wf(h, ages, next_age),
        chains_wf(h, ages, max),
        forall|m: Measure| #[trigger]
            pool_total(h, m) == pool_total(g0, m) - weight(node(g0, d).transaction, m),
{
    let data = node(g0, d);
    let parents = data.parents@;
    assert forall|i: StorageIndex| i != d implies #[trigger] live(h, i) == live(g0, i) by {
        assert(live(gb, i) == live(ga, i));
        assert(live(h, i) == live(gb, i));
    }
    assert(!live(h, d)) by {
        assert(live(gb, d) == live(ga, d));
        assert(live(h, d) == live(gb, d));
    }
    assert forall|j: int| 0 <= j < parents.len() implies #[trigger] parents[j] != d && live(
        h,
        parents[j],
    ) by {
        assert(has_child(g0, node(g0, d).parents@[j], d));
        if parents[j] == d {
            assert(node(g0, d).children@.contains(d));
        }
    }
    assert forall|i: StorageIndex| i != d && #[trigger] live(h, i) implies {
        &&& live(g0, i)
        &&& live(ga, i)
        &&& live(gb, i)
        &&& node(ga, i) == node(g0, i)
        &&& node(h, i).transaction == node(g0, i).transaction
        &&& node(h, i).creation_instant == node(g0, i).creation_instant
        &&& node(h, i).parents@ == node(g0, i).parents@
        &&& node(h, i).children@.no_duplicates()
        &&& forall|c: StorageIndex|
            node(h, i).children@.contains(c) <==> (node(g0, i).children@.contains(c) && c != d)
        &&& node(g0, i).children@.contains(d) <==> parents.contains(i)
    } by {
        assert(live(gb, i) == live(ga, i));
        assert(live(h, i) == live(gb, i));
        if node(g0, i).children@.contains(d) {
            let j = choose|j: int|
                0 <= j < node(g0, i).children@.len() && node(g0, i).children@[j] == d;
            assert(live(g0, node(g0, i).children@[j]) && node(
                g0,
                node(g0, i).children@[j],
            ).parents@.contains(i));
        }
        if parents.contains(i) {
            let j = choose|j: int| 0 <= j < parents.len() && parents[j] == i;
            assert(has_child(g0, node(g0, d).parents@[j], d));
        }
    }
    assert(leaf_extension(h, g0, d)) by {
        assert forall|i: StorageIndex| #[trigger] live(h, i) implies !node(h, i).children@.contains(
            d,
        ) by {}
        assert forall|m: int| 0 <= m < node(g0, d).parents@.len() implies live(
            h,
            #[trigger] node(g0, d).parents@[m],
        ) by {
            assert(parents[m] != d && live(h, parents[m]));
        }
    }
    assert(leaf_step(h, g0, d));
    // links
    assert forall|i: StorageIndex| #[trigger] live(h, i) implies {
        &&& node(h, i).parents@.no_duplicates()
        &&& node(h, i).children@.no_duplicates()
        &&& forall|j: int|
            0 <= j < node(h, i).parents@.len() ==> has_child(h, #[trigger] node(h, i).parents@[j], i)
        &&& forall|j: int|
            0 <= j < node(h, i).children@.len() ==> live(h, #[trigger] node(h, i).children@[j])
                && node(h, node(h, i).children@[j]).parents@.contains(i)
    } by {
        assert(i != d);
        assert(live(g0, i));
        assert forall|j: int| 0 <= j < node(h, i).parents@.len() implies has_child(
            h,
            #[trigger] node(h, i).parents@[j],
            i,
        ) by {
            let p = node(g0, i).parents@[j];
            assert(has_child(g0, p, i));
            if p == d {
                assert(node(g0, d).children@.contains(i));
            }
            assert(live(h, p));
        }
        assert forall|j: int| 0 <= j < node(h, i).children@.len() implies live(
            h,
            #[trigger] node(h, i).children@[j],
        ) && node(h, node(h, i).children@[j]).parents@.contains(i) by {
            let c = node(h, i).children@[j];
            assert(node(h, i).children@.contains(c));
            assert(node(g0, i).children@.contains(c) && c != d);
            let j2 = choose|j2: int|
                0 <= j2 < node(g0, i).children@.len() && node(g0, i).children@[j2] == c;
            assert(live(g0, node(g0, i).children@[j2]) && node(
                g0,
                node(g0, i).children@[j2],
            ).parents@.contains(i));
            assert(live(h, c));
        }
    }
    // sums
    assert forall|a: StorageIndex, m: Measure| live(h, a) implies aggregate(node(h, a), m)
        == #[trigger] subtree_total(h, a, m) by {
        assert(a != d);
        assert(live(g0, a));
        lemma_leaf_subtree_total(h, g0, d, a, m);
        assert(above(h, parents, a) <==> above(g0, parents, a)) by {
            if above(h, parents, a) {
                let j = choose|j: int| 0 <= j < parents.len() && reaches(h, a, #[trigger] parents[j]);
                assert(parents[j] != d && live(h, parents[j]));
                lemma_leaf_reaches_others(h, g0, d, a, parents[j]);
            }
            if above(g0, parents, a) {
                let j = choose|j: int|
                    0 <= j < parents.len() && reaches(g0, a, #[trigger] parents[j]);
                assert(parents[j] != d && live(h, parents[j]));
                lemma_leaf_reaches_others(h, g0, d, a, parents[j]);
            }
        }
        assert(aggregate(node(h, a), m) == aggregate(node(gb, a), m));
        assert(aggregate(node(gb, a), m) == aggregate(node(ga, a), m) + (if ancestors.contains(a) {
            shift(data.transaction, false, m)
        } else {
            0
        }));
        assert(aggregate(node(g0, a), m) == subtree_total(g0, a, m));
    }
    // ages
    assert forall|i: StorageIndex| #[trigger] live(h, i) implies ages[i as int] < next_age by {
        assert(live(g0, i));
    }
    assert forall|i: StorageIndex, j: int|
        live(h, i) && 0 <= j < node(h, i).parents@.len() implies ages[(#[trigger] node(
            h,
            i,
        ).parents@[j]) as int] < ages[i as int] by {
        assert(live(g0, i));
        assert(has_child(g0, node(g0, i).parents@[j], i));
    }
    // chains
    assert forall|i: StorageIndex| #[trigger] live(h, i) implies chain_length(h, ages, i)
        <= max by {
        assert(live(g0, i));
        lemma_chain_length_kept(h, ages, next_age, g0, ages, i);
    }
    assert forall|m: Measure| #[trigger]
        pool_total(h, m) == pool_total(g0, m) - weight(node(g0, d).transaction, m) by {
        lemma_leaf_pool_total(h, g0, d, m);
    }
}

/// Removing a root keeps the invariant of the graph.
pub proof fn lemma_remove_root(
    g0: Nodes,
    ga: Nodes,
    h: Nodes,
    r: StorageIndex,
    ages: Seq<nat>,
    next_age: nat,
    max: usize,
)
    requires
        g0.len() <= usize::MAX,
        links_wf(g0),
        aggregates_wf(g0),
        ages_wf(g0, ages, next_age),
        chains_wf(g0, ages, max),
        live(g0, r),
        node(g0, r).parents@.len() == 0,
        ga == g0.update(r as int, None),
        parents_changed(ga, h, node(g0, r).children@, r),
    ensures
        root_step(g0, h, r),
        links_wf(h),
        aggregates_wf(h),
        ages_wf(h, ages, next_age),
        chains_wf(h, ages, max),
        forall|m: Measure| #[trigger]
            pool_total(h, m) == pool_total(g0, m) - weight(node(g0, r).transaction, m),
{
    let children = node(g0, r).children@;
    assert forall|i: StorageIndex| i != r implies #[trigger] live(h, i) == live(g0, i) by {
        assert(live(h, i) == live(ga, i));
    }
    assert(!live(h, r)) by {
        assert(live(h, r) == live(ga, r));
    }
    assert forall|i: StorageIndex| #[trigger] live(g0, i) implies !node(g0, i).children@.contains(
        r,
    ) by {
        if node(g0, i).children@.contains(r) {
            let j = choose|j: int|
                0 <= j < node(g0, i).children@.len() && node(g0, i).children@[j] == r;
            assert(live(g0, node(g0, i).children@[j]) && node(
                g0,
                node(g0, i).children@[j],
            ).parents@.contains(i));
        }
    }
    assert forall|i: StorageIndex| i != r && #[trigger] live(g0, i) implies {
        &&& live(ga, i)
        &&& live(h, i)
        &&& node(ga, i) == node(g0, i)
        &&& node(h, i).transaction == node(g0, i).transaction
        &&& node(h, i).creation_instant == node(g0, i).creation_instant
        &&& node(h, i).children@ == node(g0, i).children@
        &&& node(h, i).parents@.no_duplicates()
        &&& forall|m: Measure| #[trigger] aggregate(node(h, i), m) == aggregate(node(g0, i), m)
        &&& forall|p: StorageIndex|
            node(h, i).parents@.contains(p) <==> (node(g0, i).parents@.contains(p) && p != r)
    } by {
        assert(live(h, i) == live(ga, i));
        if !children.contains(i) {
            if node(g0, i).parents@.contains(r) {
                let j = choose|j: int|
                    0 <= j < node(g0, i).parents@.len() && node(g0, i).parents@[j] == r;
                assert(has_child(g0, node(g0, i).parents@[j], i));
            }
        }
    }
    assert(root_removal(g0, h, r));
    assert(root_step(g0, h, r));
    assert forall|i: StorageIndex| #[trigger] live(h, i) implies {
        &&& node(h, i).parents@.no_duplicates()
        &&& node(h, i).children@.no_duplicates()
        &&& forall|j: int|
            0 <= j < node(h, i).parents@.len() ==> has_child(h, #[trigger] node(h, i).parents@[j], i)
        &&& forall|j: int|
            0 <= j < node(h, i).children@.len() ==> live(h, #[trigger] node(h, i).children@[j])
                && node(h, node(h, i).children@[j]).parents@.contains(i)
    } by {
        assert(i != r);
        assert(live(g0, i));
        assert forall|j: int| 0 <= j < node(h, i).parents@.len() implies has_child(
            h,
            #[trigger] node(h, i).parents@[j],
            i,
        ) by {
            let p = node(h, i).parents@[j];
            assert(node(h, i).parents@.contains(p));
            assert(node(g0, i).parents@.contains(p) && p != r);
            let j2 = choose|j2: int|
                0 <= j2 < node(g0, i).parents@.len() && node(g0, i).parents@[j2] == p;
            assert(has_child(g0, node(g0, i).parents@[j2], i));
            assert(live(g0, p));
        }
        assert forall|j: int| 0 <= j < node(h, i).children@.len() implies live(
            h,
            #[trigger] node(h, i).children@[j],
        ) && node(h, node(h, i).children@[j]).parents@.contains(i) by {
            let c = node(g0, i).children@[j];
            assert(node(g0, i).children@.contains(c));
            assert(live(g0, c) && node(g0, c).parents@.contains(i));
            assert(c != r);
        }
    }
    assert forall|a: StorageIndex, m: Measure| live(h, a) implies aggregate(node(h, a), m)
        == #[trigger] subtree_total(h, a, m) by {
        assert(a != r);
        assert(live(g0, a));
        lemma_root_subtree_total(g0, h, r, a, m);
        assert(aggregate(node(h, a), m) == aggregate(node(g0, a), m));
        assert(aggregate(node(g0, a), m) == subtree_total(g0, a, m));
    }
    assert forall|i: StorageIndex| #[trigger] live(h, i) implies ages[i as int] < next_age by {
        assert(live(g0, i));
    }
    assert forall|i: StorageIndex, j: int|
        live(h, i) && 0 <= j < node(h, i).parents@.len() implies ages[(#[trigger] node(
            h,
            i,
        ).parents@[j]) as int] < ages[i as int] by {
        assert(live(g0, i));
        let p = node(h, i).parents@[j];
        assert(node(h, i).parents@.contains(p));
        assert(node(g0, i).parents@.contains(p));
        let j2 = choose|j2: int|
            0 <= j2 < node(g0, i).parents@.len() && node(g0, i).parents@[j2] == p;
        assert(ages[(node(g0, i).parents@[j2]) as int] < ages[i as int]);
    }
    assert(links_wf(h));
    assert(ages_wf(h, ages, next_age));
    assert forall|i: StorageIndex| #[trigger] live(h, i) implies chain_length(h, ages, i)
        <= max by {
        assert(live(g0, i));
        lemma_chain_length_without_root(g0, ages, next_age, h, r, i);
    }
    assert forall|m: Measure| #[trigger]
        pool_total(h, m) == pool_total(g0, m) - weight(node(g0, r).transaction, m) by {
        lemma_root_pool_total(g0, h, r, m);
    }
}

} // verus!
