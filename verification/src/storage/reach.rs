//! Facts about reachability in the dependency graph, and about how subtree
//! sums change when a leaf joins or leaves the graph and when a root leaves
//! it.

use vstd::prelude::*;
use crate::storage::{
    above, has_child, is_path, links_wf, live, node, pool_term, pool_total, reaches, subtree_term,
    subtree_total, weight, Measure, Nodes,
};
use crate::sums::{
    lemma_sum_at_least_term, lemma_sum_bounds, lemma_sum_differs_at, lemma_sum_equal,
    lemma_sum_zero_tail,
};
use crate::types::StorageIndex;

verus! {

/// Every stored transaction reaches itself.
pub proof fn lemma_reaches_self(g: Nodes, a: StorageIndex)
    requires
        live(g, a),
    ensures
        reaches(g, a, a),
{
    let p = seq![a];
    assert(is_path(g, p));
    assert(p[0] == a && p[p.len() - 1] == a);
}

/// Both ends of a walk are stored transactions.
pub proof fn lemma_reaches_live(g: Nodes, a: StorageIndex, b: StorageIndex)
    requires
        reaches(g, a, b),
    ensures
        live(g, a),
        live(g, b),
{
    let p = choose|p: Seq<StorageIndex>| #[trigger]
        is_path(g, p) && p[0] == a && p[p.len() - 1] == b;
    assert(live(g, p[0]));
    assert(live(g, p[p.len() - 1]));
}

/// A walk can be extended by a child of its end.
pub proof fn lemma_reaches_extend(g: Nodes, a: StorageIndex, b: StorageIndex, c: StorageIndex)
    requires
        reaches(g, a, b),
        has_child(g, b, c),
        live(g, c),
    ensures
        reaches(g, a, c),
{
    let p = choose|p: Seq<StorageIndex>| #[trigger]
        is_path(g, p) && p[0] == a && p[p.len() - 1] == b;
    let q = p.push(c);
    assert forall|k: int| 0 <= k < q.len() implies live(g, #[trigger] q[k]) by {
        if k < p.len() {
            assert(q[k] == p[k]);
        }
    }
    assert forall|k: int| 0 <= k < q.len() - 1 implies node(g, #[trigger] q[k]).children@.contains(
        q[k + 1],
    ) by {
        if k < p.len() - 1 {
            assert(q[k] == p[k]);
            assert(q[k + 1] == p[k + 1]);
        }
    }
    assert(is_path(g, q));
    assert(q[0] == a && q[q.len() - 1] == c);
}

/// A walk can be extended by a parent of its start.
pub proof fn lemma_reaches_prepend(g: Nodes, a: StorageIndex, b: StorageIndex, c: StorageIndex)
    requires
        has_child(g, a, b),
        reaches(g, b, c),
    ensures
        reaches(g, a, c),
{
    let p = choose|p: Seq<StorageIndex>| #[trigger]
        is_path(g, p) && p[0] == b && p[p.len() - 1] == c;
    let q = seq![a] + p;
    assert forall|k: int| 0 <= k < q.len() implies live(g, #[trigger] q[k]) by {
        if k > 0 {
            assert(q[k] == p[k - 1]);
        }
    }
    assert forall|k: int| 0 <= k < q.len() - 1 implies node(g, #[trigger] q[k]).children@.contains(
        q[k + 1],
    ) by {
        assert(q[k + 1] == p[k]);
        if k > 0 {
            assert(q[k] == p[k - 1]);
        }
    }
    assert(is_path(g, q));
    assert(q[0] == a && q[q.len() - 1] == c);
}

/// A walk between two different transactions ends with a step from a
/// transaction that its start reaches.
pub proof fn lemma_reaches_last_step(g: Nodes, a: StorageIndex, b: StorageIndex) -> (q:
    StorageIndex)
    requires
        reaches(g, a, b),
        a != b,
    ensures
        reaches(g, a, q),
        has_child(g, q, b),
{
    let p = choose|p: Seq<StorageIndex>| #[trigger]
        is_path(g, p) && p[0] == a && p[p.len() - 1] == b;
    assert(p.len() >= 2);
    let r = p.drop_last();
    assert forall|k: int| 0 <= k < r.len() implies live(g, #[trigger] r[k]) by {
        assert(r[k] == p[k]);
    }
    assert forall|k: int| 0 <= k < r.len() - 1 implies node(g, #[trigger] r[k]).children@.contains(
        r[k + 1],
    ) by {
        assert(r[k] == p[k]);
        assert(r[k + 1] == p[k + 1]);
    }
    assert(is_path(g, r));
    let q = p[p.len() - 2];
    assert(r[0] == a && r[r.len() - 1] == q);
    assert(live(g, p[p.len() - 2]));
    assert(node(g, p[p.len() - 2]).children@.contains(p[p.len() - 2 + 1]));
    q
}

/// A walk between two different transactions starts with a step to a
/// transaction that reaches its end.
pub proof fn lemma_reaches_first_step(g: Nodes, a: StorageIndex, b: StorageIndex) -> (q:
    StorageIndex)
    requires
        reaches(g, a, b),
        a != b,
    ensures
        has_child(g, a, q),
        reaches(g, q, b),
{
    let p = choose|p: Seq<StorageIndex>| #[trigger]
        is_path(g, p) && p[0] == a && p[p.len() - 1] == b;
    assert(p.len() >= 2);
    let r = p.subrange(1, p.len() as int);
    assert forall|k: int| 0 <= k < r.len() implies live(g, #[trigger] r[k]) by {
        assert(r[k] == p[k + 1]);
    }
    assert forall|k: int| 0 <= k < r.len() - 1 implies node(g, #[trigger] r[k]).children@.contains(
        r[k + 1],
    ) by {
        assert(r[k] == p[k + 1]);
        assert(r[k + 1] == p[k + 1 + 1]);
    }
    assert(is_path(g, r));
    let q = p[1];
    assert(r[0] == q && r[r.len() - 1] == b);
    assert(live(g, p[0]));
    assert(node(g, p[0]).children@.contains(p[0int + 1]));
    q
}

/// Along a walk the ages never decrease, and they grow along a walk between
/// two different transactions: the graph has no cycle.
pub proof fn lemma_reaches_ages(
    g: Nodes,
    ages: Seq<nat>,
    next_age: nat,
    a: StorageIndex,
    b: StorageIndex,
)
    requires
        links_wf(g),
        crate::storage::ages_wf(g, ages, next_age),
        reaches(g, a, b),
    ensures
        ages[a as int] <= ages[b as int],
        ages[a as int] == ages[b as int] ==> a == b,
{
    let p = choose|p: Seq<StorageIndex>| #[trigger]
        is_path(g, p) && p[0] == a && p[p.len() - 1] == b;
    lemma_path_ages(g, ages, next_age, p, p.len() - 1);
}

/// Along a walk the ages grow.
pub proof fn lemma_path_ages(g: Nodes, ages: Seq<nat>, next_age: nat, p: Seq<StorageIndex>, k: int)
    requires
        links_wf(g),
        crate::storage::ages_wf(g, ages, next_age),
        is_path(g, p),
        0 <= k < p.len(),
    ensures
        ages[p[0] as int] <= ages[p[k] as int],
        k > 0 ==> ages[p[0] as int] < ages[p[k] as int],
    decreases k,
{
    if k > 0 {
        lemma_path_ages(g, ages, next_age, p, k - 1);
        let x = p[k - 1];
        let y = p[k];
        assert(live(g, p[k - 1]));
        assert(node(g, p[k - 1]).children@.contains(p[k - 1 + 1]));
        let m = choose|m: int|
            0 <= m < node(g, x).children@.len() && node(g, x).children@[m] == y;
        assert(live(g, node(g, x).children@[m]));
        assert(node(g, y).parents@.contains(x));
        let n = choose|n: int| 0 <= n < node(g, y).parents@.len() && node(g, y).parents@[n] == x;
        assert(ages[node(g, y).parents@[n] as int] < ages[y as int]);
    }
}

/// `h` is `g` with the stored transaction `k` added as a leaf: `k` has no
/// children in `h`, and the only links that `h` adds lead from the parents of
/// `k` to `k`.
pub open spec fn leaf_extension(g: Nodes, h: Nodes, k: StorageIndex) -> bool {
    &&& g.len() <= h.len() <= usize::MAX
    &&& !live(g, k)
    &&& live(h, k)
    &&& node(h, k).children@.len() == 0
    &&& forall|i: StorageIndex| i != k ==> #[trigger] live(g, i) == live(h, i)
    &&& forall|i: StorageIndex|
        i != k && #[trigger] live(g, i) ==> node(h, i).transaction == node(g, i).transaction
    &&& forall|i: StorageIndex, c: StorageIndex|
        i != k && c != k && live(g, i) ==> (#[trigger] node(g, i).children@.contains(c)
            <==> node(h, i).children@.contains(c))
    &&& forall|i: StorageIndex, c: StorageIndex|
        i != k && c != k && live(g, i) ==> (node(g, i).children@.contains(c)
            <==> #[trigger] node(h, i).children@.contains(c))
    &&& forall|i: StorageIndex| #[trigger] live(g, i) ==> !node(g, i).children@.contains(k)
    &&& forall|i: StorageIndex|
        i != k && #[trigger] live(h, i) ==> (node(h, i).children@.contains(k) <==> node(
            h,
            k,
        ).parents@.contains(i))
    &&& forall|m: int|
        0 <= m < node(h, k).parents@.len() ==> live(g, #[trigger] node(h, k).parents@[m])
}

proof fn lemma_leaf_path_old_to_new(g: Nodes, h: Nodes, k: StorageIndex, p: Seq<StorageIndex>)
    requires
        leaf_extension(g, h, k),
        is_path(g, p),
    ensures
        is_path(h, p),
{
    assert forall|m: int| 0 <= m < p.len() implies live(h, #[trigger] p[m]) by {
        assert(live(g, p[m]));
    }
    assert forall|m: int| 0 <= m < p.len() - 1 implies node(h, #[trigger] p[m]).children@.contains(
        p[m + 1],
    ) by {
        assert(live(g, p[m]));
        assert(live(g, p[m + 1]));
        assert(node(g, p[m]).children@.contains(p[m + 1]));
    }
}

proof fn lemma_leaf_path_new_to_old(g: Nodes, h: Nodes, k: StorageIndex, p: Seq<StorageIndex>)
    requires
        leaf_extension(g, h, k),
        is_path(h, p),
        p[p.len() - 1] != k,
    ensures
        is_path(g, p),
{
    assert forall|m: int| 0 <= m < p.len() implies p[m] != k by {
        if p[m] == k {
            assert(m < p.len() - 1);
            assert(node(h, p[m]).children@.contains(p[m + 1]));
        }
    }
    assert forall|m: int| 0 <= m < p.len() implies live(g, #[trigger] p[m]) by {
        assert(live(h, p[m]));
        assert(p[m] != k);
    }
    assert forall|m: int| 0 <= m < p.len() - 1 implies node(g, #[trigger] p[m]).children@.contains(
        p[m + 1],
    ) by {
        assert(live(g, p[m]));
        assert(p[m] != k);
        assert(p[m + 1] != k);
        assert(node(h, p[m]).children@.contains(p[m + 1]));
    }
}

/// Adding a leaf changes no walk between the other transactions.
pub proof fn lemma_leaf_reaches_others(
    g: Nodes,
    h: Nodes,
    k: StorageIndex,
    a: StorageIndex,
    b: StorageIndex,
)
    requires
        leaf_extension(g, h, k),
        b != k,
    ensures
        reaches(g, a, b) <==> reaches(h, a, b),
{
    if reaches(g, a, b) {
        let p = choose|p: Seq<StorageIndex>| #[trigger]
            is_path(g, p) && p[0] == a && p[p.len() - 1] == b;
        lemma_leaf_path_old_to_new(g, h, k, p);
    }
    if reaches(h, a, b) {
        let p = choose|p: Seq<StorageIndex>| #[trigger]
            is_path(h, p) && p[0] == a && p[p.len() - 1] == b;
        lemma_leaf_path_new_to_old(g, h, k, p);
    }
}

/// The transactions that reach a new leaf are the leaf itself and those that
/// reached one of its parents.
pub proof fn lemma_leaf_reached_from(g: Nodes, h: Nodes, k: StorageIndex, a: StorageIndex)
    requires
        leaf_extension(g, h, k),
    ensures
        reaches(h, a, k) <==> (a == k || above(g, node(h, k).parents@, a)),
{
    let parents = node(h, k).parents@;
    if reaches(h, a, k) && a != k {
        let q = lemma_reaches_last_step(h, a, k);
        if q == k {
            assert(node(h, k).children@.contains(k));
        }
        assert(parents.contains(q));
        let m = choose|m: int| 0 <= m < parents.len() && parents[m] == q;
        lemma_leaf_reaches_others(g, h, k, a, q);
        assert(reaches(g, a, parents[m]));
    }
    if a == k {
        lemma_reaches_self(h, k);
    }
    if above(g, parents, a) {
        let m = choose|m: int| 0 <= m < parents.len() && reaches(g, a, #[trigger] parents[m]);
        let q = parents[m];
        assert(live(g, q));
        lemma_leaf_reaches_others(g, h, k, a, q);
        assert(parents.contains(q));
        assert(has_child(h, q, k));
        lemma_reaches_extend(h, a, q, k);
    }
}

/// A leaf reaches only itself.
pub proof fn lemma_leaf_reaches_only_itself(g: Nodes, h: Nodes, k: StorageIndex, b: StorageIndex)
    requires
        leaf_extension(g, h, k),
        reaches(h, k, b),
    ensures
        b == k,
{
    if b != k {
        let q = lemma_reaches_first_step(h, k, b);
        assert(node(h, k).children@.contains(q));
    }
}

/// How the subtree sums of the graph with the leaf relate to those of the
/// graph without it.
pub proof fn lemma_leaf_subtree_total(
    g: Nodes,
    h: Nodes,
    k: StorageIndex,
    a: StorageIndex,
    m: Measure,
)
    requires
        leaf_extension(g, h, k),
        live(h, a),
    ensures
        a == k ==> subtree_total(h, a, m) == weight(node(h, k).transaction, m),
        a != k && above(g, node(h, k).parents@, a) ==> subtree_total(h, a, m) == subtree_total(
            g,
            a,
            m,
        ) + weight(node(h, k).transaction, m),
        a != k && !above(g, node(h, k).parents@, a) ==> subtree_total(h, a, m) == subtree_total(
            g,
            a,
            m,
        ),
{
    let fh = |j: int| subtree_term(h, a, m, j);
    let fg = |j: int| subtree_term(g, a, m, j);
    let n = h.len() as int;
    lemma_leaf_reached_from(g, h, k, a);
    if a == k {
        let z = |j: int| 0int;
        assert forall|j: int| 0 <= j < n && j != k implies #[trigger] z(j) == fh(j) by {
            if reaches(h, a, j as usize) {
                lemma_leaf_reaches_only_itself(g, h, k, j as usize);
            }
        }
        lemma_sum_differs_at(z, fh, n, k as int);
        lemma_sum_bounds(z, n, 0);
        lemma_reaches_self(h, k);
    } else {
        assert forall|j: int| g.len() <= j < n implies #[trigger] fg(j) == 0 by {}
        lemma_sum_zero_tail(fg, g.len() as int, n);
        assert forall|j: int| 0 <= j < n && j != k implies #[trigger] fg(j) == fh(j) by {
            lemma_leaf_reaches_others(g, h, k, a, j as usize);
            if reaches(h, a, j as usize) {
                lemma_reaches_live(h, a, j as usize);
                lemma_reaches_live(g, a, j as usize);
            }
        }
        lemma_sum_differs_at(fg, fh, n, k as int);
        assert(fg(k as int) == 0) by {
            if reaches(g, a, k) {
                lemma_reaches_live(g, a, k);
            }
        }
    }
}

/// Adding a leaf adds its weight to the sum over all stored transactions.
pub proof fn lemma_leaf_pool_total(g: Nodes, h: Nodes, k: StorageIndex, m: Measure)
    requires
        leaf_extension(g, h, k),
    ensures
        pool_total(h, m) == pool_total(g, m) + weight(node(h, k).transaction, m),
{
    let fh = |j: int| pool_term(h, m, j);
    let fg = |j: int| pool_term(g, m, j);
    let n = h.len() as int;
    assert forall|j: int| g.len() <= j < n implies #[trigger] fg(j) == 0 by {}
    lemma_sum_zero_tail(fg, g.len() as int, n);
    assert forall|j: int| 0 <= j < n && j != k implies #[trigger] fg(j) == fh(j) by {
        let i = j as usize;
        assert(live(g, i) == live(h, i));
        if live(g, i) {
            assert(node(h, i).transaction == node(g, i).transaction);
        }
    }
    lemma_sum_differs_at(fg, fh, n, k as int);
}

/// `h` is `g` without the stored transaction `r`, which had no parents: the
/// only links that `h` lacks lead from `r` to its children.
pub open spec fn root_removal(g: Nodes, h: Nodes, r: StorageIndex) -> bool {
    &&& g.len() == h.len() <= usize::MAX
    &&& live(g, r)
    &&& !live(h, r)
    &&& forall|i: StorageIndex| #[trigger] live(g, i) ==> !node(g, i).children@.contains(r)
    &&& forall|i: StorageIndex| i != r ==> #[trigger] live(g, i) == live(h, i)
    &&& forall|i: StorageIndex|
        i != r && #[trigger] live(g, i) ==> node(h, i).transaction == node(g, i).transaction
            && node(h, i).children@ == node(g, i).children@
}

/// Removing a root changes no walk between the other transactions.
pub proof fn lemma_root_reaches_others(
    g: Nodes,
    h: Nodes,
    r: StorageIndex,
    a: StorageIndex,
    b: StorageIndex,
)
    requires
        root_removal(g, h, r),
        a != r,
    ensures
        reaches(g, a, b) <==> reaches(h, a, b),
        reaches(g, a, b) ==> b != r,
{
    if reaches(g, a, b) {
        let p = choose|p: Seq<StorageIndex>| #[trigger]
            is_path(g, p) && p[0] == a && p[p.len() - 1] == b;
        assert forall|m: int| 0 <= m < p.len() implies p[m] != r by {
            if p[m] == r {
                assert(m > 0);
                assert(live(g, p[m - 1]));
                assert(node(g, p[m - 1]).children@.contains(p[m - 1 + 1]));
            }
        }
        assert forall|m: int| 0 <= m < p.len() implies live(h, #[trigger] p[m]) by {
            assert(live(g, p[m]));
            assert(p[m] != r);
        }
        assert forall|m: int| 0 <= m < p.len() - 1 implies node(
            h,
            #[trigger] p[m],
        ).children@.contains(p[m + 1]) by {
            assert(live(g, p[m]));
            assert(p[m] != r);
            assert(node(g, p[m]).children@.contains(p[m + 1]));
        }
        assert(is_path(h, p));
    }
    if reaches(h, a, b) {
        let p = choose|p: Seq<StorageIndex>| #[trigger]
            is_path(h, p) && p[0] == a && p[p.len() - 1] == b;
        assert forall|m: int| 0 <= m < p.len() implies live(g, #[trigger] p[m]) by {
            assert(live(h, p[m]));
        }
        assert forall|m: int| 0 <= m < p.len() - 1 implies node(
            g,
            #[trigger] p[m],
        ).children@.contains(p[m + 1]) by {
            assert(live(h, p[m]));
            assert(live(g, p[m]));
            assert(node(h, p[m]).children@.contains(p[m + 1]));
        }
        assert(is_path(g, p));
    }
}

/// Removing a root changes no subtree sum of the other transactions.
pub proof fn lemma_root_subtree_total(
    g: Nodes,
    h: Nodes,
    r: StorageIndex,
    a: StorageIndex,
    m: Measure,
)
    requires
        root_removal(g, h, r),
        a != r,
    ensures
        subtree_total(h, a, m) == subtree_total(g, a, m),
{
    let fh = |j: int| subtree_term(h, a, m, j);
    let fg = |j: int| subtree_term(g, a, m, j);
    let n = h.len() as int;
    assert forall|j: int| 0 <= j < n implies #[trigger] fg(j) == fh(j) by {
        lemma_root_reaches_others(g, h, r, a, j as usize);
        if reaches(h, a, j as usize) {
            lemma_reaches_live(g, a, j as usize);
        }
    }
    lemma_sum_equal(fg, fh, n);
}

/// Removing a root takes its weight from the sum over all stored
/// transactions.
pub proof fn lemma_root_pool_total(g: Nodes, h: Nodes, r: StorageIndex, m: Measure)
    requires
        root_removal(g, h, r),
    ensures
        pool_total(h, m) == pool_total(g, m) - weight(node(g, r).transaction, m),
{
    let fh = |j: int| pool_term(h, m, j);
    let fg = |j: int| pool_term(g, m, j);
    let n = h.len() as int;
    assert forall|j: int| 0 <= j < n && j != r implies #[trigger] fh(j) == fg(j) by {
        let i = j as usize;
        assert(live(g, i) == live(h, i));
        if live(g, i) {
            assert(node(h, i).transaction == node(g, i).transaction);
        }
    }
    lemma_sum_differs_at(fh, fg, n, r as int);
}

/// A subtree sum is at least the weight of each transaction in the subtree,
/// and at most the sum over all stored transactions.
pub proof fn lemma_subtree_total_bounds(g: Nodes, a: StorageIndex, b: StorageIndex, m: Measure)
    requires
        g.len() <= usize::MAX,
        reaches(g, a, b),
    ensures
        weight(node(g, b).transaction, m) <= subtree_total(g, a, m) <= pool_total(g, m),
{
    let f = |j: int| subtree_term(g, a, m, j);
    let t = |j: int| pool_term(g, m, j);
    let n = g.len() as int;
    lemma_reaches_live(g, a, b);
    assert forall|j: int| 0 <= j < n implies 0 <= #[trigger] f(j) by {}
    lemma_sum_at_least_term(f, n, b as int);
    assert forall|j: int| 0 <= j < n implies #[trigger] f(j) <= t(j) by {
        if reaches(g, a, j as usize) {
            lemma_reaches_live(g, a, j as usize);
        }
    }
    crate::sums::lemma_sum_monotone(f, t, n);
}

/// The sum over all stored transactions is at most the number of slots times
/// the largest weight, and at least the weight of each stored transaction.
pub proof fn lemma_pool_total_bounds(g: Nodes, m: Measure)
    ensures
        0 <= pool_total(g, m) <= g.len() * u64::MAX,
        forall|i: StorageIndex| #[trigger]
            live(g, i) ==> weight(node(g, i).transaction, m) <= pool_total(g, m),
{
    let t = |j: int| pool_term(g, m, j);
    let n = g.len() as int;
    assert forall|j: int| 0 <= j < n implies 0 <= #[trigger] t(j) <= u64::MAX by {}
    lemma_sum_bounds(t, n, u64::MAX as int);
    assert forall|i: StorageIndex| #[trigger] live(g, i) implies weight(node(g, i).transaction, m)
        <= pool_total(g, m) by {
        lemma_sum_at_least_term(t, n, i as int);
    }
}

/// With a free slot in the arena, fewer transactions are stored than the
/// arena has slots.
pub proof fn lemma_count_below_len(g: Nodes, k: StorageIndex)
    requires
        (k as int) < g.len(),
        !live(g, k),
    ensures
        pool_total(g, Measure::Count) <= g.len() - 1,
{
    let f = |j: int| pool_term(g, Measure::Count, j);
    let f2 = |j: int|
        if j == k {
            1int
        } else {
            pool_term(g, Measure::Count, j)
        };
    let n = g.len() as int;
    assert forall|i: int| 0 <= i < n && i != k implies #[trigger] f(i) == f2(i) by {}
    lemma_sum_differs_at(f, f2, n, k as int);
    assert forall|i: int| 0 <= i < n implies 0 <= #[trigger] f2(i) <= 1 by {}
    lemma_sum_bounds(f2, n, 1);
}

/// Appending a free slot changes no walk and no sum.
pub proof fn lemma_push_free_slot(g: Nodes, h: Nodes)
    requires
        h == g.push(None),
    ensures
        forall|i: StorageIndex| #[trigger] live(h, i) == live(g, i),
        forall|i: StorageIndex| live(g, i) ==> #[trigger] node(h, i) == node(g, i),
        forall|a: StorageIndex, b: StorageIndex| #[trigger] reaches(h, a, b) == reaches(g, a, b),
        forall|a: StorageIndex, m: Measure| #[trigger]
            subtree_total(h, a, m) == subtree_total(g, a, m),
        forall|m: Measure| #[trigger] pool_total(h, m) == pool_total(g, m),
{
    assert forall|i: StorageIndex| #[trigger] live(h, i) == live(g, i) by {
        if (i as int) < g.len() {
            assert(h[i as int] == g[i as int]);
        }
    }
    assert forall|a: StorageIndex, b: StorageIndex| #[trigger]
        reaches(h, a, b) == reaches(g, a, b) by {
        if reaches(h, a, b) {
            let p = choose|p: Seq<StorageIndex>| #[trigger]
                is_path(h, p) && p[0] == a && p[p.len() - 1] == b;
            assert forall|k: int| 0 <= k < p.len() implies live(g, #[trigger] p[k]) by {
                assert(live(h, p[k]));
            }
            assert forall|k: int| 0 <= k < p.len() - 1 implies node(
                g,
                #[trigger] p[k],
            ).children@.contains(p[k + 1]) by {
                assert(live(h, p[k]));
                assert(node(h, p[k]).children@.contains(p[k + 1]));
            }
            assert(is_path(g, p));
        }
        if reaches(g, a, b) {
            let p = choose|p: Seq<StorageIndex>| #[trigger]
                is_path(g, p) && p[0] == a && p[p.len() - 1] == b;
            assert forall|k: int| 0 <= k < p.len() implies live(h, #[trigger] p[k]) by {
                assert(live(g, p[k]));
            }
            assert forall|k: int| 0 <= k < p.len() - 1 implies node(
                h,
                #[trigger] p[k],
            ).children@.contains(p[k + 1]) by {
                assert(live(g, p[k]));
                assert(node(g, p[k]).children@.contains(p[k + 1]));
            }
            assert(is_path(h, p));
        }
    }
    assert forall|a: StorageIndex, m: Measure| #[trigger]
        subtree_total(h, a, m) == subtree_total(g, a, m) by {
        let fh = |j: int| subtree_term(h, a, m, j);
        let fg = |j: int| subtree_term(g, a, m, j);
        assert forall|j: int| 0 <= j < g.len() implies #[trigger] fh(j) == fg(j) by {
            assert(reaches(h, a, j as usize) == reaches(g, a, j as usize));
            if reaches(g, a, j as usize) {
                lemma_reaches_live(g, a, j as usize);
            }
        }
        lemma_sum_equal(fh, fg, g.len() as int);
        lemma_sum_zero_tail(fh, g.len() as int, h.len() as int);
    }
    assert forall|m: Measure| #[trigger] pool_total(h, m) == pool_total(g, m) by {
        let fh = |j: int| pool_term(h, m, j);
        let fg = |j: int| pool_term(g, m, j);
        assert forall|j: int| 0 <= j < g.len() implies #[trigger] fh(j) == fg(j) by {
            assert(h[j] == g[j]);
        }
        lemma_sum_equal(fh, fg, g.len() as int);
        lemma_sum_zero_tail(fh, g.len() as int, h.len() as int);
    }
}

} // verus!
