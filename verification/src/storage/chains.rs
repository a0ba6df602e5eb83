//! The length of the chains of dependent transactions.

use vstd::prelude::*;
use crate::storage::steps::root_step;
use crate::storage::{ages_wf, has_child, is_path, links_wf, live, node, Nodes};
use crate::types::StorageIndex;

verus! {

/// The number of transactions in the longest chain that ends with the stored
/// transaction `i`: the longest walk along child links from a transaction
/// without parents down to `i`.
pub open spec fn chain_length(g: Nodes, ages: Seq<nat>, i: StorageIndex) -> nat
    decreases ages[i as int], node(g, i).parents@.len() + 1,
{
    1 + longest_above(g, ages, i, node(g, i).parents@.len())
}

/// The length of the longest chain that ends with one of the first `n`
/// parents of `i`.
pub open spec fn longest_above(g: Nodes, ages: Seq<nat>, i: StorageIndex, n: nat) -> nat
    decreases ages[i as int], n,
{
    if n == 0 {
        0
    } else {
        let p = node(g, i).parents@[n - 1];
        let rest = longest_above(g, ages, i, (n - 1) as nat);
        if ages[p as int] < ages[i as int] && chain_length(g, ages, p) > rest {
            chain_length(g, ages, p)
        } else {
            rest
        }
    }
}

/// No chain of dependent transactions holds more transactions than the
/// limit allows.
pub open spec fn chains_wf(g: Nodes, ages: Seq<nat>, max_txs_chain_count: usize) -> bool {
    forall|i: StorageIndex| #[trigger]
        live(g, i) ==> chain_length(g, ages, i) <= max_txs_chain_count
}

/// The longest chain above `i` is at least as long as the chain of each of
/// the parents that it covers, and it is the chain of one of them unless
/// there is none.
pub proof fn lemma_longest_above(g: Nodes, ages: Seq<nat>, next_age: nat, i: StorageIndex, n: nat)
    requires
        links_wf(g),
        ages_wf(g, ages, next_age),
        live(g, i),
        n <= node(g, i).parents@.len(),
    ensures
        forall|m: int|
            0 <= m < n ==> chain_length(g, ages, #[trigger] node(g, i).parents@[m])
                <= longest_above(g, ages, i, n),
        n == 0 ==> longest_above(g, ages, i, n) == 0,
        n > 0 ==> exists|m: int|
            0 <= m < n && longest_above(g, ages, i, n) == chain_length(
                g,
                ages,
                #[trigger] node(g, i).parents@[m],
            ),
    decreases n,
{
    if n > 0 {
        lemma_longest_above(g, ages, next_age, i, (n - 1) as nat);
        let p = node(g, i).parents@[n - 1];
        assert(has_child(g, node(g, i).parents@[n - 1], i));
        assert(ages[(node(g, i).parents@[n - 1]) as int] < ages[i as int]);
        let rest = longest_above(g, ages, i, (n - 1) as nat);
        if n - 1 == 0 {
            assert(longest_above(g, ages, i, n) == chain_length(g, ages, node(g, i).parents@[0]));
        } else {
            let m0 = choose|m: int|
                0 <= m < n - 1 && rest == chain_length(g, ages, #[trigger] node(g, i).parents@[m]);
            if chain_length(g, ages, p) > rest {
                assert(longest_above(g, ages, i, n) == chain_length(
                    g,
                    ages,
                    node(g, i).parents@[n - 1],
                ));
            } else {
                assert(longest_above(g, ages, i, n) == chain_length(
                    g,
                    ages,
                    node(g, i).parents@[m0],
                ));
            }
        }
    }
}

/// The chain of a transaction is longer than the chain of each of its
/// parents.
pub proof fn lemma_chain_grows(
    g: Nodes,
    ages: Seq<nat>,
    next_age: nat,
    p: StorageIndex,
    i: StorageIndex,
)
    requires
        links_wf(g),
        ages_wf(g, ages, next_age),
        live(g, i),
        node(g, i).parents@.contains(p),
    ensures
        chain_length(g, ages, p) < chain_length(g, ages, i),
{
    let n = node(g, i).parents@.len();
    lemma_longest_above(g, ages, next_age, i, n);
    let m = choose|m: int| 0 <= m < n && node(g, i).parents@[m] == p;
    assert(chain_length(g, ages, node(g, i).parents@[m]) <= longest_above(g, ages, i, n));
}

/// A walk along child links passes no more transactions than the chain of
/// its last transaction holds.
pub proof fn lemma_path_within_chain(
    g: Nodes,
    ages: Seq<nat>,
    next_age: nat,
    p: Seq<StorageIndex>,
    k: int,
)
    requires
        links_wf(g),
        ages_wf(g, ages, next_age),
        is_path(g, p),
        0 <= k < p.len(),
    ensures
        k + 1 <= chain_length(g, ages, p[k]),
    decreases k,
{
    if k > 0 {
        lemma_path_within_chain(g, ages, next_age, p, k - 1);
        let x = p[k - 1];
        let y = p[k];
        assert(live(g, p[k - 1]));
        assert(live(g, p[k]));
        assert(node(g, p[k - 1]).children@.contains(p[k - 1 + 1]));
        let m = choose|m: int|
            0 <= m < node(g, x).children@.len() && node(g, x).children@[m] == y;
        assert(live(g, node(g, x).children@[m]) && node(g, node(g, x).children@[m]).parents@.contains(
            x,
        ));
        lemma_chain_grows(g, ages, next_age, x, y);
    }
}

/// Where the transactions of `g` have in `h` the parents and the ages that
/// they have in `g`, their chains are as long in `h` as in `g`.
pub proof fn lemma_chain_length_kept(
    g: Nodes,
    ages: Seq<nat>,
    next_age: nat,
    h: Nodes,
    ages2: Seq<nat>,
    i: StorageIndex,
)
    requires
        links_wf(g),
        ages_wf(g, ages, next_age),
        live(g, i),
        forall|j: StorageIndex| #[trigger]
            live(g, j) ==> node(h, j).parents@ == node(g, j).parents@ && ages2[j as int]
                == ages[j as int],
    ensures
        chain_length(h, ages2, i) == chain_length(g, ages, i),
    decreases ages[i as int],
{
    lemma_longest_above_kept(g, ages, next_age, h, ages2, i, node(g, i).parents@.len());
}

proof fn lemma_longest_above_kept(
    g: Nodes,
    ages: Seq<nat>,
    next_age: nat,
    h: Nodes,
    ages2: Seq<nat>,
    i: StorageIndex,
    n: nat,
)
    requires
        links_wf(g),
        ages_wf(g, ages, next_age),
        live(g, i),
        n <= node(g, i).parents@.len(),
        forall|j: StorageIndex| #[trigger]
            live(g, j) ==> node(h, j).parents@ == node(g, j).parents@ && ages2[j as int]
                == ages[j as int],
    ensures
        longest_above(h, ages2, i, n) == longest_above(g, ages, i, n),
    decreases ages[i as int], n,
{
    if n > 0 {
        lemma_longest_above_kept(g, ages, next_age, h, ages2, i, (n - 1) as nat);
        let p = node(g, i).parents@[n - 1];
        assert(has_child(g, node(g, i).parents@[n - 1], i));
        assert(live(g, p));
        assert(ages[(node(g, i).parents@[n - 1]) as int] < ages[i as int]);
        lemma_chain_length_kept(g, ages, next_age, h, ages2, p);
    }
}

/// Without one of its roots, no chain of the graph is longer than before.
pub proof fn lemma_chain_length_without_root(
    g: Nodes,
    ages: Seq<nat>,
    next_age: nat,
    h: Nodes,
    r: StorageIndex,
    i: StorageIndex,
)
    requires
        links_wf(g),
        links_wf(h),
        ages_wf(g, ages, next_age),
        ages_wf(h, ages, next_age),
        root_step(g, h, r),
        live(h, i),
    ensures
        chain_length(h, ages, i) <= chain_length(g, ages, i),
    decreases ages[i as int],
{
    let nh = node(h, i).parents@.len();
    let ng = node(g, i).parents@.len();
    assert(i != r);
    assert(live(g, i));
    lemma_longest_above(h, ages, next_age, i, nh);
    lemma_longest_above(g, ages, next_age, i, ng);
    if nh > 0 {
        let m = choose|m: int|
            0 <= m < nh && longest_above(h, ages, i, nh) == chain_length(
                h,
                ages,
                #[trigger] node(h, i).parents@[m],
            );
        let p = node(h, i).parents@[m];
        assert(node(h, i).parents@.contains(p));
        assert(node(g, i).parents@.contains(p));
        assert(has_child(h, node(h, i).parents@[m], i));
        assert(ages[(node(h, i).parents@[m]) as int] < ages[i as int]);
        lemma_chain_length_without_root(g, ages, next_age, h, r, p);
        let m2 = choose|m2: int| 0 <= m2 < ng && node(g, i).parents@[m2] == p;
        assert(chain_length(g, ages, node(g, i).parents@[m2]) <= longest_above(g, ages, i, ng));
    }
}

} // verus!
