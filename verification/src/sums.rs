//! Finite sums of an integer-valued function over an initial segment of the
//! natural numbers, and the few facts about them that exact accounting needs.

use vstd::prelude::*;

verus! {

/// `f(0) + f(1) + ... + f(n - 1)`.
pub open spec fn sum_to(f: spec_fn(int) -> int, n: int) -> int
    decreases n,
{
    if n <= 0 {
        0
    } else {
        sum_to(f, n - 1) + f(n - 1)
    }
}

/// Functions that agree below `n` have the same sum.
pub proof fn lemma_sum_equal(f: spec_fn(int) -> int, g: spec_fn(int) -> int, n: int)
    requires
        forall|i: int| 0 <= i < n ==> #[trigger] f(i) == g(i),
    ensures
        sum_to(f, n) == sum_to(g, n),
    decreases n,
{
    if n > 0 {
        lemma_sum_equal(f, g, n - 1);
    }
}

/// Functions that agree below `n` except at `k` have sums that differ by
/// their difference at `k`.
pub proof fn lemma_sum_differs_at(f: spec_fn(int) -> int, g: spec_fn(int) -> int, n: int, k: int)
    requires
        0 <= k < n,
        forall|i: int| 0 <= i < n && i != k ==> #[trigger] f(i) == g(i),
    ensures
        sum_to(g, n) == sum_to(f, n) + g(k) - f(k),
    decreases n,
{
    if n - 1 == k {
        lemma_sum_equal(f, g, n - 1);
    } else {
        lemma_sum_differs_at(f, g, n - 1, k);
    }
}

/// Terms that are zero from `n` on add nothing.
pub proof fn lemma_sum_zero_tail(f: spec_fn(int) -> int, n: int, m: int)
    requires
        0 <= n <= m,
        forall|i: int| n <= i < m ==> #[trigger] f(i) == 0,
    ensures
        sum_to(f, m) == sum_to(f, n),
    decreases m - n,
{
    if n < m {
        lemma_sum_zero_tail(f, n, m - 1);
    }
}

/// A sum of terms between `0` and `hi` lies between `0` and `n * hi`.
pub proof fn lemma_sum_bounds(f: spec_fn(int) -> int, n: int, hi: int)
    requires
        0 <= n,
        forall|i: int| 0 <= i < n ==> 0 <= #[trigger] f(i) <= hi,
    ensures
        0 <= sum_to(f, n) <= n * hi,
    decreases n,
{
    if n > 0 {
        lemma_sum_bounds(f, n - 1, hi);
        assert((n - 1) * hi + hi == n * hi) by (nonlinear_arith);
    } else {
        assert(0 * hi == 0);
    }
}

/// A sum of non-negative terms is at least each of its terms.
pub proof fn lemma_sum_at_least_term(f: spec_fn(int) -> int, n: int, k: int)
    requires
        0 <= k < n,
        forall|i: int| 0 <= i < n ==> 0 <= #[trigger] f(i),
    ensures
        f(k) <= sum_to(f, n),
    decreases n,
{
    if n - 1 == k {
        lemma_sum_nonneg(f, n - 1);
    } else {
        lemma_sum_at_least_term(f, n - 1, k);
    }
}

/// A sum of non-negative terms is non-negative.
pub proof fn lemma_sum_nonneg(f: spec_fn(int) -> int, n: int)
    requires
        forall|i: int| 0 <= i < n ==> 0 <= #[trigger] f(i),
    ensures
        0 <= sum_to(f, n),
    decreases n,
{
    if n > 0 {
        lemma_sum_nonneg(f, n - 1);
    }
}

/// A sum of terms that are all dominated by those of another function is
/// dominated by that function's sum.
pub proof fn lemma_sum_monotone(f: spec_fn(int) -> int, g: spec_fn(int) -> int, n: int)
    requires
        forall|i: int| 0 <= i < n ==> #[trigger] f(i) <= g(i),
    ensures
        sum_to(f, n) <= sum_to(g, n),
    decreases n,
{
    if n > 0 {
        lemma_sum_monotone(f, g, n - 1);
    }
}

} // verus!
