//! Comparison of tip-per-gas ratios.

use vstd::prelude::*;
use num_rational::Ratio;

verus! {

/// How one value stands to another.
#[derive(Clone, Copy, Debug, PartialEq, Eq, Structural)]
pub enum Order {
    Less,
    Equal,
    Greater,
}

/// How the fraction `n1 / d1` stands to the fraction `n2 / d2`, for
/// non-zero denominators: fractions are compared by cross-multiplication.
pub open spec fn ratio_order(n1: u128, d1: u128, n2: u128, d2: u128) -> Order {
    if n1 * d2 < n2 * d1 {
        Order::Less
    } else if n1 * d2 == n2 * d1 {
        Order::Equal
    } else {
        Order::Greater
    }
}

/// Compares `n1 / d1` with `n2 / d2`.
///
/// Calls `Ratio::new` of `num_rational` on both pairs and `Ord::cmp` on the
/// two ratios. Trusted: that `Ratio::new` accepts every non-zero
/// denominator, and that the comparison of two such ratios is the exact
/// comparison of the two fractions, whatever the size of the operands.
#[verifier::external_body]
pub(crate) fn compare_ratios(n1: u128, d1: u128, n2: u128, d2: u128) -> (r: Order)
    requires
        d1 != 0,
        d2 != 0,
    ensures
        r == ratio_order(n1, d1, n2, d2),
{
    match Ratio::new(n1, d1).cmp(&Ratio::new(n2, d2)) {
        std::cmp::Ordering::Less => Order::Less,
        std::cmp::Ordering::Equal => Order::Equal,
        std::cmp::Ordering::Greater => Order::Greater,
    }
}

/// Swapping the two fractions mirrors the result.
pub proof fn lemma_ratio_order_mirror(n1: u128, d1: u128, n2: u128, d2: u128)
    ensures
        ratio_order(n1, d1, n2, d2) is Less <==> ratio_order(n2, d2, n1, d1) is Greater,
        ratio_order(n1, d1, n2, d2) is Equal <==> ratio_order(n2, d2, n1, d1) is Equal,
        ratio_order(n1, d1, n2, d2) is Greater <==> ratio_order(n2, d2, n1, d1) is Less,
{
}

/// The order of fractions is transitive.
pub proof fn lemma_ratio_order_transitive(
    n1: u128,
    d1: u128,
    n2: u128,
    d2: u128,
    n3: u128,
    d3: u128,
)
    requires
        d1 != 0,
        d2 != 0,
        d3 != 0,
        !(ratio_order(n1, d1, n2, d2) is Less),
        !(ratio_order(n2, d2, n3, d3) is Less),
    ensures
        !(ratio_order(n1, d1, n3, d3) is Less),
        ratio_order(n1, d1, n2, d2) is Greater || ratio_order(n2, d2, n3, d3) is Greater
            ==> ratio_order(n1, d1, n3, d3) is Greater,
{
    let (a, b, c, d, e, f) = (n1 as int, d1 as int, n2 as int, d2 as int, n3 as int, d3 as int);
    assert(a * d >= c * b);
    assert(c * f >= e * d);
    assert(a * f >= e * b && ((a * d > c * b || c * f > e * d) ==> a * f > e * b))
        by (nonlinear_arith)
        requires
            a * d >= c * b,
            c * f >= e * d,
            b > 0,
            d > 0,
            f > 0,
            a >= 0,
            c >= 0,
            e >= 0,
    {
        assert((a * d) * f >= (c * b) * f);
        assert((c * f) * b >= (e * d) * b);
        assert((a * f) * d >= (e * b) * d);
        if a * d > c * b {
            assert((a * d) * f > (c * b) * f);
            assert((a * f) * d > (e * b) * d);
        }
        if c * f > e * d {
            assert((c * f) * b > (e * d) * b);
            assert((a * f) * d > (e * b) * d);
        }
    }
}

} // verus!
