//! Finite sums over the agents of a problem.

use vstd::prelude::*;

verus! {

/// The sum of `f(0), .., f(n - 1)`.
pub open spec fn sum_over(f: spec_fn(int) -> int, n: int) -> int
    decreases n,
{
    if n <= 0 {
        0
    } else {
        sum_over(f, n - 1) + f(n - 1)
    }
}

/// The function whose value at `j` is `f(j) + g(j)`.
pub open spec fn plus(f: spec_fn(int) -> int, g: spec_fn(int) -> int) -> spec_fn(int) -> int {
    |j: int| f(j) + g(j)
}

/// A sum of smaller terms is smaller.
pub proof fn lemma_sum_le(f: spec_fn(int) -> int, g: spec_fn(int) -> int, n: int)
    requires
        forall|j: int| 0 <= j < n ==> #[trigger] f(j) <= g(j),
    ensures
        sum_over(f, n) <= sum_over(g, n),
    decreases n,
{
    if n > 0 {
        lemma_sum_le(f, g, n - 1);
    }
}

/// Sums of equal terms are equal.
pub proof fn lemma_sum_eq(f: spec_fn(int) -> int, g: spec_fn(int) -> int, n: int)
    requires
        forall|j: int| 0 <= j < n ==> #[trigger] f(j) == g(j),
    ensures
        sum_over(f, n) == sum_over(g, n),
    decreases n,
{
    if n > 0 {
        lemma_sum_eq(f, g, n - 1);
    }
}

/// The sum of sums is the sum of the terms' sums.
pub proof fn lemma_sum_add(f: spec_fn(int) -> int, g: spec_fn(int) -> int, both: spec_fn(int) -> int, n: int)
    requires
        forall|j: int| 0 <= j < n ==> #[trigger] both(j) == f(j) + g(j),
    ensures
        sum_over(both, n) == sum_over(f, n) + sum_over(g, n),
    decreases n,
{
    if n > 0 {
        lemma_sum_add(f, g, both, n - 1);
    }
}

/// Changing one term changes the sum by as much.
pub proof fn lemma_sum_change(f: spec_fn(int) -> int, g: spec_fn(int) -> int, n: int, k: int)
    requires
        0 <= k < n,
        forall|j: int| 0 <= j < n && j != k ==> #[trigger] f(j) == g(j),
    ensures
        sum_over(g, n) == sum_over(f, n) + g(k) - f(k),
    decreases n,
{
    if n - 1 == k {
        lemma_sum_eq(f, g, n - 1);
    } else {
        lemma_sum_change(f, g, n - 1, k);
        assert(f(n - 1) == g(n - 1));
    }
}

/// A sum of terms that are not negative is not negative, and no term
/// exceeds it.
pub proof fn lemma_sum_nonnegative(f: spec_fn(int) -> int, n: int)
    requires
        forall|j: int| 0 <= j < n ==> 0 <= #[trigger] f(j),
    ensures
        0 <= sum_over(f, n),
        forall|j: int| 0 <= j < n ==> #[trigger] f(j) <= sum_over(f, n),
    decreases n,
{
    if n > 0 {
        lemma_sum_nonnegative(f, n - 1);
    }
}

/// A sum of `n` terms that are at most `cap` is at most `n * cap`.
pub proof fn lemma_sum_bounded(f: spec_fn(int) -> int, n: int, cap: int)
    requires
        0 <= n,
        forall|j: int| 0 <= j < n ==> #[trigger] f(j) <= cap,
    ensures
        sum_over(f, n) <= n * cap,
    decreases n,
{
    if n > 0 {
        lemma_sum_bounded(f, n - 1, cap);
        assert((n - 1) * cap + cap == n * cap) by (nonlinear_arith);
    } else {
        assert(n * cap == 0) by (nonlinear_arith)
            requires
                n == 0,
        ;
    }
}

} // verus!
