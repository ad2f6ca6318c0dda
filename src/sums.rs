use vstd::prelude::*;

verus! {

/// The sum of the first `n` entries of `s`.
pub open spec fn prefix_sum(s: Seq<int>, n: int) -> int
    decreases n,
{
    if n <= 0 {
        0
    } else {
        prefix_sum(s, n - 1) + s[n - 1]
    }
}

/// The sum of all entries of `s`.
pub open spec fn seq_sum(s: Seq<int>) -> int {
    prefix_sum(s, s.len() as int)
}

pub proof fn lemma_prefix_sum_add(a: Seq<int>, b: Seq<int>, c: Seq<int>, n: int)
    requires
        forall|i: int| 0 <= i < n ==> a[i] == b[i] + c[i],
    ensures
        prefix_sum(a, n) == prefix_sum(b, n) + prefix_sum(c, n),
    decreases n,
{
    if n > 0 {
        lemma_prefix_sum_add(a, b, c, n - 1);
    }
}

pub proof fn lemma_prefix_sum_const(a: Seq<int>, k: int, n: int)
    requires
        n >= 0,
        forall|i: int| 0 <= i < n ==> a[i] == k,
    ensures
        prefix_sum(a, n) == n * k,
    decreases n,
{
    if n > 0 {
        lemma_prefix_sum_const(a, k, n - 1);
        assert(a[n - 1] == k);
        assert(n * k == (n - 1) * k + k) by (nonlinear_arith);
    } else {
        assert(n * k == 0) by (nonlinear_arith)
            requires
                n == 0,
        ;
    }
}

/// Entries that are 1 below `r` and 0 from `r` on sum to `min(n, r)`.
pub proof fn lemma_prefix_sum_indicator(a: Seq<int>, r: int, n: int)
    requires
        n >= 0,
        r >= 0,
        forall|i: int| 0 <= i < n ==> a[i] == (if i < r { 1int } else { 0int }),
    ensures
        prefix_sum(a, n) == (if n < r { n } else { r }),
    decreases n,
{
    if n > 0 {
        lemma_prefix_sum_indicator(a, r, n - 1);
    }
}

/// Entries that are 0 everywhere but at `p` sum to the entry at `p` once `p` is passed.
pub proof fn lemma_prefix_sum_single(a: Seq<int>, p: int, n: int)
    requires
        n >= 0,
        forall|i: int| 0 <= i < n && i != p ==> a[i] == 0,
    ensures
        prefix_sum(a, n) == (if p < n && 0 <= p { a[p] } else { 0 }),
    decreases n,
{
    if n > 0 {
        lemma_prefix_sum_single(a, p, n - 1);
    }
}

/// Prefix sums of non-negative entries never decrease.
pub proof fn lemma_prefix_sum_monotonic(a: Seq<int>, i: int, j: int)
    requires
        0 <= i <= j,
        forall|k: int| 0 <= k < j ==> a[k] >= 0,
    ensures
        prefix_sum(a, i) <= prefix_sum(a, j),
    decreases j - i,
{
    if i < j {
        lemma_prefix_sum_monotonic(a, i, j - 1);
    }
}

} // verus!
