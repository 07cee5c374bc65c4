//! Ceiling integer square root.

use vstd::prelude::*;

verus! {

/// `k` is the least natural number whose square is at least `n`.
pub open spec fn is_ceil_sqrt(n: int, k: int) -> bool {
    &&& 0 <= k
    &&& n <= k * k
    &&& (k == 0 || (k - 1) * (k - 1) < n)
}

/// The least natural number whose square is at least `n`.
pub open spec fn ceil_sqrt(n: int) -> int {
    choose|k: int| is_ceil_sqrt(n, k)
}

proof fn lemma_square_monotone(a: int, b: int)
    requires
        0 <= a <= b,
    ensures
        a * a <= b * b,
{
    assert(a * a <= b * b) by (nonlinear_arith)
        requires
            0 <= a <= b,
    ;
}

/// Every `j` below the ceiling root of `n` has a square below `n`.
pub proof fn lemma_ceil_sqrt_minimal(n: int, k: int, j: int)
    requires
        is_ceil_sqrt(n, k),
        0 <= j < k,
    ensures
        j * j < n,
{
    lemma_square_monotone(j, k - 1);
}

proof fn lemma_ceil_sqrt_exists_from(n: int, k: int)
    requires
        0 <= k <= n + 1,
        k == 0 || (k - 1) * (k - 1) < n,
    ensures
        is_ceil_sqrt(n, ceil_sqrt(n)),
    decreases n + 1 - k,
{
    if n <= k * k {
        assert(is_ceil_sqrt(n, k));
    } else {
        assert(k < n) by (nonlinear_arith)
            requires
                0 <= k,
                k * k < n,
        ;
        lemma_ceil_sqrt_exists_from(n, k + 1);
    }
}

/// Every natural number has a ceiling root, and `ceil_sqrt` is it.
pub proof fn lemma_ceil_sqrt_exists(n: int)
    requires
        0 <= n,
    ensures
        is_ceil_sqrt(n, ceil_sqrt(n)),
{
    lemma_ceil_sqrt_exists_from(n, 0);
}

/// A natural number has at most one ceiling root.
proof fn lemma_ceil_sqrt_unique(n: int, k: int, m: int)
    requires
        is_ceil_sqrt(n, k),
        is_ceil_sqrt(n, m),
    ensures
        k == m,
{
    if k < m {
        lemma_ceil_sqrt_minimal(n, m, k);
    } else if m < k {
        lemma_ceil_sqrt_minimal(n, k, m);
    }
}

/// `ceil_sqrt` names the unique ceiling root.
pub proof fn lemma_ceil_sqrt_is(n: int, k: int)
    requires
        is_ceil_sqrt(n, k),
    ensures
        ceil_sqrt(n) == k,
{
    lemma_ceil_sqrt_unique(n, k, ceil_sqrt(n));
}

/// The root of a perfect square is its base.
pub proof fn lemma_ceil_sqrt_of_square(k: int)
    requires
        0 <= k,
    ensures
        ceil_sqrt(k * k) == k,
{
    if k > 0 {
        lemma_square_monotone(k - 1, k);
        assert((k - 1) * (k - 1) < k * k) by (nonlinear_arith)
            requires
                0 < k,
        ;
    }
    lemma_ceil_sqrt_is(k * k, k);
}

/// The least `k` with `k * k >= number`, found by counting up from zero.
pub fn sqr_root(number: usize) -> (k: usize)
    ensures
        k == ceil_sqrt(number as int),
        is_ceil_sqrt(number as int, k as int),
{
    let mut k: usize = 0;
    assert(usize::MAX <= u64::MAX);
    while (k as u128) * (k as u128) < number as u128
        invariant
            k == 0 || (k - 1) * (k - 1) < number,
            k <= number,
            k * k <= u128::MAX,
        decreases number - k,
    {
        assert(k < number) by (nonlinear_arith)
            requires
                k * k < number,
        ;
        k = k + 1;
        assert(k * k <= u128::MAX) by (nonlinear_arith)
            requires
                k <= usize::MAX,
                usize::MAX <= u64::MAX,
        ;
    }
    proof {
        lemma_ceil_sqrt_is(number as int, k as int);
    }
    k
}

} // verus!
