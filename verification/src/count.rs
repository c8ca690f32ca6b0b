//! Counting the squares that satisfy a predicate.

use vstd::prelude::*;

verus! {

/// The number of `i` in `0..n` with `f(i)`.
pub open spec fn count(f: spec_fn(int) -> bool, n: int) -> nat
    decreases n,
{
    if n <= 0 {
        0
    } else {
        count(f, n - 1) + (if f(n - 1) {
            1nat
        } else {
            0nat
        })
    }
}

/// 1 if `b` holds, else 0.
pub open spec fn one_if(b: bool) -> int {
    if b {
        1
    } else {
        0
    }
}

pub proof fn lemma_count_bound(f: spec_fn(int) -> bool, n: int)
    requires
        0 <= n,
    ensures
        count(f, n) <= n,
    decreases n,
{
    if n > 0 {
        lemma_count_bound(f, n - 1);
    }
}

/// Predicates that agree below `n` have the same count.
pub proof fn lemma_count_eq(f: spec_fn(int) -> bool, g: spec_fn(int) -> bool, n: int)
    requires
        forall|i: int| 0 <= i < n ==> #[trigger] f(i) == g(i),
    ensures
        count(f, n) == count(g, n),
    decreases n,
{
    if n > 0 {
        lemma_count_eq(f, g, n - 1);
    }
}

/// Predicates that agree below `n` except at `k` have counts that differ by
/// what they say at `k`.
pub proof fn lemma_count_differ_at(f: spec_fn(int) -> bool, g: spec_fn(int) -> bool, n: int, k: int)
    requires
        0 <= k < n,
        forall|i: int| 0 <= i < n && i != k ==> #[trigger] f(i) == g(i),
    ensures
        count(f, n) - one_if(f(k)) == count(g, n) - one_if(g(k)),
    decreases n,
{
    if n - 1 == k {
        lemma_count_eq(f, g, n - 1);
    } else {
        lemma_count_differ_at(f, g, n - 1, k);
    }
}

/// A predicate that holds nowhere below `n` has count 0.
pub proof fn lemma_count_none(f: spec_fn(int) -> bool, n: int)
    requires
        forall|i: int| 0 <= i < n ==> !#[trigger] f(i),
    ensures
        count(f, n) == 0,
    decreases n,
{
    if n > 0 {
        lemma_count_none(f, n - 1);
    }
}

/// The count is positive exactly when the predicate holds somewhere below
/// `n`.
pub proof fn lemma_count_positive(f: spec_fn(int) -> bool, n: int)
    ensures
        count(f, n) > 0 <==> exists|i: int| 0 <= i < n && #[trigger] f(i),
    decreases n,
{
    if n > 0 {
        lemma_count_positive(f, n - 1);
        if f(n - 1) {
            assert(0 <= n - 1 < n && f(n - 1));
        }
        if count(f, n - 1) > 0 {
            let i = choose|i: int| 0 <= i < n - 1 && #[trigger] f(i);
            assert(0 <= i < n && f(i));
        }
    }
}

} // verus!
