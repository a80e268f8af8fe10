//! Counting the indices below a bound that satisfy a predicate.

use vstd::prelude::*;

verus! {

/// Number of indices `i` in `[0, n)` with `p(i)`.
pub open spec fn count_upto(n: int, p: spec_fn(int) -> bool) -> nat
    decreases n,
{
    if n <= 0 {
        0
    } else {
        count_upto(n - 1, p) + (if p(n - 1) { 1nat } else { 0nat })
    }
}

/// The count never exceeds the number of indices.
pub proof fn lemma_count_bound(n: int, p: spec_fn(int) -> bool)
    requires
        0 <= n,
    ensures
        count_upto(n, p) <= n,
    decreases n,
{
    if n > 0 {
        lemma_count_bound(n - 1, p);
    }
}

/// A weaker predicate counts at least as many indices.
pub proof fn lemma_count_mono(n: int, p: spec_fn(int) -> bool, q: spec_fn(int) -> bool)
    requires
        forall|i: int| 0 <= i < n && #[trigger] p(i) ==> q(i),
    ensures
        count_upto(n, p) <= count_upto(n, q),
    decreases n,
{
    if n > 0 {
        lemma_count_mono(n - 1, p, q);
    }
}

/// Predicates that agree below `n` count the same.
pub proof fn lemma_count_ext(n: int, p: spec_fn(int) -> bool, q: spec_fn(int) -> bool)
    requires
        forall|i: int| 0 <= i < n ==> #[trigger] p(i) == q(i),
    ensures
        count_upto(n, p) == count_upto(n, q),
    decreases n,
{
    if n > 0 {
        lemma_count_ext(n - 1, p, q);
    }
}

/// When `p` splits into the disjoint `q` and `w`, the counts add up.
pub proof fn lemma_count_split(
    n: int,
    p: spec_fn(int) -> bool,
    q: spec_fn(int) -> bool,
    w: spec_fn(int) -> bool,
)
    requires
        forall|i: int| 0 <= i < n ==> (#[trigger] p(i) <==> (q(i) || w(i))),
        forall|i: int| 0 <= i < n ==> !(#[trigger] q(i) && w(i)),
    ensures
        count_upto(n, p) == count_upto(n, q) + count_upto(n, w),
    decreases n,
{
    if n > 0 {
        lemma_count_split(n - 1, p, q, w);
    }
}

/// Turning the predicate on at one index where it was off adds one.
pub proof fn lemma_count_flip(n: int, p: spec_fn(int) -> bool, q: spec_fn(int) -> bool, x: int)
    requires
        0 <= x < n,
        !p(x),
        q(x),
        forall|i: int| 0 <= i < n && i != x ==> #[trigger] p(i) == q(i),
    ensures
        count_upto(n, q) == count_upto(n, p) + 1,
    decreases n,
{
    if n - 1 == x {
        lemma_count_ext(n - 1, p, q);
    } else {
        lemma_count_flip(n - 1, p, q, x);
    }
}

/// A predicate that holds nowhere counts zero.
pub proof fn lemma_count_none(n: int, p: spec_fn(int) -> bool)
    requires
        forall|i: int| 0 <= i < n ==> !#[trigger] p(i),
    ensures
        count_upto(n, p) == 0,
    decreases n,
{
    if n > 0 {
        lemma_count_none(n - 1, p);
    }
}

} // verus!
