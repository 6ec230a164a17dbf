//! Linear searches over integer ranges.

use vstd::prelude::*;

verus! {

/// The least `k` with `i <= k < n` that satisfies `p`.
pub open spec fn first_from(i: int, n: int, p: spec_fn(int) -> bool) -> Option<int>
    decreases n - i,
{
    if i >= n {
        None
    } else if p(i) {
        Some(i)
    } else {
        first_from(i + 1, n, p)
    }
}

/// The greatest `k` with `0 <= k < n` that satisfies `p`.
pub open spec fn last_before(n: int, p: spec_fn(int) -> bool) -> Option<int>
    decreases n,
{
    if n <= 0 {
        None
    } else if p(n - 1) {
        Some(n - 1)
    } else {
        last_before(n - 1, p)
    }
}

/// A search from below stops at the first hit, and reports none only where there is none.
pub proof fn lemma_first_from(i: int, n: int, p: spec_fn(int) -> bool)
    ensures
        match first_from(i, n, p) {
            Some(k) => i <= k < n && p(k) && forall|j: int| i <= j < k ==> !#[trigger] p(j),
            None => forall|j: int| i <= j < n ==> !#[trigger] p(j),
        },
    decreases n - i,
{
    if i < n && !p(i) {
        lemma_first_from(i + 1, n, p);
    }
}

/// A search from above stops at the last hit, and reports none only where there is none.
pub proof fn lemma_last_before(n: int, p: spec_fn(int) -> bool)
    ensures
        match last_before(n, p) {
            Some(k) => 0 <= k < n && p(k) && forall|j: int| k < j < n ==> !#[trigger] p(j),
            None => forall|j: int| 0 <= j < n ==> !#[trigger] p(j),
        },
    decreases n,
{
    if n > 0 && !p(n - 1) {
        lemma_last_before(n - 1, p);
    }
}

} // verus!
