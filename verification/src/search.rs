//! Exhaustive search for the first candidate of least cost, the shape that
//! every level of key recovery shares.

use vstd::prelude::*;

verus! {

/// The least cost below `limit` among the candidates `0..n`, with the first
/// candidate that has it; `(limit, 0)` if no candidate is below `limit`.
pub open spec fn first_min(cost: spec_fn(int) -> int, n: int, limit: int) -> (int, int)
    decreases n,
{
    if n <= 0 {
        (limit, 0)
    } else {
        let before = first_min(cost, n - 1, limit);
        if cost(n - 1) < before.0 {
            (cost(n - 1), n - 1)
        } else {
            before
        }
    }
}

/// `(best, at)` is the outcome of a search among the candidates `0..n` that
/// starts from `limit`: no candidate costs less than `best`; if `best` is
/// below `limit`, candidate `at` is the first that costs `best`; if none is
/// below `limit`, `best` is `limit` and `at` is 0.
pub open spec fn is_first_min(cost: spec_fn(int) -> int, n: int, limit: int, best: int, at: int) -> bool {
    &&& best <= limit
    &&& forall|k: int| 0 <= k < n ==> best <= #[trigger] cost(k)
    &&& best < limit ==> 0 <= at < n && cost(at) == best && forall|k: int|
        0 <= k < at ==> best < #[trigger] cost(k)
    &&& best == limit ==> at == 0
}

/// `first_min` is the first minimum.
pub proof fn lemma_first_min(cost: spec_fn(int) -> int, n: int, limit: int)
    ensures
        is_first_min(cost, n, limit, first_min(cost, n, limit).0, first_min(cost, n, limit).1),
    decreases n,
{
    if n > 0 {
        lemma_first_min(cost, n - 1, limit);
    }
}

/// The first minimum is unique.
pub proof fn lemma_first_min_unique(cost: spec_fn(int) -> int, n: int, limit: int, best: int, at: int)
    requires
        is_first_min(cost, n, limit, best, at),
    ensures
        (best, at) == first_min(cost, n, limit),
{
    lemma_first_min(cost, n, limit);
    let f = first_min(cost, n, limit);
    if best < limit {
        assert(f.0 <= cost(at));
        if f.0 < limit {
            assert(best <= cost(f.1));
            if at < f.1 {
                assert(f.0 < cost(at));
            } else if f.1 < at {
                assert(best < cost(f.1));
            }
        }
    } else {
        if f.0 < limit {
            assert(best <= cost(f.1));
        }
    }
}

} // verus!
