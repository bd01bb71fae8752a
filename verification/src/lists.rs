//! Positions in lists: which items a selection keeps, and in which order.

use vstd::prelude::*;

verus! {

/// Do the positions strictly ascend, all of them below `n`?
pub open spec fn ascending(at: Seq<int>, n: int) -> bool {
    &&& forall|k: int| 0 <= k < at.len() ==> 0 <= #[trigger] at[k] < n
    &&& forall|j: int, k: int| 0 <= j < k < at.len() ==> #[trigger] at[j] < #[trigger] at[k]
}

/// The next position can follow, or be left out.
pub proof fn lemma_extended(at: Seq<int>, n: int)
    requires
        ascending(at, n),
        0 <= n,
    ensures
        ascending(at, n + 1),
        ascending(at.push(n), n + 1),
        forall|i: int| #[trigger] at.push(n).contains(i) <==> at.contains(i) || i == n,
{
    let more = at.push(n);
    assert forall|i: int| #[trigger] more.contains(i) <==> at.contains(i) || i == n by {
        if at.contains(i) {
            assert(more[at.index_of(i)] == i);
        }
        if i == n {
            assert(more[at.len() as int] == n);
        }
        if more.contains(i) && i != n {
            let k = more.index_of(i);
            assert(at[k] == i);
        }
    }
}

} // verus!
