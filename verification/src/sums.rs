//! Sums of counts and sizes, by which the decoder finds where the records and
//! contents of each table lie.

use vstd::prelude::*;

verus! {

/// The sum of the numbers of `counts`.
pub open spec fn total(counts: Seq<nat>) -> nat
    decreases counts.len(),
{
    if counts.len() == 0 {
        0
    } else {
        total(counts.drop_last()) + counts.last()
    }
}

/// The sum of the first `k + 1` numbers is the sum of the first `k` and the
/// number at index `k`.
pub proof fn lemma_total_step(counts: Seq<nat>, k: int)
    requires
        0 <= k < counts.len(),
    ensures
        total(counts.take(k + 1)) == total(counts.take(k)) + counts[k],
{
    assert(counts.take(k + 1).drop_last() =~= counts.take(k));
}

/// The sum of the first `k` numbers is at most the sum of all.
pub proof fn lemma_total_prefix(counts: Seq<nat>, k: int)
    requires
        0 <= k <= counts.len(),
    ensures
        total(counts.take(k)) <= total(counts),
    decreases counts.len() - k,
{
    if k == counts.len() {
        assert(counts.take(k) =~= counts);
    } else {
        lemma_total_step(counts, k);
        lemma_total_prefix(counts, k + 1);
    }
}

} // verus!
