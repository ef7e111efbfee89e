//! Choosing among candidates by how disordered they are.
//!
//! A candidate is measured by its Shannon entropy, in bits per byte. What the
//! choice depends on is the order of the entropies alone, so a score holds
//! integers that stand in that order.

use vstd::prelude::*;

use crate::tally::occurrences;
use crate::tally::occurrences_in;

verus! {

/// How disordered a candidate is.
#[derive(Clone, Copy, Debug)]
pub struct Score {
    /// Where the entropy stands in the order of all entropies.
    pub rank: i64,
    /// Where the entropy less one twentieth of a bit stands in that order.
    pub bar: i64,
}

/// The first of the candidates up to `k` that no other one of them ranks below.
pub open spec fn lowest(scores: Seq<Score>, k: int) -> int
    decreases k,
{
    if k <= 0 {
        0
    } else {
        let best = lowest(scores, k - 1);
        if scores[k].rank < scores[best].rank {
            k
        } else {
            best
        }
    }
}

/// Of the candidates up to `k`, the one that is left when each in turn replaces the
/// best so far if it ranks below the bar of that one.
pub open spec fn clearly_lowest(scores: Seq<Score>, k: int) -> int
    decreases k,
{
    if k <= 0 {
        0
    } else {
        let best = clearly_lowest(scores, k - 1);
        if scores[k].rank < scores[best].bar {
            k
        } else {
            best
        }
    }
}

/// No candidate ranks below the chosen one, and none before it ranks as low.
pub proof fn law_lowest(scores: Seq<Score>, k: int)
    requires
        0 <= k < scores.len(),
    ensures
        0 <= lowest(scores, k) <= k,
        forall|i: int| 0 <= i <= k ==> scores[lowest(scores, k)].rank <= (#[trigger] scores[i]).rank,
        forall|i: int|
            0 <= i < lowest(scores, k) ==> scores[lowest(scores, k)].rank < (#[trigger] scores[i]).rank,
    decreases k,
{
    if k > 0 {
        law_lowest(scores, k - 1);
    }
}

/// The chosen candidate is one of those considered.
pub proof fn lemma_clearly_lowest(scores: Seq<Score>, k: int)
    requires
        0 <= k,
    ensures
        0 <= clearly_lowest(scores, k) <= k,
    decreases k,
{
    if k > 0 {
        lemma_clearly_lowest(scores, k - 1);
    }
}

/// The lowest of the first `n` candidates, the first of equals.
pub(crate) fn choose_lowest(scores: &[Score], n: usize) -> (best: usize)
    requires
        1 <= n <= scores@.len(),
    ensures
        best == lowest(scores@, n - 1),
        best < n,
{
    let mut best: usize = 0;
    let mut k: usize = 1;
    while k < n
        invariant
            1 <= k <= n <= scores@.len(),
            best < k,
            best == lowest(scores@, k - 1),
        decreases n - k,
    {
        if scores[k].rank < scores[best].rank {
            best = k;
        }
        k += 1;
    }
    best
}

/// The clearly lowest of the first `n` candidates.
pub(crate) fn choose_clearly_lowest(scores: &[Score], n: usize) -> (best: usize)
    requires
        1 <= n <= scores@.len(),
    ensures
        best == clearly_lowest(scores@, n - 1),
        best < n,
{
    let mut best: usize = 0;
    let mut k: usize = 1;
    while k < n
        invariant
            1 <= k <= n <= scores@.len(),
            best < k,
            best == clearly_lowest(scores@, k - 1),
        decreases n - k,
    {
        if scores[k].rank < scores[best].bar {
            best = k;
        }
        k += 1;
    }
    best
}

/// How often each byte occurs in `data`: what its entropy is computed from.
pub fn byte_counts(data: &[u8]) -> (counts: Vec<u64>)
    ensures
        counts@.len() == 256,
        forall|b: u8| #[trigger] counts@[b as int] == occurrences(data@, b),
{
    let mut counts: Vec<u64> = Vec::with_capacity(256);
    while counts.len() < 256
        invariant
            counts@.len() <= 256,
            forall|b: int| 0 <= b < counts@.len() ==> counts@[b] == 0,
        decreases 256 - counts@.len(),
    {
        counts.push(0);
    }
    let mut i: usize = 0;
    while i < data.len()
        invariant
            i <= data@.len(),
            counts@.len() == 256,
            forall|b: u8| #[trigger] counts@[b as int] == occurrences_in(data@, b, i as int),
            forall|b: u8| #[trigger] counts@[b as int] <= i,
        decreases data@.len() - i,
    {
        let at: usize = data[i] as usize;
        let ghost before = counts@;
        assert(before[data@[i as int] as int] <= i);
        counts.set(at, counts[at] + 1);
        assert forall|b: u8| #[trigger] counts@[b as int] == occurrences_in(data@, b, i + 1)
            && counts@[b as int] <= i + 1 by {
            assert(before[b as int] == occurrences_in(data@, b, i as int));
            assert(before[b as int] <= i);
        }
        i += 1;
    }
    counts
}

/// No candidate behind the chosen one ranks below its bar, and it ranks below the bar of
/// the one that was best before it.
pub proof fn law_clearly_lowest(scores: Seq<Score>, k: int)
    requires
        0 <= k < scores.len(),
    ensures
        ({
            let c = clearly_lowest(scores, k);
            &&& 0 <= c <= k
            &&& forall|i: int| c < i <= k ==> (#[trigger] scores[i]).rank >= scores[c].bar
            &&& c > 0 ==> scores[c].rank < scores[clearly_lowest(scores, c - 1)].bar
            &&& c > 0 ==> 0 <= clearly_lowest(scores, c - 1) < c
        }),
    decreases k,
{
    if k > 0 {
        law_clearly_lowest(scores, k - 1);
        lemma_clearly_lowest(scores, k - 1);
    }
}

} // verus!
