//! Ranking by descending key, stable among equals.

use vstd::prelude::*;

verus! {

/// Whether index `a` ranks before index `b`: its key is larger, or the keys are
/// equal and it comes first.
pub open spec fn outranks(keys: Seq<i128>, a: int, b: int) -> bool {
    keys[a] > keys[b] || (keys[a] == keys[b] && a < b)
}

/// Whether `order` lists every index from `lo` up to `hi` once, by rank.
pub open spec fn ranks(keys: Seq<i128>, lo: int, hi: int, order: Seq<usize>) -> bool {
    &&& order.len() == hi - lo
    &&& forall|i: int| 0 <= i < order.len() ==> lo <= #[trigger] order[i] < hi
    &&& forall|i: int, j: int|
        0 <= i < j < order.len() ==> outranks(
            keys,
            #[trigger] order[i] as int,
            #[trigger] order[j] as int,
        )
    &&& forall|k: usize| lo <= k < hi ==> #[trigger] order.contains(k)
}

/// The indices of `keys`, by rank.
pub open spec fn ranking(keys: Seq<i128>) -> Seq<usize> {
    choose|order: Seq<usize>| ranks(keys, 0, keys.len() as int, order)
}

/// No two orders rank the same keys.
pub proof fn law_ranking_unique(keys: Seq<i128>, a: Seq<usize>, b: Seq<usize>)
    requires
        ranks(keys, 0, keys.len() as int, a),
        ranks(keys, 0, keys.len() as int, b),
    ensures
        a == b,
{
    lemma_ranking_agrees(keys, a, b, keys.len() as int);
    assert(a =~= b);
}

proof fn lemma_ranking_agrees(keys: Seq<i128>, a: Seq<usize>, b: Seq<usize>, n: int)
    requires
        ranks(keys, 0, keys.len() as int, a),
        ranks(keys, 0, keys.len() as int, b),
        0 <= n <= keys.len(),
    ensures
        forall|i: int| 0 <= i < n ==> a[i] == b[i],
    decreases n,
{
    if n > 0 {
        lemma_ranking_agrees(keys, a, b, n - 1);
        let x = a[n - 1];
        let y = b[n - 1];
        assert(b.contains(x));
        let p = choose|p: int| 0 <= p < b.len() && b[p] == x;
        assert(a.contains(y));
        let q = choose|q: int| 0 <= q < a.len() && a[q] == y;
        if p < n - 1 {
            assert(a[p] == b[p]);
            assert(outranks(keys, a[p] as int, a[n - 1] as int));
        }
        if q < n - 1 {
            assert(a[q] == b[q]);
            assert(outranks(keys, b[q] as int, b[n - 1] as int));
        }
        if p > n - 1 {
            assert(outranks(keys, b[n - 1] as int, b[p] as int));
            if q > n - 1 {
                assert(outranks(keys, a[n - 1] as int, a[q] as int));
            }
        }
    }
}

/// How many of the indices in `order` have a key of at least `key`, up to the first
/// that has not.
spec fn leading(keys: Seq<i128>, order: Seq<usize>, key: i128, n: int) -> int
    decreases order.len() - n,
{
    if n >= order.len() || keys[order[n] as int] < key {
        n
    } else {
        leading(keys, order, key, n + 1)
    }
}

proof fn lemma_leading(keys: Seq<i128>, order: Seq<usize>, key: i128, n: int)
    requires
        0 <= n <= order.len(),
        forall|i: int| 0 <= i < n ==> keys[order[i] as int] >= key,
    ensures
        ({
            let p = leading(keys, order, key, n);
            &&& n <= p <= order.len()
            &&& forall|i: int| 0 <= i < p ==> keys[order[i] as int] >= key
            &&& p < order.len() ==> keys[order[p] as int] < key
        }),
    decreases order.len() - n,
{
    if n < order.len() && keys[order[n] as int] >= key {
        lemma_leading(keys, order, key, n + 1);
    }
}

proof fn lemma_ranking_exists(keys: Seq<i128>, n: int) -> (order: Seq<usize>)
    requires
        0 <= n <= keys.len() <= usize::MAX,
    ensures
        ranks(keys, 0, n, order),
    decreases n,
{
    if n == 0 {
        Seq::empty()
    } else {
        let before = lemma_ranking_exists(keys, n - 1);
        let x = (n - 1) as usize;
        lemma_leading(keys, before, keys[n - 1], 0);
        let p = leading(keys, before, keys[n - 1], 0);
        let order = before.subrange(0, p) + seq![x] + before.subrange(p, n - 1);
        assert forall|k: usize| 0 <= k < n implies #[trigger] order.contains(k) by {
            if k == x {
                assert(order[p] == k);
            } else {
                assert(before.contains(k));
                let i = choose|i: int| 0 <= i < before.len() && before[i] == k;
                if i < p {
                    assert(order[i] == k);
                } else {
                    assert(order[i + 1] == k);
                }
            }
        }
        assert forall|i: int, j: int| 0 <= i < j < order.len() implies outranks(
            keys,
            #[trigger] order[i] as int,
            #[trigger] order[j] as int,
        ) by {
            let bi = if i < p {
                i
            } else {
                i - 1
            };
            let bj = if j < p {
                j
            } else {
                j - 1
            };
            if i != p && j != p {
                assert(outranks(keys, before[bi] as int, before[bj] as int));
            } else if j == p {
                assert(keys[before[i] as int] >= keys[n - 1]);
                assert(before[i] < n - 1);
            } else {
                assert(keys[before[p] as int] < keys[n - 1]);
                if bj > p {
                    assert(outranks(keys, before[p] as int, before[bj] as int));
                }
            }
        }
        order
    }
}

/// The ranking of keys ranks them.
pub proof fn law_ranking(keys: Seq<i128>)
    requires
        keys.len() <= usize::MAX,
    ensures
        ranks(keys, 0, keys.len() as int, ranking(keys)),
{
    let order = lemma_ranking_exists(keys, keys.len() as int);
    assert(ranks(keys, 0, keys.len() as int, order));
}

/// Keys that already descend are ranked in place.
pub proof fn law_ranking_of_descending(keys: Seq<i128>)
    requires
        keys.len() <= usize::MAX,
        forall|i: int, j: int| 0 <= i < j < keys.len() ==> keys[i] >= keys[j],
    ensures
        ranking(keys) == Seq::new(keys.len(), |i: int| i as usize),
{
    let id = Seq::new(keys.len(), |i: int| i as usize);
    assert forall|k: usize| 0 <= k < keys.len() implies #[trigger] id.contains(k) by {
        assert(id[k as int] == k);
    }
    assert(ranks(keys, 0, keys.len() as int, id));
    law_ranking_unique(keys, ranking(keys), id);
}

/// Merges the rankings of two neighbouring ranges.
fn merge(
    keys: &[i128],
    Ghost(lo): Ghost<int>,
    Ghost(mid): Ghost<int>,
    Ghost(hi): Ghost<int>,
    a: Vec<usize>,
    b: Vec<usize>,
) -> (out: Vec<usize>)
    requires
        0 <= lo <= mid <= hi <= keys@.len(),
        ranks(keys@, lo, mid, a@),
        ranks(keys@, mid, hi, b@),
    ensures
        ranks(keys@, lo, hi, out@),
{
    let mut out: Vec<usize> = Vec::with_capacity(a.len());
    let mut i: usize = 0;
    let mut j: usize = 0;
    while i < a.len() || j < b.len()
        invariant
            0 <= lo <= mid <= hi <= keys@.len(),
            ranks(keys@, lo, mid, a@),
            ranks(keys@, mid, hi, b@),
            i <= a@.len(),
            j <= b@.len(),
            out@.len() == i + j,
            forall|k: int| 0 <= k < out@.len() ==> lo <= #[trigger] out@[k] < hi,
            forall|k: int, l: int|
                0 <= k < l < out@.len() ==> outranks(
                    keys@,
                    #[trigger] out@[k] as int,
                    #[trigger] out@[l] as int,
                ),
            forall|k: int, l: int|
                0 <= k < out@.len() && i <= l < a@.len() ==> outranks(
                    keys@,
                    #[trigger] out@[k] as int,
                    #[trigger] a@[l] as int,
                ),
            forall|k: int, l: int|
                0 <= k < out@.len() && j <= l < b@.len() ==> outranks(
                    keys@,
                    #[trigger] out@[k] as int,
                    #[trigger] b@[l] as int,
                ),
            forall|l: int| 0 <= l < i ==> out@.contains(#[trigger] a@[l]),
            forall|l: int| 0 <= l < j ==> out@.contains(#[trigger] b@[l]),
        decreases a@.len() - i + (b@.len() - j),
    {
        let left: bool = if i >= a.len() {
            false
        } else if j >= b.len() {
            true
        } else {
            keys[a[i]] >= keys[b[j]]
        };
        let ghost before = out@;
        if left {
            out.push(a[i]);
            assert(forall|x: usize| before.contains(x) ==> out@.contains(x)) by {
                assert forall|x: usize| before.contains(x) implies out@.contains(x) by {
                    let p = choose|p: int| 0 <= p < before.len() && before[p] == x;
                    assert(out@[p] == x);
                }
            }
            assert(out@[out@.len() - 1] == a@[i as int]);
            i += 1;
        } else {
            out.push(b[j]);
            assert(forall|x: usize| before.contains(x) ==> out@.contains(x)) by {
                assert forall|x: usize| before.contains(x) implies out@.contains(x) by {
                    let p = choose|p: int| 0 <= p < before.len() && before[p] == x;
                    assert(out@[p] == x);
                }
            }
            assert(out@[out@.len() - 1] == b@[j as int]);
            j += 1;
        }
    }
    assert forall|k: usize| lo <= k < hi implies #[trigger] out@.contains(k) by {
        if k < mid {
            assert(a@.contains(k));
            let p = choose|p: int| 0 <= p < a@.len() && a@[p] == k;
            assert(out@.contains(a@[p]));
        } else {
            assert(b@.contains(k));
            let p = choose|p: int| 0 <= p < b@.len() && b@[p] == k;
            assert(out@.contains(b@[p]));
        }
    }
    out
}

fn rank_range(keys: &[i128], lo: usize, hi: usize) -> (out: Vec<usize>)
    requires
        lo <= hi <= keys@.len(),
    ensures
        ranks(keys@, lo as int, hi as int, out@),
    decreases hi - lo,
{
    if hi - lo == 0 {
        Vec::new()
    } else if hi - lo == 1 {
        let mut out: Vec<usize> = Vec::new();
        out.push(lo);
        assert(out@[0] == lo);
        out
    } else {
        let mid: usize = lo + (hi - lo) / 2;
        let a = rank_range(keys, lo, mid);
        let b = rank_range(keys, mid, hi);
        merge(keys, Ghost(lo as int), Ghost(mid as int), Ghost(hi as int), a, b)
    }
}

/// The indices of `keys`, the largest key first, equal keys in the order in which
/// they stand.
pub fn rank(keys: &[i128]) -> (order: Vec<usize>)
    ensures
        order@ == ranking(keys@),
        ranks(keys@, 0, keys@.len() as int, order@),
{
    let order = rank_range(keys, 0, keys.len());
    proof {
        law_ranking_unique(keys@, order@, ranking(keys@));
    }
    order
}

/// A ranking lists each index once, those of greater keys first, and of equal keys
/// the first index first.
pub proof fn law_ranking_descends(keys: Seq<i128>)
    requires
        keys.len() <= usize::MAX,
    ensures
        ({
            let order = ranking(keys);
            &&& order.len() == keys.len()
            &&& order.no_duplicates()
            &&& forall|p: int| 0 <= p < order.len() ==> #[trigger] order[p] < keys.len()
            &&& forall|p: int, q: int|
                0 <= p < q < order.len() ==> {
                    let a = #[trigger] order[p] as int;
                    let b = #[trigger] order[q] as int;
                    keys[a] > keys[b] || (keys[a] == keys[b] && a < b)
                }
        }),
{
    law_ranking(keys);
    let order = ranking(keys);
    assert forall|p: int, q: int| 0 <= p < q < order.len() implies {
        let a = #[trigger] order[p] as int;
        let b = #[trigger] order[q] as int;
        keys[a] > keys[b] || (keys[a] == keys[b] && a < b)
    } by {
        assert(outranks(keys, order[p] as int, order[q] as int));
    }
    assert forall|p: int, q: int|
        0 <= p < order.len() && 0 <= q < order.len() && p != q implies order[p] != order[q] by {
        if p < q {
            assert(outranks(keys, order[p] as int, order[q] as int));
        } else {
            assert(outranks(keys, order[q] as int, order[p] as int));
        }
    }
}

} // verus!
