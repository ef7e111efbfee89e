//! Differences between records of a fixed size.

use vstd::prelude::*;

use crate::bytes::copy_of;
use crate::filter::lag_diff;
use crate::filter::lag_sum;
use crate::filter::law_lag_sum_of_diff;
use crate::filter::take_lag_diff;
use crate::filter::take_lag_sum;
use crate::score::Score;
use crate::score::choose_clearly_lowest;
use crate::score::clearly_lowest;
use crate::score::law_clearly_lowest;
use crate::score::lemma_clearly_lowest;

verus! {

/// The largest record that is looked for.
pub const MAX_STRIDE: usize = 32;

/// Each byte less the one a record before; the data as they are, if they are not
/// made of records of `s` bytes.
pub open spec fn strided(data: Seq<u8>, s: int) -> Seq<u8> {
    if s < 2 || data.len() as int % s != 0 {
        data
    } else {
        lag_diff(data, s)
    }
}

/// What has those differences.
pub open spec fn unstrided(data: Seq<u8>, s: int) -> Seq<u8> {
    if s < 2 || data.len() as int % s != 0 {
        data
    } else {
        lag_sum(data, s)
    }
}

/// Differences between records are reversible.
pub proof fn law_stride_reversible(data: Seq<u8>, s: int)
    ensures
        unstrided(strided(data, s), s) == data,
        strided(data, s).len() == data.len(),
{
    if s >= 2 {
        law_lag_sum_of_diff(data, s);
    }
}

/// Takes the differences between records of `s` bytes.
pub fn stride_delta(data: &[u8], s: usize) -> (out: Vec<u8>)
    requires
        s != 0,
    ensures
        out@ == strided(data@, s as int),
{
    if data.len() % s != 0 || s < 2 {
        copy_of(data)
    } else {
        take_lag_diff(data, s)
    }
}

/// Undoes [`stride_delta`].
pub fn stride_undelta(data: &[u8], s: usize) -> (out: Vec<u8>)
    requires
        s != 0,
    ensures
        out@ == unstrided(data@, s as int),
{
    if data.len() % s != 0 || s < 2 {
        copy_of(data)
    } else {
        take_lag_sum(data, s)
    }
}

/// The strides that are tried on `len` bytes, up to `s`: none, and each of two or
/// more that divides the length.
pub open spec fn strides_upto(len: nat, s: int) -> Seq<usize>
    decreases s,
{
    if s < 2 {
        seq![0]
    } else if len as int % s == 0 {
        strides_upto(len, s - 1).push(s as usize)
    } else {
        strides_upto(len, s - 1)
    }
}

/// The strides that are tried on `len` bytes, in order.
pub open spec fn strides_for(len: nat) -> Seq<usize> {
    strides_upto(len, MAX_STRIDE as int)
}

/// The stride whose differences are clearly less disordered than what was found
/// before it, starting with the data as they are. `scores` are those of the
/// results, in order; one without a score is not considered.
pub open spec fn chosen_stride(len: nat, scores: Seq<Score>) -> usize {
    let all = strides_for(len);
    let n = if scores.len() < all.len() {
        scores.len()
    } else {
        all.len()
    };
    if n == 0 {
        0
    } else {
        all[clearly_lowest(scores, n - 1)]
    }
}

proof fn lemma_strides_upto(len: nat, s: int)
    requires
        s <= MAX_STRIDE,
    ensures
        strides_upto(len, s).len() >= 1,
        forall|i: int|
            0 <= i < strides_upto(len, s).len() ==> #[trigger] strides_upto(len, s)[i] <= MAX_STRIDE,
    decreases s,
{
    if s >= 2 {
        lemma_strides_upto(len, s - 1);
    }
}

/// No stride beyond the limit is chosen.
pub proof fn lemma_chosen_stride(len: nat, scores: Seq<Score>)
    ensures
        chosen_stride(len, scores) <= MAX_STRIDE,
{
    let all = strides_for(len);
    lemma_strides_upto(len, MAX_STRIDE as int);
    let n = if scores.len() < all.len() {
        scores.len()
    } else {
        all.len()
    };
    if n > 0 {
        lemma_clearly_lowest(scores, n - 1);
    }
}

/// The strides to try on `len` bytes; zero stands for the data as they are.
pub fn candidate_strides(len: usize) -> (all: Vec<usize>)
    ensures
        all@ == strides_for(len as nat),
        all@.len() >= 1,
        forall|i: int| 0 <= i < all@.len() ==> #[trigger] all@[i] <= MAX_STRIDE,
{
    let mut all: Vec<usize> = Vec::new();
    all.push(0);
    let mut s: usize = 2;
    assert(all@ =~= seq![0]);
    while s <= MAX_STRIDE
        invariant
            2 <= s <= MAX_STRIDE + 1,
            all@ == strides_upto(len as nat, s - 1),
            all@.len() >= 1,
            forall|i: int| 0 <= i < all@.len() ==> #[trigger] all@[i] <= MAX_STRIDE,
        decreases MAX_STRIDE + 1 - s,
    {
        if len % s == 0 {
            all.push(s);
        }
        s += 1;
    }
    all
}

/// The best stride for `data`, given the scores of the candidates, and the
/// differences; zero and the data themselves, if none is clearly better.
pub fn best_stride(data: &[u8], scores: &[Score]) -> (best: (usize, Vec<u8>))
    ensures
        best.0 == chosen_stride(data@.len(), scores@),
        best.0 <= MAX_STRIDE,
        best.1@ == strided(data@, best.0 as int),
{
    let all = candidate_strides(data.len());
    let n: usize = if scores.len() < all.len() {
        scores.len()
    } else {
        all.len()
    };
    let s: usize = if n == 0 {
        0
    } else {
        all[choose_clearly_lowest(scores, n)]
    };
    if s == 0 {
        (0, copy_of(data))
    } else {
        (s, stride_delta(data, s))
    }
}

/// Each byte behind the first record becomes its difference from the byte a record
/// before it; data that are not made of records stay as they are.
pub proof fn law_strided_differences(data: Seq<u8>, s: int, i: int)
    requires
        0 <= i < data.len(),
    ensures
        strided(data, s)[i] == (if s < 2 || data.len() as int % s != 0 || i < s {
            data[i] as int
        } else {
            (data[i] - data[i - s]) % 256
        }),
{
}

proof fn lemma_strides_listed(len: nat, s: int)
    requires
        s <= 32,
    ensures
        ({
            let all = strides_upto(len, s);
            &&& all.len() >= 1
            &&& all[0] == 0
            &&& forall|i: int|
                0 <= i < all.len() ==> #[trigger] all[i] == 0 || (2 <= all[i] <= s && len as int
                    % all[i] as int == 0)
            &&& forall|i: int, j: int|
                0 <= i < j < all.len() ==> #[trigger] all[i] < #[trigger] all[j]
            &&& forall|t: usize|
                2 <= t <= s && len as int % t as int == 0 ==> #[trigger] all.contains(t)
        }),
    decreases s,
{
    let all = strides_upto(len, s);
    if s >= 2 {
        lemma_strides_listed(len, s - 1);
        let before = strides_upto(len, s - 1);
        assert forall|t: usize| 2 <= t <= s && len as int % t as int == 0 implies #[trigger] all.contains(
            t,
        ) by {
            if t < s {
                assert(before.contains(t));
                let i = choose|i: int| 0 <= i < before.len() && before[i] == t;
                assert(all[i] == t);
            } else {
                assert(all[all.len() - 1] == t);
            }
        }
        assert forall|i: int, j: int| 0 <= i < j < all.len() implies #[trigger] all[i]
            < #[trigger] all[j] by {
            if j < before.len() {
                assert(before[i] < before[j]);
            } else {
                assert(before[i] == 0 || 2 <= before[i] <= s - 1);
            }
        }
    }
}

/// Which strides are tried: none, and each from 2 to 32 that divides the length, in
/// order.
pub proof fn law_strides_tried(len: nat, t: usize)
    ensures
        strides_for(len)[0] == 0,
        strides_for(len).contains(t) <==> t == 0 || (2 <= t <= 32 && len as int % t as int == 0),
        forall|i: int, j: int|
            0 <= i < j < strides_for(len).len() ==> #[trigger] strides_for(len)[i]
                < #[trigger] strides_for(len)[j],
{
    lemma_strides_listed(len, 32);
    assert(strides_for(len).contains(strides_for(len)[0]));
}

/// The stride that is chosen is one of those tried; none behind it is clearly less
/// disordered, and it is clearly less disordered than one before it. Without any score
/// there is none.
pub proof fn law_chosen_stride(len: nat, scores: Seq<Score>)
    ensures
        ({
            let all = strides_for(len);
            let chosen = chosen_stride(len, scores);
            if scores.len() == 0 {
                chosen == 0
            } else {
                exists|c: int|
                    {
                        &&& 0 <= c < scores.len()
                        &&& c < all.len()
                        &&& #[trigger] all[c] == chosen
                        &&& forall|k: int|
                            c < k < scores.len() && k < all.len() ==> (#[trigger] scores[k]).rank
                                >= scores[c].bar
                        &&& c > 0 ==> exists|b: int|
                            0 <= b < c && scores[c].rank < (#[trigger] scores[b]).bar
                    }
            }
        }),
{
    let all = strides_for(len);
    lemma_strides_listed(len, 32);
    let n = if scores.len() < all.len() {
        scores.len()
    } else {
        all.len()
    };
    if n > 0 {
        law_clearly_lowest(scores, n - 1);
        let c = clearly_lowest(scores, n - 1);
        if c > 0 {
            let b = clearly_lowest(scores, c - 1);
            assert(scores[c].rank < scores[b].bar);
        }
        assert(all[c] == chosen_stride(len, scores));
    }
}

} // verus!
