//! Reversible delta filters, and the choice among them.

use vstd::prelude::*;

use crate::score::Score;
use crate::score::choose_lowest;
use crate::score::law_lowest;
use crate::score::lowest;
use crate::bytes::copy_of;

verus! {

/// A reversible transformation applied to the bytes before they are encoded.
#[derive(Clone, Copy, Debug, PartialEq, Eq, Structural)]
pub enum Filter {
    /// The bytes as they are.
    Identity,
    /// Each byte less the one before it.
    Delta1,
    /// Each big-endian 16-bit word less the one before it.
    Delta2,
    /// Each byte less the one of the same channel, three channels interleaved.
    DeltaRgb,
    /// Each byte less the one of the same channel, four channels interleaved.
    DeltaRgba,
}

/// The byte that stands for a filter in a stream.
pub open spec fn filter_code(f: Filter) -> u8 {
    match f {
        Filter::Identity => 0,
        Filter::Delta1 => 1,
        Filter::Delta2 => 2,
        Filter::DeltaRgb => 3,
        Filter::DeltaRgba => 4,
    }
}

/// The filter that a byte of a stream stands for; an unknown byte is no filter.
pub open spec fn filter_of(code: u8) -> Filter {
    if code == 1 {
        Filter::Delta1
    } else if code == 2 {
        Filter::Delta2
    } else if code == 3 {
        Filter::DeltaRgb
    } else if code == 4 {
        Filter::DeltaRgba
    } else {
        Filter::Identity
    }
}

impl Filter {
    /// The filter that a byte of a stream stands for.
    pub fn from_u8(v: u8) -> (f: Filter)
        ensures
            f == filter_of(v),
    {
        if v == 1 {
            Filter::Delta1
        } else if v == 2 {
            Filter::Delta2
        } else if v == 3 {
            Filter::DeltaRgb
        } else if v == 4 {
            Filter::DeltaRgba
        } else {
            Filter::Identity
        }
    }

    /// The byte that stands for this filter in a stream.
    pub fn code(self) -> (v: u8)
        ensures
            v == filter_code(self),
    {
        match self {
            Filter::Identity => 0,
            Filter::Delta1 => 1,
            Filter::Delta2 => 2,
            Filter::DeltaRgb => 3,
            Filter::DeltaRgba => 4,
        }
    }
}

/// The code of a filter names that filter.
pub proof fn law_filter_code_round_trip(f: Filter)
    ensures
        filter_of(filter_code(f)) == f,
{
}

/// `a - b`, modulo 256.
pub open spec fn byte_minus(a: u8, b: u8) -> u8 {
    ((a - b) % 256) as u8
}

/// `a + b`, modulo 256.
pub open spec fn byte_plus(a: u8, b: u8) -> u8 {
    ((a + b) % 256) as u8
}

/// Each byte less the one `lag` before it; the first `lag` bytes stay.
pub open spec fn lag_diff(data: Seq<u8>, lag: int) -> Seq<u8> {
    Seq::new(
        data.len(),
        |i: int|
            if i < lag {
                data[i]
            } else {
                byte_minus(data[i], data[i - lag])
            },
    )
}

/// The byte at `i` of what [`lag_diff`] was taken of.
pub open spec fn lag_sum_at(data: Seq<u8>, lag: int, i: int) -> u8
    decreases i,
{
    if lag < 1 || i < lag {
        data[i]
    } else {
        byte_plus(data[i], lag_sum_at(data, lag, i - lag))
    }
}

/// What [`lag_diff`] was taken of.
pub open spec fn lag_sum(data: Seq<u8>, lag: int) -> Seq<u8> {
    Seq::new(data.len(), |i: int| lag_sum_at(data, lag, i))
}

/// Taking differences and summing them up again leaves the bytes as they were.
pub proof fn law_lag_sum_of_diff(data: Seq<u8>, lag: int)
    requires
        lag >= 1,
    ensures
        lag_sum(lag_diff(data, lag), lag) == data,
{
    assert forall|i: int| 0 <= i < data.len() implies lag_sum_at(lag_diff(data, lag), lag, i)
        == data[i] by {
        lemma_lag_sum_of_diff_at(data, lag, i);
    }
    assert(lag_sum(lag_diff(data, lag), lag) =~= data);
}

proof fn lemma_lag_sum_of_diff_at(data: Seq<u8>, lag: int, i: int)
    requires
        lag >= 1,
        0 <= i < data.len(),
    ensures
        lag_sum_at(lag_diff(data, lag), lag, i) == data[i],
    decreases i,
{
    if i >= lag {
        lemma_lag_sum_of_diff_at(data, lag, i - lag);
    }
}

/// Summing up and taking differences again leaves the bytes as they were.
pub proof fn law_lag_diff_of_sum(data: Seq<u8>, lag: int)
    requires
        lag >= 1,
    ensures
        lag_diff(lag_sum(data, lag), lag) == data,
{
    assert(lag_diff(lag_sum(data, lag), lag) =~= data);
}

/// The `i`th big-endian 16-bit word.
pub open spec fn word_at(data: Seq<u8>, i: int) -> int {
    data[2 * i] * 256 + data[2 * i + 1]
}

/// The byte at `j` of the big-endian words that `word` gives.
pub open spec fn byte_of_words(word: spec_fn(int) -> int, j: int) -> u8 {
    if j % 2 == 0 {
        (word(j / 2) / 256) as u8
    } else {
        (word(j / 2) % 256) as u8
    }
}

/// The `i`th word less the one before it, modulo 65536.
pub open spec fn word_diff_at(data: Seq<u8>, i: int) -> int {
    if i == 0 {
        word_at(data, 0)
    } else {
        (word_at(data, i) - word_at(data, i - 1)) % 65536
    }
}

/// The sum of the words up to the `i`th, modulo 65536.
pub open spec fn word_sum_at(data: Seq<u8>, i: int) -> int
    decreases i,
{
    if i <= 0 {
        word_at(data, 0)
    } else {
        (word_at(data, i) + word_sum_at(data, i - 1)) % 65536
    }
}

/// Each 16-bit word less the one before it.
pub open spec fn words_diff(data: Seq<u8>) -> Seq<u8> {
    Seq::new(data.len(), |j: int| byte_of_words(|i: int| word_diff_at(data, i), j))
}

/// What [`words_diff`] was taken of.
pub open spec fn words_sum(data: Seq<u8>) -> Seq<u8> {
    Seq::new(data.len(), |j: int| byte_of_words(|i: int| word_sum_at(data, i), j))
}

/// Taking word differences and summing them up again leaves the bytes as they were.
pub proof fn law_words_sum_of_diff(data: Seq<u8>)
    requires
        data.len() % 2 == 0,
    ensures
        words_sum(words_diff(data)) == data,
{
    let d = words_diff(data);
    assert forall|j: int| 0 <= j < data.len() implies words_sum(d)[j] == data[j] by {
        lemma_word_sum_of_diff_at(data, j / 2);
        let word = word_at(data, j / 2);
        assert(words_sum(d)[j] == byte_of_words(|i: int| word_sum_at(d, i), j));
        if j % 2 == 0 {
            assert(word / 256 == data[j]);
        } else {
            assert(word % 256 == data[j]);
        }
    }
    assert(words_sum(d) =~= data);
}

proof fn lemma_word_range(data: Seq<u8>, i: int)
    ensures
        0 <= word_at(data, i) < 65536,
        0 <= word_diff_at(data, i) < 65536,
{
    let a = word_at(data, i);
    let b = word_at(data, i - 1);
    assert(0 <= (a - b) % 65536 < 65536);
}

proof fn lemma_word_of_diff(data: Seq<u8>, i: int)
    requires
        0 <= i,
        2 * i + 1 < data.len(),
    ensures
        word_at(words_diff(data), i) == word_diff_at(data, i),
{
    let word = |k: int| word_diff_at(data, k);
    let w = word_diff_at(data, i);
    lemma_word_range(data, i);
    assert(words_diff(data)[2 * i] == byte_of_words(word, 2 * i));
    assert(words_diff(data)[2 * i + 1] == byte_of_words(word, 2 * i + 1));
    assert(byte_of_words(word, 2 * i) == w / 256);
    assert(byte_of_words(word, 2 * i + 1) == w % 256);
}

proof fn lemma_add_back(a: int, b: int)
    requires
        0 <= a < 65536,
    ensures
        ((a - b) % 65536 + b) % 65536 == a,
{
}

proof fn lemma_word_sum_of_diff_at(data: Seq<u8>, i: int)
    requires
        data.len() % 2 == 0,
        0 <= 2 * i < data.len(),
    ensures
        word_sum_at(words_diff(data), i) == word_at(data, i),
    decreases i,
{
    let d = words_diff(data);
    lemma_word_of_diff(data, i);
    if i > 0 {
        lemma_word_sum_of_diff_at(data, i - 1);
        let before = word_sum_at(d, i - 1);
        assert(word_sum_at(d, i) == (word_diff_at(data, i) + before) % 65536);
        lemma_word_range(data, i);
        lemma_add_back(word_at(data, i), before);
    } else {
        assert(word_sum_at(d, i) == word_at(d, 0));
    }
}

/// The bytes that a filter makes of `data`. Data that does not divide into the
/// filter's units is left as it is.
pub open spec fn filtered(data: Seq<u8>, f: Filter) -> Seq<u8> {
    match f {
        Filter::Identity => data,
        Filter::Delta1 => lag_diff(data, 1),
        Filter::Delta2 => if data.len() % 2 == 0 {
            words_diff(data)
        } else {
            data
        },
        Filter::DeltaRgb => channel_diff(data, 3),
        Filter::DeltaRgba => channel_diff(data, 4),
    }
}

/// The bytes that a filter made `data` of.
pub open spec fn unfiltered(data: Seq<u8>, f: Filter) -> Seq<u8> {
    match f {
        Filter::Identity => data,
        Filter::Delta1 => lag_sum(data, 1),
        Filter::Delta2 => if data.len() % 2 == 0 {
            words_sum(data)
        } else {
            data
        },
        Filter::DeltaRgb => channel_sum(data, 3),
        Filter::DeltaRgba => channel_sum(data, 4),
    }
}

/// The differences within each of `ch` interleaved channels.
pub open spec fn channel_diff(data: Seq<u8>, ch: int) -> Seq<u8> {
    if data.len() as int % ch == 0 {
        lag_diff(data, ch)
    } else {
        data
    }
}

/// What [`channel_diff`] was taken of.
pub open spec fn channel_sum(data: Seq<u8>, ch: int) -> Seq<u8> {
    if data.len() as int % ch == 0 {
        lag_sum(data, ch)
    } else {
        data
    }
}

/// Every filter can be reversed.
pub proof fn law_filter_reversible(data: Seq<u8>, f: Filter)
    ensures
        unfiltered(filtered(data, f), f) == data,
        filtered(data, f).len() == data.len(),
{
    match f {
        Filter::Identity => {},
        Filter::Delta1 => {
            law_lag_sum_of_diff(data, 1);
        },
        Filter::Delta2 => {
            if data.len() % 2 == 0 {
                law_words_sum_of_diff(data);
            }
        },
        Filter::DeltaRgb => {
            law_lag_sum_of_diff(data, 3);
        },
        Filter::DeltaRgba => {
            law_lag_sum_of_diff(data, 4);
        },
    }
}

/// Each byte less the one `lag` before it.
pub(crate) fn take_lag_diff(data: &[u8], lag: usize) -> (out: Vec<u8>)
    requires
        lag >= 1,
    ensures
        out@ == lag_diff(data@, lag as int),
{
    let mut out: Vec<u8> = Vec::with_capacity(data.len());
    let mut i: usize = 0;
    while i < data.len()
        invariant
            lag >= 1,
            i <= data@.len(),
            out@ == lag_diff(data@, lag as int).subrange(0, i as int),
        decreases data@.len() - i,
    {
        if i < lag {
            out.push(data[i]);
        } else {
            out.push(data[i].wrapping_sub(data[i - lag]));
        }
        i += 1;
        assert(out@ =~= lag_diff(data@, lag as int).subrange(0, i as int));
    }
    assert(out@ =~= lag_diff(data@, lag as int));
    out
}

/// What [`take_lag_diff`] was applied to.
pub(crate) fn take_lag_sum(data: &[u8], lag: usize) -> (out: Vec<u8>)
    requires
        lag >= 1,
    ensures
        out@ == lag_sum(data@, lag as int),
{
    let mut out: Vec<u8> = Vec::with_capacity(data.len());
    let mut i: usize = 0;
    while i < data.len()
        invariant
            lag >= 1,
            i <= data@.len(),
            out@ == lag_sum(data@, lag as int).subrange(0, i as int),
        decreases data@.len() - i,
    {
        if i < lag {
            out.push(data[i]);
        } else {
            let prev: u8 = out[i - lag];
            out.push(data[i].wrapping_add(prev));
        }
        i += 1;
        assert(out@ =~= lag_sum(data@, lag as int).subrange(0, i as int));
    }
    assert(out@ =~= lag_sum(data@, lag as int));
    out
}

/// Each byte less the one before it.
pub fn delta1(data: &[u8]) -> (out: Vec<u8>)
    ensures
        out@ == lag_diff(data@, 1),
{
    take_lag_diff(data, 1)
}

/// Reverses [`delta1`].
pub fn undelta1(data: &[u8]) -> (out: Vec<u8>)
    ensures
        out@ == lag_sum(data@, 1),
{
    take_lag_sum(data, 1)
}

/// Each big-endian 16-bit word less the one before it; data of odd length stays.
pub fn delta2(data: &[u8]) -> (out: Vec<u8>)
    ensures
        out@ == filtered(data@, Filter::Delta2),
{
    if data.len() % 2 != 0 {
        return copy_of(data);
    }
    let mut out: Vec<u8> = Vec::with_capacity(data.len());
    let mut prev: u16 = 0;
    let mut i: usize = 0;
    while i < data.len()
        invariant
            data@.len() % 2 == 0,
            i <= data@.len(),
            i % 2 == 0,
            i == 0 ==> prev == 0,
            i > 0 ==> prev == word_at(data@, i as int / 2 - 1),
            out@ == words_diff(data@).subrange(0, i as int),
        decreases data@.len() - i,
    {
        let word: u16 = (data[i] as u16) * 256 + data[i + 1] as u16;
        let diff: u16 = word.wrapping_sub(prev);
        let ghost k = i as int / 2;
        assert(2 * k == i && (i + 1) / 2 == k && (i + 1) % 2 == 1);
        assert(word == word_at(data@, k));
        assert(diff == word_diff_at(data@, k));
        out.push((diff / 256) as u8);
        out.push((diff % 256) as u8);
        prev = word;
        i += 2;
        assert(words_diff(data@)[i - 2] == (diff / 256) as u8);
        assert(words_diff(data@)[i - 1] == (diff % 256) as u8);
        assert(out@ =~= words_diff(data@).subrange(0, i as int));
    }
    assert(out@ =~= words_diff(data@));
    out
}

/// Reverses [`delta2`].
pub fn undelta2(data: &[u8]) -> (out: Vec<u8>)
    ensures
        out@ == unfiltered(data@, Filter::Delta2),
{
    if data.len() % 2 != 0 {
        return copy_of(data);
    }
    let mut out: Vec<u8> = Vec::with_capacity(data.len());
    let mut prev: u16 = 0;
    let mut i: usize = 0;
    while i < data.len()
        invariant
            data@.len() % 2 == 0,
            i <= data@.len(),
            i % 2 == 0,
            i == 0 ==> prev == 0,
            i > 0 ==> prev == word_sum_at(data@, i as int / 2 - 1),
            out@ == words_sum(data@).subrange(0, i as int),
        decreases data@.len() - i,
    {
        let word: u16 = (data[i] as u16) * 256 + data[i + 1] as u16;
        let sum: u16 = word.wrapping_add(prev);
        let ghost k = i as int / 2;
        assert(2 * k == i && (i + 1) / 2 == k && (i + 1) % 2 == 1);
        assert(word == word_at(data@, k));
        assert(sum == word_sum_at(data@, k));
        out.push((sum / 256) as u8);
        out.push((sum % 256) as u8);
        prev = sum;
        i += 2;
        assert(words_sum(data@)[i - 2] == (sum / 256) as u8);
        assert(words_sum(data@)[i - 1] == (sum % 256) as u8);
        assert(out@ =~= words_sum(data@).subrange(0, i as int));
    }
    assert(out@ =~= words_sum(data@));
    out
}

/// The differences within each of `ch` interleaved channels; data that does not
/// divide into `ch` channels stays.
pub fn delta_ch(data: &[u8], ch: usize) -> (out: Vec<u8>)
    requires
        ch >= 1,
    ensures
        out@ == channel_diff(data@, ch as int),
{
    if data.len() % ch != 0 {
        return copy_of(data);
    }
    take_lag_diff(data, ch)
}

/// Reverses [`delta_ch`].
pub fn undelta_ch(data: &[u8], ch: usize) -> (out: Vec<u8>)
    requires
        ch >= 1,
    ensures
        out@ == channel_sum(data@, ch as int),
{
    if data.len() % ch != 0 {
        return copy_of(data);
    }
    take_lag_sum(data, ch)
}

/// Applies a filter.
pub fn apply_filter(data: &[u8], f: Filter) -> (out: Vec<u8>)
    ensures
        out@ == filtered(data@, f),
{
    match f {
        Filter::Identity => copy_of(data),
        Filter::Delta1 => delta1(data),
        Filter::Delta2 => delta2(data),
        Filter::DeltaRgb => delta_ch(data, 3),
        Filter::DeltaRgba => delta_ch(data, 4),
    }
}

/// Reverses a filter.
pub fn reverse_filter(data: &[u8], f: Filter) -> (out: Vec<u8>)
    ensures
        out@ == unfiltered(data@, f),
{
    match f {
        Filter::Identity => copy_of(data),
        Filter::Delta1 => undelta1(data),
        Filter::Delta2 => undelta2(data),
        Filter::DeltaRgb => undelta_ch(data, 3),
        Filter::DeltaRgba => undelta_ch(data, 4),
    }
}

/// The filters that are tried on `len` bytes of so many channels, in order.
pub open spec fn filters_for(len: nat, channels: u8) -> Seq<Filter> {
    let plain = seq![Filter::Identity, Filter::Delta1];
    let words = if len % 2 == 0 {
        plain.push(Filter::Delta2)
    } else {
        plain
    };
    if channels == 3 && len % 3 == 0 {
        words.push(Filter::DeltaRgb)
    } else if channels == 4 && len % 4 == 0 {
        words.push(Filter::DeltaRgba)
    } else {
        words
    }
}

/// The filter whose result is least disordered, the first of equals. `scores` are
/// those of the results, in order; one without a score is not considered.
pub open spec fn chosen_filter(len: nat, channels: u8, scores: Seq<Score>) -> Filter {
    let all = filters_for(len, channels);
    let n = if scores.len() < all.len() {
        scores.len()
    } else {
        all.len()
    };
    if n == 0 {
        Filter::Identity
    } else {
        all[lowest(scores, n - 1)]
    }
}

/// The filters to try on `len` bytes of so many channels.
pub fn candidate_filters(len: usize, channels: u8) -> (all: Vec<Filter>)
    ensures
        all@ == filters_for(len as nat, channels),
{
    let mut all: Vec<Filter> = Vec::with_capacity(4);
    all.push(Filter::Identity);
    all.push(Filter::Delta1);
    if len % 2 == 0 {
        all.push(Filter::Delta2);
    }
    if channels == 3 && len % 3 == 0 {
        all.push(Filter::DeltaRgb);
    }
    if channels == 4 && len % 4 == 0 {
        all.push(Filter::DeltaRgba);
    }
    assert(all@ =~= filters_for(len as nat, channels));
    all
}

/// The best filter for `data`, given the scores of the candidates, and the filtered
/// data.
pub fn best_filter(data: &[u8], channels: u8, scores: &[Score]) -> (best: (Filter, Vec<u8>))
    ensures
        best.0 == chosen_filter(data@.len(), channels, scores@),
        best.1@ == filtered(data@, best.0),
{
    let all = candidate_filters(data.len(), channels);
    let n: usize = if scores.len() < all.len() {
        scores.len()
    } else {
        all.len()
    };
    let f = if n == 0 {
        Filter::Identity
    } else {
        all[choose_lowest(scores, n)]
    };
    (f, apply_filter(data, f))
}

/// What each filter makes of each byte: the difference from the byte before it, from
/// the byte of the same channel before it, or none. Data that do not divide into
/// channels stay as they are.
pub proof fn law_filter_differences(data: Seq<u8>, i: int)
    requires
        0 <= i < data.len(),
    ensures
        filtered(data, Filter::Identity) == data,
        filtered(data, Filter::Delta1)[i] == (if i < 1 {
            data[i] as int
        } else {
            (data[i] - data[i - 1]) % 256
        }),
        filtered(data, Filter::DeltaRgb)[i] == (if i < 3 || data.len() % 3 != 0 {
            data[i] as int
        } else {
            (data[i] - data[i - 3]) % 256
        }),
        filtered(data, Filter::DeltaRgba)[i] == (if i < 4 || data.len() % 4 != 0 {
            data[i] as int
        } else {
            (data[i] - data[i - 4]) % 256
        }),
        data.len() % 2 != 0 ==> filtered(data, Filter::Delta2) == data,
{
}

/// The word filter makes of each big-endian word its difference from the one before it.
pub proof fn law_filter_word_differences(data: Seq<u8>, k: int)
    requires
        data.len() % 2 == 0,
        0 <= 2 * k < data.len(),
    ensures
        ({
            let out = filtered(data, Filter::Delta2);
            let here = 256 * data[2 * k] + data[2 * k + 1];
            256 * out[2 * k] + out[2 * k + 1] == (if k == 0 {
                here
            } else {
                (here - (256 * data[2 * k - 2] + data[2 * k - 1])) % 65536
            })
        }),
{
    lemma_word_of_diff(data, k);
    assert(2 * (k - 1) == 2 * k - 2);
}

/// Which filters are tried: none, bytes, words if there is an even number of bytes, and
/// channels if three or four are asked for and the bytes divide into them; each once,
/// in this order.
pub proof fn law_filters_tried(len: nat, channels: u8)
    ensures
        ({
            let all = filters_for(len, channels);
            &&& all[0] == Filter::Identity
            &&& all[1] == Filter::Delta1
            &&& len % 2 == 0 ==> all[2] == Filter::Delta2
            &&& channels == 3 && len % 3 == 0 ==> all.last() == Filter::DeltaRgb
            &&& channels == 4 && len % 4 == 0 ==> all.last() == Filter::DeltaRgba
            &&& all.len() == 2 + (if len % 2 == 0 {
                1int
            } else {
                0int
            }) + (if (channels == 3 && len % 3 == 0) || (channels == 4 && len % 4 == 0) {
                1int
            } else {
                0int
            })
        }),
{
}

/// The filter that is chosen is the first of those tried whose result none is less
/// disordered than, of those that have a score; without any score there is none.
pub proof fn law_chosen_filter(len: nat, channels: u8, scores: Seq<Score>)
    ensures
        ({
            let all = filters_for(len, channels);
            let chosen = chosen_filter(len, channels, scores);
            if scores.len() == 0 {
                chosen == Filter::Identity
            } else {
                exists|c: int|
                    0 <= c < scores.len() && c < all.len() && #[trigger] all[c] == chosen && (
                    forall|k: int|
                        0 <= k < scores.len() && k < all.len() ==> scores[c].rank
                            <= (#[trigger] scores[k]).rank && (k < c ==> scores[c].rank
                            < scores[k].rank))
            }
        }),
{
    let all = filters_for(len, channels);
    let n = if scores.len() < all.len() {
        scores.len()
    } else {
        all.len()
    };
    if n > 0 {
        law_lowest(scores, n - 1);
        assert(all[lowest(scores, n - 1)] == chosen_filter(len, channels, scores));
    }
}

/// A byte that stands for no filter leaves the data as they are.
pub proof fn law_unknown_filter(code: u8)
    ensures
        code == 0 || code > 4 ==> filter_of(code) == Filter::Identity,
{
}

} // verus!
