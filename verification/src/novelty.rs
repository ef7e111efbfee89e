//! What becomes of data in which nothing recurs.

use vstd::prelude::*;

use crate::compound::MAX_PASSES;
use crate::compound::frequent;
use crate::compound::frequent_before;
use crate::compound::neighbours;
use crate::compound::passes;
use crate::dfa::Rule;
use crate::dfa::generated;
use crate::encode::encoded;
use crate::encode::longest_match;
use crate::library::Entry;
use crate::library::Library;
use crate::library::empty_library;
use crate::library::find;
use crate::library::lemma_find_from;
use crate::library::rule_added;
use crate::patterns::candidates;
use crate::patterns::candidates_before;
use crate::patterns::candidates_below;
use crate::patterns::first_library;
use crate::patterns::pattern_limit;
use crate::patterns::selected;
use crate::patterns::windows;
use crate::stream::axiomatized;
use crate::tally::occurrences_in;

verus! {

/// The bytes of `data` in pairs of neighbours.
pub open spec fn byte_pairs(data: Seq<u8>) -> Seq<(u8, u8)> {
    Seq::new(
        if data.len() == 0 {
            0
        } else {
            (data.len() - 1) as nat
        },
        |i: int| (data[i], data[i + 1]),
    )
}

/// Whether no two bytes follow each other at more than one place.
pub open spec fn nothing_recurs(data: Seq<u8>) -> bool {
    all_differ(byte_pairs(data))
}

/// Whether no item occurs twice.
pub open spec fn all_differ<T>(s: Seq<T>) -> bool {
    forall|i: int, j: int| 0 <= i < j < s.len() ==> #[trigger] s[i] != #[trigger] s[j]
}

proof fn lemma_occurs_once<T>(s: Seq<T>, x: T, n: int)
    requires
        all_differ(s),
        n <= s.len(),
    ensures
        occurrences_in(s, x, n) <= 1,
        occurrences_in(s, x, n) == 1 ==> exists|i: int| 0 <= i < n && s[i] == x,
    decreases n,
{
    if n > 0 {
        lemma_occurs_once(s, x, n - 1);
        if s[n - 1] == x && occurrences_in(s, x, n - 1) == 1 {
            let i = choose|i: int| 0 <= i < n - 1 && s[i] == x;
            assert(s[i] != s[n - 1]);
        }
    }
}

proof fn lemma_windows_differ(data: Seq<u8>, len: int)
    requires
        nothing_recurs(data),
        2 <= len <= data.len(),
    ensures
        all_differ(windows(data, len)),
{
    let w = windows(data, len);
    assert forall|i: int, j: int| 0 <= i < j < w.len() implies #[trigger] w[i] != #[trigger] w[j] by {
        assert(byte_pairs(data)[i] != byte_pairs(data)[j]);
        assert(w[i][0] == data[i] && w[i][1] == data[i + 1]);
        assert(w[j][0] == data[j] && w[j][1] == data[j + 1]);
    }
}

proof fn lemma_no_candidates_before(data: Seq<u8>, len: int, n: int)
    requires
        nothing_recurs(data),
        2 <= len <= data.len(),
        n <= data.len() - len + 1,
    ensures
        candidates_before(data, len, n).len() == 0,
    decreases n,
{
    if n > 0 {
        lemma_no_candidates_before(data, len, n - 1);
        let w = windows(data, len);
        lemma_windows_differ(data, len);
        lemma_occurs_once(w, w[n - 1], w.len() as int);
    }
}

proof fn lemma_no_candidates_below(data: Seq<u8>, len: int)
    requires
        nothing_recurs(data),
        len <= data.len() + 1,
    ensures
        candidates_below(data, len).len() == 0,
    decreases len,
{
    if len > 2 {
        lemma_no_candidates_below(data, len - 1);
        lemma_no_candidates_before(data, len - 1, data.len() - (len - 1) + 1);
    }
}

/// Whether each axiom of a library stands for a single byte, and no two for the same.
pub open spec fn single_bytes(lib: Library) -> bool {
    &&& lib.entries.len() == lib.bytes.len()
    &&& forall|k: int|
        0 <= k < lib.bytes.len() ==> (#[trigger] lib.bytes[k]).len() == 1 && lib.entries[k]
            == Entry::Dfa(Rule::Raw(lib.bytes[k]))
    &&& all_differ(lib.bytes)
}

proof fn lemma_no_match(lib: Library, data: Seq<u8>, i: int, len: int)
    requires
        single_bytes(lib),
        0 <= i,
        i + len <= data.len(),
    ensures
        longest_match(lib.bytes, data, i, len) == 0,
    decreases len,
{
    if len >= 2 {
        let w = data.subrange(i, i + len);
        lemma_find_from(lib.bytes, w, 0);
        if find(lib.bytes, w) is Some {
            assert(lib.bytes[find(lib.bytes, w)->0].len() == 1);
        }
        lemma_no_match(lib, data, i, len - 1);
    }
}

/// There are never more than 256 axioms for single bytes.
proof fn lemma_few_single_bytes(lib: Library)
    requires
        single_bytes(lib),
    ensures
        lib.bytes.len() <= 256,
{
    let values = Seq::new(lib.bytes.len(), |k: int| lib.bytes[k][0] as int);
    assert(values.no_duplicates()) by {
        assert forall|i: int, j: int|
            0 <= i < values.len() && 0 <= j < values.len() && i != j implies values[i] != values[j] by {
            let a = lib.bytes[i];
            let b = lib.bytes[j];
            assert(a.len() == 1 && b.len() == 1);
            if values[i] == values[j] {
                assert(a =~= b);
                if i < j {
                    assert(lib.bytes[i] != lib.bytes[j]);
                } else {
                    assert(lib.bytes[j] != lib.bytes[i]);
                }
            }
        }
    }
    values.unique_seq_to_set();
    let range = vstd::set_lib::set_int_range(0, 256);
    vstd::set_lib::lemma_int_range(0, 256);
    assert(values.to_set().subset_of(range)) by {
        assert forall|v: int| values.to_set().contains(v) implies range.contains(v) by {
            let k = choose|k: int| 0 <= k < values.len() && values[k] == v;
        }
    }
    vstd::set_lib::lemma_len_subset(values.to_set(), range);
}

proof fn lemma_single_added(lib: Library, b: u8)
    requires
        single_bytes(lib),
    ensures
        ({
            let (after, id) = rule_added(lib, Rule::Raw(seq![b]));
            &&& single_bytes(after)
            &&& id < after.bytes.len()
            &&& after.bytes[id as int] == seq![b]
            &&& forall|k: int| 0 <= k < lib.bytes.len() ==> after.bytes[k] == lib.bytes[k]
            &&& lib.bytes.len() <= after.bytes.len()
        }),
{
    lemma_few_single_bytes(lib);
    lemma_find_from(lib.bytes, seq![b], 0);
    let (after, id) = rule_added(lib, Rule::Raw(seq![b]));
    assert(generated(Rule::Raw(seq![b])) == seq![b]);
}

/// Whether each axiom of a sequence stands for one byte of `data`, from `i` on.
pub open spec fn spells(lib: Library, seq: Seq<u32>, data: Seq<u8>, i: int) -> bool {
    &&& seq.len() == data.len() - i
    &&& forall|k: int|
        0 <= k < seq.len() ==> (#[trigger] seq[k]) < lib.bytes.len() && lib.bytes[seq[k] as int]
            == seq![data[i + k]]
}

proof fn lemma_spelled(lib: Library, data: Seq<u8>, i: int)
    requires
        single_bytes(lib),
        0 <= i <= data.len(),
    ensures
        ({
            let (after, seq) = encoded(lib, data, i);
            &&& single_bytes(after)
            &&& spells(after, seq, data, i)
            &&& lib.bytes.len() <= after.bytes.len()
            &&& forall|k: int| 0 <= k < lib.bytes.len() ==> after.bytes[k] == lib.bytes[k]
        }),
    decreases data.len() - i,
{
    if i < data.len() {
        lemma_no_match(lib, data, i, pattern_limit(data.len() - i));
        let (next, id) = rule_added(lib, Rule::Raw(seq![data[i]]));
        lemma_single_added(lib, data[i]);
        lemma_spelled(next, data, i + 1);
        let (after, rest) = encoded(next, data, i + 1);
        let seq = seq![id] + rest;
        assert(encoded(lib, data, i) == (after, seq));
        assert forall|k: int| 0 <= k < seq.len() implies (#[trigger] seq[k]) < after.bytes.len()
            && after.bytes[seq[k] as int] == seq![data[i + k]] by {
            if k == 0 {
                assert(after.bytes[id as int] == next.bytes[id as int]);
            } else {
                assert(rest[k - 1] < after.bytes.len());
                assert(i + 1 + (k - 1) == i + k);
            }
        }
    }
}

proof fn lemma_none_frequent(pairs: Seq<(u32, u32)>, n: int)
    requires
        all_differ(pairs),
        n <= pairs.len(),
    ensures
        frequent_before(pairs, n).len() == 0,
    decreases n,
{
    if n > 0 {
        lemma_none_frequent(pairs, n - 1);
        lemma_occurs_once(pairs, pairs[n - 1], pairs.len() as int);
    }
}

/// Where nothing recurs no pattern is claimed: the library holds the bytes that occur,
/// 256 at most, and the sequence spells the data byte by byte.
pub proof fn law_nothing_recurs(data: Seq<u8>)
    requires
        nothing_recurs(data),
    ensures
        ({
            let (lib, seq) = axiomatized(data);
            &&& single_bytes(lib)
            &&& lib.entries.len() <= 256
            &&& spells(lib, seq, data, 0)
        }),
{
    lemma_no_candidates_below(data, pattern_limit(data.len() as int) + 1);
    assert(candidates(data) =~= Seq::empty());
    assert(selected(candidates(data)) =~= Seq::empty());
    let first = first_library(data);
    assert(first == empty_library());
    lemma_spelled(first, data, 0);
    let (lib, seq) = encoded(first, data, 0);
    let pairs = neighbours(seq);
    assert forall|i: int, j: int| 0 <= i < j < pairs.len() implies #[trigger] pairs[i]
        != #[trigger] pairs[j] by {
        assert(byte_pairs(data)[i] != byte_pairs(data)[j]);
        assert(seq[i] < lib.bytes.len() && seq[j] < lib.bytes.len());
        assert(seq[i + 1] < lib.bytes.len() && seq[j + 1] < lib.bytes.len());
        if pairs[i] == pairs[j] {
            assert(seq![data[i]][0] == seq![data[j]][0]);
            assert(seq![data[i + 1]][0] == seq![data[j + 1]][0]);
        }
    }
    lemma_none_frequent(pairs, pairs.len() as int);
    assert(frequent(pairs).len() == 0);
    assert(passes(lib, seq, MAX_PASSES as nat) == (lib, seq));
    lemma_few_single_bytes(lib);
}

} // verus!
