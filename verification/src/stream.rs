//! Compressing one byte string into an inner stream, and back.

use vstd::prelude::*;

use crate::compound::MAX_PASSES;
use crate::compound::compound_passes;
use crate::compound::compounded;
use crate::compound::frequent;
use crate::compound::law_passes;
use crate::compound::law_passes_bounds;
use crate::compound::neighbours;
use crate::compound::pass_point;
use crate::compound::passes;
use crate::compound::passes_begun;
use crate::compound::passes_told;
use crate::compound::rewritten;
use crate::dfa::Rule;
use crate::dfa::inferred;
use crate::dfa::lemma_period_found;
use crate::dfa::lemma_period_from;
use crate::dfa::period_from;
use crate::encode::begins;
use crate::encode::encode_point;
use crate::encode::encode_told;
use crate::encode::encoded;
use crate::encode::greedy_encode;
use crate::encode::law_encoded;
use crate::encode::lemma_encoded_extends;
use crate::encode::longest_match;
use crate::encode::report_step;
use crate::error::AxmzipError;
use crate::error::Failure;
use crate::error::invalid;
use crate::filter::Filter;
use crate::filter::best_filter;
use crate::filter::chosen_filter;
use crate::filter::filtered;
use crate::filter::law_filter_reversible;
use crate::filter::reverse_filter;
use crate::filter::unfiltered;
use crate::inner::des_inner;
use crate::inner::inner_bytes;
use crate::inner::law_inner_round_trip;
use crate::inner::read_inner;
use crate::inner::ser_inner;
use crate::inner::storable;
use crate::library::Entry;
use crate::library::Library;
use crate::library::empty_library;
use crate::library::entry_views;
use crate::library::law_sound_resolves_all;
use crate::library::resolve_all_into;
use crate::library::resolved_all;
use crate::library::rule_added;
use crate::order::law_ranking;
use crate::order::ranking;
use crate::patterns::MAX_ATOMICS;
use crate::patterns::candidates;
use crate::patterns::candidates_before;
use crate::patterns::candidates_below;
use crate::patterns::find_candidates;
use crate::patterns::first_library;
use crate::patterns::law_first_library;
use crate::patterns::pattern_limit;
use crate::patterns::rules_added;
use crate::patterns::savings_of;
use crate::patterns::scan_point;
use crate::patterns::scan_told;
use crate::patterns::select_axioms;
use crate::patterns::selected;
use crate::patterns::windows;
use crate::progress::accepts;
use crate::progress::point_between;
use crate::progress::tell;
use crate::progress::told;
use crate::prune::kept;
use crate::prune::law_prune_keeps_meaning;
use crate::prune::pruned;
use crate::prune::pruned_library;
use crate::prune::renumbered_ids;
use crate::score::Score;

verus! {

/// The axioms and the sequence that filtered data are turned into.
pub open spec fn axiomatized(data: Seq<u8>) -> (Library, Seq<u32>) {
    let (lib, seq) = encoded(first_library(data), data, 0);
    passes(lib, seq, MAX_PASSES as nat)
}

/// The stream that stands for `data` after the given filter.
pub open spec fn stream_with(data: Seq<u8>, filter: Filter) -> Seq<u8> {
    let (lib, seq) = axiomatized(filtered(data, filter));
    inner_bytes(pruned(lib.entries, seq), renumbered_ids(lib.entries, seq, seq), filter)
}

/// The stream that stands for `data`, given the scores of the candidate filters.
pub open spec fn compressed_stream(data: Seq<u8>, channels: u8, scores: Seq<Score>) -> Seq<u8> {
    stream_with(data, chosen_filter(data.len(), channels, scores))
}

/// That the points of compressing `data` into a stream were told, between `from` and
/// `to`: those at which a step ends, and those that lie within a step.
pub open spec fn stream_told<F: Fn(u32)>(
    report: &F,
    data: Seq<u8>,
    channels: u8,
    scores: Seq<Score>,
    from: u32,
    to: u32,
) -> bool {
    let data = filtered(data, chosen_filter(data.len(), channels, scores));
    let (lib, seq) = encoded(first_library(data), data, 0);
    &&& told(report, point_between(from, to, 0) as u32)
    &&& scan_told(report, data.len() as int, from, to)
    &&& told(report, point_between(from, to, 450) as u32)
    &&& told(report, point_between(from, to, 500) as u32)
    &&& encode_told(report, first_library(data), data, from, to)
    &&& told(report, point_between(from, to, 750) as u32)
    &&& passes_told(report, lib, seq, from, to)
    &&& told(report, point_between(from, to, 900) as u32)
    &&& told(report, point_between(from, to, 980) as u32)
}

/// The data that a stream stands for.
pub open spec fn decompressed_stream(blob: Seq<u8>) -> Result<Seq<u8>, Failure> {
    match read_inner(blob) {
        Err(e) => Err(e),
        Ok((entries, seq, filter)) => match resolved_all(entries, seq, entries.len()) {
            None => Err(Failure::InvalidData("Bad axiom reference"@)),
            Some(data) => Ok(unfiltered(data, filter)),
        },
    }
}

/// Compresses `data`. `scores` are those of the results of the candidate filters.
/// Reports from `p_start` to `p_end`.
pub fn compress_stream<F: Fn(u32)>(
    data: &[u8],
    channels: u8,
    scores: &[Score],
    report: &F,
    p_start: u32,
    p_end: u32,
) -> (out: Vec<u8>)
    requires
        accepts(*report, p_start, p_end),
        p_start <= p_end <= 1000,
    ensures
        out@ == compressed_stream(data@, channels, scores@),
        stream_told(report, data@, channels, scores@, p_start, p_end),
{
    tell(report, p_start, p_end, 0);
    let (filter, data) = best_filter(data, channels, scores);
    let found = find_candidates(data.as_slice(), report, p_start, p_end);
    tell(report, p_start, p_end, 450);
    let mut lib = select_axioms(&found);
    tell(report, p_start, p_end, 500);
    let seq = greedy_encode(&mut lib, data.as_slice(), report, p_start, p_end);
    tell(report, p_start, p_end, 750);
    let seq = compound_passes(&mut lib, seq, report, p_start, p_end);
    tell(report, p_start, p_end, 900);
    let (entries, ids) = lib.reindex(seq.as_slice());
    tell(report, p_start, p_end, 980);
    ser_inner(entries.as_slice(), ids.as_slice(), filter)
}

/// Decompresses a stream.
pub fn decompress_stream(blob: &[u8]) -> (r: Result<Vec<u8>, AxmzipError>)
    ensures
        match r {
            Ok(data) => decompressed_stream(blob@) == Ok::<Seq<u8>, Failure>(data@),
            Err(e) => decompressed_stream(blob@) == Err::<Seq<u8>, Failure>(e@),
        },
{
    match des_inner(blob) {
        Err(e) => Err(e),
        Ok((entries, seq, filter)) => {
            let mut data: Vec<u8> = Vec::new();
            let done = resolve_all_into(
                entries.as_slice(),
                seq.as_slice(),
                entries.len(),
                &mut data,
            );
            if done {
                proof {
                    let b = resolved_all(entry_views(entries@), seq@, entries@.len())->0;
                    assert(Seq::<u8>::empty() + b =~= b);
                }
                Ok(reverse_filter(data.as_slice(), filter))
            } else {
                Err(invalid("Bad axiom reference"))
            }
        },
    }
}

/// Whether the lengths in each of the axioms fit in memory.
spec fn all_storable(entries: Seq<Entry>) -> bool {
    forall|k: int| 0 <= k < entries.len() ==> storable(#[trigger] entries[k])
}

/// Whether the lengths in each of the rules fit in memory.
spec fn rules_storable(found: Seq<(i128, Rule)>) -> bool {
    forall|i: int| 0 <= i < found.len() ==> storable(Entry::Dfa((#[trigger] found[i]).1))
}

proof fn lemma_inferred_storable(data: Seq<u8>)
    requires
        data.len() <= usize::MAX,
    ensures
        storable(Entry::Dfa(inferred(data))),
{
    lemma_period_from(data, 2);
    if let Some(p) = period_from(data, 2) {
        lemma_period_found(data, 2);
        assert(data.subrange(0, p).len() == p);
    }
}

proof fn lemma_candidates_before_storable(data: Seq<u8>, len: int, n: int)
    requires
        data.len() <= usize::MAX,
        0 <= len <= data.len(),
        n <= data.len() - len + 1,
    ensures
        rules_storable(candidates_before(data, len, n)),
        candidates_before(data, len, n).len() <= n || n < 0,
        n < 0 ==> candidates_before(data, len, n).len() == 0,
    decreases n,
{
    if n > 0 {
        lemma_candidates_before_storable(data, len, n - 1);
        lemma_inferred_storable(windows(data, len)[n - 1]);
    }
}

proof fn lemma_candidates_below_storable(data: Seq<u8>, len: int)
    requires
        data.len() <= usize::MAX,
        len <= data.len() + 1,
    ensures
        rules_storable(candidates_below(data, len)),
        candidates_below(data, len).len() <= (if len <= 2 {
            0
        } else {
            (len - 2) * data.len()
        }),
    decreases len,
{
    if len > 2 {
        lemma_candidates_below_storable(data, len - 1);
        lemma_candidates_before_storable(data, len - 1, data.len() - (len - 1) + 1);
        let a = candidates_below(data, len - 1);
        let b = candidates_before(data, len - 1, data.len() - (len - 1) + 1);
        assert forall|i: int| 0 <= i < (a + b).len() implies storable(
            Entry::Dfa((#[trigger] (a + b)[i]).1),
        ) by {
            if i < a.len() {
                assert(storable(Entry::Dfa(a[i].1)));
            } else {
                assert(storable(Entry::Dfa(b[i - a.len()].1)));
            }
        }
        assert((len - 3) * data.len() + data.len() == (len - 2) * data.len()) by (nonlinear_arith);
    }
}

proof fn lemma_rules_added_storable(lib: Library, rules: Seq<Rule>)
    requires
        all_storable(lib.entries),
        forall|i: int| 0 <= i < rules.len() ==> storable(Entry::Dfa(#[trigger] rules[i])),
    ensures
        all_storable(rules_added(lib, rules).entries),
    decreases rules.len(),
{
    if rules.len() > 0 {
        assert forall|i: int| 0 <= i < rules.drop_last().len() implies storable(
            Entry::Dfa(#[trigger] rules.drop_last()[i]),
        ) by {
            assert(rules.drop_last()[i] == rules[i]);
        }
        lemma_rules_added_storable(lib, rules.drop_last());
        assert(rules.last() == rules[rules.len() - 1]);
    }
}

proof fn lemma_encoded_storable(lib: Library, data: Seq<u8>, i: int)
    requires
        all_storable(lib.entries),
    ensures
        all_storable(encoded(lib, data, i).0.entries),
    decreases data.len() - i,
{
    if i < data.len() {
        let len = longest_match(lib.bytes, data, i, pattern_limit(data.len() - i));
        if 2 <= len <= data.len() - i {
            lemma_encoded_storable(lib, data, i + len);
        } else {
            lemma_encoded_storable(rule_added(lib, Rule::Raw(seq![data[i]])).0, data, i + 1);
        }
    }
}

proof fn lemma_compounded_storable(lib: Library, pairs: Seq<(u32, u32)>, at: Seq<usize>)
    requires
        all_storable(lib.entries),
    ensures
        all_storable(compounded(lib, pairs, at).0.entries),
    decreases at.len(),
{
    if at.len() > 0 {
        lemma_compounded_storable(lib, pairs, at.drop_last());
    }
}

proof fn lemma_passes_storable(lib: Library, seq: Seq<u32>, n: nat)
    requires
        all_storable(lib.entries),
    ensures
        all_storable(passes(lib, seq, n).0.entries),
    decreases n,
{
    let pairs = neighbours(seq);
    if n > 0 && frequent(pairs).len() > 0 {
        let (after, ids) = compounded(lib, pairs, frequent(pairs));
        lemma_compounded_storable(lib, pairs, frequent(pairs));
        lemma_passes_storable(after, rewritten(seq, ids, 0), (n - 1) as nat);
    }
}

proof fn lemma_kept_storable(entries: Seq<Entry>, seq: Seq<u32>, k: int)
    requires
        all_storable(entries),
        k <= entries.len(),
    ensures
        all_storable(kept(entries, seq, k)),
        kept(entries, seq, k).len() <= k || k < 0,
        k < 0 ==> kept(entries, seq, k).len() == 0,
    decreases k,
{
    if k > 0 {
        lemma_kept_storable(entries, seq, k - 1);
        assert(storable(entries[k - 1]));
    }
}

/// Whether the axioms for filtered data can be numbered, and the patterns in the
/// data be counted, with the integers of this machine.
pub open spec fn fits(data: Seq<u8>) -> bool {
    &&& data.len() <= usize::MAX
    &&& candidates(data).len() <= usize::MAX
    &&& axiomatized(data).0.entries.len() <= usize::MAX
    &&& axiomatized(data).0.entries.len() <= 0x1_0000_0000
}

/// There are never more axioms than those that encoding begins with, one for each
/// byte, and one for each byte in each pass.
pub proof fn law_axiom_count(data: Seq<u8>)
    ensures
        axiomatized(data).0.entries.len() <= MAX_ATOMICS + (1 + MAX_PASSES) * data.len(),
{
    let first = first_library(data);
    let (lib, seq) = encoded(first, data, 0);
    law_first_library(data);
    lemma_encoded_extends(first, data, 0);
    law_passes_bounds(lib, seq, MAX_PASSES as nat);
    assert(MAX_PASSES * seq.len() <= MAX_PASSES * data.len()) by (nonlinear_arith)
        requires
            seq.len() <= data.len(),
    ;
}

/// Data of up to sixty million bytes fit on every machine.
pub proof fn law_moderate_data_fit(data: Seq<u8>)
    requires
        data.len() <= 60_000_000,
    ensures
        fits(data),
{
    law_axiom_count(data);
    assert((1 + MAX_PASSES) * data.len() == 13 * data.len()) by (nonlinear_arith)
        requires
            MAX_PASSES == 12,
    ;
    let len = pattern_limit(data.len() as int) + 1;
    lemma_candidates_below_storable(data, len);
    if len > 2 {
        assert((len - 2) * data.len() <= 63 * data.len()) by (nonlinear_arith)
            requires
                len <= 65,
                data.len() >= 0,
        ;
    }
}

proof fn lemma_first_library_storable(data: Seq<u8>)
    requires
        data.len() <= usize::MAX,
        candidates(data).len() <= usize::MAX,
    ensures
        all_storable(first_library(data).entries),
{
    let found = candidates(data);
    lemma_candidates_below_storable(data, pattern_limit(data.len() as int) + 1);
    law_ranking(savings_of(found));
    let rules = selected(found);
    assert forall|i: int| 0 <= i < rules.len() implies storable(Entry::Dfa(#[trigger] rules[i])) by {
        let k = ranking(savings_of(found))[i] as int;
        assert(0 <= k < found.len());
        assert(storable(Entry::Dfa(found[k].1)));
    }
    lemma_rules_added_storable(empty_library(), rules);
}

/// A stream made with any filter gives back the data.
pub proof fn law_stream_with_round_trip(data: Seq<u8>, filter: Filter)
    requires
        fits(filtered(data, filter)),
    ensures
        decompressed_stream(stream_with(data, filter)) == Ok::<Seq<u8>, Failure>(data),
{
    let fd = filtered(data, filter);
    let first = first_library(fd);
    let (lib1, seq1) = encoded(first, fd, 0);
    let (lib, seq) = passes(lib1, seq1, MAX_PASSES as nat);
    let entries = pruned(lib.entries, seq);
    let ids = renumbered_ids(lib.entries, seq, seq);
    law_first_library(fd);
    lemma_encoded_extends(first, fd, 0);
    law_passes_bounds(lib1, seq1, MAX_PASSES as nat);
    law_encoded(first, fd, 0);
    assert(fd.subrange(0, fd.len() as int) =~= fd);
    law_passes(lib1, seq1, MAX_PASSES as nat);
    law_prune_keeps_meaning(lib, seq);
    lemma_first_library_storable(fd);
    lemma_encoded_storable(first, fd, 0);
    lemma_passes_storable(lib1, seq1, MAX_PASSES as nat);
    lemma_kept_storable(lib.entries, seq, lib.entries.len() as int);
    law_inner_round_trip(entries, ids, filter, Seq::empty());
    assert(inner_bytes(entries, ids, filter) + Seq::<u8>::empty() =~= inner_bytes(entries, ids, filter));
    law_sound_resolves_all(pruned_library(lib, seq), ids);
    law_filter_reversible(data, filter);
}

/// What is compressed is what decompressing gives back, whatever the scores.
pub proof fn law_stream_round_trip(data: Seq<u8>, channels: u8, scores: Seq<Score>)
    requires
        fits(filtered(data, chosen_filter(data.len(), channels, scores))),
    ensures
        decompressed_stream(compressed_stream(data, channels, scores)) == Ok::<Seq<u8>, Failure>(
            data,
        ),
{
    law_stream_with_round_trip(data, chosen_filter(data.len(), channels, scores));
}

/// A stream is made in the given steps: the chosen filter, the patterns, the greedy
/// encoding, up to twelve passes of compounding, and pruning.
pub proof fn law_stream_made_of(data: Seq<u8>, channels: u8, scores: Seq<Score>)
    ensures
        ({
            let filter = chosen_filter(data.len(), channels, scores);
            let d = filtered(data, filter);
            let (first, spelled) = encoded(first_library(d), d, 0);
            let (lib, seq) = passes(first, spelled, 12);
            compressed_stream(data, channels, scores) == inner_bytes(
                pruned(lib.entries, seq),
                renumbered_ids(lib.entries, seq, seq),
                filter,
            )
        }),
{
}

/// What a stream stands for is what its sequence expands to, with the filter undone;
/// one that names what it does not hold is refused.
pub proof fn law_stream_read(entries: Seq<Entry>, seq: Seq<u32>, filter: Filter)
    requires
        entries.len() <= 0x1_0000_0000,
        entries.len() <= usize::MAX,
        seq.len() <= usize::MAX,
        forall|i: int| 0 <= i < entries.len() ==> storable(#[trigger] entries[i]),
    ensures
        decompressed_stream(inner_bytes(entries, seq, filter)) == (match resolved_all(
            entries,
            seq,
            entries.len(),
        ) {
            Some(data) => Ok::<Seq<u8>, Failure>(unfiltered(data, filter)),
            None => Err::<Seq<u8>, Failure>(Failure::InvalidData("Bad axiom reference"@)),
        }),
{
    law_inner_round_trip(entries, seq, filter, Seq::empty());
    assert(inner_bytes(entries, seq, filter) + Seq::<u8>::empty() =~= inner_bytes(
        entries,
        seq,
        filter,
    ));
}

/// The points that are told while a stream is made: where each step ends, those of every
/// fourth length of the patterns, those of the axioms that begin at a multiple of the
/// step, and those of the passes that begin.
pub proof fn law_stream_points<F: Fn(u32)>(
    report: &F,
    data: Seq<u8>,
    channels: u8,
    scores: Seq<Score>,
    from: u32,
    to: u32,
    len: int,
    at: int,
    pass: int,
)
    requires
        stream_told(report, data, channels, scores, from, to),
    ensures
        call_ensures(*report, (point_between(from, to, 0) as u32,), ()),
        call_ensures(*report, (point_between(from, to, 450) as u32,), ()),
        call_ensures(*report, (point_between(from, to, 500) as u32,), ()),
        call_ensures(*report, (point_between(from, to, 750) as u32,), ()),
        call_ensures(*report, (point_between(from, to, 900) as u32,), ()),
        call_ensures(*report, (point_between(from, to, 980) as u32,), ()),
        data.len() >= 2 && 2 <= len <= 64 && len <= data.len() && (len - 2) % 4 == 0 ==> call_ensures(
            *report,
            (
                point_between(
                    from,
                    to,
                    (10 + (len - 2) * 440 / (if data.len() < 64 {
                        data.len() as int
                    } else {
                        64
                    })) as u32,
                ) as u32,
            ),
            (),
        ),
        ({
            let d = filtered(data, chosen_filter(data.len(), channels, scores));
            let (lib, seq) = encoded(first_library(d), d, 0);
            &&& begins(first_library(d), d, 0, at) && at % report_step(d.len() as int) == 0
                ==> call_ensures(
                *report,
                (point_between(from, to, encode_point(at, d.len() as int)) as u32,),
                (),
            )
            &&& 0 <= pass < passes_begun(lib, seq, 12) ==> call_ensures(
                *report,
                (point_between(from, to, pass_point(pass)) as u32,),
                (),
            )
        }),
{
    let filter = chosen_filter(data.len(), channels, scores);
    law_filter_reversible(data, filter);
    let limit = pattern_limit(data.len() as int);
    assert(scan_point(len, limit) == (10 + (len - 2) * 440 / limit) as u32);
}

} // verus!
