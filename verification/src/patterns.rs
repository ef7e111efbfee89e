//! The search for recurring patterns that are worth an axiom of their own.

use vstd::prelude::*;

use crate::dfa::DfaKind;
use crate::dfa::Rule;
use crate::dfa::generated;
use crate::dfa::infer_dfa;
use crate::dfa::inferred;
use crate::dfa::law_inferred_generates;
use crate::dfa::rule_cost;
use crate::library::AxiomLib;
use crate::library::Entry;
use crate::library::Library;
use crate::library::distinct;
use crate::library::empty_library;
use crate::library::find;
use crate::library::law_register;
use crate::library::lemma_find_from;
use crate::library::lemma_registered_extends;
use crate::library::rule_added;
use crate::library::sound;
use crate::order::law_ranking;
use crate::order::law_ranking_descends;
use crate::order::rank;
use crate::order::ranking;
use crate::order::ranks;
use crate::progress::accepts;
use crate::progress::point_between;
use crate::progress::tell;
use crate::progress::told;
use crate::tally::Tally;
use crate::tally::is_first;
use crate::tally::law_occurrences;
use crate::tally::lemma_first_place;
use crate::tally::lemma_occurrences_bound;
use crate::tally::lemma_tally_transfers;
use crate::tally::occurrences;
use crate::tally::tally;
use crate::varint::varint;
use crate::varint::varint_len;

verus! {

/// How many patterns become axioms, at most.
pub const MAX_ATOMICS: usize = 256;

/// The length of the longest pattern.
pub const MAX_PAT_LEN: usize = 64;

/// The length of the longest pattern in `n` bytes.
pub open spec fn pattern_limit(n: int) -> int {
    if n < MAX_PAT_LEN {
        n
    } else {
        MAX_PAT_LEN as int
    }
}

/// The substrings of `data` of length `len`, in order.
pub open spec fn windows(data: Seq<u8>, len: int) -> Seq<Seq<u8>> {
    Seq::new((data.len() - len + 1) as nat, |i: int| data.subrange(i, i + len))
}

/// The bytes saved by an axiom for a pattern that occurs `freq` times: each
/// occurrence becomes a reference, and the axiom has to be stored.
pub open spec fn savings(pattern: Seq<u8>, freq: nat) -> int {
    let ref_size = varint(MAX_ATOMICS as nat).len();
    freq * (pattern.len() - ref_size) - (ref_size + 1 + rule_cost(inferred(pattern)))
}

/// Whether the pattern at `i` stands there for the first time, recurs, and is
/// worth an axiom.
pub open spec fn worthwhile(data: Seq<u8>, len: int, i: int) -> bool {
    let w = windows(data, len);
    &&& is_first(w, i)
    &&& occurrences(w, w[i]) >= 2
    &&& savings(w[i], occurrences(w, w[i])) > 0
}

/// The worthwhile patterns of length `len` that begin before `n`, each with what
/// it saves.
pub open spec fn candidates_before(data: Seq<u8>, len: int, n: int) -> Seq<(i128, Rule)>
    decreases n,
{
    if n <= 0 {
        Seq::empty()
    } else if worthwhile(data, len, n - 1) {
        let w = windows(data, len);
        let p = w[n - 1];
        candidates_before(data, len, n - 1).push((savings(p, occurrences(w, p)) as i128, inferred(p)))
    } else {
        candidates_before(data, len, n - 1)
    }
}

/// The worthwhile patterns that are shorter than `len`, the shortest first.
pub open spec fn candidates_below(data: Seq<u8>, len: int) -> Seq<(i128, Rule)>
    decreases len,
{
    if len <= 2 {
        Seq::empty()
    } else {
        candidates_below(data, len - 1) + candidates_before(
            data,
            len - 1,
            data.len() - (len - 1) + 1,
        )
    }
}

/// The worthwhile patterns of `data`.
pub open spec fn candidates(data: Seq<u8>) -> Seq<(i128, Rule)> {
    candidates_below(data, pattern_limit(data.len() as int) + 1)
}

/// What each of the candidates saves.
pub open spec fn savings_of(found: Seq<(i128, Rule)>) -> Seq<i128> {
    Seq::new(found.len(), |i: int| found[i].0)
}

/// The rules that become axioms: those of the candidates that save most.
pub open spec fn selected(found: Seq<(i128, Rule)>) -> Seq<Rule> {
    let order = ranking(savings_of(found));
    let n = if found.len() < MAX_ATOMICS {
        found.len()
    } else {
        MAX_ATOMICS as nat
    };
    Seq::new(n, |k: int| found[order[k] as int].1)
}

/// The library after adding `rules`, in order.
pub open spec fn rules_added(lib: Library, rules: Seq<Rule>) -> Library
    decreases rules.len(),
{
    if rules.len() == 0 {
        lib
    } else {
        rule_added(rules_added(lib, rules.drop_last()), rules.last()).0
    }
}

/// The library that encoding begins with.
pub open spec fn first_library(data: Seq<u8>) -> Library {
    rules_added(empty_library(), selected(candidates(data)))
}

/// Adding rules keeps a library sound and without duplicates; there is one more
/// axiom for each rule, at most.
pub proof fn law_rules_added(lib: Library, rules: Seq<Rule>)
    requires
        sound(lib),
        distinct(lib),
        lib.entries.len() + rules.len() <= 0x1_0000_0000,
    ensures
        sound(rules_added(lib, rules)),
        distinct(rules_added(lib, rules)),
        rules_added(lib, rules).entries.len() <= lib.entries.len() + rules.len(),
    decreases rules.len(),
{
    if rules.len() > 0 {
        let before = rules_added(lib, rules.drop_last());
        let e = Entry::Dfa(rules.last());
        law_rules_added(lib, rules.drop_last());
        lemma_registered_extends(before, e, generated(rules.last()));
        law_register(before, e, generated(rules.last()));
    }
}

/// The library that encoding begins with is sound and without duplicates, and
/// has no more axioms than allowed.
pub proof fn law_first_library(data: Seq<u8>)
    ensures
        sound(first_library(data)),
        distinct(first_library(data)),
        first_library(data).entries.len() <= MAX_ATOMICS,
{
    law_rules_added(empty_library(), selected(candidates(data)));
}

/// Two windows of length `len` are equal if those one shorter are, and the bytes
/// behind them.
proof fn lemma_window_step(data: Seq<u8>, len: int, i: int, j: int)
    requires
        1 <= len <= data.len(),
        0 <= i <= data.len() - len,
        0 <= j <= data.len() - len,
    ensures
        (windows(data, len)[i] == windows(data, len)[j]) == (windows(data, len - 1)[i] == windows(
            data,
            len - 1,
        )[j] && data[i + len - 1] == data[j + len - 1]),
{
    let a = windows(data, len)[i];
    let b = windows(data, len)[j];
    let a1 = windows(data, len - 1)[i];
    let b1 = windows(data, len - 1)[j];
    assert(a =~= a1.push(data[i + len - 1]));
    assert(b =~= b1.push(data[j + len - 1]));
    if a == b {
        assert(a.drop_last() =~= a1);
        assert(b.drop_last() =~= b1);
        assert(a.last() == b.last());
    }
}

/// In a tally, items are equal if they stand first at the same place.
proof fn lemma_same_first(t: Tally, s: Seq<Seq<u8>>, i: int, j: int)
    requires
        t.tallies(s),
        0 <= i < s.len(),
        0 <= j < s.len(),
    ensures
        (t.first@[i] == t.first@[j]) == (s[i] == s[j]),
{
    let a = t.first@[i] as int;
    let b = t.first@[j] as int;
    assert(s[a] == s[i] && s[b] == s[j] && is_first(s, a) && is_first(s, b));
    if s[i] == s[j] && a < b {
        assert(s[a] != s[b]);
    }
    if s[i] == s[j] && b < a {
        assert(s[b] != s[a]);
    }
}

/// Tallies the windows of length `len`, given the tally of those one shorter.
fn tally_windows(data: &[u8], shorter: &Tally, len: usize) -> (t: Tally)
    requires
        1 <= len <= data@.len(),
        shorter.tallies(windows(data@, len - 1)),
    ensures
        t.tallies(windows(data@, len as int)),
{
    let total: usize = data.len();
    let n: usize = total - len + 1;
    let mut keys: Vec<u128> = Vec::with_capacity(n);
    let mut i: usize = 0;
    while i < n
        invariant
            i <= n,
            total == data@.len(),
            n == total - len + 1,
            1 <= len <= total,
            shorter.tallies(windows(data@, len - 1)),
            keys@.len() == i,
            forall|k: int|
                0 <= k < i ==> #[trigger] keys@[k] == shorter.first@[k] * 256 + data@[k + len - 1],
        decreases n - i,
    {
        keys.push(shorter.first[i] as u128 * 256 + data[i + (len - 1)] as u128);
        i += 1;
    }
    let t = tally(keys.as_slice());
    proof {
        let w = windows(data@, len as int);
        assert forall|i: int, j: int|
            #![trigger keys@[i], keys@[j]]
            0 <= i < w.len() && 0 <= j < w.len() implies (keys@[i] == keys@[j] <==> w[i] == w[j]) by {
            lemma_window_step(data@, len as int, i, j);
            lemma_same_first(*shorter, windows(data@, len - 1), i, j);
        }
        lemma_tally_transfers(t, keys@, w);
    }
    t
}

/// Tallies the windows of length one.
fn tally_bytes(data: &[u8]) -> (t: Tally)
    requires
        data@.len() >= 1,
    ensures
        t.tallies(windows(data@, 1)),
{
    let mut keys: Vec<u128> = Vec::with_capacity(data.len());
    let mut i: usize = 0;
    while i < data.len()
        invariant
            i <= data@.len(),
            keys@.len() == i,
            forall|k: int| 0 <= k < i ==> #[trigger] keys@[k] == data@[k],
        decreases data@.len() - i,
    {
        keys.push(data[i] as u128);
        i += 1;
    }
    let t = tally(keys.as_slice());
    proof {
        let w = windows(data@, 1);
        assert forall|i: int, j: int|
            #![trigger keys@[i], keys@[j]]
            0 <= i < w.len() && 0 <= j < w.len() implies (keys@[i] == keys@[j] <==> w[i] == w[j]) by {
            assert(w[i][0] == data@[i] && w[j][0] == data@[j]);
            if data@[i] == data@[j] {
                assert(w[i] =~= w[j]);
            }
        }
        lemma_tally_transfers(t, keys@, w);
    }
    t
}

/// Patterns that came into question as axioms: what each saves, and its rule.
pub struct Candidates {
    pub savings: Vec<i128>,
    pub rules: Vec<DfaKind>,
}

impl View for Candidates {
    type V = Seq<(i128, Rule)>;

    open spec fn view(&self) -> Seq<(i128, Rule)> {
        Seq::new(self.rules@.len(), |i: int| (self.savings@[i], self.rules@[i]@))
    }
}

impl Candidates {
    /// Whether there is one saving for each rule.
    pub open spec fn wf(&self) -> bool {
        self.savings@.len() == self.rules@.len()
    }
}

proof fn lemma_savings_bound(pattern: Seq<u8>, freq: nat)
    requires
        pattern.len() <= 64,
        freq <= u64::MAX,
        rule_cost(inferred(pattern)) <= 64,
    ensures
        -0x1000_0000_0000_0000_0000_0000 < savings(pattern, freq) < 0x1000_0000_0000_0000_0000_0000,
        varint(256).len() == 2,
{
    reveal_with_fuel(varint, 3);
    let d = pattern.len() as int - 2;
    assert(-2 * 0x1_0000_0000_0000_0000 <= freq * d <= 62 * 0x1_0000_0000_0000_0000) by (nonlinear_arith)
        requires
            0 <= freq <= 0xffff_ffff_ffff_ffff,
            -2 <= d <= 62,
    ;
}

/// Adds the worthwhile patterns of length `len` to `found`.
fn add_candidates(data: &[u8], t: &Tally, len: usize, found: &mut Candidates)
    requires
        2 <= len <= data@.len(),
        len <= MAX_PAT_LEN,
        t.tallies(windows(data@, len as int)),
        old(found).wf(),
    ensures
        final(found).wf(),
        final(found)@ == old(found)@ + candidates_before(
            data@,
            len as int,
            data@.len() - len + 1,
        ),
{
    let total: usize = data.len();
    let n: usize = total - len + 1;
    let ghost before = found@;
    let ghost w = windows(data@, len as int);
    let ref_size: usize = varint_len(MAX_ATOMICS as u64);
    let mut i: usize = 0;
    assert(found@ =~= before + candidates_before(data@, len as int, 0));
    while i < n
        invariant
            i <= n,
            total == data@.len(),
            n == total - len + 1,
            2 <= len <= total,
            len <= 64,
            w == windows(data@, len as int),
            t.tallies(w),
            found.wf(),
            ref_size == varint(MAX_ATOMICS as nat).len(),
            found@ == before + candidates_before(data@, len as int, i as int),
        decreases n - i,
    {
        let freq: usize = t.count[i];
        let ghost now = found@;
        assert(freq == (if is_first(w, i as int) {
            occurrences(w, w[i as int])
        } else {
            0
        }));
        if freq >= 2 {
            let pattern = vstd::slice::slice_subrange(data, i, i + len);
            assert(pattern@ == w[i as int]);
            let dfa = infer_dfa(pattern);
            let cost: u128 = dfa.serial_cost();
            proof {
                lemma_savings_bound(w[i as int], freq as nat);
            }
            let entry_cost: i128 = ref_size as i128 + 1 + cost as i128;
            let gain: i128 = len as i128 - ref_size as i128;
            assert(0 <= freq * gain <= 0x1_0000_0000_0000_0000 * 64) by (nonlinear_arith)
                requires
                    0 <= freq <= 0xffff_ffff_ffff_ffff,
                    0 <= gain <= 64,
            ;
            let saved: i128 = freq as i128 * gain - entry_cost;
            assert(saved == savings(w[i as int], freq as nat));
            if saved > 0 {
                assert(worthwhile(data@, len as int, i as int));
                let ghost rule = dfa@;
                found.savings.push(saved);
                found.rules.push(dfa);
                assert(found@ =~= now.push((saved, rule)));
                assert(found@ =~= before + candidates_before(data@, len as int, i + 1));
            }
        }
        i += 1;
    }
}

/// The point at which strings of `len` bytes are counted, where the longest that are
/// counted have `limit`.
pub open spec fn scan_point(len: int, limit: int) -> u32 {
    (10 + (len - 2) * 440 / limit) as u32
}

/// That the points of every fourth length of the scan of `n` bytes were told, between
/// `from` and `to`.
pub open spec fn scan_told<F: Fn(u32)>(report: &F, n: int, from: u32, to: u32) -> bool {
    forall|len: int|
        2 <= len <= pattern_limit(n) && (len - 2) % 4 == 0 ==> told(
            report,
            point_between(from, to, #[trigger] scan_point(len, pattern_limit(n))) as u32,
        )
}

/// The worthwhile patterns of `data`. Reports from `p_start` to 45% of the way to
/// `p_end`.
pub fn find_candidates<F: Fn(u32)>(
    data: &[u8],
    report: &F,
    p_start: u32,
    p_end: u32,
) -> (found: Candidates)
    requires
        accepts(*report, p_start, p_end),
        p_start <= p_end <= 1000,
    ensures
        found.wf(),
        found@ == candidates(data@),
        scan_told(report, data@.len() as int, p_start, p_end),
{
    let mut found = Candidates { savings: Vec::new(), rules: Vec::new() };
    assert(found@ =~= Seq::<(i128, Rule)>::empty());
    let limit: usize = if data.len() < MAX_PAT_LEN {
        data.len()
    } else {
        MAX_PAT_LEN
    };
    if limit < 2 {
        return found;
    }
    let mut t = tally_bytes(data);
    let mut len: usize = 2;
    while len <= limit
        invariant
            accepts(*report, p_start, p_end),
            p_start <= p_end <= 1000,
            2 <= len <= limit + 1,
            limit <= 64,
            limit == pattern_limit(data@.len() as int),
            limit <= data@.len(),
            t.tallies(windows(data@, len - 1)),
            found.wf(),
            found@ == candidates_below(data@, len as int),
            forall|l: int|
                2 <= l < len && (l - 2) % 4 == 0 ==> told(
                    report,
                    point_between(p_start, p_end, #[trigger] scan_point(l, limit as int)) as u32,
                ),
        decreases limit + 1 - len,
    {
        if (len - 2) % 4 == 0 {
            let part: u32 = 10 + (len - 2) as u32 * 440 / limit as u32;
            proof {
                assert((len - 2) * 440 / limit as int <= 440) by (nonlinear_arith)
                    requires
                        0 <= len - 2 <= limit,
                        limit >= 2,
                ;
                assert(part == scan_point(len as int, limit as int));
            }
            tell(report, p_start, p_end, part);
        }
        t = tally_windows(data, &t, len);
        add_candidates(data, &t, len, &mut found);
        len += 1;
    }
    found
}

/// The library of the candidates that save most.
pub fn select_axioms(found: &Candidates) -> (lib: AxiomLib)
    requires
        found.wf(),
    ensures
        lib.wf(),
        lib@ == rules_added(empty_library(), selected(found@)),
{
    let order = rank(found.savings.as_slice());
    assert(found.savings@ =~= savings_of(found@));
    let n: usize = if order.len() < MAX_ATOMICS {
        order.len()
    } else {
        MAX_ATOMICS
    };
    let ghost rules = selected(found@);
    let mut lib = AxiomLib::new();
    let mut k: usize = 0;
    assert(rules.subrange(0, 0) =~= Seq::<Rule>::empty());
    while k < n
        invariant
            k <= n,
            found.wf(),
            n == rules.len(),
            n <= order@.len(),
            rules == selected(found@),
            order@ == ranking(savings_of(found@)),
            ranks(savings_of(found@), 0, found@.len() as int, order@),
            lib.wf(),
            lib@ == rules_added(empty_library(), rules.subrange(0, k as int)),
        decreases n - k,
    {
        let at: usize = order[k];
        assert(at < found@.len());
        assert(found@[at as int].1 == rules[k as int]);
        lib.add_dfa(found.rules[at].duplicate());
        assert(rules.subrange(0, k + 1).drop_last() =~= rules.subrange(0, k as int));
        k += 1;
    }
    assert(rules.subrange(0, n as int) =~= rules);
    lib
}

proof fn lemma_reference_size()
    ensures
        varint(MAX_ATOMICS as nat).len() == 2,
{
    assert(varint(256) == seq![128u8] + varint(2));
    assert(varint(2).len() == 1);
}

/// The bytes that an axiom for a pattern of `len` bytes saves: each of its occurrences
/// becomes a reference of two bytes, and the axiom takes three bytes and its rule.
proof fn lemma_savings(p: Seq<u8>, freq: nat)
    ensures
        savings(p, freq) == freq * (p.len() - 2) - (3 + rule_cost(inferred(p))),
{
    lemma_reference_size();
}

proof fn lemma_savings_exact(p: Seq<u8>, freq: nat)
    requires
        2 <= p.len() <= 64,
        freq <= usize::MAX,
    ensures
        savings(p, freq) as i128 == savings(p, freq),
{
    lemma_savings(p, freq);
    law_inferred_generates(p);
    assert(0 <= freq * (p.len() - 2) <= 62 * usize::MAX) by (nonlinear_arith)
        requires
            2 <= p.len() <= 64,
            freq <= usize::MAX,
    ;
}

/// The candidate that the pattern at `i` is.
spec fn candidate_at(data: Seq<u8>, len: int, i: int) -> (i128, Rule) {
    let w = windows(data, len);
    (savings(w[i], occurrences(w, w[i])) as i128, inferred(w[i]))
}

/// Whether `c` is a worthwhile pattern that begins before `n`.
spec fn is_candidate(data: Seq<u8>, len: int, n: int, c: (i128, Rule)) -> bool {
    exists|i: int|
        0 <= i < n && #[trigger] worthwhile(data, len, i) && c == candidate_at(data, len, i)
}

proof fn lemma_candidates_before(data: Seq<u8>, len: int, n: int)
    requires
        1 <= len <= data.len(),
        n <= data.len() - len + 1,
    ensures
        forall|i: int|
            0 <= i < n && #[trigger] worthwhile(data, len, i) ==> candidates_before(
                data,
                len,
                n,
            ).contains(candidate_at(data, len, i)),
        forall|k: int|
            0 <= k < candidates_before(data, len, n).len() ==> is_candidate(
                data,
                len,
                n,
                #[trigger] candidates_before(data, len, n)[k],
            ),
        forall|j: int, k: int|
            0 <= j < k < candidates_before(data, len, n).len() ==> generated(
                (#[trigger] candidates_before(data, len, n)[j]).1,
            ) != generated((#[trigger] candidates_before(data, len, n)[k]).1),
    decreases n,
{
    if n > 0 {
        lemma_candidates_before(data, len, n - 1);
        let w = windows(data, len);
        let before = candidates_before(data, len, n - 1);
        let found = candidates_before(data, len, n);
        if worthwhile(data, len, n - 1) {
            let p = w[n - 1];
            let new = candidate_at(data, len, n - 1);
            assert(found == before.push(new));
            law_inferred_generates(p);
            assert forall|i: int|
                0 <= i < n && #[trigger] worthwhile(data, len, i) implies found.contains(
                candidate_at(data, len, i),
            ) by {
                let c = candidate_at(data, len, i);
                if i < n - 1 {
                    assert(before.contains(c));
                    let k = choose|k: int| 0 <= k < before.len() && before[k] == c;
                    assert(found[k] == c);
                } else {
                    assert(found[before.len() as int] == c);
                }
            }
            assert forall|k: int| 0 <= k < found.len() implies is_candidate(
                data,
                len,
                n,
                #[trigger] found[k],
            ) by {
                if k < before.len() {
                    assert(found[k] == before[k]);
                    assert(is_candidate(data, len, n - 1, before[k]));
                    let i = choose|i: int|
                        0 <= i < n - 1 && #[trigger] worthwhile(data, len, i) && before[k]
                            == candidate_at(data, len, i);
                    assert(worthwhile(data, len, i));
                }
            }
            assert forall|j: int, k: int| 0 <= j < k < found.len() implies generated(
                (#[trigger] found[j]).1,
            ) != generated((#[trigger] found[k]).1) by {
                assert(found[j] == before[j]);
                if k < before.len() {
                    assert(found[k] == before[k]);
                } else {
                    assert(is_candidate(data, len, n - 1, before[j]));
                    let i = choose|i: int|
                        0 <= i < n - 1 && #[trigger] worthwhile(data, len, i) && before[j]
                            == candidate_at(data, len, i);
                    law_inferred_generates(w[i]);
                    assert(is_first(w, n - 1));
                    assert(w[i] != w[n - 1]);
                }
            }
        } else {
            assert(found == before);
            assert forall|i: int|
                0 <= i < n && #[trigger] worthwhile(data, len, i) implies found.contains(
                candidate_at(data, len, i),
            ) by {
                assert(i < n - 1);
            }
            assert forall|k: int| 0 <= k < found.len() implies is_candidate(
                data,
                len,
                n,
                #[trigger] found[k],
            ) by {
                assert(is_candidate(data, len, n - 1, before[k]));
                let i = choose|i: int|
                    0 <= i < n - 1 && #[trigger] worthwhile(data, len, i) && before[k]
                        == candidate_at(data, len, i);
                assert(worthwhile(data, len, i));
            }
        }
    }
}

/// How often a byte string stands in `data`.
pub open spec fn times(data: Seq<u8>, p: Seq<u8>) -> nat {
    Seq::new(
        (data.len() - p.len() + 1) as nat,
        |i: int| data.subrange(i, i + p.len()),
    ).to_multiset().count(p)
}

proof fn lemma_times(data: Seq<u8>, p: Seq<u8>)
    requires
        p.len() <= data.len(),
    ensures
        times(data, p) == occurrences(windows(data, p.len() as int), p),
{
    let w = windows(data, p.len() as int);
    law_occurrences(w, p);
    assert(w =~= Seq::new(
        (data.len() - p.len() + 1) as nat,
        |i: int| data.subrange(i, i + p.len()),
    ));
}

/// Whether a byte string recurs and is worth an axiom, as the saving counts it: two
/// bytes for each reference, three and the rule for the axiom.
proof fn lemma_worth(data: Seq<u8>, p: Seq<u8>)
    requires
        2 <= p.len() <= data.len(),
        times(data, p) >= 2,
        times(data, p) * (p.len() - 2) > 3 + rule_cost(inferred(p)),
    ensures
        ({
            let s = times(data, p) * (p.len() - 2) - (3 + rule_cost(inferred(p)));
            candidates_before(data, p.len() as int, data.len() - p.len() + 1).contains(
                (s as i128, inferred(p)),
            )
        }),
{
    let len = p.len() as int;
    let w = windows(data, len);
    lemma_times(data, p);
    let i = lemma_first_place(w, p, w.len() as int);
    lemma_savings(p, times(data, p));
    assert(worthwhile(data, len, i));
    lemma_candidates_before(data, len, data.len() - len + 1);
}

proof fn lemma_candidates_below(data: Seq<u8>, len: int)
    requires
        2 <= len <= data.len() + 1,
    ensures
        ({
            let found = candidates_below(data, len);
            &&& forall|k: int|
                0 <= k < found.len() ==> {
                    let p = generated((#[trigger] found[k]).1);
                    let s = times(data, p) * (p.len() - 2) - (3 + rule_cost(inferred(p)));
                    &&& 2 <= p.len() < len
                    &&& times(data, p) >= 2
                    &&& s > 0
                    &&& found[k] == (s as i128, inferred(p))
                }
            &&& forall|j: int, k: int|
                0 <= j < k < found.len() ==> generated((#[trigger] found[j]).1) != generated(
                    (#[trigger] found[k]).1,
                )
        }),
    decreases len,
{
    if len > 2 {
        let l = len - 1;
        let n = data.len() - l + 1;
        let w = windows(data, l);
        lemma_candidates_below(data, l);
        lemma_candidates_before(data, l, n);
        let below = candidates_below(data, l);
        let here = candidates_before(data, l, n);
        let found = candidates_below(data, len);
        assert(found == below + here);
        assert forall|k: int| 0 <= k < here.len() implies ({
            let p = generated((#[trigger] here[k]).1);
            let s = times(data, p) * (p.len() - 2) - (3 + rule_cost(inferred(p)));
            &&& p.len() == l
            &&& times(data, p) >= 2
            &&& s > 0
            &&& here[k] == (s as i128, inferred(p))
        }) by {
            assert(is_candidate(data, l, n, here[k]));
            let i = choose|i: int|
                0 <= i < n && #[trigger] worthwhile(data, l, i) && here[k] == candidate_at(data, l, i);
            law_inferred_generates(w[i]);
            lemma_times(data, w[i]);
            lemma_savings(w[i], times(data, w[i]));
        }
        assert forall|k: int| 0 <= k < found.len() implies ({
            let p = generated((#[trigger] found[k]).1);
            let s = times(data, p) * (p.len() - 2) - (3 + rule_cost(inferred(p)));
            &&& 2 <= p.len() < len
            &&& times(data, p) >= 2
            &&& s > 0
            &&& found[k] == (s as i128, inferred(p))
        }) by {
            if k < below.len() {
                assert(found[k] == below[k]);
            } else {
                assert(found[k] == here[k - below.len()]);
            }
        }
        assert forall|j: int, k: int| 0 <= j < k < found.len() implies generated(
            (#[trigger] found[j]).1,
        ) != generated((#[trigger] found[k]).1) by {
            if k < below.len() {
                assert(found[j] == below[j] && found[k] == below[k]);
            } else if j >= below.len() {
                assert(found[j] == here[j - below.len()] && found[k] == here[k - below.len()]);
            } else {
                assert(found[j] == below[j] && found[k] == here[k - below.len()]);
                assert(generated(below[j].1).len() < l);
            }
        }
    }
}

proof fn lemma_found_below(data: Seq<u8>, p: Seq<u8>, len: int)
    requires
        2 <= p.len() < len <= data.len() + 1,
        times(data, p) >= 2,
        times(data, p) * (p.len() - 2) > 3 + rule_cost(inferred(p)),
    ensures
        ({
            let s = times(data, p) * (p.len() - 2) - (3 + rule_cost(inferred(p)));
            candidates_below(data, len).contains((s as i128, inferred(p)))
        }),
    decreases len,
{
    let l = len - 1;
    let s = times(data, p) * (p.len() - 2) - (3 + rule_cost(inferred(p)));
    let c = (s as i128, inferred(p));
    let below = candidates_below(data, l);
    let here = candidates_before(data, l, data.len() - l + 1);
    let found = candidates_below(data, len);
    if p.len() < l {
        lemma_found_below(data, p, l);
        let k = choose|k: int| 0 <= k < below.len() && below[k] == c;
        assert(found[k] == c);
    } else {
        lemma_worth(data, p);
        let k = choose|k: int| 0 <= k < here.len() && here[k] == c;
        assert(found[below.len() + k] == c);
    }
}

/// The candidates are the byte strings of 2 to 64 bytes that stand at least twice in the
/// data and save something as axioms: each of them is there once, with what it saves,
/// and nothing else is. An occurrence saves all its bytes but two, and the axiom costs
/// three bytes and its rule.
pub proof fn law_candidates(data: Seq<u8>, p: Seq<u8>)
    ensures
        ({
            let found = candidates(data);
            let s = times(data, p) * (p.len() - 2) - (3 + rule_cost(inferred(p)));
            &&& 2 <= p.len() <= 64 && p.len() <= data.len() && times(data, p) >= 2 && s > 0
                ==> found.contains((s as i128, inferred(p)))
            &&& forall|k: int|
                0 <= k < found.len() && generated((#[trigger] found[k]).1) == p ==> {
                    &&& 2 <= p.len() <= 64
                    &&& p.len() <= data.len()
                    &&& times(data, p) >= 2
                    &&& s > 0
                    &&& found[k] == (s as i128, inferred(p))
                }
            &&& forall|j: int, k: int|
                0 <= j < k < found.len() ==> generated((#[trigger] found[j]).1) != generated(
                    (#[trigger] found[k]).1,
                )
        }),
{
    let limit = pattern_limit(data.len() as int);
    if limit >= 1 {
        lemma_candidates_below(data, limit + 1);
    }
    let s = times(data, p) * (p.len() - 2) - (3 + rule_cost(inferred(p)));
    if 2 <= p.len() <= 64 && p.len() <= data.len() && times(data, p) >= 2 && s > 0 {
        lemma_found_below(data, p, limit + 1);
    }
}

/// Of the candidates those become axioms that save most, 256 at most, the most saving
/// first: no candidate that is left out saves more than one that is taken.
pub proof fn law_selected(found: Seq<(i128, Rule)>)
    requires
        found.len() <= usize::MAX,
    ensures
        ({
            let rules = selected(found);
            &&& rules.len() == (if found.len() < 256 {
                found.len()
            } else {
                256
            })
            &&& exists|from: Seq<int>|
                #![trigger from.len()]
                {
                    &&& from.len() == rules.len()
                    &&& from.no_duplicates()
                    &&& forall|k: int|
                        0 <= k < from.len() ==> 0 <= #[trigger] from[k] < found.len() && rules[k]
                            == found[from[k]].1
                    &&& forall|j: int, k: int|
                        0 <= j < k < from.len() ==> found[#[trigger] from[j]].0
                            >= found[#[trigger] from[k]].0
                    &&& forall|i: int, k: int|
                        0 <= i < found.len() && 0 <= k < from.len() && !from.contains(i)
                            ==> (#[trigger] found[i]).0 <= found[#[trigger] from[k]].0
                }
        }),
{
    let keys = savings_of(found);
    let order = ranking(keys);
    law_ranking(keys);
    law_ranking_descends(keys);
    let rules = selected(found);
    let from = Seq::new(rules.len(), |k: int| order[k] as int);
    assert forall|k: int| 0 <= k < from.len() implies 0 <= #[trigger] from[k] < found.len()
        && rules[k] == found[from[k]].1 by {
        assert(order[k] < keys.len());
    }
    assert forall|j: int, k: int| 0 <= j < k < from.len() implies found[#[trigger] from[j]].0
        >= found[#[trigger] from[k]].0 by {
        assert(order[j] < keys.len() && order[k] < keys.len());
        assert(keys[order[j] as int] >= keys[order[k] as int]);
    }
    assert forall|i: int, k: int|
        0 <= i < found.len() && 0 <= k < from.len() && !from.contains(i) implies (
    #[trigger] found[i]).0 <= found[#[trigger] from[k]].0 by {
        assert(order.contains(i as usize));
        let m = choose|m: int| 0 <= m < order.len() && order[m] == i as usize;
        if m < from.len() {
            assert(from[m] == i);
        }
        assert(order[k] < keys.len());
        assert(keys[order[k] as int] >= keys[order[m] as int]);
    }
    assert(from.no_duplicates());
    assert(from.len() == rules.len());
}

proof fn lemma_rules_added_new(rules: Seq<Rule>)
    requires
        forall|j: int, k: int|
            0 <= j < k < rules.len() ==> generated(#[trigger] rules[j]) != generated(
                #[trigger] rules[k],
            ),
    ensures
        rules_added(empty_library(), rules).entries == Seq::new(
            rules.len(),
            |k: int| Entry::Dfa(rules[k]),
        ),
        rules_added(empty_library(), rules).bytes == Seq::new(
            rules.len(),
            |k: int| generated(rules[k]),
        ),
    decreases rules.len(),
{
    if rules.len() == 0 {
        assert(rules_added(empty_library(), rules).entries =~= Seq::new(
            0,
            |k: int| Entry::Dfa(rules[k]),
        ));
        assert(rules_added(empty_library(), rules).bytes =~= Seq::new(
            0,
            |k: int| generated(rules[k]),
        ));
    } else {
        let short = rules.drop_last();
        assert forall|j: int, k: int| 0 <= j < k < short.len() implies generated(
            #[trigger] short[j],
        ) != generated(#[trigger] short[k]) by {
            assert(short[j] == rules[j] && short[k] == rules[k]);
        }
        lemma_rules_added_new(short);
        let before = rules_added(empty_library(), short);
        let last = rules[rules.len() - 1];
        lemma_find_from(before.bytes, generated(last), 0);
        if find(before.bytes, generated(last)) is Some {
            let j = find(before.bytes, generated(last))->0;
            assert(before.bytes[j] == generated(short[j]));
            assert(short[j] == rules[j]);
            assert(generated(rules[j]) != generated(rules[rules.len() - 1]));
        }
        assert(rules_added(empty_library(), rules).entries =~= Seq::new(
            rules.len(),
            |k: int| Entry::Dfa(rules[k]),
        ));
        assert(rules_added(empty_library(), rules).bytes =~= Seq::new(
            rules.len(),
            |k: int| generated(rules[k]),
        ));
    }
}

/// The library that encoding begins with has an axiom for each of the candidates that
/// were taken, in their order, and no other.
pub proof fn law_first_library_holds(data: Seq<u8>)
    requires
        candidates(data).len() <= usize::MAX,
    ensures
        ({
            let rules = selected(candidates(data));
            let lib = first_library(data);
            &&& lib.entries == Seq::new(rules.len(), |k: int| Entry::Dfa(rules[k]))
            &&& lib.bytes == Seq::new(rules.len(), |k: int| generated(rules[k]))
        }),
{
    let found = candidates(data);
    let keys = savings_of(found);
    let order = ranking(keys);
    let rules = selected(found);
    law_ranking_descends(keys);
    law_candidates(data, Seq::empty());
    assert forall|j: int, k: int| 0 <= j < k < rules.len() implies generated(#[trigger] rules[j])
        != generated(#[trigger] rules[k]) by {
        let a = order[j] as int;
        let b = order[k] as int;
        assert(a < found.len() && b < found.len() && a != b);
        assert(rules[j] == found[a].1 && rules[k] == found[b].1);
        if a < b {
            assert(generated(found[a].1) != generated(found[b].1));
        } else {
            assert(generated(found[b].1) != generated(found[a].1));
        }
    }
    lemma_rules_added_new(rules);
}

/// A byte string of 2 to 64 bytes that recurs and saves something becomes an axiom,
/// unless there are 256 axioms, each of which saves at least as much.
pub proof fn law_pattern_becomes_axiom(data: Seq<u8>, p: Seq<u8>)
    requires
        data.len() <= usize::MAX,
        candidates(data).len() <= usize::MAX,
        2 <= p.len() <= 64,
        p.len() <= data.len(),
        times(data, p) >= 2,
        times(data, p) * (p.len() - 2) > 3 + rule_cost(inferred(p)),
    ensures
        ({
            let lib = first_library(data);
            ||| lib.bytes.contains(p)
            ||| lib.bytes.len() == 256 && forall|k: int|
                0 <= k < 256 ==> {
                    let b = #[trigger] lib.bytes[k];
                    times(data, b) * (b.len() - 2) - (3 + rule_cost(inferred(b))) >= times(data, p)
                        * (p.len() - 2) - (3 + rule_cost(inferred(p)))
                }
        }),
{
    let found = candidates(data);
    let rules = selected(found);
    let lib = first_library(data);
    let s = times(data, p) * (p.len() - 2) - (3 + rule_cost(inferred(p)));
    law_candidates(data, p);
    law_selected(found);
    law_first_library_holds(data);
    lemma_times_bound(data, p);
    lemma_savings(p, times(data, p));
    lemma_savings_exact(p, times(data, p));
    let from = choose|from: Seq<int>|
        #![trigger from.len()]
        {
            &&& from.len() == rules.len()
            &&& from.no_duplicates()
            &&& forall|k: int|
                0 <= k < from.len() ==> 0 <= #[trigger] from[k] < found.len() && rules[k]
                    == found[from[k]].1
            &&& forall|j: int, k: int|
                0 <= j < k < from.len() ==> found[#[trigger] from[j]].0
                    >= found[#[trigger] from[k]].0
            &&& forall|i: int, k: int|
                0 <= i < found.len() && 0 <= k < from.len() && !from.contains(i)
                    ==> (#[trigger] found[i]).0 <= found[#[trigger] from[k]].0
        };
    let i = choose|i: int| 0 <= i < found.len() && found[i] == (s as i128, inferred(p));
    law_inferred_generates(p);
    if from.contains(i) {
        let k = choose|k: int| 0 <= k < from.len() && from[k] == i;
        assert(rules[k] == inferred(p));
        assert(lib.bytes[k] == p);
    } else {
        if rules.len() < 256 {
            lemma_all_taken(from, found.len() as int, i);
        }
        assert forall|k: int| 0 <= k < 256 implies ({
            let b = #[trigger] lib.bytes[k];
            times(data, b) * (b.len() - 2) - (3 + rule_cost(inferred(b))) >= s
        }) by {
            let b = lib.bytes[k];
            assert(0 <= from[k] < found.len());
            assert(generated(found[from[k]].1) == b);
            law_candidates(data, b);
            lemma_times_bound(data, b);
            lemma_savings(b, times(data, b));
            lemma_savings_exact(b, times(data, b));
            assert(found[i].0 <= found[from[k]].0);
        }
    }
}

proof fn lemma_times_bound(data: Seq<u8>, p: Seq<u8>)
    requires
        2 <= p.len() <= data.len() <= usize::MAX,
    ensures
        times(data, p) <= usize::MAX,
{
    let w = windows(data, p.len() as int);
    lemma_times(data, p);
    lemma_occurrences_bound(w, p, w.len() as int);
}

/// As many different indices as there are leave none out.
proof fn lemma_all_taken(from: Seq<int>, n: int, i: int)
    requires
        from.no_duplicates(),
        from.len() == n,
        forall|k: int| 0 <= k < from.len() ==> 0 <= #[trigger] from[k] < n,
        0 <= i < n,
    ensures
        from.contains(i),
{
    let taken = from.to_set();
    let all = vstd::set_lib::set_int_range(0, n);
    vstd::set_lib::lemma_int_range(0, n);
    from.unique_seq_to_set();
    assert(taken.subset_of(all)) by {
        assert forall|x: int| taken.contains(x) implies all.contains(x) by {
            let k = choose|k: int| 0 <= k < from.len() && from[k] == x;
            assert(0 <= from[k] < n);
        }
    }
    vstd::set_lib::lemma_subset_equality(taken, all);
    assert(taken.contains(i));
}

} // verus!
