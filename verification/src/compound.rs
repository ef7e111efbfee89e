//! Compounding: replacing frequent pairs in a sequence of axioms by axioms of their
//! own.

use vstd::prelude::*;

use crate::bytes::extend;
use crate::library::AxiomLib;
use crate::library::Entry;
use crate::library::Library;
use crate::library::distinct;
use crate::library::expansion;
use crate::library::extends;
use crate::library::ids_below;
use crate::library::joined;
use crate::library::law_register;
use crate::library::law_sound_resolves;
use crate::library::lemma_extends_at;
use crate::library::lemma_extends_self;
use crate::library::lemma_extends_trans;
use crate::library::lemma_joined_concat;
use crate::library::lemma_joined_one;
use crate::library::lemma_registered_extends;
use crate::library::refers_back;
use crate::library::registered;
use crate::library::sound;
use crate::order::law_ranking;
use crate::order::law_ranking_descends;
use crate::order::rank;
use crate::order::ranking;
use crate::order::ranks;
use crate::progress::accepts;
use crate::progress::point_between;
use crate::progress::tell;
use crate::progress::told;
use crate::tally::Tally;
use crate::tally::is_first;
use crate::tally::law_occurrences;
use crate::tally::lemma_first_place;
use crate::tally::lemma_occurrences_bound;
use crate::tally::lemma_tally_transfers;
use crate::tally::occurrences;
use crate::tally::tally;

verus! {

/// How often a sequence is compounded, at most.
pub const MAX_PASSES: usize = 12;

/// How often a pair has to occur more than, to become a compound.
pub const PAIR_THRESHOLD: usize = 5;

/// The neighbours in a sequence.
pub open spec fn neighbours(seq: Seq<u32>) -> Seq<(u32, u32)> {
    Seq::new(
        if seq.len() == 0 {
            0
        } else {
            (seq.len() - 1) as nat
        },
        |i: int| (seq[i], seq[i + 1]),
    )
}

/// The positions before `n` at which a frequent pair stands first.
pub open spec fn frequent_before(pairs: Seq<(u32, u32)>, n: int) -> Seq<usize>
    decreases n,
{
    if n <= 0 {
        Seq::empty()
    } else if is_first(pairs, n - 1) && occurrences(pairs, pairs[n - 1]) > PAIR_THRESHOLD {
        frequent_before(pairs, n - 1).push((n - 1) as usize)
    } else {
        frequent_before(pairs, n - 1)
    }
}

/// How often the pairs at the given positions occur.
pub open spec fn counts_at(pairs: Seq<(u32, u32)>, at: Seq<usize>) -> Seq<i128> {
    Seq::new(at.len(), |k: int| occurrences(pairs, pairs[at[k] as int]) as i128)
}

/// Where the frequent pairs stand first, the most frequent first.
pub open spec fn frequent(pairs: Seq<(u32, u32)>) -> Seq<usize> {
    let at = frequent_before(pairs, pairs.len() as int);
    let order = ranking(counts_at(pairs, at));
    Seq::new(at.len(), |k: int| at[order[k] as int])
}

/// The library after registering the pairs at the given positions as compounds,
/// and the compound of each pair.
pub open spec fn compounded(lib: Library, pairs: Seq<(u32, u32)>, at: Seq<usize>) -> (
    Library,
    Map<(u32, u32), u32>,
)
    decreases at.len(),
{
    if at.len() == 0 {
        (lib, Map::empty())
    } else {
        let (before, ids) = compounded(lib, pairs, at.drop_last());
        let pair = pairs[at.last() as int];
        let (after, id) = registered(
            before,
            Entry::Compound(seq![pair.0, pair.1]),
            expansion(before.entries, pair.0) + expansion(before.entries, pair.1),
        );
        (after, ids.insert(pair, id))
    }
}

/// A sequence from `j` on with each pair that has a compound replaced, from left
/// to right.
pub open spec fn rewritten(seq: Seq<u32>, ids: Map<(u32, u32), u32>, j: int) -> Seq<u32>
    decreases seq.len() - j,
{
    if j >= seq.len() {
        Seq::empty()
    } else if j + 1 < seq.len() && ids.contains_key((seq[j], seq[j + 1])) {
        seq![ids[(seq[j], seq[j + 1])]] + rewritten(seq, ids, j + 2)
    } else {
        seq![seq[j]] + rewritten(seq, ids, j + 1)
    }
}

/// One pass: the frequent pairs become compounds, and the sequence uses them.
pub open spec fn one_pass(lib: Library, seq: Seq<u32>) -> (Library, Seq<u32>) {
    let pairs = neighbours(seq);
    let (after, ids) = compounded(lib, pairs, frequent(pairs));
    (after, rewritten(seq, ids, 0))
}

/// Up to `n` passes: they end when no pair is frequent, or a pass leaves the
/// sequence as long as it was.
pub open spec fn passes(lib: Library, seq: Seq<u32>, n: nat) -> (Library, Seq<u32>)
    decreases n,
{
    if n == 0 || frequent(neighbours(seq)).len() == 0 {
        (lib, seq)
    } else {
        let (after, shorter) = one_pass(lib, seq);
        if shorter.len() == seq.len() {
            (after, shorter)
        } else {
            passes(after, shorter, (n - 1) as nat)
        }
    }
}

/// Tallies the neighbours in a sequence.
fn tally_pairs(seq: &[u32]) -> (t: Tally)
    ensures
        t.tallies(neighbours(seq@)),
{
    let n: usize = seq.len();
    let ghost pairs = neighbours(seq@);
    let mut keys: Vec<u128> = Vec::with_capacity(n);
    let mut i: usize = 1;
    while i < n
        invariant
            1 <= i,
            n == seq@.len(),
            n >= 1 ==> i <= n,
            n == 0 ==> i == 1,
            keys@.len() == i - 1,
            forall|k: int|
                0 <= k < i - 1 ==> #[trigger] keys@[k] == seq@[k] * 0x1_0000_0000 + seq@[k + 1],
        decreases n - i,
    {
        keys.push(seq[i - 1] as u128 * 0x1_0000_0000 + seq[i] as u128);
        i += 1;
    }
    let t = tally(keys.as_slice());
    proof {
        assert(keys@.len() == pairs.len());
        assert forall|i: int, j: int|
            #![trigger keys@[i], keys@[j]]
            0 <= i < pairs.len() && 0 <= j < pairs.len() implies (keys@[i] == keys@[j] <==> pairs[i]
            == pairs[j]) by {
            assert(keys@[i] == seq@[i] * 0x1_0000_0000 + seq@[i + 1]);
            assert(keys@[j] == seq@[j] * 0x1_0000_0000 + seq@[j + 1]);
        }
        lemma_tally_transfers(t, keys@, pairs);
    }
    t
}

/// Where the frequent pairs of a sequence stand first, the most frequent first.
fn frequent_pairs(t: &Tally, Ghost(pairs): Ghost<Seq<(u32, u32)>>) -> (out: Vec<usize>)
    requires
        t.tallies(pairs),
    ensures
        out@ == frequent(pairs),
        firsts(pairs, out@),
{
    let mut at: Vec<usize> = Vec::new();
    let mut counts: Vec<i128> = Vec::new();
    let mut i: usize = 0;
    while i < t.count.len()
        invariant
            t.tallies(pairs),
            i <= pairs.len(),
            at@ == frequent_before(pairs, i as int),
            counts@ == counts_at(pairs, at@),
        decreases pairs.len() - i,
    {
        let c: usize = t.count[i];
        assert(c == (if is_first(pairs, i as int) {
            occurrences(pairs, pairs[i as int])
        } else {
            0
        }));
        if c > PAIR_THRESHOLD {
            at.push(i);
            counts.push(c as i128);
            assert(counts@ =~= counts_at(pairs, at@));
        }
        i += 1;
    }
    let order = rank(counts.as_slice());
    let mut out: Vec<usize> = Vec::with_capacity(order.len());
    let mut k: usize = 0;
    while k < order.len()
        invariant
            k <= order@.len(),
            at@ == frequent_before(pairs, pairs.len() as int),
            order@ == ranking(counts_at(pairs, at@)),
            ranks(counts_at(pairs, at@), 0, at@.len() as int, order@),
            out@ == frequent(pairs).subrange(0, k as int),
        decreases order@.len() - k,
    {
        assert(order@[k as int] < at@.len());
        out.push(at[order[k]]);
        k += 1;
        assert(out@ =~= frequent(pairs).subrange(0, k as int));
    }
    assert(out@ =~= frequent(pairs));
    proof {
        lemma_frequent_firsts(pairs);
    }
    out
}

/// Whether each position of `at` is one at which a pair stands first.
pub open spec fn firsts(pairs: Seq<(u32, u32)>, at: Seq<usize>) -> bool {
    forall|k: int|
        0 <= k < at.len() ==> #[trigger] at[k] < pairs.len() && is_first(pairs, at[k] as int)
}

proof fn lemma_frequent_before_firsts(pairs: Seq<(u32, u32)>, n: int)
    requires
        n <= pairs.len() <= usize::MAX,
    ensures
        firsts(pairs, frequent_before(pairs, n)),
    decreases n,
{
    if n > 0 {
        lemma_frequent_before_firsts(pairs, n - 1);
    }
}

/// The frequent pairs are listed by first positions.
pub proof fn lemma_frequent_firsts(pairs: Seq<(u32, u32)>)
    requires
        pairs.len() <= usize::MAX,
    ensures
        firsts(pairs, frequent(pairs)),
{
    let at = frequent_before(pairs, pairs.len() as int);
    let keys = counts_at(pairs, at);
    lemma_frequent_before_firsts(pairs, pairs.len() as int);
    lemma_frequent_before_short(pairs, pairs.len() as int);
    law_ranking(keys);
    assert forall|k: int| 0 <= k < at.len() implies #[trigger] frequent(pairs)[k] < pairs.len()
        && is_first(pairs, frequent(pairs)[k] as int) by {
        let j = ranking(keys)[k] as int;
        assert(0 <= j < at.len());
        assert(at[j] < pairs.len());
    }
}

proof fn lemma_frequent_before_short(pairs: Seq<(u32, u32)>, n: int)
    ensures
        frequent_before(pairs, n).len() <= n || n < 0,
        n < 0 ==> frequent_before(pairs, n).len() == 0,
    decreases n,
{
    if n > 0 {
        lemma_frequent_before_short(pairs, n - 1);
    }
}

/// Whether `slots` holds, at first positions, what `ids` maps the pairs to.
spec fn slots_hold(
    pairs: Seq<(u32, u32)>,
    ids: Map<(u32, u32), u32>,
    slots: Seq<Option<u32>>,
) -> bool {
    &&& slots.len() == pairs.len()
    &&& forall|f: int|
        0 <= f < pairs.len() && is_first(pairs, f) ==> match #[trigger] slots[f] {
            Some(id) => ids.contains_key(pairs[f]) && ids[pairs[f]] == id,
            None => !ids.contains_key(pairs[f]),
        }
}

/// Whether the identifiers in `slots` name axioms of a library of `n`.
spec fn slots_below(slots: Seq<Option<u32>>, n: int) -> bool {
    forall|f: int| 0 <= f < slots.len() && (#[trigger] slots[f]) is Some ==> slots[f]->0 < n
}

/// Registers the pairs at the positions `at` as compounds. Gives, for each first
/// position, the compound of its pair.
fn add_compounds(lib: &mut AxiomLib, seq: &[u32], at: &[usize]) -> (slots: Vec<Option<u32>>)
    requires
        old(lib).wf(),
        ids_below(seq@, old(lib)@.entries.len() as int),
        firsts(neighbours(seq@), at@),
    ensures
        final(lib).wf(),
        old(lib)@.entries.len() <= final(lib)@.entries.len(),
        final(lib)@ == compounded(old(lib)@, neighbours(seq@), at@).0,
        slots_hold(neighbours(seq@), compounded(old(lib)@, neighbours(seq@), at@).1, slots@),
        slots_below(slots@, final(lib)@.entries.len() as int),
{
    let ghost start = lib@;
    let ghost pairs = neighbours(seq@);
    let n: usize = seq.len();
    let mut slots: Vec<Option<u32>> = Vec::with_capacity(n);
    let mut i: usize = 1;
    while i < n
        invariant
            1 <= i,
            n == seq@.len(),
            n >= 1 ==> i <= n,
            n == 0 ==> i == 1,
            slots@.len() == i - 1,
            forall|f: int| 0 <= f < slots@.len() ==> (#[trigger] slots@[f]) is None,
        decreases n - i,
    {
        slots.push(None);
        i += 1;
    }
    let mut k: usize = 0;
    assert(at@.subrange(0, 0) =~= Seq::empty());
    while k < at.len()
        invariant
            n == seq@.len(),
            pairs == neighbours(seq@),
            k <= at@.len(),
            lib.wf(),
            start.entries.len() <= lib@.entries.len(),
            ids_below(seq@, start.entries.len() as int),
            firsts(pairs, at@),
            lib@ == compounded(start, pairs, at@.subrange(0, k as int)).0,
            slots_hold(pairs, compounded(start, pairs, at@.subrange(0, k as int)).1, slots@),
            slots_below(slots@, lib@.entries.len() as int),
        decreases at@.len() - k,
    {
        let p: usize = at[k];
        assert(p < pairs.len() && is_first(pairs, p as int));
        let a: u32 = seq[p];
        let b: u32 = seq[p + 1];
        let ghost before = lib@;
        let ghost held = slots@;
        let ghost ids = compounded(start, pairs, at@.subrange(0, k as int)).1;
        let mut bytes = lib.resolve(a);
        extend(&mut bytes, lib.resolve(b).as_slice());
        let mut refs: Vec<u32> = Vec::with_capacity(2);
        refs.push(a);
        refs.push(b);
        assert(refs@ =~= seq![a, b]);
        assert forall|q: int| 0 <= q < refs@.len() implies #[trigger] refs@[q] < lib@.entries.len() by {
            assert(seq@[p as int] < start.entries.len());
            assert(seq@[p + 1] < start.entries.len());
        }
        let id: u32 = lib.add_compound(refs, bytes);
        slots.set(p, Some(id));
        proof {
            let now = at@.subrange(0, k + 1);
            assert(now.drop_last() =~= at@.subrange(0, k as int));
            assert(now.last() == p);
            assert(compounded(start, pairs, now).1 == ids.insert(pairs[p as int], id));
            assert forall|f: int| 0 <= f < pairs.len() && is_first(pairs, f) implies match
                #[trigger] slots@[f] {
                Some(v) => ids.insert(pairs[p as int], id).contains_key(pairs[f]) && ids.insert(
                    pairs[p as int],
                    id,
                )[pairs[f]] == v,
                None => !ids.insert(pairs[p as int], id).contains_key(pairs[f]),
            } by {
                if f != p {
                    assert(slots@[f] == held[f]);
                    assert(pairs[f] != pairs[p as int]) by {
                        if f < p {
                            assert(is_first(pairs, p as int));
                        } else {
                            assert(is_first(pairs, f));
                        }
                    }
                }
            }
            assert forall|f: int| 0 <= f < slots@.len() && (#[trigger] slots@[f]) is Some implies slots@[f]->0
                < lib@.entries.len() by {
                if f != p {
                    assert(slots@[f] == held[f]);
                }
            }
        }
        k += 1;
    }
    assert(at@.subrange(0, k as int) =~= at@);
    slots
}

/// Replaces each pair that has a compound, from left to right.
fn rewrite(
    seq: &[u32],
    t: &Tally,
    slots: &[Option<u32>],
    Ghost(ids): Ghost<Map<(u32, u32), u32>>,
    Ghost(n): Ghost<int>,
) -> (out: Vec<u32>)
    requires
        t.tallies(neighbours(seq@)),
        slots_hold(neighbours(seq@), ids, slots@),
        slots_below(slots@, n),
        ids_below(seq@, n),
    ensures
        out@ == rewritten(seq@, ids, 0),
        ids_below(out@, n),
{
    let ghost pairs = neighbours(seq@);
    let total: usize = seq.len();
    let mut out: Vec<u32> = Vec::with_capacity(total);
    let mut j: usize = 0;
    assert(out@ + rewritten(seq@, ids, 0) =~= rewritten(seq@, ids, 0));
    while j < total
        invariant
            total == seq@.len(),
            pairs == neighbours(seq@),
            j <= total,
            t.tallies(pairs),
            slots_hold(pairs, ids, slots@),
            slots_below(slots@, n),
            ids_below(seq@, n),
            ids_below(out@, n),
            out@ + rewritten(seq@, ids, j as int) == rewritten(seq@, ids, 0),
        decreases total - j,
    {
        let ghost before = out@;
        let ghost rest = rewritten(seq@, ids, j as int);
        let mut compound: Option<u32> = None;
        if total - j > 1 {
            let f: usize = t.first[j];
            assert(pairs[f as int] == pairs[j as int] && is_first(pairs, f as int));
            compound = slots[f];
        }
        match compound {
            Some(id) => {
                out.push(id);
                assert(before + rest =~= out@ + rewritten(seq@, ids, j + 2));
                j += 2;
            },
            None => {
                out.push(seq[j]);
                assert(before + rest =~= out@ + rewritten(seq@, ids, j + 1));
                j += 1;
            },
        }
    }
    assert(out@ + rewritten(seq@, ids, total as int) =~= out@);
    out
}

/// How many of at most `n` passes begin: each but the last makes the sequence shorter.
pub open spec fn passes_begun(lib: Library, seq: Seq<u32>, n: nat) -> nat
    decreases n,
{
    if n == 0 {
        0
    } else if frequent(neighbours(seq)).len() == 0 {
        1
    } else {
        let (after, shorter) = one_pass(lib, seq);
        if shorter.len() == seq.len() {
            1
        } else {
            1 + passes_begun(after, shorter, (n - 1) as nat)
        }
    }
}

/// The point at which the pass `k` begins.
pub open spec fn pass_point(k: int) -> u32 {
    (750 + k * 150 / (MAX_PASSES as int)) as u32
}

/// That the points of the passes that begin were told, between `from` and `to`.
pub open spec fn passes_told<F: Fn(u32)>(
    report: &F,
    lib: Library,
    seq: Seq<u32>,
    from: u32,
    to: u32,
) -> bool {
    forall|k: int|
        0 <= k < passes_begun(lib, seq, MAX_PASSES as nat) ==> told(
            report,
            point_between(from, to, #[trigger] pass_point(k)) as u32,
        )
}

/// Compounds a sequence of axioms. Reports from 75% to 90% of the way from
/// `p_start` to `p_end`.
pub fn compound_passes<F: Fn(u32)>(
    lib: &mut AxiomLib,
    seq: Vec<u32>,
    report: &F,
    p_start: u32,
    p_end: u32,
) -> (out: Vec<u32>)
    requires
        old(lib).wf(),
        ids_below(seq@, old(lib)@.entries.len() as int),
        accepts(*report, p_start, p_end),
        p_start <= p_end <= 1000,
    ensures
        final(lib).wf(),
        (final(lib)@, out@) == passes(old(lib)@, seq@, MAX_PASSES as nat),
        ids_below(out@, final(lib)@.entries.len() as int),
        passes_told(report, old(lib)@, seq@, p_start, p_end),
{
    let mut current = seq;
    let mut pass: usize = 0;
    while pass < MAX_PASSES
        invariant
            pass <= MAX_PASSES,
            lib.wf(),
            accepts(*report, p_start, p_end),
            p_start <= p_end <= 1000,
            ids_below(current@, lib@.entries.len() as int),
            passes(old(lib)@, seq@, MAX_PASSES as nat) == passes(
                lib@,
                current@,
                (MAX_PASSES - pass) as nat,
            ),
            passes_begun(old(lib)@, seq@, MAX_PASSES as nat) == pass + passes_begun(
                lib@,
                current@,
                (MAX_PASSES - pass) as nat,
            ),
            forall|k: int|
                0 <= k < pass ==> told(
                    report,
                    point_between(p_start, p_end, #[trigger] pass_point(k)) as u32,
                ),
        decreases MAX_PASSES - pass,
    {
        let part: u32 = 750 + (pass as u32) * 150 / 12;
        assert(part == pass_point(pass as int));
        tell(report, p_start, p_end, part);
        let ghost pairs = neighbours(current@);
        let ghost before = lib@;
        let t = tally_pairs(current.as_slice());
        let at = frequent_pairs(&t, Ghost(pairs));
        if at.len() == 0 {
            return current;
        }
        let slots = add_compounds(lib, current.as_slice(), at.as_slice());
        let ghost ids = compounded(before, pairs, at@).1;
        assert forall|k: int| 0 <= k < current@.len() implies #[trigger] current@[k] < lib@.entries.len() by {
            assert(current@[k] < before.entries.len());
        }
        let shorter = rewrite(
            current.as_slice(),
            &t,
            slots.as_slice(),
            Ghost(ids),
            Ghost(lib@.entries.len() as int),
        );
        if shorter.len() == current.len() {
            return shorter;
        }
        current = shorter;
        pass += 1;
    }
    current
}

/// Compounding adds axioms and changes none.
pub proof fn lemma_compounded_extends(lib: Library, pairs: Seq<(u32, u32)>, at: Seq<usize>)
    requires
        lib.entries.len() == lib.bytes.len(),
    ensures
        ({
            let after = compounded(lib, pairs, at).0;
            &&& extends(after, lib)
            &&& after.entries.len() == after.bytes.len()
            &&& after.entries.len() <= lib.entries.len() + at.len()
        }),
    decreases at.len(),
{
    if at.len() == 0 {
        lemma_extends_self(lib);
    } else {
        lemma_compounded_extends(lib, pairs, at.drop_last());
        let before = compounded(lib, pairs, at.drop_last()).0;
        let pair = pairs[at.last() as int];
        let e = Entry::Compound(seq![pair.0, pair.1]);
        let b = expansion(before.entries, pair.0) + expansion(before.entries, pair.1);
        lemma_registered_extends(before, e, b);
        lemma_extends_trans(registered(before, e, b).0, before, lib);
    }
}

/// Joining two axioms gives the bytes of the one and then of the other.
proof fn lemma_joined_two(bytes: Seq<Seq<u8>>, a: u32, b: u32)
    ensures
        joined(bytes, seq![a, b]) == bytes[a as int] + bytes[b as int],
{
    assert(seq![a, b] =~= seq![a] + seq![b]);
    lemma_joined_concat(bytes, seq![a], seq![b]);
    lemma_joined_one(bytes, a);
    lemma_joined_one(bytes, b);
}

/// Whether each pair in `ids` has an axiom that stands for the bytes of the pair.
pub open spec fn pairs_held(lib: Library, after: Library, ids: Map<(u32, u32), u32>) -> bool {
    forall|pair: (u32, u32)| #[trigger]
        ids.contains_key(pair) ==> {
            &&& pair.0 < lib.entries.len()
            &&& pair.1 < lib.entries.len()
            &&& ids[pair] < after.entries.len()
            &&& after.bytes[ids[pair] as int] == lib.bytes[pair.0 as int]
                + lib.bytes[pair.1 as int]
        }
}

/// Compounding keeps a library sound and without duplicates, and each pair gets
/// an axiom that stands for its bytes.
pub proof fn law_compounded(lib: Library, pairs: Seq<(u32, u32)>, at: Seq<usize>)
    requires
        sound(lib),
        distinct(lib),
        forall|k: int| 0 <= k < at.len() ==> #[trigger] at[k] < pairs.len(),
        forall|i: int|
            0 <= i < pairs.len() ==> (#[trigger] pairs[i]).0 < lib.entries.len() && pairs[i].1
                < lib.entries.len(),
        compounded(lib, pairs, at).0.entries.len() <= 0x1_0000_0000,
    ensures
        ({
            let (after, ids) = compounded(lib, pairs, at);
            &&& sound(after)
            &&& distinct(after)
            &&& pairs_held(lib, after, ids)
        }),
    decreases at.len(),
{
    if at.len() > 0 {
        let (before, ids) = compounded(lib, pairs, at.drop_last());
        let pair = pairs[at.last() as int];
        assert(at.last() == at[at.len() - 1]);
        let e = Entry::Compound(seq![pair.0, pair.1]);
        let b = expansion(before.entries, pair.0) + expansion(before.entries, pair.1);
        let (after, id) = registered(before, e, b);
        lemma_compounded_extends(lib, pairs, at.drop_last());
        lemma_registered_extends(before, e, b);
        assert forall|k: int| 0 <= k < at.drop_last().len() implies #[trigger] at.drop_last()[k]
            < pairs.len() by {
            assert(at.drop_last()[k] == at[k]);
        }
        law_compounded(lib, pairs, at.drop_last());
        law_sound_resolves(before, pair.0, before.entries.len());
        law_sound_resolves(before, pair.1, before.entries.len());
        lemma_joined_two(before.bytes, pair.0, pair.1);
        assert(pairs[at.last() as int].0 < lib.entries.len());
        assert(refers_back(e, before.entries.len() as int));
        law_register(before, e, b);
        lemma_extends_at(before, lib, pair.0 as int);
        lemma_extends_at(before, lib, pair.1 as int);
        let now = ids.insert(pair, id);
        assert forall|p: (u32, u32)| #[trigger] now.contains_key(p) implies {
            &&& p.0 < lib.entries.len()
            &&& p.1 < lib.entries.len()
            &&& now[p] < after.entries.len()
            &&& after.bytes[now[p] as int] == lib.bytes[p.0 as int] + lib.bytes[p.1 as int]
        } by {
            if p != pair {
                assert(ids.contains_key(p));
                lemma_extends_at(after, before, ids[p] as int);
            }
        }
    }
}

/// Rewriting a sequence with such axioms keeps the bytes that it stands for, and
/// makes it no longer.
pub proof fn law_rewritten(
    lib: Library,
    after: Library,
    seq: Seq<u32>,
    ids: Map<(u32, u32), u32>,
    j: int,
)
    requires
        extends(after, lib),
        lib.entries.len() == lib.bytes.len(),
        pairs_held(lib, after, ids),
        ids_below(seq, lib.entries.len() as int),
        0 <= j <= seq.len(),
    ensures
        ids_below(rewritten(seq, ids, j), after.entries.len() as int),
        joined(after.bytes, rewritten(seq, ids, j)) == joined(
            lib.bytes,
            seq.subrange(j, seq.len() as int),
        ),
    decreases seq.len() - j,
{
    let n = seq.len() as int;
    let out = rewritten(seq, ids, j);
    if j < n {
        assert(seq[j] < lib.entries.len());
        if j + 1 < n && ids.contains_key((seq[j], seq[j + 1])) {
            let id = ids[(seq[j], seq[j + 1])];
            law_rewritten(lib, after, seq, ids, j + 2);
            lemma_joined_concat(after.bytes, seq![id], rewritten(seq, ids, j + 2));
            lemma_joined_one(after.bytes, id);
            assert(seq.subrange(j, n) =~= seq![seq[j], seq[j + 1]] + seq.subrange(j + 2, n));
            lemma_joined_concat(lib.bytes, seq![seq[j], seq[j + 1]], seq.subrange(j + 2, n));
            lemma_joined_two(lib.bytes, seq[j], seq[j + 1]);
            lemma_ids_below_first(id, rewritten(seq, ids, j + 2), after.entries.len() as int);
        } else {
            law_rewritten(lib, after, seq, ids, j + 1);
            lemma_joined_concat(after.bytes, seq![seq[j]], rewritten(seq, ids, j + 1));
            lemma_joined_one(after.bytes, seq[j]);
            assert(seq.subrange(j, n) =~= seq![seq[j]] + seq.subrange(j + 1, n));
            lemma_joined_concat(lib.bytes, seq![seq[j]], seq.subrange(j + 1, n));
            lemma_joined_one(lib.bytes, seq[j]);
            lemma_extends_at(after, lib, seq[j] as int);
            lemma_ids_below_first(seq[j], rewritten(seq, ids, j + 1), after.entries.len() as int);
        }
    } else {
        assert(seq.subrange(j, n) =~= Seq::empty());
    }
}

proof fn lemma_ids_below_first(id: u32, rest: Seq<u32>, n: int)
    requires
        id < n,
        ids_below(rest, n),
    ensures
        ids_below(seq![id] + rest, n),
{
    assert forall|k: int| 0 <= k < (seq![id] + rest).len() implies #[trigger] (seq![id] + rest)[k]
        < n by {
        if k > 0 {
            assert(rest[k - 1] < n);
        }
    }
}

proof fn lemma_rewritten_len(seq: Seq<u32>, ids: Map<(u32, u32), u32>, j: int)
    requires
        0 <= j <= seq.len(),
    ensures
        rewritten(seq, ids, j).len() <= seq.len() - j,
    decreases seq.len() - j,
{
    if j < seq.len() {
        if j + 1 < seq.len() && ids.contains_key((seq[j], seq[j + 1])) {
            lemma_rewritten_len(seq, ids, j + 2);
        } else {
            lemma_rewritten_len(seq, ids, j + 1);
        }
    }
}

/// Compounding never makes a sequence longer, changes no axiom, and adds at most
/// as many axioms in each pass as the sequence has members.
pub proof fn law_passes_bounds(lib: Library, seq: Seq<u32>, n: nat)
    requires
        lib.entries.len() == lib.bytes.len(),
    ensures
        ({
            let (after, out) = passes(lib, seq, n);
            &&& out.len() <= seq.len()
            &&& extends(after, lib)
            &&& after.entries.len() == after.bytes.len()
            &&& after.entries.len() <= lib.entries.len() + n * seq.len()
        }),
    decreases n,
{
    let pairs = neighbours(seq);
    assert(n * seq.len() >= 0) by (nonlinear_arith)
        requires
            n >= 0,
            seq.len() >= 0,
    ;
    if n == 0 || frequent(pairs).len() == 0 {
        lemma_extends_self(lib);
    } else {
        let (after, ids) = compounded(lib, pairs, frequent(pairs));
        let shorter = rewritten(seq, ids, 0);
        lemma_compounded_extends(lib, pairs, frequent(pairs));
        lemma_frequent_before_short(pairs, pairs.len() as int);
        lemma_rewritten_len(seq, ids, 0);
        law_passes_bounds(after, shorter, (n - 1) as nat);
        assert((n - 1) * shorter.len() + seq.len() <= n * seq.len()) by (nonlinear_arith)
            requires
                n >= 1,
                0 <= shorter.len() <= seq.len(),
        ;
        assert(n * seq.len() >= seq.len()) by (nonlinear_arith)
            requires
                n >= 1,
                seq.len() >= 0,
        ;
        if shorter.len() != seq.len() {
            lemma_extends_trans(passes(after, shorter, (n - 1) as nat).0, after, lib);
        }
    }
}

/// Compounding loses nothing: a sound library without duplicates stays so, and
/// the sequence stands for the same bytes as before.
pub proof fn law_passes(lib: Library, seq: Seq<u32>, n: nat)
    requires
        sound(lib),
        distinct(lib),
        seq.len() <= usize::MAX,
        ids_below(seq, lib.entries.len() as int),
        passes(lib, seq, n).0.entries.len() <= 0x1_0000_0000,
    ensures
        ({
            let (after, out) = passes(lib, seq, n);
            &&& sound(after)
            &&& distinct(after)
            &&& ids_below(out, after.entries.len() as int)
            &&& joined(after.bytes, out) == joined(lib.bytes, seq)
        }),
    decreases n,
{
    let pairs = neighbours(seq);
    if n > 0 && frequent(pairs).len() > 0 {
        let at = frequent(pairs);
        let (after, ids) = compounded(lib, pairs, at);
        let shorter = rewritten(seq, ids, 0);
        lemma_compounded_extends(lib, pairs, at);
        law_passes_bounds(after, shorter, (n - 1) as nat);
        lemma_frequent_firsts(pairs);
        assert forall|k: int| 0 <= k < at.len() implies #[trigger] at[k] < pairs.len() by {
            assert(firsts(pairs, at));
        }
        assert forall|i: int| 0 <= i < pairs.len() implies (#[trigger] pairs[i]).0
            < lib.entries.len() && pairs[i].1 < lib.entries.len() by {
            assert(seq[i] < lib.entries.len());
            assert(seq[i + 1] < lib.entries.len());
        }
        law_compounded(lib, pairs, at);
        law_rewritten(lib, after, seq, ids, 0);
        lemma_rewritten_len(seq, ids, 0);
        assert(seq.subrange(0, seq.len() as int) =~= seq);
        if shorter.len() != seq.len() {
            law_passes(after, shorter, (n - 1) as nat);
        }
    }
}

/// The neighbours in a sequence are each member but the last, with the next.
pub proof fn law_neighbours(seq: Seq<u32>)
    ensures
        seq.len() > 0 ==> neighbours(seq) == seq.drop_last().zip_with(seq.drop_first()),
        seq.len() == 0 ==> neighbours(seq) == Seq::<(u32, u32)>::empty(),
{
    if seq.len() > 0 {
        assert(neighbours(seq) =~= seq.drop_last().zip_with(seq.drop_first()));
    } else {
        assert(neighbours(seq) =~= Seq::empty());
    }
}

proof fn lemma_frequent_before(pairs: Seq<(u32, u32)>, n: int)
    requires
        n <= pairs.len() <= usize::MAX,
    ensures
        ({
            let at = frequent_before(pairs, n);
            &&& forall|i: int|
                0 <= i < n && #[trigger] is_first(pairs, i) && occurrences(pairs, pairs[i]) > 5
                    ==> at.contains(i as usize)
            &&& forall|k: int|
                0 <= k < at.len() ==> #[trigger] at[k] < n && occurrences(
                    pairs,
                    pairs[at[k] as int],
                ) > 5
        }),
    decreases n,
{
    if n > 0 {
        lemma_frequent_before(pairs, n - 1);
        let before = frequent_before(pairs, n - 1);
        let at = frequent_before(pairs, n);
        assert forall|i: int|
            0 <= i < n && #[trigger] is_first(pairs, i) && occurrences(pairs, pairs[i])
                > 5 implies at.contains(i as usize) by {
            if i < n - 1 {
                assert(before.contains(i as usize));
                let k = choose|k: int| 0 <= k < before.len() && before[k] == i as usize;
                assert(at[k] == i as usize);
            } else {
                assert(at[at.len() - 1] == i as usize);
            }
        }
    }
}

/// The frequent pairs are those that occur more than five times: each of them is
/// listed, and no other.
proof fn lemma_frequent_iff(pairs: Seq<(u32, u32)>, x: (u32, u32))
    requires
        pairs.len() <= usize::MAX,
    ensures
        occurrences(pairs, x) > 5 <==> exists|k: int|
            0 <= k < frequent(pairs).len() && pairs[#[trigger] frequent(pairs)[k] as int] == x,
{
    let n = pairs.len() as int;
    let before = frequent_before(pairs, n);
    let keys = counts_at(pairs, before);
    let order = ranking(keys);
    let at = frequent(pairs);
    lemma_frequent_before(pairs, n);
    lemma_frequent_before_short(pairs, n);
    law_ranking(keys);
    if occurrences(pairs, x) > 5 {
        let i = lemma_first_place(pairs, x, n);
        assert(before.contains(i as usize));
        let m = choose|m: int| 0 <= m < before.len() && before[m] == i as usize;
        assert(order.contains(m as usize));
        let k = choose|k: int| 0 <= k < order.len() && order[k] == m as usize;
        assert(pairs[at[k] as int] == x);
    }
    if exists|k: int| 0 <= k < at.len() && pairs[#[trigger] at[k] as int] == x {
        let k = choose|k: int| 0 <= k < at.len() && pairs[#[trigger] at[k] as int] == x;
        assert(order[k] < before.len());
        assert(before[order[k] as int] == at[k]);
    }
}

/// The more frequent of two pairs is listed first.
proof fn lemma_frequent_descends(pairs: Seq<(u32, u32)>, j: int, k: int)
    requires
        pairs.len() <= usize::MAX,
        0 <= j < k < frequent(pairs).len(),
    ensures
        occurrences(pairs, pairs[frequent(pairs)[j] as int]) >= occurrences(
            pairs,
            pairs[frequent(pairs)[k] as int],
        ),
{
    let n = pairs.len() as int;
    let before = frequent_before(pairs, n);
    let keys = counts_at(pairs, before);
    lemma_frequent_before_short(pairs, n);
    law_ranking_descends(keys);
    let a = ranking(keys)[j] as int;
    let b = ranking(keys)[k] as int;
    assert(keys[a] >= keys[b]);
    lemma_occurrences_bound(pairs, pairs[before[a] as int], n);
    lemma_occurrences_bound(pairs, pairs[before[b] as int], n);
}

proof fn lemma_compounded_keys(lib: Library, pairs: Seq<(u32, u32)>, at: Seq<usize>, x: (u32, u32))
    ensures
        compounded(lib, pairs, at).1.contains_key(x) <==> exists|k: int|
            0 <= k < at.len() && pairs[#[trigger] at[k] as int] == x,
    decreases at.len(),
{
    if at.len() > 0 {
        let short = at.drop_last();
        lemma_compounded_keys(lib, pairs, short, x);
        if pairs[at.last() as int] == x {
            assert(pairs[at[at.len() - 1] as int] == x);
        } else if exists|k: int| 0 <= k < at.len() && pairs[#[trigger] at[k] as int] == x {
            let k = choose|k: int| 0 <= k < at.len() && pairs[#[trigger] at[k] as int] == x;
            assert(pairs[short[k] as int] == x);
        }
        if exists|k: int| 0 <= k < short.len() && pairs[#[trigger] short[k] as int] == x {
            let k = choose|k: int| 0 <= k < short.len() && pairs[#[trigger] short[k] as int] == x;
            assert(pairs[at[k] as int] == x);
        }
    }
}

/// Which pairs the new axioms are the compounds of, by their places in `at`.
proof fn lemma_compounded_entries(
    lib: Library,
    pairs: Seq<(u32, u32)>,
    at: Seq<usize>,
) -> (from: Seq<int>)
    requires
        lib.entries.len() == lib.bytes.len(),
    ensures
        ({
            let after = compounded(lib, pairs, at).0;
            &&& after.entries.len() == lib.entries.len() + from.len()
            &&& forall|k: int|
                0 <= k < from.len() ==> 0 <= #[trigger] from[k] < at.len() && after.entries[lib.entries.len()
                    + k] == Entry::Compound(
                    seq![pairs[at[from[k]] as int].0, pairs[at[from[k]] as int].1],
                )
            &&& forall|j: int, k: int|
                0 <= j < k < from.len() ==> #[trigger] from[j] < #[trigger] from[k]
        }),
    decreases at.len(),
{
    if at.len() == 0 {
        Seq::empty()
    } else {
        let short = at.drop_last();
        let from = lemma_compounded_entries(lib, pairs, short);
        let before = compounded(lib, pairs, short).0;
        let after = compounded(lib, pairs, at).0;
        lemma_compounded_extends(lib, pairs, short);
        let m = lib.entries.len();
        if after.entries.len() == before.entries.len() {
            assert forall|k: int| 0 <= k < from.len() implies 0 <= #[trigger] from[k] < at.len()
                && after.entries[m + k] == Entry::Compound(
                seq![pairs[at[from[k]] as int].0, pairs[at[from[k]] as int].1],
            ) by {
                assert(short[from[k]] == at[from[k]]);
            }
            from
        } else {
            let more = from.push(at.len() - 1);
            assert forall|k: int| 0 <= k < more.len() implies 0 <= #[trigger] more[k] < at.len()
                && after.entries[m + k] == Entry::Compound(
                seq![pairs[at[more[k]] as int].0, pairs[at[more[k]] as int].1],
            ) by {
                if k < from.len() {
                    assert(0 <= from[k] < short.len());
                    assert(short[from[k]] == at[from[k]]);
                    assert(after.entries[m + k] == before.entries[m + k]);
                }
            }
            assert forall|j: int, k: int| 0 <= j < k < more.len() implies #[trigger] more[j]
                < #[trigger] more[k] by {
                assert(0 <= from[j] < short.len());
                if k < from.len() {
                    assert(from[j] < from[k]);
                }
            }
            more
        }
    }
}

/// Where in a sequence the members of what is rewritten from `j` on begin.
proof fn lemma_cuts(seq: Seq<u32>, ids: Map<(u32, u32), u32>, j: int) -> (cuts: Seq<int>)
    requires
        0 <= j <= seq.len(),
    ensures
        ({
            let out = rewritten(seq, ids, j);
            &&& cuts.len() == out.len() + 1
            &&& cuts[0] == j
            &&& cuts.last() == seq.len()
            &&& forall|k: int|
                0 <= k < out.len() ==> {
                    let c = #[trigger] cuts[k];
                    let replaced = c + 1 < seq.len() && ids.contains_key((seq[c], seq[c + 1]));
                    &&& 0 <= c < seq.len()
                    &&& cuts[k + 1] == c + (if replaced {
                        2int
                    } else {
                        1int
                    })
                    &&& out[k] == (if replaced {
                        ids[(seq[c], seq[c + 1])]
                    } else {
                        seq[c]
                    })
                }
        }),
    decreases seq.len() - j,
{
    if j >= seq.len() {
        seq![j]
    } else {
        let replaced = j + 1 < seq.len() && ids.contains_key((seq[j], seq[j + 1]));
        let next = if replaced {
            j + 2
        } else {
            j + 1
        };
        let rest = lemma_cuts(seq, ids, next);
        let cuts = seq![j] + rest;
        let out = rewritten(seq, ids, j);
        assert(cuts.last() == rest.last());
        assert forall|k: int| 0 <= k < out.len() implies ({
            let c = #[trigger] cuts[k];
            let replaced = c + 1 < seq.len() && ids.contains_key((seq[c], seq[c + 1]));
            &&& 0 <= c < seq.len()
            &&& cuts[k + 1] == c + (if replaced {
                2int
            } else {
                1int
            })
            &&& out[k] == (if replaced {
                ids[(seq[c], seq[c + 1])]
            } else {
                seq[c]
            })
        }) by {
            if k > 0 {
                assert(cuts[k] == rest[k - 1]);
                assert(cuts[k + 1] == rest[k]);
                assert(out[k] == rewritten(seq, ids, next)[k - 1]);
            } else {
                assert(cuts[1] == rest[0]);
            }
        }
        cuts
    }
}

/// One pass makes an axiom of each pair of neighbours that occurs more than five times,
/// and of no other, the most frequent first. Read from left to right, each such pair
/// becomes its axiom, and every other member stays.
#[verifier::rlimit(40)]
pub proof fn law_one_pass(lib: Library, seq: Seq<u32>)
    requires
        sound(lib),
        distinct(lib),
        0 < seq.len() <= usize::MAX,
        ids_below(seq, lib.entries.len() as int),
        one_pass(lib, seq).0.entries.len() <= 0x1_0000_0000,
    ensures
        ({
            let (after, out) = one_pass(lib, seq);
            let pairs = seq.drop_last().zip_with(seq.drop_first()).to_multiset();
            let n = lib.entries.len() as int;
            &&& extends(after, lib)
            &&& forall|x: (u32, u32)| #[trigger]
                pairs.count(x) > 5 ==> after.bytes.contains(
                    lib.bytes[x.0 as int] + lib.bytes[x.1 as int],
                )
            &&& forall|k: int|
                n <= k < after.entries.len() ==> {
                    &&& #[trigger] after.entries[k] is Compound
                    &&& after.entries[k]->Compound_0.len() == 2
                    &&& pairs.count((after.entries[k]->Compound_0[0], after.entries[k]->Compound_0[1]))
                        > 5
                }
            &&& forall|j: int, k: int|
                n <= j < k < after.entries.len() ==> {
                    let a = (#[trigger] after.entries[j])->Compound_0;
                    let b = (#[trigger] after.entries[k])->Compound_0;
                    pairs.count((a[0], a[1])) >= pairs.count((b[0], b[1]))
                }
            &&& exists|cuts: Seq<int>|
                #![trigger cuts.len()]
                {
                    &&& cuts.len() == out.len() + 1
                    &&& cuts[0] == 0
                    &&& cuts.last() == seq.len()
                    &&& forall|k: int|
                        0 <= k < out.len() ==> {
                            let c = #[trigger] cuts[k];
                            &&& 0 <= c < seq.len()
                            &&& out[k] < after.bytes.len()
                            &&& if c + 1 < seq.len() && pairs.count((seq[c], seq[c + 1])) > 5 {
                                &&& cuts[k + 1] == c + 2
                                &&& after.bytes[out[k] as int] == lib.bytes[seq[c] as int]
                                    + lib.bytes[seq[c + 1] as int]
                            } else {
                                &&& cuts[k + 1] == c + 1
                                &&& out[k] == seq[c]
                            }
                        }
                }
        }),
{
    let pairs = neighbours(seq);
    let at = frequent(pairs);
    let (after, ids) = compounded(lib, pairs, at);
    let out = rewritten(seq, ids, 0);
    let n = lib.entries.len() as int;
    let bag = seq.drop_last().zip_with(seq.drop_first()).to_multiset();
    law_neighbours(seq);
    lemma_compounded_extends(lib, pairs, at);
    lemma_frequent_firsts(pairs);
    assert forall|k: int| 0 <= k < at.len() implies #[trigger] at[k] < pairs.len() by {
        assert(firsts(pairs, at));
    }
    assert forall|i: int| 0 <= i < pairs.len() implies (#[trigger] pairs[i]).0 < lib.entries.len()
        && pairs[i].1 < lib.entries.len() by {
        assert(seq[i] < lib.entries.len());
        assert(seq[i + 1] < lib.entries.len());
    }
    law_compounded(lib, pairs, at);
    assert forall|x: (u32, u32)| #[trigger] ids.contains_key(x) <==> bag.count(x) > 5 by {
        law_occurrences(pairs, x);
        lemma_frequent_iff(pairs, x);
        lemma_compounded_keys(lib, pairs, at, x);
    }
    assert forall|x: (u32, u32)| #[trigger] bag.count(x) > 5 implies after.bytes.contains(
        lib.bytes[x.0 as int] + lib.bytes[x.1 as int],
    ) by {
        assert(ids.contains_key(x));
        assert(after.bytes[ids[x] as int] == lib.bytes[x.0 as int] + lib.bytes[x.1 as int]);
    }
    let from = lemma_compounded_entries(lib, pairs, at);
    assert forall|k: int| n <= k < after.entries.len() implies {
        &&& #[trigger] after.entries[k] is Compound
        &&& after.entries[k]->Compound_0.len() == 2
        &&& bag.count((after.entries[k]->Compound_0[0], after.entries[k]->Compound_0[1])) > 5
    } by {
        let f = from[k - n];
        let x = pairs[at[f] as int];
        assert(after.entries[n + (k - n)] == Entry::Compound(seq![x.0, x.1]));
        law_occurrences(pairs, x);
        lemma_frequent_iff(pairs, x);
        assert(bag.count(x) > 5);
        assert((seq![x.0, x.1][0], seq![x.0, x.1][1]) == x);
    }
    assert forall|j: int, k: int| n <= j < k < after.entries.len() implies {
        let a = (#[trigger] after.entries[j])->Compound_0;
        let b = (#[trigger] after.entries[k])->Compound_0;
        bag.count((a[0], a[1])) >= bag.count((b[0], b[1]))
    } by {
        let f = from[j - n];
        let g = from[k - n];
        assert(f < g);
        let x = pairs[at[f] as int];
        let y = pairs[at[g] as int];
        assert(after.entries[n + (j - n)] == Entry::Compound(seq![x.0, x.1]));
        assert(after.entries[n + (k - n)] == Entry::Compound(seq![y.0, y.1]));
        lemma_frequent_descends(pairs, f, g);
        law_occurrences(pairs, x);
        law_occurrences(pairs, y);
        assert((seq![x.0, x.1][0], seq![x.0, x.1][1]) == x);
        assert((seq![y.0, y.1][0], seq![y.0, y.1][1]) == y);
    }
    let cuts = lemma_cuts(seq, ids, 0);
    assert forall|k: int| 0 <= k < out.len() implies ({
        let c = #[trigger] cuts[k];
        &&& 0 <= c < seq.len()
        &&& out[k] < after.bytes.len()
        &&& if c + 1 < seq.len() && bag.count((seq[c], seq[c + 1])) > 5 {
            &&& cuts[k + 1] == c + 2
            &&& after.bytes[out[k] as int] == lib.bytes[seq[c] as int] + lib.bytes[seq[c + 1] as int]
        } else {
            &&& cuts[k + 1] == c + 1
            &&& out[k] == seq[c]
        }
    }) by {
        let c = cuts[k];
        if c + 1 < seq.len() {
            let x = (seq[c], seq[c + 1]);
            assert(ids.contains_key(x) <==> bag.count(x) > 5);
        }
        assert(seq[c] < lib.entries.len());
    }
    assert(cuts.len() == out.len() + 1);
}

proof fn lemma_none_left(seq: Seq<u32>)
    requires
        seq.len() <= usize::MAX,
        frequent(neighbours(seq)).len() == 0,
    ensures
        seq.len() > 0 ==> forall|x: (u32, u32)| #[trigger]
            seq.drop_last().zip_with(seq.drop_first()).to_multiset().count(x) <= 5,
{
    let pairs = neighbours(seq);
    law_neighbours(seq);
    if seq.len() > 0 {
        assert forall|x: (u32, u32)| #[trigger]
            seq.drop_last().zip_with(seq.drop_first()).to_multiset().count(x) <= 5 by {
            law_occurrences(pairs, x);
            lemma_frequent_iff(pairs, x);
        }
    }
}

/// The passes follow one another, each on the result of the one before, and each but
/// the last makes the sequence shorter. They do not end before all of them were made,
/// no pair of neighbours occurs more than five times, or one left the sequence as long
/// as it was. There are at most twelve.
pub proof fn law_passes_end(lib: Library, seq: Seq<u32>, n: nat)
    requires
        seq.len() <= usize::MAX,
    ensures
        MAX_PASSES == 12,
        exists|steps: Seq<(Library, Seq<u32>)>|
            #![trigger steps.len()]
            {
                let last = steps.len() - 1;
                let end = steps[last].1;
                &&& 0 <= last <= n
                &&& steps[0] == (lib, seq)
                &&& steps[last] == passes(lib, seq, n)
                &&& last <= passes_begun(lib, seq, n) <= last + 1
                &&& n > 0 ==> 0 < passes_begun(lib, seq, n) <= n
                &&& forall|k: int|
                    0 <= k < last ==> #[trigger] steps[k + 1] == one_pass(steps[k].0, steps[k].1)
                &&& forall|k: int|
                    0 <= k < last - 1 ==> (#[trigger] steps[k + 1]).1.len() < steps[k].1.len()
                &&& {
                    ||| last == n
                    ||| end.len() == 0
                    ||| forall|x: (u32, u32)| #[trigger]
                        end.drop_last().zip_with(end.drop_first()).to_multiset().count(x) <= 5
                    ||| last > 0 && end.len() == steps[last - 1].1.len()
                }
            },
{
    let steps = lemma_steps(lib, seq, n);
    let end = steps[steps.len() - 1].1;
    if frequent(neighbours(end)).len() == 0 {
        lemma_none_left(end);
    }
    assert(steps.len() >= 1);
}

proof fn lemma_steps(lib: Library, seq: Seq<u32>, n: nat) -> (steps: Seq<(Library, Seq<u32>)>)
    requires
        seq.len() <= usize::MAX,
    ensures
        ({
            let last = steps.len() - 1;
            let end = steps[last].1;
            &&& 0 <= last <= n
            &&& steps[0] == (lib, seq)
            &&& steps[last] == passes(lib, seq, n)
            &&& end.len() <= usize::MAX
            &&& forall|k: int|
                0 <= k < last ==> #[trigger] steps[k + 1] == one_pass(steps[k].0, steps[k].1)
            &&& forall|k: int|
                0 <= k < last - 1 ==> (#[trigger] steps[k + 1]).1.len() < steps[k].1.len()
            &&& last == n || frequent(neighbours(end)).len() == 0 || (last > 0 && end.len()
                == steps[last - 1].1.len())
            &&& last <= passes_begun(lib, seq, n) <= last + 1
            &&& passes_begun(lib, seq, n) <= n
            &&& n > 0 ==> passes_begun(lib, seq, n) > 0
        }),
    decreases n,
{
    if n == 0 || frequent(neighbours(seq)).len() == 0 {
        seq![(lib, seq)]
    } else {
        let (after, shorter) = one_pass(lib, seq);
        let ids = compounded(lib, neighbours(seq), frequent(neighbours(seq))).1;
        lemma_rewritten_len(seq, ids, 0);
        if shorter.len() == seq.len() {
            let steps = seq![(lib, seq), (after, shorter)];
            assert forall|k: int| 0 <= k < 1 implies #[trigger] steps[k + 1] == one_pass(
                steps[k].0,
                steps[k].1,
            ) by {}
            steps
        } else {
            let rest = lemma_steps(after, shorter, (n - 1) as nat);
            let steps = seq![(lib, seq)] + rest;
            let last = steps.len() - 1;
            assert forall|k: int| 0 <= k < last implies #[trigger] steps[k + 1] == one_pass(
                steps[k].0,
                steps[k].1,
            ) by {
                if k > 0 {
                    assert(rest[(k - 1) + 1] == one_pass(rest[k - 1].0, rest[k - 1].1));
                    assert(steps[k] == rest[k - 1] && steps[k + 1] == rest[k]);
                } else {
                    assert(steps[1] == rest[0]);
                }
            }
            assert forall|k: int| 0 <= k < last - 1 implies (#[trigger] steps[k + 1]).1.len()
                < steps[k].1.len() by {
                if k > 0 {
                    assert(rest[(k - 1) + 1].1.len() < rest[k - 1].1.len());
                    assert(steps[k] == rest[k - 1] && steps[k + 1] == rest[k]);
                } else {
                    assert(steps[1] == rest[0]);
                }
            }
            assert(steps[last] == rest[rest.len() - 1]);
            if rest.len() >= 2 {
                assert(steps[last - 1] == rest[rest.len() - 2]);
            }
            steps
        }
    }
}

/// How far compounding has come is told at the beginning of each pass: the passes share
/// the part of the way from 750 to 900 thousandths evenly.
pub proof fn law_pass_points(k: int)
    requires
        0 <= k <= 12,
    ensures
        750 <= pass_point(k) <= 900,
        2 * (pass_point(k) - 750) <= 25 * k < 2 * (pass_point(k) - 750) + 2,
{
}

} // verus!
