//! Dropping the axioms that a sequence does not need, and numbering the rest
//! anew, without gaps.

use vstd::prelude::*;

use crate::library::AxiomEntry;
use crate::library::AxiomLib;
use crate::library::Entry;
use crate::library::Library;
use crate::library::entry_views;
use crate::library::expanded;
use crate::library::ids_below;
use crate::library::joined;
use crate::library::law_expanded_sound;
use crate::library::law_sound_resolves;
use crate::library::refers_back;
use crate::library::refs_of;
use crate::library::resolved;
use crate::library::sound;
use crate::library::stands_for;
use crate::library::well_founded;

verus! {

/// Whether `k` is among `ids`.
pub open spec fn lists(ids: Seq<u32>, k: int) -> bool {
    exists|i: int| 0 <= i < ids.len() && #[trigger] ids[i] == k
}

/// Whether the axiom `k` is in `seq`, or an axiom that is needed refers to it.
pub open spec fn needed(entries: Seq<Entry>, seq: Seq<u32>, k: int) -> bool
    decreases entries.len() - k,
{
    ||| lists(seq, k)
    ||| exists|j: int|
        k < j < entries.len() && needed(entries, seq, j) && lists(refs_of(#[trigger] entries[j]), k)
}

/// Whether a needed axiom refers to `k`.
pub open spec fn needed_by_another(entries: Seq<Entry>, seq: Seq<u32>, k: int) -> bool {
    exists|j: int|
        k < j < entries.len() && needed(entries, seq, j) && lists(refs_of(#[trigger] entries[j]), k)
}

proof fn lemma_needed(entries: Seq<Entry>, seq: Seq<u32>, k: int)
    ensures
        needed(entries, seq, k) == (lists(seq, k) || needed_by_another(entries, seq, k)),
{
    reveal_with_fuel(needed, 2);
}

/// How many of the axioms before `k` are needed: the new number of `k`.
pub open spec fn needed_before(entries: Seq<Entry>, seq: Seq<u32>, k: int) -> nat
    decreases k,
{
    if k <= 0 {
        0
    } else {
        needed_before(entries, seq, k - 1) + (if needed(entries, seq, k - 1) {
            1nat
        } else {
            0nat
        })
    }
}

/// Identifiers in their new numbering.
pub open spec fn renumbered_ids(entries: Seq<Entry>, seq: Seq<u32>, ids: Seq<u32>) -> Seq<u32> {
    Seq::new(ids.len(), |i: int| needed_before(entries, seq, ids[i] as int) as u32)
}

/// An entry with its references in their new numbering.
pub open spec fn renumbered(entries: Seq<Entry>, seq: Seq<u32>, e: Entry) -> Entry {
    match e {
        Entry::Dfa(rule) => Entry::Dfa(rule),
        Entry::Compound(refs) => Entry::Compound(renumbered_ids(entries, seq, refs)),
    }
}

/// The needed ones of the first `k` axioms, renumbered.
pub open spec fn kept(entries: Seq<Entry>, seq: Seq<u32>, k: int) -> Seq<Entry>
    decreases k,
{
    if k <= 0 {
        Seq::empty()
    } else if needed(entries, seq, k - 1) {
        kept(entries, seq, k - 1).push(renumbered(entries, seq, entries[k - 1]))
    } else {
        kept(entries, seq, k - 1)
    }
}

/// What the needed ones of the first `k` axioms stand for.
pub open spec fn kept_bytes(lib: Library, seq: Seq<u32>, k: int) -> Seq<Seq<u8>>
    decreases k,
{
    if k <= 0 {
        Seq::empty()
    } else if needed(lib.entries, seq, k - 1) {
        kept_bytes(lib, seq, k - 1).push(lib.bytes[k - 1])
    } else {
        kept_bytes(lib, seq, k - 1)
    }
}

/// The axioms that `seq` needs, renumbered.
pub open spec fn pruned(entries: Seq<Entry>, seq: Seq<u32>) -> Seq<Entry> {
    kept(entries, seq, entries.len() as int)
}

/// The library of the axioms that `seq` needs.
pub open spec fn pruned_library(lib: Library, seq: Seq<u32>) -> Library {
    Library {
        entries: pruned(lib.entries, seq),
        bytes: kept_bytes(lib, seq, lib.entries.len() as int),
    }
}

proof fn lemma_needed_before_bound(entries: Seq<Entry>, seq: Seq<u32>, k: int)
    requires
        0 <= k,
    ensures
        needed_before(entries, seq, k) <= k,
    decreases k,
{
    if k > 0 {
        lemma_needed_before_bound(entries, seq, k - 1);
    }
}

proof fn lemma_needed_before_monotone(entries: Seq<Entry>, seq: Seq<u32>, j: int, k: int)
    requires
        0 <= j <= k,
    ensures
        needed_before(entries, seq, j) <= needed_before(entries, seq, k),
        j < k && needed(entries, seq, j) ==> needed_before(entries, seq, j) < needed_before(
            entries,
            seq,
            k,
        ),
    decreases k - j,
{
    if j < k {
        lemma_needed_before_monotone(entries, seq, j + 1, k);
    }
}

proof fn lemma_kept_at(lib: Library, seq: Seq<u32>, k: int, n: int)
    requires
        lib.entries.len() == lib.bytes.len(),
        0 <= n <= lib.entries.len(),
    ensures
        kept(lib.entries, seq, n).len() == needed_before(lib.entries, seq, n),
        kept_bytes(lib, seq, n).len() == needed_before(lib.entries, seq, n),
        0 <= k < n && needed(lib.entries, seq, k) ==> {
            let r = needed_before(lib.entries, seq, k) as int;
            &&& r < needed_before(lib.entries, seq, n)
            &&& kept(lib.entries, seq, n)[r] == renumbered(lib.entries, seq, lib.entries[k])
            &&& kept_bytes(lib, seq, n)[r] == lib.bytes[k]
        },
    decreases n,
{
    if n > 0 {
        lemma_kept_at(lib, seq, k, n - 1);
    }
}

/// Which axiom has the new number `r`.
proof fn lemma_origin(entries: Seq<Entry>, seq: Seq<u32>, r: int, n: int) -> (k: int)
    requires
        0 <= n <= entries.len(),
        0 <= r < needed_before(entries, seq, n),
    ensures
        0 <= k < n,
        needed(entries, seq, k),
        needed_before(entries, seq, k) == r,
    decreases n,
{
    if needed(entries, seq, n - 1) && needed_before(entries, seq, n - 1) == r {
        n - 1
    } else {
        lemma_origin(entries, seq, r, n - 1)
    }
}

proof fn lemma_renumbered_joined(lib: Library, seq: Seq<u32>, ids: Seq<u32>)
    requires
        lib.entries.len() == lib.bytes.len(),
        ids_below(ids, lib.entries.len() as int),
        forall|i: int| 0 <= i < ids.len() ==> needed(lib.entries, seq, #[trigger] ids[i] as int),
    ensures
        joined(pruned_library(lib, seq).bytes, renumbered_ids(lib.entries, seq, ids)) == joined(
            lib.bytes,
            ids,
        ),
        ids_below(renumbered_ids(lib.entries, seq, ids), pruned(lib.entries, seq).len() as int),
    decreases ids.len(),
{
    let n = lib.entries.len() as int;
    let new = renumbered_ids(lib.entries, seq, ids);
    assert forall|i: int| 0 <= i < ids.len() implies #[trigger] new[i] < pruned(
        lib.entries,
        seq,
    ).len() && pruned_library(lib, seq).bytes[new[i] as int] == lib.bytes[ids[i] as int] by {
        assert(needed(lib.entries, seq, ids[i] as int));
        lemma_kept_at(lib, seq, ids[i] as int, n);
        lemma_needed_before_bound(lib.entries, seq, ids[i] as int);
    }
    if ids.len() > 0 {
        let short = ids.drop_last();
        assert forall|i: int| 0 <= i < short.len() implies needed(
            lib.entries,
            seq,
            #[trigger] short[i] as int,
        ) by {
            assert(needed(lib.entries, seq, ids[i] as int));
        }
        assert(ids_below(short, n)) by {
            assert forall|i: int| 0 <= i < short.len() implies #[trigger] short[i] < n by {
                assert(ids[i] < n);
            }
        }
        lemma_renumbered_joined(lib, seq, short);
        assert(new.drop_last() =~= renumbered_ids(lib.entries, seq, short));
        assert(new[ids.len() - 1] == new.last());
    }
}

/// Pruning keeps a library sound and what the sequence stands for unchanged.
pub proof fn law_prune_keeps_meaning(lib: Library, seq: Seq<u32>)
    requires
        sound(lib),
        ids_below(seq, lib.entries.len() as int),
    ensures
        sound(pruned_library(lib, seq)),
        joined(pruned_library(lib, seq).bytes, renumbered_ids(lib.entries, seq, seq)) == joined(
            lib.bytes,
            seq,
        ),
        ids_below(renumbered_ids(lib.entries, seq, seq), pruned(lib.entries, seq).len() as int),
{
    let n = lib.entries.len() as int;
    let after = pruned_library(lib, seq);
    lemma_kept_at(lib, seq, 0, n);
    assert forall|r: int| 0 <= r < after.entries.len() implies refers_back(
        #[trigger] after.entries[r],
        r,
    ) && stands_for(after.bytes, after.entries[r], after.bytes[r]) by {
        let k = lemma_origin(lib.entries, seq, r, n);
        lemma_kept_at(lib, seq, k, n);
        let e = lib.entries[k];
        assert(refers_back(e, k));
        assert(stands_for(lib.bytes, e, lib.bytes[k]));
        let refs = refs_of(e);
        assert forall|i: int| 0 <= i < refs.len() implies needed(
            lib.entries,
            seq,
            #[trigger] refs[i] as int,
        ) && refs[i] < k by {
            assert(refs_of(e)[i] < k);
            assert(lists(refs, refs[i] as int));
            assert(k < lib.entries.len() && needed(lib.entries, seq, k));
            lemma_needed(lib.entries, seq, refs[i] as int);
        }
        lemma_renumbered_joined(lib, seq, refs);
        let new_refs = renumbered_ids(lib.entries, seq, refs);
        assert forall|i: int| 0 <= i < new_refs.len() implies #[trigger] new_refs[i] < r by {
            lemma_needed_before_monotone(lib.entries, seq, refs[i] as int, k);
            lemma_needed_before_bound(lib.entries, seq, refs[i] as int);
        }
        assert(e is Dfa ==> refs_of(after.entries[r]) =~= Seq::<u32>::empty());
    }
    assert forall|i: int| 0 <= i < seq.len() implies needed(
        lib.entries,
        seq,
        #[trigger] seq[i] as int,
    ) by {
        assert(lists(seq, seq[i] as int));
    }
    lemma_renumbered_joined(lib, seq, seq);
}

/// Pruning leaves as many axioms in the sequence, each expanding to the bytes that the
/// one in its place expanded to; all of them, and all that they refer to, are there.
pub proof fn law_prune_keeps_each(lib: Library, seq: Seq<u32>)
    requires
        well_founded(lib),
        ids_below(seq, lib.entries.len() as int),
    ensures
        ({
            let entries = pruned(lib.entries, seq);
            let ids = renumbered_ids(lib.entries, seq, seq);
            &&& ids.len() == seq.len()
            &&& ids_below(ids, entries.len() as int)
            &&& forall|r: int| 0 <= r < entries.len() ==> refers_back(#[trigger] entries[r], r)
            &&& forall|i: int|
                0 <= i < seq.len() ==> resolved(entries, #[trigger] ids[i], entries.len())
                    == resolved(lib.entries, seq[i], lib.entries.len())
        }),
{
    let full = expanded(lib);
    let n = lib.entries.len() as int;
    let entries = pruned(lib.entries, seq);
    let ids = renumbered_ids(lib.entries, seq, seq);
    let after = pruned_library(full, seq);
    law_expanded_sound(lib);
    law_prune_keeps_meaning(full, seq);
    assert forall|i: int| 0 <= i < seq.len() implies resolved(
        entries,
        #[trigger] ids[i],
        entries.len(),
    ) == resolved(lib.entries, seq[i], lib.entries.len()) by {
        assert(seq[i] < n);
        assert(lists(seq, seq[i] as int));
        lemma_kept_at(full, seq, seq[i] as int, n);
        lemma_needed_before_bound(lib.entries, seq, seq[i] as int);
        assert(ids[i] < entries.len());
        law_sound_resolves(after, ids[i], entries.len());
    }
}

/// After pruning, every axiom that is left is needed.
pub proof fn law_prune_leaves_no_unused(lib: Library, seq: Seq<u32>, r: int)
    requires
        well_founded(lib),
        ids_below(seq, lib.entries.len() as int),
        0 <= r < pruned(lib.entries, seq).len(),
    ensures
        needed(pruned(lib.entries, seq), renumbered_ids(lib.entries, seq, seq), r),
{
    let n = lib.entries.len() as int;
    lemma_kept_at(lib, seq, 0, n);
    let k = lemma_origin(lib.entries, seq, r, n);
    lemma_still_needed(lib, seq, k);
}

proof fn lemma_still_needed(lib: Library, seq: Seq<u32>, k: int)
    requires
        well_founded(lib),
        ids_below(seq, lib.entries.len() as int),
        0 <= k < lib.entries.len(),
        needed(lib.entries, seq, k),
    ensures
        needed(
            pruned(lib.entries, seq),
            renumbered_ids(lib.entries, seq, seq),
            needed_before(lib.entries, seq, k) as int,
        ),
    decreases lib.entries.len() - k,
{
    let n = lib.entries.len() as int;
    let entries = lib.entries;
    let after = pruned(entries, seq);
    let new_seq = renumbered_ids(entries, seq, seq);
    let r = needed_before(entries, seq, k) as int;
    lemma_needed_before_bound(entries, seq, k);
    lemma_needed(entries, seq, k);
    lemma_needed(after, new_seq, r);
    if lists(seq, k) {
        let i = choose|i: int| 0 <= i < seq.len() && #[trigger] seq[i] == k;
        assert(new_seq[i] == r);
        assert(lists(new_seq, r));
    } else {
        let j = choose|j: int|
            k < j < entries.len() && needed(entries, seq, j) && lists(
                refs_of(#[trigger] entries[j]),
                k,
            );
        lemma_still_needed(lib, seq, j);
        let q = needed_before(entries, seq, j) as int;
        lemma_kept_at(lib, seq, j, n);
        lemma_needed_before_monotone(entries, seq, k, j);
        let refs = refs_of(entries[j]);
        let i = choose|i: int| 0 <= i < refs.len() && #[trigger] refs[i] == k;
        assert(refs_of(after[q]) =~= renumbered_ids(entries, seq, refs));
        assert(refs_of(after[q])[i] == r);
        assert(r < q < after.len() && needed(after, new_seq, q) && lists(refs_of(after[q]), r));
    }
}

/// Whether `k` is in `seq`, or a needed axiom at or after `from` refers to it.
spec fn marked(entries: Seq<Entry>, seq: Seq<u32>, from: int, k: int) -> bool {
    ||| lists(seq, k)
    ||| exists|j: int|
        k < j < entries.len() && from <= j && needed(entries, seq, j) && lists(
            refs_of(#[trigger] entries[j]),
            k,
        )
}

/// Sets the marks of `ids`.
fn mark_all(marks: &mut Vec<bool>, ids: &[u32])
    requires
        ids_below(ids@, old(marks)@.len() as int),
    ensures
        final(marks)@.len() == old(marks)@.len(),
        forall|k: int|
            0 <= k < final(marks)@.len() ==> #[trigger] final(marks)@[k] == (old(marks)@[k]
                || lists(ids@, k)),
{
    let ghost before = marks@;
    let mut i: usize = 0;
    while i < ids.len()
        invariant
            i <= ids@.len(),
            marks@.len() == before.len(),
            ids_below(ids@, before.len() as int),
            forall|k: int|
                0 <= k < before.len() ==> #[trigger] marks@[k] == (before[k] || lists(
                    ids@.subrange(0, i as int),
                    k,
                )),
        decreases ids@.len() - i,
    {
        let id: u32 = ids[i];
        let ghost now = marks@;
        let ghost done = ids@.subrange(0, i as int);
        let ghost next = ids@.subrange(0, i + 1);
        assert(ids@[i as int] < before.len());
        marks.set(id as usize, true);
        assert forall|k: int| 0 <= k < before.len() implies #[trigger] marks@[k] == (before[k]
            || lists(next, k)) by {
            assert(now[k] == (before[k] || lists(done, k)));
            if k == id {
                assert(next[i as int] == k);
            } else {
                if lists(done, k) {
                    let p = choose|p: int| 0 <= p < done.len() && #[trigger] done[p] == k;
                    assert(next[p] == k);
                }
                if lists(next, k) {
                    let p = choose|p: int| 0 <= p < next.len() && #[trigger] next[p] == k;
                    assert(done[p] == k);
                }
            }
        }
        i += 1;
    }
    assert(ids@.subrange(0, ids@.len() as int) =~= ids@);
}

/// Which axioms of a library are needed.
fn mark_needed(lib: &AxiomLib, seq: &[u32]) -> (marks: Vec<bool>)
    requires
        lib.wf(),
        ids_below(seq@, lib@.entries.len() as int),
    ensures
        marks@.len() == lib@.entries.len(),
        forall|k: int|
            0 <= k < marks@.len() ==> #[trigger] marks@[k] == needed(lib@.entries, seq@, k),
{
    let n: usize = lib.len();
    let ghost entries = lib@.entries;
    let mut marks: Vec<bool> = Vec::with_capacity(n);
    let mut i: usize = 0;
    while i < n
        invariant
            i <= n,
            marks@.len() == i,
            forall|k: int| 0 <= k < i ==> !marks@[k],
        decreases n - i,
    {
        marks.push(false);
        i += 1;
    }
    mark_all(&mut marks, seq);
    let mut at: usize = n;
    while at > 0
        invariant
            at <= n,
            n == entries.len(),
            entries == lib@.entries,
            lib.wf(),
            marks@.len() == n,
            forall|k: int|
                0 <= k < n ==> #[trigger] marks@[k] == marked(entries, seq@, at as int, k),
        decreases at,
    {
        let last: usize = at - 1;
        let ghost before = marks@;
        proof {
            lemma_needed(entries, seq@, last as int);
        }
        if marks[last] {
            assert(refers_back(entries[last as int], last as int));
            match lib.entry(last) {
                AxiomEntry::Dfa(_) => {},
                AxiomEntry::Compound(refs) => {
                    assert(refs_of(entries[last as int]) == refs@);
                    assert forall|k: int| 0 <= k < refs@.len() implies #[trigger] refs@[k] < n by {
                        assert(refs_of(entries[last as int])[k] < last);
                    }
                    mark_all(&mut marks, refs.as_slice());
                },
            }
        }
        at = last;
        assert forall|k: int| 0 <= k < n implies #[trigger] marks@[k] == marked(
            entries,
            seq@,
            at as int,
            k,
        ) by {
            let refs = refs_of(entries[at as int]);
            let named = needed(entries, seq@, at as int) && lists(refs, k);
            assert(marks@[k] == (before[k] || named));
            if named {
                let p = choose|p: int| 0 <= p < refs.len() && #[trigger] refs[p] == k;
                assert(refers_back(entries[at as int], at as int));
                assert(refs[p] < at);
                assert(needed(entries, seq@, at as int));
                assert(marked(entries, seq@, at as int, k));
            }
        }
    }
    assert forall|k: int| 0 <= k < n implies #[trigger] marks@[k] == needed(entries, seq@, k) by {
        lemma_needed(entries, seq@, k);
    }
    marks
}

/// `ids` in their new numbering.
fn renumber(
    numbers: &[u32],
    ids: &[u32],
    Ghost(entries): Ghost<Seq<Entry>>,
    Ghost(seq): Ghost<Seq<u32>>,
) -> (out: Vec<u32>)
    requires
        ids_below(ids@, numbers@.len() as int),
        forall|k: int|
            0 <= k < numbers@.len() ==> #[trigger] numbers@[k] == needed_before(entries, seq, k) as u32,
    ensures
        out@ == renumbered_ids(entries, seq, ids@),
{
    let mut out: Vec<u32> = Vec::with_capacity(ids.len());
    let mut i: usize = 0;
    while i < ids.len()
        invariant
            i <= ids@.len(),
            ids_below(ids@, numbers@.len() as int),
            forall|k: int|
                0 <= k < numbers@.len() ==> #[trigger] numbers@[k] == needed_before(
                    entries,
                    seq,
                    k,
                ) as u32,
            out@ == renumbered_ids(entries, seq, ids@).subrange(0, i as int),
        decreases ids@.len() - i,
    {
        assert(ids@[i as int] < numbers@.len());
        out.push(numbers[ids[i] as usize]);
        i += 1;
        assert(out@ =~= renumbered_ids(entries, seq, ids@).subrange(0, i as int));
    }
    assert(out@ =~= renumbered_ids(entries, seq, ids@));
    out
}

impl AxiomLib {
    /// The axioms that `seq` needs, and `seq`, both in a numbering without gaps.
    pub fn reindex(&self, seq: &[u32]) -> (r: (Vec<AxiomEntry>, Vec<u32>))
        requires
            self.wf(),
            ids_below(seq@, self@.entries.len() as int),
        ensures
            entry_views(r.0@) == pruned(self@.entries, seq@),
            r.1@ == renumbered_ids(self@.entries, seq@, seq@),
            forall|i: int|
                0 <= i < seq@.len() ==> resolved(
                    entry_views(r.0@),
                    #[trigger] r.1@[i],
                    r.0@.len(),
                ) == resolved(self@.entries, seq@[i], self@.entries.len()),
    {
        proof {
            law_prune_keeps_each(self@, seq@);
        }
        let n: usize = self.len();
        let ghost entries = self@.entries;
        let marks = mark_needed(self, seq);
        let mut numbers: Vec<u32> = Vec::with_capacity(n);
        let mut used: usize = 0;
        let mut k: usize = 0;
        while k < n
            invariant
                k <= n,
                n == entries.len(),
                marks@.len() == n,
                forall|j: int| 0 <= j < n ==> #[trigger] marks@[j] == needed(entries, seq@, j),
                numbers@.len() == k,
                forall|j: int|
                    0 <= j < k ==> #[trigger] numbers@[j] == needed_before(entries, seq@, j) as u32,
                used == needed_before(entries, seq@, k as int),
                used <= k,
            decreases n - k,
        {
            numbers.push(used as u32);
            if marks[k] {
                used += 1;
            }
            k += 1;
        }
        let mut out: Vec<AxiomEntry> = Vec::new();
        k = 0;
        assert(entry_views(out@) =~= Seq::<Entry>::empty());
        while k < n
            invariant
                k <= n,
                n == entries.len(),
                entries == self@.entries,
                self.wf(),
                marks@.len() == n,
                forall|j: int| 0 <= j < n ==> #[trigger] marks@[j] == needed(entries, seq@, j),
                numbers@.len() == n,
                forall|j: int|
                    0 <= j < n ==> #[trigger] numbers@[j] == needed_before(entries, seq@, j) as u32,
                entry_views(out@) == kept(entries, seq@, k as int),
            decreases n - k,
        {
            if marks[k] {
                let ghost before = out@;
                assert(refers_back(entries[k as int], k as int));
                let next: AxiomEntry = match self.entry(k) {
                    AxiomEntry::Dfa(kind) => AxiomEntry::Dfa(kind.duplicate()),
                    AxiomEntry::Compound(refs) => {
                        assert forall|i: int| 0 <= i < refs@.len() implies #[trigger] refs@[i] < n by {
                            assert(refs_of(entries[k as int])[i] < k);
                        }
                        AxiomEntry::Compound(
                            renumber(
                                numbers.as_slice(),
                                refs.as_slice(),
                                Ghost(entries),
                                Ghost(seq@),
                            ),
                        )
                    },
                };
                let ghost e = next@;
                out.push(next);
                assert(e == renumbered(entries, seq@, entries[k as int]));
                assert(entry_views(out@) =~= entry_views(before).push(e));
            }
            k += 1;
        }
        let new_seq = renumber(numbers.as_slice(), seq, Ghost(entries), Ghost(seq@));
        (out, new_seq)
    }
}

/// Pruning keeps the axioms in their order, and each as it is but for the numbers it
/// refers to: of two that are needed the earlier one has the smaller new number.
pub proof fn law_prune_keeps_order(lib: Library, seq: Seq<u32>, a: u32, b: u32)
    requires
        lib.entries.len() == lib.bytes.len(),
        a < b < lib.entries.len(),
        needed(lib.entries, seq, a as int),
        needed(lib.entries, seq, b as int),
    ensures
        ({
            let ids = renumbered_ids(lib.entries, seq, seq![a, b]);
            &&& ids.len() == 2
            &&& ids[0] < ids[1] < pruned(lib.entries, seq).len()
            &&& pruned_library(lib, seq).bytes[ids[0] as int] == lib.bytes[a as int]
            &&& pruned_library(lib, seq).bytes[ids[1] as int] == lib.bytes[b as int]
            &&& pruned(lib.entries, seq)[ids[0] as int] == (match lib.entries[a as int] {
                Entry::Dfa(rule) => Entry::Dfa(rule),
                Entry::Compound(refs) => Entry::Compound(renumbered_ids(lib.entries, seq, refs)),
            })
        }),
{
    let n = lib.entries.len() as int;
    lemma_needed_before_bound(lib.entries, seq, a as int);
    lemma_needed_before_bound(lib.entries, seq, b as int);
    lemma_needed_before_monotone(lib.entries, seq, a as int, b as int);
    lemma_kept_at(lib, seq, a as int, n);
    lemma_kept_at(lib, seq, b as int, n);
}

/// An axiom is needed if the sequence names it, or a later one that is needed refers to
/// it, and otherwise not.
pub proof fn law_needed(entries: Seq<Entry>, seq: Seq<u32>, k: u32)
    ensures
        needed(entries, seq, k as int) <==> seq.contains(k) || exists|j: int|
            k < j < entries.len() && needed(entries, seq, j) && (#[trigger] entries[j] matches Entry::Compound(
                refs,
            ) && refs.contains(k)),
{
    lemma_needed(entries, seq, k as int);
    lemma_lists(seq, k);
    assert forall|j: int| 0 <= j < entries.len() implies lists(
        refs_of(#[trigger] entries[j]),
        k as int,
    ) == (entries[j] matches Entry::Compound(refs) && refs.contains(k)) by {
        lemma_lists(refs_of(entries[j]), k);
    }
    if needed_by_another(entries, seq, k as int) {
        let j = choose|j: int|
            k < j < entries.len() && needed(entries, seq, j) && lists(
                refs_of(#[trigger] entries[j]),
                k as int,
            );
        assert(entries[j] matches Entry::Compound(refs) && refs.contains(k));
    }
}

proof fn lemma_lists(ids: Seq<u32>, k: u32)
    ensures
        lists(ids, k as int) == ids.contains(k),
{
    if ids.contains(k) {
        let i = choose|i: int| 0 <= i < ids.len() && ids[i] == k;
        assert(ids[i] == k);
    }
}

} // verus!
