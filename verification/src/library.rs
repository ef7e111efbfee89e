//! The library of axioms: rules, and compounds of earlier axioms, each with the
//! byte string that it stands for.

use vstd::prelude::*;

use crate::bytes::extend;
use crate::bytes::same_bytes;
use crate::dfa::DfaKind;
use crate::dfa::Rule;
use crate::dfa::generated;

verus! {

/// An axiom: a rule that generates bytes, or other axioms one after another.
#[derive(Clone, Debug)]
pub enum AxiomEntry {
    Dfa(DfaKind),
    Compound(Vec<u32>),
}

/// The mathematical value of an [`AxiomEntry`].
pub enum Entry {
    Dfa(Rule),
    Compound(Seq<u32>),
}

impl View for AxiomEntry {
    type V = Entry;

    open spec fn view(&self) -> Entry {
        match *self {
            AxiomEntry::Dfa(k) => Entry::Dfa(k@),
            AxiomEntry::Compound(refs) => Entry::Compound(refs@),
        }
    }
}

impl AxiomEntry {
    /// The same entry again.
    pub fn duplicate(&self) -> (out: AxiomEntry)
        ensures
            out@ == self@,
    {
        match self {
            AxiomEntry::Dfa(k) => AxiomEntry::Dfa(k.duplicate()),
            AxiomEntry::Compound(refs) => AxiomEntry::Compound(
                vstd::slice::slice_to_vec(refs.as_slice()),
            ),
        }
    }
}

/// The mathematical values of a sequence of entries.
pub open spec fn entry_views(entries: Seq<AxiomEntry>) -> Seq<Entry> {
    Seq::new(entries.len(), |i: int| entries[i]@)
}

/// The mathematical value of an [`AxiomLib`]: the axioms, and what each of them
/// was registered as standing for.
#[verifier::ext_equal]
pub struct Library {
    pub entries: Seq<Entry>,
    pub bytes: Seq<Seq<u8>>,
}

/// The axioms that an entry refers to.
pub open spec fn refs_of(e: Entry) -> Seq<u32> {
    match e {
        Entry::Dfa(_) => Seq::empty(),
        Entry::Compound(refs) => refs,
    }
}

/// The byte strings of `ids`, one after another.
pub open spec fn joined(bytes: Seq<Seq<u8>>, ids: Seq<u32>) -> Seq<u8>
    decreases ids.len(),
{
    if ids.len() == 0 {
        Seq::empty()
    } else {
        joined(bytes, ids.drop_last()) + bytes[ids.last() as int]
    }
}

/// Whether an entry at position `at` refers to earlier axioms only.
pub open spec fn refers_back(e: Entry, at: int) -> bool {
    forall|i: int| 0 <= i < refs_of(e).len() ==> #[trigger] refs_of(e)[i] < at
}

/// Whether the axioms of a library refer to earlier ones only.
pub open spec fn well_founded(lib: Library) -> bool {
    &&& lib.entries.len() == lib.bytes.len()
    &&& forall|k: int| 0 <= k < lib.entries.len() ==> refers_back(#[trigger] lib.entries[k], k)
}

/// Whether an entry stands for `b`, given what the others stand for.
pub open spec fn stands_for(bytes: Seq<Seq<u8>>, e: Entry, b: Seq<u8>) -> bool {
    match e {
        Entry::Dfa(rule) => generated(rule) == b,
        Entry::Compound(refs) => joined(bytes, refs) == b,
    }
}

/// Whether each axiom stands for the bytes it was registered with.
pub open spec fn sound(lib: Library) -> bool {
    &&& well_founded(lib)
    &&& forall|k: int|
        0 <= k < lib.entries.len() ==> stands_for(lib.bytes, #[trigger] lib.entries[k], lib.bytes[k])
}

/// Whether no two axioms of a library stand for the same bytes.
pub open spec fn distinct(lib: Library) -> bool {
    forall|i: int, j: int|
        0 <= i < j < lib.bytes.len() ==> #[trigger] lib.bytes[i] != #[trigger] lib.bytes[j]
}

/// The first axiom from `k` on that is registered for `b`.
pub open spec fn find_from(bytes: Seq<Seq<u8>>, b: Seq<u8>, k: int) -> Option<int>
    decreases bytes.len() - k,
{
    if k >= bytes.len() {
        None
    } else if bytes[k] == b {
        Some(k)
    } else {
        find_from(bytes, b, k + 1)
    }
}

/// The axiom that is registered for `b`.
pub open spec fn find(bytes: Seq<Seq<u8>>, b: Seq<u8>) -> Option<int> {
    find_from(bytes, b, 0)
}

/// The library with no axioms.
pub open spec fn empty_library() -> Library {
    Library { entries: Seq::empty(), bytes: Seq::empty() }
}

/// The library after registering `e` for the bytes `b`, and the identifier of the
/// axiom that stands for them. What the library has already is not added again.
pub open spec fn registered(lib: Library, e: Entry, b: Seq<u8>) -> (Library, u32) {
    match find(lib.bytes, b) {
        Some(k) => (lib, k as u32),
        None => (
            Library { entries: lib.entries.push(e), bytes: lib.bytes.push(b) },
            lib.entries.len() as u32,
        ),
    }
}

/// The library after adding a rule, and the identifier of the axiom.
pub open spec fn rule_added(lib: Library, rule: Rule) -> (Library, u32) {
    registered(lib, Entry::Dfa(rule), generated(rule))
}

/// What the search for an axiom finds.
pub proof fn lemma_find_from(bytes: Seq<Seq<u8>>, b: Seq<u8>, k: int)
    requires
        0 <= k,
    ensures
        match find_from(bytes, b, k) {
            Some(i) => k <= i < bytes.len() && bytes[i] == b,
            None => forall|i: int| k <= i < bytes.len() ==> bytes[i] != b,
        },
    decreases bytes.len() - k,
{
    if k < bytes.len() && bytes[k] != b {
        lemma_find_from(bytes, b, k + 1);
    }
}

/// Joining looks at the named axioms only.
pub proof fn lemma_joined_depends(a: Seq<Seq<u8>>, b: Seq<Seq<u8>>, ids: Seq<u32>)
    requires
        forall|i: int| 0 <= i < ids.len() ==> a[#[trigger] ids[i] as int] == b[ids[i] as int],
    ensures
        joined(a, ids) == joined(b, ids),
    decreases ids.len(),
{
    if ids.len() > 0 {
        assert forall|i: int| 0 <= i < ids.drop_last().len() implies a[#[trigger] ids.drop_last()[i] as int]
            == b[ids.drop_last()[i] as int] by {
            assert(ids.drop_last()[i] == ids[i]);
        }
        lemma_joined_depends(a, b, ids.drop_last());
        assert(ids.last() == ids[ids.len() - 1]);
    }
}

/// Joining two lists joins what each gives.
pub proof fn lemma_joined_concat(bytes: Seq<Seq<u8>>, a: Seq<u32>, b: Seq<u32>)
    ensures
        joined(bytes, a + b) == joined(bytes, a) + joined(bytes, b),
    decreases b.len(),
{
    if b.len() == 0 {
        assert(a + b =~= a);
        assert(joined(bytes, a) + joined(bytes, b) =~= joined(bytes, a));
    } else {
        assert((a + b).drop_last() =~= a + b.drop_last());
        lemma_joined_concat(bytes, a, b.drop_last());
        assert(joined(bytes, a + b) =~= joined(bytes, a) + joined(bytes, b));
    }
}

/// Registering an axiom for the bytes that it stands for keeps a library sound.
pub proof fn lemma_register_sound(lib: Library, e: Entry, b: Seq<u8>)
    requires
        sound(lib),
        refers_back(e, lib.entries.len() as int),
        stands_for(lib.bytes, e, b),
    ensures
        sound(registered(lib, e, b).0),
{
    let after = registered(lib, e, b).0;
    if find(lib.bytes, b) is None {
        assert forall|k: int| 0 <= k < after.entries.len() implies stands_for(
            after.bytes,
            #[trigger] after.entries[k],
            after.bytes[k],
        ) && refers_back(after.entries[k], k) by {
            let ek = after.entries[k];
            assert(refers_back(ek, k));
            lemma_joined_depends(lib.bytes, after.bytes, refs_of(ek));
        }
    }
}

/// Registering an axiom for the bytes that it stands for keeps a library sound and
/// without duplicates, adds at most one axiom, changes none, and gives an
/// identifier of those bytes.
pub proof fn law_register(lib: Library, e: Entry, b: Seq<u8>)
    requires
        sound(lib),
        distinct(lib),
        registered(lib, e, b).0.entries.len() <= 0x1_0000_0000,
        refers_back(e, lib.entries.len() as int),
        stands_for(lib.bytes, e, b),
    ensures
        ({
            let (after, id) = registered(lib, e, b);
            &&& sound(after)
            &&& distinct(after)
            &&& id < after.entries.len()
            &&& after.bytes[id as int] == b
            &&& lib.entries.len() <= after.entries.len() <= lib.entries.len() + 1
            &&& extends(after, lib)
        }),
{
    lemma_find_from(lib.bytes, b, 0);
    lemma_register_sound(lib, e, b);
    let (after, id) = registered(lib, e, b);
    assert(after.entries.subrange(0, lib.entries.len() as int) =~= lib.entries);
    assert(after.bytes.subrange(0, lib.bytes.len() as int) =~= lib.bytes);
}

/// Whether `after` has the axioms of `before`, and perhaps more.
pub open spec fn extends(after: Library, before: Library) -> bool {
    &&& before.entries.len() <= after.entries.len()
    &&& before.bytes.len() <= after.bytes.len()
    &&& after.entries.subrange(0, before.entries.len() as int) == before.entries
    &&& after.bytes.subrange(0, before.bytes.len() as int) == before.bytes
}

/// Whatever has the axioms of a library has each of them.
pub proof fn lemma_extends_at(after: Library, before: Library, k: int)
    requires
        extends(after, before),
        0 <= k < before.bytes.len(),
    ensures
        after.bytes[k] == before.bytes[k],
{
    assert(after.bytes.subrange(0, before.bytes.len() as int)[k] == after.bytes[k]);
}

/// A library has its own axioms.
pub proof fn lemma_extends_self(lib: Library)
    ensures
        extends(lib, lib),
{
    assert(lib.entries.subrange(0, lib.entries.len() as int) =~= lib.entries);
    assert(lib.bytes.subrange(0, lib.bytes.len() as int) =~= lib.bytes);
}

/// What extends an extension extends the library itself.
pub proof fn lemma_extends_trans(c: Library, b: Library, a: Library)
    requires
        extends(c, b),
        extends(b, a),
    ensures
        extends(c, a),
{
    assert(c.entries.subrange(0, b.entries.len() as int).subrange(0, a.entries.len() as int)
        =~= c.entries.subrange(0, a.entries.len() as int));
    assert(c.bytes.subrange(0, b.bytes.len() as int).subrange(0, a.bytes.len() as int)
        =~= c.bytes.subrange(0, a.bytes.len() as int));
}

/// Registering changes no axiom, and adds one at most.
pub proof fn lemma_registered_extends(lib: Library, e: Entry, b: Seq<u8>)
    requires
        lib.entries.len() == lib.bytes.len(),
    ensures
        ({
            let after = registered(lib, e, b).0;
            &&& extends(after, lib)
            &&& after.entries.len() == after.bytes.len()
            &&& after.entries.len() <= lib.entries.len() + 1
        }),
{
    let after = registered(lib, e, b).0;
    assert(after.entries.subrange(0, lib.entries.len() as int) =~= lib.entries);
    assert(after.bytes.subrange(0, lib.bytes.len() as int) =~= lib.bytes);
}

/// Joining a single axiom gives its bytes.
pub proof fn lemma_joined_one(bytes: Seq<Seq<u8>>, id: u32)
    ensures
        joined(bytes, seq![id]) == bytes[id as int],
{
    assert(seq![id].drop_last() =~= Seq::empty());
    assert(joined(bytes, seq![id].drop_last()) + bytes[id as int] =~= bytes[id as int]);
}

/// Registering the same bytes again changes nothing and gives the same identifier.
pub proof fn law_register_twice(lib: Library, e: Entry, e2: Entry, b: Seq<u8>)
    requires
        lib.entries.len() == lib.bytes.len(),
    ensures
        ({
            let (after, id) = registered(lib, e, b);
            registered(after, e2, b) == (after, id)
        }),
{
    lemma_find_from(lib.bytes, b, 0);
    let (after, id) = registered(lib, e, b);
    if find(lib.bytes, b) is None {
        lemma_find_appended(lib.bytes, b, 0);
    }
}

proof fn lemma_find_appended(bytes: Seq<Seq<u8>>, b: Seq<u8>, k: int)
    requires
        0 <= k <= bytes.len(),
        forall|i: int| k <= i < bytes.len() ==> bytes[i] != b,
    ensures
        find_from(bytes.push(b), b, k) == Some(bytes.len() as int),
    decreases bytes.len() - k,
{
    if k < bytes.len() {
        assert(bytes.push(b)[k] == bytes[k]);
        lemma_find_appended(bytes, b, k + 1);
    }
}

/// The bytes that the axiom `id` stands for, following references at most `fuel`
/// deep; nothing if it, or what it refers to, is not there or lies deeper.
pub open spec fn resolved(entries: Seq<Entry>, id: u32, fuel: nat) -> Option<Seq<u8>>
    decreases fuel, 0nat,
{
    if fuel == 0 || id >= entries.len() {
        None
    } else {
        match entries[id as int] {
            Entry::Dfa(rule) => Some(generated(rule)),
            Entry::Compound(refs) => resolved_all(entries, refs, (fuel - 1) as nat),
        }
    }
}

/// The bytes that the axioms `ids` stand for, one after another.
pub open spec fn resolved_all(entries: Seq<Entry>, ids: Seq<u32>, fuel: nat) -> Option<Seq<u8>>
    decreases fuel, ids.len() + 1,
{
    if ids.len() == 0 {
        Some(Seq::empty())
    } else {
        match (resolved_all(entries, ids.drop_last(), fuel), resolved(entries, ids.last(), fuel)) {
            (Some(a), Some(b)) => Some(a + b),
            _ => None,
        }
    }
}

/// In a sound library each axiom resolves to the bytes it was registered with.
pub proof fn law_sound_resolves(lib: Library, id: u32, fuel: nat)
    requires
        sound(lib),
        id < lib.entries.len(),
        fuel > id,
    ensures
        resolved(lib.entries, id, fuel) == Some(lib.bytes[id as int]),
    decreases fuel,
{
    let e = lib.entries[id as int];
    assert(refers_back(e, id as int));
    assert(stands_for(lib.bytes, e, lib.bytes[id as int]));
    match e {
        Entry::Dfa(_) => {},
        Entry::Compound(refs) => {
            assert forall|i: int| 0 <= i < refs.len() implies #[trigger] refs[i] < lib.entries.len()
                && resolved(lib.entries, refs[i], (fuel - 1) as nat) == Some(
                lib.bytes[refs[i] as int],
            ) by {
                assert(refs_of(e)[i] < id);
                law_sound_resolves(lib, refs[i], (fuel - 1) as nat);
            }
            lemma_resolved_all(lib, refs, (fuel - 1) as nat);
        },
    }
}

proof fn lemma_resolved_all(lib: Library, ids: Seq<u32>, fuel: nat)
    requires
        forall|i: int|
            0 <= i < ids.len() ==> resolved(lib.entries, #[trigger] ids[i], fuel) == Some(
                lib.bytes[ids[i] as int],
            ),
    ensures
        resolved_all(lib.entries, ids, fuel) == Some(joined(lib.bytes, ids)),
    decreases ids.len(),
{
    if ids.len() > 0 {
        assert forall|i: int| 0 <= i < ids.drop_last().len() implies resolved(
            lib.entries,
            #[trigger] ids.drop_last()[i],
            fuel,
        ) == Some(lib.bytes[ids.drop_last()[i] as int]) by {
            assert(ids.drop_last()[i] == ids[i]);
        }
        lemma_resolved_all(lib, ids.drop_last(), fuel);
        assert(ids.last() == ids[ids.len() - 1]);
    }
}

/// Whether each of `ids` names an axiom of a library of `n`.
pub open spec fn ids_below(ids: Seq<u32>, n: int) -> bool {
    forall|i: int| 0 <= i < ids.len() ==> #[trigger] ids[i] < n
}

/// In a sound library a list of axioms resolves to their bytes, joined.
pub proof fn law_sound_resolves_all(lib: Library, ids: Seq<u32>)
    requires
        sound(lib),
        ids_below(ids, lib.entries.len() as int),
    ensures
        resolved_all(lib.entries, ids, lib.entries.len()) == Some(joined(lib.bytes, ids)),
{
    assert forall|i: int| 0 <= i < ids.len() implies resolved(
        lib.entries,
        #[trigger] ids[i],
        lib.entries.len(),
    ) == Some(lib.bytes[ids[i] as int]) by {
        law_sound_resolves(lib, ids[i], lib.entries.len());
    }
    lemma_resolved_all(lib, ids, lib.entries.len());
}

/// What following references at most `f` or at most `g` deep gives does not differ,
/// and is not missing, where both reach below the axiom.
proof fn lemma_resolves(lib: Library, id: u32, f: nat, g: nat)
    requires
        well_founded(lib),
        id < lib.entries.len(),
        f > id,
        g > id,
    ensures
        resolved(lib.entries, id, f) is Some,
        resolved(lib.entries, id, f) == resolved(lib.entries, id, g),
    decreases id,
{
    let e = lib.entries[id as int];
    assert(refers_back(e, id as int));
    if let Entry::Compound(refs) = e {
        assert forall|i: int| 0 <= i < refs.len() implies #[trigger] refs[i] < id by {
            assert(refs_of(e)[i] < id);
        }
        lemma_resolves_all(lib, refs, id as int, (f - 1) as nat, (g - 1) as nat);
    }
}

proof fn lemma_resolves_all(lib: Library, ids: Seq<u32>, bound: int, f: nat, g: nat)
    requires
        well_founded(lib),
        0 <= bound < lib.entries.len(),
        forall|i: int| 0 <= i < ids.len() ==> #[trigger] ids[i] < bound,
        f >= bound,
        g >= bound,
    ensures
        resolved_all(lib.entries, ids, f) is Some,
        resolved_all(lib.entries, ids, f) == resolved_all(lib.entries, ids, g),
    decreases bound, ids.len(),
{
    if ids.len() > 0 {
        assert forall|i: int| 0 <= i < ids.drop_last().len() implies #[trigger] ids.drop_last()[i]
            < bound by {
            assert(ids.drop_last()[i] == ids[i]);
        }
        lemma_resolves_all(lib, ids.drop_last(), bound, f, g);
        assert(ids.last() == ids[ids.len() - 1]);
        lemma_resolves(lib, ids.last(), f, g);
    }
}

/// The bytes that an axiom expands to, by its entry and those it refers to.
pub open spec fn expansion(entries: Seq<Entry>, id: u32) -> Seq<u8> {
    resolved(entries, id, entries.len())->0
}

/// The bytes that the axiom `e` expands to, where it does.
pub open spec fn entry_expansion(entries: Seq<Entry>, e: Entry) -> Seq<u8> {
    match e {
        Entry::Dfa(rule) => generated(rule),
        Entry::Compound(refs) => resolved_all(entries, refs, entries.len())->0,
    }
}

/// The library with each axiom registered for what it expands to.
pub open spec fn expanded(lib: Library) -> Library {
    Library {
        entries: lib.entries,
        bytes: Seq::new(lib.entries.len(), |k: int| entry_expansion(lib.entries, lib.entries[k])),
    }
}

/// Every axiom that refers to earlier ones only expands to some bytes, and a library
/// with these for its bytes is sound.
pub proof fn law_expanded_sound(lib: Library)
    requires
        well_founded(lib),
    ensures
        sound(expanded(lib)),
        forall|id: u32|
            id < lib.entries.len() ==> #[trigger] resolved(lib.entries, id, lib.entries.len())
                == Some(expanded(lib).bytes[id as int]),
{
    let full = expanded(lib);
    let n = lib.entries.len();
    assert forall|id: u32| id < n implies #[trigger] resolved(lib.entries, id, n) == Some(
        full.bytes[id as int],
    ) by {
        lemma_resolves(lib, id, n, n);
        let e = lib.entries[id as int];
        assert(refers_back(e, id as int));
        if let Entry::Compound(refs) = e {
            assert forall|i: int| 0 <= i < refs.len() implies #[trigger] refs[i] < id by {
                assert(refs_of(e)[i] < id);
            }
            lemma_resolves_all(lib, refs, id as int, (n - 1) as nat, n);
        }
    }
    assert forall|k: int| 0 <= k < n implies refers_back(#[trigger] full.entries[k], k)
        && stands_for(full.bytes, full.entries[k], full.bytes[k]) by {
        let e = lib.entries[k];
        assert(refers_back(e, k));
        if let Entry::Compound(refs) = e {
            assert forall|i: int| 0 <= i < refs.len() implies resolved(
                full.entries,
                #[trigger] refs[i],
                n,
            ) == Some(full.bytes[refs[i] as int]) by {
                assert(refs_of(e)[i] < k);
            }
            lemma_resolved_all(full, refs, n);
        }
    }
}

proof fn lemma_unresolved_prefix(entries: Seq<Entry>, ids: Seq<u32>, fuel: nat, k: int)
    requires
        0 <= k <= ids.len(),
        resolved_all(entries, ids.subrange(0, k), fuel) is None,
    ensures
        resolved_all(entries, ids, fuel) is None,
    decreases ids.len(),
{
    if k == ids.len() {
        assert(ids.subrange(0, k) =~= ids);
    } else {
        assert(ids.drop_last().subrange(0, k) =~= ids.subrange(0, k));
        lemma_unresolved_prefix(entries, ids.drop_last(), fuel, k);
    }
}

/// Appends the bytes that an axiom stands for. Gives up where one is missing or
/// lies deeper than `fuel`.
fn resolve_into(entries: &[AxiomEntry], id: u32, fuel: usize, out: &mut Vec<u8>) -> (done: bool)
    ensures
        match resolved(entry_views(entries@), id, fuel as nat) {
            Some(b) => done && final(out)@ == old(out)@ + b,
            None => !done,
        },
    decreases fuel, 0nat,
{
    if fuel == 0 || id as u64 >= entries.len() as u64 {
        return false;
    }
    assert(entry_views(entries@)[id as int] == entries@[id as int]@);
    match &entries[id as usize] {
        AxiomEntry::Dfa(rule) => {
            extend(out, rule.generate().as_slice());
            true
        },
        AxiomEntry::Compound(refs) => resolve_all_into(entries, refs.as_slice(), fuel - 1, out),
    }
}

/// Appends the bytes that axioms stand for, one after another.
pub(crate) fn resolve_all_into(
    entries: &[AxiomEntry],
    ids: &[u32],
    fuel: usize,
    out: &mut Vec<u8>,
) -> (done: bool)
    ensures
        match resolved_all(entry_views(entries@), ids@, fuel as nat) {
            Some(b) => done && final(out)@ == old(out)@ + b,
            None => !done,
        },
    decreases fuel, 1nat,
{
    let ghost es = entry_views(entries@);
    let ghost start = out@;
    let mut k: usize = 0;
    assert(ids@.subrange(0, 0) =~= Seq::empty());
    assert(start + Seq::<u8>::empty() =~= start);
    while k < ids.len()
        invariant
            k <= ids@.len(),
            es == entry_views(entries@),
            resolved_all(es, ids@.subrange(0, k as int), fuel as nat) matches Some(b) && out@
                == start + b,
        decreases ids@.len() - k,
    {
        let ghost before = out@;
        let ghost first = resolved_all(es, ids@.subrange(0, k as int), fuel as nat)->0;
        let done = resolve_into(entries, ids[k], fuel, out);
        proof {
            let now = ids@.subrange(0, k + 1);
            assert(now.drop_last() =~= ids@.subrange(0, k as int));
            assert(now.last() == ids@[k as int]);
            if done {
                let more = resolved(es, ids@[k as int], fuel as nat)->0;
                assert(start + first + more =~= start + (first + more));
            } else {
                lemma_unresolved_prefix(es, ids@, fuel as nat, k + 1);
            }
        }
        if !done {
            return false;
        }
        k += 1;
    }
    assert(ids@.subrange(0, k as int) =~= ids@);
    true
}

/// The axioms found so far, and the byte strings that they are registered for.
pub struct AxiomLib {
    entries: Vec<AxiomEntry>,
    bytes: Vec<Vec<u8>>,
}

impl View for AxiomLib {
    type V = Library;

    closed spec fn view(&self) -> Library {
        Library {
            entries: entry_views(self.entries@),
            bytes: Seq::new(self.bytes@.len(), |i: int| self.bytes@[i]@),
        }
    }
}

impl AxiomLib {
    /// Whether the axioms refer to earlier ones only.
    pub open spec fn wf(&self) -> bool {
        well_founded(self@)
    }

    /// A library with no axioms.
    pub fn new() -> (lib: AxiomLib)
        ensures
            lib@ == empty_library(),
            lib.wf(),
            sound(lib@),
    {
        let lib = AxiomLib { entries: Vec::new(), bytes: Vec::new() };
        assert(lib@ =~= empty_library());
        lib
    }

    /// How many axioms there are.
    pub fn len(&self) -> (n: usize)
        ensures
            n == self@.entries.len(),
    {
        self.entries.len()
    }

    /// The bytes that an axiom is registered for.
    pub fn bytes_of(&self, id: usize) -> (b: &[u8])
        requires
            id < self@.bytes.len(),
        ensures
            b@ == self@.bytes[id as int],
    {
        self.bytes[id].as_slice()
    }

    /// The axiom at position `id`.
    pub fn entry(&self, id: usize) -> (e: &AxiomEntry)
        requires
            id < self@.entries.len(),
        ensures
            e@ == self@.entries[id as int],
    {
        &self.entries[id]
    }

    /// The axiom that is registered for `b`.
    pub fn lookup(&self, b: &[u8]) -> (found: Option<usize>)
        ensures
            match found {
                Some(k) => find(self@.bytes, b@) == Some(k as int) && k < self@.bytes.len(),
                None => find(self@.bytes, b@) is None,
            },
    {
        let mut k: usize = 0;
        while k < self.bytes.len()
            invariant
                k <= self.bytes@.len(),
                find_from(self@.bytes, b@, 0) == find_from(self@.bytes, b@, k as int),
            decreases self.bytes@.len() - k,
        {
            if same_bytes(self.bytes[k].as_slice(), b) {
                return Some(k);
            }
            k += 1;
        }
        None
    }

    /// Registers `entry` for the bytes `resolved`, unless an axiom stands for them
    /// already; gives the identifier of that axiom.
    pub fn register(&mut self, entry: AxiomEntry, resolved: Vec<u8>) -> (id: u32)
        requires
            old(self).wf(),
            refers_back(entry@, old(self)@.entries.len() as int),
        ensures
            (final(self)@, id) == registered(old(self)@, entry@, resolved@),
            final(self).wf(),
            id < final(self)@.entries.len(),
            old(self)@.entries.len() <= final(self)@.entries.len(),
            sound(old(self)@) && stands_for(old(self)@.bytes, entry@, resolved@) ==> sound(
                final(self)@,
            ),
    {
        let ghost before = self@;
        proof {
            if sound(self@) && stands_for(self@.bytes, entry@, resolved@) {
                lemma_register_sound(self@, entry@, resolved@);
            }
        }
        match self.lookup(resolved.as_slice()) {
            Some(k) => {
                proof {
                    lemma_truncated(k as nat);
                }
                k as u32
            },
            None => {
                let n: usize = self.entries.len();
                let ghost e = entry@;
                let ghost b = resolved@;
                self.entries.push(entry);
                self.bytes.push(resolved);
                assert(self@.entries =~= before.entries.push(e));
                assert(self@.bytes =~= before.bytes.push(b));
                proof {
                    lemma_truncated(n as nat);
                    assert forall|k: int| 0 <= k < self@.entries.len() implies refers_back(
                        #[trigger] self@.entries[k],
                        k,
                    ) by {
                        if k < before.entries.len() {
                            assert(refers_back(before.entries[k], k));
                        }
                    }
                }
                n as u32
            },
        }
    }

    /// Registers a rule.
    pub fn add_dfa(&mut self, kind: DfaKind) -> (id: u32)
        requires
            old(self).wf(),
        ensures
            (final(self)@, id) == rule_added(old(self)@, kind@),
            final(self).wf(),
            id < final(self)@.entries.len(),
            old(self)@.entries.len() <= final(self)@.entries.len(),
            sound(old(self)@) ==> sound(final(self)@),
    {
        let bytes = kind.generate();
        self.register(AxiomEntry::Dfa(kind), bytes)
    }

    /// Registers a compound of earlier axioms for the bytes `resolved`.
    pub fn add_compound(&mut self, refs: Vec<u32>, resolved: Vec<u8>) -> (id: u32)
        requires
            old(self).wf(),
            ids_below(refs@, old(self)@.entries.len() as int),
        ensures
            (final(self)@, id) == registered(old(self)@, Entry::Compound(refs@), resolved@),
            final(self).wf(),
            id < final(self)@.entries.len(),
            old(self)@.entries.len() <= final(self)@.entries.len(),
            sound(old(self)@) && joined(old(self)@.bytes, refs@) == resolved@ ==> sound(
                final(self)@,
            ),
    {
        self.register(AxiomEntry::Compound(refs), resolved)
    }

    /// The bytes that the axiom `id` stands for, expanded from its entry and those it
    /// refers to.
    pub fn resolve(&self, id: u32) -> (b: Vec<u8>)
        requires
            self.wf(),
            id < self@.entries.len(),
        ensures
            resolved(self@.entries, id, self@.entries.len()) == Some(b@),
            sound(self@) ==> b@ == self@.bytes[id as int],
    {
        let mut b: Vec<u8> = Vec::new();
        proof {
            lemma_resolves(self@, id, self@.entries.len(), self@.entries.len());
            if sound(self@) {
                law_sound_resolves(self@, id, self@.entries.len());
            }
        }
        let done = resolve_into(self.entries.as_slice(), id, self.entries.len(), &mut b);
        assert(b@ =~= expansion(self@.entries, id));
        b
    }
}

/// An identifier never exceeds the position that it was made of.
pub(crate) proof fn lemma_truncated(n: nat)
    requires
        n <= usize::MAX,
    ensures
        (n as u32) <= n,
{
    let x = n as u64;
    assert((x as u32) as u64 <= x) by (bit_vector);
}

/// Bytes that the library has an axiom for keep it, and nothing is added; other bytes
/// get the next number.
pub proof fn law_register_adds_what_is_new(lib: Library, e: Entry, b: Seq<u8>)
    requires
        lib.entries.len() == lib.bytes.len() <= 0xFFFF_FFFF,
    ensures
        ({
            let (after, id) = registered(lib, e, b);
            if lib.bytes.contains(b) {
                after == lib && id < lib.bytes.len() && lib.bytes[id as int] == b && forall|k: int|
                    0 <= k < id ==> #[trigger] lib.bytes[k] != b
            } else {
                after.entries == lib.entries.push(e) && after.bytes == lib.bytes.push(b) && id
                    == lib.entries.len()
            }
        }),
{
    lemma_find_first(lib.bytes, b, 0);
}

proof fn lemma_find_first(bytes: Seq<Seq<u8>>, b: Seq<u8>, k: int)
    requires
        0 <= k,
    ensures
        match find_from(bytes, b, k) {
            Some(i) => k <= i < bytes.len() && bytes[i] == b && forall|j: int|
                k <= j < i ==> #[trigger] bytes[j] != b,
            None => forall|j: int| k <= j < bytes.len() ==> #[trigger] bytes[j] != b,
        },
    decreases bytes.len() - k,
{
    if k < bytes.len() && bytes[k] != b {
        lemma_find_first(bytes, b, k + 1);
    }
}

/// What is joined are the bytes of the named axioms, in order.
pub proof fn law_joined(bytes: Seq<Seq<u8>>, ids: Seq<u32>)
    ensures
        joined(bytes, ids) == Seq::new(ids.len(), |i: int| bytes[ids[i] as int]).flatten(),
    decreases ids.len(),
{
    let parts = Seq::new(ids.len(), |i: int| bytes[ids[i] as int]);
    parts.lemma_flatten_and_flatten_alt_are_equivalent();
    if ids.len() > 0 {
        let short = ids.drop_last();
        law_joined(bytes, short);
        let fewer = Seq::new(short.len(), |i: int| bytes[short[i] as int]);
        fewer.lemma_flatten_and_flatten_alt_are_equivalent();
        assert(parts.drop_last() =~= fewer);
        assert(parts.last() == bytes[ids.last() as int]);
    }
}

/// An axiom that is a rule expands to what the rule generates; a compound to what the
/// axioms that it refers to expand to, one after another; what is not there to nothing.
pub proof fn law_resolved(entries: Seq<Entry>, id: u32, parts: Seq<Seq<u8>>, fuel: nat)
    requires
        id < entries.len(),
        entries[id as int] matches Entry::Compound(refs) ==> parts.len() == refs.len() && forall|
            i: int,
        |
            0 <= i < refs.len() ==> resolved(entries, #[trigger] refs[i], fuel) == Some(parts[i]),
    ensures
        match entries[id as int] {
            Entry::Dfa(rule) => resolved(entries, id, fuel + 1) == Some(generated(rule)),
            Entry::Compound(_) => resolved(entries, id, fuel + 1) == Some(parts.flatten()),
        },
        forall|other: u32|
            other >= entries.len() ==> #[trigger] resolved(entries, other, fuel) is None,
{
    if let Entry::Compound(refs) = entries[id as int] {
        lemma_resolved_parts(entries, refs, parts, fuel);
    }
}

proof fn lemma_resolved_parts(
    entries: Seq<Entry>,
    ids: Seq<u32>,
    parts: Seq<Seq<u8>>,
    fuel: nat,
)
    requires
        parts.len() == ids.len(),
        forall|i: int|
            0 <= i < ids.len() ==> resolved(entries, #[trigger] ids[i], fuel) == Some(parts[i]),
    ensures
        resolved_all(entries, ids, fuel) == Some(parts.flatten()),
    decreases ids.len(),
{
    parts.lemma_flatten_and_flatten_alt_are_equivalent();
    if ids.len() > 0 {
        let short = ids.drop_last();
        let fewer = parts.drop_last();
        assert forall|i: int| 0 <= i < short.len() implies resolved(
            entries,
            #[trigger] short[i],
            fuel,
        ) == Some(fewer[i]) by {
            assert(short[i] == ids[i]);
        }
        lemma_resolved_parts(entries, short, fewer, fuel);
        fewer.lemma_flatten_and_flatten_alt_are_equivalent();
        assert(ids.last() == ids[ids.len() - 1]);
    }
}

/// Entries are taken one by one, in order, each with its rule or its references.
pub proof fn law_entries_viewed(entries: Seq<AxiomEntry>, i: int)
    requires
        0 <= i < entries.len(),
    ensures
        entry_views(entries).len() == entries.len(),
        entries[i] matches AxiomEntry::Compound(refs) ==> entry_views(entries)[i]
            == Entry::Compound(refs@),
        entries[i] matches AxiomEntry::Dfa(rule) ==> entry_views(entries)[i] == Entry::Dfa(rule@),
{
}

/// The bytes that an axiom expands to are those that following its references gives.
pub proof fn law_expansion(entries: Seq<Entry>, id: u32)
    ensures
        resolved(entries, id, entries.len()) matches Some(b) ==> expansion(entries, id) == b,
{
}

} // verus!
