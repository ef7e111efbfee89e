//! The inner stream: a library of axioms, a sequence of them, and the filter that
//! the data went through.
//!
//! ```text
//! [magic 4B][filter 1B][axiom count varint][sequence length varint]
//! for each axiom: [number varint][type 1B][payload]
//! for each member of the sequence: [number varint]
//! ```

use vstd::prelude::*;

use crate::bytes::copy_range;
use crate::bytes::extend;
use crate::bytes::holds_at;
use crate::bytes::lemma_holds_parts;
use crate::dfa::DfaKind;
use crate::dfa::Rule;
use crate::dfa::rule_cost;
use crate::error::AxmzipError;
use crate::error::Failure;
use crate::error::invalid;
use crate::filter::Filter;
use crate::filter::filter_code;
use crate::filter::filter_of;
use crate::filter::law_filter_code_round_trip;
use crate::library::AxiomEntry;
use crate::library::Entry;
use crate::library::entry_views;
use crate::order::law_ranking_descends;
use crate::order::law_ranking_of_descending;
use crate::order::rank;
use crate::order::ranking;
use crate::order::ranks;
use crate::text::decimal;
use crate::text::decimal_text;
use crate::varint::decode_varint;
use crate::varint::encode_varint;
use crate::varint::lemma_varint_read;
use crate::varint::read_varint;
use crate::varint::varint;

verus! {

pub const TC_RAW: u8 = 1;

pub const TC_COMPOUND: u8 = 2;

pub const TC_CONSTANT: u8 = 3;

pub const TC_ARITHMETIC: u8 = 4;

pub const TC_ALTERNATING: u8 = 5;

pub const TC_PERIODIC: u8 = 6;

/// What an inner stream begins with: `AXi` and the number of the format.
pub open spec fn inner_magic() -> Seq<u8> {
    seq![0x41u8, 0x58, 0x69, 0x05]
}

/// The numbers from the `i`th on, each as a varint.
pub open spec fn ids_from(ids: Seq<u32>, i: int) -> Seq<u8>
    decreases ids.len() - i,
{
    if i >= ids.len() {
        Seq::empty()
    } else {
        varint(ids[i] as nat) + ids_from(ids, i + 1)
    }
}

/// An axiom: its type, and what it holds.
pub open spec fn entry_bytes(e: Entry) -> Seq<u8> {
    match e {
        Entry::Dfa(Rule::Raw(d)) => seq![TC_RAW] + varint(d.len()) + d,
        Entry::Compound(refs) => seq![TC_COMPOUND] + varint(refs.len()) + ids_from(refs, 0),
        Entry::Dfa(Rule::Constant(v, n)) => seq![TC_CONSTANT, v] + varint(n as nat),
        Entry::Dfa(Rule::Arithmetic(s, st, n)) => seq![TC_ARITHMETIC, s, st] + varint(n as nat),
        Entry::Dfa(Rule::Alternating(a, b, n)) => seq![TC_ALTERNATING, a, b] + varint(n as nat),
        Entry::Dfa(Rule::Periodic(p, r)) => seq![TC_PERIODIC] + varint(p.len()) + p + varint(
            r as nat,
        ),
    }
}

/// The axioms from the `k`th on, each with its number.
pub open spec fn entries_from(entries: Seq<Entry>, k: int) -> Seq<u8>
    decreases entries.len() - k,
{
    if k >= entries.len() {
        Seq::empty()
    } else {
        varint(k as nat) + entry_bytes(entries[k]) + entries_from(entries, k + 1)
    }
}

/// An inner stream.
pub open spec fn inner_bytes(entries: Seq<Entry>, seq: Seq<u32>, filter: Filter) -> Seq<u8> {
    inner_magic() + seq![filter_code(filter)] + varint(entries.len()) + varint(seq.len())
        + entries_from(entries, 0) + ids_from(seq, 0)
}

/// Appends numbers, each as a varint.
fn write_ids(out: &mut Vec<u8>, ids: &[u32])
    ensures
        final(out)@ == old(out)@ + ids_from(ids@, 0),
{
    let ghost start = out@;
    let mut i: usize = 0;
    while i < ids.len()
        invariant
            i <= ids@.len(),
            out@ + ids_from(ids@, i as int) == start + ids_from(ids@, 0),
        decreases ids@.len() - i,
    {
        let ghost before = out@;
        extend(out, encode_varint(ids[i] as u64).as_slice());
        assert(out@ + ids_from(ids@, i + 1) =~= before + ids_from(ids@, i as int));
        i += 1;
    }
    assert(out@ + ids_from(ids@, i as int) =~= out@);
}

/// Appends an axiom.
fn write_entry(out: &mut Vec<u8>, e: &AxiomEntry)
    ensures
        final(out)@ == old(out)@ + entry_bytes(e@),
{
    match e {
        AxiomEntry::Dfa(DfaKind::Raw(d)) => {
            out.push(TC_RAW);
            extend(out, encode_varint(d.len() as u64).as_slice());
            extend(out, d.as_slice());
        },
        AxiomEntry::Compound(refs) => {
            out.push(TC_COMPOUND);
            extend(out, encode_varint(refs.len() as u64).as_slice());
            write_ids(out, refs.as_slice());
        },
        AxiomEntry::Dfa(DfaKind::Constant(v, n)) => {
            out.push(TC_CONSTANT);
            out.push(*v);
            extend(out, encode_varint(*n as u64).as_slice());
        },
        AxiomEntry::Dfa(DfaKind::Arithmetic(s, st, n)) => {
            out.push(TC_ARITHMETIC);
            out.push(*s);
            out.push(*st);
            extend(out, encode_varint(*n as u64).as_slice());
        },
        AxiomEntry::Dfa(DfaKind::Alternating(a, b, n)) => {
            out.push(TC_ALTERNATING);
            out.push(*a);
            out.push(*b);
            extend(out, encode_varint(*n as u64).as_slice());
        },
        AxiomEntry::Dfa(DfaKind::Periodic(p, r)) => {
            out.push(TC_PERIODIC);
            extend(out, encode_varint(p.len() as u64).as_slice());
            extend(out, p.as_slice());
            extend(out, encode_varint(*r as u64).as_slice());
        },
    }
    assert(out@ =~= old(out)@ + entry_bytes(e@));
}

/// Writes an inner stream.
pub fn ser_inner(entries: &[AxiomEntry], seq: &[u32], filter: Filter) -> (out: Vec<u8>)
    ensures
        out@ == inner_bytes(entry_views(entries@), seq@, filter),
{
    let ghost es = entry_views(entries@);
    let mut out: Vec<u8> = Vec::new();
    out.push(0x41);
    out.push(0x58);
    out.push(0x69);
    out.push(0x05);
    out.push(filter.code());
    extend(&mut out, encode_varint(entries.len() as u64).as_slice());
    extend(&mut out, encode_varint(seq.len() as u64).as_slice());
    let ghost head = inner_magic() + seq![filter_code(filter)] + varint(es.len()) + varint(
        seq@.len(),
    );
    assert(out@ =~= head);
    let mut k: usize = 0;
    while k < entries.len()
        invariant
            k <= entries@.len(),
            es == entry_views(entries@),
            out@ + entries_from(es, k as int) == head + entries_from(es, 0),
        decreases entries@.len() - k,
    {
        let ghost before = out@;
        extend(&mut out, encode_varint(k as u64).as_slice());
        write_entry(&mut out, &entries[k]);
        assert(out@ + entries_from(es, k + 1) =~= before + entries_from(es, k as int));
        k += 1;
    }
    assert(out@ + entries_from(es, k as int) =~= out@);
    write_ids(&mut out, seq);
    out
}

/// The error for an axiom that the stream ends in.
pub open spec fn cut_short() -> Failure {
    Failure::InvalidData("Truncated axiom"@)
}

/// The `n` numbers at `off`, and where they end.
pub open spec fn read_ids(data: Seq<u8>, off: int, n: nat) -> Result<(Seq<u32>, int), Failure>
    decreases n,
{
    if n == 0 {
        Ok((Seq::empty(), off))
    } else {
        match read_varint(data, off) {
            Err(e) => Err(e),
            Ok((id, next)) => ids_behind(seq![id as u32], read_ids(data, next, (n - 1) as nat)),
        }
    }
}

/// What was read, with `ids` in front.
pub open spec fn ids_behind(ids: Seq<u32>, r: Result<(Seq<u32>, int), Failure>) -> Result<
    (Seq<u32>, int),
    Failure,
> {
    match r {
        Err(e) => Err(e),
        Ok((rest, end)) => Ok((ids + rest, end)),
    }
}

/// The byte string at `off` that follows its length, and where it ends.
pub open spec fn read_string(data: Seq<u8>, off: int) -> Result<(Seq<u8>, int), Failure> {
    match read_varint(data, off) {
        Err(e) => Err(e),
        Ok((len, next)) => if len as usize > data.len() - next {
            Err(cut_short())
        } else {
            Ok((data.subrange(next, next + len as usize), next + len as usize))
        },
    }
}

/// The count at `off` as part of a rule, and where it ends.
pub open spec fn read_count(data: Seq<u8>, off: int) -> Result<(usize, int), Failure> {
    match read_varint(data, off) {
        Err(e) => Err(e),
        Ok((n, end)) => Ok((n as usize, end)),
    }
}

/// The axiom at `off`, and where it ends.
pub open spec fn read_entry(data: Seq<u8>, off: int) -> Result<(Entry, int), Failure> {
    if off >= data.len() {
        Err(cut_short())
    } else if data[off] == TC_RAW {
        match read_string(data, off + 1) {
            Err(e) => Err(e),
            Ok((d, end)) => Ok((Entry::Dfa(Rule::Raw(d)), end)),
        }
    } else if data[off] == TC_COMPOUND {
        match read_varint(data, off + 1) {
            Err(e) => Err(e),
            Ok((n, next)) => match read_ids(data, next, n as nat) {
                Err(e) => Err(e),
                Ok((refs, end)) => Ok((Entry::Compound(refs), end)),
            },
        }
    } else if data[off] == TC_CONSTANT {
        if off + 1 >= data.len() {
            Err(cut_short())
        } else {
            match read_count(data, off + 2) {
                Err(e) => Err(e),
                Ok((n, end)) => Ok((Entry::Dfa(Rule::Constant(data[off + 1], n)), end)),
            }
        }
    } else if data[off] == TC_ARITHMETIC {
        if off + 2 >= data.len() {
            Err(cut_short())
        } else {
            match read_count(data, off + 3) {
                Err(e) => Err(e),
                Ok((n, end)) => Ok(
                    (Entry::Dfa(Rule::Arithmetic(data[off + 1], data[off + 2], n)), end),
                ),
            }
        }
    } else if data[off] == TC_ALTERNATING {
        if off + 2 >= data.len() {
            Err(cut_short())
        } else {
            match read_count(data, off + 3) {
                Err(e) => Err(e),
                Ok((n, end)) => Ok(
                    (Entry::Dfa(Rule::Alternating(data[off + 1], data[off + 2], n)), end),
                ),
            }
        }
    } else if data[off] == TC_PERIODIC {
        match read_string(data, off + 1) {
            Err(e) => Err(e),
            Ok((p, next)) => match read_count(data, next) {
                Err(e) => Err(e),
                Ok((r, end)) => Ok((Entry::Dfa(Rule::Periodic(p, r)), end)),
            },
        }
    } else {
        Err(Failure::InvalidData("Unknown type "@ + decimal(data[off] as nat)))
    }
}

/// The `n` numbered axioms at `off`, and where they end.
pub open spec fn read_entries(data: Seq<u8>, off: int, n: nat) -> Result<
    (Seq<(u32, Entry)>, int),
    Failure,
>
    decreases n,
{
    if n == 0 {
        Ok((Seq::empty(), off))
    } else {
        match read_varint(data, off) {
            Err(e) => Err(e),
            Ok((id, next)) => match read_entry(data, next) {
                Err(e) => Err(e),
                Ok((entry, end)) => entries_behind(
                    seq![(id as u32, entry)],
                    read_entries(data, end, (n - 1) as nat),
                ),
            },
        }
    }
}

/// What was read, with `entries` in front.
pub open spec fn entries_behind(
    entries: Seq<(u32, Entry)>,
    r: Result<(Seq<(u32, Entry)>, int), Failure>,
) -> Result<(Seq<(u32, Entry)>, int), Failure> {
    match r {
        Err(e) => Err(e),
        Ok((rest, end)) => Ok((entries + rest, end)),
    }
}

/// Keys by which the smallest number ranks first.
pub open spec fn number_keys(raw: Seq<(u32, Entry)>) -> Seq<i128> {
    Seq::new(raw.len(), |k: int| (-(raw[k].0 as int)) as i128)
}

/// The axioms, by number.
pub open spec fn by_number(raw: Seq<(u32, Entry)>) -> Seq<Entry> {
    let order = ranking(number_keys(raw));
    Seq::new(raw.len(), |k: int| raw[order[k] as int].1)
}

/// The axioms, the sequence and the filter of an inner stream.
pub open spec fn read_inner(blob: Seq<u8>) -> Result<(Seq<Entry>, Seq<u32>, Filter), Failure> {
    if blob.len() < 6 || blob.subrange(0, 4) != inner_magic() {
        Err(Failure::InvalidData("Bad inner magic"@))
    } else {
        match read_varint(blob, 5) {
            Err(e) => Err(e),
            Ok((count, o1)) => match read_varint(blob, o1) {
                Err(e) => Err(e),
                Ok((len, o2)) => match read_entries(blob, o2, count as nat) {
                    Err(e) => Err(e),
                    Ok((raw, o3)) => match read_ids(blob, o3, len as nat) {
                        Err(e) => Err(e),
                        Ok((seq, _)) => Ok((by_number(raw), seq, filter_of(blob[4]))),
                    },
                },
            },
        }
    }
}

/// Reads `n` numbers at `off`.
fn parse_ids(data: &[u8], off: usize, n: u64) -> (r: Result<(Vec<u32>, usize), AxmzipError>)
    requires
        off <= data@.len(),
    ensures
        match r {
            Ok((ids, end)) => end <= data@.len() && read_ids(data@, off as int, n as nat) == Ok::<
                (Seq<u32>, int),
                Failure,
            >((ids@, end as int)),
            Err(e) => read_ids(data@, off as int, n as nat) == Err::<(Seq<u32>, int), Failure>(e@),
        },
{
    let mut ids: Vec<u32> = Vec::new();
    let mut at: usize = off;
    let mut left: u64 = n;
    proof {
        let r = read_ids(data@, off as int, n as nat);
        if r is Ok {
            assert(ids@ + r->Ok_0.0 =~= r->Ok_0.0);
        }
    }
    while left > 0
        invariant
            at <= data@.len(),
            left <= n,
            read_ids(data@, off as int, n as nat) == ids_behind(
                ids@,
                read_ids(data@, at as int, left as nat),
            ),
        decreases left,
    {
        let ghost before = ids@;
        match decode_varint(data, at) {
            Err(e) => {
                return Err(e);
            },
            Ok((id, next)) => {
                ids.push(id as u32);
                proof {
                    let rest = read_ids(data@, next as int, (left - 1) as nat);
                    if rest is Ok {
                        assert(before + (seq![id as u32] + rest->Ok_0.0) =~= ids@ + rest->Ok_0.0);
                    }
                }
                at = next;
                left -= 1;
            },
        }
    }
    assert(ids@ + Seq::<u32>::empty() =~= ids@);
    Ok((ids, at))
}

/// Reads a byte string that follows its length.
fn parse_string(data: &[u8], off: usize) -> (r: Result<(Vec<u8>, usize), AxmzipError>)
    ensures
        match r {
            Ok((d, end)) => off <= end <= data@.len() && read_string(data@, off as int) == Ok::<
                (Seq<u8>, int),
                Failure,
            >((d@, end as int)),
            Err(e) => read_string(data@, off as int) == Err::<(Seq<u8>, int), Failure>(e@),
        },
{
    match decode_varint(data, off) {
        Err(e) => Err(e),
        Ok((len, next)) => {
            let len: usize = len as usize;
            if len > data.len() - next {
                Err(invalid("Truncated axiom"))
            } else {
                Ok((copy_range(data, next, next + len), next + len))
            }
        },
    }
}

/// Reads a count.
fn parse_count(data: &[u8], off: usize) -> (r: Result<(usize, usize), AxmzipError>)
    ensures
        match r {
            Ok((n, end)) => off <= end <= data@.len() && read_count(data@, off as int) == Ok::<
                (usize, int),
                Failure,
            >((n, end as int)),
            Err(e) => read_count(data@, off as int) == Err::<(usize, int), Failure>(e@),
        },
{
    match decode_varint(data, off) {
        Err(e) => Err(e),
        Ok((n, end)) => Ok((n as usize, end)),
    }
}

/// The error for an axiom of a type that does not exist.
fn unknown_type(tc: u8) -> (e: AxmzipError)
    ensures
        e@ == Failure::InvalidData("Unknown type "@ + decimal(tc as nat)),
{
    AxmzipError::InvalidData("Unknown type ".to_owned().concat(decimal_text(tc as u64).as_str()))
}

/// Reads an axiom.
fn parse_entry(data: &[u8], off: usize) -> (r: Result<(AxiomEntry, usize), AxmzipError>)
    ensures
        match r {
            Ok((entry, end)) => end <= data@.len() && read_entry(data@, off as int) == Ok::<
                (Entry, int),
                Failure,
            >((entry@, end as int)),
            Err(e) => read_entry(data@, off as int) == Err::<(Entry, int), Failure>(e@),
        },
{
    let total: usize = data.len();
    if off >= total {
        return Err(invalid("Truncated axiom"));
    }
    let tc: u8 = data[off];
    if tc == TC_RAW {
        match parse_string(data, off + 1) {
            Err(e) => Err(e),
            Ok((d, end)) => Ok((AxiomEntry::Dfa(DfaKind::Raw(d)), end)),
        }
    } else if tc == TC_COMPOUND {
        match decode_varint(data, off + 1) {
            Err(e) => Err(e),
            Ok((n, next)) => match parse_ids(data, next, n) {
                Err(e) => Err(e),
                Ok((refs, end)) => Ok((AxiomEntry::Compound(refs), end)),
            },
        }
    } else if tc == TC_CONSTANT {
        if total - off <= 1 {
            return Err(invalid("Truncated axiom"));
        }
        match parse_count(data, off + 2) {
            Err(e) => Err(e),
            Ok((n, end)) => Ok((AxiomEntry::Dfa(DfaKind::Constant(data[off + 1], n)), end)),
        }
    } else if tc == TC_ARITHMETIC {
        if total - off <= 2 {
            return Err(invalid("Truncated axiom"));
        }
        match parse_count(data, off + 3) {
            Err(e) => Err(e),
            Ok((n, end)) => Ok(
                (AxiomEntry::Dfa(DfaKind::Arithmetic(data[off + 1], data[off + 2], n)), end),
            ),
        }
    } else if tc == TC_ALTERNATING {
        if total - off <= 2 {
            return Err(invalid("Truncated axiom"));
        }
        match parse_count(data, off + 3) {
            Err(e) => Err(e),
            Ok((n, end)) => Ok(
                (AxiomEntry::Dfa(DfaKind::Alternating(data[off + 1], data[off + 2], n)), end),
            ),
        }
    } else if tc == TC_PERIODIC {
        match parse_string(data, off + 1) {
            Err(e) => Err(e),
            Ok((p, next)) => match parse_count(data, next) {
                Err(e) => Err(e),
                Ok((r, end)) => Ok((AxiomEntry::Dfa(DfaKind::Periodic(p, r)), end)),
            },
        }
    } else {
        Err(unknown_type(tc))
    }
}

/// Axioms as they were read, and their numbers.
struct Numbered {
    numbers: Vec<u32>,
    entries: Vec<AxiomEntry>,
}

impl View for Numbered {
    type V = Seq<(u32, Entry)>;

    closed spec fn view(&self) -> Seq<(u32, Entry)> {
        Seq::new(self.numbers@.len(), |k: int| (self.numbers@[k], self.entries@[k]@))
    }
}

/// Reads `n` numbered axioms at `off`.
fn parse_entries(data: &[u8], off: usize, n: u64) -> (r: Result<(Numbered, usize), AxmzipError>)
    requires
        off <= data@.len(),
    ensures
        match r {
            Ok((raw, end)) => raw.numbers@.len() == raw.entries@.len() && end <= data@.len()
                && read_entries(data@, off as int, n as nat) == Ok::<
                (Seq<(u32, Entry)>, int),
                Failure,
            >((raw@, end as int)),
            Err(e) => read_entries(data@, off as int, n as nat) == Err::<
                (Seq<(u32, Entry)>, int),
                Failure,
            >(e@),
        },
{
    let mut raw = Numbered { numbers: Vec::new(), entries: Vec::new() };
    let mut at: usize = off;
    let mut left: u64 = n;
    proof {
        let r = read_entries(data@, off as int, n as nat);
        if r is Ok {
            assert(raw@ + r->Ok_0.0 =~= r->Ok_0.0);
        }
    }
    while left > 0
        invariant
            at <= data@.len(),
            left <= n,
            raw.numbers@.len() == raw.entries@.len(),
            read_entries(data@, off as int, n as nat) == entries_behind(
                raw@,
                read_entries(data@, at as int, left as nat),
            ),
        decreases left,
    {
        let ghost before = raw@;
        match decode_varint(data, at) {
            Err(e) => {
                return Err(e);
            },
            Ok((id, next)) => match parse_entry(data, next) {
                Err(e) => {
                    return Err(e);
                },
                Ok((entry, end)) => {
                    let ghost one = (id as u32, entry@);
                    raw.numbers.push(id as u32);
                    raw.entries.push(entry);
                    proof {
                        assert(raw@ =~= before.push(one));
                        let rest = read_entries(data@, end as int, (left - 1) as nat);
                        if rest is Ok {
                            assert(before + (seq![one] + rest->Ok_0.0) =~= raw@ + rest->Ok_0.0);
                        }
                    }
                    at = end;
                    left -= 1;
                },
            },
        }
    }
    assert(raw@ + Seq::<(u32, Entry)>::empty() =~= raw@);
    Ok((raw, at))
}

/// Puts axioms in the order of their numbers.
fn sort_by_number(raw: &Numbered) -> (out: Vec<AxiomEntry>)
    requires
        raw.numbers@.len() == raw.entries@.len(),
    ensures
        entry_views(out@) == by_number(raw@),
{
    let n: usize = raw.numbers.len();
    let mut keys: Vec<i128> = Vec::with_capacity(n);
    let mut i: usize = 0;
    while i < n
        invariant
            i <= n,
            n == raw.numbers@.len(),
            keys@.len() == i,
            forall|k: int| 0 <= k < i ==> #[trigger] keys@[k] == -(raw.numbers@[k] as int),
        decreases n - i,
    {
        keys.push(-(raw.numbers[i] as i128));
        i += 1;
    }
    assert(keys@ =~= number_keys(raw@));
    let order = rank(keys.as_slice());
    let mut out: Vec<AxiomEntry> = Vec::with_capacity(n);
    let mut k: usize = 0;
    while k < n
        invariant
            k <= n,
            n == raw.numbers@.len(),
            n == raw.entries@.len(),
            keys@.len() == n,
            keys@ == number_keys(raw@),
            order@ == ranking(keys@),
            ranks(keys@, 0, n as int, order@),
            out@.len() == k,
            forall|j: int| 0 <= j < k ==> (#[trigger] out@[j])@ == raw@[order@[j] as int].1,
        decreases n - k,
    {
        assert(order@[k as int] < n);
        out.push(raw.entries[order[k]].duplicate());
        k += 1;
    }
    assert(entry_views(out@) =~= by_number(raw@));
    out
}

/// Reads an inner stream.
pub fn des_inner(blob: &[u8]) -> (r: Result<(Vec<AxiomEntry>, Vec<u32>, Filter), AxmzipError>)
    ensures
        match r {
            Ok((entries, seq, filter)) => read_inner(blob@) == Ok::<
                (Seq<Entry>, Seq<u32>, Filter),
                Failure,
            >((entry_views(entries@), seq@, filter)),
            Err(e) => read_inner(blob@) == Err::<(Seq<Entry>, Seq<u32>, Filter), Failure>(e@),
        },
{
    if blob.len() < 6 || !(blob[0] == 0x41 && blob[1] == 0x58 && blob[2] == 0x69 && blob[3]
        == 0x05) {
        proof {
            if blob@.len() >= 6 {
                let start = blob@.subrange(0, 4);
                assert(start[0] == blob@[0] && start[1] == blob@[1] && start[2] == blob@[2]
                    && start[3] == blob@[3]);
            }
        }
        return Err(invalid("Bad inner magic"));
    }
    assert(blob@.subrange(0, 4) =~= inner_magic());
    let filter = Filter::from_u8(blob[4]);
    match decode_varint(blob, 5) {
        Err(e) => Err(e),
        Ok((count, o1)) => match decode_varint(blob, o1) {
            Err(e) => Err(e),
            Ok((len, o2)) => match parse_entries(blob, o2, count) {
                Err(e) => Err(e),
                Ok((raw, o3)) => {
                    let entries = sort_by_number(&raw);
                    match parse_ids(blob, o3, len) {
                        Err(e) => Err(e),
                        Ok((seq, _)) => Ok((entries, seq, filter)),
                    }
                },
            },
        },
    }
}

/// Whether the lengths in an axiom fit in memory.
pub open spec fn storable(e: Entry) -> bool {
    match e {
        Entry::Dfa(Rule::Raw(d)) => d.len() <= usize::MAX,
        Entry::Dfa(Rule::Periodic(p, _)) => p.len() <= usize::MAX,
        Entry::Dfa(_) => true,
        Entry::Compound(refs) => refs.len() <= usize::MAX,
    }
}

/// Numbers are read back.
pub proof fn lemma_ids_read(data: Seq<u8>, off: int, ids: Seq<u32>, i: int)
    requires
        0 <= i <= ids.len(),
        holds_at(data, off, ids_from(ids, i)),
    ensures
        read_ids(data, off, (ids.len() - i) as nat) == Ok::<(Seq<u32>, int), Failure>(
            (ids.subrange(i, ids.len() as int), off + ids_from(ids, i).len()),
        ),
    decreases ids.len() - i,
{
    if i < ids.len() {
        let first = varint(ids[i] as nat);
        lemma_holds_parts(data, off, first, ids_from(ids, i + 1));
        lemma_varint_read(data, off, ids[i] as nat);
        lemma_ids_read(data, off + first.len(), ids, i + 1);
        assert(seq![ids[i]] + ids.subrange(i + 1, ids.len() as int) =~= ids.subrange(
            i,
            ids.len() as int,
        ));
    } else {
        assert(ids.subrange(i, ids.len() as int) =~= Seq::empty());
    }
}

proof fn lemma_string_read(data: Seq<u8>, off: int, d: Seq<u8>)
    requires
        d.len() <= usize::MAX,
        holds_at(data, off, varint(d.len())),
        holds_at(data, off + varint(d.len()).len(), d),
    ensures
        read_string(data, off) == Ok::<(Seq<u8>, int), Failure>(
            (d, off + varint(d.len()).len() + d.len()),
        ),
{
    lemma_varint_read(data, off, d.len());
}

proof fn lemma_count_read(data: Seq<u8>, off: int, n: usize)
    requires
        holds_at(data, off, varint(n as nat)),
    ensures
        read_count(data, off) == Ok::<(usize, int), Failure>((n, off + varint(n as nat).len())),
{
    lemma_varint_read(data, off, n as nat);
}

proof fn lemma_raw_read(data: Seq<u8>, off: int, d: Seq<u8>)
    requires
        d.len() <= usize::MAX,
        holds_at(data, off, seq![TC_RAW] + varint(d.len()) + d),
    ensures
        read_entry(data, off) == Ok::<(Entry, int), Failure>(
            (Entry::Dfa(Rule::Raw(d)), off + 1 + varint(d.len()).len() + d.len()),
        ),
{
    lemma_holds_parts(data, off, seq![TC_RAW] + varint(d.len()), d);
    lemma_holds_parts(data, off, seq![TC_RAW], varint(d.len()));
    assert(data.subrange(off, off + 1)[0] == data[off]);
    lemma_string_read(data, off + 1, d);
}

proof fn lemma_compound_read(data: Seq<u8>, off: int, refs: Seq<u32>)
    requires
        refs.len() <= usize::MAX,
        holds_at(data, off, seq![TC_COMPOUND] + varint(refs.len()) + ids_from(refs, 0)),
    ensures
        read_entry(data, off) == Ok::<(Entry, int), Failure>(
            (Entry::Compound(refs), off + 1 + varint(refs.len()).len() + ids_from(refs, 0).len()),
        ),
{
    lemma_holds_parts(data, off, seq![TC_COMPOUND] + varint(refs.len()), ids_from(refs, 0));
    lemma_holds_parts(data, off, seq![TC_COMPOUND], varint(refs.len()));
    assert(data.subrange(off, off + 1)[0] == data[off]);
    lemma_varint_read(data, off + 1, refs.len());
    lemma_ids_read(data, off + 1 + varint(refs.len()).len(), refs, 0);
    assert(refs.subrange(0, refs.len() as int) =~= refs);
}

proof fn lemma_constant_read(data: Seq<u8>, off: int, v: u8, n: usize)
    requires
        holds_at(data, off, seq![TC_CONSTANT, v] + varint(n as nat)),
    ensures
        read_entry(data, off) == Ok::<(Entry, int), Failure>(
            (Entry::Dfa(Rule::Constant(v, n)), off + 2 + varint(n as nat).len()),
        ),
{
    lemma_holds_parts(data, off, seq![TC_CONSTANT, v], varint(n as nat));
    let head = data.subrange(off, off + 2);
    assert(head[0] == data[off] && head[1] == data[off + 1]);
    lemma_count_read(data, off + 2, n);
}

proof fn lemma_three_read(data: Seq<u8>, off: int, tc: u8, a: u8, b: u8, n: usize)
    requires
        tc == TC_ARITHMETIC || tc == TC_ALTERNATING,
        holds_at(data, off, seq![tc, a, b] + varint(n as nat)),
    ensures
        read_entry(data, off) == Ok::<(Entry, int), Failure>(
            (
                Entry::Dfa(
                    if tc == TC_ARITHMETIC {
                        Rule::Arithmetic(a, b, n)
                    } else {
                        Rule::Alternating(a, b, n)
                    },
                ),
                off + 3 + varint(n as nat).len(),
            ),
        ),
{
    lemma_holds_parts(data, off, seq![tc, a, b], varint(n as nat));
    let head = data.subrange(off, off + 3);
    assert(head[0] == data[off] && head[1] == data[off + 1] && head[2] == data[off + 2]);
    lemma_count_read(data, off + 3, n);
}

proof fn lemma_periodic_read(data: Seq<u8>, off: int, p: Seq<u8>, r: usize)
    requires
        p.len() <= usize::MAX,
        holds_at(data, off, seq![TC_PERIODIC] + varint(p.len()) + p + varint(r as nat)),
    ensures
        read_entry(data, off) == Ok::<(Entry, int), Failure>(
            (
                Entry::Dfa(Rule::Periodic(p, r)),
                off + 1 + varint(p.len()).len() + p.len() + varint(r as nat).len(),
            ),
        ),
{
    lemma_holds_parts(data, off, seq![TC_PERIODIC] + varint(p.len()) + p, varint(r as nat));
    lemma_holds_parts(data, off, seq![TC_PERIODIC] + varint(p.len()), p);
    lemma_holds_parts(data, off, seq![TC_PERIODIC], varint(p.len()));
    assert(data.subrange(off, off + 1)[0] == data[off]);
    lemma_string_read(data, off + 1, p);
    lemma_count_read(data, off + 1 + varint(p.len()).len() + p.len(), r);
}

/// An axiom is read back.
proof fn lemma_entry_read(data: Seq<u8>, off: int, e: Entry)
    requires
        storable(e),
        holds_at(data, off, entry_bytes(e)),
    ensures
        read_entry(data, off) == Ok::<(Entry, int), Failure>((e, off + entry_bytes(e).len())),
{
    match e {
        Entry::Dfa(Rule::Raw(d)) => {
            lemma_raw_read(data, off, d);
        },
        Entry::Compound(refs) => {
            lemma_compound_read(data, off, refs);
        },
        Entry::Dfa(Rule::Constant(v, n)) => {
            lemma_constant_read(data, off, v, n);
        },
        Entry::Dfa(Rule::Arithmetic(s, st, n)) => {
            lemma_three_read(data, off, TC_ARITHMETIC, s, st, n);
        },
        Entry::Dfa(Rule::Alternating(a, b, n)) => {
            lemma_three_read(data, off, TC_ALTERNATING, a, b, n);
        },
        Entry::Dfa(Rule::Periodic(p, r)) => {
            lemma_periodic_read(data, off, p, r);
        },
    }
}

/// The axioms from the `k`th on, each with its number.
spec fn numbered_from(entries: Seq<Entry>, k: int) -> Seq<(u32, Entry)> {
    Seq::new((entries.len() - k) as nat, |i: int| ((k + i) as u32, entries[k + i]))
}

proof fn lemma_entries_read(data: Seq<u8>, off: int, entries: Seq<Entry>, k: int)
    requires
        0 <= k <= entries.len() <= 0x1_0000_0000,
        forall|i: int| 0 <= i < entries.len() ==> storable(#[trigger] entries[i]),
        holds_at(data, off, entries_from(entries, k)),
    ensures
        read_entries(data, off, (entries.len() - k) as nat) == Ok::<
            (Seq<(u32, Entry)>, int),
            Failure,
        >((numbered_from(entries, k), off + entries_from(entries, k).len())),
    decreases entries.len() - k,
{
    if k < entries.len() {
        let number = varint(k as nat);
        let body = entry_bytes(entries[k]);
        let rest = entries_from(entries, k + 1);
        assert(entries_from(entries, k) =~= number + (body + rest));
        lemma_holds_parts(data, off, number, body + rest);
        lemma_holds_parts(data, off + number.len(), body, rest);
        lemma_varint_read(data, off, k as nat);
        lemma_entry_read(data, off + number.len(), entries[k]);
        lemma_entries_read(data, off + number.len() + body.len(), entries, k + 1);
        assert(seq![(k as u32, entries[k])] + numbered_from(entries, k + 1) =~= numbered_from(
            entries,
            k,
        ));
    } else {
        assert(numbered_from(entries, k) =~= Seq::empty());
    }
}

proof fn lemma_inner_layout(entries: Seq<Entry>, seq: Seq<u32>, filter: Filter, extra: Seq<u8>)
    ensures
        ({
            let blob = inner_bytes(entries, seq, filter) + extra;
            let o1 = 5 + varint(entries.len()).len() as int;
            let o2 = o1 + varint(seq.len()).len();
            let o3 = o2 + entries_from(entries, 0).len();
            &&& blob.len() >= 5
            &&& blob.subrange(0, 4) == inner_magic()
            &&& blob[4] == filter_code(filter)
            &&& holds_at(blob, 5, varint(entries.len()))
            &&& holds_at(blob, o1, varint(seq.len()))
            &&& holds_at(blob, o2, entries_from(entries, 0))
            &&& holds_at(blob, o3, ids_from(seq, 0))
        }),
{
    let blob = inner_bytes(entries, seq, filter) + extra;
    let count = varint(entries.len());
    let len = varint(seq.len());
    let es = entries_from(entries, 0);
    let ids = ids_from(seq, 0);
    let head = inner_magic() + seq![filter_code(filter)];
    assert(holds_at(blob, 0, blob)) by {
        assert(blob.subrange(0, blob.len() as int) =~= blob);
    }
    lemma_holds_parts(blob, 0, head + count + len + es + ids, extra);
    lemma_holds_parts(blob, 0, head + count + len + es, ids);
    lemma_holds_parts(blob, 0, head + count + len, es);
    lemma_holds_parts(blob, 0, head + count, len);
    lemma_holds_parts(blob, 0, head, count);
    assert(blob.subrange(0, 5) == head);
    assert(blob.subrange(0, 4) =~= head.subrange(0, 4));
    assert(head.subrange(0, 4) =~= inner_magic());
    assert(blob.subrange(0, 5)[4] == blob[4]);
}

proof fn lemma_numbered_sorted(entries: Seq<Entry>)
    requires
        entries.len() <= 0x1_0000_0000,
        entries.len() <= usize::MAX,
    ensures
        by_number(numbered_from(entries, 0)) == entries,
{
    let raw = numbered_from(entries, 0);
    law_ranking_of_descending(number_keys(raw));
    assert(by_number(raw) =~= entries);
}

/// What is written as an inner stream is read back, whatever follows it.
pub proof fn law_inner_round_trip(
    entries: Seq<Entry>,
    seq: Seq<u32>,
    filter: Filter,
    extra: Seq<u8>,
)
    requires
        entries.len() <= 0x1_0000_0000,
        entries.len() <= usize::MAX,
        seq.len() <= usize::MAX,
        forall|i: int| 0 <= i < entries.len() ==> storable(#[trigger] entries[i]),
    ensures
        read_inner(inner_bytes(entries, seq, filter) + extra) == Ok::<
            (Seq<Entry>, Seq<u32>, Filter),
            Failure,
        >((entries, seq, filter)),
{
    let blob = inner_bytes(entries, seq, filter) + extra;
    let o1 = 5 + varint(entries.len()).len() as int;
    let o2 = o1 + varint(seq.len()).len();
    let o3 = o2 + entries_from(entries, 0).len();
    lemma_inner_layout(entries, seq, filter, extra);
    lemma_varint_read(blob, 5, entries.len());
    lemma_varint_read(blob, o1, seq.len());
    lemma_entries_read(blob, o2, entries, 0);
    lemma_ids_read(blob, o3, seq, 0);
    assert(seq.subrange(0, seq.len() as int) =~= seq);
    law_filter_code_round_trip(filter);
    lemma_numbered_sorted(entries);
}

proof fn lemma_ids_flat(ids: Seq<u32>, i: int)
    requires
        0 <= i <= ids.len(),
    ensures
        ids_from(ids, i) == Seq::new(ids.len(), |k: int| varint(ids[k] as nat)).skip(i).flatten(),
    decreases ids.len() - i,
{
    let parts = Seq::new(ids.len(), |k: int| varint(ids[k] as nat));
    if i < ids.len() {
        lemma_ids_flat(ids, i + 1);
        assert(parts.skip(i).drop_first() =~= parts.skip(i + 1));
        assert(parts.skip(i).first() == parts[i]);
    }
}

proof fn lemma_entries_flat(entries: Seq<Entry>, i: int)
    requires
        0 <= i <= entries.len(),
    ensures
        entries_from(entries, i) == Seq::new(
            entries.len(),
            |k: int| varint(k as nat) + entry_bytes(entries[k]),
        ).skip(i).flatten(),
    decreases entries.len() - i,
{
    let parts = Seq::new(entries.len(), |k: int| varint(k as nat) + entry_bytes(entries[k]));
    if i < entries.len() {
        lemma_entries_flat(entries, i + 1);
        assert(parts.skip(i).drop_first() =~= parts.skip(i + 1));
        assert(parts.skip(i).first() == parts[i]);
    }
}

/// How an inner stream is laid out: its mark, the filter, how many axioms and how many
/// members of the sequence there are; then each axiom behind its number, in order, and
/// each member of the sequence. Nothing else is in it.
pub proof fn law_inner_made_of(entries: Seq<Entry>, seq: Seq<u32>, filter: Filter)
    ensures
        inner_bytes(entries, seq, filter) == seq![
            0x41u8,
            0x58,
            0x69,
            0x05,
            match filter {
                Filter::Identity => 0u8,
                Filter::Delta1 => 1,
                Filter::Delta2 => 2,
                Filter::DeltaRgb => 3,
                Filter::DeltaRgba => 4,
            },
        ] + varint(entries.len()) + varint(seq.len()) + Seq::new(
            entries.len(),
            |k: int| varint(k as nat) + entry_bytes(entries[k]),
        ).flatten() + Seq::new(seq.len(), |k: int| varint(seq[k] as nat)).flatten(),
{
    lemma_ids_flat(seq, 0);
    lemma_entries_flat(entries, 0);
    let parts = Seq::new(entries.len(), |k: int| varint(k as nat) + entry_bytes(entries[k]));
    let ids = Seq::new(seq.len(), |k: int| varint(seq[k] as nat));
    assert(parts.skip(0) =~= parts);
    assert(ids.skip(0) =~= ids);
    let head = inner_magic() + seq![filter_code(filter)];
    assert(head =~= seq![0x41u8, 0x58, 0x69, 0x05, filter_code(filter)]);
}

/// How an axiom is laid out: a byte for its kind, and what it holds.
pub proof fn law_entry_made_of(d: Seq<u8>, refs: Seq<u32>, a: u8, b: u8, n: usize)
    ensures
        entry_bytes(Entry::Dfa(Rule::Raw(d))) == seq![1u8] + varint(d.len()) + d,
        entry_bytes(Entry::Compound(refs)) == seq![2u8] + varint(refs.len()) + Seq::new(
            refs.len(),
            |k: int| varint(refs[k] as nat),
        ).flatten(),
        entry_bytes(Entry::Dfa(Rule::Constant(a, n))) == seq![3u8, a] + varint(n as nat),
        entry_bytes(Entry::Dfa(Rule::Arithmetic(a, b, n))) == seq![4u8, a, b] + varint(n as nat),
        entry_bytes(Entry::Dfa(Rule::Alternating(a, b, n))) == seq![5u8, a, b] + varint(n as nat),
        entry_bytes(Entry::Dfa(Rule::Periodic(d, n))) == seq![6u8] + varint(d.len()) + d + varint(
            n as nat,
        ),
{
    lemma_ids_flat(refs, 0);
    let ids = Seq::new(refs.len(), |k: int| varint(refs[k] as nat));
    assert(ids.skip(0) =~= ids);
}

/// What a rule is taken to cost is what it takes in a stream behind the byte for its
/// kind; of raw bytes their length is not counted.
pub proof fn law_rule_cost(rule: Rule)
    ensures
        entry_bytes(Entry::Dfa(rule)).len() == 1 + rule_cost(rule) + (match rule {
            Rule::Raw(d) => varint(d.len()).len(),
            _ => 0nat,
        }),
{
}

/// A stream that does not begin with its mark is refused, and so is an axiom of an
/// unknown kind.
pub proof fn law_inner_refused(blob: Seq<u8>, off: int)
    ensures
        blob.len() < 6 || blob.take(4) != seq![0x41u8, 0x58, 0x69, 0x05] ==> read_inner(blob)
            == Err::<(Seq<Entry>, Seq<u32>, Filter), Failure>(
            Failure::InvalidData("Bad inner magic"@),
        ),
        0 <= off < blob.len() && (blob[off] == 0 || blob[off] > 6) ==> read_entry(blob, off)
            == Err::<(Entry, int), Failure>(
            Failure::InvalidData("Unknown type "@ + decimal(blob[off] as nat)),
        ),
        off >= blob.len() ==> read_entry(blob, off) == Err::<(Entry, int), Failure>(
            Failure::InvalidData("Truncated axiom"@),
        ),
{
    assert(inner_magic() =~= seq![0x41u8, 0x58, 0x69, 0x05]);
}

/// The axioms of a stream are taken in the order of their numbers, those of the same
/// number in the order in which they stand.
pub proof fn law_entries_by_number(raw: Seq<(u32, Entry)>)
    requires
        raw.len() <= usize::MAX,
    ensures
        by_number(raw).len() == raw.len(),
        exists|from: Seq<int>|
            #![trigger from.len()]
            {
                &&& from.len() == raw.len()
                &&& from.no_duplicates()
                &&& forall|k: int|
                    0 <= k < from.len() ==> 0 <= #[trigger] from[k] < raw.len() && by_number(raw)[k]
                        == raw[from[k]].1
                &&& forall|j: int, k: int|
                    0 <= j < k < from.len() ==> {
                        let a = #[trigger] from[j];
                        let b = #[trigger] from[k];
                        raw[a].0 < raw[b].0 || (raw[a].0 == raw[b].0 && a < b)
                    }
            },
{
    let keys = number_keys(raw);
    let order = ranking(keys);
    law_ranking_descends(keys);
    let from = Seq::new(raw.len(), |k: int| order[k] as int);
    assert forall|k: int| 0 <= k < from.len() implies 0 <= #[trigger] from[k] < raw.len()
        && by_number(raw)[k] == raw[from[k]].1 by {
        assert(order[k] < keys.len());
    }
    assert forall|j: int, k: int| 0 <= j < k < from.len() implies {
        let a = #[trigger] from[j];
        let b = #[trigger] from[k];
        raw[a].0 < raw[b].0 || (raw[a].0 == raw[b].0 && a < b)
    } by {
        assert(order[j] < keys.len() && order[k] < keys.len());
        let a = order[j] as int;
        let b = order[k] as int;
        assert(keys[a] > keys[b] || (keys[a] == keys[b] && a < b));
    }
    assert(from.no_duplicates());
    assert(from.len() == raw.len());
}

} // verus!
