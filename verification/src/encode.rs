//! Encoding bytes as a sequence of axioms.

use vstd::prelude::*;

use crate::dfa::DfaKind;
use crate::dfa::Rule;
use crate::dfa::generated;
use crate::library::AxiomLib;
use crate::library::Entry;
use crate::library::Library;
use crate::library::distinct;
use crate::library::extends;
use crate::library::find;
use crate::library::find_from;
use crate::library::ids_below;
use crate::library::joined;
use crate::library::law_register;
use crate::library::lemma_extends_at;
use crate::library::lemma_extends_self;
use crate::library::lemma_extends_trans;
use crate::library::lemma_find_from;
use crate::library::lemma_joined_concat;
use crate::library::lemma_joined_one;
use crate::library::lemma_registered_extends;
use crate::library::lemma_truncated;
use crate::library::rule_added;
use crate::library::sound;
use crate::patterns::MAX_PAT_LEN;
use crate::patterns::pattern_limit;
use crate::progress::accepts;
use crate::progress::point_between;
use crate::progress::tell;
use crate::progress::told;

verus! {

/// The length of the longest axiom of at least two and at most `len` bytes that
/// stands for the bytes at `i`; zero if there is none.
pub open spec fn longest_match(bytes: Seq<Seq<u8>>, data: Seq<u8>, i: int, len: int) -> int
    decreases len,
{
    if len < 2 {
        0
    } else if find(bytes, data.subrange(i, i + len)) is Some {
        len
    } else {
        longest_match(bytes, data, i, len - 1)
    }
}

/// The library and the sequence after encoding `data` from `i` on: at each position
/// the longest axiom that matches, or else an axiom for the single byte.
pub open spec fn encoded(lib: Library, data: Seq<u8>, i: int) -> (Library, Seq<u32>)
    decreases data.len() - i,
{
    if i >= data.len() {
        (lib, Seq::empty())
    } else {
        let len = longest_match(lib.bytes, data, i, pattern_limit(data.len() - i));
        if 2 <= len <= data.len() - i {
            let id = find(lib.bytes, data.subrange(i, i + len))->0 as u32;
            let (after, rest) = encoded(lib, data, i + len);
            (after, seq![id] + rest)
        } else {
            let (next, id) = rule_added(lib, Rule::Raw(seq![data[i]]));
            let (after, rest) = encoded(next, data, i + 1);
            (after, seq![id] + rest)
        }
    }
}

/// Whether `b` stands at position `i` of `data`.
fn stands_at(data: &[u8], i: usize, b: &[u8]) -> (yes: bool)
    requires
        i + b@.len() <= data@.len(),
    ensures
        yes == (data@.subrange(i as int, i + b@.len()) == b@),
{
    let total: usize = data.len();
    let ghost w = data@.subrange(i as int, i + b@.len());
    let mut k: usize = 0;
    while k < b.len()
        invariant
            total == data@.len(),
            k <= b@.len(),
            i + b@.len() <= total,
            w == data@.subrange(i as int, i + b@.len()),
            forall|j: int| 0 <= j < k ==> w[j] == b@[j],
        decreases b@.len() - k,
    {
        if data[i + k] != b[k] {
            assert(w[k as int] != b@[k as int]);
            return false;
        }
        k += 1;
    }
    assert(w =~= b@);
    true
}

/// An axiom that is found at a position, and how long it is.
struct Found {
    id: usize,
    len: usize,
}

/// Whether `f` is the first axiom among the first `n` of greatest length, of
/// those that match at `i` and are two to `limit` bytes long.
spec fn best_so_far(
    bytes: Seq<Seq<u8>>,
    data: Seq<u8>,
    i: int,
    limit: int,
    n: int,
    f: Found,
) -> bool {
    &&& f.len == 0 || {
        &&& 2 <= f.len <= limit
        &&& f.id < n
        &&& bytes[f.id as int] == data.subrange(i, i + f.len)
        &&& forall|j: int| 0 <= j < f.id ==> bytes[j] != data.subrange(i, i + f.len)
    }
    &&& forall|j: int|
        0 <= j < n && 2 <= (#[trigger] bytes[j]).len() <= limit && bytes[j] == data.subrange(
            i,
            i + bytes[j].len(),
        ) ==> bytes[j].len() <= f.len
}

proof fn lemma_first_found(bytes: Seq<Seq<u8>>, b: Seq<u8>, id: int, k: int)
    requires
        0 <= k <= id < bytes.len(),
        bytes[id] == b,
        forall|j: int| k <= j < id ==> bytes[j] != b,
    ensures
        find_from(bytes, b, k) == Some(id),
    decreases id - k,
{
    if k < id {
        lemma_first_found(bytes, b, id, k + 1);
    }
}

proof fn lemma_longest(bytes: Seq<Seq<u8>>, data: Seq<u8>, i: int, limit: int, len: int, f: Found)
    requires
        0 <= i,
        i + limit <= data.len(),
        best_so_far(bytes, data, i, limit, bytes.len() as int, f),
        f.len <= len <= limit,
    ensures
        longest_match(bytes, data, i, len) == f.len,
        f.len >= 2 ==> find(bytes, data.subrange(i, i + f.len)) == Some(f.id as int),
    decreases len,
{
    if f.len >= 2 {
        lemma_first_found(bytes, data.subrange(i, i + f.len), f.id as int, 0);
    }
    if len >= 2 && len > f.len {
        let w = data.subrange(i, i + len);
        lemma_find_from(bytes, w, 0);
        if find(bytes, w) is Some {
            let j = find(bytes, w)->0;
            assert(bytes[j].len() == len);
        }
        lemma_longest(bytes, data, i, limit, len - 1, f);
    }
}

/// The longest axiom that matches at `i`.
fn find_longest(lib: &AxiomLib, data: &[u8], i: usize) -> (f: Found)
    requires
        lib.wf(),
        i < data@.len(),
    ensures
        f.len == longest_match(lib@.bytes, data@, i as int, pattern_limit(data@.len() - i)),
        f.len == 0 || (2 <= f.len <= data@.len() - i && f.id < lib@.bytes.len() && find(
            lib@.bytes,
            data@.subrange(i as int, i + f.len),
        ) == Some(f.id as int)),
{
    let total: usize = data.len();
    let limit: usize = if total - i < MAX_PAT_LEN {
        total - i
    } else {
        MAX_PAT_LEN
    };
    let mut f = Found { id: 0, len: 0 };
    let n: usize = lib.len();
    let mut k: usize = 0;
    while k < n
        invariant
            k <= n,
            lib.wf(),
            n == lib@.bytes.len(),
            total == data@.len(),
            i + limit <= total,
            best_so_far(lib@.bytes, data@, i as int, limit as int, k as int, f),
        decreases n - k,
    {
        let b = lib.bytes_of(k);
        let ghost before = f;
        if b.len() >= 2 && b.len() <= limit && b.len() > f.len && stands_at(data, i, b) {
            assert forall|j: int| 0 <= j < k implies lib@.bytes[j] != data@.subrange(
                i as int,
                i + b@.len(),
            ) by {
                if lib@.bytes[j] == data@.subrange(i as int, i + b@.len()) {
                    assert(lib@.bytes[j].len() == b@.len());
                }
            }
            f = Found { id: k, len: b.len() };
        }
        assert forall|j: int|
            0 <= j < k + 1 && 2 <= (#[trigger] lib@.bytes[j]).len() <= limit && lib@.bytes[j]
                == data@.subrange(i as int, i + lib@.bytes[j].len()) implies lib@.bytes[j].len()
            <= f.len by {
            if j < k {
                assert(lib@.bytes[j].len() <= before.len);
            }
        }
        k += 1;
    }
    proof {
        lemma_longest(lib@.bytes, data@, i as int, limit as int, limit as int, f);
    }
    f
}

/// Whether, when the bytes from `i` on are encoded, an axiom begins at `at`.
pub open spec fn begins(lib: Library, data: Seq<u8>, i: int, at: int) -> bool
    decreases data.len() - i,
{
    if i >= data.len() {
        false
    } else {
        let len = longest_match(lib.bytes, data, i, pattern_limit(data.len() - i));
        at == i || if 2 <= len <= data.len() - i {
            begins(lib, data, i + len, at)
        } else {
            begins(rule_added(lib, Rule::Raw(seq![data[i]])).0, data, i + 1, at)
        }
    }
}

/// Of how many bytes the positions at which the encoding of `n` bytes reports are
/// multiples.
pub open spec fn report_step(n: int) -> int {
    if n / 20 > 1 {
        n / 20
    } else {
        1
    }
}

/// The point at which `i` of `n` bytes are encoded.
pub open spec fn encode_point(i: int, n: int) -> u32 {
    (500 + i * 250 / n) as u32
}

/// That the points were told, between `from` and `to`, of the multiples of the step at
/// which an axiom begins.
pub open spec fn encode_told<F: Fn(u32)>(
    report: &F,
    lib: Library,
    data: Seq<u8>,
    from: u32,
    to: u32,
) -> bool {
    forall|at: int|
        #[trigger] begins(lib, data, 0, at) && at % report_step(data.len() as int) == 0 ==> told(
            report,
            point_between(from, to, encode_point(at, data.len() as int)) as u32,
        )
}

/// Encodes `data` as a sequence of axioms. Reports from 50% to 75% of the way from
/// `p_start` to `p_end`.
pub fn greedy_encode<F: Fn(u32)>(
    lib: &mut AxiomLib,
    data: &[u8],
    report: &F,
    p_start: u32,
    p_end: u32,
) -> (seq: Vec<u32>)
    requires
        old(lib).wf(),
        accepts(*report, p_start, p_end),
        p_start <= p_end <= 1000,
    ensures
        final(lib).wf(),
        (final(lib)@, seq@) == encoded(old(lib)@, data@, 0),
        ids_below(seq@, final(lib)@.entries.len() as int),
        encode_told(report, old(lib)@, data@, p_start, p_end),
{
    let n: usize = data.len();
    let mut seq: Vec<u32> = Vec::new();
    let mut i: usize = 0;
    let ghost start = lib@;
    let step: usize = if n / 20 > 1 {
        n / 20
    } else {
        1
    };
    assert(seq@ + encoded(start, data@, 0).1 =~= encoded(start, data@, 0).1);
    while i < n
        invariant
            i <= n,
            n == data@.len(),
            step >= 1,
            step == report_step(n as int),
            forall|at: int|
                #[trigger] begins(start, data@, 0, at) && at % step as int == 0 ==> told(
                    report,
                    point_between(p_start, p_end, encode_point(at, n as int)) as u32,
                ) || begins(lib@, data@, i as int, at),
            lib.wf(),
            accepts(*report, p_start, p_end),
            p_start <= p_end <= 1000,
            ids_below(seq@, lib@.entries.len() as int),
            encoded(start, data@, 0).0 == encoded(lib@, data@, i as int).0,
            encoded(start, data@, 0).1 == seq@ + encoded(lib@, data@, i as int).1,
        decreases n - i,
    {
        if i % step == 0 {
            let part: u32 = (500 + (i as u128) * 250 / (n as u128)) as u32;
            proof {
                assert((i as int) * 250 / (n as int) <= 250) by (nonlinear_arith)
                    requires
                        0 <= i <= n,
                        n >= 1,
                ;
                assert(part == encode_point(i as int, n as int));
            }
            tell(report, p_start, p_end, part);
        }
        let ghost now = lib@;
        let ghost before = seq@;
        let ghost rest = encoded(now, data@, i as int).1;
        let f = find_longest(lib, data, i);
        if f.len >= 2 {
            proof {
                lemma_truncated(f.id as nat);
            }
            seq.push(f.id as u32);
            assert(before + rest =~= seq@ + encoded(lib@, data@, i + f.len).1);
            i += f.len;
        } else {
            let mut single: Vec<u8> = Vec::new();
            single.push(data[i]);
            assert(single@ =~= seq![data@[i as int]]);
            let id: u32 = lib.add_dfa(DfaKind::Raw(single));
            assert forall|k: int| 0 <= k < before.len() implies #[trigger] before[k]
                < lib@.entries.len() by {
                assert(before[k] < now.entries.len());
            }
            seq.push(id);
            assert(before + rest =~= seq@ + encoded(lib@, data@, i + 1).1);
            i += 1;
        }
    }
    assert(seq@ + encoded(lib@, data@, n as int).1 =~= seq@);
    seq
}

/// What the search for the longest match finds.
proof fn lemma_longest_match(bytes: Seq<Seq<u8>>, data: Seq<u8>, i: int, len: int)
    ensures
        ({
            let found = longest_match(bytes, data, i, len);
            found == 0 || (2 <= found <= len && find(bytes, data.subrange(i, i + found)) is Some)
        }),
    decreases len,
{
    if len >= 2 {
        lemma_longest_match(bytes, data, i, len - 1);
    }
}

/// Encoding adds axioms and changes none.
pub proof fn lemma_encoded_extends(lib: Library, data: Seq<u8>, i: int)
    requires
        lib.entries.len() == lib.bytes.len(),
    ensures
        extends(encoded(lib, data, i).0, lib),
        encoded(lib, data, i).0.entries.len() <= lib.entries.len() + (if i < data.len() {
            data.len() - i
        } else {
            0
        }),
        encoded(lib, data, i).0.entries.len() == encoded(lib, data, i).0.bytes.len(),
        encoded(lib, data, i).1.len() <= (if i < data.len() {
            data.len() - i
        } else {
            0
        }),
    decreases data.len() - i,
{
    if i >= data.len() {
        lemma_extends_self(lib);
    } else {
        let len = longest_match(lib.bytes, data, i, pattern_limit(data.len() - i));
        if 2 <= len <= data.len() - i {
            lemma_encoded_extends(lib, data, i + len);
        } else {
            let rule = Rule::Raw(seq![data[i]]);
            let (next, id) = rule_added(lib, rule);
            lemma_registered_extends(lib, Entry::Dfa(rule), generated(rule));
            lemma_encoded_extends(next, data, i + 1);
            lemma_extends_trans(encoded(next, data, i + 1).0, next, lib);
        }
    }
}

/// Encoding loses nothing: a sound library without duplicates stays so, and the
/// axioms of the sequence stand for the data, one after another.
pub proof fn law_encoded(lib: Library, data: Seq<u8>, i: int)
    requires
        sound(lib),
        distinct(lib),
        0 <= i <= data.len(),
        encoded(lib, data, i).0.entries.len() <= 0x1_0000_0000,
    ensures
        ({
            let (after, seq) = encoded(lib, data, i);
            &&& sound(after)
            &&& distinct(after)
            &&& ids_below(seq, after.entries.len() as int)
            &&& joined(after.bytes, seq) == data.subrange(i, data.len() as int)
        }),
    decreases data.len() - i,
{
    let (after, seq) = encoded(lib, data, i);
    lemma_encoded_extends(lib, data, i);
    if i >= data.len() {
        assert(joined(after.bytes, seq) =~= data.subrange(i, data.len() as int));
    } else {
        let len = longest_match(lib.bytes, data, i, pattern_limit(data.len() - i));
        lemma_longest_match(lib.bytes, data, i, pattern_limit(data.len() - i));
        if 2 <= len <= data.len() - i {
            let w = data.subrange(i, i + len);
            lemma_find_from(lib.bytes, w, 0);
            let k = find(lib.bytes, w)->0;
            let rest = encoded(lib, data, i + len).1;
            law_encoded(lib, data, i + len);
            lemma_extends_at(after, lib, k);
            lemma_encoded_step(after, k as u32, rest, data, i, len);
        } else {
            let w = seq![data[i]];
            let rule = Rule::Raw(w);
            let (next, id) = rule_added(lib, rule);
            let rest = encoded(next, data, i + 1).1;
            lemma_registered_extends(lib, Entry::Dfa(rule), generated(rule));
            lemma_encoded_extends(next, data, i + 1);
            law_register(lib, Entry::Dfa(rule), w);
            law_encoded(next, data, i + 1);
            lemma_extends_at(after, next, id as int);
            assert(w =~= data.subrange(i, i + 1));
            lemma_encoded_step(after, id, rest, data, i, 1);
        }
    }
}

proof fn lemma_encoded_step(
    after: Library,
    id: u32,
    rest: Seq<u32>,
    data: Seq<u8>,
    i: int,
    len: int,
)
    requires
        0 <= i <= i + len <= data.len(),
        id < after.entries.len(),
        after.bytes[id as int] == data.subrange(i, i + len),
        ids_below(rest, after.entries.len() as int),
        joined(after.bytes, rest) == data.subrange(i + len, data.len() as int),
    ensures
        ids_below(seq![id] + rest, after.entries.len() as int),
        joined(after.bytes, seq![id] + rest) == data.subrange(i, data.len() as int),
{
    lemma_joined_concat(after.bytes, seq![id], rest);
    lemma_joined_one(after.bytes, id);
    assert(data.subrange(i, i + len) + data.subrange(i + len, data.len() as int) =~= data.subrange(
        i,
        data.len() as int,
    ));
    assert forall|k: int| 0 <= k < (seq![id] + rest).len() implies #[trigger] (seq![id] + rest)[k]
        < after.entries.len() by {
        if k > 0 {
            assert(rest[k - 1] < after.entries.len());
        }
    }
}

proof fn lemma_no_longer_match(bytes: Seq<Seq<u8>>, data: Seq<u8>, i: int, len: int, j: int)
    requires
        2 <= j <= len,
        longest_match(bytes, data, i, len) < j,
    ensures
        !bytes.contains(data.subrange(i, i + j)),
    decreases len,
{
    if j < len {
        lemma_no_longer_match(bytes, data, i, len - 1, j);
    } else {
        lemma_find_from(bytes, data.subrange(i, i + j), 0);
    }
}

/// Where the axioms of what is encoded from `i` on begin.
#[verifier::rlimit(40)]
proof fn lemma_encoded_cuts(lib: Library, data: Seq<u8>, i: int) -> (cuts: Seq<int>)
    requires
        sound(lib),
        distinct(lib),
        0 <= i <= data.len(),
        encoded(lib, data, i).0.entries.len() <= 0x1_0000_0000,
    ensures
        ({
            let (after, seq) = encoded(lib, data, i);
            &&& cuts.len() == seq.len() + 1
            &&& cuts[0] == i
            &&& cuts.last() == data.len()
            &&& forall|at: int| #[trigger]
                begins(lib, data, i, at) <==> cuts.drop_last().contains(at)
            &&& forall|k: int|
                0 <= k < seq.len() ==> {
                    let c = #[trigger] cuts[k];
                    let next = cuts[k + 1];
                    &&& 0 <= c < next <= data.len()
                    &&& seq[k] < after.bytes.len()
                    &&& after.bytes[seq[k] as int] == data.subrange(c, next)
                    &&& forall|end: int|
                        next < end <= data.len() && 2 <= end - c <= 64 ==> !lib.bytes.contains(
                            #[trigger] data.subrange(c, end),
                        )
                }
        }),
    decreases data.len() - i,
{
    let (after, seq) = encoded(lib, data, i);
    lemma_encoded_extends(lib, data, i);
    if i >= data.len() {
        assert(seq![i].drop_last() =~= Seq::empty());
        seq![i]
    } else {
        let limit = pattern_limit(data.len() - i);
        let len = longest_match(lib.bytes, data, i, limit);
        lemma_longest_match(lib.bytes, data, i, limit);
        let found = 2 <= len <= data.len() - i;
        let width = if found {
            len
        } else {
            1
        };
        let rule = Rule::Raw(seq![data[i]]);
        let next = if found {
            lib
        } else {
            rule_added(lib, rule).0
        };
        let id = seq[0];
        if found {
            let w = data.subrange(i, i + len);
            lemma_find_from(lib.bytes, w, 0);
            lemma_extends_at(after, lib, find(lib.bytes, w)->0);
        } else {
            lemma_registered_extends(lib, Entry::Dfa(rule), generated(rule));
            lemma_encoded_extends(next, data, i + 1);
            law_register(lib, Entry::Dfa(rule), generated(rule));
            lemma_extends_at(after, next, id as int);
            assert(seq![data[i]] =~= data.subrange(i, i + 1));
        }
        let rest = lemma_encoded_cuts(next, data, i + width);
        let cuts = seq![i] + rest;
        let tail = encoded(next, data, i + width).1;
        assert(seq =~= seq![id] + tail);
        assert(cuts.last() == rest.last());
        assert forall|at: int| #[trigger] begins(lib, data, i, at) <==> cuts.drop_last().contains(
            at,
        ) by {
            let short = rest.drop_last();
            assert(cuts.drop_last() =~= seq![i] + short);
            assert(begins(lib, data, i, at) <==> at == i || begins(next, data, i + width, at));
            if at == i {
                assert(cuts.drop_last()[0] == at);
            }
            if short.contains(at) {
                let k = choose|k: int| 0 <= k < short.len() && short[k] == at;
                assert(cuts.drop_last()[k + 1] == at);
            }
            if cuts.drop_last().contains(at) && at != i {
                let k = choose|k: int| 0 <= k < cuts.drop_last().len() && cuts.drop_last()[k] == at;
                assert(short[k - 1] == at);
            }
        }
        assert forall|k: int| 0 <= k < seq.len() implies ({
            let c = #[trigger] cuts[k];
            let to = cuts[k + 1];
            &&& 0 <= c < to <= data.len()
            &&& seq[k] < after.bytes.len()
            &&& after.bytes[seq[k] as int] == data.subrange(c, to)
            &&& forall|end: int|
                to < end <= data.len() && 2 <= end - c <= 64 ==> !lib.bytes.contains(
                    #[trigger] data.subrange(c, end),
                )
        }) by {
            let c = cuts[k];
            let to = cuts[k + 1];
            if k > 0 {
                assert(c == rest[k - 1] && to == rest[k]);
                assert(seq[k] == tail[k - 1]);
                assert forall|end: int|
                    to < end <= data.len() && 2 <= end - c <= 64 implies !lib.bytes.contains(
                    #[trigger] data.subrange(c, end),
                ) by {
                    let w = data.subrange(c, end);
                    assert(!next.bytes.contains(w));
                    if lib.bytes.contains(w) {
                        let m = choose|m: int| 0 <= m < lib.bytes.len() && lib.bytes[m] == w;
                        if !found {
                            lemma_extends_at(next, lib, m);
                        }
                        assert(next.bytes[m] == w);
                    }
                }
            } else {
                assert(to == rest[0]);
                assert forall|end: int|
                    to < end <= data.len() && 2 <= end - c <= 64 implies !lib.bytes.contains(
                    #[trigger] data.subrange(c, end),
                ) by {
                    lemma_no_longer_match(lib.bytes, data, i, limit, end - c);
                }
            }
        }
        cuts
    }
}

/// Encoding is greedy: it cuts the data into pieces, from left to right, each of which
/// an axiom stands for; no axiom of the library, up to 64 bytes long, stands for a
/// longer piece at the same place.
pub proof fn law_encoded_longest(lib: Library, data: Seq<u8>)
    requires
        sound(lib),
        distinct(lib),
        encoded(lib, data, 0).0.entries.len() <= 0x1_0000_0000,
    ensures
        ({
            let (after, seq) = encoded(lib, data, 0);
            exists|cuts: Seq<int>|
                #![trigger cuts.len()]
                {
                    &&& cuts.len() == seq.len() + 1
                    &&& cuts[0] == 0
                    &&& cuts.last() == data.len()
                    &&& forall|at: int| #[trigger]
                        begins(lib, data, 0, at) <==> cuts.drop_last().contains(at)
                    &&& forall|k: int|
                        0 <= k < seq.len() ==> {
                            let c = #[trigger] cuts[k];
                            let next = cuts[k + 1];
                            &&& 0 <= c < next <= data.len()
                            &&& seq[k] < after.bytes.len()
                            &&& after.bytes[seq[k] as int] == data.subrange(c, next)
                            &&& forall|end: int|
                                next < end <= data.len() && 2 <= end - c <= 64
                                    ==> !lib.bytes.contains(#[trigger] data.subrange(c, end))
                        }
                }
        }),
{
    let cuts = lemma_encoded_cuts(lib, data, 0);
    assert(cuts.len() == encoded(lib, data, 0).1.len() + 1);
}

/// Encoding changes no axiom, and adds none but single bytes.
pub proof fn law_encoded_adds_bytes(lib: Library, data: Seq<u8>, i: int)
    requires
        lib.entries.len() == lib.bytes.len(),
    ensures
        extends(encoded(lib, data, i).0, lib),
        forall|k: int|
            lib.entries.len() <= k < encoded(lib, data, i).0.entries.len()
                ==> (#[trigger] encoded(lib, data, i).0.entries[k] matches Entry::Dfa(Rule::Raw(d))
                && d.len() == 1),
    decreases data.len() - i,
{
    lemma_encoded_extends(lib, data, i);
    if i < data.len() {
        let len = longest_match(lib.bytes, data, i, pattern_limit(data.len() - i));
        if 2 <= len <= data.len() - i {
            law_encoded_adds_bytes(lib, data, i + len);
        } else {
            let rule = Rule::Raw(seq![data[i]]);
            let next = rule_added(lib, rule).0;
            let after = encoded(lib, data, i).0;
            lemma_registered_extends(lib, Entry::Dfa(rule), generated(rule));
            lemma_encoded_extends(next, data, i + 1);
            law_encoded_adds_bytes(next, data, i + 1);
            assert forall|k: int| lib.entries.len() <= k < after.entries.len() implies (
            #[trigger] after.entries[k] matches Entry::Dfa(Rule::Raw(d)) && d.len() == 1) by {
                if k < next.entries.len() {
                    assert(after.entries.subrange(0, next.entries.len() as int)[k]
                        == after.entries[k]);
                    assert(next.entries[k] == Entry::Dfa(rule));
                }
            }
        }
    }
}

/// How far the encoding has come is told in proportion to the bytes: from half of the
/// way on, over a quarter of it; at about twenty places in longer data.
pub proof fn law_encode_points(i: int, n: int)
    requires
        0 <= i <= n,
        n >= 1,
    ensures
        500 <= encode_point(i, n) <= 750,
        (encode_point(i, n) - 500) * n <= 250 * i < (encode_point(i, n) - 500) * n + n,
        report_step(n) >= 1,
        n >= 40 ==> 20 * report_step(n) <= n < 20 * report_step(n) + 20,
        n < 40 ==> report_step(n) == 1,
{
    let q = i * 250 / n;
    assert(0 <= q <= 250 && q * n <= 250 * i < q * n + n) by (nonlinear_arith)
        requires
            0 <= i <= n,
            n >= 1,
            q == i * 250 / n,
    ;
}

} // verus!
