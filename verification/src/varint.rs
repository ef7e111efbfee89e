//! Unsigned integers of variable length (LEB128): seven bits in a byte, the
//! least significant first, the high bit set in every byte but the last.

use vstd::prelude::*;

use crate::bytes::holds_at;
use crate::error::AxmzipError;
use crate::error::Failure;
use crate::error::invalid;

verus! {

/// The bytes that stand for `n`.
pub open spec fn varint(n: nat) -> Seq<u8>
    decreases n,
{
    if n < 128 {
        seq![n as u8]
    } else {
        seq![(n % 128 + 128) as u8] + varint(n / 128)
    }
}

/// The number whose base-128 digits are the low seven bits of `bytes`, the
/// least significant first.
pub open spec fn base128(bytes: Seq<u8>) -> nat
    decreases bytes.len(),
{
    if bytes.len() == 0 {
        0
    } else {
        (bytes[0] % 128) as nat + 128 * base128(bytes.drop_first())
    }
}

/// How many bytes of `data` from `off` on have the high bit set, up to the first
/// that has not.
pub open spec fn continued(data: Seq<u8>, off: int) -> nat
    decreases data.len() - off,
{
    if 0 <= off < data.len() && data[off] >= 128 {
        1 + continued(data, off + 1)
    } else {
        0
    }
}

/// What the varint at `off` holds, and where it ends. Ten bytes are the longest
/// that is read; what exceeds 64 bits is lost.
pub open spec fn read_varint(data: Seq<u8>, off: int) -> Result<(u64, int), Failure> {
    let k = continued(data, off) as int;
    if k >= 10 {
        Err(Failure::InvalidData("Varint too large"@))
    } else if off + k >= data.len() {
        Err(Failure::InvalidData("Unexpected end of varint"@))
    } else {
        Ok(((base128(data.subrange(off, off + k + 1)) % 0x1_0000_0000_0000_0000) as u64, off + k + 1))
    }
}

spec fn pow128(k: nat) -> nat
    decreases k,
{
    if k == 0 {
        1
    } else {
        128 * pow128((k - 1) as nat)
    }
}

proof fn lemma_base128_push(bytes: Seq<u8>, b: u8)
    ensures
        base128(bytes.push(b)) == base128(bytes) + (b % 128) * pow128(bytes.len()),
    decreases bytes.len(),
{
    let all = bytes.push(b);
    if bytes.len() == 0 {
        assert(all.drop_first() =~= Seq::<u8>::empty());
        assert(base128(all.drop_first()) == 0);
        assert((b % 128) * pow128(0) == b % 128) by {
            assert(pow128(0) == 1);
        }
    } else {
        let rest = bytes.drop_first();
        assert(all.drop_first() =~= rest.push(b));
        lemma_base128_push(rest, b);
        let p = pow128(rest.len()) as int;
        let d = (b % 128) as int;
        assert(128 * (base128(rest) + d * p) == 128 * base128(rest) + d * (128 * p)) by (nonlinear_arith);
        assert(pow128(bytes.len()) == 128 * p);
        assert(all[0] == bytes[0]);
    }
}

proof fn lemma_pow128_values()
    ensures
        pow128(0) == 1,
        pow128(9) == 0x8000_0000_0000_0000,
        pow128(10) == 0x40_0000_0000_0000_0000,
{
    reveal_with_fuel(pow128, 11);
}

proof fn lemma_pow128_bound(k: nat)
    requires
        k <= 9,
    ensures
        1 <= pow128(k) <= 0x8000_0000_0000_0000,
        k < 9 ==> 128 * pow128(k) <= 0x8000_0000_0000_0000,
{
    reveal_with_fuel(pow128, 11);
}

/// Encodes `n`.
pub fn encode_varint(n: u64) -> (out: Vec<u8>)
    ensures
        out@ == varint(n as nat),
{
    let mut rest: u64 = n;
    let mut out: Vec<u8> = Vec::new();
    while rest >= 0x80
        invariant
            out@ + varint(rest as nat) == varint(n as nat),
        decreases rest,
    {
        let low: u8 = (rest % 0x80) as u8;
        let ghost before = out@;
        out.push(low + 0x80);
        assert(before + varint(rest as nat) =~= out@ + varint((rest / 0x80) as nat));
        rest = rest / 0x80;
    }
    let ghost before = out@;
    out.push(rest as u8);
    assert(out@ =~= before + varint(rest as nat));
    out
}

/// Reads the varint at `offset`: its value, and the offset behind it.
pub fn decode_varint(data: &[u8], offset: usize) -> (r: Result<(u64, usize), AxmzipError>)
    ensures
        match r {
            Ok((n, end)) => read_varint(data@, offset as int) == Ok::<(u64, int), Failure>((n, end as int)),
            Err(e) => read_varint(data@, offset as int) == Err::<(u64, int), Failure>(e@),
        },
        r matches Ok((n, end)) ==> offset < end <= data@.len(),
{
    let mut result: u64 = 0;
    let mut scale: u64 = 1;
    let mut count: usize = 0;
    let mut off: usize = offset;
    if offset >= data.len() {
        return Err(invalid("Unexpected end of varint"));
    }
    proof {
        lemma_pow128_values();
        assert(data@.subrange(offset as int, offset as int) =~= Seq::<u8>::empty());
    }
    loop
        invariant
            count <= 9,
            off == offset + count,
            off <= data@.len(),
            scale == pow128(count as nat),
            result == base128(data@.subrange(offset as int, off as int)),
            result < scale,
            continued(data@, offset as int) == count + continued(data@, off as int),
        decreases 10 - count,
    {
        if off >= data.len() {
            return Err(invalid("Unexpected end of varint"));
        }
        let b: u8 = data[off];
        let digit: u64 = (b % 0x80) as u64;
        proof {
            lemma_base128_push(data@.subrange(offset as int, off as int), b);
            assert(data@.subrange(offset as int, off as int).push(b)
                =~= data@.subrange(offset as int, off + 1));
            lemma_pow128_values();
            lemma_pow128_bound(count as nat);
        }
        if count == 9 {
            // The tenth byte has room for one bit.
            if b >= 0x80 {
                return Err(invalid("Varint too large"));
            }
            let total: u64 = result + (digit % 2) * 0x8000_0000_0000_0000;
            assert((result + digit * 0x8000_0000_0000_0000) % 0x1_0000_0000_0000_0000 == total);
            return Ok((total, off + 1));
        }
        assert(digit * scale <= 127 * scale) by (nonlinear_arith)
            requires
                digit <= 127,
        ;
        result = result + digit * scale;
        off = off + 1;
        if b < 0x80 {
            return Ok((result, off));
        }
        scale = scale * 0x80;
        count = count + 1;
        assert(pow128(count as nat) == 128 * pow128((count - 1) as nat));
    }
}

/// How many bytes `n` takes.
pub fn varint_len(n: u64) -> (len: usize)
    ensures
        len == varint(n as nat).len(),
        1 <= len <= 10,
{
    let mut rest: u64 = n;
    let mut len: usize = 1;
    while rest >= 0x80
        invariant
            1 <= len <= 10,
            len == 1 ==> rest <= 0xffff_ffff_ffff_ffff,
            len == 2 ==> rest < 0x200_0000_0000_0000,
            len == 3 ==> rest < 0x4_0000_0000_0000,
            len == 4 ==> rest < 0x800_0000_0000,
            len == 5 ==> rest < 0x10_0000_0000,
            len == 6 ==> rest < 0x2000_0000,
            len == 7 ==> rest < 0x40_0000,
            len == 8 ==> rest < 0x8000,
            len == 9 ==> rest < 0x100,
            len == 10 ==> rest < 2,
            varint(n as nat).len() == len - 1 + varint(rest as nat).len(),
        decreases rest,
    {
        rest = rest / 0x80;
        len += 1;
    }
    len
}

/// What is encoded is read back, from wherever it stands.
pub proof fn law_varint_round_trip(n: u64, data: Seq<u8>, off: int)
    requires
        0 <= off,
        off + varint(n as nat).len() <= data.len(),
        data.subrange(off, off + varint(n as nat).len()) == varint(n as nat),
    ensures
        read_varint(data, off) == Ok::<(u64, int), Failure>((n, off + varint(n as nat).len())),
{
    lemma_varint_shape(n as nat, data, off);
    lemma_pow128_values();
    lemma_varint_len_bound(n as nat, 10);
}

/// What is encoded is read back, in terms of where it stands.
pub proof fn lemma_varint_read(data: Seq<u8>, off: int, n: nat)
    requires
        n <= u64::MAX,
        holds_at(data, off, varint(n)),
    ensures
        read_varint(data, off) == Ok::<(u64, int), Failure>((n as u64, off + varint(n).len())),
{
    law_varint_round_trip(n as u64, data, off);
}

/// A greater number takes no fewer bytes.
proof fn lemma_varint_len_monotone(a: nat, b: nat)
    requires
        a <= b,
    ensures
        varint(a).len() <= varint(b).len(),
    decreases b,
{
    if a >= 128 {
        lemma_varint_len_monotone(a / 128, b / 128);
    }
}

/// A number at most 128 times as great takes at most one byte more.
pub proof fn lemma_varint_len_grows(a: nat, b: nat)
    requires
        a <= 128 * b,
    ensures
        varint(a).len() <= varint(b).len() + 1,
{
    if a >= 128 {
        lemma_varint_len_monotone(a / 128, b);
    }
}

proof fn lemma_varint_len_bound(n: nat, k: nat)
    requires
        k >= 1,
        n < pow128(k),
    ensures
        1 <= varint(n).len() <= k,
    decreases k,
{
    if n >= 128 {
        assert(pow128(1) == 128) by {
            reveal_with_fuel(pow128, 2);
        }
        assert(n / 128 < pow128((k - 1) as nat));
        lemma_varint_len_bound(n / 128, (k - 1) as nat);
    }
}

proof fn lemma_varint_shape(n: nat, data: Seq<u8>, off: int)
    requires
        0 <= off,
        off + varint(n).len() <= data.len(),
        data.subrange(off, off + varint(n).len()) == varint(n),
    ensures
        varint(n).len() >= 1,
        continued(data, off) == varint(n).len() - 1,
        base128(varint(n)) == n,
    decreases n,
{
    let bytes = varint(n);
    assert(bytes[0] == data[off]);
    if n < 128 {
        assert(bytes.drop_first() =~= Seq::<u8>::empty());
        assert(base128(bytes.drop_first()) == 0);
    } else {
        let tail = varint(n / 128);
        assert(bytes.drop_first() =~= tail);
        assert(data.subrange(off + 1, off + 1 + tail.len()) =~= bytes.drop_first());
        lemma_varint_shape(n / 128, data, off + 1);
    }
}

/// Each byte of a number holds seven of its bits, the lowest first, and all but the last
/// have the high bit set; there is no byte more than needed.
pub proof fn law_varint_bytes(n: nat)
    ensures
        varint(n).len() >= 1,
        varint(n)[0] as nat % 128 == n % 128,
        n < 128 ==> varint(n) == seq![n as u8],
        n >= 128 ==> varint(n)[0] >= 128 && varint(n).drop_first() == varint(n / 128),
        varint(n).last() < 128,
        varint(n).len() > 1 ==> varint(n).last() != 0,
        base128(varint(n)) == n,
    decreases n,
{
    if n >= 128 {
        law_varint_bytes(n / 128);
        assert(varint(n).drop_first() =~= varint(n / 128));
        assert(varint(n).last() == varint(n / 128).last());
        assert(base128(varint(n)) == (varint(n)[0] % 128) as nat + 128 * base128(varint(n / 128)));
    } else {
        assert(varint(n) =~= seq![n as u8]);
        assert(varint(n).drop_first() =~= Seq::empty());
        assert(base128(Seq::<u8>::empty()) == 0);
    }
}

proof fn lemma_continued(data: Seq<u8>, off: int, k: int)
    requires
        0 <= off,
        0 <= k,
        off + k <= data.len(),
        forall|j: int| off <= j < off + k ==> #[trigger] data[j] >= 128,
    ensures
        continued(data, off) >= k,
        off + k == data.len() || data[off + k] < 128 ==> continued(data, off) == k,
    decreases k,
{
    if k > 0 {
        assert(data[off] >= 128);
        lemma_continued(data, off + 1, k - 1);
    }
}

/// Reading goes on as long as the high bit is set: ten such bytes are too many, and the
/// data must not end before a byte without it. What is read then are the low seven bits
/// of each byte, of which 64 are kept.
pub proof fn law_varint_read(data: Seq<u8>, off: int, k: int)
    requires
        0 <= off,
        0 <= k,
        off + k <= data.len(),
        forall|j: int| off <= j < off + k ==> #[trigger] data[j] >= 128,
    ensures
        k >= 10 ==> read_varint(data, off) == Err::<(u64, int), Failure>(
            Failure::InvalidData("Varint too large"@),
        ),
        k < 10 && off + k == data.len() ==> read_varint(data, off) == Err::<(u64, int), Failure>(
            Failure::InvalidData("Unexpected end of varint"@),
        ),
        k < 10 && off + k < data.len() && data[off + k] < 128 ==> read_varint(data, off) == Ok::<
            (u64, int),
            Failure,
        >(
            (
                (base128(data.subrange(off, off + k + 1)) % 0x1_0000_0000_0000_0000) as u64,
                off + k + 1,
            ),
        ),
        forall|b: u8, rest: Seq<u8>|
            #![trigger seq![b] + rest]
            base128(seq![b] + rest) == b as nat % 128 + 128 * base128(rest),
{
    lemma_continued(data, off, k);
    assert forall|b: u8, rest: Seq<u8>|
        #![trigger seq![b] + rest]
        base128(seq![b] + rest) == b as nat % 128 + 128 * base128(rest) by {
        assert((seq![b] + rest).drop_first() =~= rest);
        assert((seq![b] + rest)[0] == b);
    }
}

/// What is read at a place depends on the bytes from there on.
pub(crate) proof fn lemma_varint_agrees(a: Seq<u8>, b: Seq<u8>, off: int)
    requires
        0 <= off,
        a.len() == b.len(),
        forall|j: int| off <= j < a.len() ==> #[trigger] a[j] == b[j],
    ensures
        read_varint(a, off) == read_varint(b, off),
        read_varint(a, off) matches Ok((_, next)) ==> off < next <= a.len(),
{
    lemma_continued_agrees(a, b, off);
    let k = continued(a, off) as int;
    if off + k < a.len() {
        assert(a.subrange(off, off + k + 1) =~= b.subrange(off, off + k + 1));
    }
}

proof fn lemma_continued_agrees(a: Seq<u8>, b: Seq<u8>, off: int)
    requires
        0 <= off,
        a.len() == b.len(),
        forall|j: int| off <= j < a.len() ==> #[trigger] a[j] == b[j],
    ensures
        continued(a, off) == continued(b, off),
    decreases a.len() - off,
{
    if off < a.len() && a[off] >= 128 {
        lemma_continued_agrees(a, b, off + 1);
    }
}

proof fn lemma_continued_extends(a: Seq<u8>, extra: Seq<u8>, off: int)
    requires
        0 <= off,
        off + continued(a, off) < a.len(),
    ensures
        continued(a + extra, off) == continued(a, off),
    decreases a.len() - off,
{
    assert((a + extra)[off] == a[off]);
    if a[off] >= 128 {
        lemma_continued_extends(a, extra, off + 1);
    }
}

/// What can be read is read, whatever follows it.
pub(crate) proof fn lemma_varint_extends(a: Seq<u8>, extra: Seq<u8>, off: int)
    requires
        0 <= off,
        read_varint(a, off) is Ok,
    ensures
        read_varint(a + extra, off) == read_varint(a, off),
        off < read_varint(a, off)->Ok_0.1 <= a.len(),
{
    lemma_continued_extends(a, extra, off);
    let k = continued(a, off) as int;
    assert((a + extra).subrange(off, off + k + 1) =~= a.subrange(off, off + k + 1));
}

} // verus!
