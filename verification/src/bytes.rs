//! Small operations on byte strings.

use vstd::prelude::*;

verus! {

/// Whether `part` stands at `off` in `data`.
pub open spec fn holds_at(data: Seq<u8>, off: int, part: Seq<u8>) -> bool {
    &&& 0 <= off
    &&& off + part.len() <= data.len()
    &&& data.subrange(off, off + part.len()) == part
}

/// Where two parts stand one after the other, each of them stands.
pub proof fn lemma_holds_parts(data: Seq<u8>, off: int, a: Seq<u8>, b: Seq<u8>)
    requires
        holds_at(data, off, a + b),
    ensures
        holds_at(data, off, a),
        holds_at(data, off + a.len(), b),
{
    let whole = data.subrange(off, off + a.len() + b.len());
    assert(whole == a + b);
    assert(data.subrange(off, off + a.len()) =~= whole.subrange(0, a.len() as int));
    assert(whole.subrange(0, a.len() as int) =~= a);
    assert(data.subrange(off + a.len(), off + a.len() + b.len()) =~= whole.subrange(
        a.len() as int,
        (a.len() + b.len()) as int,
    ));
    assert(whole.subrange(a.len() as int, (a.len() + b.len()) as int) =~= b);
}

/// Appends `more` to `out`.
pub fn extend(out: &mut Vec<u8>, more: &[u8])
    ensures
        final(out)@ == old(out)@ + more@,
{
    out.extend_from_slice(more);
    assert(out@ =~= old(out)@ + more@);
}

/// The bytes of `data` from `from` up to `to`, in a vector of their own.
pub fn copy_range(data: &[u8], from: usize, to: usize) -> (out: Vec<u8>)
    requires
        from <= to <= data@.len(),
    ensures
        out@ == data@.subrange(from as int, to as int),
{
    let mut out: Vec<u8> = Vec::new();
    extend(&mut out, vstd::slice::slice_subrange(data, from, to));
    assert(out@ =~= data@.subrange(from as int, to as int));
    out
}

/// The bytes of `data`, in a vector of their own.
pub fn copy_of(data: &[u8]) -> (out: Vec<u8>)
    ensures
        out@ == data@,
{
    vstd::slice::slice_to_vec(data)
}

/// Whether two byte strings are equal.
pub fn same_bytes(a: &[u8], b: &[u8]) -> (same: bool)
    ensures
        same == (a@ == b@),
{
    if a.len() != b.len() {
        return false;
    }
    let mut i: usize = 0;
    while i < a.len()
        invariant
            a@.len() == b@.len(),
            i <= a@.len(),
            forall|j: int| 0 <= j < i ==> a@[j] == b@[j],
        decreases a@.len() - i,
    {
        if a[i] != b[i] {
            assert(a@[i as int] != b@[i as int]);
            return false;
        }
        i += 1;
    }
    assert(a@ =~= b@);
    true
}

} // verus!
