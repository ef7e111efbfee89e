//! The checksum of contents: their MD5 digest.

use vstd::prelude::*;

verus! {

/// The state of a digest that is being computed.
#[verifier::external_type_specification]
#[verifier::external_body]
pub struct ExContext(md5::Context);

/// What [`md5::compute`] returns for a byte string.
pub uninterp spec fn md5_digest(data: Seq<u8>) -> Seq<u8>;

/// The bytes that a digest in the making has consumed.
pub uninterp spec fn consumed(context: md5::Context) -> Seq<u8>;

/// Calls [`md5::compute`]: the digest depends on the bytes alone.
#[verifier::external_body]
fn md5_of(data: &[u8]) -> (digest: [u8; 16])
    ensures
        digest@ == md5_digest(data@),
{
    *md5::compute(data)
}

/// Calls [`md5::Context::new`], which has consumed nothing.
#[verifier::external_body]
pub(crate) fn digest_start() -> (context: md5::Context)
    ensures
        consumed(context) == Seq::<u8>::empty(),
{
    md5::Context::new()
}

/// Calls [`md5::Context::consume`], which appends to what was consumed.
#[verifier::external_body]
pub(crate) fn digest_consume(context: &mut md5::Context, data: &[u8])
    ensures
        consumed(*final(context)) == consumed(*old(context)) + data@,
{
    context.consume(data);
}

/// Calls [`md5::Context::compute`], which gives the digest of what was consumed:
/// the one that [`md5::compute`] gives for it at once.
#[verifier::external_body]
fn digest_end(context: md5::Context) -> (digest: [u8; 16])
    ensures
        digest@ == md5_digest(consumed(context)),
{
    *context.compute()
}

/// How long a checksum is.
pub const CHECKSUM_LEN: usize = 16;

/// The checksum of contents: the sixteen bytes of their digest.
pub open spec fn checksum(data: Seq<u8>) -> Seq<u8> {
    Seq::new(CHECKSUM_LEN as nat, |i: int| md5_digest(data)[i])
}

/// The checksum of contents.
pub(crate) fn checksum_of(data: &[u8]) -> (sum: [u8; 16])
    ensures
        sum@ == checksum(data@),
{
    let sum = md5_of(data);
    assert(sum@ =~= checksum(data@));
    sum
}

/// The checksum of all that was consumed.
pub(crate) fn checksum_consumed(context: md5::Context) -> (sum: [u8; 16])
    ensures
        sum@ == checksum(consumed(context)),
{
    let sum = digest_end(context);
    assert(sum@ =~= checksum(consumed(context)));
    sum
}

/// A checksum has sixteen bytes: those of the digest.
pub proof fn law_checksum(data: Seq<u8>)
    ensures
        checksum(data).len() == 16,
        forall|i: int| 0 <= i < 16 ==> #[trigger] checksum(data)[i] == md5_digest(data)[i],
{
}

} // verus!
