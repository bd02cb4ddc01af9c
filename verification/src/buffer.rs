//! Packet bytes: what the reference counted buffers of the `bytes` crate hold.

use bytes::Bytes;
use vstd::prelude::*;

verus! {

/// The buffer type of the `bytes` crate.
#[verifier::external_type_specification]
#[verifier::external_body]
pub struct ExBytes(bytes::Bytes);

/// The bytes that a buffer holds.
pub uninterp spec fn contents(buffer: Bytes) -> Seq<u8>;

/// Calls `Bytes::deref`: the slice is what the buffer holds.
#[verifier::external_body]
pub(crate) fn as_slice(buffer: &Bytes) -> (slice: &[u8])
    ensures
        slice@ == contents(*buffer),
{
    buffer
}

/// Calls `Bytes::truncate`: keeps the first `len` bytes, or all of them where
/// there are no more than that.
#[verifier::external_body]
pub(crate) fn truncate(buffer: &mut Bytes, len: usize)
    ensures
        contents(*final(buffer)) == (if len < contents(*old(buffer)).len() {
            contents(*old(buffer)).take(len as int)
        } else {
            contents(*old(buffer))
        }),
{
    buffer.truncate(len)
}

/// Calls `Bytes::from` on a vector: the buffer holds what the vector held.
#[verifier::external_body]
pub(crate) fn from_vec(bytes: Vec<u8>) -> (buffer: Bytes)
    ensures
        contents(buffer) == bytes@,
{
    Bytes::from(bytes)
}

/// Calls `Bytes::clone`: another handle on the same bytes.
#[verifier::external_body]
pub(crate) fn share(buffer: &Bytes) -> (handle: Bytes)
    ensures
        contents(handle) == contents(*buffer),
{
    buffer.clone()
}

/// Appends a slice.
pub fn append(out: &mut Vec<u8>, bytes: &[u8])
    ensures
        final(out)@ == old(out)@ + bytes@,
{
    out.extend_from_slice(bytes);
    assert(out@ =~= old(out)@ + bytes@);
}

/// Whether two slices hold the same bytes.
pub fn same_bytes(a: &[u8], b: &[u8]) -> (same: bool)
    ensures
        same == (a@ == b@),
{
    if a.len() != b.len() {
        return false;
    }
    let mut i: usize = 0;
    while i < a.len()
        invariant
            i <= a@.len() == b@.len(),
            forall|k: int| 0 <= k < i ==> a@[k] == b@[k],
        decreases a@.len() - i,
    {
        if a[i] != b[i] {
            return false;
        }
        i = i + 1;
    }
    assert(a@ =~= b@);
    true
}

/// Whether two 32-byte hashes are the same.
pub fn same_hash(a: &[u8; 32], b: &[u8; 32]) -> (same: bool)
    ensures
        same == (*a == *b),
{
    let same: bool = same_bytes(a, b);
    proof {
        vstd::array::axiom_array_ext_equal(*a, *b);
    }
    same
}

} // verus!
