//! The content digest that end markers carry.
use vstd::prelude::*;

verus! {

/// The BLAKE2s-256 digest of a byte string.
pub uninterp spec fn blake2s_of(data: Seq<u8>) -> Seq<u8>;

/// Relies on blake2's `Blake2s256::digest`: the 32-byte BLAKE2s-256 digest of
/// the bytes, which depends on the bytes alone.
#[verifier::external_body]
pub(crate) fn blake2s_digest(data: &[u8]) -> (r: [u8; 32])
    ensures
        r@ == blake2s_of(data@),
{
    <blake2::Blake2s256 as blake2::Digest>::digest(data).into()
}

/// Whether two digests hold the same bytes.
pub fn same_digest(a: &[u8; 32], b: &[u8; 32]) -> (r: bool)
    ensures
        r == (a@ == b@),
{
    let mut i: usize = 0;
    while i < 32
        invariant
            i <= 32,
            forall|j: int| 0 <= j < i ==> a@[j] == b@[j],
        decreases 32 - i,
    {
        if a[i] != b[i] {
            return false;
        }
        i = i + 1;
    }
    assert(a@ =~= b@);
    true
}

} // verus!
