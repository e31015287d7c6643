//! The hash that joins two nodes of a Merkle Mountain Range.

use vstd::prelude::*;

verus! {

/// The length of a digest, in bytes.
pub const HASH_LEN: usize = 32;

/// The 256-bit Blake2b digest of `data` under the personalization
/// `ckb-default-hash`.
pub uninterp spec fn ckb_blake2b_256(data: Seq<u8>) -> Seq<u8>;

/// Hashes `left` followed by `right`.
///
/// Trusted: the body feeds both slices, in this order, to a hasher of
/// `blake2b_rs` built for 32 bytes of output with the personalization
/// `ckb-default-hash`, and returns what the hasher writes on `finalize`.
/// The contract names that digest as the digest of the concatenation and
/// claims nothing else of it.
#[verifier::external_body]
pub(crate) fn blake2b_pair(left: &[u8], right: &[u8]) -> (digest: [u8; 32])
    ensures
        digest@ == ckb_blake2b_256(left@ + right@),
{
    let mut hasher = blake2b_rs::Blake2bBuilder::new(32).personal(b"ckb-default-hash").build();
    hasher.update(left);
    hasher.update(right);
    let mut digest = [0u8; 32];
    hasher.finalize(&mut digest);
    digest
}

/// Whether two slices hold the same bytes.
pub fn same_bytes(a: &[u8], b: &[u8]) -> (same: bool)
    ensures
        same == (a@ == b@),
{
    if a.len() != b.len() {
        return false;
    }
    let mut i: usize = 0;
    while i < a.len()
        invariant
            i <= a.len(),
            a.len() == b.len(),
            forall|k: int| 0 <= k < i ==> a@[k] == b@[k],
        decreases a.len() - i,
    {
        if a[i] != b[i] {
            return false;
        }
        i = i + 1;
    }
    proof {
        assert(a@ =~= b@);
    }
    true
}

} // verus!
