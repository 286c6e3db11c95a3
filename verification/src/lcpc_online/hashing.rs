use vstd::prelude::*;

verus! {

#[verifier::external_type_specification]
#[verifier::external_body]
pub struct ExBlake3Hasher(blake3::Hasher);

/// The BLAKE3 hash of `data`.
pub uninterp spec fn blake3_digest(data: Seq<u8>) -> Seq<u8>;

/// All bytes fed into an incremental BLAKE3 hasher so far.
pub uninterp spec fn hasher_absorbed(h: blake3::Hasher) -> Seq<u8>;

/// `blake3::Hasher::new`: a hasher that has absorbed nothing.
#[verifier::external_body]
pub(crate) fn hasher_new() -> (h: blake3::Hasher)
    ensures
        hasher_absorbed(h) == Seq::<u8>::empty(),
{
    blake3::Hasher::new()
}

/// `blake3::Hasher::update`: appends `data` to what the hasher has absorbed.
#[verifier::external_body]
pub(crate) fn hasher_update(h: &mut blake3::Hasher, data: &[u8])
    ensures
        hasher_absorbed(*final(h)) == hasher_absorbed(*old(h)) + data@,
{
    h.update(data);
}

/// `blake3::Hasher::finalize`: the BLAKE3 hash of everything the hasher has absorbed,
/// the same as hashing those bytes in one call.
#[verifier::external_body]
pub(crate) fn hasher_finalize(h: &blake3::Hasher) -> (r: [u8; 32])
    ensures
        r@ == blake3_digest(hasher_absorbed(*h)),
{
    *h.finalize().as_bytes()
}

/// The digest of two digests side by side: one node of a Merkle tree over its two
/// children.
pub fn hash_pair(left: &[u8; 32], right: &[u8; 32]) -> (r: [u8; 32])
    ensures
        r@ == blake3_digest(left@ + right@),
{
    let mut h = hasher_new();
    hasher_update(&mut h, left);
    hasher_update(&mut h, right);
    proof {
        assert(Seq::<u8>::empty() + left@ + right@ =~= left@ + right@);
    }
    hasher_finalize(&h)
}

/// Whether two digests are the same bytes.
pub fn digest_eq(a: &[u8; 32], b: &[u8; 32]) -> (r: bool)
    ensures
        r == (a@ == b@),
{
    let mut i: usize = 0;
    while i < 32
        invariant
            i <= 32,
            forall|j: int| 0 <= j < i ==> a@[j] == b@[j],
        decreases 32 - i,
    {
        if a[i] != b[i] {
            return false;
        }
        i = i + 1;
    }
    proof {
        assert(a@ =~= b@);
    }
    true
}

} // verus!
