//! The hash function, and the account identities cut out of its digests.

use vstd::prelude::*;

verus! {

/// Number of bytes in a digest.
pub const DIGEST_LEN: usize = 32;

/// The 32-byte digest that `ckb_hash::blake2b_256` computes for `data`:
/// Blake2b with the personalization `ckb-default-hash`.
pub uninterp spec fn blake2b_256_digest(data: Seq<u8>) -> Seq<u8>;

/// Calls `ckb_hash::blake2b_256`. Trusted: the digest is a function of the
/// input bytes alone, which the contract names `blake2b_256_digest`.
#[verifier::external_body]
pub(crate) fn hash256(data: &[u8]) -> (digest: [u8; 32])
    ensures
        digest@ == blake2b_256_digest(data@),
{
    ckb_hash::blake2b_256(data)
}

/// The identity of an account: the leading `id_len` bytes of its digest.
pub open spec fn id_prefix(digest: Seq<u8>, id_len: nat) -> Seq<u8> {
    digest.subrange(0, id_len as int)
}

/// The identity under which the account `name` is stored.
pub open spec fn account_id_of(name: Seq<u8>, id_len: nat) -> Seq<u8> {
    id_prefix(blake2b_256_digest(name), id_len)
}

/// Cuts the account identity out of a digest.
pub fn account_id_from_digest(digest: &[u8; 32], id_len: usize) -> (id: Vec<u8>)
    requires
        id_len <= DIGEST_LEN,
    ensures
        id@ == id_prefix(digest@, id_len as nat),
{
    let mut id: Vec<u8> = Vec::with_capacity(id_len);
    let mut i: usize = 0;
    while i < id_len
        invariant
            i <= id_len <= 32,
            id@ == digest@.subrange(0, i as int),
        decreases id_len - i,
    {
        id.push(digest[i]);
        assert(digest@.subrange(0, i + 1) =~= digest@.subrange(0, i as int).push(digest@[i as int]));
        i += 1;
    }
    id
}

/// Hashes an account name and keeps the leading `id_len` bytes of the digest.
pub fn account_id(name: &[u8], id_len: usize) -> (id: Vec<u8>)
    requires
        id_len <= DIGEST_LEN,
    ensures
        id@ == account_id_of(name@, id_len as nat),
        id@.len() == id_len,
{
    let digest = hash256(name);
    account_id_from_digest(&digest, id_len)
}

} // verus!
