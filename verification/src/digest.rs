//! SHA-256, computed by `bitcoin_hashes`, and the double digest that
//! checksums are cut from.

use vstd::prelude::*;

verus! {

/// The SHA-256 digest of `data`, as `bitcoin_hashes` computes it.
pub uninterp spec fn sha256_digest(data: Seq<u8>) -> Seq<u8>;

/// `sha256::Hash::hash`: the SHA-256 digest of `data`, which has 32 bytes.
#[verifier::external_body]
pub(crate) fn sha256(data: &[u8]) -> (digest: Vec<u8>)
    ensures
        digest@ == sha256_digest(data@),
        digest@.len() == 32,
{
    let hash: bitcoin_hashes::sha256::Hash = bitcoin_hashes::Hash::hash(data);
    bitcoin_hashes::Hash::into_inner(hash).to_vec()
}

/// The SHA-256 digest of the SHA-256 digest of `data`.
pub(crate) fn double_sha256(data: &[u8]) -> (digest: Vec<u8>)
    ensures
        digest@ == sha256_digest(sha256_digest(data@)),
        digest@.len() == 32,
{
    let inner = sha256(data);
    sha256(inner.as_slice())
}

} // verus!
