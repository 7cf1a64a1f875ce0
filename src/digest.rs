//! The digest that names chunks and whole files.
use vstd::prelude::*;
use crate::arguments::ChunkId;

verus! {

/// The BLAKE3 digest of `data`.
pub uninterp spec fn digest_of(data: Seq<u8>) -> Seq<u8>;

/// Relies on `blake3::hash`: the 32-byte BLAKE3 digest of the input, a function of the input
/// alone.
#[verifier::external_body]
fn blake3_hash(data: &[u8]) -> (r: [u8; 32])
    ensures
        r@ == digest_of(data@),
{
    *blake3::hash(data).as_bytes()
}

/// The digest of a whole file's bytes.
pub fn file_digest(data: &[u8]) -> (r: [u8; 32])
    ensures
        r@ == digest_of(data@),
{
    blake3_hash(data)
}

/// The id of a chunk holding `data`.
pub fn chunk_digest(data: &[u8]) -> (r: ChunkId)
    ensures
        r@ == digest_of(data@),
        r@.len() == 32,
{
    let h = blake3_hash(data);
    let mut v: Vec<u8> = Vec::new();
    crate::bytes::extend_bytes(&mut v, &h);
    ChunkId(v)
}

} // verus!
