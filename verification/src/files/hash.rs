//! SHA-256 digests of streamed content.

use vstd::prelude::*;
use crate::common::SHA256Checksum;
use crate::files::FileAcquisitionError;

verus! {

/// The SHA-256 digest of `data`.
pub uninterp spec fn sha256(data: Seq<u8>) -> Seq<u8>;

/// The SHA-256 digest of `data`.
///
/// Trusted: `Sha256::digest` returns the digest of exactly the bytes
/// given, and a SHA-256 digest is 32 bytes long.
#[verifier::external_body]
fn sha256_digest(data: &[u8]) -> (digest: Vec<u8>)
    ensures
        digest@ == sha256(data@),
        digest@.len() == 32,
{
    <sha2::Sha256 as sha2::Digest>::digest(data).to_vec()
}

/// The bytes of the first `n` chunks, one after the other.
pub open spec fn joined_chunks(chunks: Seq<Vec<u8>>, n: int) -> Seq<u8>
    decreases n,
{
    if n <= 0 {
        Seq::empty()
    } else {
        joined_chunks(chunks, n - 1) + chunks[n - 1]@
    }
}

/// The digest of content that arrives in chunks: that of the chunks' bytes
/// one after the other.
pub fn hash_chunks(chunks: &Vec<Vec<u8>>) -> (digest: SHA256Checksum)
    ensures
        digest@ == sha256(joined_chunks(chunks@, chunks@.len() as int)),
        digest.well_formed(),
{
    let mut body: Vec<u8> = Vec::new();
    let mut i: usize = 0;
    while i < chunks.len()
        invariant
            i <= chunks@.len(),
            body@ == joined_chunks(chunks@, i as int),
        decreases chunks.len() - i,
    {
        let chunk = &chunks[i];
        let ghost start = body@;
        let mut k: usize = 0;
        while k < chunk.len()
            invariant
                k <= chunk@.len(),
                body@ == start + chunk@.take(k as int),
            decreases chunk.len() - k,
        {
            body.push(chunk[k]);
            assert(chunk@.take(k + 1) == chunk@.take(k as int).push(chunk@[k as int]));
            k = k + 1;
        }
        assert(chunk@.take(chunk@.len() as int) == chunk@);
        i = i + 1;
    }
    SHA256Checksum(sha256_digest(body.as_slice()))
}

/// The digest of `data`.
pub fn hash_bytes(data: &[u8]) -> (digest: SHA256Checksum)
    ensures
        digest@ == sha256(data@),
        digest.well_formed(),
{
    SHA256Checksum(sha256_digest(data))
}

/// Compares the digest observed of fetched content with the digest that
/// the content was fetched for.
///
/// Fails with `ContentHashMismatch`, which names the digest observed,
/// exactly when the two differ.
pub fn check_digest(expected: &SHA256Checksum, observed: SHA256Checksum) -> (res: Result<
    (),
    FileAcquisitionError,
>)
    ensures
        res is Ok <==> observed@ == expected@,
        res matches Err(e) ==> e matches FileAcquisitionError::ContentHashMismatch(o) && o@
            == observed@,
{
    if observed.same_as(expected) {
        Ok(())
    } else {
        Err(FileAcquisitionError::ContentHashMismatch(observed))
    }
}

/// Checks fetched content against the digest it was fetched for.
///
/// Fails with `ContentHashMismatch`, which names the digest observed,
/// exactly when the content hashes to another digest.
pub fn verify_content(expected: &SHA256Checksum, data: &[u8]) -> (res: Result<
    (),
    FileAcquisitionError,
>)
    ensures
        res is Ok <==> sha256(data@) == expected@,
        res matches Err(e) ==> e matches FileAcquisitionError::ContentHashMismatch(observed)
            && observed@ == sha256(data@),
{
    check_digest(expected, hash_bytes(data))
}

} // verus!
