//! The digest rules: how the identity of a node follows from its content.

use crate::bytes::append_bytes;
use crypto::digest::Digest;
use crypto::sha2::Sha384;
use vstd::prelude::*;

verus! {

/// Number of bytes in every digest of this crate (SHA-384).
pub const DIGEST_LEN: usize = 48;

/// The SHA-384 digest of a byte string.
pub uninterp spec fn sha384_digest(input: Seq<u8>) -> Seq<u8>;

/// Computes SHA-384 with `crypto::sha2::Sha384`: a fresh hasher is fed
/// `input` once and its result is written into a buffer of 48 bytes.
///
/// Trusted: the bytes returned are the SHA-384 digest of `input`, and there
/// are 48 of them (`Sha384::result` fills exactly the first 48 bytes of its
/// output buffer).
#[verifier::external_body]
pub(crate) fn sha384(input: &[u8]) -> (out: Vec<u8>)
    ensures
        out@ == sha384_digest(input@),
        out@.len() == DIGEST_LEN,
{
    let mut hasher = Sha384::new();
    hasher.input(input);
    let mut out = vec![0u8; 48];
    hasher.result(&mut out);
    out
}

/// Digest of a node's metadata blob.
pub open spec fn spec_metadata_hash(metadata: Seq<u8>) -> Seq<u8> {
    sha384_digest(metadata)
}

/// Digest of a file: its metadata digest followed by its data digest.
pub open spec fn spec_leaf_hash(metadata_hash: Seq<u8>, data_hash: Seq<u8>) -> Seq<u8> {
    sha384_digest(metadata_hash + data_hash)
}

/// All the byte strings of `parts`, one after the other.
pub open spec fn concat(parts: Seq<Seq<u8>>) -> Seq<u8>
    decreases parts.len(),
{
    if parts.len() == 0 {
        Seq::empty()
    } else {
        concat(parts.drop_last()) + parts.last()
    }
}

/// Digest of a directory: its metadata digest followed by the digests of its
/// children in the order given.
pub open spec fn spec_dir_hash(metadata_hash: Seq<u8>, children: Seq<Seq<u8>>) -> Seq<u8> {
    sha384_digest(metadata_hash + concat(children))
}

/// The views of a vector of byte strings.
pub open spec fn views(v: Seq<Vec<u8>>) -> Seq<Seq<u8>> {
    Seq::new(v.len(), |i: int| v[i]@)
}

/// `H(metadata)`.
pub fn metadata_hash(metadata: &[u8]) -> (out: Vec<u8>)
    ensures
        out@ == spec_metadata_hash(metadata@),
        out@.len() == DIGEST_LEN,
{
    sha384(metadata)
}

/// `H(metadata_hash ++ data_hash)`.
pub fn leaf_hash(metadata_hash: &[u8], data_hash: &[u8]) -> (out: Vec<u8>)
    ensures
        out@ == spec_leaf_hash(metadata_hash@, data_hash@),
        out@.len() == DIGEST_LEN,
{
    let mut buf: Vec<u8> = Vec::new();
    append_bytes(&mut buf, metadata_hash);
    append_bytes(&mut buf, data_hash);
    sha384(buf.as_slice())
}

/// `H(metadata_hash ++ c0 ++ c1 ++ ...)` over the child digests in the order
/// given. With no children this is `H(metadata_hash)`.
pub fn dir_hash(metadata_hash: &[u8], children: &Vec<Vec<u8>>) -> (out: Vec<u8>)
    ensures
        out@ == spec_dir_hash(metadata_hash@, views(children@)),
        out@.len() == DIGEST_LEN,
        children@.len() == 0 ==> out@ == sha384_digest(metadata_hash@),
{
    let mut buf: Vec<u8> = Vec::new();
    append_bytes(&mut buf, metadata_hash);
    let ghost all = views(children@);
    let mut i: usize = 0;
    while i < children.len()
        invariant
            i <= children.len(),
            all == views(children@),
            buf@ == metadata_hash@ + concat(all.subrange(0, i as int)),
        decreases children.len() - i,
    {
        proof {
            let next = all.subrange(0, i + 1);
            assert(next.drop_last() == all.subrange(0, i as int));
            assert(next.last() == children@[i as int]@);
        }
        append_bytes(&mut buf, children[i].as_slice());
        i += 1;
    }
    assert(all.subrange(0, all.len() as int) == all);
    assert(children@.len() == 0 ==> metadata_hash@ + concat(all) == metadata_hash@);
    sha384(buf.as_slice())
}

} // verus!
