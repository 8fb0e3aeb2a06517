//! Fingerprints that bind a trust grant to a path and to exact content.

use vstd::prelude::*;
use vstd::string::StringSliceAdditionalSpecFns;
use sha2::Digest;

verus! {

/// The SHA-256 digest of a byte string.
pub uninterp spec fn sha256(data: Seq<u8>) -> Seq<u8>;

/// The fingerprint of a file: the digest of the path's bytes followed by the
/// content's bytes.
pub open spec fn fingerprint(path: Seq<char>, contents: Seq<u8>) -> Seq<u8> {
    sha256(vstd::utf8::encode_utf8(path) + contents)
}

/// Calls `sha2::Sha256::digest`. Trusted: the result is the SHA-256 digest of
/// `data`, a function of the bytes alone.
#[verifier::external_body]
fn sha256_digest(data: &[u8]) -> (digest: Vec<u8>)
    ensures
        digest@ == sha256(data@),
{
    sha2::Sha256::digest(data).to_vec()
}

/// Fingerprints `contents` as stored at `path`.
pub fn hash_file(path: &str, contents: &[u8]) -> (hash: Vec<u8>)
    ensures
        hash@ == fingerprint(path@, contents@),
{
    let mut data: Vec<u8> = Vec::new();
    data.extend_from_slice(path.as_bytes());
    data.extend_from_slice(contents);
    assert(data@ =~= vstd::utf8::encode_utf8(path@) + contents@);
    sha256_digest(data.as_slice())
}

} // verus!
