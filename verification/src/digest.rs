//! SHA-256, computed by the `sha2` crate.

use sha2::Digest;
use vstd::prelude::*;

verus! {

/// The SHA-256 digest of a byte string, as the `sha2` crate computes it.
pub uninterp spec fn sha256_digest(data: Seq<u8>) -> Seq<u8>;

/// The digest of a byte string as exactly 32 bytes.
///
/// Every digest that was ever computed has 32 bytes, and there this is
/// `sha256_digest`; stated in this way, contracts can speak of blocks of
/// digests without asking each time how long one is.
pub open spec fn digest32(data: Seq<u8>) -> Seq<u8> {
    let d = sha256_digest(data);
    if d.len() == 32 {
        d
    } else {
        Seq::new(32, |i: int| 0u8)
    }
}

/// Calls `sha2::Sha256::digest`. Trusted: the result is the SHA-256 digest
/// of `data`, a function of `data` alone, and has 32 bytes.
#[verifier::external_body]
pub(crate) fn sha256(data: &Vec<u8>) -> (r: Vec<u8>)
    ensures
        r@ == sha256_digest(data@),
        r@.len() == 32,
{
    sha2::Sha256::digest(data.as_slice()).to_vec()
}

/// Computes the digest of a byte string.
pub fn digest(data: &Vec<u8>) -> (r: Vec<u8>)
    ensures
        r@ == digest32(data@),
        r@.len() == 32,
{
    sha256(data)
}

} // verus!
