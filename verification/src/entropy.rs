//! Random bytes from the operating system, through the `rand` crate.

use rand::RngCore;
use vstd::prelude::*;

verus! {

/// Calls `rand::rngs::OsRng::try_fill_bytes` on a buffer of `len` bytes.
/// Trusted: on success the buffer still has `len` bytes. Nothing is claimed
/// of what they are, nor that the call succeeds.
#[verifier::external_body]
pub(crate) fn random_bytes(len: usize) -> (r: Option<Vec<u8>>)
    ensures
        r matches Some(bytes) ==> bytes@.len() == len,
{
    let mut buffer = vec![0u8; len];
    match rand::rngs::OsRng.try_fill_bytes(&mut buffer) {
        Ok(()) => Some(buffer),
        Err(_) => None,
    }
}

} // verus!
