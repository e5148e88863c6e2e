//! Share authentication.
//!
//! A signed split gives every share the same signature: the digests of all
//! the shares of the split, one after the other, in the order of their ids.
//! A share holds its own digest among them, so a change of its data shows;
//! and all shares of one split agree on the signature, so a share that was
//! signed anew by its holder shows as well.

use vstd::prelude::*;
use crate::digest::{digest, digest32};
use crate::error::{RecoveryError, RecoveryFailure, SignatureFault};
use crate::share::{bytes_equal, valid_share, Share, ShareView};

verus! {

/// What is hashed for a share: its id, its parameters, and its data.
pub open spec fn leaf_input(s: ShareView) -> Seq<u8> {
    seq![s.id, s.threshold, s.shares_count] + s.data
}

/// The digest of a share.
pub open spec fn leaf_digest(s: ShareView) -> Seq<u8> {
    digest32(leaf_input(s))
}

/// The digests of the first `k` shares, one after the other.
pub open spec fn digests_upto(shares: Seq<ShareView>, k: nat) -> Seq<u8>
    decreases k,
{
    if k == 0 {
        Seq::empty()
    } else {
        digests_upto(shares, (k - 1) as nat) + leaf_digest(shares[k - 1])
    }
}

/// The signature of a set of shares: the digests of all of them.
pub open spec fn set_signature(shares: Seq<ShareView>) -> Seq<u8> {
    digests_upto(shares, shares.len())
}

/// The `i`-th digest in a signature.
pub open spec fn block(signature: Seq<u8>, i: int) -> Seq<u8> {
    signature.subrange(32 * i, 32 * i + 32)
}

/// What is wrong with the signature of a share, if anything, where
/// `reference` is the signature of the first share given.
pub open spec fn signature_fault(s: ShareView, reference: Option<Seq<u8>>) -> Option<
    RecoveryFailure,
> {
    match s.signature {
        None => Some(RecoveryFailure::MissingSignature(s.id)),
        Some(signature) => {
            if signature.len() != 32 * s.shares_count {
                Some(RecoveryFailure::InvalidSignature(s.id, SignatureFault::Malformed))
            } else if block(signature, s.id - 1) != leaf_digest(s) {
                Some(RecoveryFailure::InvalidSignature(s.id, SignatureFault::WrongDigest))
            } else if reference != Some(signature) {
                Some(RecoveryFailure::InvalidSignature(s.id, SignatureFault::ForeignSet))
            } else {
                None
            }
        },
    }
}

/// A signature holds 32 bytes for each share, and the digest of each share
/// at the share's place.
pub proof fn lemma_digests_upto(shares: Seq<ShareView>, k: nat)
    requires
        k <= shares.len(),
    ensures
        digests_upto(shares, k).len() == 32 * k,
        forall|j: int| 0 <= j < k ==> block(digests_upto(shares, k), j) == leaf_digest(shares[j]),
    decreases k,
{
    if k > 0 {
        let before = digests_upto(shares, (k - 1) as nat);
        let all = digests_upto(shares, k);
        lemma_digests_upto(shares, (k - 1) as nat);
        assert forall|j: int| 0 <= j < k implies block(all, j) == leaf_digest(shares[j]) by {
            if j < k - 1 {
                assert(block(all, j) =~= block(before, j));
            } else {
                assert(block(all, j) =~= leaf_digest(shares[j]));
            }
        }
    }
}

/// Computes the digest of a share from its parts.
pub fn digest_of(id: u8, threshold: u8, shares_count: u8, data: &Vec<u8>) -> (r: Vec<u8>)
    ensures
        r@.len() == 32,
        r@ == leaf_digest(
            (ShareView { id, threshold, shares_count, data: data@, signature: None }),
        ),
        forall|signature: Option<Seq<u8>>|
            r@ == leaf_digest(
                (ShareView { id, threshold, shares_count, data: data@, signature }),
            ),
{
    let n = data.len();
    let mut input: Vec<u8> = Vec::new();
    input.push(id);
    input.push(threshold);
    input.push(shares_count);
    let mut i: usize = 0;
    while i < n
        invariant
            i <= n,
            n == data.len(),
            input@ == seq![id, threshold, shares_count] + data@.subrange(0, i as int),
        decreases n - i,
    {
        input.push(data[i]);
        assert(input@ =~= seq![id, threshold, shares_count] + data@.subrange(0, i + 1));
        i = i + 1;
    }
    assert(data@.subrange(0, n as int) =~= data@);
    digest(&input)
}

/// Checks the signature of a share against its data and against the
/// signature of the first share given.
#[verifier::loop_isolation(false)]
pub fn check_signature(share: &Share, reference: &Option<Vec<u8>>) -> (r: Option<RecoveryError>)
    requires
        valid_share(share@),
    ensures
        match r {
            Some(e) => Some(e@),
            None => None,
        } == signature_fault(
            share@,
            match *reference {
                Some(s) => Some(s@),
                None => None,
            },
        ),
{
    match &share.signature {
        None => Some(RecoveryError::MissingSignature(share.id)),
        Some(signature) => {
            let count: usize = share.shares_count as usize;
            if signature.len() != 32 * count {
                return Some(
                    RecoveryError::InvalidSignature(share.id, SignatureFault::Malformed),
                );
            }
            let expected = digest_of(share.id, share.threshold, share.shares_count, &share.data);
            let start: usize = 32 * (share.id as usize - 1);
            let mut i: usize = 0;
            while i < 32
                invariant
                    i <= 32,
                    start == 32 * (share.id - 1),
                    start + 32 <= signature.len(),
                    expected.len() == 32,
                    forall|k: int| 0 <= k < i ==> signature[start + k] == expected[k],
                decreases 32 - i,
            {
                if signature[start + i] != expected[i] {
                    assert(block(signature@, share.id - 1)[i as int] != expected@[i as int]);
                    return Some(
                        RecoveryError::InvalidSignature(share.id, SignatureFault::WrongDigest),
                    );
                }
                i = i + 1;
            }
            assert(block(signature@, share.id - 1) =~= expected@);
            let same = match reference {
                Some(first) => bytes_equal(first, signature),
                None => false,
            };
            if !same {
                return Some(
                    RecoveryError::InvalidSignature(share.id, SignatureFault::ForeignSet),
                );
            }
            None
        },
    }
}

} // verus!
