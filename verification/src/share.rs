//! A share: one point of each byte's polynomial, with the parameters of the
//! split it came from and, where the split was signed, its signature.

use vstd::prelude::*;

verus! {

/// One of the `shares_count` fragments of a split secret.
#[derive(Debug, Clone, PartialEq, Eq)]
pub struct Share {
    /// The point at which the polynomials were evaluated, from 1 up.
    pub id: u8,
    /// How many shares recover the secret.
    pub threshold: u8,
    /// How many shares the split produced.
    pub shares_count: u8,
    /// The value of each byte's polynomial at `id`.
    pub data: Vec<u8>,
    /// The signature that the split attached, if it signed.
    pub signature: Option<Vec<u8>>,
}

/// The mathematical value of a share.
pub struct ShareView {
    pub id: u8,
    pub threshold: u8,
    pub shares_count: u8,
    pub data: Seq<u8>,
    pub signature: Option<Seq<u8>>,
}

impl View for Share {
    type V = ShareView;

    open spec fn view(&self) -> ShareView {
        ShareView {
            id: self.id,
            threshold: self.threshold,
            shares_count: self.shares_count,
            data: self.data@,
            signature: match self.signature {
                Some(s) => Some(s@),
                None => None,
            },
        }
    }
}

impl DeepView for Share {
    type V = ShareView;

    open spec fn deep_view(&self) -> ShareView {
        self.view()
    }
}

/// A threshold of at least one share and of no more shares than there are.
pub open spec fn valid_parameters(threshold: u8, shares_count: u8) -> bool {
    1 <= threshold <= shares_count
}

/// The share's parameters are valid and its id is one of the split's.
pub open spec fn valid_share(s: ShareView) -> bool {
    valid_parameters(s.threshold, s.shares_count) && 1 <= s.id <= s.shares_count
}

/// The views of a sequence of shares.
pub open spec fn views(shares: Seq<Share>) -> Seq<ShareView> {
    Seq::new(shares.len(), |i: int| shares[i]@)
}

/// Tells whether two byte strings are equal.
pub fn bytes_equal(a: &Vec<u8>, b: &Vec<u8>) -> (r: bool)
    ensures
        r == (a@ == b@),
{
    if a.len() != b.len() {
        return false;
    }
    let n = a.len();
    let mut i: usize = 0;
    while i < n
        invariant
            i <= n,
            n == a.len(),
            n == b.len(),
            forall|k: int| 0 <= k < i ==> a[k] == b[k],
        decreases n - i,
    {
        if a[i] != b[i] {
            return false;
        }
        i = i + 1;
    }
    assert(a@ =~= b@);
    true
}

/// Copies a byte string.
pub fn copy_bytes(a: &Vec<u8>) -> (r: Vec<u8>)
    ensures
        r@ == a@,
{
    let n = a.len();
    let mut out: Vec<u8> = Vec::with_capacity(n);
    let mut i: usize = 0;
    while i < n
        invariant
            i <= n,
            n == a.len(),
            out@ == a@.subrange(0, i as int),
        decreases n - i,
    {
        out.push(a[i]);
        assert(out@ =~= a@.subrange(0, i + 1));
        i = i + 1;
    }
    assert(a@.subrange(0, n as int) =~= a@);
    out
}

} // verus!
