//! Splitting: one polynomial for each byte of the secret, evaluated at the
//! id of each share.

use vstd::prelude::*;
use crate::auth::{digest_of, digests_upto, set_signature};
use crate::dss::{coefficient_rows, derived_rows};
use crate::entropy::random_bytes;
use crate::error::SplitError;
use crate::gf256::multiply;
use crate::polynomial::poly_eval;
use crate::share::{copy_bytes, valid_parameters, views, Share, ShareView};
use crate::sss::MAX_SECRET_LEN;

verus! {

/// The polynomial of the byte at place `c`: that byte as its constant term,
/// then the byte at place `c` of each row of coefficients.
pub open spec fn byte_polynomial(secret: Seq<u8>, rows: Seq<Seq<u8>>, c: int) -> Seq<u8> {
    Seq::new(
        rows.len() + 1,
        |d: int|
            if d == 0 {
                secret[c]
            } else {
                rows[d - 1][c]
            },
    )
}

/// The data of the share with id `x`.
pub open spec fn share_data(secret: Seq<u8>, rows: Seq<Seq<u8>>, x: u8) -> Seq<u8> {
    Seq::new(secret.len(), |c: int| poly_eval(byte_polynomial(secret, rows, c), x))
}

/// There is one row of coefficients for each degree from 1 to
/// `threshold - 1`, and each row has one byte for each byte of the secret.
pub open spec fn valid_rows(rows: Seq<Seq<u8>>, threshold: u8, len: nat) -> bool {
    &&& rows.len() == threshold - 1
    &&& forall|r: int| 0 <= r < rows.len() ==> (#[trigger] rows[r]).len() == len
}

/// The unsigned share with the given id.
pub open spec fn plain_share(
    secret: Seq<u8>,
    rows: Seq<Seq<u8>>,
    threshold: u8,
    shares_count: u8,
    id: u8,
) -> ShareView {
    ShareView { id, threshold, shares_count, data: share_data(secret, rows, id), signature: None }
}

/// The unsigned shares of a split, by ascending id from 1.
pub open spec fn plain_shares(
    secret: Seq<u8>,
    rows: Seq<Seq<u8>>,
    threshold: u8,
    shares_count: u8,
) -> Seq<ShareView> {
    Seq::new(
        shares_count as nat,
        |i: int| plain_share(secret, rows, threshold, shares_count, (i + 1) as u8),
    )
}

/// The same shares, each with the signature of them all.
pub open spec fn signed(shares: Seq<ShareView>) -> Seq<ShareView> {
    Seq::new(
        shares.len(),
        |i: int|
            ShareView {
                id: shares[i].id,
                threshold: shares[i].threshold,
                shares_count: shares[i].shares_count,
                data: shares[i].data,
                signature: Some(set_signature(shares)),
            },
    )
}

/// The shares that a split with the given coefficients produces.
pub open spec fn split_shares(
    secret: Seq<u8>,
    rows: Seq<Seq<u8>>,
    threshold: u8,
    shares_count: u8,
    sign: bool,
) -> Seq<ShareView> {
    if sign {
        signed(plain_shares(secret, rows, threshold, shares_count))
    } else {
        plain_shares(secret, rows, threshold, shares_count)
    }
}

/// Evaluates the polynomial of the byte at place `c` at `x`.
fn evaluate_column(secret: &Vec<u8>, rows: &Vec<Vec<u8>>, c: usize, x: u8) -> (r: u8)
    requires
        c < secret.len(),
        rows.len() < 255,
        forall|r: int| 0 <= r < rows.len() ==> (#[trigger] rows[r]).len() == secret.len(),
    ensures
        r == poly_eval(byte_polynomial(secret@, rows.deep_view(), c as int), x),
{
    let ghost poly = byte_polynomial(secret@, rows.deep_view(), c as int);
    let top = rows.len();
    let mut acc: u8 = 0;
    let mut d: usize = top;
    assert(poly.subrange(top + 1, top + 1).len() == 0);
    while d > 0
        invariant
            d <= top,
            top == rows.len(),
            c < secret.len(),
            poly == byte_polynomial(secret@, rows.deep_view(), c as int),
            forall|r: int| 0 <= r < rows.len() ==> (#[trigger] rows[r]).len() == secret.len(),
            acc == poly_eval(poly.subrange(d + 1, top + 1), x),
        decreases d,
    {
        d = d - 1;
        proof {
            let here = poly.subrange(d + 1, top + 1);
            assert(here.drop_first() =~= poly.subrange(d + 2, top + 1));
            assert(here[0] == rows.deep_view()[d as int][c as int]);
            assert(rows.deep_view()[d as int] == rows[d as int]@);
        }
        let row = &rows[d];
        acc = row[c] ^ multiply(x, acc);
    }
    proof {
        assert(poly.drop_first() =~= poly.subrange(1, top + 1));
        assert(poly[0] == secret@[c as int]);
    }
    secret[c] ^ multiply(x, acc)
}

/// Computes the data of the share with id `x`.
fn evaluate_share(secret: &Vec<u8>, rows: &Vec<Vec<u8>>, x: u8) -> (r: Vec<u8>)
    requires
        rows.len() < 255,
        forall|r: int| 0 <= r < rows.len() ==> (#[trigger] rows[r]).len() == secret.len(),
    ensures
        r@ == share_data(secret@, rows.deep_view(), x),
{
    let n = secret.len();
    let mut data: Vec<u8> = Vec::with_capacity(n);
    let mut c: usize = 0;
    while c < n
        invariant
            c <= n,
            n == secret.len(),
            rows.len() < 255,
            forall|r: int| 0 <= r < rows.len() ==> (#[trigger] rows[r]).len() == secret.len(),
            data.len() == c,
            forall|k: int|
                0 <= k < c ==> data[k] == poly_eval(
                    byte_polynomial(secret@, rows.deep_view(), k),
                    x,
                ),
        decreases n - c,
    {
        let y = evaluate_column(secret, rows, c, x);
        data.push(y);
        c = c + 1;
    }
    assert(data@ =~= share_data(secret@, rows.deep_view(), x));
    data
}

/// Splits a secret with the given rows of polynomial coefficients: the
/// deterministic part of every split.
pub fn split_with(
    secret: &Vec<u8>,
    rows: &Vec<Vec<u8>>,
    threshold: u8,
    shares_count: u8,
    sign_shares: bool,
) -> (shares: Vec<Share>)
    requires
        valid_parameters(threshold, shares_count),
        valid_rows(rows.deep_view(), threshold, secret@.len()),
    ensures
        shares.len() == shares_count,
        views(shares@) == split_shares(
            secret@,
            rows.deep_view(),
            threshold,
            shares_count,
            sign_shares,
        ),
{
    let ghost plain = plain_shares(secret@, rows.deep_view(), threshold, shares_count);
    assert forall|r: int| 0 <= r < rows.len() implies (#[trigger] rows[r]).len()
        == secret.len() by {
        assert(rows.deep_view()[r] == rows[r]@);
    }
    let mut shares: Vec<Share> = Vec::with_capacity(shares_count as usize);
    let mut signature: Vec<u8> = Vec::new();
    let mut i: u8 = 0;
    while i < shares_count
        invariant
            i <= shares_count,
            rows.len() < 255,
            forall|r: int| 0 <= r < rows.len() ==> (#[trigger] rows[r]).len() == secret.len(),
            plain == plain_shares(secret@, rows.deep_view(), threshold, shares_count),
            shares.len() == i,
            forall|k: int| 0 <= k < i ==> (#[trigger] shares[k])@ == plain[k],
            sign_shares ==> signature@ == digests_upto(plain, i as nat),
        decreases shares_count - i,
    {
        let id: u8 = i + 1;
        let data = evaluate_share(secret, rows, id);
        if sign_shares {
            let mut leaf = digest_of(id, threshold, shares_count, &data);
            signature.append(&mut leaf);
        }
        shares.push(Share { id, threshold, shares_count, data, signature: None });
        i = i + 1;
    }
    assert(views(shares@) =~= plain);
    if !sign_shares {
        return shares;
    }
    let mut out: Vec<Share> = Vec::with_capacity(shares_count as usize);
    let mut j: usize = 0;
    while j < shares.len()
        invariant
            j <= shares.len(),
            shares.len() == plain.len(),
            views(shares@) == plain,
            signature@ == set_signature(plain),
            out.len() == j,
            forall|k: int| 0 <= k < j ==> (#[trigger] out[k])@ == signed(plain)[k],
        decreases shares.len() - j,
    {
        let s = &shares[j];
        assert(s@ == plain[j as int]);
        out.push(
            Share {
                id: s.id,
                threshold: s.threshold,
                shares_count: s.shares_count,
                data: copy_bytes(&s.data),
                signature: Some(copy_bytes(&signature)),
            },
        );
        j = j + 1;
    }
    assert(views(out@) =~= signed(plain));
    out
}

/// Draws one row of random coefficients for each degree.
pub(crate) fn random_rows(threshold: u8, len: usize) -> (r: Option<Vec<Vec<u8>>>)
    requires
        threshold >= 1,
    ensures
        r matches Some(rows) ==> valid_rows(rows.deep_view(), threshold, len as nat),
        threshold == 1 ==> r is Some,
{
    let count: u8 = threshold - 1;
    let mut rows: Vec<Vec<u8>> = Vec::with_capacity(count as usize);
    let mut i: u8 = 0;
    while i < count
        invariant
            i <= count,
            count == threshold - 1,
            rows.len() == i,
            forall|r: int| 0 <= r < i ==> (#[trigger] rows[r]).len() == len,
        decreases count - i,
    {
        match random_bytes(len) {
            Some(row) => {
                rows.push(row);
            },
            None => {
                return None;
            },
        }
        i = i + 1;
    }
    assert forall|r: int| 0 <= r < rows.len() implies (#[trigger] rows.deep_view()[r]).len()
        == len by {
        assert(rows.deep_view()[r] == rows[r]@);
    }
    Some(rows)
}

/// Splits a secret into `shares_count` shares of which any `threshold`
/// recover it. The coefficients come from the system's random source or,
/// for a reproducible split, from digests of the secret and the parameters:
/// the shares are then a function of the arguments alone.
pub fn split(
    secret: &Vec<u8>,
    threshold: u8,
    shares_count: u8,
    sign: bool,
    reproducible: bool,
) -> (r: Result<Vec<Share>, SplitError>)
    requires
        secret.len() <= MAX_SECRET_LEN,
    ensures
        r == Err::<Vec<Share>, SplitError>(SplitError::InvalidParameters) <==> !valid_parameters(
            threshold,
            shares_count,
        ),
        threshold == 1 && valid_parameters(threshold, shares_count) ==> r is Ok,
        reproducible && valid_parameters(threshold, shares_count) ==> r is Ok && views(
            r.unwrap()@,
        ) == split_shares(
            secret@,
            derived_rows(secret@, threshold, shares_count),
            threshold,
            shares_count,
            sign,
        ),
        r matches Ok(shares) ==> shares.len() == shares_count,
        r matches Ok(shares) ==> exists|rows: Seq<Seq<u8>>|
            valid_rows(rows, threshold, secret@.len()) && views(shares@) == #[trigger] split_shares(
                secret@,
                rows,
                threshold,
                shares_count,
                sign,
            ),
{
    if threshold < 1 || threshold > shares_count {
        return Err(SplitError::InvalidParameters);
    }
    if reproducible {
        let rows = coefficient_rows(threshold, shares_count, secret);
        Ok(split_with(secret, &rows, threshold, shares_count, sign))
    } else {
        match random_rows(threshold, secret.len()) {
            None => Err(SplitError::EntropyUnavailable),
            Some(rows) => Ok(split_with(secret, &rows, threshold, shares_count, sign)),
        }
    }
}

} // verus!
