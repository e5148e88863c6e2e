//! Reproducible splitting: the polynomial coefficients are drawn from
//! digests of the secret and the parameters, so that the same secret with
//! the same parameters always gives the same shares.
//!
//! Whoever can guess the secret can check the guess against a single
//! share. Shares made in this way say less for the secrecy of the secret
//! than those of a split with random coefficients.

use vstd::prelude::*;
use crate::digest::{digest, digest32};
use crate::share::{valid_parameters, views, Share};
use crate::split::{split_shares, split_with, valid_rows};
use crate::sss::MAX_SECRET_LEN;
use crate::wire::{be32, push_be32, push_range};

verus! {

/// What all coefficients of a split are drawn from: the digest of the
/// parameters and the secret.
pub open spec fn seed_of(secret: Seq<u8>, threshold: u8, shares_count: u8) -> Seq<u8> {
    digest32(seq![threshold, shares_count] + secret)
}

/// The `k`-th block of 32 coefficients of a row.
pub open spec fn stream_block(seed: Seq<u8>, row: u8, k: u32) -> Seq<u8> {
    digest32(seed + seq![row] + be32(k))
}

/// A row of coefficients.
pub open spec fn derived_row(seed: Seq<u8>, row: u8, len: nat) -> Seq<u8> {
    Seq::new(len, |c: int| stream_block(seed, row, (c / 32) as u32)[c % 32])
}

/// The rows of coefficients of a reproducible split.
pub open spec fn derived_rows(secret: Seq<u8>, threshold: u8, shares_count: u8) -> Seq<Seq<u8>> {
    Seq::new(
        (threshold - 1) as nat,
        |r: int| derived_row(seed_of(secret, threshold, shares_count), r as u8, secret.len()),
    )
}

/// Computes the seed of a split.
fn seed(secret: &Vec<u8>, threshold: u8, shares_count: u8) -> (r: Vec<u8>)
    ensures
        r@ == seed_of(secret@, threshold, shares_count),
        r@.len() == 32,
{
    let mut input: Vec<u8> = Vec::new();
    input.push(threshold);
    input.push(shares_count);
    push_range(&mut input, secret, 0, secret.len());
    assert(secret@.subrange(0, secret.len() as int) =~= secret@);
    assert(input@ =~= seq![threshold, shares_count] + secret@);
    digest(&input)
}

/// Computes a row of coefficients.
fn derive_row(seed: &Vec<u8>, row: u8, len: usize) -> (r: Vec<u8>)
    requires
        seed.len() == 32,
        len <= MAX_SECRET_LEN,
    ensures
        r@ == derived_row(seed@, row, len as nat),
{
    let mut out: Vec<u8> = Vec::with_capacity(len);
    let mut k: u32 = 0;
    while out.len() < len
        invariant
            out.len() <= len <= MAX_SECRET_LEN,
            seed.len() == 32,
            out.len() == 32 * k || out.len() == len,
            32 * k <= len + 32,
            forall|c: int|
                0 <= c < out.len() ==> out[c] == stream_block(seed@, row, (c / 32) as u32)[c % 32],
        decreases len - out.len(),
    {
        let mut input: Vec<u8> = Vec::new();
        push_range(&mut input, seed, 0, 32);
        input.push(row);
        push_be32(&mut input, k);
        assert(seed@.subrange(0, 32) =~= seed@);
        assert(input@ =~= seed@ + seq![row] + be32(k));
        let block = digest(&input);
        let ghost start = out.len();
        let mut i: usize = 0;
        while i < 32 && out.len() < len
            invariant
                i <= 32,
                start == 32 * k,
                out.len() == start + i,
                out.len() <= len <= MAX_SECRET_LEN,
                block@ == stream_block(seed@, row, k),
                block@.len() == 32,
                forall|c: int|
                    0 <= c < out.len() ==> out[c] == stream_block(seed@, row, (c / 32) as u32)[c
                        % 32],
            decreases 32 - i,
        {
            out.push(block[i]);
            i = i + 1;
        }
        k = k + 1;
    }
    assert(out@ =~= derived_row(seed@, row, len as nat));
    out
}

/// The rows of a reproducible split are as many and as long as a split
/// needs them.
pub proof fn lemma_derived_rows_fit(secret: Seq<u8>, threshold: u8, shares_count: u8)
    requires
        valid_parameters(threshold, shares_count),
    ensures
        valid_rows(derived_rows(secret, threshold, shares_count), threshold, secret.len()),
{
}

/// Computes the rows of coefficients of a reproducible split.
pub fn coefficient_rows(threshold: u8, shares_count: u8, secret: &Vec<u8>) -> (rows: Vec<Vec<u8>>)
    requires
        valid_parameters(threshold, shares_count),
        secret.len() <= MAX_SECRET_LEN,
    ensures
        rows.deep_view() == derived_rows(secret@, threshold, shares_count),
        valid_rows(rows.deep_view(), threshold, secret@.len()),
{
    let base = seed(secret, threshold, shares_count);
    let count: u8 = threshold - 1;
    let mut rows: Vec<Vec<u8>> = Vec::with_capacity(count as usize);
    let mut r: u8 = 0;
    while r < count
        invariant
            r <= count,
            count == threshold - 1,
            base@ == seed_of(secret@, threshold, shares_count),
            base.len() == 32,
            secret.len() <= MAX_SECRET_LEN,
            rows.len() == r,
            forall|k: int|
                0 <= k < r ==> (#[trigger] rows[k])@ == derived_row(
                    base@,
                    k as u8,
                    secret@.len(),
                ),
        decreases count - r,
    {
        let row = derive_row(&base, r, secret.len());
        rows.push(row);
        r = r + 1;
    }
    assert(rows.deep_view() =~= derived_rows(secret@, threshold, shares_count)) by {
        assert forall|k: int| 0 <= k < rows.len() implies rows.deep_view()[k] == derived_rows(
            secret@,
            threshold,
            shares_count,
        )[k] by {
            assert(rows.deep_view()[k] == rows[k]@);
        }
    }
    rows
}

/// Splits a secret into `shares_count` unsigned shares of which any
/// `threshold` recover it. The shares are a function of the arguments
/// alone, and come by ascending id from 1.
pub fn split_secret(threshold: u8, shares_count: u8, secret: &Vec<u8>) -> (shares: Vec<Share>)
    requires
        valid_parameters(threshold, shares_count),
        secret.len() <= MAX_SECRET_LEN,
    ensures
        shares.len() == shares_count,
        views(shares@) == split_shares(
            secret@,
            derived_rows(secret@, threshold, shares_count),
            threshold,
            shares_count,
            false,
        ),
{
    let rows = coefficient_rows(threshold, shares_count, secret);
    split_with(secret, &rows, threshold, shares_count, false)
}

} // verus!
