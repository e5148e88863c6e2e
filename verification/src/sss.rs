//! Splitting a secret into shares written as text, and recovering it from
//! such texts.

use vstd::prelude::*;
use crate::auth::lemma_digests_upto;
use crate::codec::{decode_share, encode_share, parse_share, share_text, MAX_DATA_LEN};
use crate::error::{RecoveryError, RecoveryFailure, SplitError};
use crate::recover::{
    first_from, lemma_first_from_none, lemma_first_from_some, outcome_view, recover_shares,
    recovery_outcome,
};
use crate::share::{valid_parameters, views, Share, ShareView};
use crate::split::{plain_shares, random_rows, split_shares, split_with, valid_rows};

verus! {

/// The longest secret that is split.
pub const MAX_SECRET_LEN: usize = 0x2fff_0000;

/// The texts of a sequence of shares.
pub open spec fn texts_of(shares: Seq<ShareView>) -> Seq<Seq<char>> {
    Seq::new(shares.len(), |i: int| share_text(shares[i]))
}

/// The texts are those of the shares, and each reads back as its share.
pub open spec fn written(texts: Seq<Seq<char>>, shares: Seq<ShareView>) -> bool {
    &&& texts == texts_of(shares)
    &&& forall|i: int| 0 <= i < shares.len() ==> parse_share(#[trigger] texts[i]) == Some(shares[i])
}

/// The text at this place is no share.
pub open spec fn unreadable_at(texts: Seq<Seq<char>>) -> spec_fn(int) -> bool {
    |i: int| parse_share(texts[i]) is None
}

/// The shares that the texts stand for.
pub open spec fn shares_read(texts: Seq<Seq<char>>) -> Seq<ShareView> {
    Seq::new(texts.len(), |i: int| parse_share(texts[i]).unwrap())
}

/// What a recovery from the given texts returns: the place of the first
/// text that is no share, or else what the recovery from the shares gives.
pub open spec fn text_recovery_outcome(texts: Seq<Seq<char>>, verify: bool) -> Result<
    Seq<u8>,
    RecoveryFailure,
> {
    match first_from(unreadable_at(texts), 0, texts.len() as int) {
        Some(i) => Err(RecoveryFailure::ShareParsingError(i as usize)),
        None => recovery_outcome(shares_read(texts), verify),
    }
}

/// Tells whether there is one row for each degree, each as long as the
/// secret.
fn rows_fit(rows: &Vec<Vec<u8>>, threshold: u8, len: usize) -> (r: bool)
    requires
        threshold >= 1,
    ensures
        r == valid_rows(rows.deep_view(), threshold, len as nat),
{
    if rows.len() != (threshold - 1) as usize {
        return false;
    }
    let n = rows.len();
    let mut i: usize = 0;
    while i < n
        invariant
            i <= n,
            n == rows.len(),
            forall|r: int| 0 <= r < i ==> (#[trigger] rows.deep_view()[r]).len() == len,
        decreases n - i,
    {
        assert(rows.deep_view()[i as int] == rows[i as int]@);
        if rows[i].len() != len {
            return false;
        }
        i = i + 1;
    }
    true
}

/// Writes each share as text.
fn write_shares(shares: &Vec<Share>, Ghost(len): Ghost<nat>) -> (texts: Vec<String>)
    requires
        len <= MAX_DATA_LEN,
        forall|i: int|
            0 <= i < shares.len() ==> {
                &&& crate::share::valid_share(#[trigger] shares[i]@)
                &&& shares[i]@.data.len() == len
                &&& (shares[i]@.signature matches Some(s) ==> s.len() <= 8160)
            },
    ensures
        texts.len() == shares.len(),
        written(texts.deep_view(), views(shares@)),
{
    let n = shares.len();
    let mut texts: Vec<String> = Vec::with_capacity(n);
    let mut i: usize = 0;
    while i < n
        invariant
            i <= n,
            n == shares.len(),
            len <= MAX_DATA_LEN,
            forall|i: int|
                0 <= i < shares.len() ==> {
                    &&& crate::share::valid_share(#[trigger] shares[i]@)
                    &&& shares[i]@.data.len() == len
                    &&& (shares[i]@.signature matches Some(s) ==> s.len() <= 8160)
                },
            texts.len() == i,
            forall|k: int|
                0 <= k < i ==> (#[trigger] texts[k])@ == share_text(shares[k]@) && parse_share(
                    texts[k]@,
                ) == Some(shares[k]@),
        decreases n - i,
    {
        let share = &shares[i];
        assert(crate::share::valid_share(share@));
        let text = encode_share(share);
        texts.push(text);
        i = i + 1;
    }
    assert(texts.deep_view() =~= texts_of(views(shares@)));
    texts
}

/// Splits a secret with the given rows of polynomial coefficients, one row
/// for each degree from 1 to `threshold - 1` and each as long as the secret.
/// The shares come by ascending id from 1.
pub fn split_secret_with(
    threshold: u8,
    shares_count: u8,
    secret: &Vec<u8>,
    rows: &Vec<Vec<u8>>,
    sign_shares: bool,
) -> (r: Result<Vec<String>, SplitError>)
    requires
        secret.len() <= MAX_SECRET_LEN,
    ensures
        r is Ok <==> valid_parameters(threshold, shares_count) && valid_rows(
            rows.deep_view(),
            threshold,
            secret@.len(),
        ),
        r matches Err(e) ==> e == SplitError::InvalidParameters,
        r matches Ok(texts) ==> texts.len() == shares_count && written(
            texts.deep_view(),
            split_shares(secret@, rows.deep_view(), threshold, shares_count, sign_shares),
        ),
{
    if threshold < 1 || threshold > shares_count {
        return Err(SplitError::InvalidParameters);
    }
    if !rows_fit(rows, threshold, secret.len()) {
        return Err(SplitError::InvalidParameters);
    }
    let shares = split_with(secret, rows, threshold, shares_count, sign_shares);
    proof {
        let plain = plain_shares(secret@, rows.deep_view(), threshold, shares_count);
        let all = split_shares(secret@, rows.deep_view(), threshold, shares_count, sign_shares);
        lemma_digests_upto(plain, plain.len());
        assert(plain.len() == shares_count);
        assert(all.len() == shares_count);
        assert(views(shares@).len() == shares.len());
        assert forall|i: int| 0 <= i < shares.len() implies {
            &&& crate::share::valid_share(#[trigger] shares[i]@)
            &&& shares[i]@.data.len() == secret@.len()
            &&& (shares[i]@.signature matches Some(s) ==> s.len() <= 8160)
        } by {
            assert(shares[i]@ == views(shares@)[i]);
            assert(all[i].data == plain[i].data);
            assert(all[i].id == plain[i].id);
        }
    }
    Ok(write_shares(&shares, Ghost(secret@.len())))
}

/// Splits a secret into `shares_count` shares of which any `threshold`
/// recover it, with coefficients from the system's random source.
pub fn split_secret(threshold: u8, shares_count: u8, secret: &Vec<u8>, sign_shares: bool) -> (r:
    Result<Vec<String>, SplitError>)
    requires
        secret.len() <= MAX_SECRET_LEN,
    ensures
        r == Err::<Vec<String>, SplitError>(SplitError::InvalidParameters) <==> !valid_parameters(
            threshold,
            shares_count,
        ),
        threshold == 1 && valid_parameters(threshold, shares_count) ==> r is Ok,
        r matches Ok(texts) ==> texts.len() == shares_count,
        r matches Ok(texts) ==> exists|rows: Seq<Seq<u8>>|
            valid_rows(rows, threshold, secret@.len()) && written(
                texts.deep_view(),
                #[trigger] split_shares(secret@, rows, threshold, shares_count, sign_shares),
            ),
{
    if threshold < 1 || threshold > shares_count {
        return Err(SplitError::InvalidParameters);
    }
    match random_rows(threshold, secret.len()) {
        None => Err(SplitError::EntropyUnavailable),
        Some(rows) => split_secret_with(threshold, shares_count, secret, &rows, sign_shares),
    }
}

/// Recovers a secret from the texts of shares.
pub fn recover_secret(shares: &Vec<String>, verify_signatures: bool) -> (r: Result<
    Vec<u8>,
    RecoveryError,
>)
    ensures
        outcome_view(r) == text_recovery_outcome(shares.deep_view(), verify_signatures),
{
    let ghost texts = shares.deep_view();
    let n = shares.len();
    let mut read: Vec<Share> = Vec::with_capacity(n);
    let mut i: usize = 0;
    while i < n
        invariant
            i <= n,
            n == shares.len(),
            texts == shares.deep_view(),
            read.len() == i,
            forall|k: int| 0 <= k < i ==> !#[trigger] unreadable_at(texts)(k),
            forall|k: int| 0 <= k < i ==> parse_share(texts[k]) == Some((#[trigger] read[k])@),
        decreases n - i,
    {
        assert(texts[i as int] == shares[i as int]@);
        match decode_share(shares[i].as_str()) {
            Some(share) => {
                read.push(share);
            },
            None => {
                proof {
                    lemma_first_from_some(unreadable_at(texts), 0, i as int, n as int);
                }
                return Err(RecoveryError::ShareParsingError(i));
            },
        }
        i = i + 1;
    }
    proof {
        lemma_first_from_none(unreadable_at(texts), 0, n as int);
        assert(views(read@) =~= shares_read(texts));
    }
    recover_shares(&read, verify_signatures)
}

} // verus!
