//! Recovery from shares: the checks that a set of shares has to pass, in
//! their order, and the reconstruction of the secret from a quorum.

use vstd::prelude::*;
use crate::auth::{check_signature, signature_fault};
use crate::error::{GroupView, RecoveryError, RecoveryFailure, ShareGroup};
use crate::gf256::multiply;
use crate::polynomial::{gf_sum, interp_term, interpolate, lagrange_weights};
use crate::share::{bytes_equal, valid_share, views, Share, ShareView};

verus! {

/// The first place from `k` on, and below `n`, at which `p` holds.
pub open spec fn first_from(p: spec_fn(int) -> bool, k: int, n: int) -> Option<int>
    decreases n - k,
{
    if k >= n {
        None
    } else if p(k) {
        Some(k)
    } else {
        first_from(p, k + 1, n)
    }
}

/// The share at this place is not valid.
pub open spec fn invalid_at(shares: Seq<ShareView>) -> spec_fn(int) -> bool {
    |i: int| !valid_share(shares[i])
}

/// The data of the share at this place is not as long as that of the first.
pub open spec fn length_differs_at(shares: Seq<ShareView>) -> spec_fn(int) -> bool {
    |i: int| shares[i].data.len() != shares[0].data.len()
}

/// The share at this place has the id of the share at `j`.
pub open spec fn same_id_at(shares: Seq<ShareView>, j: int) -> spec_fn(int) -> bool {
    |i: int| shares[i].id == shares[j].id
}

/// The share at this place has the id of a share before it.
pub open spec fn repeats_at(shares: Seq<ShareView>) -> spec_fn(int) -> bool {
    |j: int| first_from(same_id_at(shares, j), 0, j) is Some
}

/// The signature of the share at this place does not hold.
pub open spec fn unverified_at(shares: Seq<ShareView>) -> spec_fn(int) -> bool {
    |j: int| signature_fault(shares[j], shares[0].signature) is Some
}

/// The parameters of the split that a share says it is from.
pub open spec fn key_of(s: ShareView) -> (u8, u8) {
    (s.threshold, s.shares_count)
}

/// All shares say that they are from a split with the same parameters.
pub open spec fn uniform(shares: Seq<ShareView>) -> bool {
    forall|i: int| 0 <= i < shares.len() ==> key_of(#[trigger] shares[i]) == key_of(shares[0])
}

/// The different parameters among the first `k` shares, each where it
/// first occurs.
pub open spec fn keys_upto(shares: Seq<ShareView>, k: nat) -> Seq<(u8, u8)>
    decreases k,
{
    if k == 0 {
        Seq::empty()
    } else {
        let before = keys_upto(shares, (k - 1) as nat);
        let key = key_of(shares[k - 1]);
        if before.contains(key) {
            before
        } else {
            before.push(key)
        }
    }
}

/// The ids of those among the first `k` shares that have the given
/// parameters, in their order.
pub open spec fn ids_upto(shares: Seq<ShareView>, key: (u8, u8), k: nat) -> Seq<u8>
    decreases k,
{
    if k == 0 {
        Seq::empty()
    } else {
        let before = ids_upto(shares, key, (k - 1) as nat);
        if key_of(shares[k - 1]) == key {
            before.push(shares[k - 1].id)
        } else {
            before
        }
    }
}

/// The group of the shares with the given parameters.
pub open spec fn group_of(shares: Seq<ShareView>, key: (u8, u8)) -> GroupView {
    GroupView {
        threshold: key.0,
        shares_count: key.1,
        share_ids: ids_upto(shares, key, shares.len()),
    }
}

/// The shares grouped by their parameters: the groups in the order in which
/// their parameters first occur, the ids in each in the order of the shares.
pub open spec fn partition(shares: Seq<ShareView>) -> Seq<GroupView> {
    let keys = keys_upto(shares, shares.len());
    Seq::new(keys.len(), |g: int| group_of(shares, keys[g]))
}

/// What the two shares with the id of the share at `j` report.
pub open spec fn duplicate_failure(shares: Seq<ShareView>, j: int) -> RecoveryFailure {
    let i = first_from(same_id_at(shares, j), 0, j).unwrap();
    if shares[i].data == shares[j].data {
        RecoveryFailure::DuplicateShareId(shares[j].id)
    } else {
        RecoveryFailure::DuplicateShareData(shares[j].id)
    }
}

/// The ids of the shares.
pub open spec fn share_ids(shares: Seq<ShareView>) -> Seq<u8> {
    Seq::new(shares.len(), |j: int| shares[j].id)
}

/// The bytes at place `c` of the shares.
pub open spec fn column(shares: Seq<ShareView>, c: int) -> Seq<u8> {
    Seq::new(shares.len(), |j: int| shares[j].data[c])
}

/// The secret that the shares interpolate to, byte by byte.
pub open spec fn reconstruct(shares: Seq<ShareView>) -> Seq<u8> {
    Seq::new(
        shares[0].data.len(),
        |c: int| interpolate(share_ids(shares), column(shares, c)),
    )
}

/// What a recovery from the given shares returns.
///
/// The checks come in this order, and the first that fails decides: there
/// is a share; every share is valid; all shares have the same parameters;
/// no id occurs twice; where verification is asked for, every signature
/// holds; there are as many shares as the threshold; all shares have data
/// of one length. The secret is then interpolated from the first
/// `threshold` shares.
pub open spec fn recovery_outcome(shares: Seq<ShareView>, verify: bool) -> Result<
    Seq<u8>,
    RecoveryFailure,
> {
    let n = shares.len() as int;
    if n == 0 {
        Err(RecoveryFailure::InsufficientShares { have: 0, need: 1 })
    } else if first_from(invalid_at(shares), 0, n) is Some {
        Err(
            RecoveryFailure::ShareParsingError(
                first_from(invalid_at(shares), 0, n).unwrap() as usize,
            ),
        )
    } else if !uniform(shares) {
        Err(RecoveryFailure::IncompatibleSets(partition(shares)))
    } else if first_from(repeats_at(shares), 0, n) is Some {
        Err(duplicate_failure(shares, first_from(repeats_at(shares), 0, n).unwrap()))
    } else if verify && first_from(unverified_at(shares), 0, n) is Some {
        let j = first_from(unverified_at(shares), 0, n).unwrap();
        Err(signature_fault(shares[j], shares[0].signature).unwrap())
    } else if n < shares[0].threshold {
        Err(RecoveryFailure::InsufficientShares { have: n as u8, need: shares[0].threshold })
    } else if first_from(length_differs_at(shares), 0, n) is Some {
        Err(
            RecoveryFailure::ShareParsingError(
                first_from(length_differs_at(shares), 0, n).unwrap() as usize,
            ),
        )
    } else {
        Ok(reconstruct(shares.take(shares[0].threshold as int)))
    }
}

/// The mathematical value of what a recovery returned.
pub open spec fn outcome_view(r: Result<Vec<u8>, RecoveryError>) -> Result<
    Seq<u8>,
    RecoveryFailure,
> {
    match r {
        Ok(secret) => Ok(secret@),
        Err(e) => Err(e@),
    }
}

pub proof fn lemma_first_from_none(p: spec_fn(int) -> bool, k: int, n: int)
    requires
        forall|i: int| k <= i < n ==> !#[trigger] p(i),
    ensures
        first_from(p, k, n) is None,
    decreases n - k,
{
    if k < n {
        lemma_first_from_none(p, k + 1, n);
    }
}

pub proof fn lemma_first_from_some(p: spec_fn(int) -> bool, k: int, j: int, n: int)
    requires
        k <= j < n,
        p(j),
        forall|i: int| k <= i < j ==> !#[trigger] p(i),
    ensures
        first_from(p, k, n) == Some(j),
    decreases j - k,
{
    if k < j {
        lemma_first_from_some(p, k + 1, j, n);
    }
}

/// `first_from` gives a place at which `p` holds and before which, from
/// `k` on, it does not; or none, where `p` holds nowhere from `k` on.
pub proof fn lemma_first_from(p: spec_fn(int) -> bool, k: int, n: int)
    ensures
        match first_from(p, k, n) {
            Some(j) => k <= j < n && p(j) && forall|i: int| k <= i < j ==> !#[trigger] p(i),
            None => forall|i: int| k <= i < n ==> !#[trigger] p(i),
        },
    decreases n - k,
{
    if k < n {
        lemma_first_from(p, k + 1, n);
    }
}

/// Tells whether a share is valid.
pub fn share_is_valid(s: &Share) -> (r: bool)
    ensures
        r == valid_share(s@),
{
    1 <= s.threshold && s.threshold <= s.shares_count && 1 <= s.id && s.id <= s.shares_count
}

fn find_invalid(shares: &Vec<Share>) -> (r: Option<usize>)
    ensures
        match r {
            Some(i) => Some(i as int),
            None => None,
        } == first_from(invalid_at(views(shares@)), 0, shares.len() as int),
{
    let n = shares.len();
    let ghost sv = views(shares@);
    let mut i: usize = 0;
    while i < n
        invariant
            i <= n,
            n == shares.len(),
            sv == views(shares@),
            forall|k: int| 0 <= k < i ==> !#[trigger] invalid_at(sv)(k),
        decreases n - i,
    {
        if !share_is_valid(&shares[i]) {
            proof {
                lemma_first_from_some(invalid_at(sv), 0, i as int, n as int);
            }
            return Some(i);
        }
        i = i + 1;
    }
    proof {
        lemma_first_from_none(invalid_at(sv), 0, n as int);
    }
    None
}

fn is_uniform(shares: &Vec<Share>) -> (r: bool)
    requires
        shares.len() > 0,
    ensures
        r == uniform(views(shares@)),
{
    let n = shares.len();
    let ghost sv = views(shares@);
    let mut i: usize = 1;
    while i < n
        invariant
            1 <= i <= n,
            n == shares.len(),
            sv == views(shares@),
            forall|k: int| 0 <= k < i ==> key_of(#[trigger] sv[k]) == key_of(sv[0]),
        decreases n - i,
    {
        if shares[i].threshold != shares[0].threshold || shares[i].shares_count
            != shares[0].shares_count {
            assert(key_of(sv[i as int]) != key_of(sv[0]));
            return false;
        }
        i = i + 1;
    }
    true
}

fn collect_keys(shares: &Vec<Share>) -> (keys: Vec<(u8, u8)>)
    ensures
        keys@ == keys_upto(views(shares@), shares.len() as nat),
{
    let n = shares.len();
    let ghost sv = views(shares@);
    let mut keys: Vec<(u8, u8)> = Vec::new();
    let mut i: usize = 0;
    while i < n
        invariant
            i <= n,
            n == shares.len(),
            sv == views(shares@),
            keys@ == keys_upto(sv, i as nat),
        decreases n - i,
    {
        let threshold = shares[i].threshold;
        let shares_count = shares[i].shares_count;
        let mut known = false;
        let mut k: usize = 0;
        while k < keys.len()
            invariant
                k <= keys.len(),
                known == exists|l: int| 0 <= l < k && keys[l] == (threshold, shares_count),
            decreases keys.len() - k,
        {
            if keys[k].0 == threshold && keys[k].1 == shares_count {
                known = true;
            }
            k = k + 1;
        }
        assert(known == keys@.contains((threshold, shares_count)));
        assert(key_of(sv[i as int]) == (threshold, shares_count));
        if !known {
            keys.push((threshold, shares_count));
        }
        i = i + 1;
    }
    keys
}

fn collect_ids(shares: &Vec<Share>, threshold: u8, shares_count: u8) -> (ids: Vec<u8>)
    ensures
        ids@ == ids_upto(views(shares@), (threshold, shares_count), shares.len() as nat),
{
    let n = shares.len();
    let ghost sv = views(shares@);
    let mut ids: Vec<u8> = Vec::new();
    let mut i: usize = 0;
    while i < n
        invariant
            i <= n,
            n == shares.len(),
            sv == views(shares@),
            ids@ == ids_upto(sv, (threshold, shares_count), i as nat),
        decreases n - i,
    {
        assert(key_of(sv[i as int]) == (shares[i as int].threshold, shares[i as int].shares_count));
        if shares[i].threshold == threshold && shares[i].shares_count == shares_count {
            ids.push(shares[i].id);
        }
        i = i + 1;
    }
    ids
}

/// Groups the shares by their parameters.
pub fn partition_shares(shares: &Vec<Share>) -> (groups: Vec<ShareGroup>)
    ensures
        groups.deep_view() == partition(views(shares@)),
{
    let ghost sv = views(shares@);
    let keys = collect_keys(shares);
    let mut groups: Vec<ShareGroup> = Vec::with_capacity(keys.len());
    let mut g: usize = 0;
    while g < keys.len()
        invariant
            g <= keys.len(),
            sv == views(shares@),
            keys@ == keys_upto(sv, sv.len()),
            groups.len() == g,
            forall|k: int| 0 <= k < g ==> (#[trigger] groups[k])@ == group_of(sv, keys[k]),
        decreases keys.len() - g,
    {
        let threshold = keys[g].0;
        let shares_count = keys[g].1;
        let share_ids = collect_ids(shares, threshold, shares_count);
        groups.push(ShareGroup { threshold, shares_count, share_ids });
        g = g + 1;
    }
    assert(groups.deep_view() =~= partition(sv));
    groups
}

fn find_length_mismatch(shares: &Vec<Share>) -> (r: Option<usize>)
    requires
        shares.len() > 0,
    ensures
        match r {
            Some(i) => Some(i as int),
            None => None,
        } == first_from(length_differs_at(views(shares@)), 0, shares.len() as int),
{
    let n = shares.len();
    let ghost sv = views(shares@);
    let mut i: usize = 0;
    while i < n
        invariant
            i <= n,
            0 < n == shares.len(),
            sv == views(shares@),
            forall|k: int| 0 <= k < i ==> !#[trigger] length_differs_at(sv)(k),
        decreases n - i,
    {
        if shares[i].data.len() != shares[0].data.len() {
            proof {
                lemma_first_from_some(length_differs_at(sv), 0, i as int, n as int);
            }
            return Some(i);
        }
        i = i + 1;
    }
    proof {
        lemma_first_from_none(length_differs_at(sv), 0, n as int);
    }
    None
}

fn find_duplicate(shares: &Vec<Share>) -> (r: Option<RecoveryError>)
    ensures
        match first_from(repeats_at(views(shares@)), 0, shares.len() as int) {
            Some(j) => r is Some && r.unwrap()@ == duplicate_failure(views(shares@), j),
            None => r is None,
        },
{
    let n = shares.len();
    let ghost sv = views(shares@);
    let mut j: usize = 0;
    while j < n
        invariant
            j <= n,
            n == shares.len(),
            sv == views(shares@),
            forall|k: int| 0 <= k < j ==> !#[trigger] repeats_at(sv)(k),
        decreases n - j,
    {
        let mut i: usize = 0;
        while i < j
            invariant
                i <= j < n,
                n == shares.len(),
                sv == views(shares@),
                forall|k: int| 0 <= k < j ==> !#[trigger] repeats_at(sv)(k),
                forall|k: int| 0 <= k < i ==> !#[trigger] same_id_at(sv, j as int)(k),
            decreases j - i,
        {
            if shares[i].id == shares[j].id {
                proof {
                    lemma_first_from_some(same_id_at(sv, j as int), 0, i as int, j as int);
                    assert(repeats_at(sv)(j as int));
                    lemma_first_from_some(repeats_at(sv), 0, j as int, n as int);
                }
                if bytes_equal(&shares[i].data, &shares[j].data) {
                    return Some(RecoveryError::DuplicateShareId(shares[j].id));
                } else {
                    return Some(RecoveryError::DuplicateShareData(shares[j].id));
                }
            }
            i = i + 1;
        }
        proof {
            lemma_first_from_none(same_id_at(sv, j as int), 0, j as int);
        }
        j = j + 1;
    }
    proof {
        lemma_first_from_none(repeats_at(sv), 0, n as int);
    }
    None
}

fn find_signature_fault(shares: &Vec<Share>) -> (r: Option<RecoveryError>)
    requires
        shares.len() > 0,
        forall|i: int| 0 <= i < shares.len() ==> valid_share(#[trigger] views(shares@)[i]),
    ensures
        match first_from(unverified_at(views(shares@)), 0, shares.len() as int) {
            Some(j) => r is Some && Some(r.unwrap()@) == signature_fault(
                views(shares@)[j],
                views(shares@)[0].signature,
            ),
            None => r is None,
        },
{
    let n = shares.len();
    let ghost sv = views(shares@);
    let mut j: usize = 0;
    while j < n
        invariant
            j <= n,
            0 < n == shares.len(),
            sv == views(shares@),
            forall|i: int| 0 <= i < shares.len() ==> valid_share(#[trigger] sv[i]),
            forall|k: int| 0 <= k < j ==> !#[trigger] unverified_at(sv)(k),
        decreases n - j,
    {
        assert(valid_share(sv[j as int]));
        let fault = check_signature(&shares[j], &shares[0].signature);
        if fault.is_some() {
            proof {
                assert(unverified_at(sv)(j as int));
                lemma_first_from_some(unverified_at(sv), 0, j as int, n as int);
            }
            return fault;
        }
        j = j + 1;
    }
    proof {
        lemma_first_from_none(unverified_at(sv), 0, n as int);
    }
    None
}

/// Interpolates the secret from the first `quorum` shares.
fn reconstruct_secret(shares: &Vec<Share>, quorum: usize) -> (secret: Vec<u8>)
    requires
        1 <= quorum <= shares.len(),
        forall|i: int|
            0 <= i < shares.len() ==> (#[trigger] shares[i]).data.len() == shares[0].data.len(),
    ensures
        secret@ == reconstruct(views(shares@).take(quorum as int)),
{
    let ghost chosen = views(shares@).take(quorum as int);
    let mut xs: Vec<u8> = Vec::with_capacity(quorum);
    let mut j: usize = 0;
    while j < quorum
        invariant
            j <= quorum <= shares.len(),
            chosen == views(shares@).take(quorum as int),
            xs.len() == j,
            forall|k: int| 0 <= k < j ==> xs[k] == chosen[k].id,
        decreases quorum - j,
    {
        xs.push(shares[j].id);
        j = j + 1;
    }
    assert(xs@ =~= share_ids(chosen));
    let weights = lagrange_weights(&xs);
    let len = shares[0].data.len();
    let mut secret: Vec<u8> = Vec::with_capacity(len);
    let mut c: usize = 0;
    while c < len
        invariant
            c <= len,
            len == shares[0].data.len(),
            1 <= quorum <= shares.len(),
            forall|i: int|
                0 <= i < shares.len() ==> (#[trigger] shares[i]).data.len()
                    == shares[0].data.len(),
            chosen == views(shares@).take(quorum as int),
            xs@ == share_ids(chosen),
            weights.len() == quorum,
            forall|k: int| 0 <= k < quorum ==> weights[k] == crate::polynomial::weight(xs@, k),
            secret.len() == c,
            forall|k: int|
                0 <= k < c ==> secret[k] == interpolate(share_ids(chosen), column(chosen, k)),
        decreases len - c,
    {
        let ghost ys = column(chosen, c as int);
        let mut acc: u8 = 0;
        let mut k: usize = 0;
        while k < quorum
            invariant
                k <= quorum <= shares.len(),
                c < len,
                len == shares[0].data.len(),
                forall|i: int|
                    0 <= i < shares.len() ==> (#[trigger] shares[i]).data.len()
                        == shares[0].data.len(),
                chosen == views(shares@).take(quorum as int),
                xs@ == share_ids(chosen),
                ys == column(chosen, c as int),
                weights.len() == quorum,
                forall|i: int|
                    0 <= i < quorum ==> weights[i] == crate::polynomial::weight(xs@, i),
                acc == gf_sum(interp_term(xs@, ys), k as nat),
            decreases quorum - k,
        {
            let share = &shares[k];
            assert(ys[k as int] == share.data[c as int]);
            acc = acc ^ multiply(share.data[c], weights[k]);
            k = k + 1;
        }
        secret.push(acc);
        c = c + 1;
    }
    assert(secret@ =~= reconstruct(chosen));
    secret
}

/// Recovers the secret from shares.
pub fn recover_shares(shares: &Vec<Share>, verify_signatures: bool) -> (r: Result<
    Vec<u8>,
    RecoveryError,
>)
    ensures
        outcome_view(r) == recovery_outcome(views(shares@), verify_signatures),
{
    let ghost sv = views(shares@);
    let n = shares.len();
    if n == 0 {
        return Err(RecoveryError::InsufficientShares { have: 0, need: 1 });
    }
    if let Some(i) = find_invalid(shares) {
        return Err(RecoveryError::ShareParsingError(i));
    }
    proof {
        lemma_first_from(invalid_at(sv), 0, n as int);
        assert forall|i: int| 0 <= i < n implies valid_share(#[trigger] sv[i]) by {
            assert(!invalid_at(sv)(i));
        }
    }
    if !is_uniform(shares) {
        return Err(RecoveryError::IncompatibleSets(partition_shares(shares)));
    }
    if let Some(e) = find_duplicate(shares) {
        return Err(e);
    }
    if verify_signatures {
        if let Some(e) = find_signature_fault(shares) {
            return Err(e);
        }
    }
    let threshold = shares[0].threshold;
    assert(valid_share(sv[0]));
    if n < threshold as usize {
        return Err(RecoveryError::InsufficientShares { have: n as u8, need: threshold });
    }
    if let Some(i) = find_length_mismatch(shares) {
        return Err(RecoveryError::ShareParsingError(i));
    }
    proof {
        lemma_first_from(length_differs_at(sv), 0, n as int);
        assert forall|i: int| 0 <= i < n implies (#[trigger] shares[i]).data.len()
            == shares[0].data.len() by {
            assert(!length_differs_at(sv)(i));
        }
    }
    Ok(reconstruct_secret(shares, threshold as usize))
}

} // verus!
