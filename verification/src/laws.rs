//! What holds of splitting and recovery together.
//!
//! A selection of the shares of a split is given by the places of the
//! chosen shares in the split, in the order in which they are handed to the
//! recovery.

use vstd::prelude::*;
use crate::auth::{
    block, leaf_digest, leaf_input, lemma_digests_upto, set_signature,
    signature_fault,
};
use crate::codec::parse_share;
use crate::dss::{derived_rows, lemma_derived_rows_fit};
use crate::error::{GroupView, RecoveryFailure, SignatureFault};
use crate::polynomial::{distinct, lemma_interpolation_recovers, poly_values};
use crate::recover::{
    column, first_from, group_of, ids_upto, invalid_at, key_of, keys_upto,
    lemma_first_from_none, lemma_first_from_some, length_differs_at, partition,
    reconstruct, recovery_outcome, repeats_at, same_id_at, share_ids, uniform, unverified_at,
};
use crate::share::{valid_parameters, valid_share, ShareView};
use crate::split::{byte_polynomial, plain_shares, share_data, split_shares, valid_rows};
use crate::sss::{shares_read, text_recovery_outcome, unreadable_at};
use crate::wrapped::{
    envelope_of, lemma_envelope_opens, mime_bytes, wrapped_recovery_outcome, EnvelopeVersion,
    WrappedView,
};

verus! {

/// The places are places of shares of a split of `count` shares, and none
/// occurs twice.
pub open spec fn selection(picks: Seq<int>, count: int) -> bool {
    &&& forall|k: int| 0 <= k < picks.len() ==> 0 <= #[trigger] picks[k] < count
    &&& forall|k: int, l: int|
        0 <= k < picks.len() && 0 <= l < picks.len() && k != l ==> picks[k] != picks[l]
}

/// The shares at the chosen places.
pub open spec fn selected(all: Seq<ShareView>, picks: Seq<int>) -> Seq<ShareView> {
    Seq::new(picks.len(), |k: int| all[picks[k]])
}

/// The share with its data replaced.
pub open spec fn with_data(s: ShareView, data: Seq<u8>) -> ShareView {
    ShareView {
        id: s.id,
        threshold: s.threshold,
        shares_count: s.shares_count,
        data,
        signature: s.signature,
    }
}

/// Each share has the id of its place in the split, the split's parameters,
/// data of the given length, and the given signature.
spec fn drawn(
    shares: Seq<ShareView>,
    picks: Seq<int>,
    threshold: u8,
    shares_count: u8,
    len: nat,
    signature: Option<Seq<u8>>,
) -> bool {
    &&& shares.len() == picks.len()
    &&& forall|k: int|
        0 <= k < shares.len() ==> {
            &&& (#[trigger] shares[k]).id == picks[k] + 1
            &&& shares[k].threshold == threshold
            &&& shares[k].shares_count == shares_count
            &&& shares[k].data.len() == len
            &&& shares[k].signature == signature
        }
}

/// What a split's share at place `i` is.
proof fn lemma_split_share(
    secret: Seq<u8>,
    rows: Seq<Seq<u8>>,
    threshold: u8,
    shares_count: u8,
    sign: bool,
    i: int,
)
    requires
        0 <= i < shares_count,
    ensures
        ({
            let plain = plain_shares(secret, rows, threshold, shares_count);
            let s = split_shares(secret, rows, threshold, shares_count, sign)[i];
            &&& split_shares(secret, rows, threshold, shares_count, sign).len() == shares_count
            &&& s.id == i + 1
            &&& s.threshold == threshold
            &&& s.shares_count == shares_count
            &&& s.data == share_data(secret, rows, (i + 1) as u8)
            &&& s.signature == (if sign {
                Some(set_signature(plain))
            } else {
                None
            })
            &&& leaf_digest(s) == leaf_digest(plain[i])
        }),
{
    let plain = plain_shares(secret, rows, threshold, shares_count);
    let s = split_shares(secret, rows, threshold, shares_count, sign)[i];
    assert(plain[i].id == (i + 1) as u8);
    assert(leaf_input(s) == leaf_input(plain[i]));
}

/// Shares drawn from one split pass the checks on validity, parameters,
/// length and ids.
proof fn lemma_drawn_passes(
    shares: Seq<ShareView>,
    picks: Seq<int>,
    threshold: u8,
    shares_count: u8,
    len: nat,
    signature: Option<Seq<u8>>,
)
    requires
        valid_parameters(threshold, shares_count),
        selection(picks, shares_count as int),
        drawn(shares, picks, threshold, shares_count, len, signature),
        shares.len() >= 1,
    ensures
        first_from(invalid_at(shares), 0, shares.len() as int) is None,
        uniform(shares),
        first_from(length_differs_at(shares), 0, shares.len() as int) is None,
        first_from(repeats_at(shares), 0, shares.len() as int) is None,
{
    let n = shares.len() as int;
    assert forall|k: int| 0 <= k < n implies !#[trigger] invalid_at(shares)(k) by {
        assert(shares[k].id == picks[k] + 1);
    }
    lemma_first_from_none(invalid_at(shares), 0, n);
    assert forall|k: int| 0 <= k < n implies !#[trigger] length_differs_at(shares)(k) by {
        assert(shares[k].data.len() == len);
        assert(shares[0].data.len() == len);
    }
    lemma_first_from_none(length_differs_at(shares), 0, n);
    assert forall|j: int| 0 <= j < n implies !#[trigger] repeats_at(shares)(j) by {
        assert forall|i: int| 0 <= i < j implies !#[trigger] same_id_at(shares, j)(i) by {
            assert(shares[i].id == picks[i] + 1);
            assert(shares[j].id == picks[j] + 1);
        }
        lemma_first_from_none(same_id_at(shares, j), 0, j);
    }
    lemma_first_from_none(repeats_at(shares), 0, n);
    assert forall|k: int| 0 <= k < n implies key_of(#[trigger] shares[k]) == key_of(
        shares[0],
    ) by {
        assert(shares[k].threshold == threshold);
        assert(shares[0].threshold == threshold);
    }
}

/// A selection of the shares of a split is drawn from it.
proof fn lemma_selected_drawn(
    secret: Seq<u8>,
    rows: Seq<Seq<u8>>,
    threshold: u8,
    shares_count: u8,
    sign: bool,
    picks: Seq<int>,
)
    requires
        valid_parameters(threshold, shares_count),
        selection(picks, shares_count as int),
    ensures
        drawn(
            selected(split_shares(secret, rows, threshold, shares_count, sign), picks),
            picks,
            threshold,
            shares_count,
            secret.len(),
            if sign {
                Some(set_signature(plain_shares(secret, rows, threshold, shares_count)))
            } else {
                None
            },
        ),
{
    let all = split_shares(secret, rows, threshold, shares_count, sign);
    let chosen = selected(all, picks);
    assert forall|k: int| 0 <= k < chosen.len() implies {
        &&& (#[trigger] chosen[k]).id == picks[k] + 1
        &&& chosen[k].threshold == threshold
        &&& chosen[k].shares_count == shares_count
        &&& chosen[k].data.len() == secret.len()
    } by {
        lemma_split_share(secret, rows, threshold, shares_count, sign, picks[k]);
    }
    assert forall|k: int| 0 <= k < chosen.len() implies (#[trigger] chosen[k]).signature == (if sign {
        Some(set_signature(plain_shares(secret, rows, threshold, shares_count)))
    } else {
        None
    }) by {
        lemma_split_share(secret, rows, threshold, shares_count, sign, picks[k]);
    }
}

/// The signature of every chosen share of a signed split holds.
proof fn lemma_selected_verified(
    secret: Seq<u8>,
    rows: Seq<Seq<u8>>,
    threshold: u8,
    shares_count: u8,
    picks: Seq<int>,
    k: int,
)
    requires
        valid_parameters(threshold, shares_count),
        selection(picks, shares_count as int),
        0 <= k < picks.len(),
    ensures
        ({
            let chosen = selected(
                split_shares(secret, rows, threshold, shares_count, true),
                picks,
            );
            let signature = set_signature(plain_shares(secret, rows, threshold, shares_count));
            &&& signature.len() == 32 * shares_count
            &&& block(signature, chosen[k].id - 1) == leaf_digest(chosen[k])
            &&& signature_fault(chosen[k], Some(signature)) is None
        }),
{
    let plain = plain_shares(secret, rows, threshold, shares_count);
    lemma_digests_upto(plain, plain.len());
    lemma_split_share(secret, rows, threshold, shares_count, true, picks[k]);
}

/// The first `threshold` shares of a selection interpolate to the secret.
proof fn lemma_quorum_reconstructs(
    secret: Seq<u8>,
    rows: Seq<Seq<u8>>,
    threshold: u8,
    shares_count: u8,
    sign: bool,
    picks: Seq<int>,
)
    requires
        valid_parameters(threshold, shares_count),
        valid_rows(rows, threshold, secret.len()),
        selection(picks, shares_count as int),
        picks.len() >= threshold,
    ensures
        reconstruct(
            selected(split_shares(secret, rows, threshold, shares_count, sign), picks).take(
                threshold as int,
            ),
        ) == secret,
{
    let all = split_shares(secret, rows, threshold, shares_count, sign);
    let quorum = selected(all, picks).take(threshold as int);
    let xs = share_ids(quorum);
    assert forall|k: int| 0 <= k < threshold implies (#[trigger] quorum[k]).id == picks[k] + 1
        && quorum[k].data == share_data(secret, rows, quorum[k].id) by {
        lemma_split_share(secret, rows, threshold, shares_count, sign, picks[k]);
    }
    assert(distinct(xs)) by {
        assert forall|i: int, j: int| 0 <= i < xs.len() && 0 <= j < xs.len() && i != j implies xs[i]
            != xs[j] by {
            assert(quorum[i].id == picks[i] + 1);
            assert(quorum[j].id == picks[j] + 1);
        }
    }
    let got = reconstruct(quorum);
    assert(quorum[0].data.len() == secret.len());
    assert forall|c: int| 0 <= c < secret.len() implies got[c] == secret[c] by {
        let poly = byte_polynomial(secret, rows, c);
        assert(column(quorum, c) =~= poly_values(poly, xs)) by {
            assert forall|k: int| 0 <= k < threshold implies column(quorum, c)[k] == poly_values(
                poly,
                xs,
            )[k] by {
                assert(quorum[k].data == share_data(secret, rows, quorum[k].id));
            }
        }
        lemma_interpolation_recovers(xs, poly);
    }
    assert(got =~= secret);
}

/// Any `threshold` or more shares of a split recover the secret: without
/// verification always, and with it where the split was signed.
pub proof fn law_quorum_recovers(
    secret: Seq<u8>,
    rows: Seq<Seq<u8>>,
    threshold: u8,
    shares_count: u8,
    sign: bool,
    verify: bool,
    picks: Seq<int>,
)
    requires
        valid_parameters(threshold, shares_count),
        valid_rows(rows, threshold, secret.len()),
        selection(picks, shares_count as int),
        picks.len() >= threshold,
        verify ==> sign,
    ensures
        recovery_outcome(
            selected(split_shares(secret, rows, threshold, shares_count, sign), picks),
            verify,
        ) == Ok::<Seq<u8>, RecoveryFailure>(secret),
{
    let all = split_shares(secret, rows, threshold, shares_count, sign);
    let chosen = selected(all, picks);
    let n = chosen.len() as int;
    let signature = if sign {
        Some(set_signature(plain_shares(secret, rows, threshold, shares_count)))
    } else {
        None
    };
    lemma_selected_drawn(secret, rows, threshold, shares_count, sign, picks);
    lemma_drawn_passes(chosen, picks, threshold, shares_count, secret.len(), signature);
    if verify {
        assert forall|k: int| 0 <= k < n implies !#[trigger] unverified_at(chosen)(k) by {
            lemma_selected_verified(secret, rows, threshold, shares_count, picks, k);
        }
        lemma_first_from_none(unverified_at(chosen), 0, n);
    }
    lemma_quorum_reconstructs(secret, rows, threshold, shares_count, sign, picks);
    assert(chosen[0].threshold == threshold);
}

/// Fewer shares of a split than its threshold recover nothing: the
/// recovery reports how many there are and, where there is one at least,
/// how many are needed.
pub proof fn law_threshold_is_needed(
    secret: Seq<u8>,
    rows: Seq<Seq<u8>>,
    threshold: u8,
    shares_count: u8,
    sign: bool,
    verify: bool,
    picks: Seq<int>,
)
    requires
        valid_parameters(threshold, shares_count),
        valid_rows(rows, threshold, secret.len()),
        selection(picks, shares_count as int),
        picks.len() < threshold,
        verify ==> sign,
    ensures
        recovery_outcome(
            selected(split_shares(secret, rows, threshold, shares_count, sign), picks),
            verify,
        ) == Err::<Seq<u8>, RecoveryFailure>(
            RecoveryFailure::InsufficientShares {
                have: picks.len() as u8,
                need: if picks.len() == 0 {
                    1
                } else {
                    threshold
                },
            },
        ),
{
    let all = split_shares(secret, rows, threshold, shares_count, sign);
    let chosen = selected(all, picks);
    let n = chosen.len() as int;
    if n > 0 {
        let signature = if sign {
            Some(set_signature(plain_shares(secret, rows, threshold, shares_count)))
        } else {
            None
        };
        lemma_selected_drawn(secret, rows, threshold, shares_count, sign, picks);
        lemma_drawn_passes(chosen, picks, threshold, shares_count, secret.len(), signature);
        if verify {
            assert forall|k: int| 0 <= k < n implies !#[trigger] unverified_at(chosen)(k) by {
                lemma_selected_verified(secret, rows, threshold, shares_count, picks, k);
            }
            lemma_first_from_none(unverified_at(chosen), 0, n);
        }
        assert(chosen[0].threshold == threshold);
    }
}

/// A verifying recovery from shares of an unsigned split names the first
/// share given as unsigned, however many shares there are.
pub proof fn law_unsigned_fails_verification(
    secret: Seq<u8>,
    rows: Seq<Seq<u8>>,
    threshold: u8,
    shares_count: u8,
    picks: Seq<int>,
)
    requires
        valid_parameters(threshold, shares_count),
        valid_rows(rows, threshold, secret.len()),
        selection(picks, shares_count as int),
        picks.len() >= 1,
    ensures
        recovery_outcome(
            selected(split_shares(secret, rows, threshold, shares_count, false), picks),
            true,
        ) == Err::<Seq<u8>, RecoveryFailure>(
            RecoveryFailure::MissingSignature((picks[0] + 1) as u8),
        ),
{
    let chosen = selected(split_shares(secret, rows, threshold, shares_count, false), picks);
    let n = chosen.len() as int;
    lemma_selected_drawn(secret, rows, threshold, shares_count, false, picks);
    lemma_drawn_passes(chosen, picks, threshold, shares_count, secret.len(), None);
    assert(chosen[0].signature == None::<Seq<u8>>);
    assert(chosen[0].id == picks[0] + 1);
    assert(unverified_at(chosen)(0));
    lemma_first_from_some(unverified_at(chosen), 0, 0, n);
}

/// Two selections of `threshold` or more shares of one split recover the
/// same: the secret.
pub proof fn law_quorums_agree(
    secret: Seq<u8>,
    rows: Seq<Seq<u8>>,
    threshold: u8,
    shares_count: u8,
    sign: bool,
    verify: bool,
    first: Seq<int>,
    second: Seq<int>,
)
    requires
        valid_parameters(threshold, shares_count),
        valid_rows(rows, threshold, secret.len()),
        selection(first, shares_count as int),
        selection(second, shares_count as int),
        first.len() >= threshold,
        second.len() >= threshold,
        verify ==> sign,
    ensures
        recovery_outcome(
            selected(split_shares(secret, rows, threshold, shares_count, sign), first),
            verify,
        ) == recovery_outcome(
            selected(split_shares(secret, rows, threshold, shares_count, sign), second),
            verify,
        ),
        recovery_outcome(
            selected(split_shares(secret, rows, threshold, shares_count, sign), first),
            verify,
        ) == Ok::<Seq<u8>, RecoveryFailure>(secret),
{
    law_quorum_recovers(secret, rows, threshold, shares_count, sign, verify, first);
    law_quorum_recovers(secret, rows, threshold, shares_count, sign, verify, second);
}

/// Any `threshold` or more shares of a reproducible split recover the
/// secret.
pub proof fn law_reproducible_quorum_recovers(
    secret: Seq<u8>,
    threshold: u8,
    shares_count: u8,
    picks: Seq<int>,
)
    requires
        valid_parameters(threshold, shares_count),
        selection(picks, shares_count as int),
        picks.len() >= threshold,
    ensures
        recovery_outcome(
            selected(
                split_shares(
                    secret,
                    derived_rows(secret, threshold, shares_count),
                    threshold,
                    shares_count,
                    false,
                ),
                picks,
            ),
            false,
        ) == Ok::<Seq<u8>, RecoveryFailure>(secret),
{
    lemma_derived_rows_fit(secret, threshold, shares_count);
    law_quorum_recovers(
        secret,
        derived_rows(secret, threshold, shares_count),
        threshold,
        shares_count,
        false,
        false,
        picks,
    );
}

/// Where the data of one share of a signed split was changed, and its
/// digest with it, a verifying recovery names that share and says that its
/// digest is wrong.
pub proof fn law_tampering_shows(
    secret: Seq<u8>,
    rows: Seq<Seq<u8>>,
    threshold: u8,
    shares_count: u8,
    picks: Seq<int>,
    k: int,
    forged: Seq<u8>,
)
    requires
        valid_parameters(threshold, shares_count),
        valid_rows(rows, threshold, secret.len()),
        selection(picks, shares_count as int),
        0 <= k < picks.len(),
        forged.len() == secret.len(),
        forged != selected(
            split_shares(secret, rows, threshold, shares_count, true),
            picks,
        )[k].data,
        leaf_digest(
            with_data(
                selected(split_shares(secret, rows, threshold, shares_count, true), picks)[k],
                forged,
            ),
        ) != leaf_digest(
            selected(split_shares(secret, rows, threshold, shares_count, true), picks)[k],
        ),
    ensures
        ({
            let chosen = selected(
                split_shares(secret, rows, threshold, shares_count, true),
                picks,
            );
            recovery_outcome(chosen.update(k, with_data(chosen[k], forged)), true) == Err::<
                Seq<u8>,
                RecoveryFailure,
            >(RecoveryFailure::InvalidSignature(chosen[k].id, SignatureFault::WrongDigest))
        }),
{
    let all = split_shares(secret, rows, threshold, shares_count, true);
    let chosen = selected(all, picks);
    let changed = chosen.update(k, with_data(chosen[k], forged));
    let n = changed.len() as int;
    let signature = set_signature(plain_shares(secret, rows, threshold, shares_count));
    lemma_selected_drawn(secret, rows, threshold, shares_count, true, picks);
    assert(drawn(changed, picks, threshold, shares_count, secret.len(), Some(signature))) by {
        assert forall|j: int| 0 <= j < changed.len() implies {
            &&& (#[trigger] changed[j]).id == picks[j] + 1
            &&& changed[j].threshold == threshold
            &&& changed[j].shares_count == shares_count
            &&& changed[j].data.len() == secret.len()
            &&& changed[j].signature == Some(signature)
        } by {
            assert(chosen[j].id == picks[j] + 1);
        }
    }
    lemma_drawn_passes(changed, picks, threshold, shares_count, secret.len(), Some(signature));
    assert(changed[0].signature == Some(signature));
    assert forall|j: int| 0 <= j < k implies !#[trigger] unverified_at(changed)(j) by {
        lemma_selected_verified(secret, rows, threshold, shares_count, picks, j);
        assert(changed[j] == chosen[j]);
    }
    lemma_selected_verified(secret, rows, threshold, shares_count, picks, k);
    assert(changed[k] == with_data(chosen[k], forged));
    assert(signature_fault(changed[k], Some(signature)) == Some(
        RecoveryFailure::InvalidSignature(chosen[k].id, SignatureFault::WrongDigest),
    ));
    assert(unverified_at(changed)(k));
    lemma_first_from_some(unverified_at(changed), 0, k, n);
}

/// Where shares of one split's parameters hold an id twice, the recovery
/// fails with that id, however many shares there are and whatever else is
/// wrong with them: as a repeated share where the two have the same data,
/// as two different shares where they do not. The share at `j` is the
/// first that repeats an id, and the share at `i` the one it repeats.
pub proof fn law_duplicates_rejected(shares: Seq<ShareView>, verify: bool, i: int, j: int)
    requires
        forall|k: int| 0 <= k < shares.len() ==> valid_share(#[trigger] shares[k]),
        uniform(shares),
        0 <= i < j < shares.len(),
        shares[i].id == shares[j].id,
        forall|a: int, b: int| 0 <= a < b < j ==> shares[a].id != shares[b].id,
    ensures
        recovery_outcome(shares, verify) == Err::<Seq<u8>, RecoveryFailure>(
            if shares[i].data == shares[j].data {
                RecoveryFailure::DuplicateShareId(shares[j].id)
            } else {
                RecoveryFailure::DuplicateShareData(shares[j].id)
            },
        ),
{
    let n = shares.len() as int;
    assert forall|k: int| 0 <= k < n implies !#[trigger] invalid_at(shares)(k) by {
        assert(valid_share(shares[k]));
    }
    lemma_first_from_none(invalid_at(shares), 0, n);
    assert forall|b: int| 0 <= b < j implies !#[trigger] repeats_at(shares)(b) by {
        assert forall|a: int| 0 <= a < b implies !#[trigger] same_id_at(shares, b)(a) by {
            assert(shares[a].id != shares[b].id);
        }
        lemma_first_from_none(same_id_at(shares, b), 0, b);
    }
    assert forall|a: int| 0 <= a < i implies !#[trigger] same_id_at(shares, j)(a) by {
        assert(shares[a].id != shares[i].id);
    }
    assert(same_id_at(shares, j)(i));
    lemma_first_from_some(same_id_at(shares, j), 0, i, j);
    assert(repeats_at(shares)(j));
    lemma_first_from_some(repeats_at(shares), 0, j, n);
}

proof fn lemma_keys_cover(shares: Seq<ShareView>, k: nat, i: int)
    requires
        0 <= i < k <= shares.len(),
    ensures
        keys_upto(shares, k).contains(key_of(shares[i])),
    decreases k,
{
    let before = keys_upto(shares, (k - 1) as nat);
    let key = key_of(shares[k - 1]);
    if i < k - 1 {
        lemma_keys_cover(shares, (k - 1) as nat, i);
        let at = choose|at: int| 0 <= at < before.len() && before[at] == key_of(shares[i]);
        if !before.contains(key) {
            assert(before.push(key)[at] == key_of(shares[i]));
        }
    } else {
        if !before.contains(key) {
            assert(before.push(key)[before.len() as int] == key);
        }
    }
}

proof fn lemma_ids_cover(shares: Seq<ShareView>, key: (u8, u8), k: nat, i: int)
    requires
        0 <= i < k <= shares.len(),
        key_of(shares[i]) == key,
    ensures
        ids_upto(shares, key, k).contains(shares[i].id),
    decreases k,
{
    let before = ids_upto(shares, key, (k - 1) as nat);
    if i < k - 1 {
        lemma_ids_cover(shares, key, (k - 1) as nat, i);
        let at = choose|at: int| 0 <= at < before.len() && before[at] == shares[i].id;
        if key_of(shares[k - 1]) == key {
            assert(before.push(shares[k - 1].id)[at] == shares[i].id);
        }
    } else {
        assert(before.push(shares[i].id)[before.len() as int] == shares[i].id);
    }
}

/// The group of a share: a group of the partition with the parameters of
/// the share that holds its id.
pub open spec fn groups_share(groups: Seq<GroupView>, g: int, s: ShareView) -> bool {
    &&& 0 <= g < groups.len()
    &&& groups[g].threshold == s.threshold
    &&& groups[g].shares_count == s.shares_count
    &&& groups[g].share_ids.contains(s.id)
}

/// Where shares of splits with different numbers of shares are mixed, the
/// recovery reports the groups, and each of the two shares that differ is
/// in a group of its own split.
pub proof fn law_mixed_splits_rejected(shares: Seq<ShareView>, verify: bool, i: int, j: int)
    requires
        forall|k: int| 0 <= k < shares.len() ==> valid_share(#[trigger] shares[k]),
        0 <= i < shares.len(),
        0 <= j < shares.len(),
        shares[i].shares_count != shares[j].shares_count,
    ensures
        recovery_outcome(shares, verify) == Err::<Seq<u8>, RecoveryFailure>(
            RecoveryFailure::IncompatibleSets(partition(shares)),
        ),
        exists|g: int, h: int|
            g != h && #[trigger] groups_share(partition(shares), g, shares[i])
                && #[trigger] groups_share(partition(shares), h, shares[j]),
{
    let n = shares.len() as int;
    assert forall|k: int| 0 <= k < n implies !#[trigger] invalid_at(shares)(k) by {
        assert(valid_share(shares[k]));
    }
    lemma_first_from_none(invalid_at(shares), 0, n);
    assert(!uniform(shares)) by {
        if uniform(shares) {
            assert(key_of(shares[i]) == key_of(shares[0]));
            assert(key_of(shares[j]) == key_of(shares[0]));
        }
    }
    let keys = keys_upto(shares, shares.len());
    let groups = partition(shares);
    lemma_keys_cover(shares, shares.len(), i);
    lemma_keys_cover(shares, shares.len(), j);
    let g = choose|g: int| 0 <= g < keys.len() && keys[g] == key_of(shares[i]);
    let h = choose|h: int| 0 <= h < keys.len() && keys[h] == key_of(shares[j]);
    lemma_ids_cover(shares, keys[g], shares.len(), i);
    lemma_ids_cover(shares, keys[h], shares.len(), j);
    assert(groups[g] == group_of(shares, keys[g]));
    assert(groups[h] == group_of(shares, keys[h]));
    assert(groups_share(groups, g, shares[i]));
    assert(groups_share(groups, h, shares[j]));
}

/// Texts that are read as shares recover what those shares recover.
pub proof fn law_texts_recover_as_shares(
    texts: Seq<Seq<char>>,
    shares: Seq<ShareView>,
    verify: bool,
)
    requires
        texts.len() == shares.len(),
        forall|k: int| 0 <= k < texts.len() ==> parse_share(#[trigger] texts[k]) == Some(shares[k]),
    ensures
        text_recovery_outcome(texts, verify) == recovery_outcome(shares, verify),
{
    assert forall|k: int| 0 <= k < texts.len() implies !#[trigger] unreadable_at(texts)(k) by {
        assert(parse_share(texts[k]) == Some(shares[k]));
    }
    lemma_first_from_none(unreadable_at(texts), 0, texts.len() as int);
    assert(shares_read(texts) =~= shares);
}

/// The texts of any `threshold` or more shares of a split recover the
/// secret: texts that are read as those shares, as every text is that a
/// split has written.
pub proof fn law_round_trip(
    secret: Seq<u8>,
    rows: Seq<Seq<u8>>,
    threshold: u8,
    shares_count: u8,
    sign: bool,
    verify: bool,
    picks: Seq<int>,
    texts: Seq<Seq<char>>,
)
    requires
        valid_parameters(threshold, shares_count),
        valid_rows(rows, threshold, secret.len()),
        selection(picks, shares_count as int),
        picks.len() >= threshold,
        verify ==> sign,
        texts.len() == picks.len(),
        forall|k: int|
            0 <= k < texts.len() ==> parse_share(#[trigger] texts[k]) == Some(
                split_shares(secret, rows, threshold, shares_count, sign)[picks[k]],
            ),
    ensures
        text_recovery_outcome(texts, verify) == Ok::<Seq<u8>, RecoveryFailure>(secret),
{
    let chosen = selected(split_shares(secret, rows, threshold, shares_count, sign), picks);
    law_texts_recover_as_shares(texts, chosen, verify);
    law_quorum_recovers(secret, rows, threshold, shares_count, sign, verify, picks);
}

/// The texts of any `threshold` or more shares of a wrapped split recover
/// the secret and its MIME type.
pub proof fn law_wrapped_round_trip(
    secret: Seq<u8>,
    mime_type: Option<Seq<char>>,
    rows: Seq<Seq<u8>>,
    threshold: u8,
    shares_count: u8,
    sign: bool,
    verify: bool,
    picks: Seq<int>,
    texts: Seq<Seq<char>>,
)
    requires
        mime_bytes(mime_type).len() <= u32::MAX,
        valid_parameters(threshold, shares_count),
        valid_rows(rows, threshold, envelope_of(secret, mime_type).len()),
        selection(picks, shares_count as int),
        picks.len() >= threshold,
        verify ==> sign,
        texts.len() == picks.len(),
        forall|k: int|
            0 <= k < texts.len() ==> parse_share(#[trigger] texts[k]) == Some(
                split_shares(
                    envelope_of(secret, mime_type),
                    rows,
                    threshold,
                    shares_count,
                    sign,
                )[picks[k]],
            ),
    ensures
        wrapped_recovery_outcome(texts, verify) == Ok::<WrappedView, RecoveryFailure>(
            WrappedView { version: EnvelopeVersion::InitialRelease, secret, mime_type },
        ),
{
    law_round_trip(
        envelope_of(secret, mime_type),
        rows,
        threshold,
        shares_count,
        sign,
        verify,
        picks,
        texts,
    );
    lemma_envelope_opens(
        WrappedView { version: EnvelopeVersion::InitialRelease, secret, mime_type },
    );
}

} // verus!
