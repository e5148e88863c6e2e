use secret_sharing::codec::decode_share;
use secret_sharing::dss;
use secret_sharing::error::{RecoveryError, ShareGroup, SignatureFault, SplitError};
use secret_sharing::recover::recover_shares;
use secret_sharing::share::Share;
use secret_sharing::split::split;
use secret_sharing::sss::{recover_secret, split_secret, split_secret_with};
use secret_sharing::util::to_u8;
use secret_sharing::wire::{push_be32, push_range, read_be32};
use secret_sharing::wrapped;
use secret_sharing::wrapped::{unwrap_envelope, wrap, EnvelopeVersion, WrappedSecret};

fn pick(shares: &[String], places: &[usize]) -> Vec<String> {
    places.iter().map(|i| shares[*i].clone()).collect()
}

#[test]
fn split_hello_three_of_five() {
    let shares = split_secret(3, 5, &b"hello".to_vec(), false).unwrap();
    assert_eq!(shares.len(), 5);
    for (i, text) in shares.iter().enumerate() {
        let share = decode_share(text).unwrap();
        assert_eq!(share.id as usize, i + 1);
        assert_eq!(share.threshold, 3);
        assert_eq!(share.shares_count, 5);
        assert_eq!(share.data.len(), 5);
        assert_eq!(share.signature, None);
    }
    assert_eq!(recover_secret(&shares[0..3].to_vec(), false), Ok(b"hello".to_vec()));
    assert_eq!(
        recover_secret(&shares[0..2].to_vec(), false),
        Err(RecoveryError::InsufficientShares { have: 2, need: 3 })
    );
}

#[test]
fn every_quorum_recovers_the_secret() {
    let secret = b"The immoral cannot be made moral through the use of secret law.".to_vec();
    for sign in [false, true] {
        let shares = split_secret(3, 5, &secret, sign).unwrap();
        for a in 0..5 {
            for b in 0..5 {
                for c in 0..5 {
                    if a != b && b != c && a != c {
                        let chosen = pick(&shares, &[a, b, c]);
                        assert_eq!(recover_secret(&chosen, sign), Ok(secret.clone()));
                        assert_eq!(recover_secret(&chosen, false), Ok(secret.clone()));
                    }
                }
            }
        }
        assert_eq!(recover_secret(&shares, sign), Ok(secret.clone()));
    }
}

#[test]
fn fewer_shares_than_the_threshold_fail() {
    let shares = split_secret(4, 6, &b"secret".to_vec(), true).unwrap();
    for have in 1..4usize {
        assert_eq!(
            recover_secret(&shares[0..have].to_vec(), true),
            Err(RecoveryError::InsufficientShares { have: have as u8, need: 4 })
        );
    }
    assert_eq!(
        recover_secret(&Vec::new(), false),
        Err(RecoveryError::InsufficientShares { have: 0, need: 1 })
    );
}

#[test]
fn invalid_parameters_are_refused() {
    let secret = b"x".to_vec();
    assert_eq!(split_secret(0, 5, &secret, false), Err(SplitError::InvalidParameters));
    assert_eq!(split_secret(6, 5, &secret, false), Err(SplitError::InvalidParameters));
    assert_eq!(split_secret(0, 0, &secret, true), Err(SplitError::InvalidParameters));
    assert_eq!(split_secret(1, 0, &secret, true), Err(SplitError::InvalidParameters));
    assert_eq!(
        split_secret_with(2, 3, &secret, &vec![], false),
        Err(SplitError::InvalidParameters)
    );
    assert_eq!(
        split_secret_with(2, 3, &secret, &vec![vec![1, 2]], false),
        Err(SplitError::InvalidParameters)
    );
    assert_eq!(
        wrapped::split_secret(3, 2, &secret, None, false),
        Err(SplitError::InvalidParameters)
    );
}

#[test]
fn edge_parameters_split_and_recover() {
    let secret = b"edge".to_vec();
    let one = split_secret(1, 1, &secret, false).unwrap();
    assert_eq!(one, vec!["1-1-1-ZWRnZQ==".to_string()]);
    assert_eq!(recover_secret(&one, false), Ok(secret.clone()));
    let all = split_secret(255, 255, &secret, false).unwrap();
    assert_eq!(all.len(), 255);
    assert_eq!(recover_secret(&all, false), Ok(secret.clone()));
    assert_eq!(
        recover_secret(&all[0..254].to_vec(), false),
        Err(RecoveryError::InsufficientShares { have: 254, need: 255 })
    );
    let empty = split_secret(2, 3, &Vec::new(), true).unwrap();
    assert_eq!(recover_secret(&empty[1..3].to_vec(), true), Ok(Vec::new()));
}

#[test]
fn split_with_given_coefficients_is_exact() {
    let texts = split_secret_with(2, 3, &vec![1, 7], &vec![vec![1, 0]], false).unwrap();
    assert_eq!(texts, vec!["1-2-3-AAc=", "2-2-3-Awc=", "3-2-3-Agc="]);
    assert_eq!(recover_secret(&pick(&texts, &[2, 0]), false), Ok(vec![1, 7]));
}

#[test]
fn random_splits_differ() {
    let secret = vec![0u8; 32];
    let first = split_secret(2, 2, &secret, false).unwrap();
    let second = split_secret(2, 2, &secret, false).unwrap();
    assert_ne!(first, second);
    let share = decode_share(&first[0]).unwrap();
    assert_ne!(share.data, secret);
}

#[test]
fn reproducible_split_is_a_function_of_its_arguments() {
    let secret = b"the same every time, over more than one block of digest".to_vec();
    let first = dss::split_secret(3, 5, &secret);
    let second = dss::split_secret(3, 5, &secret);
    assert_eq!(first, second);
    assert_eq!(first.len(), 5);
    for (i, share) in first.iter().enumerate() {
        assert_eq!(share.id as usize, i + 1);
        assert_eq!((share.threshold, share.shares_count), (3, 5));
        assert_eq!(share.data.len(), secret.len());
        assert_eq!(share.signature, None);
        assert_ne!(share.data, secret);
    }
    assert_ne!(dss::split_secret(3, 6, &secret)[0].data, first[0].data);
    assert_ne!(dss::split_secret(3, 5, &b"another".to_vec())[0].data[0..7], first[0].data[0..7]);
    let chosen: Vec<Share> = vec![first[4].clone(), first[1].clone(), first[2].clone()];
    assert_eq!(recover_shares(&chosen, false), Ok(secret));
}

#[test]
fn tampered_data_of_a_signed_share_is_detected() {
    let shares = split_secret(2, 3, &b"integrity".to_vec(), true).unwrap();
    for bit in [0u8, 3, 7] {
        let mut share = decode_share(&shares[1]).unwrap();
        share.data[4] ^= 1 << bit;
        let forged = secret_sharing::codec::encode_share(&share);
        assert_eq!(
            recover_secret(&vec![shares[0].clone(), forged.clone()], true),
            Err(RecoveryError::InvalidSignature(2, SignatureFault::WrongDigest))
        );
        assert_eq!(
            recover_secret(&vec![forged, shares[2].clone()], true),
            Err(RecoveryError::InvalidSignature(2, SignatureFault::WrongDigest))
        );
    }
}

#[test]
fn unsigned_shares_fail_verification() {
    let shares = split_secret(2, 3, &b"plain".to_vec(), false).unwrap();
    assert_eq!(recover_secret(&shares, true), Err(RecoveryError::MissingSignature(1)));
}

#[test]
fn a_share_signed_anew_is_detected() {
    let first = split_secret_with(2, 3, &vec![5, 6], &vec![vec![1, 2]], true).unwrap();
    let second = split_secret_with(2, 3, &vec![5, 6], &vec![vec![3, 4]], true).unwrap();
    assert_eq!(
        recover_secret(&vec![first[0].clone(), second[1].clone()], true),
        Err(RecoveryError::InvalidSignature(2, SignatureFault::ForeignSet))
    );
}

#[test]
fn shares_of_different_splits_are_told_apart() {
    let first = split_secret(2, 3, &b"one".to_vec(), false).unwrap();
    let second = split_secret(2, 4, &b"two".to_vec(), false).unwrap();
    let mixed = vec![first[0].clone(), second[1].clone(), first[2].clone(), second[3].clone()];
    let expected = RecoveryError::IncompatibleSets(vec![
        ShareGroup { threshold: 2, shares_count: 3, share_ids: vec![1, 3] },
        ShareGroup { threshold: 2, shares_count: 4, share_ids: vec![2, 4] },
    ]);
    assert_eq!(recover_secret(&mixed, false), Err(expected.clone()));
    assert_eq!(expected.share_groups(), Some(vec![vec![1, 3], vec![2, 4]]));
    assert_eq!(expected.share_num(), None);
}

#[test]
fn malformed_texts_are_named_by_their_place() {
    let shares = split_secret(2, 3, &b"parse".to_vec(), false).unwrap();
    let bad = vec![shares[0].clone(), "2-F7rAjX3UOa53KA".to_string(), "junk".to_string()];
    assert_eq!(recover_secret(&bad, false), Err(RecoveryError::ShareParsingError(1)));
    let truncated = vec![shares[0][0..shares[0].len() - 3].to_string(), shares[1].clone()];
    assert_eq!(recover_secret(&truncated, false), Err(RecoveryError::ShareParsingError(0)));
}

#[test]
fn duplicate_shares_are_reported() {
    let shares = split_secret(2, 3, &b"twice".to_vec(), false).unwrap();
    assert_eq!(
        recover_secret(&vec![shares[2].clone(), shares[2].clone()], false),
        Err(RecoveryError::DuplicateShareId(3))
    );
    let mut other = decode_share(&shares[2]).unwrap();
    other.data[0] ^= 0xff;
    let forged = secret_sharing::codec::encode_share(&other);
    assert_eq!(
        recover_secret(&vec![shares[2].clone(), shares[0].clone(), forged], false),
        Err(RecoveryError::DuplicateShareData(3))
    );
}

#[test]
fn wrapped_secret_comes_back_with_its_mime_type() {
    let shares =
        wrapped::split_secret(3, 5, &b"data".to_vec(), Some("text/plain".to_string()), false)
            .unwrap();
    assert_eq!(shares.len(), 5);
    for a in 0..5 {
        for b in (a + 1)..5 {
            for c in (b + 1)..5 {
                let recovered = wrapped::recover_secret(&pick(&shares, &[a, b, c]), false);
                assert_eq!(
                    recovered,
                    Ok(WrappedSecret {
                        version: EnvelopeVersion::InitialRelease,
                        secret: b"data".to_vec(),
                        mime_type: Some("text/plain".to_string()),
                    })
                );
            }
        }
    }
    assert_eq!(
        wrapped::recover_secret(&pick(&shares, &[0, 1]), false),
        Err(RecoveryError::InsufficientShares { have: 2, need: 3 })
    );
}

#[test]
fn absent_and_empty_mime_types_are_told_apart() {
    let without = wrapped::split_secret(2, 2, &b"s".to_vec(), None, true).unwrap();
    let with_empty =
        wrapped::split_secret(2, 2, &b"s".to_vec(), Some(String::new()), true).unwrap();
    assert_eq!(wrapped::recover_secret(&without, true).unwrap().mime_type, None);
    assert_eq!(
        wrapped::recover_secret(&with_empty, true).unwrap().mime_type,
        Some(String::new())
    );
}

#[test]
fn envelope_bytes_are_exact() {
    assert_eq!(wrap(&b"data".to_vec(), &None), vec![0, 0, b'd', b'a', b't', b'a']);
    assert_eq!(
        wrap(&b"data".to_vec(), &Some("a/b".to_string())),
        vec![0, 1, 0, 0, 0, 3, b'a', b'/', b'b', b'd', b'a', b't', b'a']
    );
    assert_eq!(
        wrap(&Vec::new(), &Some("\u{e9}".to_string())),
        vec![0, 1, 0, 0, 0, 2, 0xc3, 0xa9]
    );
    assert_eq!(
        unwrap_envelope(&vec![0, 1, 0, 0, 0, 2, 0xc3, 0xa9, 7]),
        Ok(WrappedSecret {
            version: EnvelopeVersion::InitialRelease,
            secret: vec![7],
            mime_type: Some("\u{e9}".to_string()),
        })
    );
    assert_eq!(EnvelopeVersion::InitialRelease.name(), "INITIAL_RELEASE");
}

#[test]
fn bytes_that_are_no_envelope_are_rejected() {
    assert_eq!(unwrap_envelope(&vec![]), Err(RecoveryError::MalformedEnvelope));
    assert_eq!(unwrap_envelope(&vec![1, 0, 5]), Err(RecoveryError::UnsupportedEnvelopeVersion));
    assert_eq!(unwrap_envelope(&vec![255]), Err(RecoveryError::UnsupportedEnvelopeVersion));
    assert_eq!(unwrap_envelope(&vec![0]), Err(RecoveryError::MalformedEnvelope));
    assert_eq!(unwrap_envelope(&vec![0, 2, 5]), Err(RecoveryError::MalformedEnvelope));
    assert_eq!(unwrap_envelope(&vec![0, 1, 0, 0, 0]), Err(RecoveryError::MalformedEnvelope));
    assert_eq!(
        unwrap_envelope(&vec![0, 1, 0, 0, 0, 3, b'a', b'b']),
        Err(RecoveryError::MalformedEnvelope)
    );
    assert_eq!(
        unwrap_envelope(&vec![0, 1, 0xff, 0xff, 0xff, 0xff, b'a']),
        Err(RecoveryError::MalformedEnvelope)
    );
    assert_eq!(
        unwrap_envelope(&vec![0, 1, 0, 0, 0, 1, 0xff, b'a']),
        Err(RecoveryError::MalformedEnvelope)
    );
    assert_eq!(
        unwrap_envelope(&vec![0, 0]),
        Ok(WrappedSecret {
            version: EnvelopeVersion::InitialRelease,
            secret: vec![],
            mime_type: None
        })
    );
}

#[test]
fn shares_of_a_plain_split_are_no_wrapped_secret() {
    let shares = split_secret_with(1, 1, &vec![9, 9], &vec![], false).unwrap();
    assert_eq!(
        wrapped::recover_secret(&shares, false),
        Err(RecoveryError::UnsupportedEnvelopeVersion)
    );
    let wrapped_shares =
        wrapped::split_secret_with(1, 2, &vec![9, 9], None, &vec![], false).unwrap();
    assert_eq!(wrapped_shares, vec!["1-1-2-AAAJCQ==", "2-1-2-AAAJCQ=="]);
}

#[test]
fn to_u8_accepts_a_byte_and_nothing_else() {
    assert_eq!(to_u8(0), Some(0));
    assert_eq!(to_u8(255), Some(255));
    assert_eq!(to_u8(7), Some(7));
    assert_eq!(to_u8(256), None);
    assert_eq!(to_u8(-1), None);
    assert_eq!(to_u8(i64::MAX), None);
    assert_eq!(to_u8(i64::MIN), None);
}

#[test]
fn errors_give_their_parts() {
    assert_eq!(RecoveryError::DuplicateShareId(4).share_num(), Some(4));
    assert_eq!(RecoveryError::DuplicateShareData(5).share_num(), Some(5));
    assert_eq!(RecoveryError::MissingSignature(6).share_num(), Some(6));
    assert_eq!(
        RecoveryError::InvalidSignature(7, SignatureFault::Malformed).share_num(),
        Some(7)
    );
    assert_eq!(RecoveryError::ShareParsingError(8).share_num(), None);
    assert_eq!(RecoveryError::ShareParsingError(8).share_index(), Some(8));
    assert_eq!(RecoveryError::DuplicateShareId(4).share_index(), None);
    assert_eq!(RecoveryError::InsufficientShares { have: 1, need: 2 }.share_num(), None);
    assert_eq!(RecoveryError::MalformedEnvelope.share_groups(), None);
    assert_eq!(RecoveryError::IncompatibleSets(vec![]).share_groups(), Some(vec![]));
    assert_eq!(
        RecoveryError::InsufficientShares { have: 1, need: 2 }.message(),
        "there are not enough shares"
    );
    assert_eq!(
        RecoveryError::UnsupportedEnvelopeVersion.message(),
        "the version of the envelope is not supported"
    );
    assert_eq!(
        RecoveryError::InvalidSignature(7, SignatureFault::ForeignSet).message(),
        "the signature of a share is not that of the other shares"
    );
}

#[test]
fn numbers_as_four_bytes() {
    let mut out = vec![9u8];
    push_be32(&mut out, 0x0102_03ff);
    assert_eq!(out, vec![9, 1, 2, 3, 0xff]);
    assert_eq!(read_be32(&out, 1), 0x0102_03ff);
    push_range(&mut out, &vec![5, 6, 7, 8], 1, 3);
    assert_eq!(out, vec![9, 1, 2, 3, 0xff, 6, 7]);
}

#[test]
fn split_into_shares_by_either_source_of_coefficients() {
    let secret = b"either way".to_vec();
    assert_eq!(split(&secret, 0, 3, false, true), Err(SplitError::InvalidParameters));
    assert_eq!(split(&secret, 4, 3, true, false), Err(SplitError::InvalidParameters));
    let fixed = split(&secret, 2, 3, false, true).unwrap();
    assert_eq!(fixed, dss::split_secret(2, 3, &secret));
    assert_eq!(split(&secret, 2, 3, false, true).unwrap(), fixed);
    let fixed_and_signed = split(&secret, 2, 3, true, true).unwrap();
    assert_eq!(fixed_and_signed[1].data, fixed[1].data);
    assert_eq!(fixed_and_signed[1].signature.as_ref().map(|s| s.len()), Some(96));
    assert_eq!(recover_shares(&fixed_and_signed[1..3].to_vec(), true), Ok(secret.clone()));
    let random = split(&secret, 2, 3, true, false).unwrap();
    assert_eq!(random.len(), 3);
    assert_ne!(random[0].data, fixed[0].data);
    assert_eq!(recover_shares(&vec![random[2].clone(), random[0].clone()], true), Ok(secret));
}

#[test]
fn a_signature_of_the_wrong_length_is_malformed() {
    let shares = split_secret(2, 3, &b"length".to_vec(), true).unwrap();
    let mut share = decode_share(&shares[0]).unwrap();
    share.signature = Some(vec![0; 95]);
    let cut = secret_sharing::codec::encode_share(&share);
    assert_eq!(
        recover_secret(&vec![cut, shares[1].clone()], true),
        Err(RecoveryError::InvalidSignature(1, SignatureFault::Malformed))
    );
}

#[test]
fn bytes_too_short_for_an_envelope_are_malformed() {
    let shares = split_secret_with(1, 1, &vec![0], &vec![], false).unwrap();
    assert_eq!(wrapped::recover_secret(&shares, false), Err(RecoveryError::MalformedEnvelope));
    assert_eq!(recover_secret(&shares, false), Ok(vec![0]));
}
