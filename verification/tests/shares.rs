use secret_sharing::auth::{check_signature, digest_of};
use secret_sharing::codec::{data_text, decode_share, encode_share};
use secret_sharing::digest::digest;
use secret_sharing::error::{RecoveryError, ShareGroup, SignatureFault};
use secret_sharing::recover::{partition_shares, recover_shares, share_is_valid};
use secret_sharing::share::{bytes_equal, copy_bytes, Share};
use secret_sharing::split::split_with;

fn share(id: u8, threshold: u8, shares_count: u8, data: &[u8]) -> Share {
    Share { id, threshold, shares_count, data: data.to_vec(), signature: None }
}

fn hex(bytes: &[u8]) -> String {
    let mut out = String::new();
    for b in bytes {
        out.push_str(&format!("{:02x}", b));
    }
    out
}

#[test]
fn digest_is_sha256() {
    assert_eq!(
        hex(&digest(&b"abc".to_vec())),
        "ba7816bf8f01cfea414140de5dae2223b00361a396177a9cb410ff61f20015ad"
    );
    assert_eq!(
        hex(&digest(&Vec::new())),
        "e3b0c44298fc1c149afbf4c8996fb92427ae41e4649b934ca495991b7852b855"
    );
}

#[test]
fn digest_of_a_share_covers_id_parameters_and_data() {
    let expected = digest(&vec![2u8, 3, 5, b'h', b'i']);
    assert_eq!(digest_of(2, 3, 5, &b"hi".to_vec()), expected);
    assert_ne!(digest_of(1, 3, 5, &b"hi".to_vec()), expected);
    assert_ne!(digest_of(2, 3, 5, &b"ho".to_vec()), expected);
}

#[test]
fn bytes_equal_and_copy_bytes() {
    assert!(bytes_equal(&vec![1, 2, 3], &vec![1, 2, 3]));
    assert!(!bytes_equal(&vec![1, 2, 3], &vec![1, 2, 4]));
    assert!(!bytes_equal(&vec![1, 2, 3], &vec![1, 2]));
    assert!(bytes_equal(&vec![], &vec![]));
    assert_eq!(copy_bytes(&vec![9, 8, 7]), vec![9, 8, 7]);
}

#[test]
fn share_text_has_id_threshold_count_and_base64_data() {
    let s = share(1, 3, 5, b"hello");
    assert_eq!(encode_share(&s), "1-3-5-aGVsbG8=");
    assert_eq!(data_text(&s), "aGVsbG8=");
    let mut signed = share(12, 100, 255, b"\x00\xff");
    signed.signature = Some(vec![1, 2, 3]);
    assert_eq!(encode_share(&signed), "12-100-255-AP8=-AQID");
    assert_eq!(encode_share(&share(1, 1, 1, b"")), "1-1-1-");
}

#[test]
fn share_text_reads_back() {
    let s = share(7, 4, 9, b"some data");
    assert_eq!(decode_share(&encode_share(&s)), Some(s));
    let mut signed = share(200, 2, 201, b"x");
    signed.signature = Some(vec![0; 64]);
    assert_eq!(decode_share(&encode_share(&signed)), Some(signed));
    let mut empty_signature = share(1, 1, 2, b"");
    empty_signature.signature = Some(vec![]);
    assert_eq!(encode_share(&empty_signature), "1-1-2--");
    assert_eq!(decode_share("1-1-2--"), Some(empty_signature));
    assert_eq!(decode_share("1-1-2-"), Some(share(1, 1, 2, b"")));
}

#[test]
fn malformed_share_texts_are_rejected() {
    assert_eq!(decode_share(""), None);
    assert_eq!(decode_share("1-3-5"), None);
    assert_eq!(decode_share("1-3"), None);
    assert_eq!(decode_share("1-3-5-aGVsbG8=-AQID-AQID"), None);
    assert_eq!(decode_share("a-3-5-aGVsbG8="), None);
    assert_eq!(decode_share("-3-5-aGVsbG8="), None);
    assert_eq!(decode_share("01-3-5-aGVsbG8="), None);
    assert_eq!(decode_share("1-3-256-aGVsbG8="), None);
    assert_eq!(decode_share("1-3-1000-aGVsbG8="), None);
    assert_eq!(decode_share("1-3-5-aGVsb((8="), None);
    assert_eq!(decode_share("1-3-5-aGVsbG8=-((("), None);
    assert_eq!(decode_share("1-3-5-aGVsbG8= "), None);
    assert_eq!(decode_share("1-3-5-aGVsbG\u{e9}="), None);
    // numbers that no share of a split has
    assert_eq!(decode_share("0-3-5-aGVsbG8="), None);
    assert_eq!(decode_share("6-3-5-aGVsbG8="), None);
    assert_eq!(decode_share("1-0-5-aGVsbG8="), None);
    assert_eq!(decode_share("1-6-5-aGVsbG8="), None);
    assert_eq!(decode_share("1-3-5-aGVsbG8="), Some(share(1, 3, 5, b"hello")));
    assert_eq!(decode_share("255-255-255-aGVsbG8="), Some(share(255, 255, 255, b"hello")));
}

#[test]
fn share_validity() {
    assert!(share_is_valid(&share(1, 1, 1, b"")));
    assert!(share_is_valid(&share(5, 3, 5, b"")));
    assert!(!share_is_valid(&share(0, 3, 5, b"")));
    assert!(!share_is_valid(&share(6, 3, 5, b"")));
    assert!(!share_is_valid(&share(1, 0, 5, b"")));
    assert!(!share_is_valid(&share(1, 6, 5, b"")));
}

#[test]
fn split_with_evaluates_each_polynomial_at_each_id() {
    // byte 0: 1 + x, byte 1: 7 + 0x
    let shares = split_with(&vec![1, 7], &vec![vec![1, 0]], 2, 3, false);
    assert_eq!(
        shares,
        vec![share(1, 2, 3, &[0, 7]), share(2, 2, 3, &[3, 7]), share(3, 2, 3, &[2, 7])]
    );
    // threshold 1: every share is the secret
    let copies = split_with(&vec![0x41, 0x42], &vec![], 1, 2, false);
    assert_eq!(copies, vec![share(1, 1, 2, &[0x41, 0x42]), share(2, 1, 2, &[0x41, 0x42])]);
    // the empty secret
    let empty = split_with(&vec![], &vec![vec![], vec![]], 3, 3, false);
    assert_eq!(empty, vec![share(1, 3, 3, b""), share(2, 3, 3, b""), share(3, 3, 3, b"")]);
}

#[test]
fn signed_split_gives_every_share_all_digests() {
    let shares = split_with(&vec![1, 7], &vec![vec![1, 0]], 2, 3, true);
    let mut expected = Vec::new();
    expected.extend(digest_of(1, 2, 3, &vec![0, 7]));
    expected.extend(digest_of(2, 2, 3, &vec![3, 7]));
    expected.extend(digest_of(3, 2, 3, &vec![2, 7]));
    assert_eq!(expected.len(), 96);
    for (i, s) in shares.iter().enumerate() {
        assert_eq!(s.id as usize, i + 1);
        assert_eq!(s.signature, Some(expected.clone()));
        assert_eq!(check_signature(s, &shares[0].signature), None);
    }
}

#[test]
fn signature_faults() {
    let shares = split_with(&vec![1, 7], &vec![vec![1, 0]], 2, 3, true);
    let reference = shares[0].signature.clone();
    let mut unsigned = shares[1].clone();
    unsigned.signature = None;
    assert_eq!(check_signature(&unsigned, &reference), Some(RecoveryError::MissingSignature(2)));
    let mut short = shares[1].clone();
    short.signature = Some(vec![0; 95]);
    assert_eq!(
        check_signature(&short, &reference),
        Some(RecoveryError::InvalidSignature(2, SignatureFault::Malformed))
    );
    let mut changed = shares[1].clone();
    changed.data[0] ^= 1;
    assert_eq!(
        check_signature(&changed, &reference),
        Some(RecoveryError::InvalidSignature(2, SignatureFault::WrongDigest))
    );
    let mut resigned = shares[1].clone();
    let mut own = reference.clone().unwrap();
    own[0] ^= 1;
    resigned.signature = Some(own);
    assert_eq!(
        check_signature(&resigned, &reference),
        Some(RecoveryError::InvalidSignature(2, SignatureFault::ForeignSet))
    );
    assert_eq!(
        check_signature(&shares[1], &None),
        Some(RecoveryError::InvalidSignature(2, SignatureFault::ForeignSet))
    );
}

#[test]
fn recover_shares_from_any_quorum() {
    let secret = b"attack at dawn".to_vec();
    let rows = vec![vec![0x11; 14], (0..14).collect::<Vec<u8>>()];
    let shares = split_with(&secret, &rows, 3, 5, false);
    for picks in [[0usize, 1, 2], [4, 2, 0], [1, 3, 4], [3, 2, 1]] {
        let chosen: Vec<Share> = picks.iter().map(|i| shares[*i].clone()).collect();
        assert_eq!(recover_shares(&chosen, false), Ok(secret.clone()));
    }
    assert_eq!(recover_shares(&shares, false), Ok(secret.clone()));
}

#[test]
fn recover_shares_reports_each_failure() {
    let secret = b"abc".to_vec();
    let shares = split_with(&secret, &vec![vec![9, 8, 7]], 2, 3, true);
    assert_eq!(
        recover_shares(&vec![], false),
        Err(RecoveryError::InsufficientShares { have: 0, need: 1 })
    );
    assert_eq!(
        recover_shares(&vec![shares[0].clone()], false),
        Err(RecoveryError::InsufficientShares { have: 1, need: 2 })
    );
    let mut invalid = shares[1].clone();
    invalid.id = 0;
    assert_eq!(
        recover_shares(&vec![shares[0].clone(), invalid], false),
        Err(RecoveryError::ShareParsingError(1))
    );
    let mut longer = shares[2].clone();
    longer.data.push(0);
    assert_eq!(
        recover_shares(&vec![shares[0].clone(), shares[1].clone(), longer], false),
        Err(RecoveryError::ShareParsingError(2))
    );
    assert_eq!(
        recover_shares(&vec![shares[0].clone(), shares[1].clone(), shares[0].clone()], false),
        Err(RecoveryError::DuplicateShareId(1))
    );
    let mut other = shares[1].clone();
    other.data[2] ^= 0x40;
    assert_eq!(
        recover_shares(&vec![shares[1].clone(), shares[0].clone(), other.clone()], false),
        Err(RecoveryError::DuplicateShareData(2))
    );
    assert_eq!(
        recover_shares(&vec![shares[0].clone(), other], true),
        Err(RecoveryError::InvalidSignature(2, SignatureFault::WrongDigest))
    );
    let unsigned = split_with(&secret, &vec![vec![9, 8, 7]], 2, 3, false);
    assert_eq!(recover_shares(&unsigned, true), Err(RecoveryError::MissingSignature(1)));
    assert_eq!(recover_shares(&unsigned, false), Ok(secret.clone()));
    assert_eq!(recover_shares(&shares, true), Ok(secret));
}

#[test]
fn partition_groups_by_parameters_in_order_of_appearance() {
    let shares = vec![
        share(2, 2, 3, b"a"),
        share(1, 2, 4, b"b"),
        share(3, 2, 3, b"c"),
        share(4, 3, 4, b"d"),
        share(2, 2, 4, b"e"),
    ];
    let expected = vec![
        ShareGroup { threshold: 2, shares_count: 3, share_ids: vec![2, 3] },
        ShareGroup { threshold: 2, shares_count: 4, share_ids: vec![1, 2] },
        ShareGroup { threshold: 3, shares_count: 4, share_ids: vec![4] },
    ];
    assert_eq!(partition_shares(&shares), expected);
    assert_eq!(recover_shares(&shares, false), Err(RecoveryError::IncompatibleSets(expected)));
    assert_eq!(partition_shares(&vec![]), vec![]);
}

#[test]
fn recovers_secrets_shared_by_other_implementations_of_the_same_field() {
    let first = base64::decode_config("1YAYwmOHqZ69jA", base64::STANDARD_NO_PAD).unwrap();
    let second = base64::decode_config("F7rAjX3UOa53KA", base64::STANDARD_NO_PAD).unwrap();
    let third = base64::decode_config("YJZQDGm22Y77Gw", base64::STANDARD_NO_PAD).unwrap();
    let shares = vec![share(1, 2, 5, &first), share(4, 2, 5, &second)];
    assert_eq!(recover_shares(&shares, false), Ok(b"My secret\n".to_vec()));
    let others = vec![share(2, 2, 5, &third), share(4, 2, 5, &second)];
    assert_eq!(recover_shares(&others, false), Ok(b"My secret\n".to_vec()));
}

#[test]
fn two_shares_of_one_id_are_duplicates_whatever_their_lengths() {
    let short = share(1, 2, 3, &[1, 2]);
    let long = share(1, 2, 3, &[1, 2, 3]);
    assert_eq!(
        recover_shares(&vec![short.clone(), long.clone()], false),
        Err(RecoveryError::DuplicateShareData(1))
    );
    assert_eq!(
        recover_shares(&vec![short.clone(), long.clone()], true),
        Err(RecoveryError::DuplicateShareData(1))
    );
    assert_eq!(
        recover_shares(&vec![short.clone(), short.clone()], false),
        Err(RecoveryError::DuplicateShareId(1))
    );
    // too few shares as well: the duplicate is still what is reported
    let first = share(4, 3, 5, &[9]);
    let second = share(4, 3, 5, &[9, 9]);
    assert_eq!(
        recover_shares(&vec![first.clone(), second], false),
        Err(RecoveryError::DuplicateShareData(4))
    );
    assert_eq!(
        recover_shares(&vec![first.clone(), first], false),
        Err(RecoveryError::DuplicateShareId(4))
    );
}

#[test]
fn failures_come_in_the_order_of_the_checks() {
    // two splits, each with too few shares: the sets are reported
    let mixed = vec![share(1, 3, 5, b"a"), share(2, 3, 5, b"b"), share(1, 3, 6, b"c")];
    assert_eq!(
        recover_shares(&mixed, false),
        Err(RecoveryError::IncompatibleSets(vec![
            ShareGroup { threshold: 3, shares_count: 5, share_ids: vec![1, 2] },
            ShareGroup { threshold: 3, shares_count: 6, share_ids: vec![1] },
        ]))
    );
    // an unsigned share and too few shares: the signature is reported
    let few = vec![share(1, 3, 5, b"a"), share(2, 3, 5, b"b")];
    assert_eq!(recover_shares(&few, true), Err(RecoveryError::MissingSignature(1)));
    assert_eq!(
        recover_shares(&few, false),
        Err(RecoveryError::InsufficientShares { have: 2, need: 3 })
    );
    // data of different lengths and too few shares: the number is reported
    let uneven = vec![share(1, 3, 5, b"a"), share(2, 3, 5, b"bb")];
    assert_eq!(
        recover_shares(&uneven, false),
        Err(RecoveryError::InsufficientShares { have: 2, need: 3 })
    );
    // enough shares with data of different lengths: the place of the first that differs
    let enough = vec![share(1, 2, 5, b"a"), share(2, 2, 5, b"bb"), share(3, 2, 5, b"ccc")];
    assert_eq!(recover_shares(&enough, false), Err(RecoveryError::ShareParsingError(1)));
}
