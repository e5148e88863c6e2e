use secret_sharing::recover::recover_shares;
use secret_sharing::share::Share;
use secret_sharing::split::split_with;

fn unpadded(data: &[u8]) -> String {
    base64::encode_config(data, base64::STANDARD_NO_PAD)
}

fn read(text: &str, threshold: u8, shares_count: u8) -> Share {
    let parts: Vec<&str> = text.split('-').collect();
    assert_eq!(parts.len(), 3);
    assert_eq!(parts[0].parse::<u8>().unwrap(), threshold);
    Share {
        id: parts[1].parse().unwrap(),
        threshold,
        shares_count,
        data: base64::decode_config(parts[2], base64::STANDARD_NO_PAD).unwrap(),
        signature: None,
    }
}

#[test]
fn rusty_secrets_recovers_from_the_data_of_these_shares() {
    let secret = b"The same field, the same polynomials.".to_vec();
    let rows = vec![
        (0..secret.len()).map(|i| (i * 7 + 1) as u8).collect::<Vec<u8>>(),
        (0..secret.len()).map(|i| (i * 13 + 5) as u8).collect::<Vec<u8>>(),
    ];
    let shares = split_with(&secret, &rows, 3, 5, false);
    for picks in [[0usize, 1, 2], [4, 0, 2], [3, 4, 1]] {
        let texts: Vec<String> = picks
            .iter()
            .map(|i| format!("3-{}-{}", shares[*i].id, unpadded(&shares[*i].data)))
            .collect();
        assert_eq!(rusty_secrets::recover_secret(texts).unwrap(), secret);
    }
}

#[test]
fn these_functions_recover_from_the_shares_of_rusty_secrets() {
    let secret = b"Shares made elsewhere, recovered here.".to_vec();
    let texts = rusty_secrets::generate_shares(3, 5, &secret).unwrap();
    assert_eq!(texts.len(), 5);
    let shares: Vec<Share> = texts.iter().map(|t| read(t, 3, 5)).collect();
    for picks in [[0usize, 1, 2], [4, 0, 2], [3, 4, 1]] {
        let chosen: Vec<Share> = picks.iter().map(|i| shares[*i].clone()).collect();
        assert_eq!(recover_shares(&chosen, false), Ok(secret.clone()));
    }
}
