//! Keyrings and the text they are read from.

use smart_fec_tunnel::keyring::{
    is_private_mode, key, parse_keyring, scan_keyring, KeyringError, KeyringKind,
};
use smart_fec_tunnel::quic_relay;
use smart_fec_tunnel::text::{is_space, parse_decimal, split_pieces, split_words};

#[test]
fn only_the_owner_may_read_a_keyring() {
    for mode in [0o600, 0o400, 0o700, 0o100600, 0o4600, 0] {
        assert!(is_private_mode(mode), "{mode:o}");
    }
    for mode in [0o640, 0o604, 0o610, 0o602, 0o644, 0o100777] {
        assert!(!is_private_mode(mode), "{mode:o}");
    }
}

#[test]
fn keyring_rejects_weak_duplicate_and_reserved_entries() {
    for invalid in [
        "",
        "0 abcdefghijklmnop",
        "1 short",
        "1 abcdefghijklmnop\n1 different-secret-value",
    ] {
        assert!(quic_relay::parse_keyring(invalid).is_err());
    }
    assert_eq!(
        quic_relay::parse_keyring("7 abcdefghijklmnop\n8 different-secret-value\n")
            .unwrap()
            .len(),
        2
    );
}

#[test]
fn keys_are_hashes_of_secrets() {
    let secret = "a-device-secret-of-at-least-32-bytes";
    assert_eq!(key(secret), *blake3::hash(secret.as_bytes()).as_bytes());
    assert_eq!(
        key(""),
        [
            0xaf, 0x13, 0x49, 0xb9, 0xf5, 0xf9, 0xa1, 0xa6, 0xa0, 0x40, 0x4d, 0xea, 0x36, 0xdc,
            0xc9, 0x49, 0x9b, 0xcb, 0x25, 0xc9, 0xad, 0xc1, 0x12, 0xb7, 0xcc, 0x9a, 0x93, 0xca,
            0xe4, 0x1f, 0x32, 0x62
        ]
    );
    let keys = parse_keyring(&format!("12 {secret}\n")).unwrap();
    assert_eq!(keys[&12], key(secret));
}

#[test]
fn keyring_mistakes_are_named_with_their_lines() {
    let long = "0123456789abcdef0123456789abcdef";
    let scan = |text: &str| scan_keyring(text, KeyringKind::Device).unwrap_err();
    assert_eq!(scan(""), KeyringError::NoKeys);
    assert_eq!(scan("# nothing\n\n   \n"), KeyringError::NoKeys);
    assert_eq!(scan("\nx 1"), KeyringError::InvalidKeyId { line: 2 });
    assert_eq!(
        scan(&format!("18446744073709551616 {long}")),
        KeyringError::InvalidKeyId { line: 1 }
    );
    assert_eq!(scan("5"), KeyringError::MissingSecret);
    assert_eq!(scan(&format!("0 {long}")), KeyringError::InvalidEntry { line: 1 });
    assert_eq!(scan("1 short"), KeyringError::InvalidEntry { line: 1 });
    assert_eq!(
        scan(&format!("1 {long} more")),
        KeyringError::InvalidEntry { line: 1 }
    );
    assert_eq!(
        scan(&format!("1 {long}\n# gap\n1 {long}")),
        KeyringError::DuplicateKeyId { line: 3 }
    );
    assert_eq!(
        scan_keyring("1 0123456789abcdef\n1 0123456789abcdef", KeyringKind::Relay).unwrap_err(),
        KeyringError::InvalidEntry { line: 2 }
    );
}

#[test]
fn keyring_length_is_counted_in_bytes() {
    // Sixteen two-byte characters are thirty-two bytes.
    let accented = "éééééééééééééééé";
    assert_eq!(accented.len(), 32);
    let keys = parse_keyring(&format!("3 {accented}")).unwrap();
    assert_eq!(keys[&3], key(accented));
}

#[test]
fn keyring_takes_any_white_space_and_a_plus_sign() {
    let long = "0123456789abcdef0123456789abcdef";
    let secrets = scan_keyring(
        &format!("\t +7\u{00a0}{long} \r\n\u{3000}8 {long}\r\n"),
        KeyringKind::Device,
    )
    .unwrap();
    assert_eq!(secrets.len(), 2);
    assert_eq!(secrets[&7], long);
    assert_eq!(secrets[&8], long);
}

#[test]
fn keyring_is_bounded() {
    let mut text = String::new();
    for id in 1..=65_536u32 {
        text.push_str(&format!("{id} 0123456789abcdef0123456789abcdef\n"));
    }
    assert_eq!(scan_keyring(&text, KeyringKind::Device).unwrap().len(), 65_536);
    text.push_str("65537 0123456789abcdef0123456789abcdef\n");
    assert_eq!(
        scan_keyring(&text, KeyringKind::Device).unwrap_err(),
        KeyringError::TooManyKeys
    );
    assert_eq!(scan_keyring(&text, KeyringKind::Relay).unwrap().len(), 65_537);
}

#[test]
fn decimals_are_read_as_the_standard_library_reads_them() {
    for word in [
        "", "+", "-1", "0", "00", "+0", "1", "007", "18446744073709551615", "18446744073709551616",
        "99999999999999999999999", "1a", " 1", "١", "++1",
    ] {
        assert_eq!(parse_decimal(word), word.parse::<u64>().ok());
    }
}

#[test]
fn white_space_is_that_of_the_standard_library() {
    for code in 0..=0x10_ffffu32 {
        if let Some(c) = char::from_u32(code) {
            assert_eq!(is_space(c), c.is_whitespace());
        }
    }
}

#[test]
fn text_is_split_as_the_standard_library_splits_it() {
    for line in ["", " ", "a", " a  b\tc ", "one two", "\u{2003}x\u{2003}"] {
        let chars: Vec<char> = line.chars().collect();
        let words: Vec<String> = line.split_whitespace().map(|w| w.to_string()).collect();
        assert_eq!(split_words(&chars), words);
        let pieces: Vec<String> = split_pieces(&chars, ' ')
            .into_iter()
            .map(|p| p.into_iter().collect())
            .collect();
        let expected: Vec<String> = line.split(' ').map(|p| p.to_string()).collect();
        assert_eq!(pieces, expected);
    }
}
