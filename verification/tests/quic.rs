//! Authentication and carrier of the QUIC transport.

use smart_fec_tunnel::clock::ClockError;
use smart_fec_tunnel::keyring::key;
use smart_fec_tunnel::pem::{
    certificates, private_key, some_certificates, some_private_key, KeyKind, PemError, PrivateKey,
};
use smart_fec_tunnel::quic_auth::{
    envelope_device_id, envelope_nonce, envelope_prefix, make_envelope, time_shown, unix_time,
    verify_envelope, verify_proof, AuthError, ReplayCache, DEFAULT_AUTH_WINDOW_SECS,
    DEFAULT_REPLAY_CAPACITY, ENVELOPE_LEN, PREFIX_LEN,
};
use smart_fec_tunnel::quic_relay::{
    authenticate, carrier_ping, carrier_pong, check_preface, identify, introduce, is_dead,
    is_welcome, next_delay, next_lane, parse_keyring, parse_stream_lanes, split_carrier,
    stream_datagram, stream_size, CarrierAction, CarrierError, CarrierReassembly,
    CarrierStatsSnapshot, LaneError, CARRIER_DEAD_TIMEOUT, CARRIER_HEADER, CARRIER_TTL,
    FIRST_DELAY_SECS, MAX_CARRIER_FRAGMENTS, MAX_CARRIER_GROUPS, MAX_DATAGRAM,
};

const SECRET: &str = "test-device-secret";
const BINDING: [u8; 32] = [7; 32];

#[test]
fn accepts_valid_channel_bound_envelope_once() {
    let mut cache = ReplayCache::new(8).unwrap();
    let envelope = make_envelope(SECRET, 7, 1_000, [1; 16], &BINDING);
    let claims = verify_envelope(&envelope, SECRET, &BINDING, 1_005, 30, &mut cache).unwrap();
    assert_eq!(claims.device_id, 7);
    assert!(verify_envelope(&envelope, SECRET, &BINDING, 1_005, 30, &mut cache).is_err());
}

#[test]
fn rejects_wrong_secret_binding_expiry_and_zero_device() {
    let valid = make_envelope(SECRET, 7, 1_000, [2; 16], &BINDING);
    for (secret, binding, now) in [
        ("wrong", BINDING, 1_000),
        (SECRET, [8; 32], 1_000),
        (SECRET, BINDING, 1_031),
    ] {
        let mut cache = ReplayCache::new(8).unwrap();
        assert!(verify_envelope(&valid, secret, &binding, now, 30, &mut cache).is_err());
    }
    let zero = make_envelope(SECRET, 0, 1_000, [3; 16], &BINDING);
    let mut cache = ReplayCache::new(8).unwrap();
    assert!(verify_envelope(&zero, SECRET, &BINDING, 1_000, 30, &mut cache).is_err());
}

#[test]
fn invalid_mac_does_not_poison_nonce_and_cache_is_bounded() {
    let mut cache = ReplayCache::new(2).unwrap();
    let mut invalid = make_envelope(SECRET, 7, 1_000, [4; 16], &BINDING);
    invalid[ENVELOPE_LEN - 1] ^= 1;
    assert!(verify_envelope(&invalid, SECRET, &BINDING, 1_000, 30, &mut cache).is_err());
    let valid = make_envelope(SECRET, 7, 1_000, [4; 16], &BINDING);
    assert!(verify_envelope(&valid, SECRET, &BINDING, 1_000, 30, &mut cache).is_ok());
    assert!(cache.check_and_insert([5; 16], 1_000, 30));
    assert!(cache.check_and_insert([6; 16], 1_000, 30));
    assert_eq!(cache.len(), 2);
}

#[test]
fn expired_entries_can_be_reused_after_window() {
    let mut cache = ReplayCache::new(2).unwrap();
    assert!(cache.check_and_insert([9; 16], 100, 30));
    assert!(!cache.check_and_insert([9; 16], 130, 30));
    assert!(cache.check_and_insert([9; 16], 131, 30));
}

#[test]
fn envelopes_have_a_fixed_layout() {
    let nonce = [0xabu8; 16];
    let envelope = make_envelope(SECRET, 0x0102, 0x0304, nonce, &BINDING);
    let mut expected = b"SFTA\x01\0\0\0\0\0\0\x01\x02\0\0\0\0\0\0\x03\x04".to_vec();
    expected.extend_from_slice(&nonce);
    assert_eq!(envelope[..PREFIX_LEN].to_vec(), expected);
    assert_eq!(envelope_prefix(0x0102, 0x0304, &nonce), expected);
    let mut message = expected;
    message.extend_from_slice(&BINDING);
    assert_eq!(
        envelope[PREFIX_LEN..],
        *blake3::keyed_hash(&key(SECRET), &message).as_bytes()
    );
    assert_eq!(envelope_device_id(&envelope), Ok(0x0102));
    assert_eq!(envelope_nonce(&envelope), nonce);
}

#[test]
fn authentication_mistakes_are_named() {
    let mut cache = ReplayCache::new(8).unwrap();
    let good = make_envelope(SECRET, 7, 1_000, [2; 16], &BINDING);
    let mut refuse = |envelope: &[u8], now: u64| {
        verify_envelope(envelope, SECRET, &BINDING, now, 30, &mut cache).unwrap_err()
    };
    assert_eq!(refuse(&good[..68], 1_000), AuthError::InvalidEnvelope);
    let mut wrong = good;
    wrong[0] = 0;
    assert_eq!(refuse(&wrong, 1_000), AuthError::InvalidEnvelope);
    let mut wrong = good;
    wrong[4] = 2;
    assert_eq!(refuse(&wrong, 1_000), AuthError::InvalidEnvelope);
    let zero = make_envelope(SECRET, 0, 1_000, [3; 16], &BINDING);
    assert_eq!(refuse(&zero, 1_000), AuthError::ZeroDevice);
    assert_eq!(refuse(&good, 969), AuthError::Expired);
    assert_eq!(refuse(&good, 1_031), AuthError::Expired);
    let mut wrong = good;
    wrong[PREFIX_LEN] ^= 0x80;
    assert_eq!(refuse(&wrong, 1_000), AuthError::InvalidProof);
    assert!(verify_envelope(&good, SECRET, &BINDING, 970, 30, &mut cache).is_ok());
    assert_eq!(
        verify_envelope(&good, SECRET, &BINDING, 1_000, 30, &mut cache).unwrap_err(),
        AuthError::Replayed
    );
    assert_eq!(ReplayCache::new(0).unwrap_err(), AuthError::ZeroCapacity);
}

#[test]
fn proofs_are_held_against_the_expected_one() {
    let mut cache = ReplayCache::new(8).unwrap();
    let mut envelope = make_envelope(SECRET, 7, 1_000, [2; 16], &BINDING);
    envelope[PREFIX_LEN..].copy_from_slice(&[0x5a; 32]);
    assert_eq!(
        verify_proof(&envelope, &[0x5b; 32], 1_000, 30, &mut cache).unwrap_err(),
        AuthError::InvalidProof
    );
    assert_eq!(cache.len(), 0);
    let claims = verify_proof(&envelope, &[0x5a; 32], 1_000, 30, &mut cache).unwrap();
    assert_eq!((claims.device_id, claims.timestamp, claims.nonce), (7, 1_000, [2; 16]));
    assert_eq!(cache.len(), 1);
}

#[test]
fn nonces_are_refused_while_one_before_them_counts() {
    let mut cache = ReplayCache::new(4).unwrap();
    assert!(cache.check_and_insert([1; 16], 20, 30));
    assert!(cache.check_and_insert([2; 16], 10, 30));
    assert!(!cache.check_and_insert([2; 16], 45, 30));
    assert!(!cache.check_and_insert([2; 16], 50, 30));
    assert!(cache.check_and_insert([2; 16], 51, 30));
}

#[test]
fn envelopes_stay_refused_whatever_comes_in_between() {
    let mut cache = ReplayCache::new(4).unwrap();
    let envelope = make_envelope(SECRET, 7, 1_000, [1; 16], &BINDING);
    verify_envelope(&envelope, SECRET, &BINDING, 1_000, 30, &mut cache).unwrap();
    for n in 2..5 {
        let other = make_envelope(SECRET, 8, 1_000 + n as u64, [n; 16], &BINDING);
        verify_envelope(&other, SECRET, &BINDING, 1_001, 30, &mut cache).unwrap();
        assert_eq!(
            verify_envelope(&envelope, SECRET, &BINDING, 1_002, 30, &mut cache).unwrap_err(),
            AuthError::Replayed
        );
    }
}

fn pem_section(label: &str, body: &str) -> String {
    format!("-----BEGIN {label}-----\n{body}\n-----END {label}-----\n")
}

#[test]
fn certificates_are_read_in_their_order() {
    let mut pem = String::from("issued for a test\n");
    pem += &pem_section("CERTIFICATE", "AQID");
    pem += &pem_section("PRIVATE KEY", "BAUG");
    pem += &pem_section("CERTIFICATE", "BwgJCg==");
    assert_eq!(
        certificates(pem.as_bytes()).unwrap(),
        vec![vec![1, 2, 3], vec![7, 8, 9, 10]]
    );
    let key = pem_section("PRIVATE KEY", "BAUG");
    for empty in ["", "no section at all\n", &key] {
        assert_eq!(certificates(empty.as_bytes()).unwrap_err(), PemError::Empty);
    }
    let cut = "-----BEGIN CERTIFICATE-----\nAQID\n";
    assert_eq!(certificates(cut.as_bytes()).unwrap_err(), PemError::Malformed);
    let garbled = pem_section("CERTIFICATE", "A?ID");
    assert_eq!(certificates(garbled.as_bytes()).unwrap_err(), PemError::Malformed);
    assert_eq!(some_certificates(None), Err(PemError::Malformed));
    assert_eq!(some_certificates(Some(vec![])), Err(PemError::Empty));
    assert_eq!(some_certificates(Some(vec![vec![1]])), Ok(vec![vec![1]]));
}

#[test]
fn the_first_private_key_is_read() {
    for (label, kind) in [
        ("PRIVATE KEY", KeyKind::Pkcs8),
        ("RSA PRIVATE KEY", KeyKind::Pkcs1),
        ("EC PRIVATE KEY", KeyKind::Sec1),
    ] {
        let mut pem = pem_section("CERTIFICATE", "AQID");
        pem += &pem_section(label, "BAUG");
        pem += &pem_section("PRIVATE KEY", "BwgJCg==");
        let key = private_key(pem.as_bytes()).unwrap();
        assert_eq!((key.kind, key.der), (kind, vec![4, 5, 6]));
    }
    let certificate = pem_section("CERTIFICATE", "AQID");
    for empty in ["", &certificate] {
        assert_eq!(private_key(empty.as_bytes()).unwrap_err(), PemError::Empty);
    }
    let garbled = pem_section("PRIVATE KEY", "A?ID");
    assert_eq!(private_key(garbled.as_bytes()).unwrap_err(), PemError::Malformed);
    assert_eq!(some_private_key(None).unwrap_err(), PemError::Malformed);
    assert_eq!(some_private_key(Some(None)).unwrap_err(), PemError::Empty);
    let key = PrivateKey { kind: KeyKind::Sec1, der: vec![9] };
    assert_eq!(some_private_key(Some(Some(key))).unwrap().der, vec![9]);
}

#[test]
fn replay_memory_lets_the_oldest_go() {
    let mut cache = ReplayCache::new(2).unwrap();
    assert!(cache.check_and_insert([1; 16], 10, 30));
    assert!(cache.check_and_insert([2; 16], 10, 30));
    assert!(cache.check_and_insert([3; 16], 10, 30));
    assert!(!cache.check_and_insert([2; 16], 10, 30));
    assert!(!cache.check_and_insert([3; 16], 10, 30));
    assert!(cache.check_and_insert([1; 16], 10, 30));
    assert!(cache.check_and_insert([4; 16], u64::MAX, 30));
    assert_eq!(cache.len(), 1);
    assert_eq!(DEFAULT_REPLAY_CAPACITY, 65_536);
}

#[test]
fn replays_stay_refused_until_the_memory_is_filled_anew() {
    let mut cache = ReplayCache::new(4).unwrap();
    assert!(cache.check_and_insert([9; 16], 10, 30));
    for n in 1..4 {
        assert!(cache.check_and_insert([n; 16], 10 + n as u64, 30));
        assert!(!cache.check_and_insert([9; 16], 40, 30));
    }
    assert!(cache.check_and_insert([4; 16], 40, 30));
    assert!(cache.check_and_insert([9; 16], 40, 30));
    assert_eq!(cache.len(), 4);
}

#[test]
fn devices_are_looked_up_and_authenticated() {
    let keys = parse_keyring("7 a-relay-secret-of-ours").unwrap();
    let mut cache = ReplayCache::new(4).unwrap();
    let proof = make_envelope("a-relay-secret-of-ours", 7, 500, [6; 16], &BINDING);
    assert_eq!(identify(&proof, &keys).unwrap(), (7, [6; 16]));
    let stranger = make_envelope("whatever-it-may-be", 8, 500, [6; 16], &BINDING);
    assert_eq!(identify(&stranger, &keys).unwrap_err(), AuthError::UnknownDevice);
    assert_eq!(
        authenticate(&stranger, &keys, &BINDING, 500, &mut cache),
        Err(AuthError::UnknownDevice)
    );
    assert_eq!(
        authenticate(&proof, &keys, &[0; 32], 500, &mut cache),
        Err(AuthError::InvalidProof)
    );
    assert_eq!(authenticate(&proof, &keys, &BINDING, 530, &mut cache), Ok(7));
    assert_eq!(
        authenticate(&proof, &keys, &BINDING, 530, &mut cache),
        Err(AuthError::Replayed)
    );
    assert_eq!(
        authenticate(&proof, &keys, &BINDING, 500 + DEFAULT_AUTH_WINDOW_SECS + 1, &mut cache),
        Err(AuthError::Expired)
    );
    assert_eq!(cache.len(), 1);
    assert_eq!(
        introduce("secret", 0, 500, [5; 16], &BINDING).unwrap_err(),
        AuthError::ZeroDevice
    );
    assert_eq!(
        introduce("secret", 7, 500, [5; 16], &BINDING).unwrap(),
        make_envelope("secret", 7, 500, [5; 16], &BINDING)
    );
    assert!(is_welcome(b"OK"));
    assert!(!is_welcome(b"NO"));
    assert!(!is_welcome(b"OK\n"));
}

#[test]
fn the_clock_is_past_the_turn_of_the_century() {
    assert!(unix_time().unwrap() > 946_684_800);
    assert_eq!(time_shown(Some(12)), Ok(12));
    assert_eq!(time_shown(None), Err(ClockError::BeforeEpoch));
}

#[test]
fn stream_lane_mode_is_explicit_and_rejects_unvalidated_parallel_lanes() {
    assert_eq!(parse_stream_lanes(None).unwrap(), 0);
    assert_eq!(parse_stream_lanes(Some("1")).unwrap(), 1);
    for invalid in ["0", "2", "16", "invalid"] {
        assert!(parse_stream_lanes(Some(invalid)).is_err());
    }
}

fn carrier_fragment(message: u64, index: u16, count: u16, payload: &[u8]) -> Vec<u8> {
    let mut frame = Vec::new();
    frame.extend_from_slice(&message.to_be_bytes());
    frame.extend_from_slice(&index.to_be_bytes());
    frame.extend_from_slice(&count.to_be_bytes());
    frame.extend_from_slice(payload);
    frame
}

#[test]
fn carrier_reassembles_out_of_order_and_ignores_duplicates() {
    let mut received = CarrierReassembly::default();
    assert!(received
        .push(&carrier_fragment(4, 1, 3, b"bravo"))
        .unwrap()
        .is_none());
    assert!(received
        .push(&carrier_fragment(4, 1, 3, b"wrong"))
        .unwrap()
        .is_none());
    assert!(received
        .push(&carrier_fragment(4, 2, 3, b"charlie"))
        .unwrap()
        .is_none());
    assert_eq!(
        received.push(&carrier_fragment(4, 0, 3, b"alpha")).unwrap(),
        Some(b"alphabravocharlie".to_vec())
    );
}

#[test]
fn carrier_rejects_invalid_dimensions() {
    let mut received = CarrierReassembly::default();
    for frame in [
        vec![0; CARRIER_HEADER - 1],
        carrier_fragment(1, 0, 0, b""),
        carrier_fragment(1, 2, 2, b""),
        carrier_fragment(1, 0, (MAX_CARRIER_FRAGMENTS + 1) as u16, b""),
    ] {
        assert!(received.push(&frame).is_err());
    }
}

#[test]
fn lane_settings_are_named() {
    assert_eq!(parse_stream_lanes(Some("+1")), Ok(1));
    assert_eq!(parse_stream_lanes(Some("2")), Err(LaneError::Unsupported));
    assert_eq!(parse_stream_lanes(Some("one")), Err(LaneError::NotAnInteger));
    assert_eq!(parse_stream_lanes(Some("")), Err(LaneError::NotAnInteger));
    assert_eq!(next_lane(0, 1), 0);
    assert_eq!(next_lane(0, 3), 1);
    assert_eq!(next_lane(2, 3), 0);
    assert_eq!(check_preface(0x53), Ok(()));
    assert_eq!(check_preface(0), Err(LaneError::BadPreface));
}

#[test]
fn delays_double_up_to_half_a_minute() {
    let mut delay = FIRST_DELAY_SECS;
    let mut seen = Vec::new();
    for _ in 0..7 {
        seen.push(delay);
        delay = next_delay(delay);
    }
    assert_eq!(seen, vec![1, 2, 4, 8, 16, 30, 30]);
    assert_eq!(next_delay(u64::MAX), 30);
}

#[test]
fn silence_kills_a_carrier() {
    assert!(!is_dead(CARRIER_DEAD_TIMEOUT));
    assert!(is_dead(CARRIER_DEAD_TIMEOUT + 1));
}

#[test]
fn carrier_counters_are_differences() {
    let previous = CarrierStatsSnapshot {
        sent_packets: 50,
        lost_packets: 2,
        lost_bytes: 100,
        congestion_events: 9,
        udp_tx_bytes: 10,
        udp_rx_bytes: 20,
    };
    let current = CarrierStatsSnapshot {
        sent_packets: 250,
        lost_packets: 5,
        lost_bytes: 400,
        congestion_events: 3,
        udp_tx_bytes: 15,
        udp_rx_bytes: 26,
    };
    let delta = current.since(&previous);
    assert_eq!(
        delta,
        CarrierStatsSnapshot {
            sent_packets: 200,
            lost_packets: 3,
            lost_bytes: 300,
            congestion_events: 0,
            udp_tx_bytes: 5,
            udp_rx_bytes: 6,
        }
    );
    assert_eq!(delta.wire_loss_ppm(), Some(15_000));
    let mut few = CarrierStatsSnapshot::default();
    few.sent_packets = 99;
    assert_eq!(few.wire_loss_ppm(), None);
    few.sent_packets = 100;
    few.lost_packets = 1_000;
    assert_eq!(few.wire_loss_ppm(), Some(1_000_000));
}

#[test]
fn carrier_frames_have_a_fixed_layout() {
    let mut message = 6;
    let frames = split_carrier(b"abcde", Some(CARRIER_HEADER + 2), &mut message).unwrap();
    assert_eq!(message, 7);
    assert_eq!(
        frames,
        vec![
            carrier_fragment(7, 0, 3, b"ab"),
            carrier_fragment(7, 1, 3, b"cd"),
            carrier_fragment(7, 2, 3, b"e"),
        ]
    );
    message = u64::MAX;
    assert_eq!(
        split_carrier(b"", Some(1_200), &mut message).unwrap(),
        vec![carrier_fragment(0, 0, 1, b"")]
    );
}

#[test]
fn carrier_datagrams_survive_reordering_and_repetition() {
    let payload: Vec<u8> = (0..5_000u32).map(|i| (i % 251) as u8).collect();
    let mut message = 0;
    let mut frames = split_carrier(&payload, Some(1_212), &mut message).unwrap();
    assert_eq!(frames.len(), 5);
    frames.reverse();
    let mut received = CarrierReassembly::default();
    let last = frames.pop().unwrap();
    for frame in &frames {
        assert_eq!(received.push_at(frame, 0), Ok(None));
        assert_eq!(received.push_at(frame, CARRIER_TTL), Ok(None));
    }
    assert_eq!(received.push_at(&last, CARRIER_TTL), Ok(Some(payload)));
}

#[test]
fn carrier_datagrams_do_not_mix() {
    let mut message = 0;
    let first = split_carrier(&[1; 30], Some(CARRIER_HEADER + 16), &mut message).unwrap();
    let second = split_carrier(&[2; 20], Some(CARRIER_HEADER + 16), &mut message).unwrap();
    let mut received = CarrierReassembly::default();
    assert_eq!(received.push_at(&first[1], 0), Ok(None));
    assert_eq!(received.push_at(&second[0], 0), Ok(None));
    assert_eq!(received.push_at(&first[0], 0), Ok(Some(vec![1; 30])));
    assert_eq!(received.push_at(&second[1], 0), Ok(Some(vec![2; 20])));
}

#[test]
fn carrier_mistakes_are_named() {
    let mut message = 1;
    assert_eq!(
        split_carrier(b"x", None, &mut message).unwrap_err(),
        CarrierError::NotNegotiated
    );
    assert_eq!(
        split_carrier(b"x", Some(CARRIER_HEADER), &mut message).unwrap_err(),
        CarrierError::SizeTooSmall
    );
    assert_eq!(
        split_carrier(&[0; 129], Some(CARRIER_HEADER + 1), &mut message).unwrap_err(),
        CarrierError::TooManyFragments
    );
    assert_eq!(message, 1);
    let mut received = CarrierReassembly::default();
    assert_eq!(received.push_at(&[0; 11], 0), Err(CarrierError::ShortFragment));
    assert_eq!(
        received.push_at(&carrier_fragment(1, 0, 0, b""), 0),
        Err(CarrierError::InvalidDimensions)
    );
    assert_eq!(received.push_at(&carrier_fragment(1, 0, 2, b""), 0), Ok(None));
    assert_eq!(
        received.push_at(&carrier_fragment(1, 0, 3, b""), 0),
        Err(CarrierError::InconsistentCount)
    );
    assert_eq!(
        received.push_at(&carrier_fragment(2, 0, 1, &[0; MAX_DATAGRAM + 1]), 0),
        Err(CarrierError::DatagramTooLarge)
    );
    assert_eq!(
        received.push_at(&carrier_fragment(2, 0, 1, &[0; MAX_DATAGRAM]), 0),
        Ok(Some(vec![0; MAX_DATAGRAM]))
    );
}

#[test]
fn carrier_memory_is_bounded_and_expires() {
    let mut received = CarrierReassembly::default();
    for message in 0..MAX_CARRIER_GROUPS as u64 {
        assert_eq!(received.push_at(&carrier_fragment(message, 0, 2, b""), 0), Ok(None));
    }
    let more = carrier_fragment(1 << 40, 0, 2, b"");
    assert_eq!(received.push_at(&more, CARRIER_TTL), Err(CarrierError::LimitReached));
    assert_eq!(received.push_at(&more, CARRIER_TTL + 1), Ok(None));
    assert_eq!(
        received.push_at(&carrier_fragment(5, 1, 2, b""), CARRIER_TTL + 1),
        Ok(None)
    );
}

#[test]
fn carriers_answer_pings_and_pass_datagrams_on() {
    assert_eq!(carrier_ping(), *b"SFT-Q-PING-1");
    assert_eq!(carrier_pong(), *b"SFT-Q-PONG-1");
    let mut server = CarrierReassembly::default();
    assert!(matches!(
        server.server_receive(&carrier_ping()),
        Ok(CarrierAction::Pong)
    ));
    assert!(matches!(
        server.server_receive(&carrier_fragment(1, 0, 2, b"a")),
        Ok(CarrierAction::Wait)
    ));
    match server.server_receive(&carrier_fragment(1, 1, 2, b"b")) {
        Ok(CarrierAction::Forward(payload)) => assert_eq!(payload, b"ab".to_vec()),
        other => panic!("{other:?}"),
    }
    let mut client = CarrierReassembly::default();
    assert!(matches!(
        client.client_receive(&carrier_pong(), true),
        Ok(CarrierAction::Wait)
    ));
    assert!(matches!(
        client.client_receive(&carrier_fragment(1, 0, 1, b"a"), false),
        Ok(CarrierAction::Wait)
    ));
    match client.client_receive(&carrier_fragment(1, 0, 1, b"a"), true) {
        Ok(CarrierAction::Forward(payload)) => assert_eq!(payload, b"a".to_vec()),
        other => panic!("{other:?}"),
    }
    assert!(matches!(
        client.client_receive(&[1, 2], false),
        Err(CarrierError::ShortFragment)
    ));
}

#[test]
fn stream_datagrams_are_framed() {
    assert_eq!(stream_datagram(b"abc").unwrap(), b"\0\0\0\x03abc".to_vec());
    assert_eq!(stream_size(&[0, 0, 0, 3]), Ok(3));
    assert_eq!(stream_size(&[0, 0, 0xff, 0xff]), Ok(65_535));
    assert_eq!(
        stream_size(&[0, 1, 0, 0]),
        Err(CarrierError::StreamDatagramTooLarge)
    );
    assert_eq!(
        stream_datagram(&vec![0; MAX_DATAGRAM + 1]).unwrap_err(),
        CarrierError::StreamDatagramTooLarge
    );
}
