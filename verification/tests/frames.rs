//! Frames, their formats, and the keys that open them.

use smart_fec_tunnel::encoder::{Encoder, SHARD};
use smart_fec_tunnel::frame::{
    decode_client_frame, legacy_layout, starts_with_magic, v3_selector, Frame, FrameError, HEADER,
    HEADER_V2, KIND_DATA, KIND_REPORT, MAGIC, TAG, V3_OVERHEAD, VERSION_V1, VERSION_V2, VERSION_V3,
};
use smart_fec_tunnel::keyring::{key, parse_keyring};
use smart_fec_tunnel::server::{
    build_selectors, check_keys, check_limits, decode_server_frame, ServerError,
};
use std::collections::HashMap;

fn selector(k: &[u8; 32]) -> u64 {
    u64::from_be_bytes(v3_selector(k))
}

fn sample(version: u8, key_id: u64, payload: Vec<u8>) -> Frame {
    Frame {
        version,
        key_id,
        kind: KIND_DATA,
        session: 0x0102_0304_0506_0708,
        sequence: 11,
        group: 12,
        index: 13,
        data: 14,
        parity: 3,
        payload,
    }
}

fn same(a: &Frame, b: &Frame) -> bool {
    a.version == b.version
        && a.key_id == b.key_id
        && a.kind == b.kind
        && a.session == b.session
        && a.sequence == b.sequence
        && a.group == b.group
        && a.index == b.index
        && a.data == b.data
        && a.parity == b.parity
        && a.payload == b.payload
}

#[test]
fn frame_auth_roundtrip() {
    let k = key("test");
    let f = Frame {
        version: VERSION_V1,
        key_id: 0,
        kind: KIND_DATA,
        session: 1,
        sequence: 2,
        group: 3,
        index: 0,
        data: 10,
        parity: 2,
        payload: vec![7; SHARD],
    };
    let b = f.encode(&k);
    let d = Frame::decode(&b, &k).unwrap();
    assert_eq!(d.sequence, 2);
    assert_eq!(d.payload, f.payload);
}

#[test]
fn frame_rejects_tamper() {
    let k = key("test");
    let f = Frame {
        version: VERSION_V1,
        key_id: 0,
        kind: KIND_REPORT,
        session: 1,
        sequence: 1,
        group: 0,
        index: 0,
        data: 0,
        parity: 0,
        payload: vec![0; 4],
    };
    let mut b = f.encode(&k);
    b[20] ^= 1;
    assert!(Frame::decode(&b, &k).is_err());
}

#[test]
fn v2_frame_selects_device_key_and_authenticates() {
    let device_key = key("device-secret-long-enough");
    let mut enc = Encoder::with_identity(77, VERSION_V2, 42);
    let frame = enc.report_frame(1234);
    let bytes = frame.encode(&device_key);
    let keys = HashMap::from([(42, device_key)]);
    let (decoded, selected) = decode_server_frame(&bytes, None, &keys, &HashMap::new()).unwrap();
    assert_eq!(decoded.version, VERSION_V2);
    assert_eq!(decoded.key_id, 42);
    assert_eq!(decoded.session, 77);
    assert_eq!(selected, device_key);
}

#[test]
fn v2_frame_rejects_unknown_or_wrong_device_key() {
    let mut enc = Encoder::with_identity(77, VERSION_V2, 42);
    let bytes = enc.report_frame(0).encode(&key("correct-device-secret"));
    assert!(decode_server_frame(&bytes, None, &HashMap::new(), &HashMap::new()).is_err());
    let wrong = HashMap::from([(42, key("wrong-device-secret"))]);
    assert!(decode_server_frame(&bytes, None, &wrong, &HashMap::new()).is_err());
}

#[test]
fn v3_envelope_hides_header_and_authenticates() {
    let device_key = key("v3-device-secret-at-least-32-bytes");
    let frame = Encoder::with_identity(91, VERSION_V3, 7).report_frame(9876);
    let bytes = frame.encode_wire(&device_key).unwrap();
    assert!(!bytes.starts_with(&MAGIC.to_be_bytes()));
    assert!(!bytes.windows(4).any(|window| window == MAGIC.to_be_bytes()));
    let selectors = HashMap::from([(selector(&device_key), (7, device_key))]);
    let (decoded, _) = decode_server_frame(&bytes, None, &HashMap::new(), &selectors).unwrap();
    assert_eq!(decoded.version, VERSION_V3);
    assert_eq!(decoded.key_id, 7);
    assert_eq!(decoded.session, 91);
    let mut tampered = bytes;
    *tampered.last_mut().unwrap() ^= 1;
    assert!(decode_server_frame(&tampered, None, &HashMap::new(), &selectors).is_err());
}

#[test]
fn keyring_rejects_reserved_duplicate_and_short_entries() {
    assert!(parse_keyring("0 a-very-long-secret").is_err());
    assert!(parse_keyring("1 too-short").is_err());
    assert!(parse_keyring("1 first-secret-long\n1 second-secret-long").is_err());
    let parsed = parse_keyring(
        "# device keys\n1 first-device-secret-at-least-32-bytes\n2 second-device-secret-at-least-32-bytes",
    )
    .unwrap();
    assert_eq!(parsed.len(), 2);
}

#[test]
fn v1_layout_is_fixed() {
    let k = key("layout");
    let bytes = sample(VERSION_V1, 0, vec![0xaa, 0xbb]).encode(&k);
    assert_eq!(bytes.len(), HEADER + 2 + TAG);
    assert_eq!(
        bytes[..HEADER + 2].to_vec(),
        vec![
            0x53, 0x46, 0x45, 0x43, 1, 1, 1, 2, 3, 4, 5, 6, 7, 8, 0, 0, 0, 0, 0, 0, 0, 11, 0, 0, 0,
            0, 0, 0, 0, 12, 0, 13, 14, 3, 0, 2, 0xaa, 0xbb
        ]
    );
    assert!(starts_with_magic(&bytes));
    let layout = legacy_layout(&bytes).unwrap();
    assert_eq!((layout.header, layout.key_id, layout.offset), (HEADER, 0, 6));
}

#[test]
fn v2_layout_carries_the_device_number() {
    let k = key("layout");
    let bytes = sample(VERSION_V2, 0x1122_3344_5566_7788, vec![]).encode(&k);
    assert_eq!(bytes.len(), HEADER_V2 + TAG);
    assert_eq!(
        bytes[4..14].to_vec(),
        vec![2, 1, 0x11, 0x22, 0x33, 0x44, 0x55, 0x66, 0x77, 0x88]
    );
    let layout = legacy_layout(&bytes).unwrap();
    assert_eq!(
        (layout.header, layout.key_id, layout.offset),
        (HEADER_V2, 0x1122_3344_5566_7788, 14)
    );
}

#[test]
fn formats_round_trip_through_client_and_server() {
    let k = key("shared");
    let v1 = sample(VERSION_V1, 0, vec![1, 2, 3]);
    let v2 = sample(VERSION_V2, 5, vec![4; 700]);
    let v3 = sample(VERSION_V3, 5, vec![9; SHARD]);
    let keys = HashMap::from([(5u64, k)]);
    let selectors = build_selectors(&keys).unwrap();
    for f in [v1, v2, v3] {
        let bytes = f.encode_wire(&k).unwrap();
        let at_client = decode_client_frame(&bytes, 5, &k).unwrap();
        assert!(same(&at_client, &f));
        let (at_server, used) = decode_server_frame(&bytes, Some(&k), &keys, &selectors).unwrap();
        assert!(same(&at_server, &f));
        assert_eq!(used, k);
    }
}

#[test]
fn v3_envelope_of_a_full_shard_fits_an_ethernet_frame() {
    let k = key("size");
    let bytes = sample(VERSION_V3, 5, vec![0; SHARD]).encode_wire(&k).unwrap();
    assert_eq!(bytes.len(), SHARD + V3_OVERHEAD);
    assert_eq!(bytes.len(), 1459);
    assert!(bytes.len() <= 1472);
}

#[test]
fn v3_envelopes_of_one_frame_differ() {
    let k = key("nonce");
    let f = sample(VERSION_V3, 5, vec![1]);
    let a = f.encode_wire(&k).unwrap();
    let b = f.encode_wire(&k).unwrap();
    assert_eq!(a[..8], b[..8]);
    assert_ne!(a[8..32], b[8..32]);
    assert_ne!(a, b);
}

#[test]
fn v3_envelope_with_a_given_nonce_is_determined() {
    let k = key("nonce");
    let f = sample(VERSION_V3, 5, vec![1, 2, 3]);
    let nonce = [9u8; 24];
    let a = f.encode_wire_with_nonce(&k, &nonce).unwrap();
    let b = f.encode_wire_with_nonce(&k, &nonce).unwrap();
    assert_eq!(a, b);
    assert_eq!(a[..8], v3_selector(&k));
    assert_eq!(a[8..32], nonce);
    // The ciphertext is not the inner frame itself.
    assert_ne!(a[32..32 + f.v3_inner().len()].to_vec(), f.v3_inner());
    assert!(same(&Frame::decode_v3(&a, 5, &k).unwrap(), &f));
}

#[test]
fn legacy_decoder_names_each_mistake() {
    let k = key("errors");
    let good = sample(VERSION_V1, 0, vec![1, 2, 3]).encode(&k);
    assert_eq!(Frame::decode(&good[..21], &k).unwrap_err(), FrameError::ShortFrame);
    assert_eq!(Frame::decode(&good[..40], &k).unwrap_err(), FrameError::ShortFrame);
    let mut wrong_version = good.clone();
    wrong_version[4] = 9;
    assert_eq!(Frame::decode(&wrong_version, &k).unwrap_err(), FrameError::BadVersion);
    let v2 = sample(VERSION_V2, 3, vec![]).encode(&k);
    assert_eq!(
        Frame::decode(&v2[..HEADER_V2 + TAG - 1], &k).unwrap_err(),
        FrameError::ShortV2Frame
    );
    assert_eq!(Frame::decode(&good, &key("other")).unwrap_err(), FrameError::BadAuth);
    // Frames that are tagged but make no sense.
    let retag = |mut body: Vec<u8>| {
        let tag = *blake3::keyed_hash(&k, &body).as_bytes();
        body.extend_from_slice(&tag[..TAG]);
        body
    };
    let body = good[..good.len() - TAG].to_vec();
    let mut no_magic = body.clone();
    no_magic[0] = 0;
    assert_eq!(Frame::decode(&retag(no_magic), &k).unwrap_err(), FrameError::BadProtocol);
    let mut bad_length = body;
    bad_length[35] = 9;
    assert_eq!(Frame::decode(&retag(bad_length), &k).unwrap_err(), FrameError::BadLength);
}

#[test]
fn decoding_takes_the_digest_as_it_comes() {
    let k = key("digest");
    let f = sample(VERSION_V1, 0, vec![5, 6]);
    let bytes = f.encode(&k);
    let digest = *blake3::keyed_hash(&k, &bytes[..bytes.len() - TAG]).as_bytes();
    assert!(same(&Frame::decode_with_digest(&bytes, &digest).unwrap(), &f));
    assert_eq!(
        Frame::decode_with_digest(&bytes, &[0; 32]).unwrap_err(),
        FrameError::BadAuth
    );
}

#[test]
fn v3_decoder_names_each_mistake() {
    let k = key("errors");
    let good = sample(VERSION_V3, 8, vec![1, 2, 3]).encode_wire(&k).unwrap();
    assert_eq!(Frame::decode_v3(&good[..78], 8, &k).unwrap_err(), FrameError::InvalidV3Envelope);
    assert_eq!(
        Frame::decode_v3(&good, 8, &key("other")).unwrap_err(),
        FrameError::InvalidV3Envelope
    );
    let mut tampered = good.clone();
    tampered[40] ^= 1;
    assert_eq!(
        Frame::decode_v3(&tampered, 8, &k).unwrap_err(),
        FrameError::V3Authentication
    );
    assert_eq!(
        Frame::decode_v3_inner(&[0; 30], 8).unwrap_err(),
        FrameError::ShortV3Payload
    );
    assert_eq!(
        Frame::decode_v3_inner(&[0xff; 31], 8).unwrap_err(),
        FrameError::BadV3Length
    );
}

#[test]
fn v3_envelopes_open_as_they_were_sealed() {
    let k = key("device-key");
    let f = sample(VERSION_V3, 5, vec![7; SHARD]);
    let bytes = f.encode_wire(&k).unwrap();
    assert_eq!((V3_OVERHEAD, bytes.len()), (79, 1459));
    assert_eq!(bytes[..8], v3_selector(&k));
    // Whichever device the envelope is taken to be from, the frame is its own.
    for id in [0, 5, 6, u64::MAX] {
        let opened = Frame::decode_v3(&bytes, id, &k).unwrap();
        assert!(same(&opened, &Frame { key_id: id, ..f.clone() }));
        let mut nonce = [0u8; 24];
        nonce.copy_from_slice(&bytes[8..32]);
        assert_eq!(opened.encode_wire_with_nonce(&k, &nonce).unwrap(), bytes);
    }
    // No other byte is taken anywhere in the tag.
    for at in bytes.len() - 16..bytes.len() {
        let mut tampered = bytes.clone();
        tampered[at] ^= 0x80;
        assert_eq!(
            Frame::decode_v3(&tampered, 5, &k).unwrap_err(),
            FrameError::V3Authentication
        );
    }
    // Every envelope has a nonce of its own.
    assert_ne!(f.encode_wire(&k).unwrap()[8..32], bytes[8..32]);
}

#[test]
fn server_decoder_names_each_mistake() {
    let k = key("errors");
    let none = HashMap::new();
    let no_selectors = HashMap::new();
    let fail = |bytes: &[u8]| {
        decode_server_frame(bytes, None, &none, &no_selectors)
            .unwrap_err()
    };
    assert_eq!(fail(&[1, 2, 3]), FrameError::ShortV3Envelope);
    assert_eq!(fail(&[0; 100]), FrameError::UnknownSelector);
    assert_eq!(fail(&[0x53, 0x46, 0x45, 0x43, 1]), FrameError::ShortLegacyFrame);
    assert_eq!(
        fail(&sample(VERSION_V1, 0, vec![]).encode(&k)),
        FrameError::LegacyDisabled
    );
    assert_eq!(fail(&[0x53, 0x46, 0x45, 0x43, 2, 1]), FrameError::ShortV2Frame);
    assert_eq!(
        fail(&sample(VERSION_V2, 7, vec![]).encode(&k)),
        FrameError::UnknownKeyId
    );
    assert_eq!(fail(&[0x53, 0x46, 0x45, 0x43, 7, 1]), FrameError::UnsupportedVersion);
}

#[test]
fn selectors_are_the_keyed_hash_of_a_label() {
    let k = key("selector");
    let digest = *blake3::keyed_hash(&k, b"smart-fec-v3-routing-selector").as_bytes();
    assert_eq!(v3_selector(&k), digest[..8]);
    let keys = HashMap::from([(1u64, k), (2u64, key("second"))]);
    let selectors = build_selectors(&keys).unwrap();
    assert_eq!(selectors.len(), 2);
    assert_eq!(selectors[&selector(&k)], (1, k));
}

#[test]
fn selector_collisions_are_refused() {
    let k = key("same");
    let keys = HashMap::from([(1u64, k), (2u64, k)]);
    assert_eq!(build_selectors(&keys).unwrap_err(), ServerError::SelectorCollision);
}

#[test]
fn server_limits_are_checked() {
    assert_eq!(check_limits(1, 10), Ok(()));
    assert_eq!(check_limits(65_536, 86_400), Ok(()));
    assert_eq!(check_limits(0, 10), Err(ServerError::MaxSessionsOutOfRange));
    assert_eq!(check_limits(65_537, 10), Err(ServerError::MaxSessionsOutOfRange));
    assert_eq!(check_limits(1, 9), Err(ServerError::IdleOutOfRange));
    assert_eq!(check_limits(1, 86_401), Err(ServerError::IdleOutOfRange));
    assert_eq!(check_keys(false, &HashMap::new()), Err(ServerError::NoKeys));
    assert_eq!(check_keys(true, &HashMap::new()), Ok(()));
    assert_eq!(check_keys(false, &HashMap::from([(1, [0; 32])])), Ok(()));
}
