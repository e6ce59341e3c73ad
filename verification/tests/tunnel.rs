//! Encoder, decoder, endpoints and the sessions of a server.

use smart_fec_tunnel::adaptive::{Adaptive, MAX_PARITY};
use smart_fec_tunnel::admission::{Admission, SessionTable};
use smart_fec_tunnel::decoder::{
    parse_fragment, DecodeError, Decoder, GROUP_TTL, MAX_GROUPS, MAX_REASSEMBLIES, REASSEMBLY_TTL,
};
use smart_fec_tunnel::encoder::{
    count_fragments, EncodeError, Encoder, CHUNK, FRAGMENT_HEADER, SHARD,
};
use smart_fec_tunnel::endpoint::{client_identity, Endpoint, IdentityError, Inbound};
use smart_fec_tunnel::frame::{
    Frame, KIND_DATA, KIND_PARITY, KIND_REPORT, VERSION_V1, VERSION_V2, VERSION_V3,
};
use smart_fec_tunnel::server::ServerError;

#[test]
fn duplicate_authenticated_frame_is_not_delivered_twice() {
    let mut enc = Encoder::with_identity(7, VERSION_V2, 3);
    enc.adaptive.parity = 0;
    enc.encode_datagram(b"payload").unwrap();
    let frame = enc.flush().unwrap().remove(0);
    let mut decoder = Decoder::new(7);
    assert_eq!(
        decoder.frame(frame.clone()).unwrap(),
        vec![b"payload".to_vec()]
    );
    assert!(decoder.frame(frame).unwrap().is_empty());
}

#[test]
fn sessions_keep_independent_decoder_state() {
    let mut first_encoder = Encoder::with_identity(10, VERSION_V2, 1);
    let mut second_encoder = Encoder::with_identity(20, VERSION_V2, 2);
    first_encoder.adaptive.parity = 0;
    second_encoder.adaptive.parity = 0;
    first_encoder.encode_datagram(b"first").unwrap();
    second_encoder.encode_datagram(b"second").unwrap();
    let first = first_encoder.flush().unwrap().remove(0);
    let second = second_encoder.flush().unwrap().remove(0);
    let mut first_decoder = Decoder::new(10);
    let mut second_decoder = Decoder::new(20);
    assert_eq!(first_decoder.frame(first).unwrap(), vec![b"first".to_vec()]);
    assert_eq!(
        second_decoder.frame(second).unwrap(),
        vec![b"second".to_vec()]
    );
}

#[test]
fn adaptive_has_hysteresis() {
    let mut a = Adaptive::default();
    for _ in 0..8 {
        a.report(200_000);
    }
    assert_eq!(a.parity, 3);
    for _ in 0..24 {
        a.report(0);
    }
    assert!(a.parity < 3);
    for _ in 0..20 {
        a.report(1_000_000);
    }
    assert_eq!(a.parity, MAX_PARITY);
}

#[test]
fn adaptive_reacts_to_bursty_loss() {
    let mut a = Adaptive {
        parity: 0,
        ..Adaptive::default()
    };
    for loss in [0, 250_000, 0, 180_000, 0, 220_000, 0, 150_000] {
        a.report(loss);
    }
    assert!(a.parity >= 1);
    assert!(a.parity <= MAX_PARITY);
}

#[test]
fn fec_recovers_missing_shard() {
    let mut enc = Encoder::new(9);
    enc.adaptive.parity = 2;
    let mut all = Vec::new();
    for i in 0..10 {
        all.extend(enc.encode_datagram(&[i as u8; 20]).unwrap());
    }
    let mut dec = Decoder::new(9);
    let mut output = Vec::new();
    for f in all
        .into_iter()
        .filter(|f| !(f.kind == KIND_DATA && f.index == 4))
    {
        output.extend(dec.frame(f).unwrap());
    }
    assert_eq!(output.len(), 10);
    assert!(output.iter().any(|x| x == &vec![4u8; 20]));
}

#[test]
fn reorder_window_does_not_report_loss() {
    let mut d = Decoder::new(1);
    d.observe_seq(1);
    for block in 0..4u64 {
        let base = block * 50 + 1;
        for seq in (base + 1..=base + 50).rev() {
            d.observe_seq(seq);
        }
    }
    assert_eq!(d.loss_report(), 0);
}

#[test]
fn finalized_window_reports_real_loss_once() {
    let mut d = Decoder::new(1);
    for seq in 1..=200 {
        if seq != 20 && seq != 100 {
            d.observe_seq(seq);
        }
    }
    let loss = d.loss_report();
    assert_eq!(loss, 2_000_000u32 / 136);
    assert_eq!(d.loss_report(), 0);
}

#[test]
fn first_high_sequence_establishes_baseline() {
    let mut d = Decoder::new(1);
    for seq in 10_000..=10_200 {
        d.observe_seq(seq);
    }
    assert_eq!(d.loss_report(), 0);
}

#[test]
fn empty_datagram_roundtrip() {
    let mut enc = Encoder::new(7);
    enc.adaptive.parity = 0;
    assert!(enc.encode_datagram(&[]).unwrap().is_empty());
    let frames = enc.flush().unwrap();
    let mut dec = Decoder::new(7);
    let mut output = Vec::new();
    for frame in frames {
        output.extend(dec.frame(frame).unwrap());
    }
    assert_eq!(output, vec![Vec::<u8>::new()]);
}

#[test]
fn redundancy_starts_from_nothing() {
    let a = Adaptive::default();
    assert_eq!(a.parity, 0);
    assert_eq!(Adaptive::target(9_999), 0);
    assert_eq!(Adaptive::target(10_000), 1);
    assert_eq!(Adaptive::target(49_999), 1);
    assert_eq!(Adaptive::target(50_000), 2);
    assert_eq!(Adaptive::target(99_999), 2);
    assert_eq!(Adaptive::target(100_000), 3);
}

#[test]
fn redundancy_is_raised_by_two_reports_and_lowered_by_fifteen() {
    let mut a = Adaptive::default();
    a.report(400_000);
    assert_eq!(a.parity, 0);
    assert_eq!(a.smoothed_loss_ppm, 100_000);
    a.report(400_000);
    assert_eq!(a.parity, 1);
    let mut a = Adaptive {
        parity: 3,
        ..Adaptive::default()
    };
    for _ in 0..14 {
        a.report(0);
    }
    assert_eq!(a.parity, 3);
    a.report(0);
    assert_eq!(a.parity, 2);
}

#[test]
fn shards_carry_a_fragment_header() {
    let mut enc = Encoder::new(7);
    assert!(enc.encode_datagram(b"abc").unwrap().is_empty());
    assert_eq!(
        enc.shards,
        vec![vec![0, 0, 0, 0, 0, 0, 0, 1, 0, 0, 0, 1, 0, 3, b'a', b'b', b'c']]
    );
    let f = parse_fragment(&enc.shards[0]).unwrap();
    assert_eq!((f.packet, f.index, f.count), (1, 0, 1));
    assert_eq!(f.chunk, b"abc".to_vec());
    assert_eq!(enc.packet, 2);
}

#[test]
fn fragment_headers_that_make_no_sense_are_ignored() {
    let shard = |packet: u64, index: u16, count: u16, len: u16, body: usize| {
        let mut s = packet.to_be_bytes().to_vec();
        s.extend_from_slice(&index.to_be_bytes());
        s.extend_from_slice(&count.to_be_bytes());
        s.extend_from_slice(&len.to_be_bytes());
        s.extend(vec![7u8; body]);
        s
    };
    assert!(parse_fragment(&[0; FRAGMENT_HEADER - 1]).is_none());
    assert!(parse_fragment(&[0; SHARD + 1]).is_none());
    assert!(parse_fragment(&shard(1, 0, 0, 1, 1)).is_none());
    assert!(parse_fragment(&shard(1, 0, 65, 1, 1)).is_none());
    assert!(parse_fragment(&shard(1, 2, 2, 1, 1)).is_none());
    assert!(parse_fragment(&shard(1, 0, 1, (CHUNK + 1) as u16, 100)).is_none());
    assert!(parse_fragment(&shard(1, 0, 1, 2, 1)).is_none());
    assert_eq!(parse_fragment(&shard(1, 0, 64, 1, 5)).unwrap().chunk, vec![7]);
}

#[test]
fn groups_are_padded_and_numbered() {
    let mut enc = Encoder::with_identity(5, VERSION_V3, 8);
    enc.adaptive.parity = 1;
    enc.encode_datagram(&[1; 4]).unwrap();
    enc.encode_datagram(&[2; 9]).unwrap();
    let frames = enc.flush().unwrap();
    assert_eq!(frames.len(), 3);
    for (i, f) in frames.iter().enumerate() {
        assert_eq!(f.version, VERSION_V3);
        assert_eq!(f.key_id, 8);
        assert_eq!(f.session, 5);
        assert_eq!(f.sequence, 1 + i as u64);
        assert_eq!(f.group, 1);
        assert_eq!(f.index as usize, i);
        assert_eq!((f.data, f.parity), (2, 1));
        assert_eq!(f.payload.len(), FRAGMENT_HEADER + 9);
    }
    assert_eq!(frames[1].kind, KIND_DATA);
    assert_eq!(frames[2].kind, KIND_PARITY);
    // One parity shard of two data shards, from the generator matrix of the code.
    let codec = reed_solomon_erasure::galois_8::ReedSolomon::new(2, 1).unwrap();
    let shards: Vec<&[u8]> = frames.iter().map(|f| f.payload.as_slice()).collect();
    assert!(codec.verify(&shards).unwrap());
    assert_eq!((enc.sequence, enc.group), (4, 2));
    assert!(enc.flush().unwrap().is_empty());
}

#[test]
fn parity_grows_with_the_group() {
    for (data, wanted, parity) in [
        (1, 1, 1),
        (1, 2, 2),
        (1, 3, 2),
        (2, 3, 3),
        (9, 3, 3),
        (10, 1, 1),
        (10, 2, 2),
        (10, 3, 3),
        (10, 0, 0),
        (4, 0, 0),
    ] {
        let mut enc = Encoder::new(1);
        enc.adaptive.parity = wanted;
        let mut frames = Vec::new();
        for _ in 0..data {
            frames.extend(enc.encode_datagram(b"x").unwrap());
        }
        frames.extend(enc.flush().unwrap());
        assert_eq!(frames.len(), data + parity);
        assert_eq!(frames[0].parity as usize, parity);
    }
}

#[test]
fn datagrams_too_large_for_the_header_are_refused() {
    let mut enc = Encoder::new(1);
    assert_eq!(count_fragments(0), 1);
    assert_eq!(count_fragments(CHUNK), 1);
    assert_eq!(count_fragments(CHUNK + 1), 2);
    let huge = vec![0u8; CHUNK * 65_535 + 1];
    assert_eq!(
        enc.encode_datagram(&huge).unwrap_err(),
        EncodeError::DatagramTooLarge
    );
    assert_eq!(enc.packet, 2);
    assert!(enc.shards.is_empty());
}

#[test]
fn counters_tell_how_much_room_is_left() {
    let mut enc = Encoder::new(1);
    assert!(enc.can_encode(1_000_000));
    assert!(enc.can_flush());
    enc.packet = u64::MAX;
    assert!(!enc.can_encode(1));
    enc.packet = 1;
    enc.encode_datagram(b"x").unwrap();
    enc.sequence = u64::MAX;
    assert!(!enc.can_flush());
    enc.sequence = u64::MAX - 1;
    assert!(enc.can_flush());
    enc.group = u64::MAX;
    assert!(!enc.can_flush());
}

#[test]
fn reports_carry_the_loss() {
    let mut enc = Encoder::with_identity(3, VERSION_V1, 0);
    let f = enc.report_frame(0x0001_0203);
    assert_eq!(f.kind, KIND_REPORT);
    assert_eq!(f.payload, vec![0, 1, 2, 3]);
    assert_eq!((f.sequence, enc.sequence), (1, 2));
}

fn frames_of(datagrams: &[Vec<u8>], parity: usize) -> Vec<Frame> {
    let mut enc = Encoder::new(9);
    enc.adaptive.parity = parity;
    let mut frames = Vec::new();
    for d in datagrams {
        frames.extend(enc.encode_datagram(d).unwrap());
    }
    frames.extend(enc.flush().unwrap());
    frames
}

#[test]
fn large_datagrams_survive_loss_repetition_and_reordering() {
    let datagrams: Vec<Vec<u8>> = (0..5u8)
        .map(|i| (0..7_000 + 13 * i as usize).map(|j| (j as u8) ^ i).collect())
        .collect();
    let frames = frames_of(&datagrams, 3);
    // Of every group lose three frames, then send what is left backwards and twice,
    // the first frame first.
    let mut kept: Vec<Frame> = frames
        .iter()
        .filter(|f| f.index != 1 && f.index != 2 && f.index != 4)
        .cloned()
        .collect();
    let first = kept.remove(0);
    kept.reverse();
    let mut dec = Decoder::new(9);
    let mut out = dec.frame_at(first, 0).unwrap();
    for f in &kept {
        out.extend(dec.frame_at(f.clone(), 1).unwrap());
        assert!(dec.frame_at(f.clone(), 1).unwrap().is_empty());
    }
    out.sort();
    let mut expected = datagrams;
    expected.sort();
    assert_eq!(out, expected);
}

#[test]
fn sessions_survive_loss_with_reports_and_changing_redundancy() {
    let mut enc = Encoder::with_identity(9, VERSION_V3, 2);
    let mut frames = Vec::new();
    let mut sent = Vec::new();
    for i in 0..60u8 {
        let datagram = vec![i; 100 * (1 + i as usize % 20)];
        frames.extend(enc.encode_datagram(&datagram).unwrap());
        sent.push(datagram);
        if i % 7 == 0 {
            frames.extend(enc.flush().unwrap());
        }
        if i % 5 == 0 {
            frames.push(enc.report_frame(1_000));
            enc.adaptive.report(300_000);
        }
    }
    frames.extend(enc.flush().unwrap());
    assert_eq!(enc.adaptive.parity, 3);
    // Frames are numbered one by one, whatever they are.
    for (i, f) in frames.iter().enumerate() {
        assert_eq!(f.sequence, 1 + i as u64);
    }
    let mut dec = Decoder::new(9);
    let mut out = Vec::new();
    for f in frames {
        // Every group that can bear it loses as many frames as it has parity shards.
        if f.kind == KIND_DATA && (f.index as usize) < f.parity as usize && f.sequence > 1 {
            continue;
        }
        dec.loss_report();
        out.extend(dec.frame_at(f, 0).unwrap());
    }
    out.sort();
    sent.sort();
    assert_eq!(out, sent);
}

#[test]
fn long_sessions_survive_loss() {
    // One group every three milliseconds, for far longer than a group is kept and with
    // far more groups and datagrams than a decoder keeps.
    let mut enc = Encoder::new(9);
    enc.adaptive.parity = 1;
    let mut dec = Decoder::new(9);
    for n in 0..6_000u32 {
        let now = n as u128 * 3_000_000;
        let datagram: Vec<u8> = n.to_be_bytes().repeat(n as usize % 700);
        let mut frames = enc.encode_datagram(&datagram).unwrap();
        frames.extend(enc.flush().unwrap());
        let mut out = Vec::new();
        for (i, f) in frames.into_iter().enumerate() {
            // The first frame of every other group is lost, others are repeated.
            if n % 2 == 1 && i == 0 {
                continue;
            }
            out.extend(dec.frame_at(f.clone(), now).unwrap());
            assert!(dec.frame_at(f, now + 1_000_000).unwrap().is_empty());
        }
        assert_eq!(out, vec![datagram]);
    }
    assert!(enc.group > 2 * MAX_GROUPS as u64);
    assert!(enc.packet > MAX_REASSEMBLIES as u64);
}

#[test]
fn lossless_sessions_keep_the_order() {
    for parity in [0, 3] {
        let datagrams: Vec<Vec<u8>> = (0..5_000usize)
            .map(|n| vec![n as u8; (n % 5) * 300 + n % 2])
            .collect();
        assert!(datagrams.len() > MAX_REASSEMBLIES && datagrams[0].is_empty());
        let frames = frames_of(&datagrams, parity);
        let mut dec = Decoder::new(9);
        let mut out = Vec::new();
        for f in frames {
            assert!(f.group <= MAX_GROUPS as u64);
            out.extend(dec.frame_at(f, 5).unwrap());
        }
        assert_eq!(out, datagrams);
    }
}

#[test]
fn parts_that_come_too_late_are_not_put_together() {
    let mut datagram = vec![1u8; CHUNK];
    datagram.push(2);
    let frames = frames_of(&[datagram.clone()], 0);
    assert_eq!(frames.len(), 2);
    let mut dec = Decoder::new(9);
    assert!(dec.frame_at(frames[0].clone(), 0).unwrap().is_empty());
    assert_eq!(
        dec.frame_at(frames[1].clone(), GROUP_TTL - 1).unwrap(),
        vec![datagram]
    );
    let mut dec = Decoder::new(9);
    assert!(dec.frame_at(frames[0].clone(), 0).unwrap().is_empty());
    assert!(dec.frame_at(frames[1].clone(), REASSEMBLY_TTL).unwrap().is_empty());
}

#[test]
fn decoders_go_by_the_clock() {
    let frames = frames_of(&[vec![1u8; 2 * CHUNK]], 0);
    let ago = std::time::Duration::from_secs(10);
    let mut dec = Decoder::new(9);
    dec.clock = dec.clock.checked_sub(ago).unwrap();
    assert!(dec.frame(frames[0].clone()).unwrap().is_empty());
    let created = dec.groups[&frames[0].group].created;
    assert!(created >= ago.as_nanos() && created < 2 * ago.as_nanos());
    // Seen from ten seconds earlier still, what came is too old.
    dec.clock = dec.clock.checked_sub(ago).unwrap();
    assert!(dec.frame(frames[1].clone()).unwrap().is_empty());
}

#[test]
fn full_groups_can_be_flushed() {
    let mut enc = Encoder::new(9);
    enc.adaptive.parity = 0;
    for i in 0..10u8 {
        enc.shards.push(part(1, i as u16, 10, &[i]));
    }
    let frames = enc.flush().unwrap();
    assert_eq!(frames.len(), 10);
    assert_eq!(frames[9].payload, part(1, 9, 10, &[9]));
    assert!(enc.shards.is_empty());
}

#[test]
fn frames_behind_a_reported_window_come_too_late() {
    let mut dec = Decoder::new(9);
    let frames = frames_of(&(0..200u8).map(|i| vec![i; 4]).collect::<Vec<_>>(), 0);
    for f in frames.iter().filter(|f| f.sequence != 50 && f.sequence != 140) {
        assert_eq!(dec.frame_at(f.clone(), 0).unwrap().len(), 1);
    }
    assert_eq!(dec.loss_report(), 1_000_000 / 136);
    assert!(dec.frame_at(frames[49].clone(), 0).unwrap().is_empty());
    assert_eq!(dec.frame_at(frames[139].clone(), 0).unwrap(), vec![vec![139; 4]]);
}

#[test]
fn too_much_loss_delivers_what_came_and_nothing_else() {
    let datagrams: Vec<Vec<u8>> = (0..10u8).map(|i| vec![i; 30]).collect();
    let frames = frames_of(&datagrams, 2);
    let mut dec = Decoder::new(9);
    let mut out = Vec::new();
    for f in frames {
        if f.index == 0 || f.index == 7 || f.index == 11 {
            out.extend(dec.frame_at(f, 0).unwrap());
        }
    }
    assert_eq!(out, vec![vec![0; 30], vec![7; 30]]);
}

#[test]
fn frames_before_the_first_come_too_late() {
    let frames = frames_of(&[vec![1; 4], vec![2; 4]], 0);
    let mut dec = Decoder::new(9);
    assert_eq!(dec.frame_at(frames[1].clone(), 0).unwrap(), vec![vec![2; 4]]);
    assert!(dec.frame_at(frames[0].clone(), 0).unwrap().is_empty());
}

#[test]
fn decoder_names_each_mistake() {
    let good = frames_of(&[vec![1; 40]], 1);
    let mut dec = Decoder::new(8);
    assert_eq!(
        dec.frame_at(good[0].clone(), 0).unwrap_err(),
        DecodeError::SessionMismatch
    );
    let bad = |change: fn(&mut Frame)| {
        let mut f = good[0].clone();
        change(&mut f);
        Decoder::new(9).frame_at(f, 0).unwrap_err()
    };
    assert_eq!(bad(|f| f.data = 0), DecodeError::InvalidFrame);
    assert_eq!(bad(|f| f.data = 33), DecodeError::InvalidFrame);
    assert_eq!(bad(|f| f.parity = 17), DecodeError::InvalidFrame);
    assert_eq!(bad(|f| f.index = 2), DecodeError::InvalidFrame);
    assert_eq!(bad(|f| f.payload.truncate(13)), DecodeError::InvalidFrame);
    assert_eq!(bad(|f| f.payload.resize(SHARD + 1, 0)), DecodeError::InvalidFrame);

    let mut dec = Decoder::new(9);
    dec.frame_at(good[0].clone(), 0).unwrap();
    let mut other = good[1].clone();
    other.data = 2;
    assert_eq!(dec.frame_at(other, 0).unwrap_err(), DecodeError::GroupMismatch);

    // Two shards of one group that were never encoded together.
    let mut first = good[1].clone();
    first.sequence = 1;
    first.data = 2;
    first.parity = 2;
    first.index = 2;
    let mut second = first.clone();
    second.sequence = 2;
    second.index = 3;
    second.payload.push(0);
    let mut dec = Decoder::new(9);
    assert!(dec.frame_at(first, 0).unwrap().is_empty());
    assert_eq!(dec.frame_at(second, 0).unwrap_err(), DecodeError::Erasure);
}

#[test]
fn other_kinds_of_frames_are_only_noted() {
    let mut enc = Encoder::new(9);
    let mut dec = Decoder::new(9);
    let report = enc.report_frame(5);
    assert!(dec.frame_at(report, 0).unwrap().is_empty());
    assert_eq!(dec.highest_sequence, 1);
    assert!(dec.groups.is_empty());
}

#[test]
fn groups_are_bounded_and_expire() {
    let mut dec = Decoder::new(9);
    let frame = |group: u64| Frame {
        version: VERSION_V1,
        key_id: 0,
        kind: KIND_PARITY,
        session: 9,
        sequence: group,
        group,
        index: 2,
        data: 2,
        parity: 1,
        payload: vec![0; FRAGMENT_HEADER],
    };
    for group in 1..=MAX_GROUPS as u64 {
        dec.frame_at(frame(group), 0).unwrap();
    }
    let next = MAX_GROUPS as u64 + 1;
    assert_eq!(
        dec.frame_at(frame(next), GROUP_TTL - 1).unwrap_err(),
        DecodeError::TooManyGroups
    );
    assert_eq!(dec.groups.len(), MAX_GROUPS);
    dec.frame_at(frame(next + 1), GROUP_TTL).unwrap();
    assert_eq!(dec.groups.len(), 1);
}

fn part(packet: u64, index: u16, count: u16, body: &[u8]) -> Vec<u8> {
    let mut s = packet.to_be_bytes().to_vec();
    s.extend_from_slice(&index.to_be_bytes());
    s.extend_from_slice(&count.to_be_bytes());
    s.extend_from_slice(&(body.len() as u16).to_be_bytes());
    s.extend_from_slice(body);
    s
}

#[test]
fn parts_are_put_together_in_any_order() {
    let mut dec = Decoder::new(1);
    assert!(dec.fragment_at(&part(5, 2, 3, b"c"), 0).is_empty());
    assert!(dec.fragment_at(&part(5, 0, 3, b"a"), 0).is_empty());
    assert!(dec.fragment_at(&part(5, 0, 4, b"a"), 0).is_empty());
    assert_eq!(dec.fragment_at(&part(5, 1, 3, b"b"), 0), vec![b"abc".to_vec()]);
    assert!(dec.packets.is_empty());
}

#[test]
fn incomplete_datagrams_are_bounded_and_expire() {
    let mut dec = Decoder::new(1);
    for packet in 0..MAX_REASSEMBLIES as u64 + 3 {
        dec.fragment_at(&part(packet, 0, 2, b"x"), packet as u128);
    }
    dec.prune_at(MAX_REASSEMBLIES as u128 + 3);
    assert_eq!(dec.packets.len(), MAX_REASSEMBLIES);
    for oldest in 0..3 {
        assert!(!dec.packets.contains_key(&oldest));
    }
    dec.prune_at(REASSEMBLY_TTL + 3);
    assert_eq!(dec.packets.len(), MAX_REASSEMBLIES - 1);
    dec.prune_at(REASSEMBLY_TTL + MAX_REASSEMBLIES as u128 + 3);
    assert!(dec.packets.is_empty());
}

#[test]
fn loss_is_total_when_nothing_came() {
    let mut d = Decoder::new(1);
    d.observe_seq(1);
    d.observe_seq(200);
    // 136 sequence numbers are due, of which only the first came.
    assert_eq!(d.loss_report(), 135 * 1_000_000 / 136);
    assert!(!d.observe_seq(50));
    d.observe_seq(400);
    assert_eq!(d.loss_report(), 199 * 1_000_000 / 200);
}

#[test]
fn short_windows_give_no_loss() {
    let mut d = Decoder::new(1);
    d.observe_seq(1);
    d.observe_seq(95);
    assert_eq!(d.loss_report(), 0);
    d.observe_seq(96);
    assert_eq!(d.loss_report(), 31 * 1_000_000 / 32);
}

#[test]
fn sequence_zero_is_reserved() {
    let mut d = Decoder::new(1);
    assert!(!d.observe_seq(0));
    assert!(d.observe_seq(7));
    assert!(!d.observe_seq(7));
    assert!(!d.observe_seq(6));
    assert!(d.observe_seq(8));
}

#[test]
fn endpoints_close_the_feedback_loop() {
    let mut a = Endpoint::new(4, VERSION_V3, 9);
    let mut b = Endpoint::new(4, VERSION_V3, 9);
    for seq in [1u64, 200] {
        b.decoder.observe_seq(seq);
    }
    for _ in 0..2 {
        let (_, frame) = b.report();
        assert!(matches!(a.receive_at(frame.clone(), 0), Inbound::Report(true)));
        assert!(matches!(a.receive_at(frame, 0), Inbound::Report(false)));
    }
    // Both reports went into the smoothed loss, and only once each.
    let first = 135 * 1_000_000 / 136;
    assert_eq!(a.encoder.adaptive.smoothed_loss_ppm, (first / 4 * 3) / 4);
    assert_eq!(a.encoder.adaptive.last_loss_ppm, 0);
}

#[test]
fn endpoints_exchange_datagrams() {
    let mut a = Endpoint::new(4, VERSION_V1, 0);
    let mut b = Endpoint::new(4, VERSION_V1, 0);
    a.encoder.encode_datagram(b"hello").unwrap();
    for frame in a.encoder.flush().unwrap() {
        match b.receive(frame) {
            Inbound::Datagrams(d) => assert_eq!(d, vec![b"hello".to_vec()]),
            other => panic!("{other:?}"),
        }
    }
}

#[test]
fn endpoints_discard_what_is_for_others() {
    let mut a = Endpoint::new(4, VERSION_V3, 9);
    for (session, version, key_id) in [(5, VERSION_V3, 9), (4, VERSION_V2, 9), (4, VERSION_V3, 8)] {
        let mut other = Encoder::with_identity(session, version, key_id);
        assert!(matches!(
            a.receive_at(other.report_frame(900_000), 0),
            Inbound::Discarded
        ));
    }
    assert_eq!(a.encoder.adaptive.last_loss_ppm, 0);
    assert_eq!(a.decoder.highest_sequence, 0);
    let mut bad = Encoder::with_identity(4, VERSION_V3, 9);
    bad.encode_datagram(b"x").unwrap();
    let mut frame = bad.flush().unwrap().remove(0);
    frame.data = 0;
    assert!(matches!(
        a.receive_at(frame, 0),
        Inbound::Invalid(DecodeError::InvalidFrame)
    ));
}

#[test]
fn clients_without_a_device_number_speak_the_first_format() {
    assert_eq!(client_identity(None), Ok((VERSION_V1, 0)));
    assert_eq!(client_identity(Some(5)), Ok((VERSION_V3, 5)));
    assert_eq!(client_identity(Some(0)), Err(IdentityError::ReservedKeyId));
}

#[test]
fn session_limits_hold_per_device_and_in_all() {
    let mut table = SessionTable::new(100, 10).unwrap();
    for s in 0..64 {
        assert_eq!(table.decide(VERSION_V1, 0, s, 0), Admission::Started);
    }
    assert_eq!(table.decide(VERSION_V1, 0, 64, 0), Admission::Refused);
    assert_eq!(table.decide(VERSION_V1, 0, 63, 0), Admission::Known);
    for s in 0..16 {
        assert_eq!(table.decide(VERSION_V3, 7, s, 0), Admission::Started);
    }
    assert_eq!(table.decide(VERSION_V2, 7, 16, 0), Admission::Refused);
    for s in 0..16 {
        assert_eq!(table.decide(VERSION_V2, 8, s, 0), Admission::Started);
    }
    for s in 0..4 {
        assert_eq!(table.decide(VERSION_V2, 9, s, 0), Admission::Started);
    }
    assert_eq!(table.len(), 100);
    assert_eq!(table.decide(VERSION_V2, 9, 4, 0), Admission::Refused);
}

#[test]
fn idle_and_finished_sessions_are_let_go() {
    let second = 1_000_000_000u128;
    let mut table = SessionTable::new(10, 10).unwrap();
    table.decide(VERSION_V3, 1, 1, 0);
    table.decide(VERSION_V3, 1, 2, 0);
    table.decide(VERSION_V3, 2, 1, 5 * second);
    table.touch(1, 2, 9 * second);
    table.touch(3, 3, 9 * second);
    let mut gone = table.expire(&vec![(2, 1)], 10 * second);
    gone.sort();
    assert_eq!(gone, vec![(1, 1), (2, 1)]);
    assert_eq!(table.len(), 1);
    assert_eq!(table.expire(&vec![], 19 * second), vec![(1, 2)]);
    assert_eq!(table.len(), 0);
}

#[test]
fn session_tables_check_their_limits() {
    assert_eq!(
        SessionTable::new(0, 10).unwrap_err(),
        ServerError::MaxSessionsOutOfRange
    );
    assert_eq!(SessionTable::new(1, 9).unwrap_err(), ServerError::IdleOutOfRange);
}
