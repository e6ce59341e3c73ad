//! The QUIC DATAGRAM carrier for the tunnel protocol.
//!
//! The client relays frames of the tunnel into QUIC, and the server unwraps them
//! again. A datagram that is larger than what QUIC carries travels in parts.

use crate::clock::{self, clock_reading, time_since};
use crate::crypto;
use crate::decoder::{
    self, empty_slots, join, none_missing, packet_views, Reassembly, ReassemblyModel,
};
use crate::erasure;
use crate::keyring::{self, scan_keyring, KeyringError, KeyringKind};
use crate::quic_auth::{
    self, envelope_device_id, envelope_nonce, make_envelope, verify_envelope, AuthError,
    ReplayCache, DEFAULT_AUTH_WINDOW_SECS,
};
use crate::tables::{self, hash_map_keys};
use crate::text::{self, parse_decimal};
use crate::wire::{self, bytes_equal, copy_range, get_be, put_be, put_bytes};
use std::collections::HashMap;
use vstd::prelude::*;

verus! {

broadcast use vstd::std_specs::hash::group_hash_axioms;

/// Most bytes of a datagram.
pub const MAX_DATAGRAM: usize = 65_535;

/// Bytes before the part of a datagram that a carrier frame holds.
pub const CARRIER_HEADER: usize = 12;

/// Most parts of a datagram.
pub const MAX_CARRIER_FRAGMENTS: usize = 128;

/// Most incomplete datagrams that are kept.
pub const MAX_CARRIER_GROUPS: usize = 2048;

/// How long an incomplete datagram is kept, in nanoseconds.
pub const CARRIER_TTL: u128 = 3_000_000_000;

/// The only number of ordered stream lanes there can be.
pub const MAX_STREAM_LANES: usize = 1;

/// Fewest packets that a loss rate is computed from.
pub const MIN_WIRE_LOSS_SAMPLE_PACKETS: u64 = 100;

/// First byte on a stream lane.
pub const STREAM_LANE_PREFACE: u8 = 0x53;

/// How long a carrier may be silent, in nanoseconds.
pub const CARRIER_DEAD_TIMEOUT: u128 = 6_000_000_000;

/// First and longest delay before a client connects again, in seconds.
pub const FIRST_DELAY_SECS: u64 = 1;

pub const MAX_DELAY_SECS: u64 = 30;

/// Why a setting of the stream lanes is refused.
#[derive(Clone, Copy, Debug, PartialEq, Eq, Structural)]
pub enum LaneError {
    NotAnInteger,
    Unsupported,
    BadPreface,
}

/// Why a carrier cannot send a datagram, or does not take a frame.
#[derive(Clone, Copy, Debug, PartialEq, Eq, Structural)]
pub enum CarrierError {
    ShortFragment,
    InvalidDimensions,
    LimitReached,
    InconsistentCount,
    DatagramTooLarge,
    NotNegotiated,
    SizeTooSmall,
    TooManyFragments,
    StreamDatagramTooLarge,
}

/// The number of stream lanes that a setting asks for. No setting asks for none.
pub fn parse_stream_lanes(value: Option<&str>) -> (lanes: Result<usize, LaneError>)
    ensures
        lanes == match value {
            None => Ok::<usize, LaneError>(0),
            Some(v) => match text::decimal_model(v@, usize::MAX as nat) {
                None => Err(LaneError::NotAnInteger),
                Some(n) => if n == MAX_STREAM_LANES {
                    Ok(MAX_STREAM_LANES)
                } else {
                    Err(LaneError::Unsupported)
                },
            },
        },
{
    match value {
        None => Ok(0),
        Some(v) => match parse_decimal(v) {
            None => Err(LaneError::NotAnInteger),
            Some(n) => {
                if n > usize::MAX as u64 {
                    return Err(LaneError::NotAnInteger);
                }
                if n as usize != MAX_STREAM_LANES {
                    return Err(LaneError::Unsupported);
                }
                Ok(MAX_STREAM_LANES)
            },
        },
    }
}

/// Reads the device secrets in a text.
pub fn parse_keyring(text: &str) -> (secrets: Result<HashMap<u64, String>, KeyringError>)
    ensures
        match secrets {
            Ok(m) => keyring::secrets_model(text@, KeyringKind::Relay) == Ok::<
                Map<u64, Seq<char>>,
                KeyringError,
            >(keyring::secret_views(m@)),
            Err(e) => keyring::secrets_model(text@, KeyringKind::Relay) == Err::<
                Map<u64, Seq<char>>,
                KeyringError,
            >(e),
        },
{
    scan_keyring(text, KeyringKind::Relay)
}

/// The lane after `lane`, in turn.
pub fn next_lane(lane: usize, lanes: usize) -> (next: usize)
    requires
        lane < lanes,
    ensures
        next == if lane + 1 == lanes {
            0
        } else {
            lane + 1
        },
        next < lanes,
{
    if lane + 1 == lanes {
        0
    } else {
        lane + 1
    }
}

/// Checks the first byte on a stream lane.
pub fn check_preface(preface: u8) -> (checked: Result<(), LaneError>)
    ensures
        checked == if preface == STREAM_LANE_PREFACE {
            Ok::<(), LaneError>(())
        } else {
            Err(LaneError::BadPreface)
        },
{
    if preface != STREAM_LANE_PREFACE {
        return Err(LaneError::BadPreface);
    }
    Ok(())
}

/// The delay after `secs` before a client connects again, in seconds.
pub fn next_delay(secs: u64) -> (next: u64)
    ensures
        next == if 2 * secs < MAX_DELAY_SECS {
            2 * secs
        } else {
            MAX_DELAY_SECS as int
        },
{
    if secs < MAX_DELAY_SECS && 2 * secs < MAX_DELAY_SECS {
        2 * secs
    } else {
        MAX_DELAY_SECS
    }
}

/// The delay after `n` failures in a row.
pub open spec fn delay_after(n: nat) -> nat
    decreases n,
{
    if n == 0 {
        FIRST_DELAY_SECS as nat
    } else {
        let last = delay_after((n - 1) as nat);
        if 2 * last < MAX_DELAY_SECS {
            2 * last
        } else {
            MAX_DELAY_SECS as nat
        }
    }
}

/// Delays grow, never shrink, and are bounded.
pub proof fn law_delays_are_bounded(n: nat)
    ensures
        FIRST_DELAY_SECS <= delay_after(n) <= delay_after(n + 1) <= MAX_DELAY_SECS,
    decreases n,
{
    if n > 0 {
        law_delays_are_bounded((n - 1) as nat);
    }
}

/// Whether a carrier that has been silent for `silence` nanoseconds is dead.
pub fn is_dead(silence: u128) -> (dead: bool)
    ensures
        dead == (silence > CARRIER_DEAD_TIMEOUT),
{
    silence > CARRIER_DEAD_TIMEOUT
}

/// Counters of a carrier.
#[derive(Clone, Copy, Debug, PartialEq, Eq, Structural)]
pub struct CarrierStatsSnapshot {
    pub sent_packets: u64,
    pub lost_packets: u64,
    pub lost_bytes: u64,
    pub congestion_events: u64,
    pub udp_tx_bytes: u64,
    pub udp_rx_bytes: u64,
}

impl Default for CarrierStatsSnapshot {
    fn default() -> (zero: Self)
        ensures
            zero == (CarrierStatsSnapshot {
                sent_packets: 0,
                lost_packets: 0,
                lost_bytes: 0,
                congestion_events: 0,
                udp_tx_bytes: 0,
                udp_rx_bytes: 0,
            }),
    {
        CarrierStatsSnapshot {
            sent_packets: 0,
            lost_packets: 0,
            lost_bytes: 0,
            congestion_events: 0,
            udp_tx_bytes: 0,
            udp_rx_bytes: 0,
        }
    }
}

/// `a` less `b`, and nothing less than zero.
pub open spec fn less(a: u64, b: u64) -> u64 {
    if a >= b {
        (a - b) as u64
    } else {
        0
    }
}

impl CarrierStatsSnapshot {
    /// What was counted since `previous`.
    pub fn since(&self, previous: &CarrierStatsSnapshot) -> (delta: CarrierStatsSnapshot)
        ensures
            delta == (CarrierStatsSnapshot {
                sent_packets: less(self.sent_packets, previous.sent_packets),
                lost_packets: less(self.lost_packets, previous.lost_packets),
                lost_bytes: less(self.lost_bytes, previous.lost_bytes),
                congestion_events: less(self.congestion_events, previous.congestion_events),
                udp_tx_bytes: less(self.udp_tx_bytes, previous.udp_tx_bytes),
                udp_rx_bytes: less(self.udp_rx_bytes, previous.udp_rx_bytes),
            }),
    {
        CarrierStatsSnapshot {
            sent_packets: self.sent_packets.saturating_sub(previous.sent_packets),
            lost_packets: self.lost_packets.saturating_sub(previous.lost_packets),
            lost_bytes: self.lost_bytes.saturating_sub(previous.lost_bytes),
            congestion_events: self.congestion_events.saturating_sub(previous.congestion_events),
            udp_tx_bytes: self.udp_tx_bytes.saturating_sub(previous.udp_tx_bytes),
            udp_rx_bytes: self.udp_rx_bytes.saturating_sub(previous.udp_rx_bytes),
        }
    }

    /// The loss rate in parts per million, if enough packets were sent for one.
    pub open spec fn loss_ppm_model(self) -> Option<nat> {
        if self.sent_packets < MIN_WIRE_LOSS_SAMPLE_PACKETS {
            None
        } else {
            let ppm = (self.lost_packets * 1_000_000) as nat / self.sent_packets as nat;
            Some(
                if ppm < 1_000_000 {
                    ppm
                } else {
                    1_000_000
                },
            )
        }
    }

    /// The loss rate in parts per million, if enough packets were sent for one.
    pub fn wire_loss_ppm(&self) -> (ppm: Option<u32>)
        ensures
            match ppm {
                Some(p) => self.loss_ppm_model() == Some(p as nat),
                None => self.loss_ppm_model() is None,
            },
            ppm matches Some(p) ==> p <= 1_000_000,
    {
        if self.sent_packets < MIN_WIRE_LOSS_SAMPLE_PACKETS {
            return None;
        }
        let ppm: u128 = (self.lost_packets as u128 * 1_000_000) / self.sent_packets as u128;
        Some(
            if ppm < 1_000_000 {
                ppm as u32
            } else {
                1_000_000
            },
        )
    }
}

/// How many parts of `chunk` bytes a datagram of `len` bytes makes. An empty one
/// makes one.
pub open spec fn part_count(len: nat, chunk: nat) -> nat {
    if len == 0 {
        1
    } else {
        ((len + chunk - 1) as nat) / chunk
    }
}

/// Part number `i` of a datagram.
pub open spec fn part_of(payload: Seq<u8>, chunk: nat, i: int) -> Seq<u8> {
    payload.subrange(
        i * chunk,
        if (i + 1) * chunk < payload.len() {
            (i + 1) * chunk
        } else {
            payload.len() as int
        },
    )
}

/// A carrier frame: message, part number and part count before the part itself.
pub open spec fn carrier_frame(message: u64, index: nat, count: nat, part: Seq<u8>) -> Seq<u8> {
    wire::be(message as nat, 8) + wire::be(index, 2) + wire::be(count, 2) + part
}

/// The carrier frames of a datagram.
pub open spec fn carrier_frames(message: u64, payload: Seq<u8>, chunk: nat) -> Seq<Seq<u8>> {
    let count = part_count(payload.len(), chunk);
    Seq::new(count, |i: int| carrier_frame(message, i as nat, count, part_of(payload, chunk, i)))
}

/// Why a datagram of `len` bytes cannot be sent, if it cannot, where `maximum` is
/// what QUIC carries at once.
pub open spec fn carrier_refusal(len: nat, maximum: Option<usize>) -> Option<CarrierError> {
    match maximum {
        None => Some(CarrierError::NotNegotiated),
        Some(m) => if m <= CARRIER_HEADER {
            Some(CarrierError::SizeTooSmall)
        } else if part_count(len, (m - CARRIER_HEADER) as nat) > MAX_CARRIER_FRAGMENTS {
            Some(CarrierError::TooManyFragments)
        } else {
            None
        },
    }
}

/// The message number after `message`.
pub open spec fn next_message(message: u64) -> u64 {
    if message == u64::MAX {
        0
    } else {
        (message + 1) as u64
    }
}

/// What part counts come to, for parts of any size.
proof fn lemma_part_count(len: nat, chunk: nat, i: nat)
    requires
        chunk > 0,
        i < part_count(len, chunk),
    ensures
        i * chunk <= len,
        i + 1 < part_count(len, chunk) ==> (i + 1) * chunk < len,
        i + 1 == part_count(len, chunk) ==> (i + 1) * chunk >= len,
{
    if len > 0 {
        let n = ((len + chunk - 1) as nat) / chunk;
        vstd::arithmetic::div_mod::lemma_fundamental_div_mod(
            (len + chunk - 1) as int,
            chunk as int,
        );
        let r = (len + chunk - 1) % (chunk as int);
        assert(0 <= r < chunk) by {
            vstd::arithmetic::div_mod::lemma_mod_bound((len + chunk - 1) as int, chunk as int);
        }
        assert(n * chunk == chunk * n) by (nonlinear_arith);
        assert((i + 1) * chunk == i * chunk + chunk) by (nonlinear_arith);
        if i + 1 < n {
            assert((i + 1) * chunk + chunk <= n * chunk) by (nonlinear_arith)
                requires
                    i + 2 <= n,
            ;
        } else {
            assert((i + 1) * chunk == n * chunk) by (nonlinear_arith)
                requires
                    i + 1 == n,
            ;
        }
    }
}

/// A datagram has at least one part.
proof fn lemma_some_part(len: nat, chunk: nat)
    requires
        chunk > 0,
    ensures
        part_count(len, chunk) >= 1,
{
    if len > 0 {
        vstd::arithmetic::div_mod::lemma_div_plus_one((len - 1) as int, chunk as int);
        vstd::arithmetic::div_mod::lemma_div_pos_is_pos((len - 1) as int, chunk as int);
    }
}

/// Splits a datagram into carrier frames, and numbers it.
pub fn split_carrier(payload: &[u8], maximum: Option<usize>, message: &mut u64) -> (frames: Result<
    Vec<Vec<u8>>,
    CarrierError,
>)
    ensures
        match carrier_refusal(payload@.len(), maximum) {
            Some(e) => frames == Err::<Vec<Vec<u8>>, CarrierError>(e) && *final(message) == *old(
                message,
            ),
            None => {
                &&& *final(message) == next_message(*old(message))
                &&& frames matches Ok(f) && erasure::shard_views(f@) == carrier_frames(
                    next_message(*old(message)),
                    payload@,
                    (maximum->0 - CARRIER_HEADER) as nat,
                )
            },
        },
{
    let maximum: usize = match maximum {
        None => return Err(CarrierError::NotNegotiated),
        Some(m) => m,
    };
    if maximum <= CARRIER_HEADER {
        return Err(CarrierError::SizeTooSmall);
    }
    let chunk: usize = maximum - CARRIER_HEADER;
    let count: usize = if payload.len() == 0 {
        1
    } else {
        proof {
            vstd::arithmetic::div_mod::lemma_div_plus_one(
                (payload@.len() - 1) as int,
                chunk as int,
            );
        }
        (payload.len() - 1) / chunk + 1
    };
    if count > MAX_CARRIER_FRAGMENTS {
        return Err(CarrierError::TooManyFragments);
    }
    let number: u64 = if *message == u64::MAX {
        0
    } else {
        *message + 1
    };
    *message = number;
    let mut frames: Vec<Vec<u8>> = Vec::new();
    let mut i: usize = 0;
    let mut start: usize = 0;
    let ghost all = carrier_frames(number, payload@, chunk as nat);
    while i < count
        invariant
            i <= count,
            chunk > 0,
            count == part_count(payload@.len(), chunk as nat),
            count <= MAX_CARRIER_FRAGMENTS,
            i < count ==> start == i * chunk && start <= payload@.len(),
            all == carrier_frames(number, payload@, chunk as nat),
            frames@.len() == i,
            forall|j: int| 0 <= j < i ==> (#[trigger] frames@[j])@ == all[j],
        decreases count - i,
    {
        proof {
            lemma_part_count(payload@.len(), chunk as nat, i as nat);
            assert((i + 1) * chunk == i * chunk + chunk) by (nonlinear_arith);
        }
        let end: usize = if chunk < payload.len() - start {
            start + chunk
        } else {
            payload.len()
        };
        let mut frame: Vec<u8> = Vec::new();
        put_be(&mut frame, number, 8);
        put_be(&mut frame, i as u64, 2);
        put_be(&mut frame, count as u64, 2);
        let part: Vec<u8> = copy_range(payload, start, end);
        put_bytes(&mut frame, &part);
        assert(part@ =~= part_of(payload@, chunk as nat, i as int));
        assert(frame@ =~= all[i as int]);
        frames.push(frame);
        start = end;
        i = i + 1;
    }
    assert(erasure::shard_views(frames@) =~= all);
    Ok(frames)
}

/// The datagrams that a carrier puts together.
#[derive(Debug)]
pub struct CarrierReassembly {
    groups: HashMap<u64, Reassembly>,
    clock: std::time::Instant,
}

/// The datagrams that a carrier puts together as a mathematical value.
#[verifier::ext_equal]
pub struct CarrierModel {
    pub groups: Map<u64, ReassemblyModel>,
}

impl View for CarrierReassembly {
    type V = CarrierModel;

    closed spec fn view(&self) -> CarrierModel {
        CarrierModel { groups: packet_views(self.groups@) }
    }
}

/// The message of a carrier frame.
pub open spec fn message_field(frame: Seq<u8>) -> u64 {
    wire::be_value(frame.subrange(0, 8)) as u64
}

/// The part number of a carrier frame.
pub open spec fn index_field(frame: Seq<u8>) -> nat {
    wire::be_value(frame.subrange(8, 10))
}

/// The part count of a carrier frame.
pub open spec fn count_field(frame: Seq<u8>) -> nat {
    wire::be_value(frame.subrange(10, 12))
}

impl CarrierModel {
    /// What every operation keeps.
    pub open spec fn wf(self) -> bool {
        &&& self.groups.dom().finite()
        &&& self.groups.len() <= MAX_CARRIER_GROUPS
        &&& forall|m: u64| #[trigger]
            self.groups.contains_key(m) ==> {
                &&& 1 <= self.groups[m].parts.len() <= MAX_CARRIER_FRAGMENTS
                &&& !decoder::complete(self.groups[m].parts)
            }
    }

    /// The datagrams without those that are too old.
    pub open spec fn kept(self, now: nat) -> CarrierModel {
        CarrierModel {
            groups: Map::new(
                |m: u64|
                    self.groups.contains_key(m) && decoder::age(now, self.groups[m].created)
                        <= CARRIER_TTL,
                |m: u64| self.groups[m],
            ),
        }
    }

    /// The parts of the datagram of `frame` before it is added.
    pub open spec fn parts_for(self, frame: Seq<u8>, now: nat) -> ReassemblyModel {
        if self.groups.contains_key(message_field(frame)) {
            self.groups[message_field(frame)]
        } else {
            ReassemblyModel { created: now, parts: Seq::new(count_field(frame), |i: int| None) }
        }
    }

    /// The parts of the datagram of `frame` after it is added. The first part to
    /// come stays.
    pub open spec fn parts_with(self, frame: Seq<u8>, now: nat) -> ReassemblyModel {
        let before = self.parts_for(frame, now);
        let i = index_field(frame) as int;
        if before.parts[i] is Some {
            before
        } else {
            ReassemblyModel {
                parts: before.parts.update(i, Some(frame.skip(CARRIER_HEADER as int))),
                ..before
            }
        }
    }

    /// What comes of a frame among the datagrams that are kept.
    pub open spec fn placed(self, frame: Seq<u8>, now: nat) -> (
        CarrierModel,
        Result<Option<Seq<u8>>, CarrierError>,
    ) {
        let message = message_field(frame);
        let after = self.parts_with(frame, now);
        if !self.groups.contains_key(message) && self.groups.len() >= MAX_CARRIER_GROUPS {
            (self, Err(CarrierError::LimitReached))
        } else if self.parts_for(frame, now).parts.len() != count_field(frame) {
            (self, Err(CarrierError::InconsistentCount))
        } else if !decoder::complete(after.parts) {
            (CarrierModel { groups: self.groups.insert(message, after) }, Ok(None))
        } else {
            (
                CarrierModel { groups: self.groups.remove(message) },
                if decoder::joined(after.parts).len() > MAX_DATAGRAM {
                    Err(CarrierError::DatagramTooLarge)
                } else {
                    Ok(Some(decoder::joined(after.parts)))
                },
            )
        }
    }

    /// What comes of a frame: the datagrams in parts after it, and the datagram that
    /// it completes or why it is not taken.
    pub open spec fn outcome(self, frame: Seq<u8>, now: nat) -> (
        CarrierModel,
        Result<Option<Seq<u8>>, CarrierError>,
    ) {
        if frame.len() < CARRIER_HEADER {
            (self, Err(CarrierError::ShortFragment))
        } else if count_field(frame) == 0 || count_field(frame) > MAX_CARRIER_FRAGMENTS
            || index_field(frame) >= count_field(frame) {
            (self, Err(CarrierError::InvalidDimensions))
        } else {
            self.kept(now).placed(frame, now)
        }
    }
}

/// The result of a carrier as a mathematical value.
pub open spec fn carried(r: Result<Option<Vec<u8>>, CarrierError>) -> Result<
    Option<Seq<u8>>,
    CarrierError,
> {
    match r {
        Ok(Some(payload)) => Ok(Some(payload@)),
        Ok(None) => Ok(None),
        Err(e) => Err(e),
    }
}

impl Default for CarrierReassembly {
    fn default() -> (fresh: Self)
        ensures
            fresh@ == (CarrierModel { groups: Map::empty() }),
            fresh@.wf(),
            clock::is_reading(fresh.origin()),
    {
        let fresh = CarrierReassembly { groups: HashMap::new(), clock: clock_reading() };
        assert(fresh@.groups =~= Map::empty());
        fresh
    }
}

impl CarrierReassembly {
    /// When the carrier was made, from which its times are counted.
    pub closed spec fn origin(&self) -> std::time::Instant {
        self.clock
    }

    /// Drops what is too old.
    fn keep_young(&mut self, now: u128)
        requires
            old(self)@.wf(),
        ensures
            final(self)@.wf(),
            final(self)@ == old(self)@.kept(now as nat),
            final(self).clock == old(self).clock,
    {
        let ghost before = self@;
        let ghost groups = self.groups@;
        assert(before.groups.dom() =~= groups.dom());
        let keys: Vec<u64> = hash_map_keys(&self.groups);
        let mut i: usize = 0;
        while i < keys.len()
            invariant
                i <= keys@.len(),
                tables::lists(keys@, groups.dom()),
                forall|k: u64| #[trigger]
                    self.groups@.contains_key(k) <==> groups.contains_key(k) && (
                    keys@.take(i as int).contains(k) ==> decoder::age(
                        now as nat,
                        groups[k].created as nat,
                    ) <= CARRIER_TTL),
                forall|k: u64| #[trigger]
                    self.groups@.contains_key(k) ==> self.groups@[k] == groups[k],
                self.clock == old(self).clock,
            decreases keys@.len() - i,
        {
            let k: u64 = keys[i];
            proof {
                tables::lemma_listed(keys@, groups.dom(), i as int);
            }
            let expired: bool = match self.groups.get(&k) {
                Some(g) => now >= g.created && now - g.created > CARRIER_TTL,
                None => false,
            };
            if expired {
                self.groups.remove(&k);
            }
            i = i + 1;
        }
        proof {
            assert(keys@.take(i as int) =~= keys@);
            assert forall|k: u64| groups.contains_key(k) implies keys@.contains(k) by {
                assert(keys@.to_set().contains(k));
            }
            assert(self@ =~= before.kept(now as nat));
            assert(self@.groups.dom().subset_of(before.groups.dom()));
            vstd::set_lib::lemma_len_subset(self@.groups.dom(), before.groups.dom());
        }
    }

    /// Takes a carrier frame at the time `now`, in nanoseconds since the carrier was
    /// made, and gives the datagram that it completes.
    pub fn push_at(&mut self, frame: &[u8], now: u128) -> (out: Result<
        Option<Vec<u8>>,
        CarrierError,
    >)
        requires
            old(self)@.wf(),
        ensures
            final(self)@.wf(),
            (final(self)@, carried(out)) == old(self)@.outcome(frame@, now as nat),
            final(self).origin() == old(self).origin(),
    {
        if frame.len() < CARRIER_HEADER {
            return Err(CarrierError::ShortFragment);
        }
        proof {
            wire::lemma_byte_bounds();
        }
        let message: u64 = get_be(frame, 0, 8);
        let index: usize = get_be(frame, 8, 2) as usize;
        let count: usize = get_be(frame, 10, 2) as usize;
        if count == 0 || count > MAX_CARRIER_FRAGMENTS || index >= count {
            return Err(CarrierError::InvalidDimensions);
        }
        self.keep_young(now);
        let ghost before = self@;
        assert(before.groups.dom() =~= self.groups@.dom());
        if !self.groups.contains_key(&message) && self.groups.len() >= MAX_CARRIER_GROUPS {
            return Err(CarrierError::LimitReached);
        }
        let taken: Option<Reassembly> = self.groups.remove(&message);
        let mut group: Reassembly = match taken {
            Some(group) => group,
            None => Reassembly { created: now, parts: empty_slots(count) },
        };
        assert(group@ =~= before.parts_for(frame@, now as nat));
        assert(group.parts@.len() == group@.parts.len());
        if group.parts.len() != count {
            self.groups.insert(message, group);
            assert(self@.groups =~= before.groups);
            return Err(CarrierError::InconsistentCount);
        }
        let ghost parts = group@.parts;
        if group.parts[index].is_none() {
            let part: Vec<u8> = copy_range(frame, CARRIER_HEADER, frame.len());
            assert(part@ =~= frame@.skip(CARRIER_HEADER as int));
            group.parts.set(index, Some(part));
            assert(group@.parts =~= parts.update(
                index as int,
                Some(frame@.skip(CARRIER_HEADER as int)),
            ));
        }
        assert(group@ =~= before.parts_with(frame@, now as nat));
        if !none_missing(&group.parts, group.parts.len()) {
            let ghost after = group@;
            self.groups.insert(message, group);
            assert(self@.groups =~= before.groups.insert(message, after));
            return Ok(None);
        }
        assert(self@.groups =~= before.groups.remove(message));
        let payload: Vec<u8> = join(&group.parts);
        if payload.len() > MAX_DATAGRAM {
            return Err(CarrierError::DatagramTooLarge);
        }
        Ok(Some(payload))
    }

    /// Takes a carrier frame now, and gives the datagram that it completes.
    pub fn push(&mut self, frame: &[u8]) -> (out: Result<Option<Vec<u8>>, CarrierError>)
        requires
            old(self)@.wf(),
        ensures
            final(self)@.wf(),
            exists|now: nat|
                clock::is_elapsed(old(self).origin(), now) && (final(self)@, carried(out))
                    == #[trigger] old(self)@.outcome(frame@, now),
            final(self).origin() == old(self).origin(),
    {
        let now: u128 = time_since(&self.clock);
        self.push_at(frame, now)
    }
}

/// The fields of a carrier frame are read back as they were written.
proof fn lemma_carrier_reads_back(message: u64, index: nat, count: nat, part: Seq<u8>)
    requires
        index <= 0xffff,
        count <= 0xffff,
    ensures
        ({
            let frame = carrier_frame(message, index, count, part);
            &&& frame.len() == CARRIER_HEADER + part.len()
            &&& message_field(frame) == message
            &&& index_field(frame) == index
            &&& count_field(frame) == count
            &&& frame.skip(CARRIER_HEADER as int) == part
        }),
{
    broadcast use wire::lemma_be_len;

    let frame = carrier_frame(message, index, count, part);
    wire::lemma_byte_bounds();
    wire::lemma_be_round_trip(message as nat, 8);
    wire::lemma_be_round_trip(index, 2);
    wire::lemma_be_round_trip(count, 2);
    assert(frame.subrange(0, 8) =~= wire::be(message as nat, 8));
    assert(frame.subrange(8, 10) =~= wire::be(index, 2));
    assert(frame.subrange(10, 12) =~= wire::be(count, 2));
    assert(frame.skip(CARRIER_HEADER as int) =~= part);
}

/// The parts of a datagram in order make up the datagram.
proof fn lemma_parts_join(payload: Seq<u8>, chunk: nat, parts: Seq<Option<Seq<u8>>>, n: nat)
    requires
        chunk > 0,
        n <= parts.len(),
        parts.len() == part_count(payload.len(), chunk),
        forall|x: int|
            0 <= x < parts.len() ==> #[trigger] parts[x] == Some(part_of(payload, chunk, x)),
    ensures
        decoder::joined(parts.take(n as int)) == payload.take(
            if n * chunk < payload.len() {
                (n * chunk) as int
            } else {
                payload.len() as int
            },
        ),
    decreases n,
{
    if n == 0 {
        assert(parts.take(0) =~= Seq::<Option<Seq<u8>>>::empty());
        assert(0 * chunk == 0) by (nonlinear_arith);
        assert(payload.take(0) =~= Seq::<u8>::empty());
    } else {
        let i = (n - 1) as nat;
        lemma_parts_join(payload, chunk, parts, i);
        lemma_part_count(payload.len(), chunk, i);
        let here = parts.take(n as int);
        assert(here.drop_last() =~= parts.take(i as int));
        assert(here.last() == parts[i as int]);
        let from = (i * chunk) as int;
        let to = if n * chunk < payload.len() {
            (n * chunk) as int
        } else {
            payload.len() as int
        };
        assert(n * chunk == i * chunk + chunk) by (nonlinear_arith)
            requires
                n == i + 1,
        ;
        assert(part_of(payload, chunk, i as int) =~= payload.subrange(from, to));
        assert(payload.take(to) =~= payload.take(from) + payload.subrange(from, to));
    }
}

/// The parts of a whole datagram in order make up the datagram.
proof fn lemma_all_parts_join(payload: Seq<u8>, chunk: nat, parts: Seq<Option<Seq<u8>>>)
    requires
        chunk > 0,
        parts.len() == part_count(payload.len(), chunk),
        forall|x: int|
            0 <= x < parts.len() ==> #[trigger] parts[x] == Some(part_of(payload, chunk, x)),
    ensures
        decoder::joined(parts) == payload,
{
    lemma_parts_join(payload, chunk, parts, parts.len());
    let n = parts.len();
    lemma_some_part(payload.len(), chunk);
    lemma_part_count(payload.len(), chunk, (n - 1) as nat);
    assert(parts.take(n as int) =~= parts);
    assert(payload.take(payload.len() as int) =~= payload);
}

/// Whether part `i` is among the first `n` that came.
pub open spec fn part_came(order: Seq<nat>, n: int, i: nat) -> bool {
    exists|j: int| 0 <= j < n && #[trigger] order[j] == i
}

/// Whether all of `count` parts are among the first `n` that came.
pub open spec fn all_came(order: Seq<nat>, n: int, count: nat) -> bool {
    forall|i: nat| i < count ==> #[trigger] part_came(order, n, i)
}

/// The datagrams in parts after the first `n` frames of `frames`, taken in the order
/// `order` at the times `times`.
pub open spec fn carrier_after(
    m: CarrierModel,
    frames: Seq<Seq<u8>>,
    order: Seq<nat>,
    times: Seq<nat>,
    n: int,
) -> CarrierModel
    decreases n,
{
    if n <= 0 {
        m
    } else {
        carrier_after(m, frames, order, times, n - 1).outcome(
            frames[order[n - 1] as int],
            times[n - 1],
        ).0
    }
}

/// What came of the frame after the first `n`.
pub open spec fn carrier_out(
    m: CarrierModel,
    frames: Seq<Seq<u8>>,
    order: Seq<nat>,
    times: Seq<nat>,
    n: int,
) -> Result<Option<Seq<u8>>, CarrierError> {
    carrier_after(m, frames, order, times, n).outcome(frames[order[n] as int], times[n]).1
}

/// Whether a carrier can take the parts of a datagram: it is not putting together
/// one of that number, has room for one more, and the parts come while it is kept.
pub open spec fn carrier_ready(
    m: CarrierModel,
    message: u64,
    payload: Seq<u8>,
    chunk: nat,
    order: Seq<nat>,
    times: Seq<nat>,
    start: nat,
) -> bool {
    &&& m.wf()
    &&& !m.groups.contains_key(message)
    &&& m.groups.len() < MAX_CARRIER_GROUPS
    &&& chunk > 0
    &&& payload.len() <= MAX_DATAGRAM
    &&& part_count(payload.len(), chunk) <= MAX_CARRIER_FRAGMENTS
    &&& times.len() == order.len()
    &&& forall|j: int|
        0 <= j < order.len() ==> #[trigger] order[j] < part_count(payload.len(), chunk)
    &&& forall|j: int|
        0 <= j < times.len() ==> start <= #[trigger] times[j] <= start + CARRIER_TTL
}

/// What a carrier holds of a datagram while some of its parts have not come.
spec fn carrier_holds(
    m: CarrierModel,
    message: u64,
    payload: Seq<u8>,
    chunk: nat,
    order: Seq<nat>,
    n: int,
    start: nat,
) -> bool {
    if n == 0 {
        !m.groups.contains_key(message) && m.groups.dom().finite() && m.groups.len()
            < MAX_CARRIER_GROUPS
    } else {
        &&& m.groups.contains_key(message)
        &&& start <= m.groups[message].created <= start + CARRIER_TTL
        &&& m.groups[message].parts.len() == part_count(payload.len(), chunk)
        &&& forall|i: int|
            0 <= i < m.groups[message].parts.len() ==> #[trigger] m.groups[message].parts[i]
                == if part_came(order, n, i as nat) {
                Some(part_of(payload, chunk, i))
            } else {
                None
            }
    }
}

/// One more part of a datagram of which some have not come.
proof fn lemma_carrier_step(
    m: CarrierModel,
    message: u64,
    payload: Seq<u8>,
    chunk: nat,
    order: Seq<nat>,
    n: int,
    start: nat,
    now: nat,
)
    requires
        chunk > 0,
        payload.len() <= MAX_DATAGRAM,
        part_count(payload.len(), chunk) <= MAX_CARRIER_FRAGMENTS,
        0 <= n < order.len(),
        order[n] < part_count(payload.len(), chunk),
        !all_came(order, n, part_count(payload.len(), chunk)),
        carrier_holds(m, message, payload, chunk, order, n, start),
        start <= now <= start + CARRIER_TTL,
    ensures
        ({
            let frames = carrier_frames(message, payload, chunk);
            let count = part_count(payload.len(), chunk);
            let (after, out) = m.outcome(frames[order[n] as int], now);
            if all_came(order, n + 1, count) {
                out == Ok::<Option<Seq<u8>>, CarrierError>(Some(payload))
            } else {
                &&& out == Ok::<Option<Seq<u8>>, CarrierError>(None)
                &&& carrier_holds(after, message, payload, chunk, order, n + 1, start)
            }
        }),
{
    let count = part_count(payload.len(), chunk);
    let index = order[n];
    let part = part_of(payload, chunk, index as int);
    let frame = carrier_frames(message, payload, chunk)[index as int];
    lemma_carrier_reads_back(message, index, count, part);
    let kept = m.kept(now);
    if n == 0 {
        assert(kept.groups.dom().subset_of(m.groups.dom()));
        vstd::set_lib::lemma_len_subset(kept.groups.dom(), m.groups.dom());
    } else {
        assert(kept.groups.contains_key(message));
    }
    let before = kept.parts_for(frame, now);
    let with = kept.parts_with(frame, now);
    assert(before.parts.len() == count);
    assert forall|i: int| 0 <= i < count implies #[trigger] with.parts[i] == if part_came(
        order,
        n + 1,
        i as nat,
    ) {
        Some(part_of(payload, chunk, i))
    } else {
        None
    } by {
        if part_came(order, n, i as nat) {
            let j = choose|j: int| 0 <= j < n && #[trigger] order[j] == i as nat;
            assert(order[j] == i as nat);
            assert(part_came(order, n + 1, i as nat));
        } else if i == index {
            assert(order[n] == i as nat);
            assert(part_came(order, n + 1, i as nat));
        } else if part_came(order, n + 1, i as nat) {
            let j = choose|j: int| 0 <= j < n + 1 && #[trigger] order[j] == i as nat;
            assert(j < n);
        }
        if n > 0 {
            assert(m.groups[message].parts[i] == before.parts[i]);
        }
    }
    if all_came(order, n + 1, count) {
        assert forall|i: int| 0 <= i < count implies #[trigger] with.parts[i] == Some(
            part_of(payload, chunk, i),
        ) by {
            assert(part_came(order, n + 1, i as nat));
        }
        lemma_all_parts_join(payload, chunk, with.parts);
    } else {
        let i = choose|i: nat| i < count && !#[trigger] part_came(order, n + 1, i);
        assert(with.parts[i as int] is None);
    }
}

/// What a carrier holds before the last part comes.
proof fn lemma_carrier_run(
    m: CarrierModel,
    message: u64,
    payload: Seq<u8>,
    chunk: nat,
    order: Seq<nat>,
    times: Seq<nat>,
    n: int,
    start: nat,
)
    requires
        carrier_ready(m, message, payload, chunk, order, times, start),
        0 <= n <= order.len(),
        !all_came(order, n, part_count(payload.len(), chunk)),
    ensures
        carrier_holds(
            carrier_after(m, carrier_frames(message, payload, chunk), order, times, n),
            message,
            payload,
            chunk,
            order,
            n,
            start,
        ),
    decreases n,
{
    if n > 0 {
        let count = part_count(payload.len(), chunk);
        assert(!all_came(order, n - 1, count)) by {
            let i = choose|i: nat| i < count && !#[trigger] part_came(order, n, i);
            if part_came(order, n - 1, i) {
                let j = choose|j: int| 0 <= j < n - 1 && #[trigger] order[j] == i;
                assert(order[j] == i);
                assert(part_came(order, n, i));
            }
        }
        lemma_carrier_run(m, message, payload, chunk, order, times, n - 1, start);
        lemma_carrier_step(
            carrier_after(m, carrier_frames(message, payload, chunk), order, times, n - 1),
            message,
            payload,
            chunk,
            order,
            n - 1,
            start,
            times[n - 1],
        );
    }
}

/// A datagram that is split, and whose parts come in any order and as often as one
/// likes, is put together unchanged just when the last of its parts comes.
pub proof fn law_carrier_round_trip(
    m: CarrierModel,
    message: u64,
    payload: Seq<u8>,
    chunk: nat,
    order: Seq<nat>,
    times: Seq<nat>,
    n: int,
    start: nat,
)
    requires
        carrier_ready(m, message, payload, chunk, order, times, start),
        0 <= n < order.len(),
        !all_came(order, n, part_count(payload.len(), chunk)),
    ensures
        carrier_out(m, carrier_frames(message, payload, chunk), order, times, n) == if all_came(
            order,
            n + 1,
            part_count(payload.len(), chunk),
        ) {
            Ok::<Option<Seq<u8>>, CarrierError>(Some(payload))
        } else {
            Ok(None)
        },
{
    lemma_carrier_run(m, message, payload, chunk, order, times, n, start);
    lemma_carrier_step(
        carrier_after(m, carrier_frames(message, payload, chunk), order, times, n),
        message,
        payload,
        chunk,
        order,
        n,
        start,
        times[n],
    );
}

/// Datagrams do not mix: a frame adds nothing to the parts of another datagram, and
/// takes nothing from them while they are kept.
pub proof fn law_datagrams_do_not_mix(m: CarrierModel, frame: Seq<u8>, now: nat, other: u64)
    requires
        m.wf(),
        other != message_field(frame),
    ensures
        ({
            let after = m.outcome(frame, now).0;
            &&& m.groups.contains_key(other) && decoder::age(now, m.groups[other].created)
                <= CARRIER_TTL ==> after.groups.contains_key(other)
            &&& after.groups.contains_key(other) ==> m.groups.contains_key(other)
                && after.groups[other] == m.groups[other]
        }),
{
}

/// What a carrier sends is no larger than what QUIC carries at once.
pub proof fn law_carrier_frames_fit(message: u64, payload: Seq<u8>, maximum: usize, i: int)
    requires
        carrier_refusal(payload.len(), Some(maximum)) is None,
        0 <= i < part_count(payload.len(), (maximum - CARRIER_HEADER) as nat),
    ensures
        carrier_frames(message, payload, (maximum - CARRIER_HEADER) as nat)[i].len() <= maximum,
{
    let chunk = (maximum - CARRIER_HEADER) as nat;
    lemma_part_count(payload.len(), chunk, i as nat);
    assert((i + 1) * chunk == i * chunk + chunk) by (nonlinear_arith);
    lemma_carrier_reads_back(
        message,
        i as nat,
        part_count(payload.len(), chunk),
        part_of(payload, chunk, i),
    );
}

/// What a client sends to learn that the carrier is alive: "SFT-Q-PING-1".
pub open spec fn ping_bytes() -> Seq<u8> {
    seq![0x53u8, 0x46, 0x54, 0x2d, 0x51, 0x2d, 0x50, 0x49, 0x4e, 0x47, 0x2d, 0x31]
}

/// What a server answers: "SFT-Q-PONG-1".
pub open spec fn pong_bytes() -> Seq<u8> {
    seq![0x53u8, 0x46, 0x54, 0x2d, 0x51, 0x2d, 0x50, 0x4f, 0x4e, 0x47, 0x2d, 0x31]
}

/// What a client sends to learn that the carrier is alive.
pub fn carrier_ping() -> (bytes: [u8; 12])
    ensures
        bytes@ == ping_bytes(),
{
    let bytes: [u8; 12] = [
        0x53u8, 0x46, 0x54, 0x2d, 0x51, 0x2d, 0x50, 0x49, 0x4e, 0x47, 0x2d, 0x31,
    ];
    assert(bytes@ =~= ping_bytes());
    bytes
}

/// What a server answers.
pub fn carrier_pong() -> (bytes: [u8; 12])
    ensures
        bytes@ == pong_bytes(),
{
    let bytes: [u8; 12] = [
        0x53u8, 0x46, 0x54, 0x2d, 0x51, 0x2d, 0x50, 0x4f, 0x4e, 0x47, 0x2d, 0x31,
    ];
    assert(bytes@ =~= pong_bytes());
    bytes
}

/// What an end of a carrier does with what came.
#[derive(Debug)]
pub enum CarrierAction {
    /// Nothing yet.
    Wait,
    /// Answers that it is alive.
    Pong,
    /// Passes a datagram on.
    Forward(Vec<u8>),
}

/// What an end of a carrier does as a mathematical value.
pub enum CarrierActionModel {
    Wait,
    Pong,
    Forward(Seq<u8>),
}

impl View for CarrierAction {
    type V = CarrierActionModel;

    open spec fn view(&self) -> CarrierActionModel {
        match self {
            CarrierAction::Wait => CarrierActionModel::Wait,
            CarrierAction::Pong => CarrierActionModel::Pong,
            CarrierAction::Forward(payload) => CarrierActionModel::Forward(payload@),
        }
    }
}

/// What is done with the datagram that a frame completes.
pub open spec fn forwarded(out: Result<Option<Seq<u8>>, CarrierError>) -> Result<
    CarrierActionModel,
    CarrierError,
> {
    match out {
        Ok(Some(payload)) => Ok(CarrierActionModel::Forward(payload)),
        Ok(None) => Ok(CarrierActionModel::Wait),
        Err(e) => Err(e),
    }
}

/// The action as a mathematical value.
pub open spec fn action_view(r: Result<CarrierAction, CarrierError>) -> Result<
    CarrierActionModel,
    CarrierError,
> {
    match r {
        Ok(action) => Ok(action@),
        Err(e) => Err(e),
    }
}

impl CarrierModel {
    /// What a server does with what came at `now`.
    pub open spec fn server_outcome(self, incoming: Seq<u8>, now: nat) -> (
        CarrierModel,
        Result<CarrierActionModel, CarrierError>,
    ) {
        if incoming == ping_bytes() {
            (self, Ok(CarrierActionModel::Pong))
        } else {
            (self.outcome(incoming, now).0, forwarded(self.outcome(incoming, now).1))
        }
    }

    /// What a client does with what came at `now`. A datagram that is complete
    /// before anything was sent has nowhere to go.
    pub open spec fn client_outcome(self, incoming: Seq<u8>, has_peer: bool, now: nat) -> (
        CarrierModel,
        Result<CarrierActionModel, CarrierError>,
    ) {
        if incoming == pong_bytes() {
            (self, Ok(CarrierActionModel::Wait))
        } else {
            let (after, out) = self.outcome(incoming, now);
            (
                after,
                if !has_peer && out is Ok {
                    Ok(CarrierActionModel::Wait)
                } else {
                    forwarded(out)
                },
            )
        }
    }
}

impl CarrierReassembly {
    /// What a server does with what came at the time `now`.
    pub fn server_receive_at(&mut self, incoming: &[u8], now: u128) -> (action: Result<
        CarrierAction,
        CarrierError,
    >)
        requires
            old(self)@.wf(),
        ensures
            final(self)@.wf(),
            (final(self)@, action_view(action)) == old(self)@.server_outcome(
                incoming@,
                now as nat,
            ),
            final(self).origin() == old(self).origin(),
    {
        let ping: [u8; 12] = carrier_ping();
        if bytes_equal(incoming, &ping) {
            return Ok(CarrierAction::Pong);
        }
        match self.push_at(incoming, now) {
            Ok(Some(payload)) => Ok(CarrierAction::Forward(payload)),
            Ok(None) => Ok(CarrierAction::Wait),
            Err(e) => Err(e),
        }
    }

    /// What a server does with what came now.
    pub fn server_receive(&mut self, incoming: &[u8]) -> (action: Result<
        CarrierAction,
        CarrierError,
    >)
        requires
            old(self)@.wf(),
        ensures
            final(self)@.wf(),
            exists|now: nat|
                clock::is_elapsed(old(self).origin(), now) && (final(self)@, action_view(action))
                    == #[trigger] old(self)@.server_outcome(incoming@, now),
            final(self).origin() == old(self).origin(),
    {
        let now: u128 = time_since(&self.clock);
        self.server_receive_at(incoming, now)
    }

    /// What a client does with what came at the time `now`.
    pub fn client_receive_at(&mut self, incoming: &[u8], has_peer: bool, now: u128) -> (action:
        Result<CarrierAction, CarrierError>)
        requires
            old(self)@.wf(),
        ensures
            final(self)@.wf(),
            (final(self)@, action_view(action)) == old(self)@.client_outcome(
                incoming@,
                has_peer,
                now as nat,
            ),
            final(self).origin() == old(self).origin(),
    {
        let pong: [u8; 12] = carrier_pong();
        if bytes_equal(incoming, &pong) {
            return Ok(CarrierAction::Wait);
        }
        match self.push_at(incoming, now) {
            Ok(Some(payload)) => if has_peer {
                Ok(CarrierAction::Forward(payload))
            } else {
                Ok(CarrierAction::Wait)
            },
            Ok(None) => Ok(CarrierAction::Wait),
            Err(e) => Err(e),
        }
    }

    /// What a client does with what came now.
    pub fn client_receive(&mut self, incoming: &[u8], has_peer: bool) -> (action: Result<
        CarrierAction,
        CarrierError,
    >)
        requires
            old(self)@.wf(),
        ensures
            final(self)@.wf(),
            exists|now: nat|
                clock::is_elapsed(old(self).origin(), now) && (final(self)@, action_view(action))
                    == #[trigger] old(self)@.client_outcome(incoming@, has_peer, now),
            final(self).origin() == old(self).origin(),
    {
        let now: u128 = time_since(&self.clock);
        self.client_receive_at(incoming, has_peer, now)
    }
}

/// A datagram as it goes over a stream lane: its length before it.
pub open spec fn stream_bytes(payload: Seq<u8>) -> Seq<u8> {
    wire::be(payload.len(), 4) + payload
}

/// The length that the header of a stream datagram gives.
pub open spec fn stream_size_model(header: Seq<u8>) -> Result<nat, CarrierError> {
    if wire::be_value(header) > MAX_DATAGRAM {
        Err(CarrierError::StreamDatagramTooLarge)
    } else {
        Ok(wire::be_value(header))
    }
}

/// A datagram as it goes over a stream lane.
pub fn stream_datagram(payload: &[u8]) -> (bytes: Result<Vec<u8>, CarrierError>)
    ensures
        match bytes {
            Ok(b) => payload@.len() <= MAX_DATAGRAM && b@ == stream_bytes(payload@),
            Err(e) => payload@.len() > MAX_DATAGRAM && e == CarrierError::StreamDatagramTooLarge,
        },
{
    if payload.len() > MAX_DATAGRAM {
        return Err(CarrierError::StreamDatagramTooLarge);
    }
    let mut bytes: Vec<u8> = Vec::new();
    put_be(&mut bytes, payload.len() as u64, 4);
    put_bytes(&mut bytes, payload);
    assert(bytes@ =~= stream_bytes(payload@));
    Ok(bytes)
}

/// The length that the header of a stream datagram gives.
pub fn stream_size(header: &[u8; 4]) -> (size: Result<usize, CarrierError>)
    ensures
        match size {
            Ok(n) => stream_size_model(header@) == Ok::<nat, CarrierError>(n as nat),
            Err(e) => stream_size_model(header@) == Err::<nat, CarrierError>(e),
        },
{
    proof {
        wire::lemma_byte_bounds();
        assert(header@.subrange(0, 4) =~= header@);
    }
    let size: u64 = get_be(header, 0, 4);
    if size > MAX_DATAGRAM as u64 {
        return Err(CarrierError::StreamDatagramTooLarge);
    }
    Ok(size as usize)
}

/// A datagram that goes over a stream lane is found behind its header.
pub proof fn law_stream_round_trip(payload: Seq<u8>)
    requires
        payload.len() <= MAX_DATAGRAM,
    ensures
        stream_size_model(stream_bytes(payload).take(4)) == Ok::<nat, CarrierError>(payload.len()),
        stream_bytes(payload).skip(4) == payload,
{
    wire::lemma_be_len(payload.len(), 4);
    wire::lemma_byte_bounds();
    wire::lemma_be_round_trip(payload.len(), 4);
    assert(stream_bytes(payload).take(4) =~= wire::be(payload.len(), 4));
    assert(stream_bytes(payload).skip(4) =~= payload);
}

/// The proof by which a device introduces itself.
pub fn introduce(
    secret: &str,
    device_id: u64,
    timestamp: u64,
    nonce: [u8; 16],
    tls_exporter: &[u8; 32],
) -> (envelope: Result<[u8; 69], AuthError>)
    ensures
        device_id == 0 ==> envelope == Err::<[u8; 69], AuthError>(AuthError::ZeroDevice),
        device_id != 0 ==> envelope is Ok && envelope->Ok_0@ == quic_auth::envelope_model(
            secret@,
            device_id,
            timestamp,
            nonce@,
            tls_exporter@,
        ),
{
    if device_id == 0 {
        return Err(AuthError::ZeroDevice);
    }
    Ok(make_envelope(secret, device_id, timestamp, nonce, tls_exporter))
}

/// Who a proof is from: the device and the nonce that the channel is asked about.
pub fn identify(proof_bytes: &[u8], keys: &HashMap<u64, String>) -> (device: Result<
    (u64, [u8; 16]),
    AuthError,
>)
    ensures
        match quic_auth::device_model(proof_bytes@) {
            Err(e) => device == Err::<(u64, [u8; 16]), AuthError>(e),
            Ok(id) => if keys@.contains_key(id) {
                device matches Ok((d, nonce)) && d == id && nonce@ == quic_auth::nonce_field(
                    proof_bytes@,
                )
            } else {
                device == Err::<(u64, [u8; 16]), AuthError>(AuthError::UnknownDevice)
            },
        },
{
    let device_id: u64 = match envelope_device_id(proof_bytes) {
        Ok(device_id) => device_id,
        Err(e) => return Err(e),
    };
    if !keys.contains_key(&device_id) {
        return Err(AuthError::UnknownDevice);
    }
    Ok((device_id, envelope_nonce(proof_bytes)))
}

/// What comes of a proof at a server that knows the secrets `keys`.
pub open spec fn authentication(
    proof_bytes: Seq<u8>,
    keys: Map<u64, Seq<char>>,
    tls_exporter: Seq<u8>,
    now: u64,
    cache: quic_auth::ReplayModel,
) -> Result<u64, AuthError> {
    match quic_auth::device_model(proof_bytes) {
        Err(e) => Err(e),
        Ok(id) => if !keys.contains_key(id) {
            Err(AuthError::UnknownDevice)
        } else {
            match quic_auth::verdict(
                proof_bytes,
                quic_auth::proof_model(
                    keys[id],
                    proof_bytes.take(quic_auth::PREFIX_LEN as int),
                    tls_exporter,
                ),
                now,
                DEFAULT_AUTH_WINDOW_SECS,
                cache,
            ) {
                Ok(_) => Ok(id),
                Err(e) => Err(e),
            }
        },
    }
}

/// The memory of proofs after one at a server that knows the secrets `keys`.
pub open spec fn memory_after(
    proof_bytes: Seq<u8>,
    keys: Map<u64, Seq<char>>,
    tls_exporter: Seq<u8>,
    now: u64,
    cache: quic_auth::ReplayModel,
) -> quic_auth::ReplayModel {
    match quic_auth::device_model(proof_bytes) {
        Err(_) => cache,
        Ok(id) => if !keys.contains_key(id) {
            cache
        } else {
            quic_auth::cache_after(
                proof_bytes,
                quic_auth::proof_model(
                    keys[id],
                    proof_bytes.take(quic_auth::PREFIX_LEN as int),
                    tls_exporter,
                ),
                now,
                DEFAULT_AUTH_WINDOW_SECS,
                cache,
            )
        },
    }
}

/// Authenticates the device that a proof is from.
pub fn authenticate(
    proof_bytes: &[u8],
    keys: &HashMap<u64, String>,
    tls_exporter: &[u8; 32],
    now: u64,
    replay_cache: &mut ReplayCache,
) -> (device: Result<u64, AuthError>)
    requires
        old(replay_cache).wf(),
    ensures
        final(replay_cache).wf(),
        device == authentication(
            proof_bytes@,
            keyring::secret_views(keys@),
            tls_exporter@,
            now,
            old(replay_cache)@,
        ),
        final(replay_cache)@ == memory_after(
            proof_bytes@,
            keyring::secret_views(keys@),
            tls_exporter@,
            now,
            old(replay_cache)@,
        ),
{
    let device_id: u64 = match envelope_device_id(proof_bytes) {
        Ok(device_id) => device_id,
        Err(e) => return Err(e),
    };
    match keys.get(&device_id) {
        None => Err(AuthError::UnknownDevice),
        Some(secret) => match verify_envelope(
            proof_bytes,
            secret.as_str(),
            tls_exporter,
            now,
            DEFAULT_AUTH_WINDOW_SECS,
            replay_cache,
        ) {
            Ok(_) => Ok(device_id),
            Err(e) => Err(e),
        },
    }
}

/// Whether the reply of a server says that a device is let in.
pub fn is_welcome(reply: &[u8]) -> (yes: bool)
    ensures
        yes == (reply@ == seq![0x4fu8, 0x4bu8]),
{
    let expected: [u8; 2] = [0x4fu8, 0x4b];
    assert(expected@ =~= seq![0x4fu8, 0x4bu8]);
    bytes_equal(reply, &expected)
}

/// A server answers the ping and changes nothing; whatever else comes goes to the
/// datagrams in parts. A datagram that is complete is passed on, whatever it holds, and
/// a frame that is not taken is not passed over.
pub proof fn law_server_passes_datagrams_on(m: CarrierModel, incoming: Seq<u8>, now: nat)
    ensures
        ({
            let is_ping = incoming == seq![
                0x53u8, 0x46, 0x54, 0x2d, 0x51, 0x2d, 0x50, 0x49, 0x4e, 0x47, 0x2d, 0x31,
            ];
            let (after, action) = m.server_outcome(incoming, now);
            let (taken, out) = m.outcome(incoming, now);
            &&& is_ping ==> after == m && action == Ok::<CarrierActionModel, CarrierError>(
                CarrierActionModel::Pong,
            )
            &&& !is_ping ==> after == taken
            &&& !is_ping ==> (out matches Ok(Some(payload)) ==> action == Ok::<
                CarrierActionModel,
                CarrierError,
            >(CarrierActionModel::Forward(payload)))
            &&& !is_ping ==> (out matches Ok(None) ==> action == Ok::<
                CarrierActionModel,
                CarrierError,
            >(CarrierActionModel::Wait))
            &&& !is_ping ==> (out matches Err(e) ==> action == Err::<
                CarrierActionModel,
                CarrierError,
            >(e))
        }),
{
    assert(ping_bytes() =~= seq![
        0x53u8, 0x46, 0x54, 0x2d, 0x51, 0x2d, 0x50, 0x49, 0x4e, 0x47, 0x2d, 0x31,
    ]);
}

/// A client hears the answer to its ping and changes nothing; whatever else comes goes
/// to the datagrams in parts. A datagram that is complete is passed on to the peer,
/// whatever it holds; only where nobody has sent yet it has nowhere to go.
pub proof fn law_client_passes_datagrams_on(
    m: CarrierModel,
    incoming: Seq<u8>,
    has_peer: bool,
    now: nat,
)
    ensures
        ({
            let is_pong = incoming == seq![
                0x53u8, 0x46, 0x54, 0x2d, 0x51, 0x2d, 0x50, 0x4f, 0x4e, 0x47, 0x2d, 0x31,
            ];
            let (after, action) = m.client_outcome(incoming, has_peer, now);
            let (taken, out) = m.outcome(incoming, now);
            &&& is_pong ==> after == m && action == Ok::<CarrierActionModel, CarrierError>(
                CarrierActionModel::Wait,
            )
            &&& !is_pong ==> after == taken
            &&& !is_pong && has_peer ==> (out matches Ok(Some(payload)) ==> action == Ok::<
                CarrierActionModel,
                CarrierError,
            >(CarrierActionModel::Forward(payload)))
            &&& !is_pong && !has_peer ==> (out matches Ok(Some(payload)) ==> action == Ok::<
                CarrierActionModel,
                CarrierError,
            >(CarrierActionModel::Wait))
            &&& !is_pong ==> (out matches Ok(None) ==> action == Ok::<
                CarrierActionModel,
                CarrierError,
            >(CarrierActionModel::Wait))
            &&& !is_pong ==> (out matches Err(e) ==> action == Err::<
                CarrierActionModel,
                CarrierError,
            >(e))
        }),
{
    assert(pong_bytes() =~= seq![
        0x53u8, 0x46, 0x54, 0x2d, 0x51, 0x2d, 0x50, 0x4f, 0x4e, 0x47, 0x2d, 0x31,
    ]);
}

/// A server's datagrams in parts after the first `n` frames of `frames`, taken in the
/// order `order` at the times `times`.
pub open spec fn server_after(
    m: CarrierModel,
    frames: Seq<Seq<u8>>,
    order: Seq<nat>,
    times: Seq<nat>,
    n: int,
) -> CarrierModel
    decreases n,
{
    if n <= 0 {
        m
    } else {
        server_after(m, frames, order, times, n - 1).server_outcome(
            frames[order[n - 1] as int],
            times[n - 1],
        ).0
    }
}

/// A client's datagrams in parts after the first `n` frames of `frames`, taken in the
/// order `order` at the times `times`.
pub open spec fn client_after(
    m: CarrierModel,
    frames: Seq<Seq<u8>>,
    order: Seq<nat>,
    times: Seq<nat>,
    n: int,
) -> CarrierModel
    decreases n,
{
    if n <= 0 {
        m
    } else {
        client_after(m, frames, order, times, n - 1).client_outcome(
            frames[order[n - 1] as int],
            true,
            times[n - 1],
        ).0
    }
}

/// No part of a datagram looks like a ping or its answer.
proof fn lemma_parts_are_no_pings(message: u64, payload: Seq<u8>, chunk: nat, i: int)
    requires
        part_count(payload.len(), chunk) <= MAX_CARRIER_FRAGMENTS,
        0 <= i < part_count(payload.len(), chunk),
    ensures
        carrier_frames(message, payload, chunk)[i] != ping_bytes(),
        carrier_frames(message, payload, chunk)[i] != pong_bytes(),
{
    lemma_carrier_reads_back(
        message,
        i as nat,
        part_count(payload.len(), chunk),
        part_of(payload, chunk, i),
    );
    reveal_with_fuel(wire::be_value, 3);
    assert(ping_bytes().subrange(10, 12) =~= seq![0x2du8, 0x31u8]);
    assert(pong_bytes().subrange(10, 12) =~= seq![0x2du8, 0x31u8]);
    assert(seq![0x2du8, 0x31u8].drop_last() =~= seq![0x2du8]);
    assert(seq![0x2du8].drop_last() =~= Seq::<u8>::empty());
    assert(wire::be_value(seq![0x2du8, 0x31u8]) > 128);
}

/// Both ends hold what the carrier holds.
proof fn lemma_ends_hold_the_same(
    m: CarrierModel,
    message: u64,
    payload: Seq<u8>,
    chunk: nat,
    order: Seq<nat>,
    times: Seq<nat>,
    n: int,
)
    requires
        part_count(payload.len(), chunk) <= MAX_CARRIER_FRAGMENTS,
        0 <= n <= order.len(),
        forall|j: int|
            0 <= j < order.len() ==> #[trigger] order[j] < part_count(payload.len(), chunk),
    ensures
        ({
            let frames = carrier_frames(message, payload, chunk);
            &&& server_after(m, frames, order, times, n) == carrier_after(
                m,
                frames,
                order,
                times,
                n,
            )
            &&& client_after(m, frames, order, times, n) == carrier_after(
                m,
                frames,
                order,
                times,
                n,
            )
        }),
    decreases n,
{
    if n > 0 {
        lemma_ends_hold_the_same(m, message, payload, chunk, order, times, n - 1);
        lemma_parts_are_no_pings(message, payload, chunk, order[n - 1] as int);
    }
}

/// A datagram that one end splits is passed on by the other, unchanged, when the last of
/// its parts comes, in whatever order and however often they come; until that both wait.
pub proof fn law_ends_pass_on_what_was_split(
    m: CarrierModel,
    message: u64,
    payload: Seq<u8>,
    chunk: nat,
    order: Seq<nat>,
    times: Seq<nat>,
    n: int,
    start: nat,
)
    requires
        carrier_ready(m, message, payload, chunk, order, times, start),
        0 <= n < order.len(),
        !all_came(order, n, part_count(payload.len(), chunk)),
    ensures
        ({
            let frames = carrier_frames(message, payload, chunk);
            let frame = frames[order[n] as int];
            let last = all_came(order, n + 1, part_count(payload.len(), chunk));
            let server = server_after(m, frames, order, times, n).server_outcome(
                frame,
                times[n],
            ).1;
            let client = client_after(m, frames, order, times, n).client_outcome(
                frame,
                true,
                times[n],
            ).1;
            &&& last ==> server == Ok::<CarrierActionModel, CarrierError>(
                CarrierActionModel::Forward(payload),
            )
            &&& !last ==> server == Ok::<CarrierActionModel, CarrierError>(CarrierActionModel::Wait)
            &&& client == server
        }),
{
    lemma_ends_hold_the_same(m, message, payload, chunk, order, times, n);
    law_carrier_round_trip(m, message, payload, chunk, order, times, n, start);
    lemma_parts_are_no_pings(message, payload, chunk, order[n] as int);
}

/// A datagram can be sent if and only if QUIC has agreed to carry datagrams, of more than
/// the twelve bytes of the header, and a hundred and twenty-eight of them hold it.
pub proof fn law_refused_datagrams(len: nat, maximum: Option<usize>)
    ensures
        match (maximum, carrier_refusal(len, maximum)) {
            (None, r) => r == Some(CarrierError::NotNegotiated),
            (Some(m), r) => {
                &&& m <= 12 ==> r == Some(CarrierError::SizeTooSmall)
                &&& m > 12 && len > 128 * (m - 12) ==> r == Some(CarrierError::TooManyFragments)
                &&& m > 12 && len <= 128 * (m - 12) ==> r is None
            },
        },
{
    match maximum {
        Some(m) => {
            if m > 12 {
                let chunk = (m - 12) as nat;
                lemma_some_part(len, chunk);
                let count = part_count(len, chunk);
                lemma_part_count(len, chunk, (count - 1) as nat);
                assert(count <= 128 ==> count * chunk <= 128 * chunk) by (nonlinear_arith);
                if count > 128 {
                    lemma_part_count(len, chunk, 127);
                }
            }
        },
        None => {},
    }
}

/// A datagram is cut up from its start: part `i` holds its bytes from `i * chunk` on, up to
/// the next part, and before them says in twelve bytes which message it is of, which part
/// it is and of how many. There are as few parts as hold the datagram.
pub proof fn law_messages_are_cut_up(message: u64, payload: Seq<u8>, chunk: nat, i: int)
    requires
        chunk > 0,
        part_count(payload.len(), chunk) <= MAX_CARRIER_FRAGMENTS,
        0 <= i < carrier_frames(message, payload, chunk).len(),
    ensures
        ({
            let count = carrier_frames(message, payload, chunk).len();
            let frame = carrier_frames(message, payload, chunk)[i];
            let part = frame.skip(12);
            &&& wire::be_value(frame.subrange(0, 8)) == message
            &&& wire::be_value(frame.subrange(8, 10)) == i
            &&& wire::be_value(frame.subrange(10, 12)) == count
            &&& i + 1 < count ==> part.len() == chunk && (i + 1) * chunk < payload.len()
            &&& i + 1 == count ==> part.len() == payload.len() - i * chunk && part.len() <= chunk
            &&& part == payload.subrange(i * chunk, i * chunk + part.len())
        }),
{
    let count = part_count(payload.len(), chunk);
    lemma_part_count(payload.len(), chunk, i as nat);
    assert((i + 1) * chunk == i * chunk + chunk) by (nonlinear_arith);
    lemma_carrier_reads_back(message, i as nat, count, part_of(payload, chunk, i));
    wire::lemma_byte_bounds();
    wire::lemma_be_round_trip(message as nat, 8);
    broadcast use wire::lemma_be_len;

    let frame = carrier_frames(message, payload, chunk)[i];
    assert(frame.subrange(0, 8) =~= wire::be(message as nat, 8));
}

/// Messages are numbered one after the other, and from zero again behind the last number.
pub proof fn law_messages_are_numbered(message: u64)
    ensures
        message < u64::MAX ==> next_message(message) == message + 1,
        message == u64::MAX ==> next_message(message) == 0,
{
}

/// Whether a message is kept: it is for three seconds after its first part came.
pub open spec fn is_kept(m: CarrierModel, message: u64, now: nat) -> bool {
    m.groups.contains_key(message) && now <= m.groups[message].created + 3_000_000_000
}

/// Which frames are refused, and why: those shorter than a header; those whose part count
/// is zero or over a hundred and twenty-eight, or whose part number is not below it; those
/// of a new message where two thousand and forty-eight are kept already; those whose part
/// count is not that of their message. A refused frame adds nothing.
pub proof fn law_refused_frames(m: CarrierModel, frame: Seq<u8>, now: nat)
    requires
        m.wf(),
    ensures
        ({
            let (after, out) = m.outcome(frame, now);
            let index = 256 * frame[8] + frame[9];
            let count = 256 * frame[10] + frame[11];
            let message = wire::be_value(frame.subrange(0, 8)) as u64;
            let known = is_kept(m, message, now);
            let full = m.groups.dom().filter(|k: u64| is_kept(m, k, now)).len() >= 2048;
            let short = frame.len() < 12;
            let odd = !short && (count == 0 || count > 128 || index >= count);
            let late = !short && !odd && !known && full;
            let other = !short && !odd && !late && known && m.groups[message].parts.len() != count;
            &&& short <==> out == Err::<Option<Seq<u8>>, CarrierError>(CarrierError::ShortFragment)
            &&& odd <==> out == Err::<Option<Seq<u8>>, CarrierError>(
                CarrierError::InvalidDimensions,
            )
            &&& late <==> out == Err::<Option<Seq<u8>>, CarrierError>(CarrierError::LimitReached)
            &&& other <==> out == Err::<Option<Seq<u8>>, CarrierError>(
                CarrierError::InconsistentCount,
            )
            &&& short || odd ==> after == m
            &&& late || other ==> forall|k: u64|
                #![trigger after.groups.contains_key(k)]
                {
                    &&& after.groups.contains_key(k) <==> is_kept(m, k, now)
                    &&& after.groups.contains_key(k) ==> after.groups[k] == m.groups[k]
                }
        }),
{
    if frame.len() >= 12 {
        wire::law_two_bytes(frame, 8);
        wire::law_two_bytes(frame, 10);
        let kept = m.kept(now);
        assert(kept.groups.dom() =~= m.groups.dom().filter(|k: u64| is_kept(m, k, now)));
    }
}

/// What a frame that is taken does: its part is noted in its place, unless one is there
/// already. The message is kept until the last part comes; it is then put together and
/// forgotten. A message of more than 65,535 bytes is not passed on.
pub proof fn law_taken_frames(m: CarrierModel, frame: Seq<u8>, now: nat)
    requires
        m.wf(),
        m.outcome(frame, now).1 is Ok || m.outcome(frame, now).1 == Err::<
            Option<Seq<u8>>,
            CarrierError,
        >(CarrierError::DatagramTooLarge),
    ensures
        ({
            let (after, out) = m.outcome(frame, now);
            let index = 256 * frame[8] + frame[9];
            let count = 256 * frame[10] + frame[11];
            let message = wire::be_value(frame.subrange(0, 8)) as u64;
            let known = is_kept(m, message, now);
            &&& out is Ok && out->Ok_0 is None <==> after.groups.contains_key(message)
            &&& out matches Ok(None) ==> {
                let parts = after.groups[message].parts;
                &&& parts.len() == count
                &&& after.groups[message].created == if known {
                    m.groups[message].created
                } else {
                    now
                }
                &&& forall|i: int|
                    0 <= i < count ==> #[trigger] parts[i] == if known
                        && m.groups[message].parts[i] is Some {
                        m.groups[message].parts[i]
                    } else if i == index {
                        Some(frame.skip(12))
                    } else {
                        None
                    }
                &&& exists|i: int| 0 <= i < count && #[trigger] parts[i] is None
            }
            &&& !(out matches Ok(None)) ==> forall|i: int|
                0 <= i < count && i != index ==> known && #[trigger] m.groups[message].parts[i]
                    is Some
            &&& out matches Ok(Some(payload)) ==> payload.len() <= 65_535
            &&& forall|k: u64|
                #![trigger after.groups.contains_key(k)]
                k != message ==> {
                    &&& after.groups.contains_key(k) <==> is_kept(m, k, now)
                    &&& after.groups.contains_key(k) ==> after.groups[k] == m.groups[k]
                }
        }),
{
    if frame.len() >= 12 {
        wire::law_two_bytes(frame, 8);
        wire::law_two_bytes(frame, 10);
        let message = wire::be_value(frame.subrange(0, 8)) as u64;
        let kept = m.kept(now);
        let index = index_field(frame) as int;
        let with = kept.parts_with(frame, now);
        let before = kept.parts_for(frame, now);
        assert(forall|i: int|
            0 <= i < with.parts.len() && i != index ==> #[trigger] with.parts[i]
                == before.parts[i]);
        if !decoder::complete(with.parts) {
            let gap = choose|i: int| 0 <= i < with.parts.len() && with.parts[i] is None;
            assert(with.parts[gap] is None);
        } else {
            assert forall|i: int| 0 <= i < count_field(frame) && i != index implies is_kept(
                m,
                message,
                now,
            ) && #[trigger] m.groups[message].parts[i] is Some by {
                assert(with.parts[i] is Some);
                assert(before.parts[i] is Some);
            }
        }
    }
}

/// A client that cannot connect waits for one, two, four, eight and sixteen seconds, and
/// for thirty each time after that.
pub proof fn law_delays_double(n: nat)
    ensures
        delay_after(0) == 1,
        2 * delay_after(n) <= 30 ==> delay_after(n + 1) == 2 * delay_after(n),
        2 * delay_after(n) > 30 ==> delay_after(n + 1) == 30,
        n >= 5 ==> delay_after(n) == 30,
    decreases n,
{
    reveal_with_fuel(delay_after, 6);
    if n > 5 {
        law_delays_double((n - 1) as nat);
    }
    assert(delay_after(n + 1) == if 2 * delay_after(n) < MAX_DELAY_SECS {
        2 * delay_after(n)
    } else {
        MAX_DELAY_SECS as nat
    });
}

/// A delay is followed by one twice as long, but for thirty seconds at most.
pub proof fn law_next_delay(secs: u64, next: u64)
    requires
        call_ensures(next_delay, (secs,), next),
    ensures
        next <= 30,
        secs <= 15 ==> next == secs + secs,
        secs > 15 ==> next == 30,
{
}

/// Lanes take turns: each follows the one before it, and the first follows the last.
pub proof fn law_lanes_take_turns(lane: usize, lanes: usize, next: usize)
    requires
        lane < lanes,
        call_ensures(next_lane, (lane, lanes), next),
    ensures
        next == (lane + 1) % (lanes as int),
{
    if lane + 1 < lanes {
        vstd::arithmetic::div_mod::lemma_small_mod((lane + 1) as nat, lanes as nat);
    } else {
        vstd::arithmetic::div_mod::lemma_mod_self_0(lanes as int);
    }
}

/// A carrier is dead when nothing has come for more than six seconds.
pub proof fn law_silence_is_borne_for_six_seconds(silence: u128, dead: bool)
    requires
        call_ensures(is_dead, (silence,), dead),
    ensures
        dead <==> silence > 6_000_000_000,
{
}

/// A stream lane starts with the letter S, and nothing else.
pub proof fn law_lanes_start_with_s(preface: u8, checked: Result<(), LaneError>)
    requires
        call_ensures(check_preface, (preface,), checked),
    ensures
        preface == 0x53 ==> checked is Ok,
        preface != 0x53 ==> checked == Err::<(), LaneError>(LaneError::BadPreface),
{
}

/// A server lets a device in with the two letters OK, and with nothing else.
pub proof fn law_welcome_is_ok(reply: &[u8], yes: bool)
    requires
        call_ensures(is_welcome, (reply,), yes),
    ensures
        yes <==> reply@.len() == 2 && reply@[0] == 0x4f && reply@[1] == 0x4b,
{
    if reply@.len() == 2 && reply@[0] == 0x4f && reply@[1] == 0x4b {
        assert(reply@ =~= seq![0x4fu8, 0x4bu8]);
    }
}

/// What was counted since an earlier reading, added to that reading, gives the later
/// one; a counter that went back counts from nothing.
pub proof fn law_counts_add_up(
    later: CarrierStatsSnapshot,
    earlier: CarrierStatsSnapshot,
    delta: CarrierStatsSnapshot,
)
    requires
        call_ensures(CarrierStatsSnapshot::since, (&later, &earlier), delta),
    ensures
        later.sent_packets >= earlier.sent_packets ==> earlier.sent_packets + delta.sent_packets
            == later.sent_packets,
        later.sent_packets < earlier.sent_packets ==> delta.sent_packets == 0,
        later.lost_packets >= earlier.lost_packets ==> earlier.lost_packets + delta.lost_packets
            == later.lost_packets,
        later.lost_packets < earlier.lost_packets ==> delta.lost_packets == 0,
        later.lost_bytes >= earlier.lost_bytes ==> earlier.lost_bytes + delta.lost_bytes
            == later.lost_bytes,
        later.lost_bytes < earlier.lost_bytes ==> delta.lost_bytes == 0,
        later.congestion_events >= earlier.congestion_events ==> earlier.congestion_events
            + delta.congestion_events == later.congestion_events,
        later.congestion_events < earlier.congestion_events ==> delta.congestion_events == 0,
        later.udp_tx_bytes >= earlier.udp_tx_bytes ==> earlier.udp_tx_bytes + delta.udp_tx_bytes
            == later.udp_tx_bytes,
        later.udp_tx_bytes < earlier.udp_tx_bytes ==> delta.udp_tx_bytes == 0,
        later.udp_rx_bytes >= earlier.udp_rx_bytes ==> earlier.udp_rx_bytes + delta.udp_rx_bytes
            == later.udp_rx_bytes,
        later.udp_rx_bytes < earlier.udp_rx_bytes ==> delta.udp_rx_bytes == 0,
{
}

/// A loss rate is given as soon as a hundred packets were sent: the share that was lost, in
/// millionths, rounded down, and a million at most.
pub proof fn law_loss_rates_are_shares(s: CarrierStatsSnapshot)
    ensures
        s.loss_ppm_model() is None <==> s.sent_packets < 100,
        s.loss_ppm_model() matches Some(ppm) ==> {
            &&& ppm <= 1_000_000
            &&& s.lost_packets >= s.sent_packets ==> ppm == 1_000_000
            &&& s.lost_packets < s.sent_packets ==> ppm * s.sent_packets <= s.lost_packets
                * 1_000_000 < (ppm + 1) * s.sent_packets
        },
{
    if s.sent_packets >= 100 {
        let lost = s.lost_packets * 1_000_000;
        let sent = s.sent_packets as int;
        let q = lost / sent;
        vstd::arithmetic::div_mod::lemma_fundamental_div_mod(lost, sent);
        vstd::arithmetic::div_mod::lemma_mod_bound(lost, sent);
        assert(q * sent == sent * q) by (nonlinear_arith);
        assert((q + 1) * sent == q * sent + sent) by (nonlinear_arith);
        if s.lost_packets < s.sent_packets {
            assert(q < 1_000_000) by (nonlinear_arith)
                requires
                    q * sent <= lost,
                    lost < 1_000_000 * sent,
                    sent > 0,
            ;
        } else {
            assert(q >= 1_000_000) by (nonlinear_arith)
                requires
                    (q + 1) * sent > lost,
                    lost >= 1_000_000 * sent,
                    sent > 0,
            ;
        }
    }
}

/// A datagram goes over a stream lane behind its length in four bytes; a length over
/// 65,535 is refused, and no other.
pub proof fn law_streams_carry_lengths(payload: Seq<u8>, header: Seq<u8>)
    requires
        payload.len() <= 65_535,
        header.len() == 4,
    ensures
        stream_bytes(payload).len() == 4 + payload.len(),
        wire::be_value(stream_bytes(payload).take(4)) == payload.len(),
        wire::be_value(header) <= 65_535 ==> stream_size_model(header) == Ok::<nat, CarrierError>(
            wire::be_value(header),
        ),
        wire::be_value(header) > 65_535 ==> stream_size_model(header) == Err::<nat, CarrierError>(
            CarrierError::StreamDatagramTooLarge,
        ),
{
    wire::lemma_be_len(payload.len(), 4);
    wire::lemma_byte_bounds();
    wire::lemma_be_round_trip(payload.len(), 4);
    assert(stream_bytes(payload).take(4) =~= wire::be(payload.len(), 4));
}

/// A setting asks for no lanes or for one. No setting asks for none; one that is a number
/// asks for one lane if and only if the number is one.
pub proof fn law_one_lane_at_most(value: Option<&str>, lanes: Result<usize, LaneError>)
    requires
        call_ensures(parse_stream_lanes, (value,), lanes),
    ensures
        value is None <==> lanes == Ok::<usize, LaneError>(0),
        lanes matches Ok(n) ==> n <= 1,
        value matches Some(v) ==> {
            let number = text::decimal_model(v@, usize::MAX as nat);
            &&& lanes == Ok::<usize, LaneError>(1) <==> number == Some(1nat)
            &&& lanes == Err::<usize, LaneError>(LaneError::NotAnInteger) <==> number is None
            &&& lanes == Err::<usize, LaneError>(LaneError::Unsupported) <==> number is Some
                && number != Some(1nat)
        },
{
}

/// What a carrier gives and does is seen as it is.
pub proof fn law_carriers_are_seen_as_they_are(
    out: Result<Option<Vec<u8>>, CarrierError>,
    action: Result<CarrierAction, CarrierError>,
)
    ensures
        match out {
            Ok(Some(payload)) => carried(out) == Ok::<Option<Seq<u8>>, CarrierError>(
                Some(payload@),
            ),
            Ok(None) => carried(out) == Ok::<Option<Seq<u8>>, CarrierError>(None),
            Err(e) => carried(out) == Err::<Option<Seq<u8>>, CarrierError>(e),
        },
        match action {
            Ok(CarrierAction::Wait) => action_view(action) == Ok::<
                CarrierActionModel,
                CarrierError,
            >(CarrierActionModel::Wait),
            Ok(CarrierAction::Pong) => action_view(action) == Ok::<
                CarrierActionModel,
                CarrierError,
            >(CarrierActionModel::Pong),
            Ok(CarrierAction::Forward(payload)) => action_view(action) == Ok::<
                CarrierActionModel,
                CarrierError,
            >(CarrierActionModel::Forward(payload@)),
            Err(e) => action_view(action) == Err::<CarrierActionModel, CarrierError>(e),
        },
{
}

/// Who a server lets in: a device whose secret it knows, with an envelope that was made for
/// this channel with that secret, within thirty seconds, and that did not come before. The
/// first reason to refuse it is named, and only what is authentic is noted.
pub proof fn law_devices_are_let_in(
    e: Seq<u8>,
    keys: Map<u64, Seq<char>>,
    tls_exporter: Seq<u8>,
    now: u64,
    cache: quic_auth::ReplayModel,
)
    ensures
        ({
            let out = authentication(e, keys, tls_exporter, now, cache);
            let after = memory_after(e, keys, tls_exporter, now, cache);
            let form = e.len() == 69 && e[0] == 0x53 && e[1] == 0x46 && e[2] == 0x54 && e[3] == 0x41
                && e[4] == 1;
            let device = wire::be_value(e.subrange(5, 13)) as u64;
            let time = wire::be_value(e.subrange(13, 21));
            let nonce = wire::be_value(e.subrange(21, 37)) as u128;
            let key = crypto::blake3_hash(vstd::utf8::encode_utf8(keys[device]))@;
            let nobody = form && device == 0;
            let strange = form && !nobody && !keys.contains_key(device);
            let known = form && !nobody && !strange;
            let late = known && !(now - 30 <= time <= now + 30);
            let forged = known && !late && e.skip(37) != crypto::blake3_keyed_hash(
                key,
                e.take(37) + tls_exporter,
            )@;
            let again = known && !late && !forged && !cache.is_new(nonce, now);
            &&& !form <==> out == Err::<u64, AuthError>(AuthError::InvalidEnvelope)
            &&& nobody <==> out == Err::<u64, AuthError>(AuthError::ZeroDevice)
            &&& strange <==> out == Err::<u64, AuthError>(AuthError::UnknownDevice)
            &&& late <==> out == Err::<u64, AuthError>(AuthError::Expired)
            &&& forged <==> out == Err::<u64, AuthError>(AuthError::InvalidProof)
            &&& again <==> out == Err::<u64, AuthError>(AuthError::Replayed)
            &&& known && !late && !forged && !again <==> out == Ok::<u64, AuthError>(device)
            &&& out is Ok || again ==> after == cache.noted(nonce, now, 30)
            &&& !(out is Ok || again) ==> after == cache
        }),
{
    let expected = quic_auth::proof_model(
        keys[wire::be_value(e.subrange(5, 13)) as u64],
        e.take(37),
        tls_exporter,
    );
    quic_auth::law_envelopes_are_refused_for_reasons(e, expected, now, 30, cache);
}

/// Who introduces itself, and who is asked about: a device has a number, its envelope is
/// the one that its secret makes, and a server knows it by its number.
pub proof fn law_devices_introduce_themselves(
    secret: &str,
    device_id: u64,
    timestamp: u64,
    nonce: [u8; 16],
    tls_exporter: &[u8; 32],
    envelope: Result<[u8; 69], AuthError>,
    bytes: &[u8],
    keys: &HashMap<u64, String>,
    device: Result<(u64, [u8; 16]), AuthError>,
)
    requires
        call_ensures(introduce, (secret, device_id, timestamp, nonce, tls_exporter), envelope),
        envelope matches Ok(e) ==> bytes@ == e@,
        call_ensures(identify, (bytes, keys), device),
    ensures
        device_id == 0 ==> envelope == Err::<[u8; 69], AuthError>(AuthError::ZeroDevice),
        device_id != 0 ==> envelope is Ok,
        device_id != 0 && keys@.contains_key(device_id) ==> (device matches Ok((d, n)) && d
            == device_id && n@ == nonce@),
        device_id != 0 && !keys@.contains_key(device_id) ==> device == Err::<
            (u64, [u8; 16]),
            AuthError,
        >(AuthError::UnknownDevice),
{
    quic_auth::law_envelopes_lie_open(secret@, device_id, timestamp, nonce@, tls_exporter@);
    match envelope {
        Ok(e) => {
            quic_auth::law_envelopes_are_refused_for_reasons(
                e@,
                Seq::empty(),
                0,
                0,
                quic_auth::ReplayModel { capacity: 1, queue: Seq::empty() },
            );
        },
        Err(_) => {},
    }
}

/// What the last part of a message gives: all parts one behind the other, if they are no
/// more than 65,535 bytes. `parts` is what the message has with the frame.
pub proof fn law_last_parts_give_the_message(
    m: CarrierModel,
    frame: Seq<u8>,
    now: nat,
    message: u64,
    parts: Seq<Option<Seq<u8>>>,
)
    requires
        m.wf(),
        frame.len() >= 12,
        message == wire::be_value(frame.subrange(0, 8)) as u64,
        parts == if !is_kept(m, message, now) {
            Seq::new((256 * frame[10] + frame[11]) as nat, |i: int| None).update(
                256 * frame[8] + frame[9],
                Some(frame.skip(12)),
            )
        } else if m.groups[message].parts[256 * frame[8] + frame[9]] is Some {
            m.groups[message].parts
        } else {
            m.groups[message].parts.update(256 * frame[8] + frame[9], Some(frame.skip(12)))
        },
        m.outcome(frame, now).1 is Ok || m.outcome(frame, now).1 == Err::<
            Option<Seq<u8>>,
            CarrierError,
        >(CarrierError::DatagramTooLarge),
    ensures
        ({
            let out = m.outcome(frame, now).1;
            let whole = forall|i: int| 0 <= i < parts.len() ==> #[trigger] parts[i] is Some;
            &&& !whole ==> out == Ok::<Option<Seq<u8>>, CarrierError>(None)
            &&& whole && decoder::joined(parts).len() <= 65_535 ==> out == Ok::<
                Option<Seq<u8>>,
                CarrierError,
            >(Some(decoder::joined(parts)))
            &&& whole && decoder::joined(parts).len() > 65_535 ==> out == Err::<
                Option<Seq<u8>>,
                CarrierError,
            >(CarrierError::DatagramTooLarge)
        }),
{
    wire::law_two_bytes(frame, 8);
    wire::law_two_bytes(frame, 10);
    let kept = m.kept(now);
    assert(kept.parts_with(frame, now).parts =~= parts);
    assert(decoder::complete(parts) <==> forall|i: int|
        0 <= i < parts.len() ==> #[trigger] parts[i] is Some);
}

/// What a call that splits a datagram gives: a refusal and no new number, or the next
/// number and the frames of the datagram under it.
pub proof fn law_splitting_numbers_and_cuts(
    payload: &[u8],
    maximum: Option<usize>,
    message: &mut u64,
    frames: Result<Vec<Vec<u8>>, CarrierError>,
    i: int,
)
    requires
        call_ensures(split_carrier, (payload, maximum, message), frames),
    ensures
        frames is Err ==> *final(message) == *old(message),
        maximum is None <==> frames == Err::<Vec<Vec<u8>>, CarrierError>(
            CarrierError::NotNegotiated,
        ),
        maximum matches Some(m) ==> {
            let chunk = (m - 12) as nat;
            &&& m <= 12 <==> frames == Err::<Vec<Vec<u8>>, CarrierError>(CarrierError::SizeTooSmall)
            &&& m > 12 && payload@.len() > 128 * chunk <==> frames == Err::<
                Vec<Vec<u8>>,
                CarrierError,
            >(CarrierError::TooManyFragments)
            &&& frames matches Ok(list) ==> {
                let number = if *old(message) == u64::MAX {
                    0
                } else {
                    *old(message) + 1
                };
                &&& *final(message) == number
                &&& list@.len() == part_count(payload@.len(), chunk)
                &&& 0 <= i < list@.len() ==> {
                    let frame = list@[i]@;
                    let part = frame.skip(12);
                    &&& frame.len() <= m
                    &&& wire::be_value(frame.subrange(0, 8)) == number
                    &&& wire::be_value(frame.subrange(8, 10)) == i
                    &&& wire::be_value(frame.subrange(10, 12)) == list@.len()
                    &&& part == payload@.subrange(i * chunk, i * chunk + part.len())
                    &&& i + 1 < list@.len() ==> part.len() == chunk
                    &&& i + 1 == list@.len() ==> i * chunk + part.len() == payload@.len()
                }
            }
        },
{
    law_refused_datagrams(payload@.len(), maximum);
    match (maximum, frames) {
        (Some(m), Ok(list)) => {
            let chunk = (m - 12) as nat;
            let number = next_message(*old(message));
            let all = carrier_frames(number, payload@, chunk);
            assert(erasure::shard_views(list@) == all);
            if 0 <= i < list@.len() {
                assert(erasure::shard_views(list@)[i] == list@[i]@);
                law_messages_are_cut_up(number, payload@, chunk, i);
                law_carrier_frames_fit(number, payload@, m, i);
            }
        },
        _ => {},
    }
}

/// What a server's call does with what came: a datagram that is complete is passed on byte
/// for byte, and a ping is answered.
pub proof fn law_servers_forward_byte_for_byte(
    carrier: &mut CarrierReassembly,
    incoming: &[u8],
    now: u128,
    action: Result<CarrierAction, CarrierError>,
)
    requires
        call_ensures(CarrierReassembly::server_receive_at, (carrier, incoming, now), action),
    ensures
        ({
            let is_ping = incoming@ == seq![
                0x53u8, 0x46, 0x54, 0x2d, 0x51, 0x2d, 0x50, 0x49, 0x4e, 0x47, 0x2d, 0x31,
            ];
            let (after, out) = old(carrier)@.outcome(incoming@, now as nat);
            &&& is_ping ==> action is Ok && action->Ok_0 is Pong
            &&& is_ping ==> final(carrier)@ == old(carrier)@
            &&& !is_ping ==> final(carrier)@ == after
            &&& !is_ping ==> (out matches Ok(Some(payload)) ==> (action matches Ok(
                CarrierAction::Forward(bytes),
            ) && bytes@ == payload))
            &&& !is_ping ==> (out matches Ok(None) ==> action is Ok && action->Ok_0 is Wait)
            &&& !is_ping ==> (out matches Err(e) ==> (action matches Err(f) && f == e))
        }),
{
    law_server_passes_datagrams_on(old(carrier)@, incoming@, now as nat);
    law_carriers_are_seen_as_they_are(Ok(None), action);
}

/// What a client's call does with what came: a datagram that is complete is passed on byte
/// for byte, if there is anyone to pass it on to.
pub proof fn law_clients_forward_byte_for_byte(
    carrier: &mut CarrierReassembly,
    incoming: &[u8],
    has_peer: bool,
    now: u128,
    action: Result<CarrierAction, CarrierError>,
)
    requires
        call_ensures(
            CarrierReassembly::client_receive_at,
            (carrier, incoming, has_peer, now),
            action,
        ),
    ensures
        ({
            let is_pong = incoming@ == seq![
                0x53u8, 0x46, 0x54, 0x2d, 0x51, 0x2d, 0x50, 0x4f, 0x4e, 0x47, 0x2d, 0x31,
            ];
            let (after, out) = old(carrier)@.outcome(incoming@, now as nat);
            &&& is_pong ==> action is Ok && action->Ok_0 is Wait
            &&& is_pong ==> final(carrier)@ == old(carrier)@
            &&& !is_pong ==> final(carrier)@ == after
            &&& !is_pong && has_peer ==> (out matches Ok(Some(payload)) ==> (action matches Ok(
                CarrierAction::Forward(bytes),
            ) && bytes@ == payload))
            &&& !is_pong && !has_peer && out is Ok ==> action is Ok && action->Ok_0 is Wait
            &&& !is_pong ==> (out matches Ok(None) ==> action is Ok && action->Ok_0 is Wait)
            &&& !is_pong ==> (out matches Err(e) ==> (action matches Err(f) && f == e))
        }),
{
    law_client_passes_datagrams_on(old(carrier)@, incoming@, has_peer, now as nat);
    law_carriers_are_seen_as_they_are(Ok(None), action);
}

} // verus!
