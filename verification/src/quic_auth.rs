//! Channel-bound device authentication shared by the QUIC transports.

use crate::clock::{epoch_seconds, wall_now, ClockError};
use crate::crypto::{self, constant_time_equal, keyed_hash};
use crate::keyring::{self, key};
use crate::wire::{self, bytes_equal, copy_range, get_be, put_be, put_bytes};
use std::collections::{HashMap, VecDeque};
use vstd::prelude::*;

verus! {

broadcast use vstd::std_specs::hash::group_hash_axioms;

/// Version of the authentication envelope.
pub const AUTH_VERSION: u8 = 1;

/// Bytes of an envelope before the proof.
pub const PREFIX_LEN: usize = 37;

/// Bytes of an envelope.
pub const ENVELOPE_LEN: usize = 69;

/// How far a timestamp may be off, in seconds.
pub const DEFAULT_AUTH_WINDOW_SECS: u64 = 30;

/// How many proofs are remembered.
pub const DEFAULT_REPLAY_CAPACITY: usize = 65_536;

/// One more than the largest half of a nonce.
pub const NONCE_SPAN: u128 = 0x1_0000_0000_0000_0000;

/// Why a proof is refused, or a cache cannot be made.
#[derive(Clone, Copy, Debug, PartialEq, Eq, Structural)]
pub enum AuthError {
    ZeroCapacity,
    InvalidEnvelope,
    ZeroDevice,
    Expired,
    InvalidProof,
    Replayed,
    UnknownDevice,
}

/// What a device claims in an envelope.
#[derive(Clone, Copy, Debug, PartialEq, Eq)]
pub struct AuthClaims {
    pub device_id: u64,
    pub timestamp: u64,
    pub nonce: [u8; 16],
}

/// Bounded process-wide memory of proofs. One that is local to a connection would
/// not keep a valid proof from being used again on a second connection.
#[derive(Debug)]
pub struct ReplayCache {
    capacity: usize,
    entries: HashMap<u128, u64>,
    order: VecDeque<(u128, u64)>,
}

/// A memory of proofs as a mathematical value: how many it holds at most, and the
/// nonces that it holds with the time up to which each counts, the first one first.
#[verifier::ext_equal]
pub struct ReplayModel {
    pub capacity: nat,
    pub queue: Seq<(u128, u64)>,
}

/// A nonce as a number.
pub open spec fn nonce_number(nonce: Seq<u8>) -> u128 {
    (wire::be_value(nonce.subrange(0, 8)) * NONCE_SPAN + wire::be_value(
        nonce.subrange(8, 16),
    )) as u128
}

/// The queue without the entries at its front that no longer count.
pub open spec fn unexpired(queue: Seq<(u128, u64)>, now: u64) -> Seq<(u128, u64)>
    decreases queue.len(),
{
    if queue.len() > 0 && queue[0].1 <= now {
        unexpired(queue.skip(1), now)
    } else {
        queue
    }
}

/// Whether a queue holds a nonce.
pub open spec fn queued(queue: Seq<(u128, u64)>, nonce: u128) -> bool {
    exists|i: int| 0 <= i < queue.len() && (#[trigger] queue[i]).0 == nonce
}

/// Up to when a proof counts: one second longer than the window.
pub open spec fn expiry(now: u64, window_secs: u64) -> u64 {
    if now + window_secs + 1 <= u64::MAX {
        (now + window_secs + 1) as u64
    } else {
        u64::MAX
    }
}

impl ReplayModel {
    /// What every operation keeps.
    pub open spec fn wf(self) -> bool {
        &&& self.capacity > 0
        &&& self.queue.len() <= self.capacity
        &&& forall|i: int, j: int|
            0 <= i < self.queue.len() && 0 <= j < self.queue.len() && (#[trigger] self.queue[i]).0
                == (#[trigger] self.queue[j]).0 ==> i == j
    }

    /// The memory without what no longer counts.
    pub open spec fn cleaned(self, now: u64) -> ReplayModel {
        ReplayModel { queue: unexpired(self.queue, now), ..self }
    }

    /// Whether a nonce is new.
    pub open spec fn is_new(self, nonce: u128, now: u64) -> bool {
        !queued(unexpired(self.queue, now), nonce)
    }

    /// The memory after a nonce. A full one lets its first entry go.
    pub open spec fn noted(self, nonce: u128, now: u64, window_secs: u64) -> ReplayModel {
        let kept = self.cleaned(now);
        if !self.is_new(nonce, now) {
            kept
        } else {
            let room = if kept.queue.len() >= self.capacity {
                kept.queue.skip(1)
            } else {
                kept.queue
            };
            ReplayModel { queue: room.push((nonce, expiry(now, window_secs))), ..self }
        }
    }
}

impl View for ReplayCache {
    type V = ReplayModel;

    closed spec fn view(&self) -> ReplayModel {
        ReplayModel { capacity: self.capacity as nat, queue: self.order@ }
    }
}

/// Dropping expired entries keeps the rest in order.
proof fn lemma_unexpired(queue: Seq<(u128, u64)>, now: u64) -> (n: nat)
    ensures
        n <= queue.len(),
        unexpired(queue, now) == queue.skip(n as int),
        forall|i: int| 0 <= i < n ==> (#[trigger] queue[i]).1 <= now,
    decreases queue.len(),
{
    if queue.len() > 0 && queue[0].1 <= now {
        let rest = queue.skip(1);
        let n = lemma_unexpired(rest, now);
        assert(rest.skip(n as int) =~= queue.skip((n + 1) as int));
        assert forall|i: int| 0 <= i < n + 1 implies (#[trigger] queue[i]).1 <= now by {
            if i > 0 {
                assert(rest[i - 1] == queue[i]);
            }
        }
        n + 1
    } else {
        assert(queue.skip(0) =~= queue);
        0
    }
}

/// A nonce is refused just if it is remembered, and it or one that was noted before it
/// still counts.
pub proof fn law_refused_nonces_are_remembered(m: ReplayModel, nonce: u128, now: u64)
    ensures
        !m.is_new(nonce, now) <==> exists|i: int, j: int|
            0 <= j <= i < m.queue.len() && (#[trigger] m.queue[i]).0 == nonce && (
            #[trigger] m.queue[j]).1 > now,
{
    let n = lemma_unexpired(m.queue, now);
    let kept = unexpired(m.queue, now);
    if !m.is_new(nonce, now) {
        let k = choose|k: int| 0 <= k < kept.len() && (#[trigger] kept[k]).0 == nonce;
        lemma_front_counts(m.queue, now);
        assert(kept[k] == m.queue[k + n]);
        assert(kept[0] == m.queue[n as int]);
        assert(m.queue[k + n].0 == nonce && m.queue[n as int].1 > now);
    }
    if exists|i: int, j: int|
        0 <= j <= i < m.queue.len() && (#[trigger] m.queue[i]).0 == nonce && (
        #[trigger] m.queue[j]).1 > now {
        let (i, j) = choose|i: int, j: int|
            0 <= j <= i < m.queue.len() && (#[trigger] m.queue[i]).0 == nonce && (
            #[trigger] m.queue[j]).1 > now;
        assert(n <= j);
        assert(kept[i - n] == m.queue[i]);
    }
}

/// What is left at the front of a queue counts.
proof fn lemma_front_counts(queue: Seq<(u128, u64)>, now: u64)
    ensures
        unexpired(queue, now).len() > 0 ==> unexpired(queue, now)[0].1 > now,
    decreases queue.len(),
{
    if queue.len() > 0 && queue[0].1 <= now {
        lemma_front_counts(queue.skip(1), now);
    }
}

/// A nonce that was taken is refused as long as it counts.
pub proof fn law_replay_is_refused(
    m: ReplayModel,
    nonce: u128,
    now: u64,
    window_secs: u64,
    later: u64,
)
    requires
        m.wf(),
        m.is_new(nonce, now),
        later < expiry(now, window_secs),
    ensures
        !m.noted(nonce, now, window_secs).is_new(nonce, later),
{
    let queue = m.noted(nonce, now, window_secs).queue;
    let n = lemma_unexpired(queue, later);
    let last = queue.len() - 1;
    assert(queue[last] == (nonce, expiry(now, window_secs)));
    assert(n <= last);
    assert(queue.skip(n as int)[last - n] == queue[last]);
}

/// A nonce that counts is forgotten only if it is the oldest and the memory is
/// full.
pub proof fn law_only_the_oldest_is_forgotten(
    m: ReplayModel,
    i: int,
    nonce: u128,
    now: u64,
    window_secs: u64,
)
    requires
        m.wf(),
        0 <= i < m.queue.len(),
        m.queue[i].1 > now,
    ensures
        queued(m.noted(nonce, now, window_secs).queue, m.queue[i].0) || (i == 0 && m.queue.len()
            == m.capacity),
{
    let n = lemma_unexpired(m.queue, now);
    let kept = unexpired(m.queue, now);
    assert(kept[i - n] == m.queue[i]);
    let after = m.noted(nonce, now, window_secs).queue;
    if !m.is_new(nonce, now) {
        assert(after[i - n] == m.queue[i]);
    } else if kept.len() >= m.capacity {
        assert(n == 0);
        if i > 0 {
            assert(after[i - 1] == m.queue[i]);
        }
    } else {
        assert(after[i - n] == m.queue[i]);
    }
}

impl ReplayModel {
    /// The memory after all of `checks`, nonces with the times at which they come, the
    /// first one first.
    pub open spec fn noted_all(self, checks: Seq<(u128, u64)>, window_secs: u64) -> ReplayModel
        decreases checks.len(),
    {
        if checks.len() == 0 {
            self
        } else {
            self.noted_all(checks.drop_last(), window_secs).noted(
                checks.last().0,
                checks.last().1,
                window_secs,
            )
        }
    }
}

/// Whether a nonce is remembered up to a time, at most `behind` places from the end.
spec fn remembered(m: ReplayModel, nonce: u128, until: u64, behind: nat) -> bool {
    exists|i: int|
        0 <= i < m.queue.len() && #[trigger] m.queue[i] == (nonce, until) && m.queue.len() - i
            <= behind
}

/// A nonce that counts and is not at the very front of a full memory stays.
proof fn lemma_note_remembers(
    m: ReplayModel,
    nonce: u128,
    until: u64,
    behind: nat,
    other: u128,
    now: u64,
    window_secs: u64,
)
    requires
        m.wf(),
        remembered(m, nonce, until, behind),
        behind < m.capacity || !m.is_new(other, now),
        now < until,
    ensures
        m.noted(other, now, window_secs).wf(),
        m.noted(other, now, window_secs).capacity == m.capacity,
        remembered(
            m.noted(other, now, window_secs),
            nonce,
            until,
            if m.is_new(other, now) {
                behind + 1
            } else {
                behind
            },
        ),
{
    law_memory_is_bounded(m, other, now, window_secs);
    let i = choose|i: int|
        0 <= i < m.queue.len() && #[trigger] m.queue[i] == (nonce, until) && m.queue.len() - i
            <= behind;
    let n = lemma_unexpired(m.queue, now);
    let kept = unexpired(m.queue, now);
    assert(kept[i - n] == m.queue[i]);
    let after = m.noted(other, now, window_secs).queue;
    if !m.is_new(other, now) {
        assert(after[i - n] == (nonce, until));
    } else if kept.len() >= m.capacity {
        assert(after[i - n - 1] == (nonce, until));
    } else {
        assert(after[i - n] == (nonce, until));
    }
}

/// A nonce that was taken is refused as long as it counts, whatever comes in between,
/// unless that is so much that it fills the memory anew.
pub proof fn law_replay_stays_refused(
    m: ReplayModel,
    nonce: u128,
    now: u64,
    window_secs: u64,
    checks: Seq<(u128, u64)>,
    later: u64,
)
    requires
        m.wf(),
        m.is_new(nonce, now),
        checks.len() < m.capacity,
        forall|i: int|
            0 <= i < checks.len() ==> (#[trigger] checks[i]).1 < expiry(now, window_secs),
        later < expiry(now, window_secs),
    ensures
        !m.noted(nonce, now, window_secs).noted_all(checks, window_secs).is_new(nonce, later),
{
    let start = m.noted(nonce, now, window_secs);
    let until = expiry(now, window_secs);
    law_memory_is_bounded(m, nonce, now, window_secs);
    assert(start.queue[start.queue.len() - 1] == (nonce, until));
    assert(remembered(start, nonce, until, 1));
    lemma_notes_remember(start, nonce, until, checks, window_secs);
    let end = start.noted_all(checks, window_secs);
    let i = choose|i: int|
        0 <= i < end.queue.len() && #[trigger] end.queue[i] == (nonce, until) && end.queue.len() - i
            <= checks.len() + 1;
    let n = lemma_unexpired(end.queue, later);
    assert(unexpired(end.queue, later)[i - n] == end.queue[i]);
}

/// A nonce that was just taken stays while less comes than the memory holds.
proof fn lemma_notes_remember(
    start: ReplayModel,
    nonce: u128,
    until: u64,
    checks: Seq<(u128, u64)>,
    window_secs: u64,
)
    requires
        start.wf(),
        remembered(start, nonce, until, 1),
        checks.len() < start.capacity,
        forall|i: int| 0 <= i < checks.len() ==> (#[trigger] checks[i]).1 < until,
    ensures
        start.noted_all(checks, window_secs).wf(),
        start.noted_all(checks, window_secs).capacity == start.capacity,
        remembered(start.noted_all(checks, window_secs), nonce, until, checks.len() + 1),
    decreases checks.len(),
{
    if checks.len() > 0 {
        let rest = checks.drop_last();
        assert forall|i: int| 0 <= i < rest.len() implies (#[trigger] rest[i]).1 < until by {
            assert(rest[i] == checks[i]);
        }
        lemma_notes_remember(start, nonce, until, rest, window_secs);
        assert(checks[checks.len() - 1] == checks.last());
        lemma_note_remembers(
            start.noted_all(rest, window_secs),
            nonce,
            until,
            checks.len(),
            checks.last().0,
            checks.last().1,
            window_secs,
        );
    }
}

/// The memory is bounded, whatever is noted.
pub proof fn law_memory_is_bounded(m: ReplayModel, nonce: u128, now: u64, window_secs: u64)
    requires
        m.wf(),
    ensures
        m.noted(nonce, now, window_secs).wf(),
        m.cleaned(now).wf(),
{
    let n = lemma_unexpired(m.queue, now);
    let kept = m.cleaned(now);
    assert forall|i: int, j: int|
        0 <= i < kept.queue.len() && 0 <= j < kept.queue.len() && (#[trigger] kept.queue[i]).0 == (
        #[trigger] kept.queue[j]).0 implies i == j by {
        assert(kept.queue[i] == m.queue[i + n]);
        assert(kept.queue[j] == m.queue[j + n]);
    }
    if m.is_new(nonce, now) {
        let after = m.noted(nonce, now, window_secs);
        let room = if kept.queue.len() >= m.capacity {
            kept.queue.skip(1)
        } else {
            kept.queue
        };
        let d: int = if kept.queue.len() >= m.capacity {
            1
        } else {
            0
        };
        assert forall|i: int| 0 <= i < room.len() implies (#[trigger] room[i])
            == kept.queue[i + d] by {}
        assert forall|i: int, j: int|
            0 <= i < after.queue.len() && 0 <= j < after.queue.len() && (
            #[trigger] after.queue[i]).0
                == (#[trigger] after.queue[j]).0 implies i == j by {
            if i < room.len() {
                assert(after.queue[i] == room[i] && room[i] == kept.queue[i + d]);
            }
            if j < room.len() {
                assert(after.queue[j] == room[j] && room[j] == kept.queue[j + d]);
            }
        }
    }
}

impl ReplayCache {
    /// What every operation keeps: the map holds just what the queue holds.
    pub closed spec fn wf(&self) -> bool {
        &&& self@.wf()
        &&& forall|i: int|
            0 <= i < self.order@.len() ==> self.entries@.contains_key(
                (#[trigger] self.order@[i]).0,
            ) && self.entries@[self.order@[i].0] == self.order@[i].1
        &&& forall|n: u128| #[trigger] self.entries@.contains_key(n) ==> queued(self.order@, n)
        &&& self.entries@.len() == self.order@.len()
    }

    /// A memory of proofs that is in order has a value that is in order.
    pub proof fn lemma_wf(&self)
        requires
            self.wf(),
        ensures
            self@.wf(),
    {
    }

    /// A memory of proofs that holds none.
    pub fn new(capacity: usize) -> (cache: Result<Self, AuthError>)
        ensures
            match cache {
                Ok(c) => capacity > 0 && c.wf() && c@ == (ReplayModel {
                    capacity: capacity as nat,
                    queue: Seq::empty(),
                }),
                Err(e) => capacity == 0 && e == AuthError::ZeroCapacity,
            },
    {
        if capacity == 0 {
            return Err(AuthError::ZeroCapacity);
        }
        let cache = ReplayCache { capacity, entries: HashMap::new(), order: VecDeque::new() };
        assert(cache@.queue =~= Seq::empty());
        Ok(cache)
    }

    /// How many proofs are remembered.
    pub fn len(&self) -> (n: usize)
        requires
            self.wf(),
        ensures
            n == self@.queue.len(),
    {
        self.entries.len()
    }

    /// Lets the first entry go.
    fn forget_first(&mut self)
        requires
            old(self).wf(),
            old(self)@.queue.len() > 0,
        ensures
            final(self).wf(),
            final(self)@ == (ReplayModel { queue: old(self)@.queue.skip(1), ..old(self)@ }),
    {
        let ghost before = self.order@;
        let ghost entries = self.entries@;
        let first: Option<(u128, u64)> = self.order.pop_front();
        match first {
            Some((nonce, _)) => {
                assert(before[0].0 == nonce);
                self.entries.remove(&nonce);
                assert(self.order@ =~= before.skip(1));
                proof {
                    assert forall|i: int|
                        0 <= i < self.order@.len() implies self.entries@.contains_key(
                        (#[trigger] self.order@[i]).0,
                    ) && self.entries@[self.order@[i].0] == self.order@[i].1 by {
                        assert(self.order@[i] == before[i + 1]);
                    }
                    assert forall|n: u128| #[trigger] self.entries@.contains_key(n) implies queued(
                        self.order@,
                        n,
                    ) by {
                        assert(entries.contains_key(n));
                        let i = choose|i: int|
                            0 <= i < before.len() && (#[trigger] before[i]).0 == n;
                        assert(self.order@[i - 1] == before[i]);
                    }
                    assert forall|i: int, j: int|
                        0 <= i < self.order@.len() && 0 <= j < self.order@.len() && (
                        #[trigger] self.order@[i]).0 == (
                        #[trigger] self.order@[j]).0 implies i == j by {
                        assert(self.order@[i] == before[i + 1]);
                        assert(self.order@[j] == before[j + 1]);
                    }
                }
            },
            None => {},
        }
    }

    /// Notes a nonce, and says whether it is new.
    pub fn check_and_insert(&mut self, nonce: [u8; 16], now: u64, window_secs: u64) -> (new: bool)
        requires
            old(self).wf(),
        ensures
            final(self).wf(),
            new == old(self)@.is_new(nonce_number(nonce@), now),
            final(self)@ == old(self)@.noted(nonce_number(nonce@), now, window_secs),
    {
        let ghost before = self@;
        let number: u128 = number_of(&nonce);
        while self.order.len() > 0 && self.order[0].1 <= now
            invariant
                self.wf(),
                self@ == (ReplayModel { queue: self@.queue, ..before }),
                unexpired(self@.queue, now) == unexpired(before.queue, now),
            decreases self@.queue.len(),
        {
            self.forget_first();
        }
        assert(self@ =~= before.cleaned(now));
        let ghost kept = self@;
        proof {
            assert(self.entries@.contains_key(number) <==> queued(self.order@, number)) by {
                if queued(self.order@, number) {
                    let i = choose|i: int|
                        0 <= i < self.order@.len() && (#[trigger] self.order@[i]).0 == number;
                    assert(self.entries@.contains_key(self.order@[i].0));
                }
            }
        }
        if self.entries.contains_key(&number) {
            return false;
        }
        if self.entries.len() >= self.capacity {
            self.forget_first();
        }
        let ghost room = self@.queue;
        let expires_at: u64 = now.saturating_add(window_secs).saturating_add(1);
        let ghost entries = self.entries@;
        assert(!entries.contains_key(number)) by {
            if entries.contains_key(number) {
                let i = choose|i: int| 0 <= i < room.len() && (#[trigger] room[i]).0 == number;
                if kept.queue.len() >= kept.capacity {
                    assert(room[i] == kept.queue[i + 1]);
                } else {
                    assert(room[i] == kept.queue[i]);
                }
                assert(queued(kept.queue, number));
            }
        }
        self.entries.insert(number, expires_at);
        self.order.push_back((number, expires_at));
        proof {
            law_memory_is_bounded(before, number, now, window_secs);
            assert(self@ =~= before.noted(number, now, window_secs));
            assert forall|i: int| 0 <= i < self.order@.len() implies self.entries@.contains_key(
                (#[trigger] self.order@[i]).0,
            ) && self.entries@[self.order@[i].0] == self.order@[i].1 by {
                if i < room.len() {
                    assert(self.order@[i] == room[i]);
                    assert(entries.contains_key(room[i].0));
                }
            }
            assert forall|n: u128| #[trigger] self.entries@.contains_key(n) implies queued(
                self.order@,
                n,
            ) by {
                if n == number {
                    assert(self.order@[room.len() as int].0 == n);
                } else {
                    assert(entries.contains_key(n));
                    let i = choose|i: int| 0 <= i < room.len() && (#[trigger] room[i]).0 == n;
                    assert(self.order@[i] == room[i]);
                }
            }
        }
        true
    }
}

/// A nonce as a number.
fn number_of(nonce: &[u8; 16]) -> (number: u128)
    ensures
        number == nonce_number(nonce@),
{
    let high: u64 = get_be(nonce, 0, 8);
    let low: u64 = get_be(nonce, 8, 8);
    high as u128 * NONCE_SPAN + low as u128
}

/// Two nonces with the same number are the same.
pub proof fn law_nonces_are_told_apart(a: Seq<u8>, b: Seq<u8>)
    requires
        a.len() == 16,
        b.len() == 16,
        nonce_number(a) == nonce_number(b),
    ensures
        a == b,
{
    wire::lemma_byte_bounds();
    wire::lemma_be_value_round_trip(a.subrange(0, 8));
    wire::lemma_be_value_round_trip(a.subrange(8, 16));
    wire::lemma_be_value_round_trip(b.subrange(0, 8));
    wire::lemma_be_value_round_trip(b.subrange(8, 16));
    assert(a =~= a.subrange(0, 8) + a.subrange(8, 16));
    assert(b =~= b.subrange(0, 8) + b.subrange(8, 16));
}

/// The bytes that begin an envelope: "SFTA".
pub open spec fn auth_magic() -> Seq<u8> {
    seq![0x53u8, 0x46u8, 0x54u8, 0x41u8]
}

/// What an envelope holds before the proof.
pub open spec fn prefix_model(device_id: u64, timestamp: u64, nonce: Seq<u8>) -> Seq<u8> {
    auth_magic() + seq![AUTH_VERSION] + wire::be(device_id as nat, 8) + wire::be(
        timestamp as nat,
        8,
    ) + nonce
}

/// The proof that a device knows its secret and is at this end of a TLS channel.
pub open spec fn proof_model(secret: Seq<char>, prefix: Seq<u8>, tls_exporter: Seq<u8>) -> Seq<u8> {
    crypto::blake3_keyed_hash(keyring::key_model(secret)@, prefix + tls_exporter)@
}

/// An envelope.
pub open spec fn envelope_model(
    secret: Seq<char>,
    device_id: u64,
    timestamp: u64,
    nonce: Seq<u8>,
    tls_exporter: Seq<u8>,
) -> Seq<u8> {
    let prefix = prefix_model(device_id, timestamp, nonce);
    prefix + proof_model(secret, prefix, tls_exporter)
}

/// Whether bytes have the form of an envelope.
pub open spec fn is_envelope(envelope: Seq<u8>) -> bool {
    &&& envelope.len() == ENVELOPE_LEN
    &&& envelope.take(4) == auth_magic()
    &&& envelope[4] == AUTH_VERSION
}

/// The device that an envelope names.
pub open spec fn device_field(envelope: Seq<u8>) -> u64 {
    wire::be_value(envelope.subrange(5, 13)) as u64
}

/// The time that an envelope names.
pub open spec fn time_field(envelope: Seq<u8>) -> u64 {
    wire::be_value(envelope.subrange(13, 21)) as u64
}

/// The nonce of an envelope.
pub open spec fn nonce_field(envelope: Seq<u8>) -> Seq<u8> {
    envelope.subrange(21, 37)
}

/// The device that an envelope names, if it is an envelope of a device.
pub open spec fn device_model(envelope: Seq<u8>) -> Result<u64, AuthError> {
    if !is_envelope(envelope) {
        Err(AuthError::InvalidEnvelope)
    } else if device_field(envelope) == 0 {
        Err(AuthError::ZeroDevice)
    } else {
        Ok(device_field(envelope))
    }
}

/// Whether two times are more than `window_secs` apart.
pub open spec fn out_of_window(now: u64, timestamp: u64, window_secs: u64) -> bool {
    now - timestamp > window_secs || timestamp - now > window_secs
}

/// Why an envelope is refused before it is held against earlier ones, if it is,
/// where `expected` is the proof that its claims call for.
pub open spec fn refusal(
    envelope: Seq<u8>,
    expected: Seq<u8>,
    now: u64,
    window_secs: u64,
) -> Option<AuthError> {
    match device_model(envelope) {
        Err(e) => Some(e),
        Ok(_) => if out_of_window(now, time_field(envelope), window_secs) {
            Some(AuthError::Expired)
        } else if expected != envelope.skip(PREFIX_LEN as int) {
            Some(AuthError::InvalidProof)
        } else {
            None
        },
    }
}

/// What comes of an envelope: the claims or why they are refused.
pub open spec fn verdict(
    envelope: Seq<u8>,
    expected: Seq<u8>,
    now: u64,
    window_secs: u64,
    cache: ReplayModel,
) -> Result<(u64, u64, Seq<u8>), AuthError> {
    match refusal(envelope, expected, now, window_secs) {
        Some(e) => Err(e),
        None => if cache.is_new(nonce_number(nonce_field(envelope)), now) {
            Ok((device_field(envelope), time_field(envelope), nonce_field(envelope)))
        } else {
            Err(AuthError::Replayed)
        },
    }
}

/// The memory of proofs after an envelope. One that is refused before it is held
/// against earlier ones leaves no trace.
pub open spec fn cache_after(
    envelope: Seq<u8>,
    expected: Seq<u8>,
    now: u64,
    window_secs: u64,
    cache: ReplayModel,
) -> ReplayModel {
    match refusal(envelope, expected, now, window_secs) {
        Some(_) => cache,
        None => cache.noted(nonce_number(nonce_field(envelope)), now, window_secs),
    }
}

/// The claims as a mathematical value.
pub open spec fn claims_view(r: Result<AuthClaims, AuthError>) -> Result<
    (u64, u64, Seq<u8>),
    AuthError,
> {
    match r {
        Ok(c) => Ok((c.device_id, c.timestamp, c.nonce@)),
        Err(e) => Err(e),
    }
}

/// The time that a clock gives which shows `seconds` since the Unix epoch, or a time
/// before it.
pub open spec fn time_model(seconds: Option<u64>) -> Result<u64, ClockError> {
    match seconds {
        Some(s) => Ok(s),
        None => Err(ClockError::BeforeEpoch),
    }
}

/// The time that a clock gives which shows `seconds` since the Unix epoch, or a time
/// before it.
pub fn time_shown(seconds: Option<u64>) -> (time: Result<u64, ClockError>)
    ensures
        time == time_model(seconds),
{
    match seconds {
        Some(seconds) => Ok(seconds),
        None => Err(ClockError::BeforeEpoch),
    }
}

/// Whether `time` is what a reading of the wall clock shows, held against the Unix
/// epoch.
pub closed spec fn is_clock_time(time: Result<u64, ClockError>) -> bool {
    exists|reading: std::time::SystemTime, seconds: Option<u64>|
        {
            &&& call_ensures(wall_now, (), reading)
            &&& #[trigger] call_ensures(epoch_seconds, (&reading,), seconds)
            &&& time == time_model(seconds)
        }
}

/// The seconds since the Unix epoch, as the wall clock shows them. What it shows is
/// left unsaid.
pub fn unix_time() -> (time: Result<u64, ClockError>)
    ensures
        is_clock_time(time),
{
    let reading: std::time::SystemTime = wall_now();
    let seconds: Option<u64> = epoch_seconds(&reading);
    assert(call_ensures(epoch_seconds, (&reading,), seconds));
    time_shown(seconds)
}

/// The fields of a prefix are read back as they were written.
proof fn lemma_prefix_reads_back(device_id: u64, timestamp: u64, nonce: Seq<u8>, tail: Seq<u8>)
    requires
        nonce.len() == 16,
        tail.len() == 32,
    ensures
        ({
            let envelope = prefix_model(device_id, timestamp, nonce) + tail;
            &&& is_envelope(envelope)
            &&& device_field(envelope) == device_id
            &&& time_field(envelope) == timestamp
            &&& nonce_field(envelope) == nonce
            &&& envelope.take(PREFIX_LEN as int) == prefix_model(device_id, timestamp, nonce)
            &&& envelope.skip(PREFIX_LEN as int) == tail
        }),
{
    broadcast use wire::lemma_be_len;

    let envelope = prefix_model(device_id, timestamp, nonce) + tail;
    wire::lemma_byte_bounds();
    wire::lemma_be_round_trip(device_id as nat, 8);
    wire::lemma_be_round_trip(timestamp as nat, 8);
    assert(envelope.take(4) =~= auth_magic());
    assert(envelope.subrange(5, 13) =~= wire::be(device_id as nat, 8));
    assert(envelope.subrange(13, 21) =~= wire::be(timestamp as nat, 8));
    assert(envelope.subrange(21, 37) =~= nonce);
    assert(envelope.take(PREFIX_LEN as int) =~= prefix_model(device_id, timestamp, nonce));
    assert(envelope.skip(PREFIX_LEN as int) =~= tail);
}

/// An envelope that was made for a device and a channel is accepted for that device
/// on that channel, within the window and if it was not used before.
pub proof fn law_own_envelopes_are_accepted(
    secret: Seq<char>,
    device_id: u64,
    timestamp: u64,
    nonce: Seq<u8>,
    tls_exporter: Seq<u8>,
    now: u64,
    window_secs: u64,
    cache: ReplayModel,
)
    requires
        device_id != 0,
        nonce.len() == 16,
        !out_of_window(now, timestamp, window_secs),
        cache.is_new(nonce_number(nonce), now),
    ensures
        ({
            let envelope = envelope_model(secret, device_id, timestamp, nonce, tls_exporter);
            let expected = proof_model(
                secret,
                envelope.take(PREFIX_LEN as int),
                tls_exporter,
            );
            verdict(envelope, expected, now, window_secs, cache) == Ok::<
                (u64, u64, Seq<u8>),
                AuthError,
            >((device_id, timestamp, nonce))
        }),
{
    let prefix = prefix_model(device_id, timestamp, nonce);
    lemma_prefix_reads_back(
        device_id,
        timestamp,
        nonce,
        proof_model(secret, prefix, tls_exporter),
    );
}

/// An envelope is accepted at most once within the window.
pub proof fn law_envelopes_are_accepted_once(
    envelope: Seq<u8>,
    expected: Seq<u8>,
    now: u64,
    later: u64,
    window_secs: u64,
    cache: ReplayModel,
)
    requires
        cache.wf(),
        verdict(envelope, expected, now, window_secs, cache) is Ok,
        later < expiry(now, window_secs),
    ensures
        verdict(
            envelope,
            expected,
            later,
            window_secs,
            cache_after(envelope, expected, now, window_secs, cache),
        ) is Err,
{
    law_replay_is_refused(
        cache,
        nonce_number(nonce_field(envelope)),
        now,
        window_secs,
        later,
    );
}

/// An envelope that comes, the proof that its claims call for, and the time.
pub struct Arrival {
    pub envelope: Seq<u8>,
    pub expected: Seq<u8>,
    pub now: u64,
}

/// The memory of proofs after all of `arrivals`, the first one first.
pub open spec fn cache_after_all(
    arrivals: Seq<Arrival>,
    window_secs: u64,
    cache: ReplayModel,
) -> ReplayModel
    decreases arrivals.len(),
{
    if arrivals.len() == 0 {
        cache
    } else {
        let last = arrivals.last();
        cache_after(
            last.envelope,
            last.expected,
            last.now,
            window_secs,
            cache_after_all(arrivals.drop_last(), window_secs, cache),
        )
    }
}

/// How many of `arrivals` are accepted.
pub open spec fn accepted_of(
    arrivals: Seq<Arrival>,
    window_secs: u64,
    cache: ReplayModel,
) -> nat
    decreases arrivals.len(),
{
    if arrivals.len() == 0 {
        0
    } else {
        let last = arrivals.last();
        let rest = arrivals.drop_last();
        let before = cache_after_all(rest, window_secs, cache);
        accepted_of(rest, window_secs, cache) + if verdict(
            last.envelope,
            last.expected,
            last.now,
            window_secs,
            before,
        ) is Ok {
            1nat
        } else {
            0nat
        }
    }
}

/// An envelope that was accepted is refused as long as it counts, whatever comes in
/// between, unless so many others are accepted that they fill the memory anew.
pub proof fn law_envelopes_stay_refused(
    envelope: Seq<u8>,
    expected: Seq<u8>,
    now: u64,
    arrivals: Seq<Arrival>,
    later: u64,
    window_secs: u64,
    cache: ReplayModel,
)
    requires
        cache.wf(),
        verdict(envelope, expected, now, window_secs, cache) is Ok,
        accepted_of(
            arrivals,
            window_secs,
            cache_after(envelope, expected, now, window_secs, cache),
        ) < cache.capacity,
        forall|i: int|
            0 <= i < arrivals.len() ==> (#[trigger] arrivals[i]).now < expiry(now, window_secs),
        later < expiry(now, window_secs),
    ensures
        verdict(
            envelope,
            expected,
            later,
            window_secs,
            cache_after_all(
                arrivals,
                window_secs,
                cache_after(envelope, expected, now, window_secs, cache),
            ),
        ) is Err,
{
    let nonce = nonce_number(nonce_field(envelope));
    let start = cache_after(envelope, expected, now, window_secs, cache);
    let until = expiry(now, window_secs);
    law_memory_is_bounded(cache, nonce, now, window_secs);
    assert(start.queue[start.queue.len() - 1] == (nonce, until));
    assert(remembered(start, nonce, until, 1));
    lemma_arrivals_remember(start, nonce, until, arrivals, window_secs);
    let end = cache_after_all(arrivals, window_secs, start);
    let i = choose|i: int| 0 <= i < end.queue.len() && #[trigger] end.queue[i] == (nonce, until);
    let n = lemma_unexpired(end.queue, later);
    assert(unexpired(end.queue, later)[i - n] == end.queue[i]);
}

/// A nonce that was just taken stays while fewer are taken than the memory holds.
proof fn lemma_arrivals_remember(
    start: ReplayModel,
    nonce: u128,
    until: u64,
    arrivals: Seq<Arrival>,
    window_secs: u64,
)
    requires
        start.wf(),
        remembered(start, nonce, until, 1),
        accepted_of(arrivals, window_secs, start) < start.capacity,
        forall|i: int| 0 <= i < arrivals.len() ==> (#[trigger] arrivals[i]).now < until,
    ensures
        cache_after_all(arrivals, window_secs, start).wf(),
        cache_after_all(arrivals, window_secs, start).capacity == start.capacity,
        remembered(
            cache_after_all(arrivals, window_secs, start),
            nonce,
            until,
            accepted_of(arrivals, window_secs, start) + 1,
        ),
    decreases arrivals.len(),
{
    if arrivals.len() > 0 {
        let rest = arrivals.drop_last();
        let last = arrivals.last();
        assert forall|i: int| 0 <= i < rest.len() implies (#[trigger] rest[i]).now < until by {
            assert(rest[i] == arrivals[i]);
        }
        lemma_arrivals_remember(start, nonce, until, rest, window_secs);
        assert(arrivals[arrivals.len() - 1] == last);
        if refusal(last.envelope, last.expected, last.now, window_secs) is None {
            lemma_note_remembers(
                cache_after_all(rest, window_secs, start),
                nonce,
                until,
                accepted_of(rest, window_secs, start) + 1,
                nonce_number(nonce_field(last.envelope)),
                last.now,
                window_secs,
            );
        }
    }
}

/// What is accepted was made with the secret, for the claims that come out and for
/// this channel, byte for byte.
pub proof fn law_only_own_envelopes_are_accepted(
    envelope: Seq<u8>,
    secret: Seq<char>,
    tls_exporter: Seq<u8>,
    now: u64,
    window_secs: u64,
    cache: ReplayModel,
    claims: (u64, u64, Seq<u8>),
)
    requires
        verdict(
            envelope,
            proof_model(secret, envelope.take(PREFIX_LEN as int), tls_exporter),
            now,
            window_secs,
            cache,
        ) == Ok::<(u64, u64, Seq<u8>), AuthError>(claims),
    ensures
        envelope == envelope_model(secret, claims.0, claims.1, claims.2, tls_exporter),
        claims.0 != 0,
{
    broadcast use wire::lemma_be_len;

    wire::lemma_be_value_round_trip(envelope.subrange(5, 13));
    wire::lemma_be_value_round_trip(envelope.subrange(13, 21));
    wire::lemma_byte_bounds();
    assert(prefix_model(claims.0, claims.1, claims.2) =~= envelope.take(PREFIX_LEN as int));
    assert(envelope =~= envelope.take(PREFIX_LEN as int) + envelope.skip(PREFIX_LEN as int));
}

/// What an envelope holds before the proof.
pub fn envelope_prefix(device_id: u64, timestamp: u64, nonce: &[u8; 16]) -> (prefix: Vec<u8>)
    ensures
        prefix@ == prefix_model(device_id, timestamp, nonce@),
        prefix@.len() == PREFIX_LEN,
{
    let mut prefix: Vec<u8> = Vec::new();
    prefix.push(0x53);
    prefix.push(0x46);
    prefix.push(0x54);
    prefix.push(0x41);
    prefix.push(AUTH_VERSION);
    put_be(&mut prefix, device_id, 8);
    put_be(&mut prefix, timestamp, 8);
    put_bytes(&mut prefix, nonce);
    proof {
        broadcast use wire::lemma_be_len;

        assert(prefix@ =~= prefix_model(device_id, timestamp, nonce@));
    }
    prefix
}

/// The proof that goes with a prefix.
fn make_proof(secret: &str, prefix: &[u8], tls_exporter: &[u8; 32]) -> (proof_bytes: [u8; 32])
    ensures
        proof_bytes@ == proof_model(secret@, prefix@, tls_exporter@),
{
    let mut message: Vec<u8> = copy_range(prefix, 0, prefix.len());
    put_bytes(&mut message, tls_exporter);
    assert(message@ =~= prefix@ + tls_exporter@);
    keyed_hash(&key(secret), &message)
}

/// Makes an envelope.
pub fn make_envelope(
    secret: &str,
    device_id: u64,
    timestamp: u64,
    nonce: [u8; 16],
    tls_exporter: &[u8; 32],
) -> (envelope: [u8; 69])
    ensures
        envelope@ == envelope_model(secret@, device_id, timestamp, nonce@, tls_exporter@),
{
    let mut bytes: Vec<u8> = envelope_prefix(device_id, timestamp, &nonce);
    let mac: [u8; 32] = make_proof(secret, &bytes, tls_exporter);
    put_bytes(&mut bytes, &mac);
    let mut envelope: [u8; 69] = [0u8; 69];
    let mut i: usize = 0;
    while i < ENVELOPE_LEN
        invariant
            i <= ENVELOPE_LEN,
            bytes@.len() == ENVELOPE_LEN,
            forall|j: int| 0 <= j < i ==> envelope@[j] == bytes@[j],
        decreases ENVELOPE_LEN - i,
    {
        envelope[i] = bytes[i];
        i = i + 1;
    }
    assert(envelope@ =~= bytes@);
    envelope
}

/// Whether bytes have the form of an envelope.
fn has_envelope_form(envelope: &[u8]) -> (yes: bool)
    ensures
        yes == is_envelope(envelope@),
{
    if envelope.len() != ENVELOPE_LEN {
        return false;
    }
    let magic: [u8; 4] = [0x53u8, 0x46, 0x54, 0x41];
    assert(magic@ =~= auth_magic());
    assert(envelope@.subrange(0, 4) =~= envelope@.take(4));
    bytes_equal(vstd::slice::slice_subrange(envelope, 0, 4), &magic) && envelope[4] == AUTH_VERSION
}

/// The device that an envelope names.
pub fn envelope_device_id(envelope: &[u8]) -> (device: Result<u64, AuthError>)
    ensures
        device == device_model(envelope@),
{
    if !has_envelope_form(envelope) {
        return Err(AuthError::InvalidEnvelope);
    }
    let device_id: u64 = get_be(envelope, 5, 8);
    if device_id == 0 {
        return Err(AuthError::ZeroDevice);
    }
    Ok(device_id)
}

/// The nonce of an envelope.
pub fn envelope_nonce(envelope: &[u8]) -> (nonce: [u8; 16])
    requires
        envelope@.len() == ENVELOPE_LEN,
    ensures
        nonce@ == nonce_field(envelope@),
{
    let mut nonce: [u8; 16] = [0u8; 16];
    let mut i: usize = 0;
    while i < 16
        invariant
            i <= 16,
            envelope@.len() == ENVELOPE_LEN,
            forall|j: int| 0 <= j < i ==> nonce@[j] == envelope@[21 + j],
        decreases 16 - i,
    {
        nonce[i] = envelope[21 + i];
        i = i + 1;
    }
    assert(nonce@ =~= nonce_field(envelope@));
    nonce
}

/// Verifies an envelope, where `expected` is the proof that its claims call for.
pub fn verify_proof(
    envelope: &[u8],
    expected: &[u8; 32],
    now: u64,
    window_secs: u64,
    replay_cache: &mut ReplayCache,
) -> (claims: Result<AuthClaims, AuthError>)
    requires
        old(replay_cache).wf(),
    ensures
        final(replay_cache).wf(),
        claims_view(claims) == verdict(
            envelope@,
            expected@,
            now,
            window_secs,
            old(replay_cache)@,
        ),
        final(replay_cache)@ == cache_after(
            envelope@,
            expected@,
            now,
            window_secs,
            old(replay_cache)@,
        ),
{
    let device_id: u64 = match envelope_device_id(envelope) {
        Ok(device_id) => device_id,
        Err(e) => return Err(e),
    };
    let timestamp: u64 = get_be(envelope, 13, 8);
    let apart: u64 = if now >= timestamp {
        now - timestamp
    } else {
        timestamp - now
    };
    if apart > window_secs {
        return Err(AuthError::Expired);
    }
    assert(envelope@.subrange(PREFIX_LEN as int, ENVELOPE_LEN as int) =~= envelope@.skip(
        PREFIX_LEN as int,
    ));
    if !constant_time_equal(
        expected,
        vstd::slice::slice_subrange(envelope, PREFIX_LEN, ENVELOPE_LEN),
    ) {
        return Err(AuthError::InvalidProof);
    }
    let nonce: [u8; 16] = envelope_nonce(envelope);
    if !replay_cache.check_and_insert(nonce, now, window_secs) {
        return Err(AuthError::Replayed);
    }
    Ok(AuthClaims { device_id, timestamp, nonce })
}

/// Verifies an envelope of the device that knows `secret`, on the channel that
/// `tls_exporter` stands for. The proof is held against the expected one before
/// the nonce is noted: what is not authentic must not fill the memory.
pub fn verify_envelope(
    envelope: &[u8],
    secret: &str,
    tls_exporter: &[u8; 32],
    now: u64,
    window_secs: u64,
    replay_cache: &mut ReplayCache,
) -> (claims: Result<AuthClaims, AuthError>)
    requires
        old(replay_cache).wf(),
    ensures
        final(replay_cache).wf(),
        claims_view(claims) == verdict(
            envelope@,
            proof_model(secret@, envelope@.take(PREFIX_LEN as int), tls_exporter@),
            now,
            window_secs,
            old(replay_cache)@,
        ),
        final(replay_cache)@ == cache_after(
            envelope@,
            proof_model(secret@, envelope@.take(PREFIX_LEN as int), tls_exporter@),
            now,
            window_secs,
            old(replay_cache)@,
        ),
{
    if !has_envelope_form(envelope) {
        return Err(AuthError::InvalidEnvelope);
    }
    assert(envelope@.subrange(0, PREFIX_LEN as int) =~= envelope@.take(PREFIX_LEN as int));
    let expected: [u8; 32] = make_proof(
        secret,
        vstd::slice::slice_subrange(envelope, 0, PREFIX_LEN),
        tls_exporter,
    );
    verify_proof(envelope, &expected, now, window_secs, replay_cache)
}

/// A nonce as a number is its sixteen bytes read as one.
pub proof fn law_nonces_are_numbers(nonce: Seq<u8>)
    requires
        nonce.len() == 16,
    ensures
        nonce_number(nonce) == wire::be_value(nonce),
{
    let high = nonce.subrange(0, 8);
    let low = nonce.subrange(8, 16);
    wire::law_values_add_up(high, low);
    wire::lemma_byte_bounds();
    wire::lemma_be_value_round_trip(high);
    wire::lemma_be_value_round_trip(low);
    assert(nonce =~= high + low);
}

/// How an envelope lies: the letters SFTA, the version, the device and the time in eight
/// bytes each, the nonce in sixteen, and the proof: a hash of all that and of what stands
/// for the channel, keyed by the hash of the secret.
pub proof fn law_envelopes_lie_open(
    secret: Seq<char>,
    device_id: u64,
    timestamp: u64,
    nonce: Seq<u8>,
    tls_exporter: Seq<u8>,
)
    requires
        nonce.len() == 16,
    ensures
        ({
            let e = envelope_model(secret, device_id, timestamp, nonce, tls_exporter);
            let key = crypto::blake3_hash(vstd::utf8::encode_utf8(secret))@;
            &&& e.len() == 69
            &&& e[0] == 0x53 && e[1] == 0x46 && e[2] == 0x54 && e[3] == 0x41
            &&& e[4] == 1
            &&& wire::be_value(e.subrange(5, 13)) == device_id
            &&& wire::be_value(e.subrange(13, 21)) == timestamp
            &&& e.subrange(21, 37) == nonce
            &&& e.skip(37) == crypto::blake3_keyed_hash(key, e.take(37) + tls_exporter)@
        }),
{
    let prefix = prefix_model(device_id, timestamp, nonce);
    let tail = proof_model(secret, prefix, tls_exporter);
    lemma_prefix_reads_back(device_id, timestamp, nonce, tail);
    let e = prefix + tail;
    wire::lemma_byte_bounds();
    wire::lemma_be_value_round_trip(e.subrange(5, 13));
    wire::lemma_be_value_round_trip(e.subrange(13, 21));
    assert(e.take(4)[0] == e[0] && e.take(4)[1] == e[1] && e.take(4)[2] == e[2] && e.take(4)[3]
        == e[3]);
}

/// Which envelopes are refused, and why: those that are none, those of no device, those
/// whose time is too far from now, those with another proof than their claims call for, and
/// those that came before. The first of these that holds is named; where none does the
/// claims come out. Only what is authentic is noted.
pub proof fn law_envelopes_are_refused_for_reasons(
    e: Seq<u8>,
    expected: Seq<u8>,
    now: u64,
    window_secs: u64,
    cache: ReplayModel,
)
    ensures
        ({
            let out = verdict(e, expected, now, window_secs, cache);
            let after = cache_after(e, expected, now, window_secs, cache);
            let form = e.len() == 69 && e[0] == 0x53 && e[1] == 0x46 && e[2] == 0x54 && e[3] == 0x41
                && e[4] == 1;
            let device = wire::be_value(e.subrange(5, 13));
            let time = wire::be_value(e.subrange(13, 21));
            let nonce = e.subrange(21, 37);
            let nobody = form && device == 0;
            let late = form && !nobody && !(now - window_secs <= time <= now + window_secs);
            let forged = form && !nobody && !late && expected != e.skip(37);
            let again = form && !nobody && !late && !forged && !cache.is_new(
                wire::be_value(nonce) as u128,
                now,
            );
            &&& !form <==> out == Err::<(u64, u64, Seq<u8>), AuthError>(AuthError::InvalidEnvelope)
            &&& nobody <==> out == Err::<(u64, u64, Seq<u8>), AuthError>(AuthError::ZeroDevice)
            &&& late <==> out == Err::<(u64, u64, Seq<u8>), AuthError>(AuthError::Expired)
            &&& forged <==> out == Err::<(u64, u64, Seq<u8>), AuthError>(AuthError::InvalidProof)
            &&& again <==> out == Err::<(u64, u64, Seq<u8>), AuthError>(AuthError::Replayed)
            &&& out is Ok <==> form && !nobody && !late && !forged && !again
            &&& out matches Ok((d, t, n)) ==> d == device && t == time && n == nonce
            &&& out is Ok || again ==> after == cache.noted(
                wire::be_value(nonce) as u128,
                now,
                window_secs,
            )
            &&& !(out is Ok || again) ==> after == cache
            &&& !form ==> device_model(e) == Err::<u64, AuthError>(AuthError::InvalidEnvelope)
            &&& nobody ==> device_model(e) == Err::<u64, AuthError>(AuthError::ZeroDevice)
            &&& form && !nobody ==> device_model(e) == Ok::<u64, AuthError>(device as u64)
        }),
{
    if e.len() == 69 {
        let head = e.take(4);
        assert(head[0] == e[0] && head[1] == e[1] && head[2] == e[2] && head[3] == e[3]);
        if e[0] == 0x53 && e[1] == 0x46 && e[2] == 0x54 && e[3] == 0x41 {
            assert(head =~= auth_magic());
        }
        wire::lemma_byte_bounds();
        wire::lemma_be_value_round_trip(e.subrange(5, 13));
        wire::lemma_be_value_round_trip(e.subrange(13, 21));
        law_nonces_are_numbers(e.subrange(21, 37));
    }
}

/// Up to when a nonce counts: the time at which it came, the window and one second more.
pub proof fn law_nonces_count_for_the_window(now: u64, window_secs: u64)
    ensures
        now + window_secs < u64::MAX ==> expiry(now, window_secs) == now + window_secs + 1,
        now + window_secs >= u64::MAX ==> expiry(now, window_secs) == u64::MAX,
{
}

/// What is noted: a new nonce goes to the end, with the time up to which it counts; one
/// that came before is not noted again. What else is remembered was remembered before,
/// with the same time.
pub proof fn law_notes_are_faithful(
    m: ReplayModel,
    nonce: u128,
    now: u64,
    window_secs: u64,
    i: int,
)
    requires
        m.wf(),
    ensures
        ({
            let after = m.noted(nonce, now, window_secs);
            &&& after.capacity == m.capacity
            &&& m.is_new(nonce, now) ==> after.queue.len() > 0 && after.queue.last() == (
                nonce,
                expiry(now, window_secs),
            )
            &&& 0 <= i < after.queue.len() && !(m.is_new(nonce, now) && i == after.queue.len() - 1)
                ==> m.queue.contains(after.queue[i])
        }),
{
    let n = lemma_unexpired(m.queue, now);
    let kept = unexpired(m.queue, now);
    let after = m.noted(nonce, now, window_secs);
    if 0 <= i < after.queue.len() && !(m.is_new(nonce, now) && i == after.queue.len() - 1) {
        if !m.is_new(nonce, now) {
            assert(after.queue[i] == m.queue[i + n]);
        } else if kept.len() >= m.capacity {
            assert(after.queue[i] == m.queue[i + n + 1]);
        } else {
            assert(after.queue[i] == m.queue[i + n]);
        }
    }
}

/// A memory of proofs starts empty, with the capacity that it was made with, and has one.
/// Servers remember 65,536 proofs, and bear clocks that are thirty seconds off.
pub proof fn law_memories_start_empty(capacity: usize, cache: Result<ReplayCache, AuthError>)
    requires
        call_ensures(ReplayCache::new, (capacity,), cache),
    ensures
        capacity == 0 ==> cache == Err::<ReplayCache, AuthError>(AuthError::ZeroCapacity),
        capacity > 0 ==> cache is Ok,
        cache matches Ok(c) ==> c@.capacity == capacity && c@.queue.len() == 0,
        DEFAULT_REPLAY_CAPACITY == 65_536,
        DEFAULT_AUTH_WINDOW_SECS == 30,
{
}

/// A clock before the epoch gives no time, and any other gives the seconds that it shows.
pub proof fn law_clocks_give_what_they_show(seconds: Option<u64>)
    ensures
        match seconds {
            Some(s) => time_model(seconds) == Ok::<u64, ClockError>(s),
            None => time_model(seconds) == Err::<u64, ClockError>(ClockError::BeforeEpoch),
        },
{
}

/// Claims are seen as they are.
pub proof fn law_claims_are_seen_as_they_are(r: Result<AuthClaims, AuthError>)
    ensures
        match r {
            Ok(c) => claims_view(r) == Ok::<(u64, u64, Seq<u8>), AuthError>(
                (c.device_id, c.timestamp, c.nonce@),
            ),
            Err(e) => claims_view(r) == Err::<(u64, u64, Seq<u8>), AuthError>(e),
        },
{
}

/// What a call that checks an envelope gives: its claims as they stand in it, if it is
/// authentic, in time and new, and the nonce is noted.
pub proof fn law_claims_are_those_of_the_envelope(
    envelope: &[u8],
    secret: &str,
    tls_exporter: &[u8; 32],
    now: u64,
    window_secs: u64,
    cache: &mut ReplayCache,
    claims: Result<AuthClaims, AuthError>,
)
    requires
        call_ensures(
            verify_envelope,
            (envelope, secret, tls_exporter, now, window_secs, cache),
            claims,
        ),
    ensures
        claims matches Ok(c) ==> {
            let e = envelope@;
            let key = crypto::blake3_hash(vstd::utf8::encode_utf8(secret@))@;
            &&& e.len() == 69
            &&& c.device_id != 0
            &&& c.device_id == wire::be_value(e.subrange(5, 13))
            &&& c.timestamp == wire::be_value(e.subrange(13, 21))
            &&& c.nonce@ == e.subrange(21, 37)
            &&& now - window_secs <= c.timestamp <= now + window_secs
            &&& e.skip(37) == crypto::blake3_keyed_hash(key, e.take(37) + tls_exporter@)@
            &&& old(cache)@.is_new(wire::be_value(c.nonce@) as u128, now)
            &&& final(cache)@ == old(cache)@.noted(
                wire::be_value(c.nonce@) as u128,
                now,
                window_secs,
            )
        },
{
    let expected = proof_model(secret@, envelope@.take(37), tls_exporter@);
    law_envelopes_are_refused_for_reasons(envelope@, expected, now, window_secs, old(cache)@);
    law_claims_are_seen_as_they_are(claims);
}

} // verus!
