//! From frames back to datagrams: replay window, loss reports, erasure recovery and
//! reassembly.

use crate::clock::{self, clock_reading, time_since};
use crate::encoder::{CHUNK, FRAGMENT_HEADER, SHARD};
use crate::erasure::{self, reconstruct};
use crate::frame::{Frame, FrameModel, KIND_DATA, KIND_PARITY};
use crate::tables::{self, btree_map_keys, btree_set_keys, hash_map_keys};
use crate::wire::{self, copy_range, get_be, put_bytes};
use std::collections::{BTreeMap, BTreeSet, HashMap};
use vstd::prelude::*;

verus! {

broadcast use {
    vstd::std_specs::hash::group_hash_axioms,
    vstd::std_specs::btree::group_btree_axioms,
};

/// How long a group is kept, in nanoseconds.
pub const GROUP_TTL: u128 = 2_000_000_000;

/// How long an incomplete datagram is kept, in nanoseconds.
pub const REASSEMBLY_TTL: u128 = 3_000_000_000;

/// How far behind the highest sequence number a frame may still be on its way.
pub const REORDER_WINDOW: u64 = 64;

/// Fewest sequence numbers that a loss report covers.
pub const MIN_LOSS_WINDOW: u64 = 32;

/// Loss rates are in parts of this.
pub const PPM: u64 = 1_000_000;

/// Most groups that are kept.
pub const MAX_GROUPS: usize = 2048;

/// Most incomplete datagrams that are kept.
pub const MAX_REASSEMBLIES: usize = 4096;

/// Most parts of a datagram.
pub const MAX_PARTS: usize = 64;

/// Most data shards of a group.
pub const MAX_GROUP_DATA: usize = 32;

/// Most parity shards of a group.
pub const MAX_GROUP_PARITY: usize = 16;

/// Why a frame is not taken.
#[derive(Clone, Copy, Debug, PartialEq, Eq, Structural)]
pub enum DecodeError {
    SessionMismatch,
    InvalidFrame,
    TooManyGroups,
    GroupMismatch,
    Erasure,
}

/// The shards of one group. A data shard that is present has been delivered.
#[derive(Debug)]
pub struct Group {
    pub created: u128,
    pub data: usize,
    pub parity: usize,
    pub slots: Vec<Option<Vec<u8>>>,
}

/// The parts of one datagram.
#[derive(Debug)]
pub struct Reassembly {
    pub created: u128,
    pub parts: Vec<Option<Vec<u8>>>,
}

/// The receiving half of a session.
#[derive(Debug)]
pub struct Decoder {
    pub session: u64,
    pub highest_sequence: u64,
    pub finalized_sequence: u64,
    pub seen_sequences: BTreeSet<u64>,
    pub groups: BTreeMap<u64, Group>,
    pub packets: HashMap<u64, Reassembly>,
    pub clock: std::time::Instant,
}

/// A group as a mathematical value.
#[verifier::ext_equal]
pub struct GroupModel {
    pub created: nat,
    pub data: nat,
    pub parity: nat,
    pub slots: Seq<Option<Seq<u8>>>,
}

/// A datagram in parts as a mathematical value.
#[verifier::ext_equal]
pub struct ReassemblyModel {
    pub created: nat,
    pub parts: Seq<Option<Seq<u8>>>,
}

/// A decoder as a mathematical value.
#[verifier::ext_equal]
pub struct DecoderModel {
    pub session: u64,
    pub highest: nat,
    pub finalized: nat,
    pub seen: Set<u64>,
    pub groups: Map<u64, GroupModel>,
    pub packets: Map<u64, ReassemblyModel>,
}

impl View for Group {
    type V = GroupModel;

    open spec fn view(&self) -> GroupModel {
        GroupModel {
            created: self.created as nat,
            data: self.data as nat,
            parity: self.parity as nat,
            slots: erasure::slot_views(self.slots@),
        }
    }
}

impl View for Reassembly {
    type V = ReassemblyModel;

    open spec fn view(&self) -> ReassemblyModel {
        ReassemblyModel {
            created: self.created as nat,
            parts: erasure::slot_views(self.parts@),
        }
    }
}

/// The groups as mathematical values.
pub open spec fn group_views(m: Map<u64, Group>) -> Map<u64, GroupModel> {
    Map::new(|k: u64| m.contains_key(k), |k: u64| m[k]@)
}

/// The datagrams in parts as mathematical values.
pub open spec fn packet_views(m: Map<u64, Reassembly>) -> Map<u64, ReassemblyModel> {
    Map::new(|k: u64| m.contains_key(k), |k: u64| m[k]@)
}

/// The datagrams as mathematical values.
pub open spec fn datagram_views(datagrams: Seq<Vec<u8>>) -> Seq<Seq<u8>> {
    erasure::shard_views(datagrams)
}

impl View for Decoder {
    type V = DecoderModel;

    open spec fn view(&self) -> DecoderModel {
        DecoderModel {
            session: self.session,
            highest: self.highest_sequence as nat,
            finalized: self.finalized_sequence as nat,
            seen: self.seen_sequences@,
            groups: group_views(self.groups@),
            packets: packet_views(self.packets@),
        }
    }
}

/// Time that has passed since `created`.
pub open spec fn age(now: nat, created: nat) -> nat {
    if now >= created {
        (now - created) as nat
    } else {
        0
    }
}

/// One part of a datagram as a mathematical value.
#[verifier::ext_equal]
pub struct FragmentModel {
    pub packet: u64,
    pub index: nat,
    pub count: nat,
    pub chunk: Seq<u8>,
}

/// What a shard holds, if its header makes sense.
pub open spec fn fragment_model(shard: Seq<u8>) -> Option<FragmentModel> {
    if shard.len() < FRAGMENT_HEADER || shard.len() > SHARD {
        None
    } else {
        let index = wire::be_value(shard.subrange(8, 10));
        let count = wire::be_value(shard.subrange(10, 12));
        let len = wire::be_value(shard.subrange(12, 14));
        if count == 0 || count > MAX_PARTS || index >= count || len > CHUNK || FRAGMENT_HEADER + len
            > shard.len() {
            None
        } else {
            Some(
                FragmentModel {
                    packet: wire::be_value(shard.subrange(0, 8)) as u64,
                    index,
                    count,
                    chunk: shard.subrange(FRAGMENT_HEADER as int, FRAGMENT_HEADER + len),
                },
            )
        }
    }
}

/// Whether no part is missing.
pub open spec fn complete(parts: Seq<Option<Seq<u8>>>) -> bool {
    forall|i: int| 0 <= i < parts.len() ==> (#[trigger] parts[i]) is Some
}

/// The parts in order.
pub open spec fn joined(parts: Seq<Option<Seq<u8>>>) -> Seq<u8>
    decreases parts.len(),
{
    if parts.len() == 0 {
        Seq::empty()
    } else {
        joined(parts.drop_last()) + match parts.last() {
            Some(part) => part,
            None => Seq::empty(),
        }
    }
}

/// Those of the first `n` shards that `after` has and `before` lacks.
pub open spec fn new_shards(
    before: Seq<Option<Seq<u8>>>,
    after: Seq<Option<Seq<u8>>>,
    n: nat,
) -> Seq<Seq<u8>>
    decreases n,
{
    if n == 0 {
        Seq::empty()
    } else {
        let rest = new_shards(before, after, (n - 1) as nat);
        match (before[n - 1], after[n - 1]) {
            (None, Some(shard)) => rest.push(shard),
            _ => rest,
        }
    }
}

impl GroupModel {
    /// A group of which nothing has arrived.
    pub open spec fn fresh(created: nat, data: nat, parity: nat) -> GroupModel {
        GroupModel { created, data, parity, slots: Seq::new(data + parity, |i: int| None) }
    }

    /// What every operation keeps.
    pub open spec fn wf(self) -> bool {
        &&& 1 <= self.data <= MAX_GROUP_DATA
        &&& self.parity <= MAX_GROUP_PARITY
        &&& self.slots.len() == self.data + self.parity
    }

    /// The group once shard `index` has arrived. The first one to arrive stays.
    pub open spec fn stored(self, index: int, shard: Seq<u8>) -> GroupModel {
        if self.slots[index] is Some {
            self
        } else {
            GroupModel { slots: self.slots.update(index, Some(shard)), ..self }
        }
    }

    /// Whether a data shard is missing.
    pub open spec fn lacks_data(self) -> bool {
        exists|i: int| 0 <= i < self.data && (#[trigger] self.slots[i]) is None
    }

    /// Whether it is time to compute the missing data shards.
    pub open spec fn recovers(self) -> bool {
        &&& self.parity > 0
        &&& erasure::present(self.slots) >= self.data
        &&& self.lacks_data()
    }

    /// Whether the missing data shards are due and cannot be computed.
    pub open spec fn stuck(self) -> bool {
        self.recovers() && !erasure::uniform_slots(self.slots)
    }

    /// The group once the missing data shards that are due are computed.
    pub open spec fn settled(self) -> GroupModel {
        if self.recovers() {
            GroupModel {
                slots: erasure::filled(erasure::rs_fill(self.slots, self.data)),
                ..self
            }
        } else {
            self
        }
    }

    /// The data shards that are delivered when shard `index` arrives: itself, and
    /// behind it those that can be computed with it.
    pub open spec fn deliveries(self, index: int, shard: Seq<u8>) -> Seq<Seq<u8>> {
        let stored = self.stored(index, shard);
        new_shards(self.slots, stored.slots, self.data) + new_shards(
            stored.slots,
            stored.settled().slots,
            self.data,
        )
    }
}

impl ReassemblyModel {
    /// What every operation keeps.
    pub open spec fn wf(self) -> bool {
        &&& 1 <= self.parts.len() <= MAX_PARTS
        &&& !complete(self.parts)
    }
}

/// Whether `k` is the oldest entry: none was created before it, nor at its time
/// under a lower number.
pub open spec fn is_oldest(packets: Map<u64, ReassemblyModel>, k: u64) -> bool {
    &&& packets.contains_key(k)
    &&& forall|j: u64| #[trigger]
        packets.contains_key(j) ==> {
            ||| packets[k].created < packets[j].created
            ||| packets[k].created == packets[j].created && k <= j
        }
}

/// The oldest entry.
pub open spec fn oldest(packets: Map<u64, ReassemblyModel>) -> u64 {
    choose|k: u64| is_oldest(packets, k)
}

/// The entries without the `n` oldest.
pub open spec fn without_oldest(packets: Map<u64, ReassemblyModel>, n: nat) -> Map<
    u64,
    ReassemblyModel,
>
    decreases n,
{
    if n == 0 {
        packets
    } else {
        without_oldest(packets.remove(oldest(packets)), (n - 1) as nat)
    }
}

/// The groups that are younger than their time to live.
pub open spec fn live_groups(groups: Map<u64, GroupModel>, now: nat) -> Map<u64, GroupModel> {
    Map::new(
        |k: u64| groups.contains_key(k) && age(now, groups[k].created) < GROUP_TTL,
        |k: u64| groups[k],
    )
}

/// The datagrams in parts that are younger than their time to live.
pub open spec fn live_packets(packets: Map<u64, ReassemblyModel>, now: nat) -> Map<
    u64,
    ReassemblyModel,
> {
    Map::new(
        |k: u64| packets.contains_key(k) && age(now, packets[k].created) < REASSEMBLY_TTL,
        |k: u64| packets[k],
    )
}

/// As many of the youngest entries as are kept.
pub open spec fn capped(packets: Map<u64, ReassemblyModel>) -> Map<u64, ReassemblyModel> {
    if packets.len() > MAX_REASSEMBLIES {
        without_oldest(packets, (packets.len() - MAX_REASSEMBLIES) as nat)
    } else {
        packets
    }
}

/// Whether the numbers of a data or parity frame are in range.
pub open spec fn frame_in_range(f: FrameModel) -> bool {
    &&& 1 <= f.data <= MAX_GROUP_DATA
    &&& f.parity <= MAX_GROUP_PARITY
    &&& f.index < f.data + f.parity
    &&& FRAGMENT_HEADER <= f.payload.len() <= SHARD
}

impl DecoderModel {
    /// A decoder that has received nothing.
    pub open spec fn fresh(session: u64) -> DecoderModel {
        DecoderModel {
            session,
            highest: 0,
            finalized: 0,
            seen: Set::empty(),
            groups: Map::empty(),
            packets: Map::empty(),
        }
    }

    /// What every operation keeps.
    pub open spec fn wf(self) -> bool {
        &&& self.finalized <= self.highest <= u64::MAX
        &&& self.seen.finite()
        &&& forall|s: u64| #[trigger] self.seen.contains(s) ==> self.finalized < s <= self.highest
        &&& self.groups_wf()
        &&& self.packets_wf()
        &&& self.groups.len() <= MAX_GROUPS
        &&& self.packets.len() <= MAX_REASSEMBLIES
    }

    /// That every group is in order.
    pub open spec fn groups_wf(self) -> bool {
        &&& self.groups.dom().finite()
        &&& forall|k: u64| #[trigger] self.groups.contains_key(k) ==> self.groups[k].wf()
    }

    /// That every datagram in parts is in order.
    pub open spec fn packets_wf(self) -> bool {
        &&& self.packets.dom().finite()
        &&& forall|k: u64| #[trigger] self.packets.contains_key(k) ==> self.packets[k].wf()
    }

    /// Whether no sequence number has been seen.
    pub open spec fn untouched(self) -> bool {
        self.highest == 0 && self.finalized == 0 && self.seen == Set::<u64>::empty()
    }

    /// The sequence number up to which frames come too late, when `seq` arrives. The
    /// first frame starts the numbering.
    pub open spec fn floor_for(self, seq: u64) -> nat {
        if self.untouched() && seq > 0 {
            (seq - 1) as nat
        } else {
            self.finalized
        }
    }

    /// Whether a frame numbered `seq` is new.
    pub open spec fn accepts(self, seq: u64) -> bool {
        seq > self.floor_for(seq) && !self.seen.contains(seq)
    }

    /// The decoder once a frame numbered `seq` has arrived.
    pub open spec fn observed(self, seq: u64) -> DecoderModel {
        if seq > self.floor_for(seq) {
            DecoderModel {
                finalized: self.floor_for(seq),
                highest: if seq > self.highest {
                    seq as nat
                } else {
                    self.highest
                },
                seen: self.seen.insert(seq),
                ..self
            }
        } else {
            self
        }
    }

    /// The sequence number up to which no more frames are waited for.
    pub open spec fn cutoff(self) -> nat {
        if self.highest > REORDER_WINDOW {
            (self.highest - REORDER_WINDOW) as nat
        } else {
            0
        }
    }

    /// Whether enough sequence numbers are behind the reorder window for a report.
    pub open spec fn report_due(self) -> bool {
        self.cutoff() >= self.finalized + MIN_LOSS_WINDOW
    }

    /// The sequence numbers that arrived, of those that a report covers.
    pub open spec fn received(self) -> Set<u64> {
        let cutoff = self.cutoff();
        self.seen.filter(|s: u64| s <= cutoff)
    }

    /// The loss that a report gives, in parts per million.
    pub open spec fn loss_ppm(self) -> nat {
        if self.report_due() {
            let expected = (self.cutoff() - self.finalized) as nat;
            ((expected - self.received().len()) * PPM) as nat / expected
        } else {
            0
        }
    }

    /// The decoder after a report.
    pub open spec fn reported(self) -> DecoderModel {
        if self.report_due() {
            let cutoff = self.cutoff();
            DecoderModel {
                finalized: cutoff,
                seen: self.seen.filter(|s: u64| s > cutoff),
                ..self
            }
        } else {
            self
        }
    }

    /// The parts of a datagram before `f` is added.
    pub open spec fn parts_for(self, f: FragmentModel, now: nat) -> ReassemblyModel {
        if self.packets.contains_key(f.packet) {
            self.packets[f.packet]
        } else {
            ReassemblyModel { created: now, parts: Seq::new(f.count, |i: int| None) }
        }
    }

    /// The parts of a datagram after `f` is added.
    pub open spec fn parts_with(self, f: FragmentModel, now: nat) -> ReassemblyModel {
        let before = self.parts_for(f, now);
        ReassemblyModel {
            parts: before.parts.update(f.index as int, Some(f.chunk)),
            ..before
        }
    }

    /// Whether a shard adds a part.
    pub open spec fn takes_fragment(self, shard: Seq<u8>, now: nat) -> bool {
        fragment_model(shard) matches Some(f) && self.parts_for(f, now).parts.len() == f.count
    }

    /// The decoder after a shard has been delivered.
    pub open spec fn with_fragment(self, shard: Seq<u8>, now: nat) -> DecoderModel {
        if !self.takes_fragment(shard, now) {
            self
        } else {
            let f = fragment_model(shard)->0;
            let after = self.parts_with(f, now);
            DecoderModel {
                packets: if complete(after.parts) {
                    self.packets.remove(f.packet)
                } else {
                    self.packets.insert(f.packet, after)
                },
                ..self
            }
        }
    }

    /// The datagram that a shard completes, if it does.
    pub open spec fn fragment_output(self, shard: Seq<u8>, now: nat) -> Seq<Seq<u8>> {
        if self.takes_fragment(shard, now) && complete(
            self.parts_with(fragment_model(shard)->0, now).parts,
        ) {
            seq![joined(self.parts_with(fragment_model(shard)->0, now).parts)]
        } else {
            Seq::empty()
        }
    }

    /// The decoder after all of `shards` have been delivered, the first one first.
    pub open spec fn with_fragments(self, shards: Seq<Seq<u8>>, now: nat) -> DecoderModel
        decreases shards.len(),
    {
        if shards.len() == 0 {
            self
        } else {
            self.with_fragments(shards.drop_last(), now).with_fragment(shards.last(), now)
        }
    }

    /// The datagrams that `shards` complete.
    pub open spec fn fragments_output(self, shards: Seq<Seq<u8>>, now: nat) -> Seq<Seq<u8>>
        decreases shards.len(),
    {
        if shards.len() == 0 {
            Seq::empty()
        } else {
            self.fragments_output(shards.drop_last(), now) + self.with_fragments(
                shards.drop_last(),
                now,
            ).fragment_output(shards.last(), now)
        }
    }

    /// The decoder without what is too old, or too much.
    pub open spec fn pruned(self, now: nat) -> DecoderModel {
        DecoderModel {
            groups: live_groups(self.groups, now),
            packets: capped(live_packets(self.packets, now)),
            ..self
        }
    }

    /// The decoder with group `k` set to `group`.
    pub open spec fn with_group(self, k: u64, group: GroupModel) -> DecoderModel {
        DecoderModel { groups: self.groups.insert(k, group), ..self }
    }

    /// The group of `f` before it is added.
    pub open spec fn group_for(self, f: FrameModel, now: nat) -> GroupModel {
        if self.groups.contains_key(f.group) {
            self.groups[f.group]
        } else {
            GroupModel::fresh(now, f.data as nat, f.parity as nat)
        }
    }

    /// What comes of a shard: the decoder after it, and the datagrams that it
    /// completes or why it is not taken.
    pub open spec fn shard_outcome(self, f: FrameModel, now: nat) -> (
        DecoderModel,
        Result<Seq<Seq<u8>>, DecodeError>,
    ) {
        let group = self.group_for(f, now);
        if !self.groups.contains_key(f.group) && self.groups.len() >= MAX_GROUPS {
            (self, Err(DecodeError::TooManyGroups))
        } else if group.data != f.data || group.parity != f.parity {
            (self, Err(DecodeError::GroupMismatch))
        } else {
            let stored = group.stored(f.index as int, f.payload);
            if stored.stuck() {
                (self.with_group(f.group, stored), Err(DecodeError::Erasure))
            } else {
                let next = self.with_group(f.group, stored.settled());
                let shards = group.deliveries(f.index as int, f.payload);
                (
                    next.with_fragments(shards, now).pruned(now),
                    Ok(next.fragments_output(shards, now)),
                )
            }
        }
    }

    /// What comes of a frame: the decoder after it, and the datagrams that it
    /// completes or why it is not taken.
    pub open spec fn frame_outcome(self, f: FrameModel, now: nat) -> (
        DecoderModel,
        Result<Seq<Seq<u8>>, DecodeError>,
    ) {
        if self.session != f.session {
            (self, Err(DecodeError::SessionMismatch))
        } else if !self.accepts(f.sequence) {
            (self.observed(f.sequence), Ok(Seq::empty()))
        } else if f.kind != KIND_DATA && f.kind != KIND_PARITY {
            (self.observed(f.sequence), Ok(Seq::empty()))
        } else if !frame_in_range(f) {
            (self.observed(f.sequence), Err(DecodeError::InvalidFrame))
        } else {
            self.observed(f.sequence).pruned(now).shard_outcome(f, now)
        }
    }
}

impl DecoderModel {
    /// Whether missing shards are computed when the frame of a group comes.
    pub open spec fn recovery_due(self, f: FrameModel, now: nat) -> bool {
        let group = self.group_for(f, now);
        let stored = group.stored(f.index as int, f.payload);
        &&& self.groups.contains_key(f.group) || self.groups.len() < MAX_GROUPS
        &&& group.data == f.data && group.parity == f.parity
        &&& stored.recovers() && !stored.stuck()
    }

    /// That the shards computed when the frame of a group comes are those that were
    /// encoded, if the ones at hand were encoded together.
    pub open spec fn recovery_holds(self, f: FrameModel, now: nat) -> bool {
        let stored = self.group_for(f, now).stored(f.index as int, f.payload);
        erasure::recovery(stored.slots, stored.data, stored.parity)
    }
}

/// What taking a frame does: the outcome of the model, and faithful recovery.
pub open spec fn frame_step(
    before: DecoderModel,
    f: FrameModel,
    now: nat,
    after: DecoderModel,
    out: Result<Seq<Seq<u8>>, DecodeError>,
) -> bool {
    let kept = before.observed(f.sequence).pruned(now);
    &&& (after, out) == before.frame_outcome(f, now)
    &&& before.session == f.session && before.accepts(f.sequence) && (f.kind == KIND_DATA || f.kind
        == KIND_PARITY) && frame_in_range(f) && kept.recovery_due(f, now) ==> kept.recovery_holds(
        f,
        now,
    )
}

/// The result of decoding as a mathematical value.
pub open spec fn decoded(r: Result<Vec<Vec<u8>>, DecodeError>) -> Result<
    Seq<Seq<u8>>,
    DecodeError,
> {
    match r {
        Ok(datagrams) => Ok(datagram_views(datagrams@)),
        Err(e) => Err(e),
    }
}

/// One part of a datagram.
#[derive(Debug)]
pub struct Fragment {
    pub packet: u64,
    pub index: usize,
    pub count: usize,
    pub chunk: Vec<u8>,
}

impl View for Fragment {
    type V = FragmentModel;

    open spec fn view(&self) -> FragmentModel {
        FragmentModel {
            packet: self.packet,
            index: self.index as nat,
            count: self.count as nat,
            chunk: self.chunk@,
        }
    }
}

/// What a shard holds, if its header makes sense.
pub fn parse_fragment(shard: &[u8]) -> (fragment: Option<Fragment>)
    ensures
        match fragment {
            Some(f) => fragment_model(shard@) == Some(f@),
            None => fragment_model(shard@) is None,
        },
{
    if shard.len() < FRAGMENT_HEADER || shard.len() > SHARD {
        return None;
    }
    proof {
        wire::lemma_byte_bounds();
    }
    let packet: u64 = get_be(shard, 0, 8);
    let index: usize = get_be(shard, 8, 2) as usize;
    let count: usize = get_be(shard, 10, 2) as usize;
    let len: usize = get_be(shard, 12, 2) as usize;
    if count == 0 || count > MAX_PARTS || index >= count || len > CHUNK || FRAGMENT_HEADER + len
        > shard.len() {
        return None;
    }
    let chunk: Vec<u8> = copy_range(shard, FRAGMENT_HEADER, FRAGMENT_HEADER + len);
    Some(Fragment { packet, index, count, chunk })
}

/// Slots that are all empty.
pub(crate) fn empty_slots(n: usize) -> (slots: Vec<Option<Vec<u8>>>)
    ensures
        erasure::slot_views(slots@) == Seq::new(n as nat, |i: int| None::<Seq<u8>>),
{
    let mut slots: Vec<Option<Vec<u8>>> = Vec::new();
    while slots.len() < n
        invariant
            slots@.len() <= n,
            forall|i: int| 0 <= i < slots@.len() ==> (#[trigger] slots@[i]) is None,
        decreases n - slots@.len(),
    {
        slots.push(None);
    }
    assert(erasure::slot_views(slots@) =~= Seq::new(n as nat, |i: int| None::<Seq<u8>>));
    slots
}

/// Whether no slot of the first `n` is empty.
pub(crate) fn none_missing(slots: &Vec<Option<Vec<u8>>>, n: usize) -> (yes: bool)
    requires
        n <= slots@.len(),
    ensures
        yes == forall|i: int|
            0 <= i < n ==> (#[trigger] erasure::slot_views(slots@)[i]) is Some,
{
    let mut i: usize = 0;
    while i < n
        invariant
            i <= n <= slots@.len(),
            forall|j: int| 0 <= j < i ==> (#[trigger] erasure::slot_views(slots@)[j]) is Some,
        decreases n - i,
    {
        if slots[i].is_none() {
            assert(erasure::slot_views(slots@)[i as int] is None);
            return false;
        }
        i = i + 1;
    }
    true
}

/// The parts in order.
pub(crate) fn join(parts: &Vec<Option<Vec<u8>>>) -> (out: Vec<u8>)
    ensures
        out@ == joined(erasure::slot_views(parts@)),
{
    let ghost views = erasure::slot_views(parts@);
    let mut out: Vec<u8> = Vec::new();
    let mut i: usize = 0;
    while i < parts.len()
        invariant
            i <= parts@.len(),
            views == erasure::slot_views(parts@),
            out@ == joined(views.take(i as int)),
        decreases parts@.len() - i,
    {
        assert(views.take(i + 1).drop_last() =~= views.take(i as int));
        match &parts[i] {
            Some(part) => put_bytes(&mut out, part),
            None => {},
        }
        assert(out@ =~= joined(views.take(i + 1)));
        i = i + 1;
    }
    assert(views.take(i as int) =~= views);
    out
}

/// A set of numbers in a window is no larger than the window.
proof fn lemma_window(s: Set<u64>, low: nat, high: nat)
    requires
        s.finite(),
        low <= high,
        forall|x: u64| #[trigger] s.contains(x) ==> low < x <= high,
    ensures
        s.len() <= high - low,
    decreases high - low,
{
    if low == high {
        if s.len() > 0 {
            assert(s.contains(s.choose()));
        }
        assert(s =~= Set::empty());
    } else {
        let top = high as u64;
        let rest = s.remove(top);
        assert forall|x: u64| #[trigger] rest.contains(x) implies low < x <= (high - 1) as nat by {
            assert(s.contains(x));
        }
        lemma_window(rest, low, (high - 1) as nat);
    }
}

/// There is only one oldest entry.
proof fn lemma_oldest_unique(packets: Map<u64, ReassemblyModel>, k: u64)
    requires
        is_oldest(packets, k),
    ensures
        oldest(packets) == k,
{
    let other = oldest(packets);
    assert(is_oldest(packets, other));
    assert(packets.contains_key(k) && packets.contains_key(other));
}

/// The oldest entry.
fn find_oldest(packets: &HashMap<u64, Reassembly>) -> (k: u64)
    requires
        packets@.len() > 0,
        packets@.dom().finite(),
    ensures
        is_oldest(packet_views(packets@), k),
{
    let ghost views = packet_views(packets@);
    let keys: Vec<u64> = hash_map_keys(packets);
    proof {
        assert(packets@.dom().contains(packets@.dom().choose()));
        assert(keys@.to_set().contains(packets@.dom().choose()));
        assert(keys@.len() > 0);
        assert(keys@.to_set().contains(keys@[0]));
    }
    let mut best: u64 = keys[0];
    let mut i: usize = 1;
    while i < keys.len()
        invariant
            1 <= i <= keys@.len(),
            tables::lists(keys@, packets@.dom()),
            packets@.contains_key(best),
            forall|j: int|
                0 <= j < i ==> {
                    ||| packets@[best].created < packets@[#[trigger] keys@[j]].created
                    ||| packets@[best].created == packets@[keys@[j]].created && best <= keys@[j]
                },
        decreases keys@.len() - i,
    {
        let k: u64 = keys[i];
        assert(keys@.to_set().contains(keys@[i as int]));
        match (packets.get(&best), packets.get(&k)) {
            (Some(b), Some(c)) => {
                if c.created < b.created || (c.created == b.created && k < best) {
                    best = k;
                }
            },
            _ => {},
        }
        i = i + 1;
    }
    proof {
        assert forall|j: u64| #[trigger] views.contains_key(j) implies {
            ||| views[best].created < views[j].created
            ||| views[best].created == views[j].created && best <= j
        } by {
            assert(keys@.to_set().contains(j));
            let at = choose|at: int| 0 <= at < keys@.len() && keys@[at] == j;
            assert(keys@[at] == j);
        }
    }
    best
}

/// How many slots are filled.
fn count_present(slots: &Vec<Option<Vec<u8>>>) -> (n: usize)
    ensures
        n == erasure::present(erasure::slot_views(slots@)),
{
    let ghost views = erasure::slot_views(slots@);
    let mut n: usize = 0;
    let mut i: usize = 0;
    while i < slots.len()
        invariant
            i <= slots@.len(),
            n <= i,
            views == erasure::slot_views(slots@),
            n == erasure::present(views.take(i as int)),
        decreases slots@.len() - i,
    {
        assert(views.take(i + 1).drop_last() =~= views.take(i as int));
        if slots[i].is_some() {
            n = n + 1;
        }
        i = i + 1;
    }
    assert(views.take(i as int) =~= views);
    n
}

/// Which of the first `n` slots are empty.
fn empty_marks(slots: &Vec<Option<Vec<u8>>>, n: usize) -> (marks: Vec<bool>)
    requires
        n <= slots@.len(),
    ensures
        marks@.len() == n,
        forall|i: int|
            0 <= i < n ==> (#[trigger] marks@[i]) == (erasure::slot_views(slots@)[i] is None),
{
    let mut marks: Vec<bool> = Vec::new();
    while marks.len() < n
        invariant
            marks@.len() <= n <= slots@.len(),
            forall|i: int|
                0 <= i < marks@.len() ==> (#[trigger] marks@[i]) == (erasure::slot_views(
                    slots@,
                )[i] is None),
        decreases n - marks@.len(),
    {
        let i: usize = marks.len();
        marks.push(slots[i].is_none());
    }
    marks
}

/// Appends copies of the marked shards.
fn push_marked(
    out: &mut Vec<Vec<u8>>,
    marks: &Vec<bool>,
    slots: &Vec<Option<Vec<u8>>>,
    Ghost(before): Ghost<Seq<Option<Seq<u8>>>>,
)
    requires
        marks@.len() <= slots@.len(),
        marks@.len() <= before.len(),
        forall|i: int| 0 <= i < marks@.len() ==> (#[trigger] marks@[i]) == (before[i] is None),
    ensures
        erasure::shard_views(final(out)@) == erasure::shard_views(old(out)@) + new_shards(
            before,
            erasure::slot_views(slots@),
            marks@.len(),
        ),
{
    let ghost had = erasure::shard_views(out@);
    let ghost after = erasure::slot_views(slots@);
    let mut i: usize = 0;
    assert(had + new_shards(before, after, 0) =~= had);
    while i < marks.len()
        invariant
            i <= marks@.len() <= slots@.len(),
            marks@.len() <= before.len(),
            after == erasure::slot_views(slots@),
            forall|k: int| 0 <= k < marks@.len() ==> (#[trigger] marks@[k]) == (before[k] is None),
            erasure::shard_views(out@) == had + new_shards(before, after, i as nat),
        decreases marks@.len() - i,
    {
        let ghost held = out@;
        assert(after[i as int] == erasure::slot_view(slots@[i as int]));
        if marks[i] {
            match &slots[i] {
                Some(shard) => {
                    let copy: Vec<u8> = copy_range(shard, 0, shard.len());
                    assert(copy@ =~= shard@);
                    out.push(copy);
                    assert(erasure::shard_views(out@) =~= erasure::shard_views(held).push(copy@));
                },
                None => {},
            }
        }
        assert(erasure::shard_views(out@) =~= had + new_shards(before, after, (i + 1) as nat));
        i = i + 1;
    }
}

/// Storing a shard in an empty slot delivers it if it is a data shard, and
/// nothing else.
proof fn lemma_stored_delivers(slots: Seq<Option<Seq<u8>>>, index: int, shard: Seq<u8>, n: nat)
    requires
        0 <= index < slots.len(),
        n <= slots.len(),
        slots[index] is None,
    ensures
        new_shards(slots, slots.update(index, Some(shard)), n) == if index < n {
            seq![shard]
        } else {
            Seq::<Seq<u8>>::empty()
        },
    decreases n,
{
    if n > 0 {
        lemma_stored_delivers(slots, index, shard, (n - 1) as nat);
        assert(Seq::<Seq<u8>>::empty().push(shard) =~= seq![shard]);
    }
}

/// Nothing is delivered where nothing changes.
proof fn lemma_same_delivers_nothing(slots: Seq<Option<Seq<u8>>>, n: nat)
    ensures
        new_shards(slots, slots, n) == Seq::<Seq<u8>>::empty(),
    decreases n,
{
    if n > 0 {
        lemma_same_delivers_nothing(slots, (n - 1) as nat);
    }
}

impl Group {
    /// Stores shard `index`, computes what is due, and gives the data shards that
    /// become available.
    fn take_shard(&mut self, index: usize, shard: Vec<u8>) -> (shards: Result<
        Vec<Vec<u8>>,
        DecodeError,
    >)
        requires
            old(self)@.wf(),
            index < old(self)@.slots.len(),
        ensures
            final(self)@.wf(),
            ({
                let stored = old(self)@.stored(index as int, shard@);
                if stored.stuck() {
                    &&& shards == Err::<Vec<Vec<u8>>, DecodeError>(DecodeError::Erasure)
                    &&& final(self)@ == stored
                } else {
                    &&& shards matches Ok(list) && erasure::shard_views(list@) == old(
                        self,
                    )@.deliveries(index as int, shard@)
                    &&& final(self)@ == stored.settled()
                    &&& stored.recovers() ==> erasure::recovery(
                        stored.slots,
                        stored.data,
                        stored.parity,
                    )
                }
            }),
    {
        let ghost before = self@;
        let ghost stored = before.stored(index as int, shard@);
        let mut shards: Vec<Vec<u8>> = Vec::new();
        assert(erasure::shard_views(shards@) =~= Seq::<Seq<u8>>::empty());
        if self.slots[index].is_none() {
            proof {
                lemma_stored_delivers(before.slots, index as int, shard@, before.data);
            }
            if index < self.data {
                let copy: Vec<u8> = copy_range(&shard, 0, shard.len());
                assert(copy@ =~= shard@);
                shards.push(copy);
                assert(erasure::shard_views(shards@) =~= seq![shard@]);
            }
            let ghost put = shard@;
            self.slots.set(index, Some(shard));
            assert(self@.slots =~= before.slots.update(index as int, Some(put)));
        } else {
            proof {
                lemma_same_delivers_nothing(before.slots, before.data);
            }
        }
        assert(self@ =~= stored);
        assert(erasure::shard_views(shards@) == new_shards(
            before.slots,
            stored.slots,
            before.data,
        ));
        proof {
            lemma_same_delivers_nothing(stored.slots, before.data);
        }
        let present: usize = count_present(&self.slots);
        let full: bool = none_missing(&self.slots, self.data);
        assert(full == !stored.lacks_data());
        if self.parity > 0 && present >= self.data && !full {
            let marks: Vec<bool> = empty_marks(&self.slots, self.data);
            match reconstruct(&mut self.slots, self.data, self.parity) {
                Ok(_) => {},
                Err(_) => {
                    assert(self@ =~= stored);
                    return Err(DecodeError::Erasure);
                },
            }
            assert(self@ =~= stored.settled());
            push_marked(&mut shards, &marks, &self.slots, Ghost(stored.slots));
        } else {
            assert(erasure::shard_views(shards@) =~= before.deliveries(index as int, shard@));
        }
        Ok(shards)
    }
}

impl Decoder {
    /// What every operation keeps.
    pub open spec fn wf(&self) -> bool {
        self@.wf()
    }

    /// A decoder that has received nothing.
    pub fn new(session: u64) -> (fresh: Self)
        ensures
            fresh@ == DecoderModel::fresh(session),
            fresh.wf(),
            clock::is_reading(fresh.clock),
    {
        let fresh = Decoder {
            session,
            highest_sequence: 0,
            finalized_sequence: 0,
            seen_sequences: BTreeSet::new(),
            groups: BTreeMap::new(),
            packets: HashMap::new(),
            clock: clock_reading(),
        };
        assert(fresh@ =~= DecoderModel::fresh(session));
        fresh
    }

    /// Notes a sequence number, and says whether it is new.
    pub fn observe_seq(&mut self, seq: u64) -> (new: bool)
        requires
            old(self).wf(),
        ensures
            final(self).wf(),
            new == old(self)@.accepts(seq),
            final(self)@ == old(self)@.observed(seq),
            final(self).clock == old(self).clock,
    {
        let ghost before = self@;
        if self.highest_sequence == 0 && self.finalized_sequence == 0
            && self.seen_sequences.is_empty() {
            self.finalized_sequence = if seq > 0 {
                seq - 1
            } else {
                0
            };
        }
        assert(self.finalized_sequence == before.floor_for(seq));
        if seq <= self.finalized_sequence {
            assert(self@ =~= before);
            return false;
        }
        if seq > self.highest_sequence {
            self.highest_sequence = seq;
        }
        let new: bool = self.seen_sequences.insert(seq);
        assert(self@ =~= before.observed(seq));
        new
    }

    /// The loss since the last report, in parts per million. A window that is too
    /// short for a rate is left to grow, and gives no loss.
    pub fn loss_report(&mut self) -> (ppm: u32)
        requires
            old(self).wf(),
        ensures
            final(self).wf(),
            ppm == old(self)@.loss_ppm(),
            ppm <= PPM,
            final(self)@ == old(self)@.reported(),
            final(self).clock == old(self).clock,
    {
        let ghost before = self@;
        let cutoff: u64 = if self.highest_sequence > REORDER_WINDOW {
            self.highest_sequence - REORDER_WINDOW
        } else {
            0
        };
        if cutoff <= self.finalized_sequence {
            return 0;
        }
        let expected: u64 = cutoff - self.finalized_sequence;
        if expected < MIN_LOSS_WINDOW {
            return 0;
        }
        let keys: Vec<u64> = btree_set_keys(&self.seen_sequences);
        let mut received: u64 = 0;
        let mut later: BTreeSet<u64> = BTreeSet::new();
        let mut i: usize = 0;
        let ghost mut early: Set<u64> = Set::empty();
        assert(later@ =~= before.seen.filter(|s: u64| s > cutoff && keys@.take(0).contains(s)));
        while i < keys.len()
            invariant
                i <= keys@.len(),
                tables::lists(keys@, before.seen),
                early.finite(),
                early.len() == received,
                received <= i,
                forall|s: u64| #[trigger]
                    early.contains(s) <==> s <= cutoff && keys@.take(i as int).contains(s),
                forall|s: u64| #[trigger]
                    later@.contains(s) <==> s > cutoff && keys@.take(i as int).contains(s),
            decreases keys@.len() - i,
        {
            proof {
                assert(keys@.take(i + 1) =~= keys@.take(i as int).push(keys@[i as int]));
                assert(!keys@.take(i as int).contains(keys@[i as int]));
                assert forall|s: u64|
                    keys@.take(i + 1).contains(s) == (keys@.take(i as int).contains(s) || s
                        == keys@[i as int]) by {
                    let longer = keys@.take(i + 1);
                    assert(longer[i as int] == keys@[i as int]);
                    if keys@.take(i as int).contains(s) {
                        let at = choose|at: int|
                            0 <= at < i && #[trigger] keys@.take(i as int)[at] == s;
                        assert(longer[at] == s);
                    }
                }
            }
            if keys[i] <= cutoff {
                received = received + 1;
                proof {
                    early = early.insert(keys@[i as int]);
                }
            } else {
                later.insert(keys[i]);
            }
            i = i + 1;
        }
        proof {
            assert(keys@.take(i as int) =~= keys@);
            assert forall|s: u64| keys@.contains(s) == before.seen.contains(s) by {
                assert(keys@.to_set().contains(s) == keys@.contains(s));
            }
            assert(early =~= before.received());
            assert(later@ =~= before.reported().seen);
            lemma_window(before.received(), before.finalized, before.cutoff());
            let missing = expected - received;
            assert(missing * PPM <= expected * PPM && (missing * PPM) / (expected as int) <= PPM)
                by (nonlinear_arith)
                requires
                    0 <= missing <= expected,
                    PPM == 1_000_000u64,
                    expected > 0,
            ;
        }
        let missing: u128 = (expected - received) as u128;
        proof {
            assert(missing * 1_000_000u128 <= 0x1_0000_0000_0000_0000u128 * 1_000_000u128)
                by (nonlinear_arith)
                requires
                    missing <= 0x1_0000_0000_0000_0000u128,
            ;
        }
        let ppm: u128 = missing * 1_000_000 / expected as u128;
        self.seen_sequences = later;
        self.finalized_sequence = cutoff;
        assert(self@ =~= before.reported());
        ppm as u32
    }

    /// Takes a delivered shard, and gives the datagram that it completes.
    pub fn fragment_at(&mut self, shard: &[u8], now: u128) -> (out: Vec<Vec<u8>>)
        requires
            old(self)@.packets_wf(),
        ensures
            final(self)@.packets_wf(),
            final(self)@ == old(self)@.with_fragment(shard@, now as nat),
            datagram_views(out@) == old(self)@.fragment_output(shard@, now as nat),
            final(self)@.packets.len() <= old(self)@.packets.len() + 1,
            final(self).clock == old(self).clock,
    {
        let ghost before = self@;
        let mut out: Vec<Vec<u8>> = Vec::new();
        assert(datagram_views(out@) =~= Seq::<Seq<u8>>::empty());
        let f: Fragment = match parse_fragment(shard) {
            Some(f) => f,
            None => return out,
        };
        let ghost part = f@;
        let taken: Option<Reassembly> = self.packets.remove(&f.packet);
        let mut entry: Reassembly = match taken {
            Some(entry) => entry,
            None => Reassembly { created: now, parts: empty_slots(f.count) },
        };
        assert(entry@ =~= before.parts_for(part, now as nat));
        if entry.parts.len() != f.count {
            self.packets.insert(f.packet, entry);
            assert(self@ =~= before);
            return out;
        }
        let ghost slots = entry@.parts;
        entry.parts.set(f.index, Some(f.chunk));
        assert(entry@.parts =~= slots.update(part.index as int, Some(part.chunk)));
        assert(entry@ =~= before.parts_with(part, now as nat));
        if none_missing(&entry.parts, entry.parts.len()) {
            out.push(join(&entry.parts));
            assert(datagram_views(out@) =~= before.fragment_output(shard@, now as nat));
            assert(self@ =~= before.with_fragment(shard@, now as nat));
        } else {
            self.packets.insert(f.packet, entry);
            assert(self@.packets =~= before.packets.insert(part.packet, entry@));
            assert(self@ =~= before.with_fragment(shard@, now as nat));
        }
        out
    }

    /// Drops what is too old, or too much.
    pub fn prune_at(&mut self, now: u128)
        requires
            old(self)@.groups_wf(),
            old(self)@.packets_wf(),
        ensures
            final(self)@.groups_wf(),
            final(self)@.packets_wf(),
            final(self)@ == old(self)@.pruned(now as nat),
            final(self)@.groups.len() <= old(self)@.groups.len(),
            final(self)@.packets.len() <= MAX_REASSEMBLIES,
            final(self).clock == old(self).clock,
    {
        let ghost before = self@;
        let ghost groups = self.groups@;
        let ghost packets = self.packets@;
        assert(before.groups.dom() =~= groups.dom());
        assert(before.packets.dom() =~= packets.dom());
        let keys: Vec<u64> = btree_map_keys(&self.groups);
        let mut i: usize = 0;
        while i < keys.len()
            invariant
                i <= keys@.len(),
                tables::lists(keys@, groups.dom()),
                forall|k: u64| #[trigger]
                    self.groups@.contains_key(k) <==> groups.contains_key(k) && (
                    keys@.take(i as int).contains(k) ==> age(now as nat, groups[k].created as nat)
                        < GROUP_TTL),
                forall|k: u64| #[trigger]
                    self.groups@.contains_key(k) ==> self.groups@[k] == groups[k],
                self.packets@ == packets,
                self@ == (DecoderModel { groups: self@.groups, ..before }),
                self.clock == old(self).clock,
            decreases keys@.len() - i,
        {
            let k: u64 = keys[i];
            proof {
                tables::lemma_listed(keys@, groups.dom(), i as int);
            }
            let expired: bool = match self.groups.get(&k) {
                Some(g) => now >= g.created && now - g.created >= GROUP_TTL,
                None => false,
            };
            if expired {
                self.groups.remove(&k);
            }
            i = i + 1;
        }
        proof {
            assert(keys@.take(i as int) =~= keys@);
            assert forall|k: u64| groups.contains_key(k) implies keys@.contains(k) by {
                assert(keys@.to_set().contains(k));
            }
            assert(self@.groups =~= live_groups(before.groups, now as nat));
            assert(self@.groups.dom().subset_of(before.groups.dom()));
            vstd::set_lib::lemma_len_subset(self@.groups.dom(), before.groups.dom());
        }
        let ids: Vec<u64> = hash_map_keys(&self.packets);
        let mut j: usize = 0;
        while j < ids.len()
            invariant
                j <= ids@.len(),
                tables::lists(ids@, packets.dom()),
                forall|k: u64| #[trigger]
                    self.packets@.contains_key(k) <==> packets.contains_key(k) && (
                    ids@.take(j as int).contains(k) ==> age(now as nat, packets[k].created as nat)
                        < REASSEMBLY_TTL),
                forall|k: u64| #[trigger]
                    self.packets@.contains_key(k) ==> self.packets@[k] == packets[k],
                self@ == (DecoderModel {
                    groups: live_groups(before.groups, now as nat),
                    packets: self@.packets,
                    ..before
                }),
                self.clock == old(self).clock,
            decreases ids@.len() - j,
        {
            let k: u64 = ids[j];
            proof {
                tables::lemma_listed(ids@, packets.dom(), j as int);
            }
            let expired: bool = match self.packets.get(&k) {
                Some(p) => now >= p.created && now - p.created >= REASSEMBLY_TTL,
                None => false,
            };
            if expired {
                self.packets.remove(&k);
            }
            j = j + 1;
        }
        let ghost live = live_packets(before.packets, now as nat);
        proof {
            assert(ids@.take(j as int) =~= ids@);
            assert forall|k: u64| packets.contains_key(k) implies ids@.contains(k) by {
                assert(ids@.to_set().contains(k));
            }
            assert(self@.packets =~= live);
            assert(live.dom().subset_of(before.packets.dom()));
            vstd::set_lib::lemma_len_subset(live.dom(), before.packets.dom());
            assert(self.packets@.dom() =~= live.dom());
        }
        let ghost extra = if live.len() > MAX_REASSEMBLIES {
            (live.len() - MAX_REASSEMBLIES) as nat
        } else {
            0
        };
        let ghost mut left = extra;
        while self.packets.len() > MAX_REASSEMBLIES
            invariant
                self.packets@.dom() == self@.packets.dom(),
                self@.packets_wf(),
                without_oldest(live, extra) == without_oldest(self@.packets, left),
                self@.packets.len() > MAX_REASSEMBLIES ==> self@.packets.len()
                    == MAX_REASSEMBLIES + left,
                self@.packets.len() <= MAX_REASSEMBLIES ==> left == 0,
                self@ == (DecoderModel {
                    groups: live_groups(before.groups, now as nat),
                    packets: self@.packets,
                    ..before
                }),
                self.clock == old(self).clock,
            decreases self@.packets.len(),
        {
            let ghost held = self@.packets;
            let k: u64 = find_oldest(&self.packets);
            proof {
                lemma_oldest_unique(held, k);
            }
            self.packets.remove(&k);
            assert(self@.packets =~= held.remove(k));
            assert(self.packets@.dom() =~= self@.packets.dom());
            proof {
                left = (left - 1) as nat;
            }
        }
        assert(self@ =~= before.pruned(now as nat));
    }

    /// Takes the frame of a group, and gives the datagrams that it completes.
    fn shard_at(&mut self, frame: Frame, now: u128) -> (out: Result<Vec<Vec<u8>>, DecodeError>)
        requires
            old(self).wf(),
            frame_in_range(frame@),
        ensures
            final(self).wf(),
            (final(self)@, decoded(out)) == old(self)@.shard_outcome(frame@, now as nat),
            old(self)@.recovery_due(frame@, now as nat) ==> old(self)@.recovery_holds(
                frame@,
                now as nat,
            ),
            final(self).session == old(self).session,
            final(self).clock == old(self).clock,
    {
        let ghost before = self@;
        let ghost f = frame@;
        assert(before.groups.dom() =~= self.groups@.dom());
        assert(before.packets.dom() =~= self.packets@.dom());
        let known: bool = self.groups.contains_key(&frame.group);
        if !known && self.groups.len() >= MAX_GROUPS {
            return Err(DecodeError::TooManyGroups);
        }
        let data: usize = frame.data as usize;
        let parity: usize = frame.parity as usize;
        let taken: Option<Group> = self.groups.remove(&frame.group);
        let mut group: Group = match taken {
            Some(group) => group,
            None => Group { created: now, data, parity, slots: empty_slots(data + parity) },
        };
        assert(group@ =~= before.group_for(f, now as nat));
        if group.data != data || group.parity != parity {
            self.groups.insert(frame.group, group);
            assert(self@ =~= before);
            return Err(DecodeError::GroupMismatch);
        }
        let taken: Result<Vec<Vec<u8>>, DecodeError> = group.take_shard(
            frame.index as usize,
            frame.payload,
        );
        let ghost after = group@;
        self.groups.insert(frame.group, group);
        assert(self@ =~= before.with_group(f.group, after));
        assert(self@.groups.dom() =~= before.groups.dom().insert(f.group));
        let shards: Vec<Vec<u8>> = match taken {
            Ok(shards) => shards,
            Err(e) => return Err(e),
        };
        let ghost next = self@;
        let ghost views = erasure::shard_views(shards@);
        let mut out: Vec<Vec<u8>> = Vec::new();
        let mut i: usize = 0;
        assert(views.take(0) =~= Seq::<Seq<u8>>::empty());
        assert(datagram_views(out@) =~= next.fragments_output(views.take(0), now as nat));
        while i < shards.len()
            invariant
                i <= shards@.len(),
                views == erasure::shard_views(shards@),
                self@ == next.with_fragments(views.take(i as int), now as nat),
                self@ == (DecoderModel { packets: self@.packets, ..next }),
                self@.packets_wf(),
                datagram_views(out@) == next.fragments_output(views.take(i as int), now as nat),
                self.clock == old(self).clock,
            decreases shards@.len() - i,
        {
            assert(views.take(i + 1).drop_last() =~= views.take(i as int));
            assert(views.take(i + 1).last() == shards@[i as int]@);
            let ghost held = out@;
            let mut more: Vec<Vec<u8>> = self.fragment_at(&shards[i], now);
            let ghost extra = more@;
            out.append(&mut more);
            assert(datagram_views(out@) =~= datagram_views(held) + datagram_views(extra));
            i = i + 1;
        }
        assert(views.take(i as int) =~= views);
        self.prune_at(now);
        Ok(out)
    }

    /// Takes a frame at the time `now`, in nanoseconds since the decoder was made,
    /// and gives the datagrams that it completes.
    pub fn frame_at(&mut self, frame: Frame, now: u128) -> (out: Result<Vec<Vec<u8>>, DecodeError>)
        requires
            old(self).wf(),
        ensures
            final(self).wf(),
            frame_step(old(self)@, frame@, now as nat, final(self)@, decoded(out)),
            final(self).session == old(self).session,
            final(self).clock == old(self).clock,
    {
        let ghost before = self@;
        let ghost f = frame@;
        if self.session != frame.session {
            return Err(DecodeError::SessionMismatch);
        }
        let none: Vec<Vec<u8>> = Vec::new();
        assert(datagram_views(none@) =~= Seq::<Seq<u8>>::empty());
        if !self.observe_seq(frame.sequence) {
            return Ok(none);
        }
        if frame.kind != KIND_DATA && frame.kind != KIND_PARITY {
            return Ok(none);
        }
        let data: usize = frame.data as usize;
        let parity: usize = frame.parity as usize;
        if data == 0 || data > MAX_GROUP_DATA || parity > MAX_GROUP_PARITY || frame.index as usize
            >= data + parity || frame.payload.len() < FRAGMENT_HEADER || frame.payload.len()
            > SHARD {
            return Err(DecodeError::InvalidFrame);
        }
        self.prune_at(now);
        self.shard_at(frame, now)
    }

    /// Takes a frame now, and gives the datagrams that it completes.
    pub fn frame(&mut self, frame: Frame) -> (out: Result<Vec<Vec<u8>>, DecodeError>)
        requires
            old(self).wf(),
        ensures
            final(self).wf(),
            exists|now: nat|
                clock::is_elapsed(old(self).clock, now) && #[trigger] frame_step(
                    old(self)@,
                    frame@,
                    now,
                    final(self)@,
                    decoded(out),
                ),
            final(self).clock == old(self).clock,
    {
        let now: u128 = time_since(&self.clock);
        self.frame_at(frame, now)
    }
}

/// Which frame numbers are new: the first number that comes starts the numbering, and is
/// taken unless it is zero; of the others those above what is settled that have not come
/// before.
pub proof fn law_numbers_are_taken_once(m: DecoderModel, seq: u64)
    requires
        m.wf(),
    ensures
        ({
            let first = m.highest == 0 && m.finalized == 0 && m.seen.len() == 0;
            let after = m.observed(seq);
            &&& first ==> (m.accepts(seq) <==> seq > 0)
            &&& !first ==> (m.accepts(seq) <==> seq > m.finalized && !m.seen.contains(seq))
            &&& first && seq > 0 ==> {
                &&& after.finalized == seq - 1
                &&& after.highest == seq
            }
            &&& !first ==> {
                &&& after.finalized == m.finalized
                &&& seq > m.highest ==> after.highest == seq
                &&& seq <= m.highest ==> after.highest == m.highest
            }
            &&& m.accepts(seq) ==> after.seen == m.seen.insert(seq)
            &&& !m.accepts(seq) ==> after.seen == m.seen && after.highest == m.highest
                && after.finalized == m.finalized
            &&& after.session == m.session && after.groups == m.groups && after.packets
                == m.packets
        }),
{
    if m.seen.len() == 0 {
        assert(m.seen =~= Set::<u64>::empty());
    }
    if m.seen.contains(seq) {
        assert(m.seen.insert(seq) =~= m.seen);
    }
}

/// A loss report covers the numbers above those that are settled, up to sixty-four below
/// the highest, once they are thirty-two at least. It gives the share of them that did not
/// come, in millionths, rounded down, and settles them; before that it gives nothing and
/// changes nothing.
pub proof fn law_loss_is_the_share_that_is_missing(m: DecoderModel)
    requires
        m.wf(),
    ensures
        ({
            let edge = if m.highest > 64 {
                m.highest - 64
            } else {
                0
            };
            let expected = edge - m.finalized;
            let came = m.seen.filter(|s: u64| s <= edge).len();
            let after = m.reported();
            &&& expected < 32 ==> m.loss_ppm() == 0 && after == m
            &&& expected >= 32 ==> {
                &&& came <= expected
                &&& m.loss_ppm() <= 1_000_000
                &&& m.loss_ppm() * expected <= (expected - came) * 1_000_000 < (m.loss_ppm() + 1)
                    * expected
                &&& after.finalized == edge
                &&& after.highest == m.highest
                &&& forall|s: u64| #[trigger]
                    after.seen.contains(s) <==> m.seen.contains(s) && s > edge
                &&& after.session == m.session && after.groups == m.groups && after.packets
                    == m.packets
            }
        }),
{
    let edge = if m.highest > 64 {
        m.highest - 64
    } else {
        0
    };
    let expected = edge - m.finalized;
    if expected >= 32 {
        let came = m.seen.filter(|s: u64| s <= edge);
        assert(m.received() =~= came);
        lemma_window(m.received(), m.finalized, m.cutoff());
        let lost = (expected - came.len()) * 1_000_000;
        let q = lost / expected;
        vstd::arithmetic::div_mod::lemma_fundamental_div_mod(lost, expected);
        vstd::arithmetic::div_mod::lemma_mod_bound(lost, expected);
        assert(q * expected == expected * q) by (nonlinear_arith);
        assert((q + 1) * expected == q * expected + expected) by (nonlinear_arith);
        assert(q <= 1_000_000) by (nonlinear_arith)
            requires
                q * expected <= lost,
                lost <= 1_000_000 * expected,
                expected > 0,
        ;
        assert(m.loss_ppm() == q);
    }
}

/// Whether a group is kept: for less than two seconds after its first frame came.
pub open spec fn is_live_group(m: DecoderModel, k: u64, now: nat) -> bool {
    m.groups.contains_key(k) && now < m.groups[k].created + 2_000_000_000
}

/// Whether a datagram in parts is kept: for less than three seconds after its first part
/// came.
pub open spec fn is_live_packet(m: DecoderModel, p: u64, now: nat) -> bool {
    m.packets.contains_key(p) && now < m.packets[p].created + 3_000_000_000
}

/// Which frames are refused, and why. Those of another session; and of the new ones with
/// data or parity those whose numbers are out of range, those of a new group where two
/// thousand and forty-eight are kept already, those of other dimensions than their group,
/// and those with which a group could be completed but for shards of different lengths.
/// Every other frame is taken. `slots` is what the group holds with the frame.
pub proof fn law_frames_are_refused_for_reasons(
    m: DecoderModel,
    f: FrameModel,
    now: nat,
    slots: Seq<Option<Seq<u8>>>,
)
    requires
        m.wf(),
        slots == if !is_live_group(m, f.group, now) {
            Seq::new((f.data + f.parity) as nat, |i: int| None).update(
                f.index as int,
                Some(f.payload),
            )
        } else if m.groups[f.group].slots[f.index as int] is Some {
            m.groups[f.group].slots
        } else {
            m.groups[f.group].slots.update(f.index as int, Some(f.payload))
        },
    ensures
        ({
            let out = m.frame_outcome(f, now).1;
            let strange = m.session != f.session;
            let carries = !strange && m.accepts(f.sequence) && (f.kind == 1 || f.kind == 2);
            let fits = 1 <= f.data <= 32 && f.parity <= 16 && f.index < f.data + f.parity && 14
                <= f.payload.len() <= 1380;
            let live = is_live_group(m, f.group, now);
            let full = m.groups.dom().filter(|k: u64| is_live_group(m, k, now)).len() >= 2048;
            let group = m.groups[f.group];
            let other = live && (group.data != f.data || group.parity != f.parity);
            let stuck = {
                &&& f.parity > 0
                &&& erasure::present(slots) >= f.data
                &&& exists|i: int| 0 <= i < f.data && #[trigger] slots[i] is None
                &&& exists|i: int, j: int|
                    0 <= i < slots.len() && 0 <= j < slots.len() && #[trigger] slots[i] is Some
                        && #[trigger] slots[j] is Some && (slots[i]->0.len() != slots[j]->0.len()
                        || slots[i]->0.len() == 0)
            };
            &&& strange <==> out == Err::<Seq<Seq<u8>>, DecodeError>(DecodeError::SessionMismatch)
            &&& carries && !fits <==> out == Err::<Seq<Seq<u8>>, DecodeError>(
                DecodeError::InvalidFrame,
            )
            &&& carries && fits && !live && full <==> out == Err::<Seq<Seq<u8>>, DecodeError>(
                DecodeError::TooManyGroups,
            )
            &&& carries && fits && other <==> out == Err::<Seq<Seq<u8>>, DecodeError>(
                DecodeError::GroupMismatch,
            )
            &&& carries && fits && (live || !full) && !other && stuck <==> out == Err::<
                Seq<Seq<u8>>,
                DecodeError,
            >(DecodeError::Erasure)
            &&& !strange && !carries ==> out == Ok::<Seq<Seq<u8>>, DecodeError>(Seq::empty())
        }),
{
    let kept = m.observed(f.sequence).pruned(now);
    assert(kept.groups.dom() =~= m.groups.dom().filter(|k: u64| is_live_group(m, k, now)));
    let live = is_live_group(m, f.group, now);
    let group = kept.group_for(f, now);
    let stored = group.stored(f.index as int, f.payload);
    if live {
        assert(group == m.groups[f.group]);
        assert(m.groups.contains_key(f.group) && m.groups[f.group].wf());
    }
    if frame_in_range(f) && group.data == f.data && group.parity == f.parity {
        assert(stored.slots =~= slots);
        assert(stored.stuck() <==> stored.recovers() && !erasure::uniform_slots(slots));
        assert(stored.lacks_data() <==> exists|i: int|
            0 <= i < f.data && #[trigger] slots[i] is None);
    }
    assert(!erasure::uniform_slots(slots) <==> exists|i: int, j: int|
        0 <= i < slots.len() && 0 <= j < slots.len() && #[trigger] slots[i] is Some
            && #[trigger] slots[j] is Some && (slots[i]->0.len() != slots[j]->0.len()
            || slots[i]->0.len() == 0));
}

/// What a shard says of itself, if it makes sense: it has room for its header and no more
/// than a shard holds; its part number is below its part count, which is sixty-four at
/// most; and its part lies inside it.
pub proof fn law_shards_make_sense(shard: Seq<u8>)
    ensures
        ({
            let index = 256 * shard[8] + shard[9];
            let count = 256 * shard[10] + shard[11];
            let len = 256 * shard[12] + shard[13];
            let sense = 14 <= shard.len() <= 1380 && 1 <= count <= 64 && index < count && len
                <= 1366 && 14 + len <= shard.len();
            &&& fragment_model(shard) is Some <==> sense
            &&& fragment_model(shard) matches Some(f) ==> {
                &&& f.packet == wire::be_value(shard.subrange(0, 8))
                &&& f.index == index
                &&& f.count == count
                &&& f.chunk == shard.subrange(14, 14 + len)
            }
        }),
{
    if shard.len() >= 14 {
        wire::law_two_bytes(shard, 8);
        wire::law_two_bytes(shard, 10);
        wire::law_two_bytes(shard, 12);
        wire::lemma_be_value_round_trip(shard.subrange(0, 8));
        wire::lemma_byte_bounds();
    }
}

/// What a shard does to the datagrams in parts: one that makes no sense, or whose part
/// count is not that of its datagram, does nothing. Any other sets its part. The last one
/// gives the datagram, which is then forgotten; until that it is kept. `parts` is what the
/// datagram has with the shard.
pub proof fn law_parts_make_datagrams(
    m: DecoderModel,
    shard: Seq<u8>,
    now: nat,
    parts: Seq<Option<Seq<u8>>>,
)
    requires
        m.wf(),
        fragment_model(shard) matches Some(f) ==> parts == if m.packets.contains_key(f.packet) {
            m.packets[f.packet].parts.update(f.index as int, Some(f.chunk))
        } else {
            Seq::new(f.count, |i: int| None).update(f.index as int, Some(f.chunk))
        },
    ensures
        ({
            let after = m.with_fragment(shard, now);
            let out = m.fragment_output(shard, now);
            match fragment_model(shard) {
                None => after == m && out.len() == 0,
                Some(f) => {
                    let known = m.packets.contains_key(f.packet);
                    let had = m.packets[f.packet];
                    let odd = known && had.parts.len() != f.count;
                    let whole = forall|i: int| 0 <= i < parts.len() ==> #[trigger] parts[i] is Some;
                    &&& odd ==> after == m && out.len() == 0
                    &&& !odd && whole ==> {
                        &&& out.len() == 1
                        &&& out[0] == joined(parts)
                        &&& after.packets == m.packets.remove(f.packet)
                    }
                    &&& !odd && !whole ==> {
                        &&& out.len() == 0
                        &&& after.packets.dom() == m.packets.dom().insert(f.packet)
                        &&& after.packets[f.packet].parts == parts
                        &&& after.packets[f.packet].created == if known {
                            had.created
                        } else {
                            now
                        }
                    }
                    &&& after == (DecoderModel { packets: after.packets, ..m })
                    &&& forall|p: u64|
                        #![trigger after.packets.contains_key(p)]
                        #![trigger after.packets[p]]
                        p != f.packet ==> {
                            &&& after.packets.contains_key(p) <==> m.packets.contains_key(p)
                            &&& m.packets.contains_key(p) ==> after.packets[p] == m.packets[p]
                        }
                },
            }
        }),
{
    match fragment_model(shard) {
        None => {},
        Some(f) => {
            assert(m.parts_with(f, now).parts =~= parts);
            assert(complete(parts) <==> forall|i: int|
                0 <= i < parts.len() ==> #[trigger] parts[i] is Some);
            if m.takes_fragment(shard, now) && !complete(parts) {
                assert(m.with_fragment(shard, now).packets.dom() =~= m.packets.dom().insert(
                    f.packet,
                ));
            }
        },
    }
}

/// Joining parts puts them one behind the other, whatever is in them: the parts up to any
/// place, and behind them those from it on. A single part is itself.
pub proof fn law_parts_are_joined_in_order(
    first: Seq<Option<Seq<u8>>>,
    behind: Seq<Option<Seq<u8>>>,
    part: Seq<u8>,
)
    ensures
        joined(first + behind) == joined(first) + joined(behind),
        joined(seq![Some(part)]) == part,
        joined(seq![None::<Seq<u8>>]).len() == 0,
    decreases behind.len(),
{
    reveal_with_fuel(joined, 3);
    let one = seq![Some(part)];
    assert(one.drop_last() =~= Seq::<Option<Seq<u8>>>::empty());
    assert(joined(one) =~= part);
    let none = seq![None::<Seq<u8>>];
    assert(none.drop_last() =~= Seq::<Option<Seq<u8>>>::empty());
    assert(joined(none) =~= Seq::<u8>::empty());
    if behind.len() == 0 {
        assert(first + behind =~= first);
        assert(joined(first) + joined(behind) =~= joined(first));
    } else {
        let rest = behind.drop_last();
        law_parts_are_joined_in_order(first, rest, part);
        assert((first + behind).drop_last() =~= first + rest);
        assert((first + behind).last() == behind.last());
        let last = match behind.last() {
            Some(bytes) => bytes,
            None => Seq::empty(),
        };
        assert(joined(first) + joined(rest) + last =~= joined(first) + (joined(rest) + last));
    }
}

/// What is too old goes, and nothing else does: groups after two seconds, datagrams in
/// parts after three. Of those that are left four thousand and ninety-six stay, and no
/// datagram that goes is younger than one that stays.
pub proof fn law_old_things_go(m: DecoderModel, now: nat, k: u64, p: u64, q: u64)
    requires
        m.wf(),
    ensures
        ({
            let after = m.pruned(now);
            let young = m.packets.dom().filter(|p: u64| is_live_packet(m, p, now));
            &&& after.groups.contains_key(k) <==> is_live_group(m, k, now)
            &&& after.groups.contains_key(k) ==> after.groups[k] == m.groups[k]
            &&& young.len() <= 4096 ==> (after.packets.contains_key(p) <==> is_live_packet(
                m,
                p,
                now,
            ))
            &&& after.packets.contains_key(p) ==> is_live_packet(m, p, now)
            &&& after.packets.contains_key(p) ==> after.packets[p] == m.packets[p]
            &&& after.packets.len() <= 4096
            &&& young.len() > 4096 ==> after.packets.len() == 4096
            &&& after.packets.contains_key(p) && is_live_packet(m, q, now)
                && !after.packets.contains_key(q) ==> m.packets[q].created
                <= m.packets[p].created
            &&& after.session == m.session && after.highest == m.highest && after.finalized
                == m.finalized && after.seen == m.seen
        }),
{
    let live = live_packets(m.packets, now);
    assert(live.dom() =~= m.packets.dom().filter(|p: u64| is_live_packet(m, p, now)));
    assert(live.dom().finite());
    if live.len() > MAX_REASSEMBLIES {
        lemma_oldest_go(live, (live.len() - MAX_REASSEMBLIES) as nat, p, q);
    }
}

/// Taking out the oldest entries leaves the others, and none of them is older than one
/// that goes.
proof fn lemma_oldest_go(packets: Map<u64, ReassemblyModel>, n: nat, p: u64, q: u64)
    requires
        packets.dom().finite(),
        n <= packets.len(),
    ensures
        ({
            let after = without_oldest(packets, n);
            &&& after.dom().finite()
            &&& after.len() == packets.len() - n
            &&& after.contains_key(p) ==> packets.contains_key(p) && after[p] == packets[p]
            &&& after.contains_key(p) && packets.contains_key(q) && !after.contains_key(q)
                ==> packets[q].created <= packets[p].created
        }),
    decreases n,
{
    if n > 0 {
        let k = oldest(packets);
        lemma_some_oldest(packets);
        assert(is_oldest(packets, k));
        let rest = packets.remove(k);
        assert(rest.dom() =~= packets.dom().remove(k));
        lemma_oldest_go(rest, (n - 1) as nat, p, q);
    }
}

/// Where there is an entry there is an oldest one.
proof fn lemma_some_oldest(packets: Map<u64, ReassemblyModel>)
    requires
        packets.dom().finite(),
        packets.len() > 0,
    ensures
        exists|k: u64| is_oldest(packets, k),
    decreases packets.len(),
{
    let a = packets.dom().choose();
    assert(packets.contains_key(a));
    let rest = packets.remove(a);
    assert(rest.dom() =~= packets.dom().remove(a));
    if rest.len() == 0 {
        assert(rest.dom() =~= Set::empty());
        assert forall|j: u64| #[trigger] packets.contains_key(j) implies j == a by {
            if j != a {
                assert(rest.dom().contains(j));
            }
        }
        assert(is_oldest(packets, a));
    } else {
        lemma_some_oldest(rest);
        let b = choose|k: u64| is_oldest(rest, k);
        assert(packets.contains_key(b) && b != a);
        let first = packets[a].created < packets[b].created || packets[a].created
            == packets[b].created && a <= b;
        let k = if first {
            a
        } else {
            b
        };
        assert forall|j: u64| #[trigger] packets.contains_key(j) implies {
            ||| packets[k].created < packets[j].created
            ||| packets[k].created == packets[j].created && k <= j
        } by {
            if j != a {
                assert(rest.contains_key(j));
            }
        }
        assert(is_oldest(packets, k));
    }
}

/// The first shard to come for a place stays, and a data shard is delivered when it
/// comes, before those that can be computed with it. A shard for a place that is taken
/// changes nothing.
pub proof fn law_first_shards_stay(group: GroupModel, index: int, shard: Seq<u8>, i: int)
    requires
        group.wf(),
        0 <= index < group.slots.len(),
        0 <= i < group.slots.len(),
    ensures
        ({
            let after = group.stored(index, shard);
            let taken = group.slots[index] is Some;
            &&& taken ==> after == group
            &&& !taken ==> after.slots[index] == Some(shard)
            &&& i != index ==> after.slots[i] == group.slots[i]
            &&& after.slots.len() == group.slots.len()
            &&& after.created == group.created && after.data == group.data && after.parity
                == group.parity
            &&& !taken && index < group.data ==> group.deliveries(index, shard).len() > 0
                && group.deliveries(index, shard)[0] == shard
            &&& taken && !group.recovers() ==> group.deliveries(index, shard).len() == 0
            &&& !taken && index >= group.data && !after.recovers() ==> group.deliveries(
                index,
                shard,
            ).len() == 0
        }),
{
    let stored = group.stored(index, shard);
    lemma_same_delivers_nothing(stored.slots, group.data);
    lemma_same_delivers_nothing(group.slots, group.data);
    if group.slots[index] is None {
        if index < group.data {
            lemma_stored_delivers(group.slots, index, shard, group.data);
        } else {
            lemma_same_below(group.slots, stored.slots, group.data);
        }
    }
}

/// Slots that agree up to `n` deliver nothing.
proof fn lemma_same_below(before: Seq<Option<Seq<u8>>>, after: Seq<Option<Seq<u8>>>, n: nat)
    requires
        n <= before.len(),
        n <= after.len(),
        forall|i: int| 0 <= i < n ==> before[i] == after[i],
    ensures
        new_shards(before, after, n).len() == 0,
    decreases n,
{
    if n > 0 {
        lemma_same_below(before, after, (n - 1) as nat);
    }
}

/// Missing data shards are computed as soon as there are as many shards as data shards,
/// and not before.
pub proof fn law_recovery_comes_as_soon_as_it_can(group: GroupModel)
    requires
        group.wf(),
    ensures
        group.recovers() <==> group.parity > 0 && erasure::filled_places(group.slots).len()
            >= group.data && exists|i: int|
            0 <= i < group.data && #[trigger] group.slots[i] is None,
{
    erasure::law_present_counts_the_filled(group.slots);
}

/// A decoder starts with nothing, and is seen as it is; so are its groups and what it
/// gives.
pub proof fn law_decoders_are_seen_as_they_are(
    session: u64,
    d: Decoder,
    group: Group,
    packet: Reassembly,
    part: Fragment,
    out: Result<Vec<Vec<u8>>, DecodeError>,
)
    ensures
        ({
            let fresh = DecoderModel::fresh(session);
            &&& fresh.session == session
            &&& fresh.highest == 0
            &&& fresh.finalized == 0
            &&& fresh.seen.len() == 0
            &&& fresh.groups.len() == 0
            &&& fresh.packets.len() == 0
        }),
        d@.session == d.session,
        d@.highest == d.highest_sequence,
        d@.finalized == d.finalized_sequence,
        d@.seen == d.seen_sequences@,
        d@.groups.dom() == d.groups@.dom(),
        forall|k: u64| #[trigger] d.groups@.contains_key(k) ==> d@.groups[k] == d.groups@[k]@,
        d@.packets.dom() == d.packets@.dom(),
        forall|p: u64| #[trigger] d.packets@.contains_key(p) ==> d@.packets[p] == d.packets@[p]@,
        group@.created == group.created,
        group@.data == group.data,
        group@.parity == group.parity,
        group@.slots == erasure::slot_views(group.slots@),
        packet@.created == packet.created,
        packet@.parts == erasure::slot_views(packet.parts@),
        part@.packet == part.packet,
        part@.index == part.index,
        part@.count == part.count,
        part@.chunk == part.chunk@,
        match out {
            Err(e) => decoded(out) == Err::<Seq<Seq<u8>>, DecodeError>(e),
            Ok(d) => decoded(out) matches Ok(views) && views.len() == d@.len() && forall|i: int|
                0 <= i < d@.len() ==> #[trigger] views[i] == d@[i]@,
        },
{
}

/// Delivering shards touches nothing but the datagrams in parts.
pub proof fn lemma_fragments_touch_packets(m: DecoderModel, shards: Seq<Seq<u8>>, now: nat)
    ensures
        m.with_fragments(shards, now) == (DecoderModel {
            packets: m.with_fragments(shards, now).packets,
            ..m
        }),
    decreases shards.len(),
{
    if shards.len() > 0 {
        lemma_fragments_touch_packets(m, shards.drop_last(), now);
    }
}

/// A frame that is taken fills its place in its group, which starts with the first frame
/// of it; where shards are computed, every place is filled. The other groups stay as they
/// are until they are too old. `slots` is what the group holds with the frame.
pub proof fn law_taken_frames_fill_their_group(
    m: DecoderModel,
    f: FrameModel,
    now: nat,
    slots: Seq<Option<Seq<u8>>>,
    k: u64,
    i: int,
)
    requires
        m.wf(),
        m.session == f.session,
        m.accepts(f.sequence),
        f.kind == 1 || f.kind == 2,
        m.frame_outcome(f, now).1 is Ok,
        slots == if !is_live_group(m, f.group, now) {
            Seq::new((f.data + f.parity) as nat, |i: int| None).update(
                f.index as int,
                Some(f.payload),
            )
        } else if m.groups[f.group].slots[f.index as int] is Some {
            m.groups[f.group].slots
        } else {
            m.groups[f.group].slots.update(f.index as int, Some(f.payload))
        },
    ensures
        ({
            let after = m.frame_outcome(f, now).0;
            let group = after.groups[f.group];
            let due = {
                &&& f.parity > 0
                &&& erasure::present(slots) >= f.data
                &&& exists|i: int| 0 <= i < f.data && #[trigger] slots[i] is None
            };
            &&& after.groups.contains_key(f.group)
            &&& group.data == f.data
            &&& group.parity == f.parity
            &&& is_live_group(m, f.group, now) ==> group.created == m.groups[f.group].created
            &&& !is_live_group(m, f.group, now) ==> group.created == now
            &&& !due ==> group.slots == slots
            &&& due && 0 <= i < group.slots.len() ==> group.slots[i] is Some
            &&& k != f.group ==> (after.groups.contains_key(k) <==> is_live_group(m, k, now))
            &&& k != f.group && after.groups.contains_key(k) ==> after.groups[k] == m.groups[k]
            &&& after.session == m.session
            &&& after.highest == m.observed(f.sequence).highest
            &&& after.finalized == m.observed(f.sequence).finalized
            &&& after.seen == m.observed(f.sequence).seen
        }),
{
    let kept = m.observed(f.sequence).pruned(now);
    let group = kept.group_for(f, now);
    let stored = group.stored(f.index as int, f.payload);
    if is_live_group(m, f.group, now) {
        assert(m.groups.contains_key(f.group) && m.groups[f.group].wf());
    }
    assert(stored.slots =~= slots);
    assert(stored.lacks_data() <==> exists|i: int|
        0 <= i < f.data && #[trigger] slots[i] is None);
    lemma_fragments_touch_packets(
        kept.with_group(f.group, stored.settled()),
        group.deliveries(f.index as int, f.payload),
        now,
    );
}

/// Shards are taken in turn, and what they complete comes out in turn.
pub proof fn law_shards_are_taken_in_turn(
    m: DecoderModel,
    shards: Seq<Seq<u8>>,
    shard: Seq<u8>,
    now: nat,
)
    ensures
        m.with_fragments(Seq::empty(), now) == m,
        m.fragments_output(Seq::empty(), now).len() == 0,
        m.with_fragments(shards.push(shard), now) == m.with_fragments(shards, now).with_fragment(
            shard,
            now,
        ),
        m.fragments_output(shards.push(shard), now) == m.fragments_output(shards, now)
            + m.with_fragments(shards, now).fragment_output(shard, now),
{
    assert(shards.push(shard).drop_last() =~= shards);
}

/// What comes of a frame with which nothing can be computed: a data frame that is the first
/// for its place gives what its shard completes among the datagrams in parts, and any other
/// gives nothing.
pub proof fn law_data_frames_give_what_their_shard_completes(
    m: DecoderModel,
    f: FrameModel,
    now: nat,
)
    requires
        m.wf(),
        m.session == f.session,
        m.accepts(f.sequence),
        f.kind == 1 || f.kind == 2,
        m.frame_outcome(f, now).1 is Ok,
        f.parity == 0 || (is_live_group(m, f.group, now) && erasure::present(
            m.groups[f.group].slots,
        ) + 1 < f.data) || (!is_live_group(m, f.group, now) && f.data > 1),
    ensures
        ({
            let (after, out) = m.frame_outcome(f, now);
            let young = m.observed(f.sequence).pruned(now);
            let first = !is_live_group(m, f.group, now)
                || m.groups[f.group].slots[f.index as int] is None;
            &&& first && f.index < f.data ==> out == Ok::<Seq<Seq<u8>>, DecodeError>(
                young.fragment_output(f.payload, now),
            )
            &&& first && f.index < f.data ==> after.packets == capped(
                live_packets(young.with_fragment(f.payload, now).packets, now),
            )
            &&& !(first && f.index < f.data) ==> out == Ok::<Seq<Seq<u8>>, DecodeError>(
                Seq::empty(),
            )
        }),
{
    let young = m.observed(f.sequence).pruned(now);
    let group = young.group_for(f, now);
    let stored = group.stored(f.index as int, f.payload);
    let next = young.with_group(f.group, stored.settled());
    let shards = group.deliveries(f.index as int, f.payload);
    let live = is_live_group(m, f.group, now);
    let first = !live || m.groups[f.group].slots[f.index as int] is None;
    if live {
        assert(m.groups.contains_key(f.group) && m.groups[f.group].wf());
        assert(group == m.groups[f.group]);
    } else {
        lemma_none_present((f.data + f.parity) as nat);
        assert(group.slots =~= Seq::new((f.data + f.parity) as nat, |i: int| None::<Seq<u8>>));
    }
    lemma_one_more_present(group.slots, f.index as int, f.payload);
    assert(!stored.recovers());
    lemma_same_delivers_nothing(stored.slots, group.data);
    lemma_same_delivers_nothing(group.slots, group.data);
    if first && f.index < f.data {
        lemma_stored_delivers(group.slots, f.index as int, f.payload, group.data);
        assert(shards =~= Seq::<Seq<u8>>::empty().push(f.payload));
        law_shards_are_taken_in_turn(next, Seq::empty(), f.payload, now);
        assert(next.fragments_output(shards, now) =~= young.fragment_output(f.payload, now));
    } else {
        if first {
            lemma_same_below(group.slots, stored.slots, group.data);
        }
        assert(shards =~= Seq::<Seq<u8>>::empty());
    }
}

/// Empty slots are not filled.
proof fn lemma_none_present(n: nat)
    ensures
        erasure::present(Seq::new(n, |i: int| None::<Seq<u8>>)) == 0,
    decreases n,
{
    let slots = Seq::new(n, |i: int| None::<Seq<u8>>);
    if n > 0 {
        lemma_none_present((n - 1) as nat);
        assert(slots.drop_last() =~= Seq::new((n - 1) as nat, |i: int| None::<Seq<u8>>));
    }
}

/// Filling a slot fills one more at most.
proof fn lemma_one_more_present(slots: Seq<Option<Seq<u8>>>, index: int, shard: Seq<u8>)
    requires
        0 <= index < slots.len(),
    ensures
        erasure::present(slots.update(index, Some(shard))) <= erasure::present(slots) + 1,
    decreases slots.len(),
{
    let after = slots.update(index, Some(shard));
    if index == slots.len() - 1 {
        assert(after.drop_last() =~= slots.drop_last());
    } else {
        lemma_one_more_present(slots.drop_last(), index, shard);
        assert(after.drop_last() =~= slots.drop_last().update(index, Some(shard)));
    }
}

} // verus!
