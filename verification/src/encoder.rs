//! From datagrams to frames: fragmentation into shards, grouping and parity.

use crate::adaptive::{Adaptive, MAX_PARITY};
use crate::erasure::{self, encode_parity};
use crate::frame::{
    Frame, FrameModel, KIND_DATA, KIND_PARITY, KIND_REPORT, V3_OVERHEAD, VERSION_V1,
};
use crate::wire::{self, copy_range, put_be, put_bytes};
use vstd::prelude::*;

verus! {

/// Most bytes of a shard. A V3 envelope adds 79, which keeps the UDP payload below
/// the 1472 bytes that an Ethernet frame holds over IPv4.
pub const SHARD: usize = 1380;

/// Bytes before the datagram part in a shard.
pub const FRAGMENT_HEADER: usize = 14;

/// Most datagram bytes in a shard.
pub const CHUNK: usize = 1366;

/// Data shards of a full group.
pub const DATA_SHARDS: usize = 10;

/// Most fragments that a fragment header can number.
pub const MAX_FRAGMENTS: usize = 65_535;

/// Most bytes of a UDP payload over IPv4 that an Ethernet frame holds.
pub const ETHERNET_PAYLOAD: usize = 1472;

/// Why a datagram cannot be encoded.
#[derive(Clone, Copy, Debug, PartialEq, Eq, Structural)]
pub enum EncodeError {
    DatagramTooLarge,
    Erasure,
}

/// The sending half of a session.
#[derive(Debug)]
pub struct Encoder {
    pub version: u8,
    pub key_id: u64,
    pub session: u64,
    /// Sequence number of the next frame.
    pub sequence: u64,
    /// Number of the next datagram.
    pub packet: u64,
    /// Number of the group being filled.
    pub group: u64,
    /// Shards of the group being filled.
    pub shards: Vec<Vec<u8>>,
    pub adaptive: Adaptive,
}

/// An encoder as a mathematical value.
pub struct EncoderModel {
    pub version: u8,
    pub key_id: u64,
    pub session: u64,
    pub sequence: nat,
    pub packet: nat,
    pub group: nat,
    pub shards: Seq<Seq<u8>>,
    pub adaptive: Adaptive,
}

impl View for Encoder {
    type V = EncoderModel;

    open spec fn view(&self) -> EncoderModel {
        EncoderModel {
            version: self.version,
            key_id: self.key_id,
            session: self.session,
            sequence: self.sequence as nat,
            packet: self.packet as nat,
            group: self.group as nat,
            shards: erasure::shard_views(self.shards@),
            adaptive: self.adaptive,
        }
    }
}

/// The frames as mathematical values.
pub open spec fn frame_views(frames: Seq<Frame>) -> Seq<FrameModel> {
    Seq::new(frames.len(), |i: int| frames[i]@)
}

/// How many fragments a datagram of `len` bytes makes. An empty one makes one.
pub open spec fn fragment_count(len: nat) -> nat {
    if len == 0 {
        1
    } else {
        (len + CHUNK - 1) as nat / CHUNK as nat
    }
}

/// Part number `i` of a datagram.
pub open spec fn chunk_of(payload: Seq<u8>, i: int) -> Seq<u8> {
    payload.subrange(
        i * CHUNK,
        if (i + 1) * CHUNK < payload.len() {
            (i + 1) * CHUNK
        } else {
            payload.len() as int
        },
    )
}

/// A shard: datagram number, part number, part count and part length before the
/// part itself.
pub open spec fn shard_of(packet: nat, index: nat, count: nat, chunk: Seq<u8>) -> Seq<u8> {
    wire::be(packet, 8) + wire::be(index, 2) + wire::be(count, 2) + wire::be(chunk.len(), 2) + chunk
}

/// The shards of datagram number `packet`.
pub open spec fn shards_of(packet: nat, payload: Seq<u8>) -> Seq<Seq<u8>> {
    let count = fragment_count(payload.len());
    Seq::new(count, |i: int| shard_of(packet, i as nat, count, chunk_of(payload, i)))
}

/// The length of the longest shard, at least that of a bare fragment header.
pub open spec fn longest(shards: Seq<Seq<u8>>) -> nat
    decreases shards.len(),
{
    if shards.len() == 0 {
        FRAGMENT_HEADER as nat
    } else {
        let rest = longest(shards.drop_last());
        if shards.last().len() > rest {
            shards.last().len()
        } else {
            rest
        }
    }
}

/// `shard` with zeros behind it, `len` bytes in all.
pub open spec fn padded(shard: Seq<u8>, len: nat) -> Seq<u8> {
    shard + Seq::new((len - shard.len()) as nat, |i: int| 0u8)
}

/// Every shard padded to the length of the longest.
pub open spec fn padded_all(shards: Seq<Seq<u8>>) -> Seq<Seq<u8>> {
    Seq::new(shards.len(), |i: int| padded(shards[i], longest(shards)))
}

/// How many parity shards a group of `data` shards gets at a redundancy of
/// `parity` shards for a full group.
pub open spec fn group_parity(data: nat, parity: nat) -> nat {
    let wanted = if parity == 0 {
        0
    } else if data < DATA_SHARDS {
        if parity < data + 1 {
            parity
        } else {
            data + 1
        }
    } else {
        (data * parity + DATA_SHARDS - 1) as nat / DATA_SHARDS as nat
    };
    if wanted < MAX_PARITY {
        wanted
    } else {
        MAX_PARITY as nat
    }
}

impl EncoderModel {
    /// What every operation keeps.
    pub open spec fn wf(self) -> bool {
        &&& self.shards.len() < DATA_SHARDS
        &&& forall|i: int|
            0 <= i < self.shards.len() ==> FRAGMENT_HEADER <= (#[trigger] self.shards[i]).len()
                <= SHARD
        &&& self.adaptive.wf()
    }

    /// Whether the group being filled can be sent: like `wf`, but a full group is
    /// in order.
    pub open spec fn flushable(self) -> bool {
        &&& self.shards.len() <= DATA_SHARDS
        &&& forall|i: int|
            0 <= i < self.shards.len() ==> FRAGMENT_HEADER <= (#[trigger] self.shards[i]).len()
                <= SHARD
        &&& self.adaptive.wf()
    }

    /// An encoder that has sent nothing.
    pub open spec fn fresh(session: u64, version: u8, key_id: u64) -> EncoderModel {
        EncoderModel {
            version,
            key_id,
            session,
            sequence: 1,
            packet: 1,
            group: 1,
            shards: Seq::empty(),
            adaptive: Adaptive::cold(),
        }
    }

    /// Parity shards of the group being filled, if it is sent now.
    pub open spec fn parity_now(self) -> nat {
        group_parity(self.shards.len(), self.adaptive.parity as nat)
    }

    /// That the parity shards of the group being filled, if it is sent now, are as
    /// many and as long as they should be.
    pub open spec fn group_coded(self) -> bool {
        self.shards.len() > 0 && self.parity_now() > 0 ==> erasure::coded(
            padded_all(self.shards),
            self.parity_now(),
        )
    }

    /// All shards of the group being filled, if it is sent now.
    pub open spec fn group_shards(self) -> Seq<Seq<u8>> {
        if self.parity_now() == 0 {
            padded_all(self.shards)
        } else {
            erasure::codeword(padded_all(self.shards), self.parity_now())
        }
    }

    /// Frame number `i` of the group being filled, if it is sent now.
    pub open spec fn group_frame(self, i: int) -> FrameModel {
        FrameModel {
            version: self.version,
            key_id: self.key_id,
            kind: if i < self.shards.len() {
                KIND_DATA
            } else {
                KIND_PARITY
            },
            session: self.session,
            sequence: (self.sequence + i) as u64,
            group: self.group as u64,
            index: i as u16,
            data: self.shards.len() as u8,
            parity: self.parity_now() as u8,
            payload: self.group_shards()[i],
        }
    }

    /// The frames of the group being filled, if it is sent now.
    pub open spec fn flush_frames(self) -> Seq<FrameModel> {
        if self.shards.len() == 0 {
            Seq::empty()
        } else {
            Seq::new(self.shards.len() + self.parity_now(), |i: int| self.group_frame(i))
        }
    }

    /// The encoder after sending the group being filled.
    pub open spec fn flushed(self) -> EncoderModel {
        if self.shards.len() == 0 {
            self
        } else {
            EncoderModel {
                sequence: self.sequence + self.shards.len() + self.parity_now(),
                group: self.group + 1,
                shards: Seq::empty(),
                ..self
            }
        }
    }

    /// The encoder with one more shard in the group being filled.
    pub open spec fn with_shard(self, shard: Seq<u8>) -> EncoderModel {
        EncoderModel { shards: self.shards.push(shard), ..self }
    }

    /// The encoder after one more shard, which sends the group once it is full.
    pub open spec fn pushed(self, shard: Seq<u8>) -> EncoderModel {
        if self.shards.len() + 1 == DATA_SHARDS {
            self.with_shard(shard).flushed()
        } else {
            self.with_shard(shard)
        }
    }

    /// The frames that one more shard sends.
    pub open spec fn push_frames(self, shard: Seq<u8>) -> Seq<FrameModel> {
        if self.shards.len() + 1 == DATA_SHARDS {
            self.with_shard(shard).flush_frames()
        } else {
            Seq::empty()
        }
    }

    /// The encoder after all of `shards`, the first one first.
    pub open spec fn pushed_all(self, shards: Seq<Seq<u8>>) -> EncoderModel
        decreases shards.len(),
    {
        if shards.len() == 0 {
            self
        } else {
            self.pushed_all(shards.drop_last()).pushed(shards.last())
        }
    }

    /// The frames that all of `shards` send.
    pub open spec fn push_all_frames(self, shards: Seq<Seq<u8>>) -> Seq<FrameModel>
        decreases shards.len(),
    {
        if shards.len() == 0 {
            Seq::empty()
        } else {
            self.push_all_frames(shards.drop_last()) + self.pushed_all(
                shards.drop_last(),
            ).push_frames(shards.last())
        }
    }

    /// That the parity shards of every group that `shards` fill up are as many and
    /// as long as they should be.
    pub open spec fn pushes_coded(self, shards: Seq<Seq<u8>>) -> bool
        decreases shards.len(),
    {
        shards.len() > 0 ==> {
            let last = self.pushed_all(shards.drop_last());
            &&& self.pushes_coded(shards.drop_last())
            &&& last.shards.len() + 1 == DATA_SHARDS ==> last.with_shard(
                shards.last(),
            ).group_coded()
        }
    }

    /// The encoder once it has numbered a datagram.
    pub open spec fn numbered(self) -> EncoderModel {
        EncoderModel { packet: self.packet + 1, ..self }
    }

    /// The frame that reports a loss now.
    pub open spec fn loss_frame(self, loss_ppm: u32) -> FrameModel {
        FrameModel {
            version: self.version,
            key_id: self.key_id,
            kind: KIND_REPORT,
            session: self.session,
            sequence: self.sequence as u64,
            group: 0,
            index: 0,
            data: 0,
            parity: 0,
            payload: wire::be(loss_ppm as nat, 4),
        }
    }

    /// The encoder after sending one frame that belongs to no group.
    pub open spec fn counted(self) -> EncoderModel {
        EncoderModel { sequence: self.sequence + 1, ..self }
    }

    /// The encoder once the peer has reported a loss.
    pub open spec fn heard(self, loss_ppm: u32) -> EncoderModel {
        EncoderModel { adaptive: self.adaptive.reported(loss_ppm), ..self }
    }

    /// How many groups a datagram of `len` bytes fills up.
    pub open spec fn groups_filled(self, len: nat) -> nat {
        (self.shards.len() + fragment_count(len)) / DATA_SHARDS as nat
    }

    /// Whether the counters have room for a datagram of `len` bytes.
    pub open spec fn has_room(self, len: nat) -> bool {
        &&& self.packet < u64::MAX
        &&& fragment_count(len) <= MAX_FRAGMENTS ==> {
            &&& self.sequence + self.groups_filled(len) * (DATA_SHARDS + group_parity(
                DATA_SHARDS as nat,
                self.adaptive.parity as nat,
            )) <= u64::MAX
            &&& self.group + self.groups_filled(len) <= u64::MAX
        }
    }

    /// Whether the counters have room for sending the group being filled.
    pub open spec fn has_room_to_flush(self) -> bool {
        self.shards.len() > 0 ==> {
            &&& self.sequence + self.shards.len() + self.parity_now() <= u64::MAX
            &&& self.group < u64::MAX
        }
    }
}

/// The longest shard is as long as any, and no longer than `bound` if none is.
proof fn lemma_longest(shards: Seq<Seq<u8>>, bound: nat)
    requires
        FRAGMENT_HEADER <= bound,
        forall|i: int| 0 <= i < shards.len() ==> (#[trigger] shards[i]).len() <= bound,
    ensures
        FRAGMENT_HEADER <= longest(shards) <= bound,
        forall|i: int| 0 <= i < shards.len() ==> (#[trigger] shards[i]).len() <= longest(shards),
    decreases shards.len(),
{
    if shards.len() > 0 {
        let rest = shards.drop_last();
        assert forall|i: int| 0 <= i < rest.len() implies (#[trigger] rest[i]).len() <= bound by {
            assert(rest[i] == shards[i]);
        }
        lemma_longest(rest, bound);
        assert forall|i: int| 0 <= i < shards.len() implies (#[trigger] shards[i]).len() <= longest(
            shards,
        ) by {
            if i < rest.len() {
                assert(rest[i] == shards[i]);
            }
        }
    }
}

/// A group sent from a well-formed encoder is uniform.
pub proof fn lemma_padded_uniform(shards: Seq<Seq<u8>>)
    requires
        forall|i: int|
            0 <= i < shards.len() ==> FRAGMENT_HEADER <= (#[trigger] shards[i]).len() <= SHARD,
    ensures
        FRAGMENT_HEADER <= longest(shards) <= SHARD,
        forall|i: int| 0 <= i < shards.len() ==> (#[trigger] shards[i]).len() <= longest(shards),
        forall|i: int|
            0 <= i < shards.len() ==> (#[trigger] padded_all(shards)[i]).len() == longest(shards),
        erasure::uniform(padded_all(shards)),
{
    lemma_longest(shards, SHARD as nat);
}

/// The length of the longest shard.
fn longest_len(shards: &Vec<Vec<u8>>) -> (len: usize)
    ensures
        len == longest(erasure::shard_views(shards@)),
{
    let ghost views = erasure::shard_views(shards@);
    let mut len: usize = FRAGMENT_HEADER;
    let mut i: usize = 0;
    while i < shards.len()
        invariant
            views == erasure::shard_views(shards@),
            i <= shards@.len(),
            len == longest(views.take(i as int)),
        decreases shards@.len() - i,
    {
        assert(views.take(i + 1).drop_last() =~= views.take(i as int));
        if shards[i].len() > len {
            len = shards[i].len();
        }
        i = i + 1;
    }
    assert(views.take(i as int) =~= views);
    len
}

/// A copy of `shard` with zeros behind it, `len` bytes in all.
fn pad_copy(shard: &Vec<u8>, len: usize) -> (out: Vec<u8>)
    requires
        shard@.len() <= len,
    ensures
        out@ == padded(shard@, len as nat),
{
    let mut out: Vec<u8> = copy_range(shard, 0, shard.len());
    assert(out@ =~= shard@);
    while out.len() < len
        invariant
            shard@.len() <= out@.len() <= len,
            out@ == padded(shard@, out@.len()),
        decreases len - out@.len(),
    {
        let ghost before = out@;
        out.push(0);
        assert(out@ =~= padded(shard@, out@.len()));
    }
    out
}

/// How many parity shards a group gets.
fn parity_count(data: usize, parity: usize) -> (count: usize)
    requires
        data <= DATA_SHARDS,
        parity <= MAX_PARITY,
    ensures
        count == group_parity(data as nat, parity as nat),
{
    let wanted: usize = if parity == 0 {
        0
    } else if data < DATA_SHARDS {
        if parity < data + 1 {
            parity
        } else {
            data + 1
        }
    } else {
        proof {
            assert(data * parity <= 30) by (nonlinear_arith)
                requires
                    data == 10,
                    parity <= 3,
            ;
        }
        (data * parity + DATA_SHARDS - 1) / DATA_SHARDS
    };
    if wanted < MAX_PARITY {
        wanted
    } else {
        MAX_PARITY
    }
}

/// The number of fragments of a datagram.
pub fn count_fragments(len: usize) -> (count: usize)
    ensures
        count == fragment_count(len as nat),
{
    if len == 0 {
        1
    } else {
        (len - 1) / CHUNK + 1
    }
}

/// Shard number `i` of a datagram.
fn make_shard(packet: u64, i: usize, count: usize, payload: &[u8]) -> (shard: Vec<u8>)
    requires
        i < count,
        count == fragment_count(payload@.len()),
        count <= MAX_FRAGMENTS,
    ensures
        shard@ == shards_of(packet as nat, payload@)[i as int],
        FRAGMENT_HEADER <= shard@.len() <= SHARD,
{
    let start: usize = i * CHUNK;
    let end: usize = if payload.len() - start > CHUNK {
        start + CHUNK
    } else {
        payload.len()
    };
    let mut shard: Vec<u8> = Vec::new();
    put_be(&mut shard, packet, 8);
    put_be(&mut shard, i as u64, 2);
    put_be(&mut shard, count as u64, 2);
    put_be(&mut shard, (end - start) as u64, 2);
    let chunk: Vec<u8> = copy_range(payload, start, end);
    put_bytes(&mut shard, &chunk);
    assert(chunk@ =~= chunk_of(payload@, i as int));
    assert(shard@ =~= shards_of(packet as nat, payload@)[i as int]);
    proof {
        wire::lemma_be_len(packet as nat, 8);
        wire::lemma_be_len(i as nat, 2);
        wire::lemma_be_len(count as nat, 2);
        wire::lemma_be_len((end - start) as nat, 2);
    }
    shard
}

impl Encoder {
    /// What every operation keeps.
    pub open spec fn wf(&self) -> bool {
        self@.wf()
    }

    /// A fresh encoder for the legacy V1 format.
    pub fn new(session: u64) -> (fresh: Self)
        ensures
            fresh@ == EncoderModel::fresh(session, VERSION_V1, 0),
            fresh.wf(),
    {
        Self::with_identity(session, VERSION_V1, 0)
    }

    /// A fresh encoder for `version`, as device `key_id`.
    pub fn with_identity(session: u64, version: u8, key_id: u64) -> (fresh: Self)
        ensures
            fresh@ == EncoderModel::fresh(session, version, key_id),
            fresh.wf(),
    {
        let fresh = Encoder {
            version,
            key_id,
            session,
            sequence: 1,
            packet: 1,
            group: 1,
            shards: Vec::new(),
            adaptive: Adaptive::default(),
        };
        assert(fresh@.shards =~= Seq::<Seq<u8>>::empty());
        fresh
    }

    /// Whether the counters have room for a datagram of `len` bytes.
    pub fn can_encode(&self, len: usize) -> (yes: bool)
        requires
            self.wf(),
        ensures
            yes == self@.has_room(len as nat),
    {
        let count: usize = count_fragments(len);
        if self.packet == u64::MAX {
            return false;
        }
        if count > MAX_FRAGMENTS {
            return true;
        }
        let groups: u64 = ((self.shards.len() + count) / DATA_SHARDS) as u64;
        let per_group: u64 = (DATA_SHARDS + parity_count(DATA_SHARDS, self.adaptive.parity)) as u64;
        proof {
            assert(groups * per_group <= 7000 * 13) by (nonlinear_arith)
                requires
                    groups <= 7000,
                    per_group <= 13,
            ;
        }
        groups * per_group <= u64::MAX - self.sequence && groups <= u64::MAX - self.group
    }

    /// Whether the counters have room for sending the group being filled.
    pub fn can_flush(&self) -> (yes: bool)
        requires
            self.wf(),
        ensures
            yes == self@.has_room_to_flush(),
    {
        if self.shards.len() == 0 {
            return true;
        }
        let frames: u64 = (self.shards.len() + parity_count(
            self.shards.len(),
            self.adaptive.parity,
        )) as u64;
        frames <= u64::MAX - self.sequence && self.group < u64::MAX
    }

    /// A frame that reports `loss_ppm` to the peer.
    pub fn report_frame(&mut self, loss_ppm: u32) -> (frame: Frame)
        requires
            old(self).sequence < u64::MAX,
        ensures
            frame@ == old(self)@.loss_frame(loss_ppm),
            final(self)@ == old(self)@.counted(),
    {
        let mut payload: Vec<u8> = Vec::new();
        put_be(&mut payload, loss_ppm as u64, 4);
        assert(payload@ =~= wire::be(loss_ppm as nat, 4));
        let frame = Frame {
            version: self.version,
            key_id: self.key_id,
            kind: KIND_REPORT,
            session: self.session,
            sequence: self.sequence,
            group: 0,
            index: 0,
            data: 0,
            parity: 0,
            payload,
        };
        self.sequence = self.sequence + 1;
        frame
    }

    /// Frame number `i` of the group being filled, with `payload`.
    fn make_group_frame(&self, i: usize, data: usize, parity: usize, payload: Vec<u8>) -> (frame:
        Frame)
        requires
            data == self.shards@.len(),
            parity == self@.parity_now(),
            data <= DATA_SHARDS,
            i < data + parity,
            self.sequence + i <= u64::MAX,
            payload@ == self@.group_shards()[i as int],
        ensures
            frame@ == self@.group_frame(i as int),
    {
        Frame {
            version: self.version,
            key_id: self.key_id,
            kind: if i < data {
                KIND_DATA
            } else {
                KIND_PARITY
            },
            session: self.session,
            sequence: self.sequence + i as u64,
            group: self.group,
            index: i as u16,
            data: data as u8,
            parity: parity as u8,
            payload,
        }
    }

    /// Sends the group being filled, full or not, if it holds anything.
    pub fn flush(&mut self) -> (frames: Result<Vec<Frame>, EncodeError>)
        requires
            old(self)@.flushable(),
            old(self)@.has_room_to_flush(),
        ensures
            frames matches Ok(f) && frame_views(f@) == old(self)@.flush_frames(),
            old(self)@.group_coded(),
            final(self)@ == old(self)@.flushed(),
            final(self).wf(),
    {
        if self.shards.len() == 0 {
            let none: Vec<Frame> = Vec::new();
            assert(frame_views(none@) =~= self@.flush_frames());
            return Ok(none);
        }
        let ghost start = self@;
        let data: usize = self.shards.len();
        let parity: usize = parity_count(data, self.adaptive.parity);
        let shard_len: usize = longest_len(&self.shards);
        proof {
            lemma_padded_uniform(start.shards);
        }
        let mut all: Vec<Vec<u8>> = Vec::new();
        let mut i: usize = 0;
        while i < data
            invariant
                i <= data,
                data == self.shards@.len(),
                all@.len() == i,
                start == self@,
                shard_len == longest(start.shards),
                forall|j: int|
                    0 <= j < data ==> (#[trigger] start.shards[j]).len() <= longest(start.shards),
                forall|j: int|
                    0 <= j < i ==> (#[trigger] all@[j])@ == padded(
                        start.shards[j],
                        shard_len as nat,
                    ),
            decreases data - i,
        {
            assert(start.shards[i as int] == self.shards@[i as int]@);
            all.push(pad_copy(&self.shards[i], shard_len));
            i = i + 1;
        }
        assert(erasure::shard_views(all@) =~= padded_all(start.shards));
        if parity > 0 {
            let mut p: usize = 0;
            while p < parity
                invariant
                    p <= parity,
                    all@.len() == data + p,
                    data == start.shards.len(),
                    shard_len == longest(start.shards),
                    forall|j: int|
                        0 <= j < data ==> (#[trigger] all@[j])@ == padded(
                            start.shards[j],
                            shard_len as nat,
                        ),
                    forall|j: int|
                        data <= j < data + p ==> (#[trigger] all@[j])@.len() == shard_len,
                decreases parity - p,
            {
                let blank: Vec<u8> = vec![0u8; shard_len];
                all.push(blank);
                p = p + 1;
            }
            let ghost before = erasure::shard_views(all@);
            proof {
                assert(before.take(data as int) =~= padded_all(start.shards));
                assert forall|j: int| 0 <= j < before.len() implies (#[trigger] before[j]).len()
                    == shard_len by {
                    if j < data {
                        assert(padded_all(start.shards)[j].len() == longest(start.shards));
                        assert(all@[j]@ == padded(start.shards[j], shard_len as nat));
                    } else {
                        assert(all@[j]@.len() == shard_len);
                    }
                }
                assert(erasure::uniform(before));
            }
            match encode_parity(&mut all, data, parity) {
                Ok(_) => {},
                Err(_) => return Err(EncodeError::Erasure),
            }
        }
        assert(erasure::shard_views(all@) =~= start.group_shards());
        assert(all@.len() == data + parity);
        let mut frames: Vec<Frame> = Vec::new();
        let mut k: usize = 0;
        while k < data + parity
            invariant
                k <= data + parity,
                data + parity <= 13,
                data == self.shards@.len(),
                data <= DATA_SHARDS,
                parity == start.parity_now(),
                start == self@,
                start.sequence + data + parity <= u64::MAX,
                all@.len() == data + parity,
                erasure::shard_views(all@) == start.group_shards(),
                frames@.len() == k,
                forall|j: int| 0 <= j < k ==> (#[trigger] frames@[j])@ == start.group_frame(j),
            decreases data + parity - k,
        {
            assert(erasure::shard_views(all@)[k as int] == all@[k as int]@);
            let payload: Vec<u8> = copy_range(&all[k], 0, all[k].len());
            assert(payload@ =~= all@[k as int]@);
            frames.push(self.make_group_frame(k, data, parity, payload));
            k = k + 1;
        }
        assert(frame_views(frames@) =~= start.flush_frames());
        self.sequence = self.sequence + (data + parity) as u64;
        self.shards.clear();
        self.group = self.group + 1;
        assert(self@.shards =~= Seq::<Seq<u8>>::empty());
        Ok(frames)
    }

    /// Splits a datagram into shards, and sends each group that they fill.
    pub fn encode_datagram(&mut self, payload: &[u8]) -> (frames: Result<Vec<Frame>, EncodeError>)
        requires
            old(self).wf(),
            old(self)@.has_room(payload@.len()),
        ensures
            final(self).wf(),
            fragment_count(payload@.len()) > MAX_FRAGMENTS ==> {
                &&& frames == Err::<Vec<Frame>, EncodeError>(EncodeError::DatagramTooLarge)
                &&& final(self)@ == old(self)@.numbered()
            },
            fragment_count(payload@.len()) <= MAX_FRAGMENTS ==> {
                let shards = shards_of(old(self)@.packet, payload@);
                &&& frames matches Ok(f) && frame_views(f@) == old(
                    self,
                )@.numbered().push_all_frames(shards)
                &&& old(self)@.numbered().pushes_coded(shards)
                &&& final(self)@ == old(self)@.numbered().pushed_all(shards)
            },
    {
        let ghost before = self@;
        let packet: u64 = self.packet;
        self.packet = self.packet + 1;
        let ghost start = self@;
        assert(start == before.numbered());
        let count: usize = count_fragments(payload.len());
        if count > MAX_FRAGMENTS {
            return Err(EncodeError::DatagramTooLarge);
        }
        let ghost shards = shards_of(packet as nat, payload@);
        let ghost per_group = DATA_SHARDS + group_parity(
            DATA_SHARDS as nat,
            start.adaptive.parity as nat,
        );
        let ghost groups = start.groups_filled(payload@.len());
        let mut frames: Vec<Frame> = Vec::new();
        let mut i: usize = 0;
        assert(shards.take(0) =~= Seq::<Seq<u8>>::empty());
        assert(frame_views(frames@) =~= start.push_all_frames(shards.take(0)));
        proof {
            let filled = (start.shards.len() + i) / DATA_SHARDS as int;
            assert(filled == 0);
            assert(filled * per_group == 0) by (nonlinear_arith)
                requires
                    filled == 0,
            ;
        }
        while i < count
            invariant
                i <= count,
                count == fragment_count(payload@.len()),
                count <= MAX_FRAGMENTS,
                shards == shards_of(packet as nat, payload@),
                start.wf(),
                self.wf(),
                self@ == start.pushed_all(shards.take(i as int)),
                frame_views(frames@) == start.push_all_frames(shards.take(i as int)),
                start.pushes_coded(shards.take(i as int)),
                self.adaptive == start.adaptive,
                per_group == DATA_SHARDS + group_parity(
                    DATA_SHARDS as nat,
                    start.adaptive.parity as nat,
                ),
                groups == (start.shards.len() + count) / DATA_SHARDS as int,
                self@.shards.len() == (start.shards.len() + i) % DATA_SHARDS as int,
                self@.group == start.group + (start.shards.len() + i) / DATA_SHARDS as int,
                self@.sequence == start.sequence + ((start.shards.len() + i)
                    / DATA_SHARDS as int) * per_group,
                start.sequence + groups * per_group <= u64::MAX,
                start.group + groups <= u64::MAX,
            decreases count - i,
        {
            let ghost pushed = self@;
            let ghost step = shards.take(i + 1);
            proof {
                assert(step.drop_last() =~= shards.take(i as int));
                assert(step.last() == shards[i as int]);
            }
            let shard: Vec<u8> = make_shard(packet, i, count, payload);
            assert(shard@ == shards[i as int]);
            self.shards.push(shard);
            assert(self@.shards =~= pushed.shards.push(shard@));
            assert(self@ == pushed.with_shard(shard@));
            let ghost filled = (start.shards.len() + i) / DATA_SHARDS as int;
            if self.shards.len() == DATA_SHARDS {
                proof {
                    assert(filled + 1 == (start.shards.len() + i + 1) / DATA_SHARDS as int);
                    assert(filled + 1 <= groups);
                    assert((filled + 1) * per_group <= groups * per_group && (filled + 1)
                        * per_group == filled * per_group + per_group) by (nonlinear_arith)
                        requires
                            filled + 1 <= groups,
                            0 <= per_group,
                    ;
                }
                let ghost had = frames@;
                match self.flush() {
                    Ok(mut more) => {
                        let ghost extra = more@;
                        frames.append(&mut more);
                        assert(frame_views(frames@) =~= frame_views(had) + frame_views(extra));
                    },
                    Err(e) => return Err(e),
                }
            } else {
                assert(frame_views(frames@) =~= start.push_all_frames(step));
            }
            i = i + 1;
        }
        assert(shards.take(i as int) =~= shards);
        Ok(frames)
    }
}

/// Every frame of a group fits into an Ethernet frame, even in a V3 envelope.
pub proof fn law_frames_fit(e: EncoderModel, i: int)
    requires
        e.flushable(),
        e.group_coded(),
        0 <= i < e.flush_frames().len(),
    ensures
        FRAGMENT_HEADER <= e.flush_frames()[i].payload.len() <= SHARD,
        e.flush_frames()[i].payload.len() + V3_OVERHEAD <= ETHERNET_PAYLOAD,
{
    lemma_padded_uniform(e.shards);
    let shards = e.group_shards();
    assert(shards[0] == padded_all(e.shards)[0]);
    assert(shards[i].len() == shards[0].len());
}

/// Redundancy is bounded: a group of `n` data frames comes with no more parity
/// frames than the most there can be, nor than `n + 1`, and with none at all as
/// long as the link loses nothing.
pub proof fn law_redundancy_is_bounded(e: EncoderModel)
    requires
        e.flushable(),
    ensures
        e.parity_now() <= MAX_PARITY,
        e.parity_now() <= e.shards.len() + 1,
        e.flush_frames().len() <= e.shards.len() + MAX_PARITY,
        e.adaptive.parity == 0 ==> e.flush_frames().len() == e.shards.len(),
{
    if e.shards.len() == DATA_SHARDS {
        let parity = e.adaptive.parity as int;
        assert((DATA_SHARDS * parity + DATA_SHARDS - 1) / (DATA_SHARDS as int) == parity);
    }
}

/// Redundancy is sent: a group comes with as many parity frames as the controller
/// holds, or with one more than it has data frames where that is fewer. So it outlives
/// the loss of that many frames, and of any one as soon as there is redundancy at all.
pub proof fn law_groups_come_with_their_redundancy(e: EncoderModel)
    requires
        e.flushable(),
        e.shards.len() > 0,
    ensures
        ({
            let data = e.shards.len();
            let frames = e.flush_frames();
            &&& e.adaptive.parity <= data + 1 ==> frames.len() == data + e.adaptive.parity
            &&& e.adaptive.parity > data + 1 ==> frames.len() == data + data + 1
            &&& e.adaptive.parity > 0 ==> frames.len() - 1 >= data
            &&& e.adaptive.parity > 1 ==> frames.len() - 2 >= data
            &&& forall|i: int|
                #![trigger frames[i]]
                0 <= i < frames.len() ==> frames[i].data == data && frames[i].parity
                    == frames.len() - data
        }),
{
    if e.shards.len() == 10 {
        let parity = e.adaptive.parity as int;
        assert((10 * parity + 9) / 10 == parity);
    }
}

/// The frames of a group bear the names of their sender, are numbered without a gap
/// where the last group ended, and carry their place in the group: data first, parity
/// behind.
pub proof fn law_frames_are_labelled(e: EncoderModel, i: int)
    requires
        e.flushable(),
        e.has_room_to_flush(),
        0 <= i < e.flush_frames().len(),
    ensures
        ({
            let f = e.flush_frames()[i];
            &&& f.version == e.version
            &&& f.key_id == e.key_id
            &&& f.session == e.session
            &&& f.sequence == e.sequence + i
            &&& f.group == e.group
            &&& f.index == i
            &&& f.kind == 1u8 <==> i < e.shards.len()
            &&& f.kind == 2u8 <==> i >= e.shards.len()
        }),
{
    law_redundancy_is_bounded(e);
}

/// A data frame carries its shard with zeros behind it, just as many as make it as
/// long as the longest of the group; and the parity frames are as long.
pub proof fn law_data_frames_carry_the_shards(e: EncoderModel, i: int, j: int)
    requires
        e.flushable(),
        e.group_coded(),
        0 <= i < e.shards.len(),
        0 <= j < e.flush_frames().len(),
    ensures
        ({
            let payload = e.flush_frames()[i].payload;
            &&& payload.len() == e.flush_frames()[j].payload.len()
            &&& payload.len() >= e.shards[i].len()
            &&& payload.take(e.shards[i].len() as int) == e.shards[i]
            &&& forall|k: int| e.shards[i].len() <= k < payload.len() ==> payload[k] == 0
            &&& exists|k: int|
                0 <= k < e.shards.len() && #[trigger] e.shards[k].len() == payload.len()
        }),
{
    lemma_padded_uniform(e.shards);
    let shards = e.group_shards();
    assert(shards[i] == padded_all(e.shards)[i]);
    assert(shards[0] == padded_all(e.shards)[0]);
    assert(shards[j].len() == shards[0].len());
    assert(e.flush_frames()[i].payload.take(e.shards[i].len() as int) =~= e.shards[i]);
    lemma_longest_is_one(e.shards);
}

/// The longest shard is one of the shards.
proof fn lemma_longest_is_one(shards: Seq<Seq<u8>>)
    requires
        shards.len() > 0,
        forall|i: int| 0 <= i < shards.len() ==> FRAGMENT_HEADER <= (#[trigger] shards[i]).len(),
    ensures
        exists|k: int| 0 <= k < shards.len() && #[trigger] shards[k].len() == longest(shards),
    decreases shards.len(),
{
    let rest = shards.drop_last();
    let n = shards.len() - 1;
    assert(shards.last() == shards[n]);
    if shards.last().len() <= longest(rest) {
        if rest.len() == 0 {
            assert(shards[n].len() == longest(shards));
        } else {
            assert forall|i: int| 0 <= i < rest.len() implies FRAGMENT_HEADER <= (
            #[trigger] rest[i]).len() by {
                assert(rest[i] == shards[i]);
            }
            lemma_longest_is_one(rest);
            let k = choose|k: int| 0 <= k < rest.len() && #[trigger] rest[k].len() == longest(rest);
            assert(shards[k] == rest[k]);
        }
    }
}

/// Sending a group empties it and goes on with the next number; the frame numbers go on
/// behind its last frame. Nothing else changes, and an empty group is not sent.
pub proof fn law_groups_follow_each_other(e: EncoderModel)
    ensures
        e.flushed().shards.len() == 0,
        e.shards.len() == 0 ==> e.flush_frames().len() == 0 && e.flushed() == e,
        e.shards.len() > 0 ==> e.flushed().group == e.group + 1 && e.flush_frames().len() > 0,
        e.flushed().sequence == e.sequence + e.flush_frames().len(),
        e.flushed().packet == e.packet,
        e.flushed().adaptive == e.adaptive,
        e.flushed().version == e.version && e.flushed().key_id == e.key_id && e.flushed().session
            == e.session,
{
}

/// A group is sent when its tenth shard comes, and not before.
pub proof fn law_groups_are_sent_when_full(e: EncoderModel, shard: Seq<u8>)
    requires
        e.wf(),
    ensures
        e.shards.len() < 9 ==> {
            &&& e.push_frames(shard).len() == 0
            &&& e.pushed(shard).shards == e.shards.push(shard)
            &&& e.pushed(shard).sequence == e.sequence
            &&& e.pushed(shard).group == e.group
        },
        e.shards.len() == 9 ==> {
            &&& e.push_frames(shard).len() == 10 + e.adaptive.parity
            &&& e.pushed(shard).shards.len() == 0
            &&& e.pushed(shard).sequence == e.sequence + 10 + e.adaptive.parity
            &&& e.pushed(shard).group == e.group + 1
        },
        e.pushed(shard).packet == e.packet && e.pushed(shard).adaptive == e.adaptive,
        e.pushed(shard).version == e.version && e.pushed(shard).key_id == e.key_id && e.pushed(
            shard,
        ).session == e.session,
{
    let parity = e.adaptive.parity as int;
    assert((10 * parity + 9) / 10 == parity);
}

/// Shards of lengths in order keep the encoder well-formed, whatever they fill.
proof fn lemma_pushed_all(e: EncoderModel, shards: Seq<Seq<u8>>)
    requires
        e.wf(),
        forall|i: int|
            0 <= i < shards.len() ==> FRAGMENT_HEADER <= (#[trigger] shards[i]).len() <= SHARD,
    ensures
        ({
            let after = e.pushed_all(shards);
            let groups = (e.shards.len() + shards.len()) / 10;
            &&& after.wf()
            &&& after.adaptive == e.adaptive
            &&& after.packet == e.packet
            &&& after.shards.len() == (e.shards.len() + shards.len()) % 10
            &&& after.group == e.group + groups
            &&& after.sequence == e.sequence + groups * (10 + e.adaptive.parity)
            &&& e.push_all_frames(shards).len() == groups * (10 + e.adaptive.parity)
        }),
    decreases shards.len(),
{
    let per_group = 10 + e.adaptive.parity;
    if shards.len() == 0 {
        assert(0 * per_group == 0);
    } else {
        let rest = shards.drop_last();
        assert forall|i: int| 0 <= i < rest.len() implies FRAGMENT_HEADER <= (
        #[trigger] rest[i]).len() <= SHARD by {
            assert(rest[i] == shards[i]);
        }
        lemma_pushed_all(e, rest);
        let before = e.pushed_all(rest);
        law_groups_are_sent_when_full(before, shards.last());
        let groups = (e.shards.len() + rest.len()) / 10;
        assert((groups + 1) * per_group == groups * per_group + per_group) by (nonlinear_arith);
        assert(shards.last() == shards[shards.len() - 1]);
    }
}

/// A datagram's shards are as long as shards are.
proof fn lemma_shards_of(packet: nat, payload: Seq<u8>)
    ensures
        forall|i: int|
            0 <= i < shards_of(packet, payload).len() ==> FRAGMENT_HEADER <= (#[trigger] shards_of(
                packet,
                payload,
            )[i]).len() <= SHARD,
{
    assert forall|i: int| 0 <= i < shards_of(packet, payload).len() implies FRAGMENT_HEADER <= (
    #[trigger] shards_of(packet, payload)[i]).len() <= SHARD by {
        law_datagrams_are_cut_up(packet, payload, i);
    }
}

/// A datagram makes as few parts as hold it, at least one, and each part is full but
/// for the last.
pub proof fn law_parts_are_few(len: nat)
    ensures
        fragment_count(len) >= 1,
        len <= 1366 * fragment_count(len),
        len > 0 ==> 1366 * (fragment_count(len) - 1) < len,
        len == 0 ==> fragment_count(len) == 1,
{
}

/// A datagram is cut up from its start: part `i` holds its bytes from `1366 * i` on, up
/// to the next part, and before them says in fourteen bytes which datagram it is of, which
/// part it is, of how many, and how long it is.
pub proof fn law_datagrams_are_cut_up(packet: nat, payload: Seq<u8>, i: int)
    requires
        0 <= i < shards_of(packet, payload).len(),
    ensures
        ({
            let count = shards_of(packet, payload).len();
            let shard = shards_of(packet, payload)[i];
            let part = shard.skip(14);
            &&& count == fragment_count(payload.len())
            &&& 14 <= shard.len() <= 1380
            &&& i < count - 1 ==> part.len() == 1366
            &&& i == count - 1 ==> part.len() == payload.len() - 1366 * i
            &&& part == payload.subrange(1366 * i, 1366 * i + part.len())
            &&& packet <= u64::MAX ==> wire::be_value(shard.subrange(0, 8)) == packet
            &&& count <= 65_535 ==> wire::be_value(shard.subrange(8, 10)) == i
            &&& count <= 65_535 ==> wire::be_value(shard.subrange(10, 12)) == count
            &&& wire::be_value(shard.subrange(12, 14)) == part.len()
        }),
{
    let count = fragment_count(payload.len());
    let shard = shards_of(packet, payload)[i];
    let chunk = chunk_of(payload, i);
    law_parts_are_few(payload.len());
    wire::lemma_byte_bounds();
    wire::lemma_be_len(packet, 8);
    wire::lemma_be_len(i as nat, 2);
    wire::lemma_be_len(count, 2);
    wire::lemma_be_len(chunk.len(), 2);
    assert(shard.skip(14) =~= chunk);
    assert(shard.subrange(0, 8) =~= wire::be(packet, 8));
    assert(shard.subrange(8, 10) =~= wire::be(i as nat, 2));
    assert(shard.subrange(10, 12) =~= wire::be(count, 2));
    assert(shard.subrange(12, 14) =~= wire::be(chunk.len(), 2));
    if packet <= u64::MAX {
        wire::lemma_be_round_trip(packet, 8);
    }
    if count <= 65_535 {
        wire::lemma_be_round_trip(i as nat, 2);
        wire::lemma_be_round_trip(count, 2);
    }
    wire::lemma_be_round_trip(chunk.len(), 2);
}

/// A datagram adds one to the number of datagrams and its parts to the shards: each ten
/// of them go out as a group, and the rest wait for the next.
pub proof fn law_datagrams_fill_groups(e: EncoderModel, payload: Seq<u8>)
    requires
        e.wf(),
    ensures
        ({
            let shards = shards_of(e.packet, payload);
            let after = e.numbered().pushed_all(shards);
            let all = e.shards.len() + fragment_count(payload.len());
            &&& after.packet == e.packet + 1
            &&& after.shards.len() == all % 10
            &&& after.group == e.group + all / 10
            &&& after.sequence == e.sequence + (all / 10) * (10 + e.adaptive.parity)
            &&& e.numbered().push_all_frames(shards).len() == (all / 10) * (10 + e.adaptive.parity)
            &&& after.adaptive == e.adaptive
        }),
{
    lemma_shards_of(e.packet, payload);
    lemma_pushed_all(e.numbered(), shards_of(e.packet, payload));
}

/// There is room for a datagram if and only if no counter that it moves runs over. One that
/// is cut up into more than 65,535 parts is not sent, and moves the first counter alone.
pub proof fn law_room_is_what_the_counters_need(e: EncoderModel, payload: Seq<u8>)
    requires
        e.wf(),
    ensures
        ({
            let after = e.numbered().pushed_all(shards_of(e.packet, payload));
            let sent = fragment_count(payload.len()) <= 65_535;
            e.has_room(payload.len()) <==> after.packet <= u64::MAX && (sent ==> after.sequence
                <= u64::MAX && after.group <= u64::MAX)
        }),
        e.has_room_to_flush() <==> (e.shards.len() > 0 ==> e.flushed().sequence <= u64::MAX
            && e.flushed().group <= u64::MAX),
{
    law_datagrams_fill_groups(e, payload);
    let parity = e.adaptive.parity as int;
    assert((10 * parity + 9) / 10 == parity);
}

/// A report is one frame of its own, with the next number, and its four bytes give the
/// loss back. It belongs to no group and moves nothing but the number.
pub proof fn law_reports_say_the_loss(e: EncoderModel, loss_ppm: u32)
    requires
        e.sequence <= u64::MAX,
    ensures
        ({
            let f = e.loss_frame(loss_ppm);
            &&& f.version == e.version
            &&& f.key_id == e.key_id
            &&& f.session == e.session
            &&& f.sequence == e.sequence
            &&& f.kind == 3
            &&& f.group == 0
            &&& f.index == 0
            &&& f.data == 0
            &&& f.parity == 0
            &&& f.payload.len() == 4
            &&& wire::be_value(f.payload) == loss_ppm
        }),
        e.counted().sequence == e.sequence + 1,
        e.counted() == (EncoderModel { sequence: e.counted().sequence, ..e }),
{
    wire::lemma_byte_bounds();
    wire::lemma_be_len(loss_ppm as nat, 4);
    wire::lemma_be_round_trip(loss_ppm as nat, 4);
}

/// An encoder starts with number one everywhere, nothing to send and no redundancy.
pub proof fn law_encoders_start_empty(session: u64, version: u8, key_id: u64)
    ensures
        ({
            let e = EncoderModel::fresh(session, version, key_id);
            &&& e.session == session
            &&& e.version == version
            &&& e.key_id == key_id
            &&& e.sequence == 1
            &&& e.packet == 1
            &&& e.group == 1
            &&& e.shards.len() == 0
            &&& e.adaptive.parity == 0
            &&& e.adaptive.smoothed_loss_ppm == 0
            &&& e.adaptive.bad == 0
            &&& e.adaptive.good == 0
        }),
{
}

/// An encoder and the frames that it sends are seen as they are.
pub proof fn law_encoders_are_seen_as_they_are(e: Encoder, frames: Seq<Frame>)
    ensures
        e@.version == e.version,
        e@.key_id == e.key_id,
        e@.session == e.session,
        e@.sequence == e.sequence,
        e@.packet == e.packet,
        e@.group == e.group,
        e@.adaptive == e.adaptive,
        e@.shards.len() == e.shards@.len(),
        forall|i: int| 0 <= i < e.shards@.len() ==> #[trigger] e@.shards[i] == e.shards@[i]@,
        frame_views(frames).len() == frames.len(),
        forall|i: int| 0 <= i < frames.len() ==> #[trigger] frame_views(frames)[i] == frames[i]@,
{
}

/// A group that is sent with any redundancy outlives the loss of any one frame: of the
/// frames that are left there are as many as it has data shards.
pub proof fn law_groups_outlive_one_loss(e: EncoderModel, lost: int, slots: Seq<Option<Seq<u8>>>)
    requires
        e.flushable(),
        e.shards.len() > 0,
        e.adaptive.parity > 0,
        slots.len() == e.flush_frames().len(),
        forall|i: int|
            0 <= i < slots.len() && i != lost ==> #[trigger] slots[i] == Some(
                e.flush_frames()[i].payload,
            ),
    ensures
        erasure::present(slots) >= e.shards.len(),
{
    law_groups_come_with_their_redundancy(e);
    erasure::law_present_counts_the_filled(slots);
    let n = slots.len() as int;
    let left = vstd::set_lib::set_int_range(0, n).remove(lost);
    vstd::set_lib::lemma_int_range(0, n);
    assert(left.len() >= n - 1);
    assert(left.subset_of(erasure::filled_places(slots)));
    vstd::set_lib::lemma_len_subset(left, erasure::filled_places(slots));
}

/// What a call that sends a group gives: every frame of it, with as much redundancy as the
/// controller holds, and an empty group after it. It does not fail.
pub proof fn law_flushing_sends_everything(
    e: &mut Encoder,
    frames: Result<Vec<Frame>, EncodeError>,
    i: int,
)
    requires
        old(e)@.flushable(),
        old(e)@.has_room_to_flush(),
        call_ensures(Encoder::flush, (e,), frames),
    ensures
        ({
            let data = old(e).shards@.len();
            let parity = old(e).adaptive.parity;
            &&& frames matches Ok(list)
            &&& data == 0 ==> list@.len() == 0
            &&& data > 0 && parity <= data + 1 ==> list@.len() == data + parity
            &&& data > 0 && parity > data + 1 ==> list@.len() == data + data + 1
            &&& final(e).shards@.len() == 0
            &&& final(e).sequence == old(e).sequence + list@.len()
            &&& 0 <= i < data ==> list@[i].payload@.len() >= old(e).shards@[i]@.len()
            &&& 0 <= i < data ==> list@[i].payload@.take(old(e).shards@[i]@.len() as int)
                == old(e).shards@[i]@
            &&& 0 <= i < list@.len() ==> {
                &&& list@[i].session == old(e).session
                &&& list@[i].sequence == old(e).sequence + i
                &&& list@[i].group == old(e).group
                &&& list@[i].index == i
            }
        }),
{
    let before = old(e)@;
    law_groups_follow_each_other(before);
    law_encoders_are_seen_as_they_are(*old(e), Seq::empty());
    if before.shards.len() > 0 {
        law_groups_come_with_their_redundancy(before);
    }
    match frames {
        Ok(list) => {
            if 0 <= i < list@.len() {
                law_frames_are_labelled(before, i);
                assert(frame_views(list@)[i] == list@[i]@);
            }
            if 0 <= i < before.shards.len() {
                law_data_frames_carry_the_shards(before, i, i);
                assert(before.shards[i] == old(e).shards@[i]@);
            }
            assert(final(e)@.shards.len() == final(e).shards@.len());
        },
        Err(_) => {},
    }
}

/// What a call that encodes a datagram gives: an error, and nothing but its number, where
/// it has more than 65,535 parts; and else the frames of as many groups as it fills.
pub proof fn law_encoding_sends_full_groups(
    e: &mut Encoder,
    payload: &[u8],
    frames: Result<Vec<Frame>, EncodeError>,
)
    requires
        old(e).wf(),
        call_ensures(Encoder::encode_datagram, (e, payload), frames),
    ensures
        ({
            let count = fragment_count(payload@.len());
            let all = old(e).shards@.len() + count;
            let per_group = 10 + old(e).adaptive.parity;
            &&& final(e).packet == old(e).packet + 1
            &&& count > 65_535 ==> {
                &&& frames == Err::<Vec<Frame>, EncodeError>(EncodeError::DatagramTooLarge)
                &&& final(e).sequence == old(e).sequence
                &&& final(e)@.shards == old(e)@.shards
            }
            &&& count <= 65_535 ==> {
                &&& frames matches Ok(list)
                &&& list@.len() == (all / 10) * per_group
                &&& final(e).sequence == old(e).sequence + list@.len()
                &&& final(e).shards@.len() == all % 10
            }
        }),
{
    law_datagrams_fill_groups(old(e)@, payload@);
    law_encoders_are_seen_as_they_are(*old(e), Seq::empty());
    law_encoders_are_seen_as_they_are(*final(e), Seq::empty());
    match frames {
        Ok(list) => {
            law_encoders_are_seen_as_they_are(*old(e), list@);
        },
        Err(_) => {},
    }
}

} // verus!
