//! What an encoder sends is what a decoder gives back.

use crate::decoder::{self, GROUP_TTL, MAX_GROUPS, MAX_PARTS};
use crate::delivery::{self, Reception, SentGroup, Traffic};
use crate::encoder::{self, EncoderModel, CHUNK, DATA_SHARDS, FRAGMENT_HEADER, SHARD};
use crate::erasure;
use crate::frame::{FrameModel, KIND_REPORT};
use crate::wire;
use vstd::prelude::*;

verus! {

/// What the owner of an encoder does with it.
pub enum Action {
    /// Sends a datagram.
    Send(Seq<u8>),
    /// Sends the group being filled.
    Flush,
    /// Reports a loss to the peer.
    Report(u32),
    /// Takes a loss report of the peer.
    Hear(u32),
}

/// What has become of an encoder: where it stands, the frames that it sent, and what
/// they carry.
pub struct Log {
    pub now: EncoderModel,
    pub frames: Seq<FrameModel>,
    pub traffic: Traffic,
}

impl Log {
    /// Nothing has been done yet.
    pub open spec fn fresh(e: EncoderModel) -> Log {
        Log {
            now: e,
            frames: Seq::empty(),
            traffic: Traffic {
                session: e.session,
                groups: Map::empty(),
                datagrams: Map::empty(),
            },
        }
    }

    /// The group being filled, as it is sent now.
    pub open spec fn group_now(self) -> SentGroup {
        SentGroup {
            data: encoder::padded_all(self.now.shards),
            parity: self.now.parity_now(),
        }
    }

    /// After sending the group being filled.
    pub open spec fn flushed(self) -> Log {
        if self.now.shards.len() == 0 {
            self
        } else {
            Log {
                now: self.now.flushed(),
                frames: self.frames + self.now.flush_frames(),
                traffic: Traffic {
                    groups: self.traffic.groups.insert(self.now.group as u64, self.group_now()),
                    ..self.traffic
                },
            }
        }
    }

    /// With one more shard in the group being filled.
    pub open spec fn with_shard(self, shard: Seq<u8>) -> Log {
        Log { now: self.now.with_shard(shard), ..self }
    }

    /// After one more shard, which sends the group once it is full.
    pub open spec fn pushed(self, shard: Seq<u8>) -> Log {
        if self.now.shards.len() + 1 == DATA_SHARDS {
            self.with_shard(shard).flushed()
        } else {
            self.with_shard(shard)
        }
    }

    /// After all of `shards`, the first one first.
    pub open spec fn pushed_all(self, shards: Seq<Seq<u8>>) -> Log
        decreases shards.len(),
    {
        if shards.len() == 0 {
            self
        } else {
            self.pushed_all(shards.drop_last()).pushed(shards.last())
        }
    }

    /// Once a datagram has its number.
    pub open spec fn numbered(self, payload: Seq<u8>) -> Log {
        Log {
            now: self.now.numbered(),
            traffic: Traffic {
                datagrams: self.traffic.datagrams.insert(self.now.packet as u64, payload),
                ..self.traffic
            },
            ..self
        }
    }

    /// After a datagram is sent.
    pub open spec fn sent(self, payload: Seq<u8>) -> Log {
        let shards = encoder::shards_of(self.now.packet, payload);
        Log {
            now: self.now.numbered().pushed_all(shards),
            frames: self.frames + self.now.numbered().push_all_frames(shards),
            traffic: self.numbered(payload).pushed_all(shards).traffic,
        }
    }

    /// After an action.
    pub open spec fn acted(self, action: Action) -> Log {
        match action {
            Action::Send(payload) => self.sent(payload),
            Action::Flush => self.flushed(),
            Action::Report(loss) => Log {
                now: self.now.counted(),
                frames: self.frames.push(self.now.loss_frame(loss)),
                ..self
            },
            Action::Hear(loss) => Log { now: self.now.heard(loss), ..self },
        }
    }

    /// That the parity shards of every group that an action sends are as many and as
    /// long as they should be.
    pub open spec fn acts_coded(self, action: Action) -> bool {
        match action {
            Action::Send(payload) => self.now.numbered().pushes_coded(
                encoder::shards_of(self.now.packet, payload),
            ),
            Action::Flush => self.now.group_coded(),
            _ => true,
        }
    }
}

/// What becomes of an encoder by `actions`, the first one first.
pub open spec fn log_of(e: EncoderModel, actions: Seq<Action>) -> Log
    decreases actions.len(),
{
    if actions.len() == 0 {
        Log::fresh(e)
    } else {
        log_of(e, actions.drop_last()).acted(actions.last())
    }
}

/// That the parity shards of every group that `actions` send are as many and as long
/// as they should be.
pub open spec fn all_coded(e: EncoderModel, actions: Seq<Action>) -> bool
    decreases actions.len(),
{
    actions.len() > 0 ==> {
        &&& all_coded(e, actions.drop_last())
        &&& log_of(e, actions.drop_last()).acts_coded(actions.last())
    }
}

/// Whether no datagram has more parts than a decoder puts together.
pub open spec fn parts_in_bounds(actions: Seq<Action>) -> bool {
    forall|k: int|
        0 <= k < actions.len() ==> match #[trigger] actions[k] {
            Action::Send(payload) => encoder::fragment_count(payload.len()) <= MAX_PARTS,
            _ => true,
        }
}

/// Whether the counters are in range.
pub open spec fn counters_in_bounds(e: EncoderModel) -> bool {
    &&& e.sequence <= u64::MAX
    &&& e.packet <= u64::MAX
    &&& e.group <= u64::MAX
}

/// Whether the datagrams are no longer than a decoder puts together, and the counters
/// have room.
pub open spec fn in_bounds(e: EncoderModel, actions: Seq<Action>) -> bool {
    let last = log_of(e, actions).now;
    &&& e.wf()
    &&& e.shards.len() == 0
    &&& e.sequence > 0
    &&& parts_in_bounds(actions)
    &&& counters_in_bounds(last)
}

/// Which part of which datagram a shard holds.
spec fn mark_of(shard: Seq<u8>) -> (u64, nat) {
    let f = decoder::fragment_model(shard)->0;
    (f.packet, f.index)
}

/// Whether a shard holds a part of one of the datagrams.
spec fn holds_part(t: Traffic, shard: Seq<u8>) -> bool {
    let f = decoder::fragment_model(shard)->0;
    &&& decoder::fragment_model(shard) is Some
    &&& t.datagrams.contains_key(f.packet)
    &&& f.count == t.parts(f.packet)
    &&& f.chunk == encoder::chunk_of(t.datagrams[f.packet], f.index as int)
}

/// Whether there is a shard `i` in group `g`, sent or being filled.
spec fn has_place(log: Log, g: u64, i: int) -> bool {
    if g == log.now.group {
        0 <= i < log.now.shards.len()
    } else {
        log.traffic.has_shard(g, i)
    }
}

/// Data shard `i` of group `g`, sent or being filled.
spec fn shard_at(log: Log, g: u64, i: int) -> Seq<u8> {
    if g == log.now.group {
        log.now.shards[i]
    } else {
        log.traffic.groups[g].data[i]
    }
}

/// Whether one comes before the other: in a group or datagram before that of the other,
/// or before it in the same one.
spec fn precedes(a: (u64, int), b: (u64, int)) -> bool {
    a.0 < b.0 || a.0 == b.0 && a.1 < b.1
}

/// Whether the part that one shard holds comes before that of another.
spec fn part_precedes(a: Seq<u8>, b: Seq<u8>) -> bool {
    precedes((mark_of(a).0, mark_of(a).1 as int), (mark_of(b).0, mark_of(b).1 as int))
}

/// What every action keeps.
spec fn in_order(log: Log, e: EncoderModel) -> bool {
    let now = log.now;
    let t = log.traffic;
    &&& now.flushable()
    &&& now.session == e.session
    &&& t.session == e.session
    &&& e.packet <= now.packet
    &&& e.group <= now.group
    &&& now.sequence == e.sequence + log.frames.len()
    &&& forall|g: u64| #[trigger] t.groups.contains_key(g) <==> e.group <= g < now.group
    &&& forall|g: u64| #[trigger] t.groups.contains_key(g) ==> t.groups[g].wf()
    &&& forall|p: u64| #[trigger] t.datagrams.contains_key(p) <==> e.packet <= p < now.packet
    &&& forall|g: u64, i: int| #[trigger]
        has_place(log, g, i) ==> holds_part(t, shard_at(log, g, i))
    &&& forall|g: u64, i: int, h: u64, j: int| #[trigger]
        has_place(log, g, i) && #[trigger] has_place(log, h, j) && precedes((g, i), (h, j))
            ==> part_precedes(shard_at(log, g, i), shard_at(log, h, j))
}

/// Whether the frames of groups come in the order of their places.
spec fn frames_sorted(frames: Seq<FrameModel>) -> bool {
    forall|j: int, k: int|
        0 <= j < k < frames.len() && (#[trigger] frames[j]).kind != KIND_REPORT && (
        #[trigger] frames[k]).kind != KIND_REPORT ==> precedes(
            (frames[j].group, frames[j].index as int),
            (frames[k].group, frames[k].index as int),
        )
}

/// Whether frame number `k` is the one of shard `i` of group `g`.
spec fn is_frame(frames: Seq<FrameModel>, k: int, g: u64, i: int) -> bool {
    &&& 0 <= k < frames.len()
    &&& frames[k].kind != KIND_REPORT
    &&& frames[k].group == g
    &&& frames[k].index == i
}

/// Whether there is a frame for shard `i` of group `g`.
spec fn framed(frames: Seq<FrameModel>, g: u64, i: int) -> bool {
    exists|k: int| #[trigger] is_frame(frames, k, g, i)
}

/// Whether there is a frame for every shard of every group.
spec fn all_framed(frames: Seq<FrameModel>, groups: Map<u64, SentGroup>) -> bool {
    forall|g: u64, i: int|
        groups.contains_key(g) && 0 <= i < groups[g].word().len() ==> #[trigger] framed(
            frames,
            g,
            i,
        )
}

/// Whether every frame is of the traffic or a loss report, and numbered one by one, and
/// all shards of all groups have their frames, one after the other.
spec fn frames_in_order(log: Log, e: EncoderModel) -> bool {
    &&& forall|k: int|
        0 <= k < log.frames.len() ==> {
            &&& log.traffic.carries(#[trigger] log.frames[k]) || log.traffic.reports(log.frames[k])
            &&& log.frames[k].sequence == e.sequence + k
        }
    &&& frames_sorted(log.frames)
    &&& all_framed(log.frames, log.traffic.groups)
}

/// Whether part `x` of datagram `p` has a place.
spec fn placed(log: Log, p: u64, x: nat) -> bool {
    exists|g: u64, i: int| #[trigger] has_place(log, g, i) && mark_of(shard_at(log, g, i)) == (p, x)
}

/// Whether every part has a place, but for those of datagram `p` from the `n`th on.
spec fn placed_up_to(log: Log, p: u64, n: nat) -> bool {
    forall|q: u64, x: nat|
        log.traffic.datagrams.contains_key(q) && x < log.traffic.parts(q) && (q == p ==> x < n)
            ==> #[trigger] placed(log, q, x)
}

/// Whether no part of datagram `p` from the `n`th on has a place.
spec fn unplaced_from(log: Log, p: u64, n: nat) -> bool {
    forall|g: u64, i: int| #[trigger]
        has_place(log, g, i) && mark_of(shard_at(log, g, i)).0 == p ==> mark_of(
            shard_at(log, g, i),
        ).1 < n
}

/// Whether every part has a place.
spec fn all_placed(log: Log) -> bool {
    forall|q: u64, x: nat|
        log.traffic.datagrams.contains_key(q) && x < log.traffic.parts(q) ==> #[trigger] placed(
            log,
            q,
            x,
        )
}

/// A part is no longer than a part may be.
proof fn lemma_chunk_len(payload: Seq<u8>, x: nat)
    requires
        x < encoder::fragment_count(payload.len()),
    ensures
        encoder::chunk_of(payload, x as int).len() <= CHUNK,
{
}

/// What a decoder reads in a shard is what the encoder wrote.
proof fn lemma_shard_reads_back(packet: nat, index: nat, count: nat, chunk: Seq<u8>)
    requires
        packet <= u64::MAX,
        index < count <= MAX_PARTS,
        chunk.len() <= CHUNK,
    ensures
        encoder::shard_of(packet, index, count, chunk).len() == FRAGMENT_HEADER + chunk.len(),
        decoder::fragment_model(encoder::shard_of(packet, index, count, chunk)) == Some(
            decoder::FragmentModel { packet: packet as u64, index, count, chunk },
        ),
{
    broadcast use wire::lemma_be_len;

    wire::lemma_byte_bounds();
    wire::lemma_be_round_trip(packet, 8);
    wire::lemma_be_round_trip(index, 2);
    wire::lemma_be_round_trip(count, 2);
    wire::lemma_be_round_trip(chunk.len(), 2);
    let shard = encoder::shard_of(packet, index, count, chunk);
    assert(shard.subrange(0, 8) =~= wire::be(packet, 8));
    assert(shard.subrange(8, 10) =~= wire::be(index, 2));
    assert(shard.subrange(10, 12) =~= wire::be(count, 2));
    assert(shard.subrange(12, 14) =~= wire::be(chunk.len(), 2));
    assert(shard.subrange(FRAGMENT_HEADER as int, FRAGMENT_HEADER + chunk.len()) =~= chunk);
}

/// A decoder reads the same in a shard that is padded.
proof fn lemma_padding_is_ignored(shard: Seq<u8>, len: nat)
    requires
        decoder::fragment_model(shard) is Some,
        shard.len() <= len <= SHARD,
    ensures
        decoder::fragment_model(encoder::padded(shard, len)) == decoder::fragment_model(shard),
{
    let full = encoder::padded(shard, len);
    let chunk_len = wire::be_value(shard.subrange(12, 14));
    assert(full.subrange(0, 8) =~= shard.subrange(0, 8));
    assert(full.subrange(8, 10) =~= shard.subrange(8, 10));
    assert(full.subrange(10, 12) =~= shard.subrange(10, 12));
    assert(full.subrange(12, 14) =~= shard.subrange(12, 14));
    assert(full.subrange(FRAGMENT_HEADER as int, FRAGMENT_HEADER + chunk_len) =~= shard.subrange(
        FRAGMENT_HEADER as int,
        FRAGMENT_HEADER + chunk_len,
    ));
}

/// The group being filled can be taken by a decoder once it is sent.
proof fn lemma_group_now(log: Log)
    requires
        log.now.flushable(),
        log.now.shards.len() > 0,
        log.now.group_coded(),
    ensures
        log.group_now().wf(),
        log.group_now().data.len() == log.now.shards.len(),
        log.group_now().word() == log.now.group_shards(),
{
    encoder::lemma_padded_uniform(log.now.shards);
    let sent = log.group_now();
    assert(sent.word()[0] == sent.data[0]);
}

/// Sending the group being filled moves no shard and changes no mark.
proof fn lemma_flush_keeps_places(log: Log, e: EncoderModel, g: u64, i: int)
    requires
        in_order(log, e),
        log.now.group < u64::MAX,
    ensures
        has_place(log.flushed(), g, i) == has_place(log, g, i),
        has_place(log, g, i) ==> decoder::fragment_model(shard_at(log.flushed(), g, i))
            == decoder::fragment_model(shard_at(log, g, i)),
{
    if log.now.shards.len() > 0 {
        let after = log.flushed();
        encoder::lemma_padded_uniform(log.now.shards);
        assert(log.traffic.groups.contains_key(g) <==> e.group <= g < log.now.group);
        if g == log.now.group && 0 <= i < log.now.shards.len() {
            assert(has_place(log, g, i));
            assert(after.traffic.groups[g].data[i] == encoder::padded(
                log.now.shards[i],
                encoder::longest(log.now.shards),
            ));
            lemma_padding_is_ignored(log.now.shards[i], encoder::longest(log.now.shards));
        }
    }
}

/// Sending the group being filled leaves all in order.
proof fn lemma_flush(log: Log, e: EncoderModel)
    requires
        in_order(log, e),
        frames_in_order(log, e),
        log.now.group_coded(),
        counters_in_bounds(log.flushed().now),
    ensures
        in_order(log.flushed(), e),
        frames_in_order(log.flushed(), e),
        log.flushed().now.wf(),
        forall|p: u64, x: nat| #[trigger]
            placed(log, p, x) ==> placed(log.flushed(), p, x),
        forall|p: u64, n: nat| #[trigger]
            unplaced_from(log, p, n) ==> unplaced_from(log.flushed(), p, n),
{
    if log.now.shards.len() > 0 {
        let after = log.flushed();
        lemma_group_now(log);
        assert forall|g: u64, i: int| #[trigger] has_place(after, g, i) implies {
            &&& has_place(log, g, i)
            &&& decoder::fragment_model(shard_at(after, g, i)) == decoder::fragment_model(
                shard_at(log, g, i),
            )
        } by {
            lemma_flush_keeps_places(log, e, g, i);
        }
        assert forall|g: u64, i: int| #[trigger] has_place(log, g, i) implies {
            &&& has_place(after, g, i)
            &&& decoder::fragment_model(shard_at(after, g, i)) == decoder::fragment_model(
                shard_at(log, g, i),
            )
        } by {
            lemma_flush_keeps_places(log, e, g, i);
        }
        assert(after.traffic.datagrams == log.traffic.datagrams);
        assert forall|g: u64| #[trigger]
            after.traffic.groups.contains_key(g) <==> e.group <= g < after.now.group by {
            assert(log.traffic.groups.contains_key(g) <==> e.group <= g < log.now.group);
        }
        assert forall|g: u64| #[trigger]
            after.traffic.groups.contains_key(g) implies after.traffic.groups[g].wf() by {
            if g != log.now.group {
                assert(log.traffic.groups.contains_key(g));
            }
        }
        lemma_flush_frames(log, e);
        assert forall|p: u64, x: nat| #[trigger] placed(log, p, x) implies placed(after, p, x) by {
            let (g, i) = choose|g: u64, i: int| #[trigger]
                has_place(log, g, i) && mark_of(shard_at(log, g, i)) == (p, x);
            assert(has_place(after, g, i));
        }
    }
}

/// Sending the group being filled leaves the frames in order.
proof fn lemma_flush_frames(log: Log, e: EncoderModel)
    requires
        in_order(log, e),
        frames_in_order(log, e),
        log.now.shards.len() > 0,
        log.now.group_coded(),
        counters_in_bounds(log.flushed().now),
    ensures
        frames_in_order(log.flushed(), e),
        log.flushed().now.sequence == e.sequence + log.flushed().frames.len(),
{
    let after = log.flushed();
    let now = log.now;
    lemma_group_now(log);
    assert(now.parity_now() <= 3);
    assert forall|k: int| 0 <= k < after.frames.len() implies {
        &&& after.traffic.carries(#[trigger] after.frames[k]) || after.traffic.reports(
            after.frames[k],
        )
        &&& after.frames[k].sequence == e.sequence + k
    } by {
        if k < log.frames.len() {
            let f = log.frames[k];
            assert(after.frames[k] == f);
            if log.traffic.carries(f) {
                assert(log.traffic.groups.contains_key(f.group));
                assert(f.group != now.group);
                assert(after.traffic.groups[f.group] == log.traffic.groups[f.group]);
            }
        } else {
            let i = k - log.frames.len();
            let f = now.group_frame(i);
            assert(after.frames[k] == f);
            assert(f.payload == log.group_now().word()[i]);
            assert(after.traffic.groups[f.group] == log.group_now());
        }
    }
    assert forall|j: int, k: int|
        0 <= j < k < after.frames.len() && (#[trigger] after.frames[j]).kind != KIND_REPORT && (
        #[trigger] after.frames[k]).kind != KIND_REPORT implies precedes(
        (after.frames[j].group, after.frames[j].index as int),
        (after.frames[k].group, after.frames[k].index as int),
    ) by {
        if k < log.frames.len() {
            assert(log.frames[j] == after.frames[j] && log.frames[k] == after.frames[k]);
        } else {
            assert(after.frames[k] == now.group_frame(k - log.frames.len()));
            if j < log.frames.len() {
                assert(log.frames[j] == after.frames[j]);
                assert(log.traffic.carries(log.frames[j]));
                assert(log.traffic.groups.contains_key(log.frames[j].group));
            } else {
                assert(after.frames[j] == now.group_frame(j - log.frames.len()));
            }
        }
    }
    assert forall|g: u64, i: int|
        after.traffic.groups.contains_key(g) && 0 <= i
            < after.traffic.groups[g].word().len() implies #[trigger] framed(
        after.frames,
        g,
        i,
    ) by {
        if g == now.group {
            assert(after.frames[log.frames.len() + i] == now.group_frame(i));
            assert(is_frame(after.frames, log.frames.len() + i, g, i));
        } else {
            assert(framed(log.frames, g, i));
            let k = choose|k: int| #[trigger] is_frame(log.frames, k, g, i);
            assert(after.frames[k] == log.frames[k]);
            assert(is_frame(after.frames, k, g, i));
        }
    }
}

/// Adding the next part of datagram `p` leaves all in order.
proof fn lemma_with_shard(log: Log, e: EncoderModel, p: u64, n: nat, shard: Seq<u8>)
    requires
        in_order(log, e),
        frames_in_order(log, e),
        log.now.wf(),
        counters_in_bounds(log.now),
        holds_part(log.traffic, shard),
        FRAGMENT_HEADER <= shard.len() <= SHARD,
        mark_of(shard) == (p, n),
        log.now.packet == p + 1,
        unplaced_from(log, p, n),
        placed_up_to(log, p, n),
    ensures
        in_order(log.with_shard(shard), e),
        frames_in_order(log.with_shard(shard), e),
        unplaced_from(log.with_shard(shard), p, n + 1),
        placed_up_to(log.with_shard(shard), p, n + 1),
{
    let after = log.with_shard(shard);
    let here = log.now.group as u64;
    let last = log.now.shards.len() as int;
    assert forall|g: u64, i: int| #[trigger] has_place(after, g, i) implies {
        ||| g == here && i == last && shard_at(after, g, i) == shard
        ||| has_place(log, g, i) && shard_at(after, g, i) == shard_at(log, g, i)
    } by {}
    assert forall|g: u64, i: int| #[trigger] has_place(log, g, i) implies has_place(after, g, i)
        && shard_at(after, g, i) == shard_at(log, g, i) by {}
    assert forall|i: int| 0 <= i < after.now.shards.len() implies FRAGMENT_HEADER <= (
    #[trigger] after.now.shards[i]).len() <= SHARD by {
        if i < last {
            assert(after.now.shards[i] == log.now.shards[i]);
        }
    }
    assert forall|g: u64, i: int, h: u64, j: int| #[trigger]
        has_place(after, g, i) && #[trigger] has_place(after, h, j) && precedes(
            (g, i),
            (h, j),
        ) implies part_precedes(shard_at(after, g, i), shard_at(after, h, j)) by {
        assert(g <= here && h <= here) by {
            assert(has_place(log, g, i) && g != here ==> log.traffic.groups.contains_key(g));
            assert(has_place(log, h, j) && h != here ==> log.traffic.groups.contains_key(h));
        }
        assert(has_place(log, g, i));
        if !has_place(log, h, j) {
            assert(holds_part(log.traffic, shard_at(log, g, i)));
            assert(log.traffic.datagrams.contains_key(mark_of(shard_at(log, g, i)).0));
        }
    }
    assert forall|q: u64, x: nat|
        after.traffic.datagrams.contains_key(q) && x < after.traffic.parts(q) && (q == p ==> x < n
            + 1) implies #[trigger] placed(after, q, x) by {
        if q == p && x == n {
            assert(has_place(after, here, last));
        } else {
            assert(placed(log, q, x));
            let (g, i) = choose|g: u64, i: int| #[trigger]
                has_place(log, g, i) && mark_of(shard_at(log, g, i)) == (q, x);
            assert(has_place(after, g, i));
        }
    }
}

/// Counters only grow.
proof fn lemma_push_grows(e: EncoderModel, shards: Seq<Seq<u8>>)
    ensures
        e.pushed_all(shards).sequence >= e.sequence,
        e.pushed_all(shards).group >= e.group,
        e.pushed_all(shards).packet == e.packet,
    decreases shards.len(),
{
    if shards.len() > 0 {
        lemma_push_grows(e, shards.drop_last());
    }
}

/// Pushing shards leads a log where it leads the encoder.
proof fn lemma_log_follows(log: Log, shards: Seq<Seq<u8>>)
    ensures
        log.pushed_all(shards).now == log.now.pushed_all(shards),
        log.pushed_all(shards).frames == log.frames + log.now.push_all_frames(shards),
        log.pushed_all(shards).traffic.datagrams == log.traffic.datagrams,
    decreases shards.len(),
{
    if shards.len() == 0 {
        assert(log.frames =~= log.frames + log.now.push_all_frames(shards));
    } else {
        lemma_log_follows(log, shards.drop_last());
        assert(log.pushed_all(shards).frames =~= log.frames + log.now.push_all_frames(shards));
    }
}

/// The first `n` parts of a datagram leave all in order.
proof fn lemma_send_parts(log: Log, e: EncoderModel, payload: Seq<u8>, n: nat)
    requires
        in_order(log, e),
        frames_in_order(log, e),
        log.now.wf(),
        all_placed(log),
        encoder::fragment_count(payload.len()) <= MAX_PARTS,
        n <= encoder::fragment_count(payload.len()),
        log.now.packet < u64::MAX,
        log.now.numbered().pushes_coded(
            encoder::shards_of(log.now.packet, payload).take(n as int),
        ),
        counters_in_bounds(
            log.now.numbered().pushed_all(
                encoder::shards_of(log.now.packet, payload).take(n as int),
            ),
        ),
    ensures
        ({
            let after = log.numbered(payload).pushed_all(
                encoder::shards_of(log.now.packet, payload).take(n as int),
            );
            &&& in_order(after, e)
            &&& frames_in_order(after, e)
            &&& after.now.wf()
            &&& unplaced_from(after, log.now.packet as u64, n)
            &&& placed_up_to(after, log.now.packet as u64, n)
        }),
    decreases n,
{
    let p = log.now.packet as u64;
    let shards = encoder::shards_of(log.now.packet, payload);
    let start = log.numbered(payload);
    if n == 0 {
        assert(shards.take(0) =~= Seq::<Seq<u8>>::empty());
        lemma_number(log, e, payload);
    } else {
        let head = shards.take(n - 1);
        let all = shards.take(n as int);
        assert(all.drop_last() =~= head);
        let x = (n - 1) as nat;
        let count = encoder::fragment_count(payload.len());
        let shard = shards[n - 1];
        assert(all.last() == shard);
        let before = start.pushed_all(head);
        let after = start.pushed_all(all);
        lemma_log_follows(start, head);
        lemma_log_follows(start, all);
        assert(after == before.pushed(shard));
        assert(counters_in_bounds(before.now));
        lemma_push_grows(start.now, head);
        lemma_send_parts(log, e, payload, x);
        lemma_chunk_len(payload, x);
        lemma_shard_reads_back(
            log.now.packet,
            x,
            count,
            encoder::chunk_of(payload, x as int),
        );
        assert(before.traffic.datagrams[p] == payload);
        assert(holds_part(before.traffic, shard)) by {
            assert(before.traffic.datagrams.contains_key(p));
        }
        lemma_with_shard(before, e, p, x, shard);
        let with = before.with_shard(shard);
        if before.now.shards.len() + 1 == DATA_SHARDS {
            assert(after == with.flushed());
            assert(with.now.group_coded());
            lemma_flush(with, e);
            assert forall|q: u64, y: nat|
                after.traffic.datagrams.contains_key(q) && y < after.traffic.parts(q) && (q == p
                    ==> y < n) implies #[trigger] placed(after, q, y) by {
                assert(placed(with, q, y));
            }
        }
    }
}

/// Numbering a datagram leaves all in order.
proof fn lemma_number(log: Log, e: EncoderModel, payload: Seq<u8>)
    requires
        in_order(log, e),
        frames_in_order(log, e),
        log.now.wf(),
        all_placed(log),
        log.now.packet < u64::MAX,
    ensures
        ({
            let after = log.numbered(payload);
            &&& in_order(after, e)
            &&& frames_in_order(after, e)
            &&& after.now.wf()
            &&& unplaced_from(after, log.now.packet as u64, 0)
            &&& placed_up_to(after, log.now.packet as u64, 0)
        }),
{
    let after = log.numbered(payload);
    let p = log.now.packet as u64;
    assert(!log.traffic.datagrams.contains_key(p));
    assert forall|g: u64, i: int| #[trigger] has_place(after, g, i) implies {
        &&& has_place(log, g, i)
        &&& shard_at(after, g, i) == shard_at(log, g, i)
        &&& holds_part(after.traffic, shard_at(after, g, i))
        &&& mark_of(shard_at(after, g, i)).0 != p
    } by {
        assert(has_place(log, g, i));
        assert(holds_part(log.traffic, shard_at(log, g, i)));
    }
    assert forall|q: u64, x: nat|
        after.traffic.datagrams.contains_key(q) && x < after.traffic.parts(q) && (q == p ==> x
            < 0) implies #[trigger] placed(after, q, x) by {
        assert(log.traffic.datagrams.contains_key(q));
        assert(placed(log, q, x));
        let (g, i) = choose|g: u64, i: int| #[trigger]
            has_place(log, g, i) && mark_of(shard_at(log, g, i)) == (q, x);
        assert(has_place(after, g, i));
    }
    assert forall|q: u64| #[trigger]
        after.traffic.datagrams.contains_key(q) <==> e.packet <= q < after.now.packet by {
        assert(log.traffic.datagrams.contains_key(q) <==> e.packet <= q < log.now.packet);
    }
    assert forall|k: int| 0 <= k < after.frames.len() implies {
        &&& after.traffic.carries(#[trigger] after.frames[k]) || after.traffic.reports(
            after.frames[k],
        )
        &&& after.frames[k].sequence == e.sequence + k
    } by {
        assert(after.frames[k] == log.frames[k]);
    }
}

/// What holds after an action.
proof fn lemma_act(log: Log, e: EncoderModel, action: Action)
    requires
        in_order(log, e),
        frames_in_order(log, e),
        log.now.wf(),
        all_placed(log),
        action matches Action::Send(payload) ==> encoder::fragment_count(payload.len())
            <= MAX_PARTS,
        log.acts_coded(action),
        counters_in_bounds(log.acted(action).now),
    ensures
        in_order(log.acted(action), e),
        frames_in_order(log.acted(action), e),
        log.acted(action).now.wf(),
        all_placed(log.acted(action)),
{
    let after = log.acted(action);
    match action {
        Action::Send(payload) => {
            let p = log.now.packet as u64;
            let shards = encoder::shards_of(log.now.packet, payload);
            let count = encoder::fragment_count(payload.len());
            lemma_push_grows(log.now.numbered(), shards);
            lemma_log_follows(log.numbered(payload), shards);
            assert(after =~= log.numbered(payload).pushed_all(shards));
            assert(shards.take(count as int) =~= shards);
            lemma_send_parts(log, e, payload, count);
            assert forall|q: u64, x: nat|
                after.traffic.datagrams.contains_key(q) && x < after.traffic.parts(
                    q,
                ) implies #[trigger] placed(after, q, x) by {
                assert(after.traffic.datagrams[p] == payload);
            }
        },
        Action::Flush => {
            lemma_flush(log, e);
            assert forall|q: u64, x: nat|
                after.traffic.datagrams.contains_key(q) && x < after.traffic.parts(
                    q,
                ) implies #[trigger] placed(after, q, x) by {
                assert(placed(log, q, x));
            }
        },
        Action::Report(loss) => {
            lemma_same_places(log, after);
            assert forall|g: u64, i: int|
                after.traffic.groups.contains_key(g) && 0 <= i
                    < after.traffic.groups[g].word().len() implies #[trigger] framed(
                after.frames,
                g,
                i,
            ) by {
                assert(framed(log.frames, g, i));
                let k = choose|k: int| #[trigger] is_frame(log.frames, k, g, i);
                assert(is_frame(after.frames, k, g, i));
            }
        },
        Action::Hear(loss) => {
            lemma_same_places(log, after);
        },
    }
}

/// Where shards and datagrams stay, so do the places.
proof fn lemma_same_places(log: Log, after: Log)
    requires
        after.now.shards == log.now.shards,
        after.now.group == log.now.group,
        after.traffic == log.traffic,
    ensures
        forall|g: u64, i: int| #[trigger]
            has_place(after, g, i) ==> has_place(log, g, i) && shard_at(after, g, i) == shard_at(
                log,
                g,
                i,
            ),
        forall|p: u64, x: nat| #[trigger] placed(after, p, x) == placed(log, p, x),
{
    assert forall|g: u64, i: int| #[trigger] has_place(after, g, i) implies has_place(log, g, i)
        && shard_at(after, g, i) == shard_at(log, g, i) by {}
    assert forall|p: u64, x: nat| #[trigger] placed(after, p, x) == placed(log, p, x) by {
        if placed(after, p, x) {
            let (g, i) = choose|g: u64, i: int| #[trigger]
                has_place(after, g, i) && mark_of(shard_at(after, g, i)) == (p, x);
            assert(has_place(log, g, i));
        }
        if placed(log, p, x) {
            let (g, i) = choose|g: u64, i: int| #[trigger]
                has_place(log, g, i) && mark_of(shard_at(log, g, i)) == (p, x);
            assert(has_place(after, g, i));
        }
    }
}

/// Counters only grow.
proof fn lemma_act_grows(log: Log, action: Action)
    ensures
        log.acted(action).now.sequence >= log.now.sequence,
        log.acted(action).now.group >= log.now.group,
        log.acted(action).now.packet >= log.now.packet,
{
    if let Action::Send(payload) = action {
        lemma_push_grows(
            log.now.numbered(),
            encoder::shards_of(log.now.packet, payload),
        );
    }
}

/// What holds after all actions.
proof fn lemma_log(e: EncoderModel, actions: Seq<Action>)
    requires
        e.wf(),
        e.shards.len() == 0,
        parts_in_bounds(actions),
        all_coded(e, actions),
        counters_in_bounds(log_of(e, actions).now),
    ensures
        in_order(log_of(e, actions), e),
        frames_in_order(log_of(e, actions), e),
        log_of(e, actions).now.wf(),
        all_placed(log_of(e, actions)),
    decreases actions.len(),
{
    if actions.len() > 0 {
        let rest = actions.drop_last();
        let before = log_of(e, rest);
        lemma_act_grows(before, actions.last());
        assert forall|k: int| 0 <= k < rest.len() implies match #[trigger] rest[k] {
            Action::Send(payload) => encoder::fragment_count(payload.len()) <= MAX_PARTS,
            _ => true,
        } by {
            assert(rest[k] == actions[k]);
        }
        lemma_log(e, rest);
        assert(actions[actions.len() - 1] == actions.last());
        lemma_act(before, e, actions.last());
    }
}

/// The whole numbers from `low` up to `high` are as many as there are.
proof fn lemma_range(low: nat, high: nat)
    requires
        low <= high <= u64::MAX,
    ensures
        Set::new(|g: u64| low <= g < high).finite(),
        Set::new(|g: u64| low <= g < high).len() == high - low,
    decreases high - low,
{
    let all = Set::new(|g: u64| low <= g < high);
    if low == high {
        assert(all =~= Set::empty());
    } else {
        let top = (high - 1) as u64;
        lemma_range(low, (high - 1) as nat);
        let fewer = Set::new(|g: u64| low <= g < (high - 1) as nat);
        assert(all =~= fewer.insert(top));
    }
}

/// Whether part `x` of datagram `p` is in a data shard.
pub open spec fn part_sent(t: Traffic, p: u64, x: nat) -> bool {
    exists|g: u64, i: int| #[trigger] t.has_shard(g, i) && t.mark(g, i) == (p, x)
}

/// What an encoder sends is traffic that a decoder can put together, whenever groups
/// are sent, whatever the redundancy is by then, and with loss reports in between:
/// every other frame belongs to a group, no part of a datagram is in two data
/// shards, frames are numbered one by one, and once no group is being filled every
/// part of every datagram has been sent.
pub proof fn law_encoder_makes_traffic(e: EncoderModel, actions: Seq<Action>)
    requires
        in_bounds(e, actions),
        all_coded(e, actions),
    ensures
        ({
            let log = log_of(e, actions);
            &&& log.traffic.session == e.session
            &&& log.traffic.wf()
            &&& forall|k: int|
                0 <= k < log.frames.len() ==> {
                    &&& log.traffic.carries(#[trigger] log.frames[k]) || log.traffic.reports(
                        log.frames[k],
                    )
                    &&& log.frames[k].sequence == e.sequence + k
                }
            &&& log.now.shards.len() == 0 ==> forall|p: u64, x: nat|
                log.traffic.datagrams.contains_key(p) && x < log.traffic.parts(p)
                    ==> #[trigger] part_sent(log.traffic, p, x)
        }),
{
    let log = log_of(e, actions);
    let t = log.traffic;
    lemma_log(e, actions);
    lemma_range(e.group, log.now.group);
    lemma_range(e.packet, log.now.packet);
    assert(t.groups.dom() =~= Set::new(|g: u64| e.group <= g < log.now.group));
    assert(t.datagrams.dom() =~= Set::new(|g: u64| e.packet <= g < log.now.packet));
    assert forall|g: u64, i: int| #[trigger] t.has_shard(g, i) implies has_place(log, g, i)
        && shard_at(log, g, i) == t.groups[g].data[i] && t.shard_wf(g, i) by {
        assert(t.groups.contains_key(g));
        assert(has_place(log, g, i));
    }
    assert forall|g: u64, i: int, h: u64, j: int| #[trigger]
        t.has_shard(g, i) && #[trigger] t.has_shard(h, j) && t.mark(g, i) == t.mark(
            h,
            j,
        ) implies g == h && i == j by {
        assert(has_place(log, g, i) && has_place(log, h, j));
        assert(mark_of(shard_at(log, g, i)) == mark_of(shard_at(log, h, j)));
        assert(!precedes((g, i), (h, j)) && !precedes((h, j), (g, i)));
    }
    if log.now.shards.len() == 0 {
        assert forall|p: u64, x: nat|
            t.datagrams.contains_key(p) && x < t.parts(p) implies #[trigger] part_sent(t, p, x) by {
            assert(placed(log, p, x));
            let (g, i) = choose|g: u64, i: int| #[trigger]
                has_place(log, g, i) && mark_of(shard_at(log, g, i)) == (p, x);
            assert(t.has_shard(g, i));
        }
    }
}

/// Whether the frames that a decoder got are some of `frames`, as often as one likes,
/// the one with the lowest number first.
pub open spec fn receives_some(r: Reception, frames: Seq<FrameModel>) -> bool {
    forall|j: int|
        0 <= j < r.frames.len() ==> {
            &&& frames.contains(#[trigger] r.frames[j])
            &&& r.frames[0].sequence <= r.frames[j].sequence
        }
}

/// Whether of every group as many frames came, data or parity, as it has data
/// shards.
pub open spec fn enough_arrived(t: Traffic, r: Reception) -> bool {
    forall|g: u64| #[trigger] t.groups.contains_key(g) ==> r.enough(r.frames.len(), t, g)
}

/// A decoder that got some of the frames of an encoder got frames of its traffic.
proof fn lemma_receives(e: EncoderModel, actions: Seq<Action>, r: Reception)
    requires
        in_bounds(e, actions),
        all_coded(e, actions),
        r.timely(),
        receives_some(r, log_of(e, actions).frames),
    ensures
        r.receives(log_of(e, actions).traffic),
{
    let log = log_of(e, actions);
    let t = log.traffic;
    let frames = log.frames;
    law_encoder_makes_traffic(e, actions);
    assert forall|j: int| 0 <= j < r.frames.len() implies {
        &&& t.carries(#[trigger] r.frames[j]) || t.reports(r.frames[j])
        &&& 0 < r.frames[0].sequence <= r.frames[j].sequence
    } by {
        let k = choose|k: int| 0 <= k < frames.len() && frames[k] == r.frames[j];
        assert(t.carries(frames[k]) || t.reports(frames[k]));
        assert(frames.contains(r.frames[0]));
        let z = choose|z: int| 0 <= z < frames.len() && frames[z] == r.frames[0];
        assert(frames[z].sequence == e.sequence + z);
    }
    assert forall|j: int, k: int|
        0 <= j < r.frames.len() && 0 <= k < r.frames.len() && (#[trigger] r.frames[j]).sequence == (
        #[trigger] r.frames[k]).sequence implies r.frames[j] == r.frames[k] by {
        assert(frames.contains(r.frames[j]));
        assert(frames.contains(r.frames[k]));
        let a = choose|a: int| 0 <= a < frames.len() && frames[a] == r.frames[j];
        let b = choose|b: int| 0 <= b < frames.len() && frames[b] == r.frames[k];
        assert(frames[a].sequence == e.sequence + a);
        assert(frames[b].sequence == e.sequence + b);
    }
}

/// Datagrams that are encoded, sent over a link that loses, repeats and reorders
/// frames, and decoded come out unchanged and just once each, as long as no group
/// loses more frames than it has parity shards. Whatever the link loses, nothing
/// comes out that was not sent, and nothing comes out twice. It does not matter when
/// groups are sent, how the redundancy changes, nor whether either end reports
/// losses in between. Nor does it matter how long the session lasts and how much it
/// sends, as long as frames come before the decoder drops what they belong to.
pub proof fn law_session_round_trip(e: EncoderModel, actions: Seq<Action>, r: Reception)
    requires
        in_bounds(e, actions),
        all_coded(e, actions),
        r.runs(e.session),
        r.timely(),
        receives_some(r, log_of(e, actions).frames),
        r.in_time(log_of(e, actions).traffic),
    ensures
        forall|j: int| 0 <= j < r.outs.len() ==> (#[trigger] r.outs[j]) is Ok,
        ({
            let log = log_of(e, actions);
            let t = log.traffic;
            exists|ids: Seq<u64>|
                {
                    &&& ids.no_duplicates()
                    &&& forall|p: u64| #[trigger] ids.contains(p) ==> t.datagrams.contains_key(p)
                    &&& #[trigger] delivery::payloads(t, ids) == r.output(r.frames.len())
                    &&& log.now.shards.len() == 0 && enough_arrived(t, r) ==> forall|p: u64|
                        #[trigger]
                        t.datagrams.contains_key(p) ==> ids.contains(p)
                }
        }),
{
    let log = log_of(e, actions);
    let t = log.traffic;
    law_encoder_makes_traffic(e, actions);
    lemma_receives(e, actions, r);
    delivery::law_delivery(t, r);
    if log.now.shards.len() == 0 && enough_arrived(t, r) {
        assert forall|p: u64| #[trigger] t.datagrams.contains_key(p) implies
            r.datagram_recoverable(r.frames.len(), t, p) by {
            assert forall|x: nat| x < t.parts(p) implies #[trigger] r.part_recoverable(
                r.frames.len(),
                t,
                p,
                x,
            ) by {
                assert(part_sent(t, p, x));
                let (g, i) = choose|g: u64, i: int| #[trigger]
                    t.has_shard(g, i) && t.mark(g, i) == (p, x);
                assert(r.recoverable(r.frames.len(), t, g, i));
            }
        }
    }
}

/// The datagrams that `actions` send, the first one first.
pub open spec fn sent_by(actions: Seq<Action>) -> Seq<Seq<u8>>
    decreases actions.len(),
{
    if actions.len() == 0 {
        Seq::empty()
    } else {
        match actions.last() {
            Action::Send(payload) => sent_by(actions.drop_last()).push(payload),
            _ => sent_by(actions.drop_last()),
        }
    }
}

/// Datagrams are numbered one by one.
proof fn lemma_sent(e: EncoderModel, actions: Seq<Action>)
    requires
        counters_in_bounds(log_of(e, actions).now),
    ensures
        log_of(e, actions).now.packet == e.packet + sent_by(actions).len(),
        forall|i: int|
            0 <= i < sent_by(actions).len() ==> log_of(e, actions).traffic.datagrams[(e.packet
                + i) as u64] == #[trigger] sent_by(actions)[i],
    decreases actions.len(),
{
    if actions.len() > 0 {
        let rest = actions.drop_last();
        let before = log_of(e, rest);
        lemma_act_grows(before, actions.last());
        lemma_sent(e, rest);
        if let Action::Send(payload) = actions.last() {
            let shards = encoder::shards_of(before.now.packet, payload);
            lemma_push_grows(before.now.numbered(), shards);
            lemma_log_follows(before.numbered(payload), shards);
        }
    }
}

/// Whether the frames are those of the traffic in the order of their places, every part
/// has its place, and places are in the order of parts.
spec fn laid_out(t: Traffic, frames: Seq<FrameModel>) -> bool {
    &&& t.wf()
    &&& frames_sorted(frames)
    &&& all_framed(frames, t.groups)
    &&& forall|g: u64, i: int, h: u64, j: int| #[trigger]
        t.has_shard(g, i) && #[trigger] t.has_shard(h, j) && precedes((g, i), (h, j)) ==> precedes(
            (t.mark(g, i).0, t.mark(g, i).1 as int),
            (t.mark(h, j).0, t.mark(h, j).1 as int),
        )
    &&& forall|p: u64, x: nat|
        t.datagrams.contains_key(p) && x < t.parts(p) ==> #[trigger] part_sent(t, p, x)
}

/// Slots of which none from number `n` on is filled have at most `n` filled.
proof fn lemma_few_present(a: Seq<Option<Seq<u8>>>, n: nat)
    requires
        forall|i: int| n <= i < a.len() ==> (#[trigger] a[i]) is None,
    ensures
        erasure::present(a) <= n,
    decreases a.len(),
{
    if a.len() > 0 {
        let rest = a.drop_last();
        if a.len() > n {
            assert(a[a.len() - 1] is None);
            lemma_few_present(rest, n);
        } else {
            lemma_few_present(rest, (a.len() - 1) as nat);
        }
    }
}

/// Where frames come in order, a data shard can be had just if it came.
proof fn lemma_came_in_order(t: Traffic, r: Reception, k: nat, g: u64, i: int)
    requires
        laid_out(t, r.frames),
        t.has_shard(g, i),
        k <= r.frames.len(),
    ensures
        r.recoverable(k, t, g, i) == r.arrived(k, g, i),
{
    if r.recoverable(k, t, g, i) && !r.arrived(k, g, i) {
        let came = r.arrivals(k, t, g);
        assert(t.groups[g].wf());
        assert forall|x: int| i <= x < came.len() implies (#[trigger] came[x]) is None by {
            if r.arrived(k, g, x) {
                let b = choose|b: int|
                    0 <= b < k && #[trigger] r.is_of(b, g) && r.frames[b].index == x;
                assert(framed(r.frames, g, i));
                let a = choose|a: int| #[trigger] is_frame(r.frames, a, g, i);
                assert(r.frames[b].kind != KIND_REPORT && r.frames[a].kind != KIND_REPORT);
                assert(a < b);
                assert(r.is_of(a, g));
                assert(r.arrived(k, g, i));
            }
        }
        lemma_few_present(came, i as nat);
    }
}

/// Where frames come in order, a part that can be had came after all that are before
/// it.
proof fn lemma_parts_in_order(
    t: Traffic,
    r: Reception,
    k: nat,
    q: u64,
    y: nat,
    p: u64,
    x: nat,
)
    requires
        laid_out(t, r.frames),
        k <= r.frames.len(),
        r.part_recoverable(k, t, p, x),
        t.datagrams.contains_key(q),
        y < t.parts(q),
        precedes((q, y as int), (p, x as int)) || q == p && y == x,
    ensures
        r.part_recoverable(k, t, q, y),
{
    let (h, j) = choose|h: u64, j: int| #[trigger]
        t.has_shard(h, j) && t.mark(h, j) == (p, x) && r.recoverable(k, t, h, j);
    lemma_came_in_order(t, r, k, h, j);
    assert(part_sent(t, q, y));
    let (g, i) = choose|g: u64, i: int| #[trigger] t.has_shard(g, i) && t.mark(g, i) == (q, y);
    assert(!precedes((h, j), (g, i)));
    let b = choose|b: int| 0 <= b < k && #[trigger] r.is_of(b, h) && r.frames[b].index == j;
    assert(t.groups[g].wf());
    assert(framed(r.frames, g, i));
    let a = choose|a: int| #[trigger] is_frame(r.frames, a, g, i);
    assert(r.frames[b].kind != KIND_REPORT && r.frames[a].kind != KIND_REPORT);
    assert(a <= b);
    assert(r.is_of(a, g));
    assert(r.arrived(k, g, i));
    assert(r.recoverable(k, t, g, i));
}

/// Where frames come in order, no more than one datagram has come in part at a time.
proof fn lemma_one_alive(t: Traffic, r: Reception, k: int)
    requires
        laid_out(t, r.frames),
        0 <= k < r.frames.len(),
    ensures
        r.datagrams_alive(k, t).len() <= 1,
{
    let alive = r.datagrams_alive(k, t);
    let n = (k + 1) as nat;
    assert forall|p: u64, q: u64| alive.contains(p) && alive.contains(q) implies p == q by {
        if p != q {
            let (low, high) = if p < q {
                (p, q)
            } else {
                (q, p)
            };
            assert(r.begun(k, t, low) && r.begun(k, t, high));
            let x = choose|x: nat| #[trigger] r.part_recoverable(n, t, high, x);
            let y = choose|y: nat| #[trigger] r.part_recoverable(n, t, low, y);
            let (g, i) = choose|g: u64, i: int| #[trigger]
                t.has_shard(g, i) && t.mark(g, i) == (low, y) && r.recoverable(n, t, g, i);
            assert(t.shard_wf(g, i));
            assert forall|z: nat| z < t.parts(low) implies #[trigger] r.part_recoverable(
                n,
                t,
                low,
                z,
            ) by {
                lemma_parts_in_order(t, r, n, low, z, high, x);
            }
            assert(r.datagram_recoverable(n, t, low));
        }
    }
    if exists|p: u64| alive.contains(p) {
        let p = choose|p: u64| alive.contains(p);
        assert(alive =~= Set::empty().insert(p));
    } else {
        assert(alive =~= Set::empty());
    }
}

/// Where frames come in order, a datagram can be had before the next one.
proof fn lemma_turns(t: Traffic, r: Reception, ids: Seq<u64>, a: int, b: int)
    requires
        laid_out(t, r.frames),
        ids.no_duplicates(),
        delivery::in_turn(t, r, r.frames.len(), ids),
        forall|p: u64| #[trigger] ids.contains(p) ==> t.datagrams.contains_key(p),
        0 <= a < b < ids.len(),
    ensures
        ids[a] < ids[b],
{
    let p = ids[a];
    let q = ids[b];
    assert(p != q);
    assert(ids.contains(p) && ids.contains(q));
    if q < p {
        assert(t.parts(q) > 0 && t.parts(p) > 0);
        let x = (t.parts(q) - 1) as nat;
        assert(part_sent(t, q, x));
        let (g, i) = choose|g: u64, i: int| #[trigger] t.has_shard(g, i) && t.mark(g, i) == (q, x);
        assert(t.groups[g].wf());
        assert(framed(r.frames, g, i));
        let j = choose|j: int| #[trigger] is_frame(r.frames, j, g, i);
        let k = (j + 1) as nat;
        assert(r.is_of(j, g));
        assert(r.arrived(k, g, i));
        assert(r.recoverable(k, t, g, i));
        assert(r.part_recoverable(k, t, q, x));
        assert forall|y: nat| y < t.parts(q) implies #[trigger] r.part_recoverable(k, t, q, y) by {
            lemma_parts_in_order(t, r, k, q, y, q, x);
        }
        assert(r.datagram_recoverable(k, t, ids[b]));
        assert(r.datagram_recoverable(k, t, ids[a]));
        assert(r.part_recoverable(k, t, p, 0));
        let (h, l) = choose|h: u64, l: int| #[trigger]
            t.has_shard(h, l) && t.mark(h, l) == (p, 0nat) && r.recoverable(k, t, h, l);
        lemma_came_in_order(t, r, k, h, l);
        let c = choose|c: int| 0 <= c < k && #[trigger] r.is_of(c, h) && r.frames[c].index == l;
        assert(r.frames[c].kind != KIND_REPORT && r.frames[j].kind != KIND_REPORT);
        assert(precedes((h, l), (g, i)) || (h, l) == (g, i));
    }
}

/// Rising numbers that are all from `low` up to `high` are just these.
proof fn lemma_rising(ids: Seq<u64>, low: nat, high: nat)
    requires
        low <= high <= u64::MAX,
        forall|a: int, b: int| 0 <= a < b < ids.len() ==> #[trigger] ids[a] < #[trigger] ids[b],
        forall|p: u64| #[trigger] ids.contains(p) <==> low <= p < high,
    ensures
        ids == Seq::new((high - low) as nat, |i: int| (low + i) as u64),
    decreases high - low,
{
    let all = Seq::new((high - low) as nat, |i: int| (low + i) as u64);
    if low == high {
        if ids.len() > 0 {
            assert(ids.contains(ids[0]));
        }
        assert(ids =~= all);
    } else {
        let top = (high - 1) as u64;
        assert(ids.contains(top));
        let at = choose|at: int| 0 <= at < ids.len() && ids[at] == top;
        let end = ids.len() - 1;
        assert(ids.contains(ids[end]));
        assert(at == end);
        let rest = ids.drop_last();
        assert forall|p: u64| #[trigger] rest.contains(p) <==> low <= p < high - 1 by {
            if rest.contains(p) {
                let a = choose|a: int| 0 <= a < rest.len() && rest[a] == p;
                assert(ids[a] == p && ids[a] < ids[end]);
                assert(ids.contains(p));
            }
            if low <= p < high - 1 {
                assert(ids.contains(p));
                let a = choose|a: int| 0 <= a < ids.len() && ids[a] == p;
                assert(rest[a] == p);
            }
        }
        lemma_rising(rest, low, (high - 1) as nat);
        assert(ids =~= rest.push(top));
        assert(ids =~= all);
    }
}

/// The frames of an encoder, all of them, are laid out in order.
proof fn lemma_laid_out(e: EncoderModel, actions: Seq<Action>)
    requires
        in_bounds(e, actions),
        all_coded(e, actions),
        log_of(e, actions).now.shards.len() == 0,
    ensures
        laid_out(log_of(e, actions).traffic, log_of(e, actions).frames),
        forall|p: u64| #[trigger]
            log_of(e, actions).traffic.datagrams.contains_key(p) <==> e.packet <= p < log_of(
                e,
                actions,
            ).now.packet,
{
    let log = log_of(e, actions);
    let t = log.traffic;
    law_encoder_makes_traffic(e, actions);
    lemma_log(e, actions);
    assert forall|g: u64, i: int, h: u64, j: int| #[trigger]
        t.has_shard(g, i) && #[trigger] t.has_shard(h, j) && precedes(
            (g, i),
            (h, j),
        ) implies precedes(
        (t.mark(g, i).0, t.mark(g, i).1 as int),
        (t.mark(h, j).0, t.mark(h, j).1 as int),
    ) by {
        assert(t.groups.contains_key(g) && t.groups.contains_key(h));
        assert(has_place(log, g, i) && has_place(log, h, j));
    }
}

/// Over a link that loses nothing and keeps the order, what is sent is what comes out:
/// every datagram, the empty one too, in the order of sending, whatever the redundancy
/// is and whenever groups are sent, as long as the last one is. However many datagrams
/// are sent, the decoder takes every frame.
pub proof fn law_lossless_session(e: EncoderModel, actions: Seq<Action>, r: Reception)
    requires
        in_bounds(e, actions),
        all_coded(e, actions),
        log_of(e, actions).now.shards.len() == 0,
        r.runs(e.session),
        r.frames == log_of(e, actions).frames,
        r.clock_runs(),
        r.groups_prompt(),
        r.parts_prompt(log_of(e, actions).traffic),
        r.groups_fit(),
    ensures
        forall|j: int| 0 <= j < r.outs.len() ==> (#[trigger] r.outs[j]) is Ok,
        r.output(r.frames.len()) == sent_by(actions),
{
    let log = log_of(e, actions);
    let t = log.traffic;
    let n = r.frames.len();
    lemma_laid_out(e, actions);
    law_encoder_makes_traffic(e, actions);
    assert(receives_some(r, log.frames)) by {
        assert forall|j: int| 0 <= j < n implies {
            &&& log.frames.contains(#[trigger] r.frames[j])
            &&& r.frames[0].sequence <= r.frames[j].sequence
        } by {
            assert(log.frames[j].sequence == e.sequence + j);
            assert(log.frames[0].sequence == e.sequence);
        }
    }
    assert(r.timely()) by {
        assert forall|j: int, i: int, k: int|
            0 <= j < i <= k < n && #[trigger] r.reports[i] && (#[trigger] r.frames[j]).sequence >= (
            #[trigger] r.frames[k]).sequence + decoder::REORDER_WINDOW implies exists|l: int|
            #[trigger]
            r.came_before(l, i, k) by {
            assert(log.frames[j].sequence == e.sequence + j);
            assert(log.frames[k].sequence == e.sequence + k);
        }
    }
    lemma_receives(e, actions, r);
    assert forall|k: int| 0 <= k < n implies (#[trigger] r.datagrams_alive(k, t)).len()
        <= decoder::MAX_REASSEMBLIES by {
        lemma_one_alive(t, r, k);
    }
    delivery::law_delivery(t, r);
    let ids = choose|ids: Seq<u64>|
        {
            &&& ids.no_duplicates()
            &&& #[trigger] delivery::payloads(t, ids) == r.output(n)
            &&& forall|p: u64| #[trigger]
                ids.contains(p) <==> t.datagrams.contains_key(p) && r.datagram_recoverable(n, t, p)
            &&& delivery::in_turn(t, r, n, ids)
        };
    assert forall|p: u64| #[trigger] ids.contains(p) <==> e.packet <= p < log.now.packet by {
        if t.datagrams.contains_key(p) {
            assert forall|x: nat| x < t.parts(p) implies #[trigger] r.part_recoverable(
                n,
                t,
                p,
                x,
            ) by {
                assert(part_sent(t, p, x));
                let (g, i) = choose|g: u64, i: int| #[trigger]
                    t.has_shard(g, i) && t.mark(g, i) == (p, x);
                assert(t.groups[g].wf());
                assert(framed(r.frames, g, i));
                let j = choose|j: int| #[trigger] is_frame(r.frames, j, g, i);
                assert(r.is_of(j, g));
                assert(r.arrived(n, g, i));
                assert(r.recoverable(n, t, g, i));
            }
        }
    }
    assert forall|a: int, b: int| 0 <= a < b < ids.len() implies #[trigger] ids[a]
        < #[trigger] ids[b] by {
        lemma_turns(t, r, ids, a, b);
    }
    lemma_sent(e, actions);
    lemma_rising(ids, e.packet, log.now.packet);
    assert(delivery::payloads(t, ids) =~= sent_by(actions));
}

/// Over a link that loses nothing and keeps the order, what is sent is what comes out
/// if all comes within the time that a group is kept, and there are no more groups than
/// a decoder keeps.
pub proof fn law_short_lossless_session(
    e: EncoderModel,
    actions: Seq<Action>,
    r: Reception,
    start: nat,
)
    requires
        in_bounds(e, actions),
        all_coded(e, actions),
        log_of(e, actions).now.shards.len() == 0,
        log_of(e, actions).now.group <= e.group + MAX_GROUPS,
        r.runs(e.session),
        r.frames == log_of(e, actions).frames,
        r.clock_runs(),
        forall|j: int|
            0 <= j < r.times.len() ==> start <= #[trigger] r.times[j] < start + GROUP_TTL,
    ensures
        forall|j: int| 0 <= j < r.outs.len() ==> (#[trigger] r.outs[j]) is Ok,
        r.output(r.frames.len()) == sent_by(actions),
{
    let log = log_of(e, actions);
    let t = log.traffic;
    law_encoder_makes_traffic(e, actions);
    lemma_log(e, actions);
    lemma_range(e.group, log.now.group);
    assert(t.groups.dom() =~= Set::new(|g: u64| e.group <= g < log.now.group));
    assert forall|k: int| 0 <= k < r.frames.len() implies (#[trigger] r.groups_alive(k)).len()
        <= MAX_GROUPS by {
        let alive = r.groups_alive(k);
        assert forall|h: u64| alive.contains(h) implies t.groups.dom().contains(h) by {
            let j = choose|j: int| j <= k && #[trigger] r.is_of(j, h);
            assert(t.carries(log.frames[j]) || t.reports(log.frames[j]));
        }
        vstd::set_lib::lemma_len_subset(alive, t.groups.dom());
    }
    law_lossless_session(e, actions, r);
}

/// What an encoder sends bears its names.
proof fn lemma_pushes_bear_names(e: EncoderModel, shards: Seq<Seq<u8>>)
    ensures
        e.pushed_all(shards).version == e.version,
        e.pushed_all(shards).key_id == e.key_id,
        e.pushed_all(shards).session == e.session,
        forall|k: int|
            #![trigger e.push_all_frames(shards)[k]]
            0 <= k < e.push_all_frames(shards).len() ==> {
                &&& e.push_all_frames(shards)[k].version == e.version
                &&& e.push_all_frames(shards)[k].key_id == e.key_id
                &&& e.push_all_frames(shards)[k].session == e.session
            },
    decreases shards.len(),
{
    if shards.len() > 0 {
        let rest = shards.drop_last();
        let all = e.push_all_frames(shards);
        lemma_pushes_bear_names(e, rest);
        let had = e.push_all_frames(rest);
        assert forall|k: int| 0 <= k < all.len() implies {
            &&& (#[trigger] all[k]).version == e.version
            &&& all[k].key_id == e.key_id
            &&& all[k].session == e.session
        } by {
            if k < had.len() {
                assert(all[k] == had[k]);
            } else {
                let more = e.pushed_all(rest).push_frames(shards.last());
                assert(all[k] == more[k - had.len()]);
            }
        }
    }
}

/// Every frame that an encoder sends bears the version, the device and the session that
/// the encoder was made with.
pub proof fn law_frames_bear_their_senders_names(e: EncoderModel, actions: Seq<Action>)
    ensures
        log_of(e, actions).now.version == e.version,
        log_of(e, actions).now.key_id == e.key_id,
        log_of(e, actions).now.session == e.session,
        forall|k: int|
            #![trigger log_of(e, actions).frames[k]]
            0 <= k < log_of(e, actions).frames.len() ==> {
                &&& log_of(e, actions).frames[k].version == e.version
                &&& log_of(e, actions).frames[k].key_id == e.key_id
                &&& log_of(e, actions).frames[k].session == e.session
            },
    decreases actions.len(),
{
    if actions.len() > 0 {
        law_frames_bear_their_senders_names(e, actions.drop_last());
        let before = log_of(e, actions.drop_last());
        match actions.last() {
            Action::Send(payload) => {
                lemma_pushes_bear_names(
                    before.now.numbered(),
                    encoder::shards_of(before.now.packet, payload),
                );
            },
            _ => {},
        }
    }
}

} // verus!
