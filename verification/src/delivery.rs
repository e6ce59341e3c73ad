//! What a session promises: nothing is delivered twice, and what can be recovered
//! is delivered.

use crate::decoder::{
    self, DecodeError, DecoderModel, FragmentModel, GroupModel, ReassemblyModel, GROUP_TTL,
    MAX_GROUPS, MAX_GROUP_DATA, MAX_GROUP_PARITY, MAX_REASSEMBLIES, REASSEMBLY_TTL, REORDER_WINDOW,
};
use crate::encoder::{self, CHUNK, FRAGMENT_HEADER, SHARD};
use crate::erasure;
use crate::frame::{FrameModel, KIND_DATA, KIND_PARITY, KIND_REPORT};
use vstd::prelude::*;

verus! {

/// Whether no frame numbered `seq` can be taken any more. None numbered zero ever is.
pub open spec fn closed_to(m: DecoderModel, seq: u64) -> bool {
    ||| seq == 0
    ||| !m.untouched() && (seq <= m.finalized || m.seen.contains(seq))
}

/// A frame closes its sequence number.
pub proof fn law_observing_closes(m: DecoderModel, seq: u64)
    requires
        m.wf(),
    ensures
        closed_to(m.observed(seq), seq),
        !m.observed(seq).accepts(seq),
{
}

/// A closed sequence number stays closed, whatever the decoder does next.
pub proof fn law_closed_stays_closed(m: DecoderModel, seq: u64, f: FrameModel, now: nat)
    requires
        m.wf(),
        closed_to(m, seq),
    ensures
        closed_to(m.observed(f.sequence), seq),
        closed_to(m.reported(), seq),
        closed_to(m.pruned(now), seq),
        closed_to(m.frame_outcome(f, now).0, seq),
{
    let o = m.observed(f.sequence);
    assert(closed_to(o, seq));
    if m.report_due() {
        assert(m.reported().finalized > 0);
    }
    let kept = o.pruned(now);
    let group = kept.group_for(f, now);
    let stored = group.stored(f.index as int, f.payload);
    let next = kept.with_group(f.group, stored.settled());
    decoder::lemma_fragments_touch_packets(next, group.deliveries(f.index as int, f.payload), now);
}

/// A frame whose sequence number is closed delivers nothing and changes nothing.
pub proof fn law_closed_frame_is_ignored(m: DecoderModel, f: FrameModel, now: nat)
    requires
        m.wf(),
        m.session == f.session,
        closed_to(m, f.sequence),
    ensures
        m.frame_outcome(f, now) == (m, Ok::<Seq<Seq<u8>>, DecodeError>(Seq::empty())),
{
    assert(m.seen.contains(f.sequence) ==> m.seen.insert(f.sequence) =~= m.seen);
    assert(m.observed(f.sequence) =~= m);
}

/// A frame of another session changes nothing.
pub proof fn law_sessions_are_separate(m: DecoderModel, f: FrameModel, now: nat)
    requires
        m.session != f.session,
    ensures
        m.frame_outcome(f, now) == (
            m,
            Err::<Seq<Seq<u8>>, DecodeError>(DecodeError::SessionMismatch),
        ),
{
}

/// Two reports with nothing in between: the second one gives no loss and changes
/// nothing.
pub proof fn law_report_is_settled(m: DecoderModel)
    requires
        m.wf(),
        m.report_due(),
    ensures
        m.reported().loss_ppm() == 0,
        m.reported().reported() == m.reported(),
{
}

/// Frames that arrive in any order within the reorder window are no loss.
pub proof fn law_reordering_is_no_loss(m: DecoderModel)
    requires
        m.wf(),
        forall|s: u64| m.finalized < s <= m.cutoff() ==> #[trigger] m.seen.contains(s),
    ensures
        m.loss_ppm() == 0,
{
    if m.report_due() {
        lemma_full_window(m.received(), m.finalized, m.cutoff());
    }
}

/// A set that holds every number of a window is as large as the window.
proof fn lemma_full_window(s: Set<u64>, low: nat, high: nat)
    requires
        s.finite(),
        low <= high <= u64::MAX,
        forall|x: u64| #[trigger] s.contains(x) <==> low < x <= high,
    ensures
        s.len() == high - low,
    decreases high - low,
{
    if low == high {
        assert(s =~= Set::empty());
    } else {
        let top = high as u64;
        lemma_full_window(s.remove(top), low, (high - 1) as nat);
    }
}

/// A window of which nothing arrived is a total loss.
pub proof fn law_silence_is_total_loss(m: DecoderModel)
    requires
        m.wf(),
        m.report_due(),
        forall|s: u64| m.finalized < s <= m.cutoff() ==> !#[trigger] m.seen.contains(s),
    ensures
        m.loss_ppm() == decoder::PPM,
{
    assert(m.received() =~= Set::empty());
    let expected = (m.cutoff() - m.finalized) as int;
    assert((expected * decoder::PPM) / expected == decoder::PPM) by (nonlinear_arith)
        requires
            expected > 0,
    ;
}

/// A group as it was sent: its data shards, all equally long, and how many parity
/// shards came with them.
pub struct SentGroup {
    pub data: Seq<Seq<u8>>,
    pub parity: nat,
}

impl SentGroup {
    /// All shards, as the frames of the group carry them.
    pub open spec fn word(self) -> Seq<Seq<u8>> {
        if self.parity == 0 {
            self.data
        } else {
            erasure::codeword(self.data, self.parity)
        }
    }

    /// Whether a decoder takes the frames of the group.
    pub open spec fn wf(self) -> bool {
        &&& 1 <= self.data.len() <= MAX_GROUP_DATA
        &&& self.parity <= MAX_GROUP_PARITY
        &&& self.word().len() == self.data.len() + self.parity
        &&& erasure::uniform(self.word())
        &&& FRAGMENT_HEADER <= self.word()[0].len() <= SHARD
    }
}

/// What a session sent: datagrams, and the groups that carry their shards.
pub struct Traffic {
    pub session: u64,
    pub groups: Map<u64, SentGroup>,
    pub datagrams: Map<u64, Seq<u8>>,
}

impl Traffic {
    /// What data shard `i` of group `g` holds.
    pub open spec fn fragment(self, g: u64, i: int) -> FragmentModel {
        decoder::fragment_model(self.groups[g].data[i])->0
    }

    /// Which part of which datagram data shard `i` of group `g` holds.
    pub open spec fn mark(self, g: u64, i: int) -> (u64, nat) {
        (self.fragment(g, i).packet, self.fragment(g, i).index)
    }

    /// Whether group `g` has a data shard `i`.
    pub open spec fn has_shard(self, g: u64, i: int) -> bool {
        self.groups.contains_key(g) && 0 <= i < self.groups[g].data.len()
    }

    /// How many parts datagram `p` has.
    pub open spec fn parts(self, p: u64) -> nat {
        encoder::fragment_count(self.datagrams[p].len())
    }

    /// Whether a data shard holds a part of one of the datagrams.
    pub open spec fn shard_wf(self, g: u64, i: int) -> bool {
        let f = self.fragment(g, i);
        &&& decoder::fragment_model(self.groups[g].data[i]) is Some
        &&& self.datagrams.contains_key(f.packet)
        &&& f.count == self.parts(f.packet)
        &&& f.chunk == encoder::chunk_of(self.datagrams[f.packet], f.index as int)
    }

    /// Whether the groups carry parts of the datagrams, no part twice.
    pub open spec fn wf(self) -> bool {
        &&& self.groups.dom().finite()
        &&& self.datagrams.dom().finite()
        &&& forall|g: u64| #[trigger] self.groups.contains_key(g) ==> self.groups[g].wf()
        &&& forall|g: u64, i: int| #[trigger] self.has_shard(g, i) ==> self.shard_wf(g, i)
        &&& forall|g: u64, i: int, h: u64, j: int| #[trigger]
            self.has_shard(g, i) && #[trigger] self.has_shard(h, j) && self.mark(g, i) == self.mark(
                h,
                j,
            ) ==> g == h && i == j
    }

    /// Whether `f` is a frame of one of the groups.
    pub open spec fn carries(self, f: FrameModel) -> bool {
        let sent = self.groups[f.group];
        &&& f.session == self.session
        &&& f.kind == KIND_DATA || f.kind == KIND_PARITY
        &&& self.groups.contains_key(f.group)
        &&& f.data == sent.data.len()
        &&& f.parity == sent.parity
        &&& f.index < sent.word().len()
        &&& f.payload == sent.word()[f.index as int]
    }

    /// Whether `f` is a loss report of the session.
    pub open spec fn reports(self, f: FrameModel) -> bool {
        f.session == self.session && f.kind == KIND_REPORT
    }
}

/// The chunks of a datagram in order make up the datagram.
proof fn lemma_chunks_join(payload: Seq<u8>, parts: Seq<Option<Seq<u8>>>, n: nat)
    requires
        n <= parts.len(),
        parts.len() == encoder::fragment_count(payload.len()),
        forall|x: int|
            0 <= x < parts.len() ==> #[trigger] parts[x] == Some(encoder::chunk_of(payload, x)),
    ensures
        decoder::joined(parts.take(n as int)) == payload.take(
            if n * CHUNK < payload.len() {
                n * CHUNK
            } else {
                payload.len() as int
            },
        ),
    decreases n,
{
    if n == 0 {
        assert(parts.take(0) =~= Seq::<Option<Seq<u8>>>::empty());
        assert(payload.take(0) =~= Seq::<u8>::empty());
    } else {
        lemma_chunks_join(payload, parts, (n - 1) as nat);
        let here = parts.take(n as int);
        assert(here.drop_last() =~= parts.take(n - 1));
        assert(here.last() == parts[n - 1]);
        let from = (n - 1) * CHUNK;
        let to = if n * CHUNK < payload.len() {
            n * CHUNK
        } else {
            payload.len() as int
        };
        assert(from <= payload.len());
        assert(encoder::chunk_of(payload, n - 1) =~= payload.subrange(from, to));
        assert(payload.take(to) =~= payload.take(from) + payload.subrange(from, to));
    }
}

/// The chunks of a whole datagram in order make up the datagram.
proof fn lemma_all_chunks_join(payload: Seq<u8>, parts: Seq<Option<Seq<u8>>>)
    requires
        parts.len() == encoder::fragment_count(payload.len()),
        forall|x: int|
            0 <= x < parts.len() ==> #[trigger] parts[x] == Some(encoder::chunk_of(payload, x)),
    ensures
        decoder::joined(parts) == payload,
{
    lemma_chunks_join(payload, parts, parts.len());
    assert(parts.take(parts.len() as int) =~= parts);
    assert(payload.take(payload.len() as int) =~= payload);
}

/// Whether the datagrams in parts are just what the parts in `got` make of those
/// datagrams that are not done.
spec fn holds(
    t: Traffic,
    packets: Map<u64, ReassemblyModel>,
    done: Seq<u64>,
    got: Set<(u64, nat)>,
) -> bool {
    &&& packets.dom().finite()
    &&& forall|p: u64| #[trigger]
        packets.contains_key(p) ==> {
            &&& t.datagrams.contains_key(p)
            &&& !done.contains(p)
            &&& packets[p].parts.len() == t.parts(p)
            &&& !decoder::complete(packets[p].parts)
            &&& exists|x: nat| #[trigger] got.contains((p, x))
            &&& forall|x: int|
                0 <= x < t.parts(p) ==> #[trigger] packets[p].parts[x] == if got.contains(
                    (p, x as nat),
                ) {
                    Some(encoder::chunk_of(t.datagrams[p], x))
                } else {
                    None
                }
        }
    &&& done.no_duplicates()
    &&& forall|p: u64| #[trigger] done.contains(p) ==> t.datagrams.contains_key(p)
    &&& forall|p: u64, x: nat|
        done.contains(p) && x < t.parts(p) ==> #[trigger] got.contains((p, x))
    &&& forall|p: u64, x: nat| #[trigger]
        got.contains((p, x)) ==> {
            &&& t.datagrams.contains_key(p)
            &&& x < t.parts(p)
            &&& packets.contains_key(p) || done.contains(p)
        }
}

/// The payloads of datagrams.
pub open spec fn payloads(t: Traffic, ids: Seq<u64>) -> Seq<Seq<u8>> {
    Seq::new(ids.len(), |i: int| t.datagrams[ids[i]])
}

/// Whether datagram `p` is not too old at `now`, if some of it is there.
spec fn young(packets: Map<u64, ReassemblyModel>, p: u64, now: nat) -> bool {
    packets.contains_key(p) ==> now < packets[p].created + REASSEMBLY_TTL
}

/// Whether a datagram in parts has been there since `now`, or for as long as before.
spec fn dated(
    before: Map<u64, ReassemblyModel>,
    after: Map<u64, ReassemblyModel>,
    now: nat,
) -> bool {
    forall|p: u64| #[trigger]
        after.contains_key(p) ==> after[p].created == if before.contains_key(p) {
            before[p].created
        } else {
            now
        }
}

/// Whether a decoder holds just what `full` does, but for what was too old at `now`.
spec fn follows(m: DecoderModel, full: DecoderModel, now: nat) -> bool {
    &&& m.groups.dom().finite()
    &&& m.packets.dom().finite()
    &&& forall|g: u64| #[trigger]
        m.groups.contains_key(g) ==> full.groups.contains_key(g) && m.groups[g] == full.groups[g]
    &&& forall|g: u64| #[trigger]
        full.groups.contains_key(g) && !m.groups.contains_key(g) ==> full.groups[g].created
            + GROUP_TTL <= now
    &&& forall|p: u64| #[trigger]
        m.packets.contains_key(p) ==> full.packets.contains_key(p) && m.packets[p]
            == full.packets[p]
    &&& forall|p: u64| #[trigger]
        full.packets.contains_key(p) && !m.packets.contains_key(p) ==> full.packets[p].created
            + REASSEMBLY_TTL <= now
}

/// A decoder that drops what is too old still holds all else, as long as that is not
/// too much.
proof fn lemma_prune_follows(m: DecoderModel, full: DecoderModel, then: nat, now: nat)
    requires
        follows(m, full, then),
        then <= now,
        decoder::live_packets(m.packets, now).len() <= MAX_REASSEMBLIES,
    ensures
        follows(m.pruned(now), full, now),
        m.pruned(now).packets == decoder::live_packets(m.packets, now),
{
    let after = m.pruned(now);
    assert(after.groups.dom().subset_of(m.groups.dom()));
    assert(after.packets.dom().subset_of(m.packets.dom()));
    vstd::set_lib::lemma_len_subset(after.groups.dom(), m.groups.dom());
    vstd::set_lib::lemma_len_subset(after.packets.dom(), m.packets.dom());
}

/// Delivering a part that was not delivered before completes its datagram or adds
/// to it, and that also where old datagrams were dropped. Gives the datagrams that
/// are then done.
proof fn lemma_deliver_part(
    t: Traffic,
    lean: DecoderModel,
    m: DecoderModel,
    done: Seq<u64>,
    got: Set<(u64, nat)>,
    g: u64,
    i: int,
    now: nat,
) -> (after: Seq<u64>)
    requires
        t.wf(),
        t.has_shard(g, i),
        holds(t, m.packets, done, got),
        !got.contains(t.mark(g, i)),
        follows(lean, m, now),
        young(m.packets, t.mark(g, i).0, now),
    ensures
        holds(
            t,
            m.with_fragment(t.groups[g].data[i], now).packets,
            after,
            got.insert(t.mark(g, i)),
        ),
        payloads(t, after) == payloads(t, done) + m.fragment_output(t.groups[g].data[i], now),
        done.is_prefix_of(after),
        dated(m.packets, m.with_fragment(t.groups[g].data[i], now).packets, now),
        follows(
            lean.with_fragment(t.groups[g].data[i], now),
            m.with_fragment(t.groups[g].data[i], now),
            now,
        ),
        lean.fragment_output(t.groups[g].data[i], now) == m.fragment_output(
            t.groups[g].data[i],
            now,
        ),
{
    let shard = t.groups[g].data[i];
    let f = t.fragment(g, i);
    let (p, x) = t.mark(g, i);
    let payload = t.datagrams[p];
    assert(t.shard_wf(g, i));
    assert(!done.contains(p));
    assert(lean.packets.contains_key(p) == m.packets.contains_key(p));
    assert(lean.parts_for(f, now) == m.parts_for(f, now));
    let before = m.parts_for(f, now);
    assert(before.parts.len() == f.count);
    let with = m.parts_with(f, now);
    let next = got.insert((p, x));
    assert(next.contains((p, x)));
    assert forall|y: int| 0 <= y < t.parts(p) implies #[trigger] with.parts[y] == if next.contains(
        (p, y as nat),
    ) {
        Some(encoder::chunk_of(payload, y))
    } else {
        None
    } by {
        if y == x {
        } else if m.packets.contains_key(p) {
            assert(m.packets[p].parts[y] == before.parts[y]);
        } else {
            assert(!got.contains((p, y as nat)));
        }
    }
    let after_m = m.with_fragment(shard, now);
    if decoder::complete(with.parts) {
        let after = done.push(p);
        assert forall|y: nat| y < t.parts(p) implies #[trigger] next.contains((p, y)) by {
            assert(with.parts[y as int] is Some);
        }
        lemma_all_chunks_join(payload, with.parts);
        assert(m.fragment_output(shard, now) =~= seq![payload]);
        assert(payloads(t, after) =~= payloads(t, done) + seq![payload]);
        assert(after_m.packets =~= m.packets.remove(p));
        assert forall|q: u64| after.contains(q) <==> done.contains(q) || q == p by {
            assert(after[done.len() as int] == p);
            if done.contains(q) {
                let at = choose|at: int| 0 <= at < done.len() && done[at] == q;
                assert(after[at] == q);
            }
        }
        assert(after.no_duplicates());
        assert forall|q: u64| #[trigger] after_m.packets.contains_key(q) implies exists|y: nat|
            #[trigger]
            next.contains((q, y)) by {
            let y = choose|y: nat| #[trigger] got.contains((q, y));
            assert(next.contains((q, y)));
        }
        assert(holds(t, after_m.packets, after, next));
        after
    } else {
        assert(payloads(t, done) =~= payloads(t, done) + m.fragment_output(shard, now));
        assert(after_m.packets =~= m.packets.insert(p, with));
        assert forall|q: u64| #[trigger] after_m.packets.contains_key(q) implies {
            &&& t.datagrams.contains_key(q)
            &&& !done.contains(q)
            &&& after_m.packets[q].parts.len() == t.parts(q)
            &&& !decoder::complete(after_m.packets[q].parts)
            &&& exists|y: nat| #[trigger] next.contains((q, y))
            &&& forall|y: int|
                0 <= y < t.parts(q) ==> #[trigger] after_m.packets[q].parts[y] == if next.contains(
                    (q, y as nat),
                ) {
                    Some(encoder::chunk_of(t.datagrams[q], y))
                } else {
                    None
                }
        } by {
            if q != p {
                assert(m.packets.contains_key(q));
                let y = choose|y: nat| #[trigger] got.contains((q, y));
                assert(next.contains((q, y)));
            }
        }
        assert(holds(t, after_m.packets, done, next));
        done
    }
}

/// Whether the groups hold nothing but shards that were sent, and every data shard
/// that can be computed from them.
spec fn tracks(t: Traffic, groups: Map<u64, GroupModel>) -> bool {
    forall|g: u64| #[trigger]
        groups.contains_key(g) ==> {
            &&& t.groups.contains_key(g)
            &&& groups[g].data == t.groups[g].data.len()
            &&& groups[g].parity == t.groups[g].parity
            &&& erasure::agrees(groups[g].slots, t.groups[g].word())
            &&& !groups[g].recovers()
        }
}

/// Whether a decoder holds data shard `i` of group `g`.
spec fn shard_held(t: Traffic, groups: Map<u64, GroupModel>, g: u64, i: int) -> bool {
    t.has_shard(g, i) && groups.contains_key(g) && groups[g].slots[i] is Some
}

/// The parts that the data shards of a decoder hold.
spec fn parts_held(t: Traffic, groups: Map<u64, GroupModel>) -> Set<(u64, nat)> {
    Set::new(
        |q: (u64, nat)|
            exists|g: u64, i: int| #[trigger] shard_held(t, groups, g, i) && t.mark(g, i) == q,
    )
}

/// Whether `slots` of group `g` has data shard `i` and `before` lacks it.
spec fn shard_new(
    t: Traffic,
    g: u64,
    before: Seq<Option<Seq<u8>>>,
    slots: Seq<Option<Seq<u8>>>,
    i: int,
) -> bool {
    t.has_shard(g, i) && before[i] is None && slots[i] is Some
}

/// The parts in `got`, and those of the first `n` data shards of group `g` that
/// `slots` has and `before` lacks.
spec fn parts_with_new(
    t: Traffic,
    got: Set<(u64, nat)>,
    g: u64,
    before: Seq<Option<Seq<u8>>>,
    slots: Seq<Option<Seq<u8>>>,
    n: nat,
) -> Set<(u64, nat)> {
    Set::new(
        |q: (u64, nat)|
            got.contains(q) || exists|i: int|
                i < n && #[trigger] shard_new(t, g, before, slots, i) && t.mark(g, i) == q,
    )
}

/// Delivering the new shards of a group delivers their parts, and that also where old
/// datagrams were dropped. Gives the datagrams that are then done.
proof fn lemma_deliver_new(
    t: Traffic,
    lean: DecoderModel,
    m: DecoderModel,
    done: Seq<u64>,
    got: Set<(u64, nat)>,
    g: u64,
    before: Seq<Option<Seq<u8>>>,
    slots: Seq<Option<Seq<u8>>>,
    n: nat,
    now: nat,
) -> (after: Seq<u64>)
    requires
        t.wf(),
        t.groups.contains_key(g),
        n <= t.groups[g].data.len(),
        erasure::agrees(slots, t.groups[g].word()),
        holds(t, m.packets, done, got),
        follows(lean, m, now),
        forall|i: int| #[trigger]
            shard_new(t, g, before, slots, i) ==> !got.contains(t.mark(g, i)) && young(
                m.packets,
                t.mark(g, i).0,
                now,
            ),
    ensures
        ({
            let list = decoder::new_shards(before, slots, n);
            &&& holds(
                t,
                m.with_fragments(list, now).packets,
                after,
                parts_with_new(t, got, g, before, slots, n),
            )
            &&& payloads(t, after) == payloads(t, done) + m.fragments_output(list, now)
            &&& done.is_prefix_of(after)
            &&& dated(m.packets, m.with_fragments(list, now).packets, now)
            &&& follows(lean.with_fragments(list, now), m.with_fragments(list, now), now)
            &&& lean.fragments_output(list, now) == m.fragments_output(list, now)
        }),
    decreases n,
{
    let list = decoder::new_shards(before, slots, n);
    let parts = parts_with_new(t, got, g, before, slots, n);
    if n == 0 {
        assert(parts =~= got);
        assert(payloads(t, done) =~= payloads(t, done) + m.fragments_output(list, now));
        done
    } else {
        let i = n - 1;
        let mid = lemma_deliver_new(
            t,
            lean,
            m,
            done,
            got,
            g,
            before,
            slots,
            (n - 1) as nat,
            now,
        );
        let shorter = decoder::new_shards(before, slots, (n - 1) as nat);
        let fewer = parts_with_new(t, got, g, before, slots, (n - 1) as nat);
        assert(t.has_shard(g, i));
        if before[i] is None && slots[i] is Some {
            assert(shard_new(t, g, before, slots, i));
            let shard = t.groups[g].data[i];
            assert(slots[i] == Some(t.groups[g].word()[i]));
            assert(t.groups[g].word()[i] == shard);
            assert(list == shorter.push(shard));
            assert(list.drop_last() =~= shorter);
            assert(!fewer.contains(t.mark(g, i))) by {
                if fewer.contains(t.mark(g, i)) {
                    let k = choose|k: int|
                        k < n - 1 && #[trigger] shard_new(t, g, before, slots, k) && t.mark(g, k)
                            == t.mark(g, i);
                    assert(t.has_shard(g, k) && t.has_shard(g, i));
                }
            }
            let here = m.with_fragments(shorter, now);
            let after = lemma_deliver_part(
                t,
                lean.with_fragments(shorter, now),
                here,
                mid,
                fewer,
                g,
                i,
                now,
            );
            assert(parts =~= fewer.insert(t.mark(g, i))) by {
                assert forall|q: (u64, nat)| parts.contains(q) implies fewer.insert(
                    t.mark(g, i),
                ).contains(q) by {
                    if !got.contains(q) {
                        let k = choose|k: int|
                            k < n && #[trigger] shard_new(t, g, before, slots, k) && t.mark(g, k)
                                == q;
                        assert(shard_new(t, g, before, slots, k));
                    }
                }
            }
            assert(payloads(t, after) =~= payloads(t, done) + m.fragments_output(list, now));
            let there = m.with_fragments(list, now);
            assert forall|p: u64| #[trigger] there.packets.contains_key(p) implies
                there.packets[p].created == if m.packets.contains_key(p) {
                m.packets[p].created
            } else {
                now
            } by {
                if m.packets.contains_key(p) && !here.packets.contains_key(p) {
                    let x = choose|x: nat| #[trigger] got.contains((p, x));
                    assert(fewer.contains((p, x)));
                    assert(mid.contains(p));
                    lemma_prefix_contains(mid, after, p);
                }
            }
            after
        } else {
            assert(list == shorter);
            assert(parts =~= fewer) by {
                assert forall|q: (u64, nat)| parts.contains(q) implies fewer.contains(q) by {
                    if !got.contains(q) {
                        let k = choose|k: int|
                            k < n && #[trigger] shard_new(t, g, before, slots, k) && t.mark(g, k)
                                == q;
                        assert(shard_new(t, g, before, slots, k));
                    }
                }
            }
            mid
        }
    }
}

/// What is in a prefix is in the whole.
proof fn lemma_prefix_contains(a: Seq<u64>, b: Seq<u64>, p: u64)
    requires
        a.is_prefix_of(b),
        a.contains(p),
    ensures
        b.contains(p),
{
    let at = choose|at: int| 0 <= at < a.len() && a[at] == p;
    assert(b[at] == a[at]);
}

/// Delivering two lists of shards is delivering the first and then the second.
proof fn lemma_fragments_concat(
    m: DecoderModel,
    first: Seq<Seq<u8>>,
    second: Seq<Seq<u8>>,
    now: nat,
)
    ensures
        m.with_fragments(first + second, now) == m.with_fragments(first, now).with_fragments(
            second,
            now,
        ),
        m.fragments_output(first + second, now) == m.fragments_output(first, now)
            + m.with_fragments(first, now).fragments_output(second, now),
    decreases second.len(),
{
    if second.len() == 0 {
        assert(first + second =~= first);
        assert(m.fragments_output(first, now) =~= m.fragments_output(first, now)
            + m.with_fragments(first, now).fragments_output(second, now));
    } else {
        lemma_fragments_concat(m, first, second.drop_last(), now);
        assert((first + second).drop_last() =~= first + second.drop_last());
        assert(m.fragments_output(first + second, now) =~= m.fragments_output(first, now)
            + m.with_fragments(first, now).fragments_output(second, now));
    }
}

/// Filling more slots fills no fewer.
proof fn lemma_present_grows(a: Seq<Option<Seq<u8>>>, b: Seq<Option<Seq<u8>>>)
    requires
        a.len() == b.len(),
        forall|i: int| 0 <= i < a.len() && (#[trigger] a[i]) is Some ==> b[i] is Some,
    ensures
        erasure::present(a) <= erasure::present(b) <= b.len(),
    decreases a.len(),
{
    if a.len() > 0 {
        assert forall|i: int|
            0 <= i < a.len() - 1 && (
            #[trigger] a.drop_last()[i]) is Some implies b.drop_last()[i] is Some by {
            assert(a[i] is Some);
        }
        lemma_present_grows(a.drop_last(), b.drop_last());
        assert(a.last() == a[a.len() - 1]);
    }
}

/// Slots of which as many are filled as there are, are all filled.
proof fn lemma_all_present(a: Seq<Option<Seq<u8>>>)
    requires
        erasure::present(a) >= a.len(),
    ensures
        forall|i: int| 0 <= i < a.len() ==> (#[trigger] a[i]) is Some,
    decreases a.len(),
{
    if a.len() > 0 {
        lemma_present_grows(a.drop_last(), a.drop_last());
        lemma_all_present(a.drop_last());
        assert forall|i: int| 0 <= i < a.len() implies (#[trigger] a[i]) is Some by {
            if i < a.len() - 1 {
                assert(a.drop_last()[i] == a[i]);
            }
        }
    }
}

/// The group of a frame once its shard is stored and what can be computed is.
spec fn settled_by(full: DecoderModel, f: FrameModel, now: nat) -> GroupModel {
    full.group_for(f, now).stored(f.index as int, f.payload).settled()
}

/// The shard of a frame of the traffic fits with those of its group.
proof fn lemma_store(t: Traffic, full: DecoderModel, f: FrameModel, now: nat)
    requires
        t.wf(),
        t.carries(f),
        tracks(t, full.groups),
    ensures
        decoder::frame_in_range(f),
        full.group_for(f, now).data == f.data,
        full.group_for(f, now).parity == f.parity,
        ({
            let group = full.group_for(f, now);
            let stored = group.stored(f.index as int, f.payload);
            &&& !stored.stuck()
            &&& group.slots.len() == stored.slots.len() == t.groups[f.group].word().len()
            &&& erasure::agrees(stored.slots, t.groups[f.group].word())
            &&& stored.slots[f.index as int] is Some
            &&& forall|i: int|
                0 <= i < group.slots.len() && (#[trigger] group.slots[i]) is Some
                    ==> stored.slots[i] is Some
            &&& forall|i: int|
                0 <= i < group.slots.len() && i != f.index && (#[trigger] stored.slots[i]) is Some
                    ==> group.slots[i] is Some
        }),
{
    let word = t.groups[f.group].word();
    assert(t.groups[f.group].wf());
    assert(decoder::frame_in_range(f)) by {
        assert(word[f.index as int].len() == word[0].len());
    }
    let group = full.group_for(f, now);
    let stored = group.stored(f.index as int, f.payload);
    assert(erasure::agrees(group.slots, word));
    assert(erasure::agrees(stored.slots, word));
    assert(erasure::uniform_slots(stored.slots)) by {
        assert forall|i: int, j: int|
            0 <= i < stored.slots.len() && 0 <= j < stored.slots.len() && (
            #[trigger] stored.slots[i]) is Some && (
            #[trigger] stored.slots[j]) is Some implies stored.slots[i]->0.len()
            == stored.slots[j]->0.len() > 0 by {
            assert(word[i].len() == word[0].len() > 0);
            assert(word[j].len() == word[0].len() > 0);
        }
    }
}

/// What is computed for a frame of the traffic are the data shards that were sent; no
/// slot is emptied.
proof fn lemma_settle(t: Traffic, full: DecoderModel, f: FrameModel, now: nat)
    requires
        t.wf(),
        t.carries(f),
        tracks(t, full.groups),
        full.group_for(f, now).stored(f.index as int, f.payload).recovers()
            ==> full.recovery_holds(f, now),
    ensures
        ({
            let group = full.group_for(f, now);
            let stored = group.stored(f.index as int, f.payload);
            let settled = settled_by(full, f, now);
            &&& group.slots.len() == settled.slots.len()
            &&& settled.data == group.data && settled.created == group.created
            &&& erasure::agrees(settled.slots, t.groups[f.group].word())
            &&& forall|i: int|
                0 <= i < group.slots.len() && (#[trigger] stored.slots[i]) is Some
                    ==> settled.slots[i] is Some
            &&& stored.recovers() || settled == stored
            &&& tracks(t, full.groups.insert(f.group, settled))
        }),
{
    lemma_store(t, full, f, now);
    let sent = t.groups[f.group];
    let word = sent.word();
    assert(sent.wf());
    let stored = full.group_for(f, now).stored(f.index as int, f.payload);
    let settled = stored.settled();
    if stored.recovers() {
        assert(erasure::uniform(sent.data)) by {
            assert forall|i: int| 0 <= i < sent.data.len() implies (#[trigger] sent.data[i]).len()
                == sent.data[0].len() > 0 by {
                assert(word[i] == sent.data[i] && word[0] == sent.data[0]);
                assert(word[i].len() == word[0].len() > 0);
            }
        }
        assert(erasure::agrees(stored.slots, erasure::codeword(sent.data, sent.parity)));
        assert(erasure::rs_fill(stored.slots, stored.data) == word);
        assert(settled.slots =~= erasure::filled(word));
    }
    assert(erasure::agrees(settled.slots, word));
    assert(!settled.recovers()) by {
        if settled.recovers() {
            assert(stored.recovers());
            let i = choose|i: int| 0 <= i < settled.data && (#[trigger] settled.slots[i]) is None;
            assert(settled.slots[i] is Some);
        }
    }
}

/// What the shards of a frame do: the datagrams that become complete come out, and
/// that also where what is old was dropped. Gives the datagrams that are then done.
proof fn lemma_take_shards(
    t: Traffic,
    lean: DecoderModel,
    full: DecoderModel,
    done: Seq<u64>,
    f: FrameModel,
    now: nat,
) -> (after: Seq<u64>)
    requires
        t.wf(),
        t.carries(f),
        tracks(t, full.groups),
        holds(t, full.packets, done, parts_held(t, full.groups)),
        follows(lean, full, now),
        lean.group_for(f, now) == full.group_for(f, now),
        full.group_for(f, now).stored(f.index as int, f.payload).recovers()
            ==> full.recovery_holds(f, now),
        forall|i: int| #[trigger]
            shard_new(
                t,
                f.group,
                full.group_for(f, now).slots,
                settled_by(full, f, now).slots,
                i,
            ) ==> young(full.packets, t.mark(f.group, i).0, now),
    ensures
        ({
            let settled = settled_by(full, f, now);
            let list = full.group_for(f, now).deliveries(f.index as int, f.payload);
            let here = lean.with_group(f.group, settled);
            let there = full.with_group(f.group, settled);
            &&& holds(
                t,
                there.with_fragments(list, now).packets,
                after,
                parts_held(t, there.groups),
            )
            &&& payloads(t, after) == payloads(t, done) + here.fragments_output(list, now)
            &&& done.is_prefix_of(after)
            &&& dated(full.packets, there.with_fragments(list, now).packets, now)
            &&& follows(here.with_fragments(list, now), there.with_fragments(list, now), now)
            &&& here.with_fragments(list, now).groups == here.groups
            &&& there.with_fragments(list, now).groups == there.groups
        }),
{
    lemma_store(t, full, f, now);
    lemma_settle(t, full, f, now);
    let g = f.group;
    let index = f.index as int;
    let group = full.group_for(f, now);
    let stored = group.stored(index, f.payload);
    let settled = settled_by(full, f, now);
    let got = parts_held(t, full.groups);
    let here = lean.with_group(g, settled);
    let there = full.with_group(g, settled);
    assert(follows(here, there, now));
    let first = decoder::new_shards(group.slots, stored.slots, group.data);
    let second = decoder::new_shards(stored.slots, settled.slots, group.data);
    assert(group.deliveries(index, f.payload) == first + second);
    assert forall|i: int| #[trigger] shard_new(t, g, group.slots, stored.slots, i) implies
        !got.contains(t.mark(g, i)) && young(there.packets, t.mark(g, i).0, now) by {
        lemma_mark_not_held(t, full.groups, g, i);
        assert(stored.slots[i] is Some);
        assert(shard_new(t, g, group.slots, settled.slots, i));
    }
    let mid = lemma_deliver_new(
        t,
        here,
        there,
        done,
        got,
        g,
        group.slots,
        stored.slots,
        group.data,
        now,
    );
    let more = parts_with_new(t, got, g, group.slots, stored.slots, group.data);
    let halfway = there.with_fragments(first, now);
    assert forall|i: int| #[trigger] shard_new(t, g, stored.slots, settled.slots, i) implies
        !more.contains(t.mark(g, i)) && young(halfway.packets, t.mark(g, i).0, now) by {
        assert(group.slots[i] is None);
        lemma_mark_not_held(t, full.groups, g, i);
        assert(shard_new(t, g, group.slots, settled.slots, i));
        if more.contains(t.mark(g, i)) {
            let k = choose|k: int|
                k < group.data && #[trigger] shard_new(t, g, group.slots, stored.slots, k)
                    && t.mark(g, k) == t.mark(g, i);
            assert(t.has_shard(g, k) && t.has_shard(g, i));
        }
    }
    let after = lemma_deliver_new(
        t,
        here.with_fragments(first, now),
        halfway,
        mid,
        more,
        g,
        stored.slots,
        settled.slots,
        group.data,
        now,
    );
    lemma_fragments_concat(here, first, second, now);
    lemma_fragments_concat(there, first, second, now);
    decoder::lemma_fragments_touch_packets(here, first + second, now);
    decoder::lemma_fragments_touch_packets(there, first + second, now);
    let all = parts_with_new(t, more, g, stored.slots, settled.slots, group.data);
    assert(all =~= parts_held(t, there.groups)) by {
        lemma_parts_add_up(t, full.groups, g, group, stored, settled);
    }
    assert(payloads(t, after) =~= payloads(t, done) + here.fragments_output(first + second, now));
    let end = there.with_fragments(first + second, now);
    assert(dated(full.packets, end.packets, now)) by {
        assert forall|p: u64| #[trigger] end.packets.contains_key(p) implies
            end.packets[p].created == if full.packets.contains_key(p) {
            full.packets[p].created
        } else {
            now
        } by {
            if full.packets.contains_key(p) && !halfway.packets.contains_key(p) {
                let x = choose|x: nat| #[trigger] got.contains((p, x));
                assert(more.contains((p, x)));
                assert(mid.contains(p));
                lemma_prefix_contains(mid, after, p);
            }
        }
    }
    after
}

/// The mark of a data shard that is not held is not among the parts held.
proof fn lemma_mark_not_held(t: Traffic, groups: Map<u64, GroupModel>, g: u64, i: int)
    requires
        t.wf(),
        t.has_shard(g, i),
        groups.contains_key(g) ==> groups[g].slots[i] is None,
    ensures
        !parts_held(t, groups).contains(t.mark(g, i)),
{
    if parts_held(t, groups).contains(t.mark(g, i)) {
        let (h, j) = choose|h: u64, j: int| #[trigger]
            shard_held(t, groups, h, j) && t.mark(h, j) == t.mark(g, i);
        assert(t.has_shard(h, j) && t.has_shard(g, i));
    }
}

/// The parts held before, those of the shard that arrived and those computed are
/// the parts held afterwards.
proof fn lemma_parts_add_up(
    t: Traffic,
    groups: Map<u64, GroupModel>,
    g: u64,
    group: GroupModel,
    stored: GroupModel,
    settled: GroupModel,
)
    requires
        t.groups.contains_key(g),
        group.data == t.groups[g].data.len(),
        group.slots.len() == stored.slots.len() == settled.slots.len(),
        group.data <= group.slots.len(),
        groups.contains_key(g) ==> group == groups[g],
        !groups.contains_key(g) ==> forall|i: int|
            0 <= i < group.slots.len() ==> (#[trigger] group.slots[i]) is None,
        forall|i: int|
            0 <= i < group.slots.len() && (#[trigger] group.slots[i]) is Some
                ==> stored.slots[i] is Some,
        forall|i: int|
            0 <= i < group.slots.len() && (#[trigger] stored.slots[i]) is Some
                ==> settled.slots[i] is Some,
    ensures
        parts_with_new(
            t,
            parts_with_new(
                t,
                parts_held(t, groups),
                g,
                group.slots,
                stored.slots,
                group.data,
            ),
            g,
            stored.slots,
            settled.slots,
            group.data,
        ) == parts_held(t, groups.insert(g, settled)),
{
    let got = parts_held(t, groups);
    let more = parts_with_new(t, got, g, group.slots, stored.slots, group.data);
    let all = parts_with_new(t, more, g, stored.slots, settled.slots, group.data);
    let now_held = groups.insert(g, settled);
    assert forall|q: (u64, nat)| all.contains(q) implies parts_held(t, now_held).contains(q) by {
        if got.contains(q) {
            let (h, j) = choose|h: u64, j: int| #[trigger]
                shard_held(t, groups, h, j) && t.mark(h, j) == q;
            assert(h == g ==> stored.slots[j] is Some);
            assert(shard_held(t, now_held, h, j));
        } else if more.contains(q) {
            let k = choose|k: int|
                k < group.data && #[trigger] shard_new(t, g, group.slots, stored.slots, k)
                    && t.mark(g, k) == q;
            assert(stored.slots[k] is Some);
            assert(shard_held(t, now_held, g, k));
        } else {
            let k = choose|k: int|
                k < group.data && #[trigger] shard_new(t, g, stored.slots, settled.slots, k)
                    && t.mark(g, k) == q;
            assert(shard_held(t, now_held, g, k));
        }
    }
    assert forall|q: (u64, nat)| parts_held(t, now_held).contains(q) implies all.contains(q) by {
        let (h, j) = choose|h: u64, j: int| #[trigger]
            shard_held(t, now_held, h, j) && t.mark(h, j) == q;
        if h != g {
            assert(shard_held(t, groups, h, j));
        } else if group.slots[j] is Some {
            assert(shard_held(t, groups, g, j));
        } else if stored.slots[j] is Some {
            assert(shard_new(t, g, group.slots, stored.slots, j));
        } else {
            assert(shard_new(t, g, stored.slots, settled.slots, j));
        }
    }
    assert(all =~= parts_held(t, now_held));
}

/// What a fresh decoder was given, at which times, and what it made of it. Before
/// some of the frames it reported the loss up to then.
pub struct Reception {
    pub frames: Seq<FrameModel>,
    pub reports: Seq<bool>,
    pub times: Seq<nat>,
    pub states: Seq<DecoderModel>,
    pub outs: Seq<Result<Seq<Seq<u8>>, DecodeError>>,
}

impl Reception {
    /// The decoder that frame number `j` comes to.
    pub open spec fn before(self, j: int) -> DecoderModel {
        if self.reports[j] {
            self.states[j].reported()
        } else {
            self.states[j]
        }
    }

    /// Whether the states and outputs are those that the frames lead to.
    pub open spec fn runs(self, session: u64) -> bool {
        &&& self.states.len() == self.frames.len() + 1
        &&& self.reports.len() == self.frames.len()
        &&& self.times.len() == self.frames.len()
        &&& self.outs.len() == self.frames.len()
        &&& self.states[0] == DecoderModel::fresh(session)
        &&& forall|j: int|
            0 <= j < self.frames.len() ==> decoder::frame_step(
                self.before(j),
                #[trigger] self.frames[j],
                self.times[j],
                self.states[j + 1],
                self.outs[j],
            )
    }

    /// Whether frame number `l` comes with number `j`, and before frame number `i`.
    pub open spec fn came_before(self, l: int, i: int, j: int) -> bool {
        0 <= l < i && self.frames[l].sequence == self.frames[j].sequence
    }

    /// Whether a frame that comes after a loss report is not behind the reorder
    /// window of the frames before that report, or is a repetition of one of them.
    pub open spec fn timely(self) -> bool {
        forall|j: int, i: int, k: int|
            0 <= j < i <= k < self.frames.len() && #[trigger] self.reports[i] && (
            #[trigger] self.frames[j]).sequence >= (#[trigger] self.frames[k]).sequence
                + REORDER_WINDOW ==> exists|l: int| #[trigger] self.came_before(l, i, k)
    }

    /// Whether the frames are from `t` or loss reports of its sender, the one with
    /// the lowest number first.
    pub open spec fn receives(self, t: Traffic) -> bool {
        &&& self.timely()
        &&& forall|j: int|
            0 <= j < self.frames.len() ==> {
                &&& t.carries(#[trigger] self.frames[j]) || t.reports(self.frames[j])
                &&& 0 < self.frames[0].sequence <= self.frames[j].sequence
            }
        &&& forall|j: int, k: int|
            0 <= j < self.frames.len() && 0 <= k < self.frames.len() && (
            #[trigger] self.frames[j]).sequence == (#[trigger] self.frames[k]).sequence
                ==> self.frames[j] == self.frames[k]
    }

    /// The datagrams that the first `n` frames gave.
    pub open spec fn output(self, n: nat) -> Seq<Seq<u8>>
        decreases n,
    {
        if n == 0 {
            Seq::empty()
        } else {
            self.output((n - 1) as nat) + match self.outs[n - 1] {
                Ok(datagrams) => datagrams,
                Err(_) => Seq::empty(),
            }
        }
    }

    /// Whether frame number `j` is one of group `g`.
    pub open spec fn is_of(self, j: int, g: u64) -> bool {
        &&& 0 <= j < self.frames.len()
        &&& self.frames[j].group == g
        &&& self.frames[j].kind != KIND_REPORT
    }

    /// Whether shard `i` of group `g` came in one of the first `n` frames.
    pub open spec fn arrived(self, n: nat, g: u64, i: int) -> bool {
        exists|j: int| 0 <= j < n && #[trigger] self.is_of(j, g) && self.frames[j].index == i
    }

    /// The shards of group `g` that came in the first `n` frames.
    pub open spec fn arrivals(self, n: nat, t: Traffic, g: u64) -> Seq<Option<Seq<u8>>> {
        Seq::new(
            t.groups[g].word().len(),
            |i: int|
                if self.arrived(n, g, i) {
                    Some(t.groups[g].word()[i])
                } else {
                    None
                },
        )
    }

    /// Whether as many shards of group `g` came in the first `n` frames as it has data
    /// shards.
    pub open spec fn enough(self, n: nat, t: Traffic, g: u64) -> bool {
        erasure::present(self.arrivals(n, t, g)) >= t.groups[g].data.len()
    }

    /// Whether data shard `i` of group `g` came in the first `n` frames, or enough
    /// others of its group did.
    pub open spec fn recoverable(self, n: nat, t: Traffic, g: u64, i: int) -> bool {
        self.arrived(n, g, i) || self.enough(n, t, g)
    }

    /// Whether the first `n` frames give a shard with part `x` of datagram `p`.
    pub open spec fn part_recoverable(self, n: nat, t: Traffic, p: u64, x: nat) -> bool {
        exists|g: u64, i: int| #[trigger]
            t.has_shard(g, i) && t.mark(g, i) == (p, x) && self.recoverable(n, t, g, i)
    }

    /// Whether the first `n` frames give every part of datagram `p`.
    pub open spec fn datagram_recoverable(self, n: nat, t: Traffic, p: u64) -> bool {
        forall|x: nat| x < t.parts(p) ==> #[trigger] self.part_recoverable(n, t, p, x)
    }

    /// Whether frame number `k` or one before it gave a part of datagram `p`.
    pub open spec fn begun(self, k: int, t: Traffic, p: u64) -> bool {
        exists|x: nat| #[trigger] self.part_recoverable((k + 1) as nat, t, p, x)
    }

    /// Whether frame number `k`, and none before it, gave part `x` of datagram `p`.
    pub open spec fn gains(self, k: int, t: Traffic, p: u64, x: nat) -> bool {
        &&& !self.part_recoverable(k as nat, t, p, x)
        &&& self.part_recoverable((k + 1) as nat, t, p, x)
    }

    /// Whether time does not run backwards.
    pub open spec fn clock_runs(self) -> bool {
        forall|j: int, k: int|
            0 <= j <= k < self.times.len() ==> #[trigger] self.times[j] <= #[trigger] self.times[k]
    }

    /// Whether frame number `k` is a repetition.
    pub open spec fn repeated(self, k: int) -> bool {
        exists|l: int| #[trigger] self.came_before(l, k, k)
    }

    /// Whether every frame of a group, but for repetitions, comes before the group is
    /// too old.
    pub open spec fn groups_prompt(self) -> bool {
        forall|j: int, k: int, g: u64|
            j < k && #[trigger] self.is_of(j, g) && #[trigger] self.is_of(k, g) && !self.repeated(k)
                ==> self.times[k] < self.times[j] + GROUP_TTL
    }

    /// Whether every part of a datagram comes before the datagram is too old.
    pub open spec fn parts_prompt(self, t: Traffic) -> bool {
        forall|j: int, k: int, p: u64, x: nat|
            0 <= j <= k < self.frames.len() && #[trigger] self.gains(k, t, p, x)
                && #[trigger] self.begun(j, t, p) ==> self.times[k] < self.times[j]
                + REASSEMBLY_TTL
    }

    /// The groups of which a frame came by frame number `k`, and none so long ago that
    /// the group is too old then.
    pub open spec fn groups_alive(self, k: int) -> Set<u64> {
        Set::new(
            |g: u64|
                {
                    &&& exists|j: int| j <= k && #[trigger] self.is_of(j, g)
                    &&& forall|j: int| #[trigger]
                        self.is_of(j, g) && j <= k ==> self.times[k] < self.times[j] + GROUP_TTL
                },
        )
    }

    /// The datagrams of which some parts came by frame number `k`, not all of them, and
    /// none so long ago that the datagram is too old then.
    pub open spec fn datagrams_alive(self, k: int, t: Traffic) -> Set<u64> {
        Set::new(
            |p: u64|
                {
                    &&& self.begun(k, t, p)
                    &&& !self.datagram_recoverable((k + 1) as nat, t, p)
                    &&& forall|j: int| #[trigger]
                        self.begun(j, t, p) && 0 <= j <= k ==> self.times[k] < self.times[j]
                            + REASSEMBLY_TTL
                },
        )
    }

    /// Whether no more groups are alive at a time than a decoder keeps.
    pub open spec fn groups_fit(self) -> bool {
        forall|k: int|
            0 <= k < self.frames.len() ==> (#[trigger] self.groups_alive(k)).len() <= MAX_GROUPS
    }

    /// Whether no more datagrams are alive at a time than a decoder keeps.
    pub open spec fn datagrams_fit(self, t: Traffic) -> bool {
        forall|k: int|
            0 <= k < self.frames.len() ==> (#[trigger] self.datagrams_alive(k, t)).len()
                <= MAX_REASSEMBLIES
    }

    /// Whether frames come before what they belong to is too old, and without more
    /// being alive at a time than a decoder keeps.
    pub open spec fn in_time(self, t: Traffic) -> bool {
        &&& self.clock_runs()
        &&& self.groups_prompt()
        &&& self.parts_prompt(t)
        &&& self.groups_fit()
        &&& self.datagrams_fit(t)
    }
}

/// No slot is filled where none is.
proof fn lemma_none_present(a: Seq<Option<Seq<u8>>>)
    requires
        forall|i: int| 0 <= i < a.len() ==> (#[trigger] a[i]) is None,
    ensures
        erasure::present(a) == 0,
    decreases a.len(),
{
    if a.len() > 0 {
        lemma_none_present(a.drop_last());
    }
}

/// What came once has come.
proof fn lemma_recoverable_grows(r: Reception, t: Traffic, k: nat, n: nat)
    requires
        k <= n,
    ensures
        forall|g: u64, i: int| #[trigger] r.arrived(k, g, i) ==> r.arrived(n, g, i),
        forall|g: u64| #[trigger] r.enough(k, t, g) ==> r.enough(n, t, g),
        forall|g: u64, i: int| #[trigger]
            r.recoverable(k, t, g, i) ==> r.recoverable(n, t, g, i),
        forall|p: u64, x: nat| #[trigger]
            r.part_recoverable(k, t, p, x) ==> r.part_recoverable(n, t, p, x),
{
    assert forall|g: u64, i: int| #[trigger] r.arrived(k, g, i) implies r.arrived(n, g, i) by {
        let j = choose|j: int| 0 <= j < k && #[trigger] r.is_of(j, g) && r.frames[j].index == i;
        assert(r.is_of(j, g));
    }
    assert forall|g: u64| #[trigger] r.enough(k, t, g) implies r.enough(n, t, g) by {
        let a = r.arrivals(k, t, g);
        let b = r.arrivals(n, t, g);
        assert forall|i: int|
            0 <= i < a.len() && (#[trigger] a[i]) is Some implies b[i] is Some by {
            assert(r.arrived(k, g, i));
        }
        lemma_present_grows(a, b);
    }
    assert forall|p: u64, x: nat| #[trigger]
        r.part_recoverable(k, t, p, x) implies r.part_recoverable(n, t, p, x) by {
        let (g, i) = choose|g: u64, i: int| #[trigger]
            t.has_shard(g, i) && t.mark(g, i) == (p, x) && r.recoverable(k, t, g, i);
        assert(t.has_shard(g, i) && r.recoverable(n, t, g, i));
    }
}

/// Whether frame number `n` brings no shard that had not come.
spec fn brings_nothing(r: Reception, n: nat) -> bool {
    forall|g: u64, i: int| #[trigger] r.arrived(n + 1, g, i) ==> r.arrived(n, g, i)
}

/// Where no new shard comes, nothing can be had that could not.
proof fn lemma_nothing_new(r: Reception, t: Traffic, n: nat)
    requires
        brings_nothing(r, n),
    ensures
        forall|g: u64, i: int| #[trigger]
            r.recoverable(n + 1, t, g, i) == r.recoverable(n, t, g, i),
        forall|p: u64, x: nat| #[trigger]
            r.part_recoverable(n + 1, t, p, x) == r.part_recoverable(n, t, p, x),
{
    lemma_recoverable_grows(r, t, n, n + 1);
    assert forall|g: u64, i: int| #[trigger]
        r.recoverable(n + 1, t, g, i) == r.recoverable(n, t, g, i) by {
        assert(r.arrived(n, g, i) ==> r.arrived(n + 1, g, i));
        assert(r.arrivals(n + 1, t, g) =~= r.arrivals(n, t, g)) by {
            assert forall|k: int| r.arrived(n + 1, g, k) == r.arrived(n, g, k) by {
                assert(r.arrived(n, g, k) ==> r.arrived(n + 1, g, k));
            }
        }
    }
    assert forall|p: u64, x: nat| #[trigger]
        r.part_recoverable(n + 1, t, p, x) == r.part_recoverable(n, t, p, x) by {
        if r.part_recoverable(n + 1, t, p, x) {
            let (g, i) = choose|g: u64, i: int| #[trigger]
                t.has_shard(g, i) && t.mark(g, i) == (p, x) && r.recoverable(n + 1, t, g, i);
            assert(t.has_shard(g, i) && r.recoverable(n, t, g, i));
        }
    }
}

/// Whether just those slots are filled whose shards came in the first `n` frames, or
/// whose group could be computed.
spec fn slots_match(t: Traffic, r: Reception, n: nat, groups: Map<u64, GroupModel>) -> bool {
    &&& forall|g: u64, i: int| #[trigger]
        r.arrived(n, g, i) ==> groups.contains_key(g) && groups[g].slots[i] is Some
    &&& forall|g: u64, i: int|
        groups.contains_key(g) && 0 <= i < groups[g].slots.len() && (
        #[trigger] groups[g].slots[i]) is Some ==> r.recoverable(n, t, g, i)
}

/// Whether groups have been there since their first frame.
spec fn groups_dated(r: Reception, n: nat, groups: Map<u64, GroupModel>) -> bool {
    forall|g: u64| #[trigger]
        groups.contains_key(g) ==> {
            &&& exists|j: int| j < n && #[trigger] r.is_of(j, g) && r.times[j] == groups[g].created
            &&& forall|j: int| #[trigger]
                r.is_of(j, g) && j < n ==> groups[g].created <= r.times[j]
        }
}

/// Whether datagrams in parts have been there since their first part.
spec fn packets_dated(
    t: Traffic,
    r: Reception,
    n: nat,
    packets: Map<u64, ReassemblyModel>,
) -> bool {
    forall|p: u64| #[trigger]
        packets.contains_key(p) ==> {
            &&& exists|j: int|
                0 <= j < n && #[trigger] r.begun(j, t, p) && r.times[j] == packets[p].created
            &&& forall|j: int| #[trigger]
                r.begun(j, t, p) && 0 <= j < n ==> packets[p].created <= r.times[j]
        }
}

/// A data shard is held just if it can be had.
proof fn lemma_held_is_recoverable(
    t: Traffic,
    r: Reception,
    n: nat,
    groups: Map<u64, GroupModel>,
    g: u64,
    i: int,
)
    requires
        t.wf(),
        tracks(t, groups),
        slots_match(t, r, n, groups),
        t.has_shard(g, i),
    ensures
        shard_held(t, groups, g, i) == r.recoverable(n, t, g, i),
{
    assert(t.groups[g].wf());
    if r.recoverable(n, t, g, i) && !r.arrived(n, g, i) {
        let came = r.arrivals(n, t, g);
        assert(exists|k: int| 0 <= k < came.len() && (#[trigger] came[k]) is Some) by {
            if forall|k: int| 0 <= k < came.len() ==> (#[trigger] came[k]) is None {
                lemma_none_present(came);
            }
        }
        let k = choose|k: int| 0 <= k < came.len() && (#[trigger] came[k]) is Some;
        assert(r.arrived(n, g, k));
        let group = groups[g];
        assert forall|x: int| 0 <= x < came.len() && (#[trigger] came[x]) is Some implies
            group.slots[x] is Some by {
            assert(r.arrived(n, g, x));
        }
        lemma_present_grows(came, group.slots);
        if group.parity == 0 {
            lemma_all_present(group.slots);
        }
        assert(group.slots[i] is Some) by {
            if group.slots[i] is None {
                assert(group.lacks_data());
            }
        }
    }
}

/// The parts held are just those that can be had.
proof fn lemma_parts_are_recoverable(
    t: Traffic,
    r: Reception,
    n: nat,
    groups: Map<u64, GroupModel>,
)
    requires
        t.wf(),
        tracks(t, groups),
        slots_match(t, r, n, groups),
    ensures
        forall|p: u64, x: nat| #[trigger]
            parts_held(t, groups).contains((p, x)) <==> r.part_recoverable(n, t, p, x),
        forall|p: u64, x: nat| #[trigger]
            r.part_recoverable(n, t, p, x) <==> parts_held(t, groups).contains((p, x)),
{
    assert forall|p: u64, x: nat| #[trigger]
        parts_held(t, groups).contains((p, x)) <==> r.part_recoverable(n, t, p, x) by {
        if parts_held(t, groups).contains((p, x)) {
            let (g, i) = choose|g: u64, i: int| #[trigger]
                shard_held(t, groups, g, i) && t.mark(g, i) == (p, x);
            lemma_held_is_recoverable(t, r, n, groups, g, i);
            assert(t.has_shard(g, i));
        }
        if r.part_recoverable(n, t, p, x) {
            let (g, i) = choose|g: u64, i: int| #[trigger]
                t.has_shard(g, i) && t.mark(g, i) == (p, x) && r.recoverable(n, t, g, i);
            lemma_held_is_recoverable(t, r, n, groups, g, i);
            assert(shard_held(t, groups, g, i));
        }
    }
}

/// Whether frame number `j` has the sequence number `s`.
spec fn is_numbered(r: Reception, j: int, s: nat) -> bool {
    r.frames[j].sequence == s
}

/// Whether a report before frame number `i` gave up on all that is behind the
/// reorder window of frame number `j`, up to `s`.
spec fn gave_up(r: Reception, i: int, j: int, s: nat) -> bool {
    &&& 0 <= j < i
    &&& r.reports[i]
    &&& r.frames[j].sequence == s + REORDER_WINDOW
}

/// Whether a decoder has seen just the sequence numbers of the first `n` frames,
/// but for those that it no longer waits for.
#[verifier::opaque]
spec fn numbers_seen(r: Reception, m: DecoderModel, n: nat, reports: nat) -> bool {
    if n == 0 {
        m.untouched()
    } else {
        &&& m.highest > 0
        &&& exists|j: int| 0 <= j < n && #[trigger] is_numbered(r, j, m.highest)
        &&& m.finalized == r.frames[0].sequence - 1 || exists|i: int, j: int|
            i < reports && #[trigger] gave_up(r, i, j, m.finalized)
        &&& forall|s: u64| #[trigger] m.seen.contains(s) ==> s <= m.highest
        &&& forall|s: u64| #[trigger]
            m.seen.contains(s) <==> s > m.finalized && exists|j: int|
                0 <= j < n && #[trigger] is_numbered(r, j, s as nat)
    }
}

/// A report keeps track of the numbers that have come.
proof fn lemma_report_keeps_numbers(r: Reception, n: nat)
    requires
        n < r.frames.len(),
        n < r.states.len(),
        r.frames[0].sequence > 0,
        numbers_seen(r, r.states[n as int], n, n),
    ensures
        numbers_seen(r, r.before(n as int), n, n + 1),
        n > 0 ==> !r.before(n as int).untouched(),
{
    reveal(numbers_seen);
    let m = r.states[n as int];
    let after = r.before(n as int);
    if n > 0 {
        let top = choose|j: int| 0 <= j < n && #[trigger] is_numbered(r, j, m.highest);
        assert(is_numbered(r, top, after.highest));
        if r.reports[n as int] && m.report_due() {
            assert(gave_up(r, n as int, top, after.finalized));
        } else {
            assert(after == m);
            if m.finalized != r.frames[0].sequence - 1 {
                let (i, j) = choose|i: int, j: int|
                    i < n && #[trigger] gave_up(r, i, j, m.finalized);
                assert(gave_up(r, i, j, after.finalized));
            }
        }
    }
}

/// A frame that is not new is a repetition.
proof fn lemma_refused_is_repeated(t: Traffic, r: Reception, n: nat) -> (k: int)
    requires
        r.runs(t.session),
        r.receives(t),
        n < r.frames.len(),
        numbers_seen(r, r.before(n as int), n, n + 1),
        n > 0 ==> !r.before(n as int).untouched(),
        !r.before(n as int).accepts(r.frames[n as int].sequence),
    ensures
        0 <= k < n,
        r.frames[k] == r.frames[n as int],
        r.before(n as int).observed(r.frames[n as int].sequence) == r.before(n as int),
{
    reveal(numbers_seen);
    let m = r.before(n as int);
    let f = r.frames[n as int];
    assert(0 < r.frames[0].sequence <= f.sequence);
    assert(m.seen.contains(f.sequence) ==> m.seen.insert(f.sequence) =~= m.seen);
    assert(m.observed(f.sequence) =~= m);
    let k = if m.seen.contains(f.sequence) {
        choose|k: int| 0 <= k < n && #[trigger] is_numbered(r, k, f.sequence as nat)
    } else {
        let (i, j) = choose|i: int, j: int| i < n + 1 && #[trigger] gave_up(r, i, j, m.finalized);
        assert(r.reports[i] && r.frames[j].sequence >= f.sequence + REORDER_WINDOW);
        choose|l: int| #[trigger] r.came_before(l, i, n as int)
    };
    assert(r.frames[k].sequence == r.frames[n as int].sequence);
    k
}

/// A new frame is added to the numbers that have come.
proof fn lemma_accepted_is_seen(r: Reception, m: DecoderModel, next: DecoderModel, n: nat)
    requires
        n < r.frames.len(),
        0 < r.frames[0].sequence,
        numbers_seen(r, m, n, n + 1),
        n > 0 ==> !m.untouched(),
        m.accepts(r.frames[n as int].sequence),
        next == (DecoderModel {
            groups: next.groups,
            packets: next.packets,
            ..m.observed(r.frames[n as int].sequence)
        }),
    ensures
        numbers_seen(r, next, n + 1, n + 1),
{
    reveal(numbers_seen);
    let f = r.frames[n as int];
    assert(is_numbered(r, n as int, f.sequence as nat));
    if n > 0 {
        let top = choose|j: int| 0 <= j < n && #[trigger] is_numbered(r, j, m.highest);
        assert(is_numbered(r, top, m.highest));
        if m.finalized != r.frames[0].sequence - 1 {
            let (i, j) = choose|i: int, j: int|
                i < n + 1 && #[trigger] gave_up(r, i, j, m.finalized);
            assert(gave_up(r, i, j, next.finalized));
        }
    }
    if f.sequence > m.highest {
        assert(is_numbered(r, n as int, next.highest));
    } else {
        assert(next.highest == m.highest);
    }
    assert forall|s: u64| #[trigger] next.seen.contains(s) <==> s > next.finalized && exists|j: int|
        0 <= j < n + 1 && #[trigger] is_numbered(r, j, s as nat) by {
        if next.seen.contains(s) && s != f.sequence {
            assert(m.seen.contains(s));
            let j = choose|j: int| 0 <= j < n && #[trigger] is_numbered(r, j, s as nat);
            assert(is_numbered(r, j, s as nat));
        }
        if s > next.finalized && s != f.sequence && exists|j: int|
            0 <= j < n + 1 && #[trigger] is_numbered(r, j, s as nat) {
            let j = choose|j: int| 0 <= j < n + 1 && #[trigger] is_numbered(r, j, s as nat);
            assert(j < n);
            assert(m.seen.contains(s));
        }
    }
    assert(exists|j: int| 0 <= j < n + 1 && #[trigger] is_numbered(r, j, next.highest));
}

/// A repetition adds nothing to the numbers that have come.
proof fn lemma_repeated_is_seen(r: Reception, m: DecoderModel, n: nat, k: int)
    requires
        n < r.frames.len(),
        numbers_seen(r, m, n, n + 1),
        0 <= k < n,
        r.frames[k] == r.frames[n as int],
    ensures
        numbers_seen(r, m, n + 1, n + 1),
{
    reveal(numbers_seen);
    let top = choose|j: int| 0 <= j < n && #[trigger] is_numbered(r, j, m.highest);
    assert(is_numbered(r, top, m.highest));
    assert forall|s: u64| #[trigger] m.seen.contains(s) <==> s > m.finalized && exists|j: int|
        0 <= j < n + 1 && #[trigger] is_numbered(r, j, s as nat) by {
        if m.seen.contains(s) {
            let j = choose|j: int| 0 <= j < n && #[trigger] is_numbered(r, j, s as nat);
            assert(is_numbered(r, j, s as nat));
        }
        if s > m.finalized && exists|j: int|
            0 <= j < n + 1 && #[trigger] is_numbered(r, j, s as nat) {
            let j = choose|j: int| 0 <= j < n + 1 && #[trigger] is_numbered(r, j, s as nat);
            let h = if j == n {
                k
            } else {
                j
            };
            assert(is_numbered(r, h, s as nat));
            assert(m.seen.contains(s));
        }
    }
}

/// When the last of the first `n` frames came.
spec fn time_after(r: Reception, n: nat) -> nat {
    if n == 0 {
        0
    } else {
        r.times[n - 1]
    }
}

/// What holds after the first `n` frames: a decoder that drops what is old follows
/// one that drops nothing, and that one holds all that can be had.
spec fn keeps(
    t: Traffic,
    r: Reception,
    n: nat,
    m: DecoderModel,
    full: DecoderModel,
    done: Seq<u64>,
) -> bool {
    &&& m.session == t.session
    &&& follows(m, full, time_after(r, n))
    &&& m.packets.len() <= MAX_REASSEMBLIES
    &&& tracks(t, full.groups)
    &&& slots_match(t, r, n, full.groups)
    &&& holds(t, full.packets, done, parts_held(t, full.groups))
    &&& groups_dated(r, n, full.groups)
    &&& packets_dated(t, r, n, full.packets)
}

/// A frame that brings nothing new leaves all as it is.
proof fn lemma_idle_frame(
    t: Traffic,
    r: Reception,
    n: nat,
    m: DecoderModel,
    next: DecoderModel,
    full: DecoderModel,
    done: Seq<u64>,
)
    requires
        r.runs(t.session),
        r.receives(t),
        r.clock_runs(),
        n < r.frames.len(),
        keeps(t, r, n, m, full, done),
        next.session == m.session,
        next.groups == m.groups,
        next.packets == m.packets,
        brings_nothing(r, n),
    ensures
        keeps(t, r, n + 1, next, full, done),
{
    lemma_nothing_new(r, t, n);
    lemma_recoverable_grows(r, t, n, n + 1);
    assert(time_after(r, n) <= time_after(r, n + 1));
    assert forall|g: u64, i: int| #[trigger] r.arrived(n + 1, g, i) implies
        full.groups.contains_key(g) && full.groups[g].slots[i] is Some by {
        assert(r.arrived(n, g, i));
    }
    assert forall|g: u64, i: int|
        full.groups.contains_key(g) && 0 <= i < full.groups[g].slots.len() && (
        #[trigger] full.groups[g].slots[i]) is Some implies r.recoverable(n + 1, t, g, i) by {
        assert(r.recoverable(n, t, g, i));
    }
    assert forall|g: u64| #[trigger] full.groups.contains_key(g) implies {
        &&& exists|j: int|
            j < n + 1 && #[trigger] r.is_of(j, g) && r.times[j] == full.groups[g].created
        &&& forall|j: int| #[trigger]
            r.is_of(j, g) && j < n + 1 ==> full.groups[g].created <= r.times[j]
    } by {
        let j = choose|j: int|
            j < n && #[trigger] r.is_of(j, g) && r.times[j] == full.groups[g].created;
        assert(r.is_of(j, g) && j < n + 1);
    }
    assert forall|p: u64| #[trigger] full.packets.contains_key(p) implies {
        &&& exists|j: int|
            0 <= j < n + 1 && #[trigger] r.begun(j, t, p) && r.times[j] == full.packets[p].created
        &&& forall|j: int| #[trigger]
            r.begun(j, t, p) && 0 <= j < n + 1 ==> full.packets[p].created <= r.times[j]
    } by {
        let j = choose|j: int|
            0 <= j < n && #[trigger] r.begun(j, t, p) && r.times[j] == full.packets[p].created;
        assert(r.begun(j, t, p) && j < n + 1);
    }
}

/// Storing a frame fills just those slots whose shards can now be had.
proof fn lemma_slots_match(
    t: Traffic,
    r: Reception,
    n: nat,
    full: DecoderModel,
    now: nat,
)
    requires
        t.wf(),
        r.receives(t),
        n < r.frames.len(),
        t.carries(r.frames[n as int]),
        tracks(t, full.groups),
        slots_match(t, r, n, full.groups),
        full.group_for(r.frames[n as int], now).stored(
            r.frames[n as int].index as int,
            r.frames[n as int].payload,
        ).recovers() ==> full.recovery_holds(r.frames[n as int], now),
    ensures
        slots_match(
            t,
            r,
            n + 1,
            full.groups.insert(
                r.frames[n as int].group,
                settled_by(full, r.frames[n as int], now),
            ),
        ),
{
    let f = r.frames[n as int];
    let g = f.group;
    let index = f.index as int;
    lemma_store(t, full, f, now);
    lemma_settle(t, full, f, now);
    lemma_recoverable_grows(r, t, n, n + 1);
    let group = full.group_for(f, now);
    let stored = group.stored(index, f.payload);
    let settled = settled_by(full, f, now);
    let after = full.groups.insert(g, settled);
    assert(r.is_of(n as int, g));
    assert(r.arrived(n + 1, g, index));
    assert forall|h: u64, i: int| #[trigger] r.arrived(n + 1, h, i) implies after.contains_key(h)
        && after[h].slots[i] is Some by {
        let j = choose|j: int| 0 <= j < n + 1 && #[trigger] r.is_of(j, h) && r.frames[j].index == i;
        if j < n {
            assert(r.arrived(n, h, i));
            assert(t.carries(r.frames[j]));
            if h == g {
                assert(group.slots[i] is Some);
                assert(stored.slots[i] is Some);
            }
        } else {
            assert(stored.slots[i] is Some);
        }
    }
    assert forall|i: int|
        0 <= i < stored.slots.len() && (
        #[trigger] stored.slots[i]) is Some implies r.recoverable(n + 1, t, g, i) by {
        if i != index {
            assert(group.slots[i] is Some);
            assert(full.groups.contains_key(g));
            assert(r.recoverable(n, t, g, i));
        }
    }
    assert(stored.recovers() ==> r.enough(n + 1, t, g)) by {
        if stored.recovers() && !r.enough(n + 1, t, g) {
            let came = r.arrivals(n + 1, t, g);
            assert forall|i: int|
                0 <= i < stored.slots.len() && (
                #[trigger] stored.slots[i]) is Some implies came[i] is Some by {
                assert(r.recoverable(n + 1, t, g, i));
            }
            lemma_present_grows(stored.slots, came);
        }
    }
    assert forall|h: u64, i: int|
        after.contains_key(h) && 0 <= i < after[h].slots.len() && (
        #[trigger] after[h].slots[i]) is Some implies r.recoverable(n + 1, t, h, i) by {
        if h != g {
            assert(full.groups[h].slots[i] is Some);
            assert(r.recoverable(n, t, h, i));
        }
    }
}

/// No more groups are alive than a decoder keeps, so that it takes another one.
proof fn lemma_group_fits(
    t: Traffic,
    r: Reception,
    n: nat,
    kept: DecoderModel,
    full: DecoderModel,
)
    requires
        t.wf(),
        r.runs(t.session),
        r.receives(t),
        r.groups_fit(),
        n < r.frames.len(),
        t.carries(r.frames[n as int]),
        kept.groups.dom().finite(),
        groups_dated(r, n, full.groups),
        slots_match(t, r, n, full.groups),
        forall|g: u64| #[trigger]
            kept.groups.contains_key(g) ==> full.groups.contains_key(g) && r.times[n as int]
                < full.groups[g].created + GROUP_TTL,
        !full.groups.contains_key(r.frames[n as int].group),
    ensures
        kept.groups.len() < MAX_GROUPS,
{
    let g = r.frames[n as int].group;
    let now = r.times[n as int];
    let alive = r.groups_alive(n as int);
    assert(r.is_of(n as int, g));
    lemma_alive_groups(t, r, n as int);
    let with = kept.groups.dom().insert(g);
    assert(with.subset_of(alive)) by {
        assert forall|h: u64| with.contains(h) implies alive.contains(h) by {
            if h != g {
                assert(kept.groups.contains_key(h));
                let j = choose|j: int|
                    j < n && #[trigger] r.is_of(j, h) && r.times[j] == full.groups[h].created;
                assert(r.is_of(j, h) && j <= n);
            }
            assert forall|j: int| #[trigger] r.is_of(j, h) && j <= n implies now < r.times[j]
                + GROUP_TTL by {
                if j < n {
                    assert(r.arrived(n, h, r.frames[j].index as int));
                }
            }
        }
    }
    vstd::set_lib::lemma_len_subset(with, alive);
    assert(alive.len() <= MAX_GROUPS);
}

/// The group of a new frame has been there since its first frame.
proof fn lemma_groups_dated(
    t: Traffic,
    r: Reception,
    n: nat,
    groups: Map<u64, GroupModel>,
    settled: GroupModel,
)
    requires
        r.runs(t.session),
        r.receives(t),
        r.clock_runs(),
        n < r.frames.len(),
        t.carries(r.frames[n as int]),
        groups_dated(r, n, groups),
        slots_match(t, r, n, groups),
        settled.created == if groups.contains_key(r.frames[n as int].group) {
            groups[r.frames[n as int].group].created
        } else {
            r.times[n as int]
        },
    ensures
        groups_dated(r, n + 1, groups.insert(r.frames[n as int].group, settled)),
{
    let g = r.frames[n as int].group;
    let after = groups.insert(g, settled);
    assert(r.is_of(n as int, g));
    assert forall|h: u64| #[trigger] after.contains_key(h) implies {
        &&& exists|j: int| j < n + 1 && #[trigger] r.is_of(j, h) && r.times[j] == after[h].created
        &&& forall|j: int| #[trigger]
            r.is_of(j, h) && j < n + 1 ==> after[h].created <= r.times[j]
    } by {
        if groups.contains_key(h) {
            assert(after[h].created == groups[h].created);
            let j = choose|j: int|
                j < n && #[trigger] r.is_of(j, h) && r.times[j] == groups[h].created;
            assert(r.is_of(j, h) && j < n + 1);
        } else {
            assert forall|j: int| #[trigger] r.is_of(j, h) && j < n + 1 implies after[h].created
                <= r.times[j] by {
                if j < n {
                    assert(r.arrived(n, h, r.frames[j].index as int));
                }
            }
        }
    }
}

/// Datagrams in parts have been there since their first part, also after a new frame.
proof fn lemma_packets_dated(
    t: Traffic,
    r: Reception,
    n: nat,
    full: DecoderModel,
    next: DecoderModel,
    done: Seq<u64>,
    after: Seq<u64>,
)
    requires
        t.wf(),
        r.runs(t.session),
        r.clock_runs(),
        n < r.frames.len(),
        tracks(t, full.groups),
        slots_match(t, r, n, full.groups),
        holds(t, full.packets, done, parts_held(t, full.groups)),
        packets_dated(t, r, n, full.packets),
        tracks(t, next.groups),
        slots_match(t, r, n + 1, next.groups),
        holds(t, next.packets, after, parts_held(t, next.groups)),
        dated(full.packets, next.packets, r.times[n as int]),
        done.is_prefix_of(after),
    ensures
        packets_dated(t, r, n + 1, next.packets),
{
    let now = r.times[n as int];
    lemma_parts_are_recoverable(t, r, n, full.groups);
    lemma_parts_are_recoverable(t, r, n + 1, next.groups);
    assert forall|p: u64| #[trigger] next.packets.contains_key(p) implies {
        &&& exists|j: int|
            0 <= j < n + 1 && #[trigger] r.begun(j, t, p) && r.times[j] == next.packets[p].created
        &&& forall|j: int| #[trigger]
            r.begun(j, t, p) && 0 <= j < n + 1 ==> next.packets[p].created <= r.times[j]
    } by {
        if full.packets.contains_key(p) {
            let j = choose|j: int|
                0 <= j < n && #[trigger] r.begun(j, t, p) && r.times[j]
                    == full.packets[p].created;
            assert(r.begun(j, t, p) && j < n + 1);
        } else {
            let x = choose|x: nat| #[trigger] parts_held(t, next.groups).contains((p, x));
            assert(r.part_recoverable(n + 1, t, p, x));
            assert(r.begun(n as int, t, p));
            assert forall|j: int| #[trigger] r.begun(j, t, p) && 0 <= j < n + 1 implies now
                <= r.times[j] by {
                if j < n {
                    let y = choose|y: nat| #[trigger]
                        r.part_recoverable((j + 1) as nat, t, p, y);
                    lemma_recoverable_grows(r, t, (j + 1) as nat, n);
                    assert(r.part_recoverable(n, t, p, y));
                    assert(parts_held(t, full.groups).contains((p, y)));
                    assert(done.contains(p));
                    lemma_prefix_contains(done, after, p);
                }
            }
        }
    }
}

/// No more datagrams are alive than a decoder keeps.
proof fn lemma_datagrams_fit(
    t: Traffic,
    r: Reception,
    n: nat,
    lean: DecoderModel,
    full: DecoderModel,
    done: Seq<u64>,
)
    requires
        t.wf(),
        r.runs(t.session),
        r.datagrams_fit(t),
        n < r.frames.len(),
        tracks(t, full.groups),
        slots_match(t, r, n + 1, full.groups),
        holds(t, full.packets, done, parts_held(t, full.groups)),
        packets_dated(t, r, n + 1, full.packets),
        follows(lean, full, r.times[n as int]),
    ensures
        decoder::live_packets(lean.packets, r.times[n as int]).len() <= MAX_REASSEMBLIES,
{
    let now = r.times[n as int];
    let alive = r.datagrams_alive(n as int, t);
    let live = decoder::live_packets(lean.packets, now);
    lemma_parts_are_recoverable(t, r, n + 1, full.groups);
    assert(alive.subset_of(t.datagrams.dom())) by {
        assert forall|p: u64| alive.contains(p) implies t.datagrams.dom().contains(p) by {
            let x = choose|x: nat| #[trigger] r.part_recoverable(n + 1, t, p, x);
            assert(parts_held(t, full.groups).contains((p, x)));
        }
    }
    vstd::set_lib::lemma_len_subset(alive, t.datagrams.dom());
    assert(live.dom().subset_of(alive)) by {
        assert forall|p: u64| live.dom().contains(p) implies alive.contains(p) by {
            assert(lean.packets.contains_key(p));
            assert(full.packets.contains_key(p));
            let x = choose|x: nat| #[trigger] parts_held(t, full.groups).contains((p, x));
            assert(r.part_recoverable(n + 1, t, p, x));
            assert(r.begun(n as int, t, p));
            if r.datagram_recoverable(n + 1, t, p) {
                let parts = full.packets[p].parts;
                assert forall|y: int| 0 <= y < parts.len() implies (
                #[trigger] parts[y]) is Some by {
                    assert(r.part_recoverable(n + 1, t, p, y as nat));
                    assert(parts_held(t, full.groups).contains((p, y as nat)));
                }
                assert(decoder::complete(parts));
            }
        }
    }
    vstd::set_lib::lemma_len_subset(live.dom(), alive);
    assert(alive.len() <= MAX_REASSEMBLIES);
}

/// What a new frame of the traffic does. Gives the decoder that drops nothing, and
/// the datagrams that are then done.
proof fn lemma_new_frame(
    t: Traffic,
    r: Reception,
    n: nat,
    full: DecoderModel,
    done: Seq<u64>,
) -> (after: (DecoderModel, Seq<u64>))
    requires
        t.wf(),
        r.runs(t.session),
        r.receives(t),
        r.in_time(t),
        n < r.frames.len(),
        t.carries(r.frames[n as int]),
        keeps(t, r, n, r.before(n as int), full, done),
        r.before(n as int).accepts(r.frames[n as int].sequence),
        !r.repeated(n as int),
    ensures
        keeps(t, r, n + 1, r.states[(n + 1) as int], after.0, after.1),
        r.outs[n as int] is Ok,
        payloads(t, after.1) == payloads(t, done) + r.outs[n as int]->Ok_0,
        done.is_prefix_of(after.1),
        r.states[(n + 1) as int] == (DecoderModel {
            groups: r.states[(n + 1) as int].groups,
            packets: r.states[(n + 1) as int].packets,
            ..r.before(n as int).observed(r.frames[n as int].sequence)
        }),
{
    let m = r.before(n as int);
    let f = r.frames[n as int];
    let g = f.group;
    let now = r.times[n as int];
    let o = m.observed(f.sequence);
    let kept = o.pruned(now);
    let next = r.states[(n + 1) as int];
    assert(decoder::frame_step(m, f, now, next, r.outs[n as int]));
    let live = decoder::live_packets(o.packets, now);
    assert(live.dom().subset_of(o.packets.dom()));
    vstd::set_lib::lemma_len_subset(live.dom(), o.packets.dom());
    assert(time_after(r, n) <= now);
    lemma_prune_follows(o, full, time_after(r, n), now);
    assert(r.is_of(n as int, g));
    if full.groups.contains_key(g) {
        let j = choose|j: int|
            j < n && #[trigger] r.is_of(j, g) && r.times[j] == full.groups[g].created;
        assert(now < full.groups[g].created + GROUP_TTL);
        assert(kept.groups.contains_key(g));
    } else {
        lemma_group_fits(t, r, n, kept, full);
    }
    assert(kept.group_for(f, now) == full.group_for(f, now));
    lemma_store(t, full, f, now);
    let group = full.group_for(f, now);
    let stored = group.stored(f.index as int, f.payload);
    if stored.recovers() {
        assert(kept.recovery_due(f, now));
        assert(full.recovery_holds(f, now));
    }
    lemma_settle(t, full, f, now);
    lemma_slots_match(t, r, n, full, now);
    let settled = settled_by(full, f, now);
    let groups = full.groups.insert(g, settled);
    lemma_parts_are_recoverable(t, r, n, full.groups);
    lemma_parts_are_recoverable(t, r, n + 1, groups);
    assert forall|i: int| #[trigger] shard_new(t, g, group.slots, settled.slots, i) implies young(
        full.packets,
        t.mark(g, i).0,
        now,
    ) by {
        let (p, x) = t.mark(g, i);
        lemma_mark_not_held(t, full.groups, g, i);
        assert(!r.part_recoverable(n, t, p, x));
        assert(shard_held(t, groups, g, i));
        assert(parts_held(t, groups).contains((p, x)));
        assert(r.gains(n as int, t, p, x));
        if full.packets.contains_key(p) {
            let j = choose|j: int|
                0 <= j < n && #[trigger] r.begun(j, t, p) && r.times[j] == full.packets[p].created;
            assert(r.begun(j, t, p));
        }
    }
    let after = lemma_take_shards(t, kept, full, done, f, now);
    let list = group.deliveries(f.index as int, f.payload);
    let lean = kept.with_group(g, settled).with_fragments(list, now);
    let whole = full.with_group(g, settled).with_fragments(list, now);
    assert(next == lean.pruned(now));
    lemma_groups_dated(t, r, n, full.groups, settled);
    lemma_packets_dated(t, r, n, full, whole, done, after);
    lemma_datagrams_fit(t, r, n, lean, whole, after);
    lemma_prune_follows(lean, whole, now, now);
    decoder::lemma_fragments_touch_packets(kept.with_group(g, settled), list, now);
    (whole, after)
}

/// A frame that is new is no repetition.
proof fn lemma_accepted_is_new(r: Reception, n: nat)
    requires
        n < r.frames.len(),
        numbers_seen(r, r.before(n as int), n, n + 1),
        n > 0 ==> !r.before(n as int).untouched(),
        r.before(n as int).accepts(r.frames[n as int].sequence),
    ensures
        !r.repeated(n as int),
{
    reveal(numbers_seen);
    if r.repeated(n as int) {
        let l = choose|l: int| #[trigger] r.came_before(l, n as int, n as int);
        assert(is_numbered(r, l, r.frames[n as int].sequence as nat));
        assert(r.before(n as int).seen.contains(r.frames[n as int].sequence));
    }
}

/// The datagrams that are done are just those that can be had.
proof fn lemma_done_is_recoverable(
    t: Traffic,
    r: Reception,
    n: nat,
    m: DecoderModel,
    full: DecoderModel,
    done: Seq<u64>,
    p: u64,
)
    requires
        t.wf(),
        keeps(t, r, n, m, full, done),
    ensures
        done.contains(p) <==> t.datagrams.contains_key(p) && r.datagram_recoverable(n, t, p),
{
    let got = parts_held(t, full.groups);
    lemma_parts_are_recoverable(t, r, n, full.groups);
    if done.contains(p) {
        assert forall|x: nat| x < t.parts(p) implies #[trigger] r.part_recoverable(n, t, p, x) by {
            assert(got.contains((p, x)));
        }
    }
    if t.datagrams.contains_key(p) && r.datagram_recoverable(n, t, p) {
        assert(t.parts(p) > 0);
        assert(r.part_recoverable(n, t, p, 0));
        assert(got.contains((p, 0)));
        if full.packets.contains_key(p) {
            assert forall|x: int| 0 <= x < full.packets[p].parts.len() implies (
            #[trigger] full.packets[p].parts[x]) is Some by {
                assert(r.part_recoverable(n, t, p, x as nat));
                assert(got.contains((p, x as nat)));
            }
        }
    }
}

/// Whether the datagrams stand in the order in which the first `n` frames made it
/// possible to have them.
pub open spec fn in_turn(t: Traffic, r: Reception, n: nat, ids: Seq<u64>) -> bool {
    forall|a: int, b: int, k: nat|
        0 <= a < b < ids.len() && k <= n && #[trigger] r.datagram_recoverable(k, t, ids[b])
            ==> #[trigger] r.datagram_recoverable(k, t, ids[a])
}

/// Datagrams that are newly done come behind those that were.
proof fn lemma_in_turn(
    t: Traffic,
    r: Reception,
    n: nat,
    m: DecoderModel,
    full: DecoderModel,
    done: Seq<u64>,
    next: DecoderModel,
    whole: DecoderModel,
    after: Seq<u64>,
)
    requires
        t.wf(),
        keeps(t, r, n, m, full, done),
        keeps(t, r, n + 1, next, whole, after),
        done.is_prefix_of(after),
        in_turn(t, r, n, done),
    ensures
        in_turn(t, r, n + 1, after),
{
    assert forall|a: int, b: int, k: nat|
        0 <= a < b < after.len() && k <= n + 1 && #[trigger] r.datagram_recoverable(
            k,
            t,
            after[b],
        ) implies #[trigger] r.datagram_recoverable(k, t, after[a]) by {
        if k == n + 1 {
            assert(after.contains(after[a]));
            lemma_done_is_recoverable(t, r, n + 1, next, whole, after, after[a]);
        } else {
            assert forall|x: nat| x < t.parts(after[b]) implies #[trigger] r.part_recoverable(
                n,
                t,
                after[b],
                x,
            ) by {
                assert(r.part_recoverable(k, t, after[b], x));
                lemma_recoverable_grows(r, t, k, n);
            }
            assert(after.contains(after[b]));
            lemma_done_is_recoverable(t, r, n, m, full, done, after[b]);
            assert(t.datagrams.contains_key(after[b]));
            let c = choose|c: int| 0 <= c < done.len() && done[c] == after[b];
            assert(after[c] == done[c]);
            assert(c == b);
            assert(done[a] == after[a] && done[b] == after[b]);
        }
    }
}

/// What holds after the first `n` frames. Gives the decoder that drops nothing, and
/// the datagrams that are then done.
proof fn lemma_reception(t: Traffic, r: Reception, n: nat) -> (after: (DecoderModel, Seq<u64>))
    requires
        t.wf(),
        r.runs(t.session),
        r.receives(t),
        r.in_time(t),
        n <= r.frames.len(),
    ensures
        keeps(t, r, n, r.states[n as int], after.0, after.1),
        numbers_seen(r, r.states[n as int], n, n),
        forall|j: int| 0 <= j < n ==> (#[trigger] r.outs[j]) is Ok,
        payloads(t, after.1) == r.output(n),
        in_turn(t, r, n, after.1),
    decreases n,
{
    let m = r.states[n as int];
    if n == 0 {
        let done = Seq::<u64>::empty();
        reveal(numbers_seen);
        assert(parts_held(t, m.groups) =~= Set::empty());
        assert(payloads(t, done) =~= r.output(0));
        (m, done)
    } else {
        let last = (n - 1) as nat;
        let f = r.frames[n - 1];
        let (full, done) = lemma_reception(t, r, last);
        let before = r.before(n - 1);
        assert(keeps(t, r, last, before, full, done));
        assert(0 < r.frames[0].sequence <= f.sequence);
        lemma_report_keeps_numbers(r, last);
        assert(decoder::frame_step(before, f, r.times[n - 1], m, r.outs[n - 1]));
        if before.accepts(f.sequence) && t.carries(f) {
            lemma_accepted_is_new(r, last);
            let (whole, after) = lemma_new_frame(t, r, last, full, done);
            lemma_accepted_is_seen(r, before, m, last);
            lemma_in_turn(t, r, last, before, full, done, m, whole, after);
            assert(payloads(t, after) =~= r.output(n));
            (whole, after)
        } else {
            if before.accepts(f.sequence) {
                assert(t.reports(f));
                assert(m == before.observed(f.sequence));
                lemma_accepted_is_seen(r, before, m, last);
                assert forall|g: u64, i: int| #[trigger] r.arrived(last + 1, g, i) implies
                    r.arrived(last, g, i) by {
                    let j = choose|j: int|
                        0 <= j < last + 1 && #[trigger] r.is_of(j, g) && r.frames[j].index == i;
                    assert(r.is_of(j, g) && j < last);
                }
            } else {
                let k = lemma_refused_is_repeated(t, r, last);
                assert(m == before);
                lemma_repeated_is_seen(r, m, last, k);
                assert forall|g: u64, i: int| #[trigger] r.arrived(last + 1, g, i) implies
                    r.arrived(last, g, i) by {
                    let j = choose|j: int|
                        0 <= j < last + 1 && #[trigger] r.is_of(j, g) && r.frames[j].index == i;
                    let h = if j == last {
                        k
                    } else {
                        j
                    };
                    assert(r.is_of(h, g) && r.frames[h].index == i);
                }
            }
            lemma_idle_frame(t, r, last, before, m, full, done);
            lemma_in_turn(t, r, last, before, full, done, m, full, done);
            assert(payloads(t, done) =~= r.output(n));
            (full, done)
        }
    }
}

/// A session that loses, repeats and reorders frames still delivers every datagram
/// whose shards came or can be computed, exactly once and unchanged, and delivers
/// nothing else, even if it reports losses in between. A group whose frames came in
/// part can be computed as soon as as many of them came, data or parity, as it has
/// data shards. Datagrams come out in the order in which they can be had. A session
/// may last as long as it likes, and send as much: only the frames of one group and
/// the parts of one datagram must come before the decoder drops them, and no more
/// groups and datagrams may be alive at a time than it keeps.
pub proof fn law_delivery(t: Traffic, r: Reception)
    requires
        t.wf(),
        r.runs(t.session),
        r.receives(t),
        r.in_time(t),
    ensures
        forall|j: int| 0 <= j < r.outs.len() ==> (#[trigger] r.outs[j]) is Ok,
        exists|ids: Seq<u64>|
            {
                &&& ids.no_duplicates()
                &&& #[trigger] payloads(t, ids) == r.output(r.frames.len())
                &&& forall|p: u64| #[trigger]
                    ids.contains(p) <==> t.datagrams.contains_key(p) && r.datagram_recoverable(
                        r.frames.len(),
                        t,
                        p,
                    )
                &&& in_turn(t, r, r.frames.len(), ids)
            },
{
    let n = r.frames.len();
    let (full, ids) = lemma_reception(t, r, n);
    assert forall|p: u64| #[trigger]
        ids.contains(p) <==> t.datagrams.contains_key(p) && r.datagram_recoverable(n, t, p) by {
        lemma_done_is_recoverable(t, r, n, r.states[n as int], full, ids, p);
    }
}

/// A session that lasts no longer than a group is kept, and sends no more groups and
/// datagrams than a decoder keeps, is in time.
pub proof fn law_short_sessions_are_in_time(t: Traffic, r: Reception, start: nat)
    requires
        t.wf(),
        t.groups.len() <= MAX_GROUPS,
        t.datagrams.len() <= MAX_REASSEMBLIES,
        r.runs(t.session),
        r.receives(t),
        r.clock_runs(),
        forall|j: int|
            0 <= j < r.times.len() ==> start <= #[trigger] r.times[j] < start + GROUP_TTL,
    ensures
        r.in_time(t),
{
    assert forall|k: int| 0 <= k < r.frames.len() implies (#[trigger] r.groups_alive(k)).len()
        <= MAX_GROUPS by {
        lemma_alive_groups(t, r, k);
    }
    assert forall|k: int| 0 <= k < r.frames.len() implies (
    #[trigger] r.datagrams_alive(k, t)).len() <= MAX_REASSEMBLIES by {
        let alive = r.datagrams_alive(k, t);
        assert forall|p: u64| alive.contains(p) implies t.datagrams.dom().contains(p) by {
            let x = choose|x: nat| #[trigger] r.part_recoverable((k + 1) as nat, t, p, x);
            let (g, i) = choose|g: u64, i: int| #[trigger]
                t.has_shard(g, i) && t.mark(g, i) == (p, x) && r.recoverable(
                    (k + 1) as nat,
                    t,
                    g,
                    i,
                );
            assert(t.shard_wf(g, i));
        }
        vstd::set_lib::lemma_len_subset(alive, t.datagrams.dom());
    }
}

/// The groups that are alive were sent.
proof fn lemma_alive_groups(t: Traffic, r: Reception, k: int)
    requires
        t.wf(),
        r.receives(t),
    ensures
        r.groups_alive(k).finite(),
        r.groups_alive(k).len() <= t.groups.len(),
{
    let alive = r.groups_alive(k);
    assert forall|h: u64| alive.contains(h) implies t.groups.dom().contains(h) by {
        let j = choose|j: int| j <= k && #[trigger] r.is_of(j, h);
        assert(t.carries(r.frames[j]) || t.reports(r.frames[j]));
    }
    vstd::set_lib::lemma_len_subset(alive, t.groups.dom());
}

} // verus!
