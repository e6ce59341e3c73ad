//! One end of a session: what it does with frames that come in, and what it sends.

use crate::clock::{self, time_since};
use crate::decoder::{self, DecodeError, Decoder, DecoderModel};
use crate::delivery::{self, Reception};
use crate::encoder::{self, Encoder, EncoderModel};
use crate::frame::{Frame, FrameModel, KIND_REPORT, VERSION_V1, VERSION_V3};
use crate::session::{self, Action};
use crate::wire::{self, get_be};
use vstd::prelude::*;

verus! {

/// Why a client cannot be set up.
#[derive(Clone, Copy, Debug, PartialEq, Eq, Structural)]
pub enum IdentityError {
    ReservedKeyId,
}

/// The frame version and device number of a client. Without a device number it
/// speaks the first format.
pub fn client_identity(key_id: Option<u64>) -> (identity: Result<(u8, u64), IdentityError>)
    ensures
        identity == match key_id {
            None => Ok::<(u8, u64), IdentityError>((VERSION_V1, 0)),
            Some(id) => if id == 0 {
                Err(IdentityError::ReservedKeyId)
            } else {
                Ok((VERSION_V3, id))
            },
        },
{
    match key_id {
        None => Ok((VERSION_V1, 0)),
        Some(id) => {
            if id == 0 {
                return Err(IdentityError::ReservedKeyId);
            }
            Ok((VERSION_V3, id))
        },
    }
}

/// One end of a session.
#[derive(Debug)]
pub struct Endpoint {
    pub encoder: Encoder,
    pub decoder: Decoder,
}

/// One end of a session as a mathematical value.
pub struct EndpointModel {
    pub encoder: EncoderModel,
    pub decoder: DecoderModel,
}

impl View for Endpoint {
    type V = EndpointModel;

    open spec fn view(&self) -> EndpointModel {
        EndpointModel { encoder: self.encoder@, decoder: self.decoder@ }
    }
}

/// What comes of a frame.
#[derive(Debug)]
pub enum Inbound {
    /// It is for another identity or session.
    Discarded,
    /// It is a report, and whether it was new.
    Report(bool),
    /// It is taken, and completes these datagrams.
    Datagrams(Vec<Vec<u8>>),
    /// It is not taken.
    Invalid(DecodeError),
}

/// What comes of a frame as a mathematical value.
pub enum InboundModel {
    Discarded,
    Report(bool),
    Datagrams(Seq<Seq<u8>>),
    Invalid(DecodeError),
}

impl View for Inbound {
    type V = InboundModel;

    open spec fn view(&self) -> InboundModel {
        match self {
            Inbound::Discarded => InboundModel::Discarded,
            Inbound::Report(new) => InboundModel::Report(*new),
            Inbound::Datagrams(d) => InboundModel::Datagrams(decoder::datagram_views(d@)),
            Inbound::Invalid(e) => InboundModel::Invalid(*e),
        }
    }
}

/// What comes of a frame that carries shards.
pub open spec fn inbound_of(out: Result<Seq<Seq<u8>>, DecodeError>) -> InboundModel {
    match out {
        Ok(datagrams) => InboundModel::Datagrams(datagrams),
        Err(e) => InboundModel::Invalid(e),
    }
}

/// Whether a frame is a loss report.
pub open spec fn is_report(f: FrameModel) -> bool {
    f.kind == KIND_REPORT && f.payload.len() == 4
}

/// The loss that a report gives.
pub open spec fn reported_loss(f: FrameModel) -> u32 {
    wire::be_value(f.payload) as u32
}

impl EndpointModel {
    /// An end that has sent and received nothing.
    pub open spec fn fresh(session: u64, version: u8, key_id: u64) -> EndpointModel {
        EndpointModel {
            encoder: EncoderModel::fresh(session, version, key_id),
            decoder: DecoderModel::fresh(session),
        }
    }

    /// What every operation keeps.
    pub open spec fn wf(self) -> bool {
        &&& self.encoder.wf()
        &&& self.decoder.wf()
        &&& self.encoder.session == self.decoder.session
    }

    /// Whether a frame is for this end.
    pub open spec fn is_for(self, f: FrameModel) -> bool {
        &&& f.version == self.encoder.version
        &&& f.key_id == self.encoder.key_id
        &&& f.session == self.encoder.session
    }

    /// This end after a report of `loss`.
    pub open spec fn adapted(self, loss: u32) -> EndpointModel {
        EndpointModel {
            encoder: self.encoder.heard(loss),
            ..self
        }
    }

    /// This end after a loss report numbered `f.sequence`.
    pub open spec fn after_report(self, f: FrameModel) -> EndpointModel {
        let noted = EndpointModel { decoder: self.decoder.observed(f.sequence), ..self };
        if self.decoder.accepts(f.sequence) {
            noted.adapted(reported_loss(f))
        } else {
            noted
        }
    }
}

/// What taking a frame does.
pub open spec fn inbound_step(
    before: EndpointModel,
    f: FrameModel,
    now: nat,
    after: EndpointModel,
    inbound: InboundModel,
) -> bool {
    if !before.is_for(f) {
        after == before && inbound == InboundModel::Discarded
    } else if is_report(f) {
        after == before.after_report(f) && inbound == InboundModel::Report(
            before.decoder.accepts(f.sequence),
        )
    } else {
        exists|out: Result<Seq<Seq<u8>>, DecodeError>|
            {
                &&& #[trigger] decoder::frame_step(before.decoder, f, now, after.decoder, out)
                &&& after.encoder == before.encoder
                &&& inbound == inbound_of(out)
            }
    }
}

impl Endpoint {
    /// An end that has sent and received nothing.
    pub fn new(session: u64, version: u8, key_id: u64) -> (fresh: Self)
        ensures
            fresh@ == EndpointModel::fresh(session, version, key_id),
            fresh@.wf(),
            clock::is_reading(fresh.decoder.clock),
    {
        Endpoint {
            encoder: Encoder::with_identity(session, version, key_id),
            decoder: Decoder::new(session),
        }
    }

    /// Takes a frame at the time `now`, in nanoseconds since this end was made.
    pub fn receive_at(&mut self, frame: Frame, now: u128) -> (inbound: Inbound)
        requires
            old(self)@.wf(),
        ensures
            final(self)@.wf(),
            inbound_step(old(self)@, frame@, now as nat, final(self)@, inbound@),
            final(self).decoder.clock == old(self).decoder.clock,
    {
        let ghost before = self@;
        let ghost f = frame@;
        if frame.version != self.encoder.version || frame.key_id != self.encoder.key_id
            || frame.session != self.encoder.session {
            return Inbound::Discarded;
        }
        if frame.kind == KIND_REPORT && frame.payload.len() == 4 {
            let new: bool = self.decoder.observe_seq(frame.sequence);
            if new {
                proof {
                    wire::lemma_byte_bounds();
                    assert(frame.payload@.subrange(0, 4) =~= frame.payload@);
                }
                let loss: u32 = get_be(&frame.payload, 0, 4) as u32;
                self.encoder.adaptive.report(loss);
            }
            return Inbound::Report(new);
        }
        let out: Result<Vec<Vec<u8>>, DecodeError> = self.decoder.frame_at(frame, now);
        assert(decoder::frame_step(
            before.decoder,
            f,
            now as nat,
            self@.decoder,
            decoder::decoded(out),
        ));
        match out {
            Ok(datagrams) => Inbound::Datagrams(datagrams),
            Err(e) => Inbound::Invalid(e),
        }
    }

    /// Takes a frame now.
    pub fn receive(&mut self, frame: Frame) -> (inbound: Inbound)
        requires
            old(self)@.wf(),
        ensures
            final(self)@.wf(),
            exists|now: nat|
                clock::is_elapsed(old(self).decoder.clock, now) && #[trigger] inbound_step(
                    old(self)@,
                    frame@,
                    now,
                    final(self)@,
                    inbound@,
                ),
            final(self).decoder.clock == old(self).decoder.clock,
    {
        let now: u128 = time_since(&self.decoder.clock);
        self.receive_at(frame, now)
    }

    /// The loss since the last report, and the frame that reports it.
    pub fn report(&mut self) -> (report: (u32, Frame))
        requires
            old(self)@.wf(),
            old(self)@.encoder.sequence < u64::MAX,
        ensures
            final(self)@.wf(),
            report.0 == old(self)@.decoder.loss_ppm(),
            final(self)@.decoder == old(self)@.decoder.reported(),
            report.1@ == old(self)@.encoder.loss_frame(report.0),
            final(self)@.encoder == old(self)@.encoder.counted(),
            final(self).decoder.clock == old(self).decoder.clock,
    {
        let loss: u32 = self.decoder.loss_report();
        let frame: Frame = self.encoder.report_frame(loss);
        (loss, frame)
    }
}

/// A report that one end sends and the other takes for the first time moves the
/// redundancy of that other end as the loss calls for, and nothing else.
pub proof fn law_reports_close_the_loop(
    before: EndpointModel,
    f: FrameModel,
    loss: u32,
    now: nat,
    after: EndpointModel,
    inbound: InboundModel,
)
    requires
        before.is_for(f),
        f.kind == KIND_REPORT,
        f.payload == wire::be(loss as nat, 4),
        before.decoder.accepts(f.sequence),
        inbound_step(before, f, now, after, inbound),
    ensures
        after.encoder == before.encoder.heard(loss),
        after.decoder == before.decoder.observed(f.sequence),
        inbound == InboundModel::Report(true),
{
    wire::lemma_be_len(loss as nat, 4);
    wire::lemma_byte_bounds();
    wire::lemma_be_round_trip(loss as nat, 4);
}

/// A report that was taken before moves nothing.
pub proof fn law_repeated_reports_are_ignored(
    before: EndpointModel,
    f: FrameModel,
    now: nat,
    after: EndpointModel,
    inbound: InboundModel,
)
    requires
        before.wf(),
        is_report(f),
        !before.decoder.accepts(f.sequence),
        inbound_step(before, f, now, after, inbound),
    ensures
        after == before,
{
    assert(before.decoder.seen.contains(f.sequence) ==> before.decoder.seen.insert(f.sequence)
        =~= before.decoder.seen);
    assert(before.decoder.observed(f.sequence) =~= before.decoder);
}

/// A frame of another version, device or session is left alone.
pub proof fn law_strange_frames_are_discarded(
    before: EndpointModel,
    f: FrameModel,
    now: nat,
    after: EndpointModel,
    inbound: InboundModel,
)
    requires
        f.version != before.encoder.version || f.key_id != before.encoder.key_id || f.session
            != before.encoder.session,
        inbound_step(before, f, now, after, inbound),
    ensures
        after == before,
        inbound == InboundModel::Discarded,
{
}

/// A frame for this end that is no report goes to the decoder: what the decoder makes of
/// it is handed out, all of it and in order, or the reason why it is not taken. Nothing
/// else changes.
pub proof fn law_frames_go_to_the_decoder(
    before: EndpointModel,
    f: FrameModel,
    now: nat,
    after: EndpointModel,
    inbound: InboundModel,
)
    requires
        f.version == before.encoder.version,
        f.key_id == before.encoder.key_id,
        f.session == before.encoder.session,
        f.kind != 3 || f.payload.len() != 4,
        inbound_step(before, f, now, after, inbound),
    ensures
        after.encoder == before.encoder,
        after.decoder == before.decoder.frame_outcome(f, now).0,
        match before.decoder.frame_outcome(f, now).1 {
            Ok(datagrams) => inbound == InboundModel::Datagrams(datagrams),
            Err(e) => inbound == InboundModel::Invalid(e),
        },
{
}

/// A report for this end tells the controller the loss that its four bytes give, if its
/// number is new, and the number counts as received. Nothing else changes.
pub proof fn law_reports_go_to_the_controller(
    before: EndpointModel,
    f: FrameModel,
    now: nat,
    after: EndpointModel,
    inbound: InboundModel,
)
    requires
        f.version == before.encoder.version,
        f.key_id == before.encoder.key_id,
        f.session == before.encoder.session,
        f.kind == 3,
        f.payload.len() == 4,
        inbound_step(before, f, now, after, inbound),
    ensures
        inbound == InboundModel::Report(before.decoder.accepts(f.sequence)),
        after.decoder == before.decoder.observed(f.sequence),
        before.decoder.accepts(f.sequence) ==> after.encoder == (EncoderModel {
            adaptive: before.encoder.adaptive.reported(wire::be_value(f.payload) as u32),
            ..before.encoder
        }),
        !before.decoder.accepts(f.sequence) ==> after.encoder == before.encoder,
{
}

/// A client without a device number speaks the first format; one with a number speaks the
/// third under it, and zero is no device.
pub proof fn law_clients_have_identities(
    key_id: Option<u64>,
    identity: Result<(u8, u64), IdentityError>,
)
    requires
        call_ensures(client_identity, (key_id,), identity),
    ensures
        match key_id {
            None => identity == Ok::<(u8, u64), IdentityError>((1u8, 0u64)),
            Some(id) => {
                &&& id == 0 ==> identity == Err::<(u8, u64), IdentityError>(
                    IdentityError::ReservedKeyId,
                )
                &&& id != 0 ==> identity == Ok::<(u8, u64), IdentityError>((3u8, id))
            },
        },
{
}

/// What an end was given, at which times, and what it made of it. Before some of the
/// frames it reported the loss up to then, and in between it sent what it liked.
pub struct Conversation {
    pub frames: Seq<FrameModel>,
    pub reports: Seq<bool>,
    pub times: Seq<nat>,
    /// The end that each frame comes to.
    pub befores: Seq<EndpointModel>,
    /// The end after each frame.
    pub afters: Seq<EndpointModel>,
    pub inbounds: Seq<InboundModel>,
}

impl Conversation {
    /// The decoder of the end once it has taken the first `n` frames.
    pub open spec fn decoder_after(self, n: int) -> DecoderModel {
        if n <= 0 {
            DecoderModel::fresh(self.befores[0].encoder.session)
        } else {
            self.afters[n - 1].decoder
        }
    }

    /// Whether each frame is taken by the end as it stands, from an end that has received
    /// nothing on, and the end goes by one name throughout.
    pub open spec fn runs(self, version: u8, key_id: u64, session: u64) -> bool {
        &&& self.reports.len() == self.frames.len()
        &&& self.times.len() == self.frames.len()
        &&& self.befores.len() == self.frames.len()
        &&& self.afters.len() == self.frames.len()
        &&& self.inbounds.len() == self.frames.len()
        &&& forall|j: int|
            0 <= j < self.frames.len() ==> {
                &&& (#[trigger] self.befores[j]).encoder.version == version
                &&& self.befores[j].encoder.key_id == key_id
                &&& self.befores[j].encoder.session == session
                &&& self.befores[j].decoder == if self.reports[j] {
                    self.decoder_after(j).reported()
                } else {
                    self.decoder_after(j)
                }
            }
        &&& forall|j: int|
            0 <= j < self.frames.len() ==> inbound_step(
                #[trigger] self.befores[j],
                self.frames[j],
                self.times[j],
                self.afters[j],
                self.inbounds[j],
            )
    }

    /// The datagrams that the end handed out for the first `n` frames.
    pub open spec fn handed_out(self, n: nat) -> Seq<Seq<u8>>
        decreases n,
    {
        if n == 0 {
            Seq::empty()
        } else {
            self.handed_out((n - 1) as nat) + match self.inbounds[n - 1] {
                InboundModel::Datagrams(datagrams) => datagrams,
                _ => Seq::empty(),
            }
        }
    }

    /// What the decoder of the end was given, and what it made of it.
    pub open spec fn reception(self, session: u64) -> Reception {
        Reception {
            frames: self.frames,
            reports: self.reports,
            times: self.times,
            states: Seq::new(
                self.frames.len() + 1,
                |n: int|
                    if n <= 0 {
                        DecoderModel::fresh(session)
                    } else {
                        self.afters[n - 1].decoder
                    },
            ),
            outs: Seq::new(
                self.frames.len(),
                |j: int|
                    match self.inbounds[j] {
                        InboundModel::Datagrams(datagrams) => Ok(datagrams),
                        InboundModel::Invalid(e) => Err(e),
                        _ => Ok(Seq::empty()),
                    },
            ),
        }
    }
}

/// The decoder of an end sees every frame for this end, and the end hands out all that
/// the decoder gives.
pub proof fn law_ends_hand_out_what_is_decoded(
    c: Conversation,
    version: u8,
    key_id: u64,
    session: u64,
)
    requires
        c.runs(version, key_id, session),
        forall|j: int|
            0 <= j < c.frames.len() ==> {
                &&& (#[trigger] c.frames[j]).version == version
                &&& c.frames[j].key_id == key_id
                &&& c.frames[j].session == session
            },
    ensures
        c.reception(session).runs(session),
        c.reception(session).output(c.frames.len()) == c.handed_out(c.frames.len()),
{
    let r = c.reception(session);
    assert forall|j: int| 0 <= j < r.frames.len() implies decoder::frame_step(
        r.before(j),
        #[trigger] r.frames[j],
        r.times[j],
        r.states[j + 1],
        r.outs[j],
    ) by {
        let before = c.befores[j];
        assert(inbound_step(before, c.frames[j], c.times[j], c.afters[j], c.inbounds[j]));
        assert(c.befores[0].encoder.session == session);
        assert(r.before(j) == before.decoder);
        if is_report(c.frames[j]) {
            assert(r.outs[j] == Ok::<Seq<Seq<u8>>, DecodeError>(Seq::empty()));
            assert(before.decoder.session == c.frames[j].session) by {
                lemma_one_session(c, version, key_id, session, j);
            }
            assert(r.states[j + 1] == before.decoder.observed(c.frames[j].sequence));
        }
    }
    lemma_outputs_agree(c, session, c.frames.len());
}

/// The decoder of an end keeps its session.
proof fn lemma_one_session(c: Conversation, version: u8, key_id: u64, session: u64, j: int)
    requires
        c.runs(version, key_id, session),
        0 <= j < c.frames.len(),
    ensures
        c.befores[j].decoder.session == session,
    decreases j,
{
    assert(c.befores[0].encoder.session == session);
    if j > 0 {
        lemma_one_session(c, version, key_id, session, j - 1);
        let before = c.befores[j - 1];
        assert(inbound_step(
            before,
            c.frames[j - 1],
            c.times[j - 1],
            c.afters[j - 1],
            c.inbounds[j - 1],
        ));
        lemma_session_stays(before.decoder, c.frames[j - 1], c.times[j - 1]);
    }
    assert(c.befores[j].decoder.session == c.decoder_after(j).session);
}

/// A decoder keeps its session.
proof fn lemma_session_stays(m: DecoderModel, f: FrameModel, now: nat)
    ensures
        m.frame_outcome(f, now).0.session == m.session,
{
    let kept = m.observed(f.sequence).pruned(now);
    let group = kept.group_for(f, now);
    let stored = group.stored(f.index as int, f.payload);
    decoder::lemma_fragments_touch_packets(
        kept.with_group(f.group, stored.settled()),
        group.deliveries(f.index as int, f.payload),
        now,
    );
}

/// What is handed out is what was decoded.
proof fn lemma_outputs_agree(c: Conversation, session: u64, n: nat)
    requires
        n <= c.frames.len(),
        c.inbounds.len() == c.frames.len(),
    ensures
        c.reception(session).output(n) == c.handed_out(n),
    decreases n,
{
    if n > 0 {
        lemma_outputs_agree(c, session, (n - 1) as nat);
    }
}

/// Over a link that loses, repeats and reorders frames, an end hands out what the other
/// end sent, unchanged and just once each, and all of it where no group loses more frames
/// than it has parity shards. Nothing else is handed out, and no frame is refused.
pub proof fn law_ends_hand_out_what_was_sent(
    e: EncoderModel,
    actions: Seq<Action>,
    c: Conversation,
)
    requires
        session::in_bounds(e, actions),
        session::all_coded(e, actions),
        c.runs(e.version, e.key_id, e.session),
        c.reception(e.session).timely(),
        session::receives_some(c.reception(e.session), session::log_of(e, actions).frames),
        c.reception(e.session).in_time(session::log_of(e, actions).traffic),
    ensures
        forall|j: int|
            0 <= j < c.inbounds.len() ==> !((#[trigger] c.inbounds[j]) is Invalid)
                && !(c.inbounds[j] is Discarded),
        ({
            let log = session::log_of(e, actions);
            let t = log.traffic;
            exists|ids: Seq<u64>|
                {
                    &&& ids.no_duplicates()
                    &&& forall|p: u64| #[trigger] ids.contains(p) ==> t.datagrams.contains_key(p)
                    &&& #[trigger] delivery::payloads(t, ids) == c.handed_out(c.frames.len())
                    &&& log.now.shards.len() == 0 && session::enough_arrived(
                        t,
                        c.reception(e.session),
                    ) ==> forall|p: u64| #[trigger]
                        t.datagrams.contains_key(p) ==> ids.contains(p)
                }
        }),
{
    let r = c.reception(e.session);
    let frames = session::log_of(e, actions).frames;
    session::law_frames_bear_their_senders_names(e, actions);
    assert forall|j: int| 0 <= j < c.frames.len() implies {
        &&& (#[trigger] c.frames[j]).version == e.version
        &&& c.frames[j].key_id == e.key_id
        &&& c.frames[j].session == e.session
    } by {
        assert(frames.contains(r.frames[j]));
        let k = choose|k: int| 0 <= k < frames.len() && frames[k] == r.frames[j];
        assert(frames[k].version == e.version);
    }
    law_ends_hand_out_what_is_decoded(c, e.version, e.key_id, e.session);
    session::law_session_round_trip(e, actions, r);
    assert forall|j: int| 0 <= j < c.inbounds.len() implies !((#[trigger] c.inbounds[j]) is Invalid)
        && !(c.inbounds[j] is Discarded) by {
        assert(r.outs[j] is Ok);
        assert(c.befores[j].encoder.version == e.version);
        assert(c.frames[j].version == e.version);
    }
}

/// Over a link that loses nothing and keeps the order, what one end sends is what the
/// other end hands out: every datagram, in the order of sending.
pub proof fn law_lossless_links_hand_out_all(
    e: EncoderModel,
    actions: Seq<Action>,
    c: Conversation,
)
    requires
        session::in_bounds(e, actions),
        session::all_coded(e, actions),
        session::log_of(e, actions).now.shards.len() == 0,
        c.runs(e.version, e.key_id, e.session),
        c.frames == session::log_of(e, actions).frames,
        c.reception(e.session).clock_runs(),
        c.reception(e.session).groups_prompt(),
        c.reception(e.session).parts_prompt(session::log_of(e, actions).traffic),
        c.reception(e.session).groups_fit(),
    ensures
        c.handed_out(c.frames.len()) == session::sent_by(actions),
{
    session::law_frames_bear_their_senders_names(e, actions);
    law_ends_hand_out_what_is_decoded(c, e.version, e.key_id, e.session);
    session::law_lossless_session(e, actions, c.reception(e.session));
}

/// What comes of a frame, and the ends themselves, are seen as they are.
pub proof fn law_ends_are_seen_as_they_are(end: Endpoint, inbound: Inbound)
    ensures
        end@.encoder == end.encoder@,
        end@.decoder == end.decoder@,
        match inbound {
            Inbound::Discarded => inbound@ == InboundModel::Discarded,
            Inbound::Report(new) => inbound@ == InboundModel::Report(new),
            Inbound::Invalid(e) => inbound@ == InboundModel::Invalid(e),
            Inbound::Datagrams(d) => inbound@ matches InboundModel::Datagrams(views) && views.len()
                == d@.len() && forall|i: int| 0 <= i < d@.len() ==> #[trigger] views[i] == d@[i]@,
        },
{
}

/// What a call that takes a frame hands out: for a frame for this end that is no report,
/// just the datagrams that the decoder completes with it, all of them and in order.
pub proof fn law_receiving_hands_out_every_datagram(
    end: &mut Endpoint,
    frame: Frame,
    now: u128,
    inbound: Inbound,
)
    requires
        call_ensures(Endpoint::receive_at, (end, frame, now), inbound),
        frame.version == old(end).encoder.version,
        frame.key_id == old(end).encoder.key_id,
        frame.session == old(end).encoder.session,
        frame.kind != 3 || frame.payload@.len() != 4,
    ensures
        ({
            let (after, out) = old(end).decoder@.frame_outcome(frame@, now as nat);
            &&& final(end).decoder@ == after
            &&& final(end).encoder@ == old(end).encoder@
            &&& out matches Ok(datagrams) ==> {
                &&& inbound matches Inbound::Datagrams(list)
                &&& list@.len() == datagrams.len()
                &&& forall|i: int| 0 <= i < list@.len() ==> #[trigger] list@[i]@ == datagrams[i]
            }
            &&& out matches Err(e) ==> (inbound matches Inbound::Invalid(f) && f == e)
        }),
{
    law_frames_go_to_the_decoder(old(end)@, frame@, now as nat, final(end)@, inbound@);
    law_ends_are_seen_as_they_are(*old(end), inbound);
    match inbound {
        Inbound::Datagrams(list) => {
            assert forall|i: int| 0 <= i < list@.len() implies #[trigger] list@[i]@
                == decoder::datagram_views(list@)[i] by {}
        },
        _ => {},
    }
}

/// What a call that reports does: the loss that the decoder counted since the last report
/// goes into a frame with the next number, and is settled.
pub proof fn law_reporting_sends_the_loss(end: &mut Endpoint, report: (u32, Frame))
    requires
        call_ensures(Endpoint::report, (end,), report),
    ensures
        report.0 == old(end).decoder@.loss_ppm(),
        final(end).decoder@ == old(end).decoder@.reported(),
        final(end).encoder@ == (EncoderModel {
            sequence: old(end).encoder@.sequence + 1,
            ..old(end).encoder@
        }),
        report.1.kind == 3,
        report.1.session == old(end).encoder.session,
        report.1.version == old(end).encoder.version,
        report.1.key_id == old(end).encoder.key_id,
        report.1.sequence == old(end).encoder.sequence,
        report.1.payload@.len() == 4,
        wire::be_value(report.1.payload@) == report.0,
{
    encoder::law_reports_say_the_loss(old(end)@.encoder, report.0);
}

} // verus!
