//! Frames and their three wire formats.
//!
//! V1 and V2 carry a clear header and a truncated keyed hash; V2 adds the device
//! key identifier. V3 is an opaque envelope: a key selector, a random nonce and
//! the encrypted inner frame.

use crate::crypto::{self, keyed_hash, open, random_nonce, seal, AEAD_TAG};
use crate::wire::{self, bytes_equal, copy_range, get_be, put_be, put_bytes};
use vstd::prelude::*;

verus! {

/// First four bytes of a V1 or V2 frame: "SFEC".
pub const MAGIC: u32 = 0x5346_4543;

pub const VERSION_V1: u8 = 1;

pub const VERSION_V2: u8 = 2;

pub const VERSION_V3: u8 = 3;

pub const KIND_DATA: u8 = 1;

pub const KIND_PARITY: u8 = 2;

pub const KIND_REPORT: u8 = 3;

/// Bytes before the payload of a V1 frame.
pub const HEADER: usize = 36;

/// Bytes before the payload of a V2 frame.
pub const HEADER_V2: usize = 44;

/// Bytes of the key selector of a V3 envelope.
pub const V3_SELECTOR: usize = 8;

/// Bytes of the nonce of a V3 envelope.
pub const V3_NONCE: usize = 24;

/// Bytes before the payload of the frame inside a V3 envelope.
pub const V3_INNER_HEADER: usize = 31;

/// Bytes of the authentication tag.
pub const TAG: usize = 16;

/// Bytes that a V3 envelope adds to a payload.
pub const V3_OVERHEAD: usize = 79;

/// Why bytes are not taken as a frame, or a frame not sent.
#[derive(Clone, Copy, Debug, PartialEq, Eq, Structural)]
pub enum FrameError {
    ShortFrame,
    ShortV2Frame,
    BadVersion,
    BadAuth,
    BadProtocol,
    BadLength,
    InvalidV3Envelope,
    V3Encryption,
    V3Authentication,
    ShortV3Payload,
    BadV3Length,
    ShortV3Envelope,
    UnknownSelector,
    ShortLegacyFrame,
    LegacyDisabled,
    UnknownKeyId,
    UnsupportedVersion,
}

/// One unit of the tunnel protocol.
#[derive(Clone, Debug)]
pub struct Frame {
    pub version: u8,
    pub key_id: u64,
    pub kind: u8,
    pub session: u64,
    pub sequence: u64,
    pub group: u64,
    pub index: u16,
    pub data: u8,
    pub parity: u8,
    pub payload: Vec<u8>,
}

/// A frame as a mathematical value.
pub struct FrameModel {
    pub version: u8,
    pub key_id: u64,
    pub kind: u8,
    pub session: u64,
    pub sequence: u64,
    pub group: u64,
    pub index: u16,
    pub data: u8,
    pub parity: u8,
    pub payload: Seq<u8>,
}

impl View for Frame {
    type V = FrameModel;

    open spec fn view(&self) -> FrameModel {
        FrameModel {
            version: self.version,
            key_id: self.key_id,
            kind: self.kind,
            session: self.session,
            sequence: self.sequence,
            group: self.group,
            index: self.index,
            data: self.data,
            parity: self.parity,
            payload: self.payload@,
        }
    }
}

impl FrameModel {
    /// The header fields that every format carries, ending in the payload length
    /// modulo 2^16.
    pub open spec fn fields(self) -> Seq<u8> {
        wire::be(self.session as nat, 8) + wire::be(self.sequence as nat, 8) + wire::be(
            self.group as nat,
            8,
        ) + wire::be(self.index as nat, 2) + seq![self.data, self.parity] + wire::be(
            self.payload.len(),
            2,
        )
    }

    /// Magic, version, kind and, in V2, the key identifier.
    pub open spec fn prologue(self) -> Seq<u8> {
        wire::be(MAGIC as nat, 4) + seq![self.version, self.kind] + if self.version == VERSION_V2 {
            wire::be(self.key_id as nat, 8)
        } else {
            Seq::empty()
        }
    }

    /// A V1 or V2 frame without its tag.
    pub open spec fn legacy_body(self) -> Seq<u8> {
        self.prologue() + self.fields() + self.payload
    }

    /// A V1 or V2 frame under `key`.
    pub open spec fn legacy_bytes(self, key: Seq<u8>) -> Seq<u8> {
        self.legacy_body() + legacy_tag(key, self.legacy_body())
    }

    /// The plaintext of a V3 envelope.
    pub open spec fn v3_inner(self) -> Seq<u8> {
        seq![self.kind] + self.fields() + self.payload
    }

    /// The V3 envelope under `key` with `nonce`.
    pub open spec fn v3_bytes(self, key: Seq<u8>, nonce: Seq<u8>) -> Seq<u8> {
        v3_selector_model(key) + nonce + crypto::xchacha_seal(key, nonce, self.v3_inner())
    }

    /// The frame as one of device `key_id`.
    pub open spec fn of_device(self, key_id: u64) -> FrameModel {
        FrameModel { key_id, ..self }
    }
}

/// The tag of a V1 or V2 frame: the head of a keyed hash of all that is before it.
pub open spec fn legacy_tag(key: Seq<u8>, body: Seq<u8>) -> Seq<u8> {
    crypto::blake3_keyed_hash(key, body)@.take(TAG as int)
}

/// The text whose keyed hash selects the key of a V3 envelope.
pub open spec fn selector_label() -> Seq<u8> {
    seq![
        0x73u8, 0x6d, 0x61, 0x72, 0x74, 0x2d, 0x66, 0x65, 0x63, 0x2d, 0x76, 0x33, 0x2d, 0x72, 0x6f,
        0x75, 0x74, 0x69, 0x6e, 0x67, 0x2d, 0x73, 0x65, 0x6c, 0x65, 0x63, 0x74, 0x6f, 0x72,
    ]
}

/// The selector that stands for `key` on the wire.
pub open spec fn v3_selector_model(key: Seq<u8>) -> Seq<u8> {
    crypto::blake3_keyed_hash(key, selector_label())@.take(V3_SELECTOR as int)
}

/// The frame whose header fields stand in `s` from `at` on, with the payload from
/// `payload` on to `end`.
pub open spec fn read_fields(
    s: Seq<u8>,
    version: u8,
    key_id: u64,
    kind: u8,
    at: int,
    payload: int,
    end: int,
) -> FrameModel {
    FrameModel {
        version,
        key_id,
        kind,
        session: wire::be_value(s.subrange(at, at + 8)) as u64,
        sequence: wire::be_value(s.subrange(at + 8, at + 16)) as u64,
        group: wire::be_value(s.subrange(at + 16, at + 24)) as u64,
        index: wire::be_value(s.subrange(at + 24, at + 26)) as u16,
        data: s[at + 26],
        parity: s[at + 27],
        payload: s.subrange(payload, end),
    }
}

/// Where the parts of a V1 or V2 frame lie.
#[derive(Clone, Copy, Debug, PartialEq, Eq, Structural)]
pub struct LegacyLayout {
    /// Start of the payload.
    pub header: usize,
    pub key_id: u64,
    /// Start of the header fields.
    pub offset: usize,
}

/// The layout that version and length of `buf` call for.
pub open spec fn legacy_layout_model(buf: Seq<u8>) -> Result<LegacyLayout, FrameError> {
    if buf.len() < 6 + TAG {
        Err(FrameError::ShortFrame)
    } else if buf[4] == VERSION_V1 {
        if buf.len() < HEADER + TAG {
            Err(FrameError::ShortFrame)
        } else {
            Ok(LegacyLayout { header: HEADER, key_id: 0, offset: 6 })
        }
    } else if buf[4] == VERSION_V2 {
        if buf.len() < HEADER_V2 + TAG {
            Err(FrameError::ShortV2Frame)
        } else {
            Ok(
                LegacyLayout {
                    header: HEADER_V2,
                    key_id: wire::be_value(buf.subrange(6, 14)) as u64,
                    offset: 14,
                },
            )
        }
    } else {
        Err(FrameError::BadVersion)
    }
}

/// What a V1 or V2 frame in `buf` decodes to, where `digest` is the keyed hash of
/// all but its tag.
pub open spec fn legacy_decode_model(buf: Seq<u8>, digest: Seq<u8>) -> Result<
    FrameModel,
    FrameError,
> {
    match legacy_layout_model(buf) {
        Err(e) => Err(e),
        Ok(l) => {
            let payload_len = wire::be_value(buf.subrange(l.offset + 28, l.offset + 30));
            if digest.take(TAG as int) != buf.skip(buf.len() - TAG) {
                Err(FrameError::BadAuth)
            } else if wire::be_value(buf.subrange(0, 4)) != MAGIC {
                Err(FrameError::BadProtocol)
            } else if l.header + payload_len + TAG != buf.len() {
                Err(FrameError::BadLength)
            } else {
                Ok(
                    read_fields(
                        buf,
                        buf[4],
                        l.key_id,
                        buf[5],
                        l.offset as int,
                        l.header as int,
                        l.header + payload_len,
                    ),
                )
            }
        },
    }
}

/// What `buf` decodes to as a V1 or V2 frame under `key`.
pub open spec fn legacy_model(buf: Seq<u8>, key: Seq<u8>) -> Result<FrameModel, FrameError> {
    legacy_decode_model(buf, crypto::blake3_keyed_hash(key, buf.take(buf.len() - TAG))@)
}

/// What the plaintext of a V3 envelope decodes to.
pub open spec fn v3_inner_model(inner: Seq<u8>, key_id: u64) -> Result<FrameModel, FrameError> {
    if inner.len() < V3_INNER_HEADER {
        Err(FrameError::ShortV3Payload)
    } else if V3_INNER_HEADER + wire::be_value(inner.subrange(29, 31)) != inner.len() {
        Err(FrameError::BadV3Length)
    } else {
        Ok(
            read_fields(
                inner,
                VERSION_V3,
                key_id,
                inner[0],
                1,
                V3_INNER_HEADER as int,
                inner.len() as int,
            ),
        )
    }
}

/// What `buf` decodes to as a V3 envelope under `key`.
pub open spec fn v3_model(buf: Seq<u8>, key_id: u64, key: Seq<u8>) -> Result<
    FrameModel,
    FrameError,
> {
    if buf.len() < V3_SELECTOR + V3_NONCE + V3_INNER_HEADER + TAG || buf.take(V3_SELECTOR as int)
        != v3_selector_model(key) {
        Err(FrameError::InvalidV3Envelope)
    } else {
        match crypto::xchacha_open(
            key,
            buf.subrange(V3_SELECTOR as int, V3_SELECTOR + V3_NONCE),
            buf.skip(V3_SELECTOR + V3_NONCE),
        ) {
            None => Err(FrameError::V3Authentication),
            Some(inner) => v3_inner_model(inner, key_id),
        }
    }
}

/// Whether `buf` begins as V1 and V2 frames do.
pub open spec fn has_magic(buf: Seq<u8>) -> bool {
    buf.len() >= 4 && buf.take(4) == wire::be(MAGIC as nat, 4)
}

/// What `buf` decodes to at a client that holds one key.
pub open spec fn client_model(buf: Seq<u8>, key_id: u64, key: Seq<u8>) -> Result<
    FrameModel,
    FrameError,
> {
    if has_magic(buf) {
        legacy_model(buf, key)
    } else {
        v3_model(buf, key_id, key)
    }
}

/// The nonce that a V3 envelope carries.
pub open spec fn envelope_nonce(buf: Seq<u8>) -> Seq<u8> {
    buf.subrange(V3_SELECTOR as int, V3_SELECTOR + V3_NONCE)
}

/// Whether some bytes are the encoding of a frame under `key`, byte for byte.
pub open spec fn is_encoding(buf: Seq<u8>, f: FrameModel, key: Seq<u8>) -> bool {
    if has_magic(buf) {
        buf == f.legacy_bytes(key)
    } else {
        buf == f.v3_bytes(key, envelope_nonce(buf))
    }
}

/// Whether some bytes are a V3 envelope of a frame under `key`: they are as long as they
/// should be, begin with the selector of the key, decode to what the frame holds, and no
/// other tag in place of theirs is taken.
pub open spec fn is_envelope_of(buf: Seq<u8>, f: FrameModel, key: Seq<u8>) -> bool {
    let body = buf.len() - AEAD_TAG;
    &&& buf.len() == f.payload.len() + V3_OVERHEAD
    &&& buf.take(V3_SELECTOR as int) == v3_selector_model(key)
    &&& forall|id: u64| #[trigger] v3_model(buf, id, key) == v3_inner_model(f.v3_inner(), id)
    &&& forall|other: Seq<u8>, id: u64|
        other.len() == buf.len() && other != buf && other.take(body) == buf.take(body)
            ==> #[trigger] v3_model(other, id, key) == Err::<FrameModel, FrameError>(
            FrameError::V3Authentication,
        )
}

/// Whether a nonce was drawn at random.
pub closed spec fn is_drawn(nonce: Seq<u8>) -> bool {
    exists|n: [u8; 24]| #[trigger] call_ensures(random_nonce, (), n) && n@ == nonce
}

/// What a decoder returned, as a mathematical value.
pub open spec fn frame_result(r: Result<Frame, FrameError>) -> Result<FrameModel, FrameError> {
    match r {
        Ok(f) => Ok(f@),
        Err(e) => Err(e),
    }
}

/// Whether the AEAD can be given an envelope of `len` bytes.
pub open spec fn envelope_len_defined(len: nat) -> bool {
    len >= V3_SELECTOR + V3_NONCE + AEAD_TAG ==> crypto::aead_stream_lasts(
        (len - V3_SELECTOR - V3_NONCE - AEAD_TAG) as nat,
    )
}

/// The header fields that `fields` writes are those that `read_fields` reads.
proof fn lemma_fields_read_back(f: FrameModel, head: Seq<u8>, tail: Seq<u8>)
    requires
        f.payload.len() <= 0xffff,
    ensures
        ({
            let s = head + f.fields() + f.payload + tail;
            let at = head.len() as int;
            &&& f.fields().len() == 30
            &&& read_fields(s, f.version, f.key_id, f.kind, at, at + 30, at + 30 + f.payload.len())
                == f
            &&& wire::be_value(s.subrange(at + 28, at + 30)) == f.payload.len()
        }),
{
    broadcast use wire::lemma_be_len;

    let s = head + f.fields() + f.payload + tail;
    let at = head.len() as int;
    wire::lemma_byte_bounds();
    wire::lemma_be_round_trip(f.session as nat, 8);
    wire::lemma_be_round_trip(f.sequence as nat, 8);
    wire::lemma_be_round_trip(f.group as nat, 8);
    wire::lemma_be_round_trip(f.index as nat, 2);
    wire::lemma_be_round_trip(f.payload.len(), 2);
    assert(s.subrange(at, at + 8) =~= wire::be(f.session as nat, 8));
    assert(s.subrange(at + 8, at + 16) =~= wire::be(f.sequence as nat, 8));
    assert(s.subrange(at + 16, at + 24) =~= wire::be(f.group as nat, 8));
    assert(s.subrange(at + 24, at + 26) =~= wire::be(f.index as nat, 2));
    assert(s.subrange(at + 28, at + 30) =~= wire::be(f.payload.len(), 2));
    assert(s.subrange(at + 30, at + 30 + f.payload.len()) =~= f.payload);
}

/// Writing the header fields read from some bytes yields those bytes.
proof fn lemma_fields_written_back(
    s: Seq<u8>,
    version: u8,
    key_id: u64,
    kind: u8,
    at: int,
    end: int,
)
    requires
        0 <= at,
        at + 30 <= end <= s.len(),
        wire::be_value(s.subrange(at + 28, at + 30)) == end - at - 30,
    ensures
        read_fields(s, version, key_id, kind, at, at + 30, end).fields() == s.subrange(at, at + 30),
{
    broadcast use wire::lemma_be_len;

    let f = read_fields(s, version, key_id, kind, at, at + 30, end);
    wire::lemma_byte_bounds();
    wire::lemma_be_value_round_trip(s.subrange(at, at + 8));
    wire::lemma_be_value_round_trip(s.subrange(at + 8, at + 16));
    wire::lemma_be_value_round_trip(s.subrange(at + 16, at + 24));
    wire::lemma_be_value_round_trip(s.subrange(at + 24, at + 26));
    wire::lemma_be_value_round_trip(s.subrange(at + 28, at + 30));
    assert(f.payload.len() == end - at - 30);
    assert(f.fields() =~= s.subrange(at, at + 30));
}

/// Decoding an encoded V1 or V2 frame gives the frame back, under every key and
/// for every payload whose length the header can hold.
pub proof fn law_legacy_round_trip(f: FrameModel, key: Seq<u8>)
    requires
        (f.version == VERSION_V1 && f.key_id == 0) || f.version == VERSION_V2,
        f.payload.len() <= 0xffff,
    ensures
        legacy_model(f.legacy_bytes(key), key) == Ok::<FrameModel, FrameError>(f),
{
    broadcast use wire::lemma_be_len;

    let tag = legacy_tag(key, f.legacy_body());
    let buf = f.legacy_bytes(key);
    lemma_fields_read_back(f, f.prologue(), tag);
    assert(buf =~= f.prologue() + f.fields() + f.payload + tag);
    assert(buf.take(buf.len() - TAG) =~= f.legacy_body());
    assert(buf.skip(buf.len() - TAG) =~= tag);
    assert(buf.subrange(0, 4) =~= wire::be(MAGIC as nat, 4));
    wire::lemma_byte_bounds();
    wire::lemma_be_round_trip(MAGIC as nat, 4);
    if f.version == VERSION_V2 {
        assert(buf.subrange(6, 14) =~= wire::be(f.key_id as nat, 8));
        wire::lemma_be_round_trip(f.key_id as nat, 8);
    }
}

/// A V1 or V2 decoder takes nothing but the encoding of the frame it returns:
/// what it accepts was tagged under its key, byte for byte.
pub proof fn law_legacy_accepts_only_encodings(buf: Seq<u8>, key: Seq<u8>, f: FrameModel)
    requires
        legacy_model(buf, key) == Ok::<FrameModel, FrameError>(f),
    ensures
        buf == f.legacy_bytes(key),
        (f.version == VERSION_V1 && f.key_id == 0) || f.version == VERSION_V2,
        f.payload.len() <= 0xffff,
{
    broadcast use wire::lemma_be_len;

    let l = legacy_layout_model(buf)->Ok_0;
    let at = l.offset as int;
    let end = l.header + wire::be_value(buf.subrange(at + 28, at + 30));
    wire::lemma_byte_bounds();
    wire::lemma_be_value_round_trip(buf.subrange(at + 28, at + 30));
    lemma_fields_written_back(buf, f.version, f.key_id, f.kind, at, end);
    wire::lemma_be_value_round_trip(buf.subrange(0, 4));
    if f.version == VERSION_V2 {
        wire::lemma_be_value_round_trip(buf.subrange(6, 14));
    }
    assert(f.prologue() =~= buf.take(at));
    assert(f.legacy_body() =~= buf.take(buf.len() - TAG));
    assert(buf =~= buf.take(buf.len() - TAG) + buf.skip(buf.len() - TAG));
}

/// Decoding the plaintext of a V3 envelope gives the frame back.
pub proof fn law_v3_inner_round_trip(f: FrameModel)
    requires
        f.version == VERSION_V3,
        f.payload.len() <= 0xffff,
    ensures
        v3_inner_model(f.v3_inner(), f.key_id) == Ok::<FrameModel, FrameError>(f),
{
    lemma_fields_read_back(f, seq![f.kind], Seq::empty());
    assert(f.v3_inner() =~= seq![f.kind] + f.fields() + f.payload + Seq::<u8>::empty());
}

/// The plaintext of a V3 envelope is the one encoding of the frame it decodes to.
pub proof fn law_v3_inner_is_canonical(inner: Seq<u8>, key_id: u64, f: FrameModel)
    requires
        v3_inner_model(inner, key_id) == Ok::<FrameModel, FrameError>(f),
    ensures
        f.version == VERSION_V3,
        f.key_id == key_id,
        inner == f.v3_inner(),
{
    lemma_fields_written_back(inner, VERSION_V3, key_id, inner[0], 1, inner.len() as int);
    assert(inner =~= f.v3_inner());
}

/// A V3 envelope is longer than the payload by as much as it should be, begins with the
/// selector of its key, and decodes to the frame again, as one of whatever device it is
/// taken to be from.
pub proof fn law_v3_round_trip(buf: Seq<u8>, f: FrameModel, key: Seq<u8>, key_id: u64)
    requires
        is_envelope_of(buf, f, key),
        f.version == VERSION_V3,
        f.payload.len() <= 0xffff,
    ensures
        buf.len() == V3_OVERHEAD + f.payload.len(),
        buf.take(V3_SELECTOR as int) == v3_selector_model(key),
        v3_model(buf, key_id, key) == Ok::<FrameModel, FrameError>(f.of_device(key_id)),
{
    law_v3_inner_round_trip(f.of_device(key_id));
    assert(f.of_device(key_id).v3_inner() == f.v3_inner());
}

/// A V3 envelope of which a byte of the tag is changed, the last one say, is refused.
pub proof fn law_v3_tags_are_checked(
    buf: Seq<u8>,
    f: FrameModel,
    key: Seq<u8>,
    key_id: u64,
    at: int,
    byte: u8,
)
    requires
        is_envelope_of(buf, f, key),
        buf.len() - AEAD_TAG <= at < buf.len(),
        byte != buf[at],
    ensures
        v3_model(buf.update(at, byte), key_id, key) == Err::<FrameModel, FrameError>(
            FrameError::V3Authentication,
        ),
{
    let body = buf.len() - AEAD_TAG;
    let other = buf.update(at, byte);
    assert(other[at] != buf[at]);
    assert(other.take(body) =~= buf.take(body));
}

/// What is too short for a V3 envelope, or begins with the selector of another key, is
/// refused.
pub proof fn law_v3_strangers_are_refused(buf: Seq<u8>, key_id: u64, key: Seq<u8>)
    requires
        buf.len() < V3_OVERHEAD || buf.take(V3_SELECTOR as int) != v3_selector_model(key),
    ensures
        v3_model(buf, key_id, key) == Err::<FrameModel, FrameError>(FrameError::InvalidV3Envelope),
{
}

/// A V3 envelope that decodes is the encoding of the frame it decodes to, if its
/// plaintext was sealed.
proof fn lemma_v3_accepts_only_encodings(buf: Seq<u8>, key_id: u64, key: Seq<u8>, inner: Seq<u8>)
    requires
        buf.len() >= V3_OVERHEAD,
        buf.take(V3_SELECTOR as int) == v3_selector_model(key),
        buf.skip(V3_SELECTOR + V3_NONCE) == crypto::xchacha_seal(key, envelope_nonce(buf), inner),
        v3_inner_model(inner, key_id) is Ok,
    ensures
        buf == v3_inner_model(inner, key_id)->Ok_0.v3_bytes(key, envelope_nonce(buf)),
{
    law_v3_inner_is_canonical(inner, key_id, v3_inner_model(inner, key_id)->Ok_0);
    assert(buf =~= buf.take(V3_SELECTOR as int) + envelope_nonce(buf) + buf.skip(
        V3_SELECTOR + V3_NONCE,
    ));
}

/// Reads the header fields at `at` and copies the payload.
fn take_fields(
    buf: &[u8],
    version: u8,
    key_id: u64,
    kind: u8,
    at: usize,
    payload: usize,
    end: usize,
) -> (frame: Frame)
    requires
        at + 28 <= buf@.len(),
        payload <= end <= buf@.len(),
    ensures
        frame@ == read_fields(
            buf@,
            version,
            key_id,
            kind,
            at as int,
            payload as int,
            end as int,
        ),
{
    let total: usize = buf.len();
    assert(at + 28 <= total);
    proof {
        wire::lemma_byte_bounds();
    }
    Frame {
        version,
        key_id,
        kind,
        session: get_be(buf, at, 8),
        sequence: get_be(buf, at + 8, 8),
        group: get_be(buf, at + 16, 8),
        index: get_be(buf, at + 24, 2) as u16,
        data: buf[at + 26],
        parity: buf[at + 27],
        payload: copy_range(buf, payload, end),
    }
}

/// Finds the layout of a V1 or V2 frame.
pub fn legacy_layout(buf: &[u8]) -> (layout: Result<LegacyLayout, FrameError>)
    ensures
        layout == legacy_layout_model(buf@),
{
    if buf.len() < 6 + TAG {
        return Err(FrameError::ShortFrame);
    }
    let version: u8 = buf[4];
    if version == VERSION_V1 {
        if buf.len() < HEADER + TAG {
            Err(FrameError::ShortFrame)
        } else {
            Ok(LegacyLayout { header: HEADER, key_id: 0, offset: 6 })
        }
    } else if version == VERSION_V2 {
        if buf.len() < HEADER_V2 + TAG {
            Err(FrameError::ShortV2Frame)
        } else {
            proof {
                wire::lemma_byte_bounds();
            }
            Ok(LegacyLayout { header: HEADER_V2, key_id: get_be(buf, 6, 8), offset: 14 })
        }
    } else {
        Err(FrameError::BadVersion)
    }
}

impl Frame {
    /// Appends the header fields that every format carries.
    fn put_fields(&self, out: &mut Vec<u8>)
        ensures
            final(out)@ == old(out)@ + self@.fields(),
    {
        put_be(out, self.session, 8);
        put_be(out, self.sequence, 8);
        put_be(out, self.group, 8);
        put_be(out, self.index as u64, 2);
        out.push(self.data);
        out.push(self.parity);
        put_be(out, self.payload.len() as u64, 2);
        assert(out@ =~= old(out)@ + self@.fields());
    }

    /// A V1 or V2 frame without its tag.
    pub fn legacy_body(&self) -> (body: Vec<u8>)
        ensures
            body@ == self@.legacy_body(),
    {
        let mut out: Vec<u8> = Vec::new();
        put_be(&mut out, MAGIC as u64, 4);
        out.push(self.version);
        out.push(self.kind);
        if self.version == VERSION_V2 {
            put_be(&mut out, self.key_id, 8);
        }
        assert(out@ =~= self@.prologue());
        self.put_fields(&mut out);
        put_bytes(&mut out, &self.payload);
        out
    }

    /// The frame in the V1 or V2 format, under `key`.
    pub fn encode(&self, key: &[u8; 32]) -> (out: Vec<u8>)
        ensures
            out@ == self@.legacy_bytes(key@),
    {
        let mut out = self.legacy_body();
        let digest = keyed_hash(key, &out);
        put_bytes(&mut out, vstd::slice::slice_subrange(&digest, 0, TAG));
        assert(digest@.subrange(0, TAG as int) =~= digest@.take(TAG as int));
        out
    }

    /// Decodes a V1 or V2 frame, given the keyed hash of all but its tag.
    pub fn decode_with_digest(buf: &[u8], digest: &[u8; 32]) -> (frame: Result<Self, FrameError>)
        ensures
            frame_result(frame) == legacy_decode_model(buf@, digest@),
    {
        let layout = match legacy_layout(buf) {
            Ok(layout) => layout,
            Err(e) => return Err(e),
        };
        let total: usize = buf.len();
        let tag_at: usize = total - TAG;
        assert(digest@.subrange(0, TAG as int) =~= digest@.take(TAG as int));
        assert(buf@.subrange(tag_at as int, total as int) =~= buf@.skip(buf@.len() - TAG));
        if !bytes_equal(
            vstd::slice::slice_subrange(digest, 0, TAG),
            vstd::slice::slice_subrange(buf, tag_at, total),
        ) {
            return Err(FrameError::BadAuth);
        }
        if get_be(buf, 0, 4) != MAGIC as u64 {
            return Err(FrameError::BadProtocol);
        }
        proof {
            wire::lemma_byte_bounds();
        }
        let payload_len: usize = get_be(buf, layout.offset + 28, 2) as usize;
        if layout.header + payload_len + TAG != total {
            return Err(FrameError::BadLength);
        }
        Ok(
            take_fields(
                buf,
                buf[4],
                layout.key_id,
                buf[5],
                layout.offset,
                layout.header,
                layout.header + payload_len,
            ),
        )
    }

    /// Decodes a V1 or V2 frame under `key`.
    pub fn decode(buf: &[u8], key: &[u8; 32]) -> (frame: Result<Self, FrameError>)
        ensures
            frame_result(frame) == legacy_model(buf@, key@),
    {
        match legacy_layout(buf) {
            Ok(_) => {},
            Err(e) => return Err(e),
        }
        let body_len: usize = buf.len() - TAG;
        assert(buf@.subrange(0, body_len as int) =~= buf@.take(buf@.len() - TAG));
        let digest = keyed_hash(key, vstd::slice::slice_subrange(buf, 0, body_len));
        Self::decode_with_digest(buf, &digest)
    }

    /// The plaintext of the V3 envelope of this frame.
    pub fn v3_inner(&self) -> (inner: Vec<u8>)
        ensures
            inner@ == self@.v3_inner(),
    {
        let mut inner: Vec<u8> = Vec::new();
        inner.push(self.kind);
        assert(inner@ =~= seq![self.kind]);
        self.put_fields(&mut inner);
        put_bytes(&mut inner, &self.payload);
        inner
    }

    /// The frame as it is sent, with `nonce` for the V3 envelope.
    pub fn encode_wire_with_nonce(&self, key: &[u8; 32], nonce: &[u8; 24]) -> (out: Result<
        Vec<u8>,
        FrameError,
    >)
        requires
            self.version == VERSION_V3 ==> self.payload@.len() + V3_INNER_HEADER + AEAD_TAG
                <= isize::MAX,
            self.version == VERSION_V3 ==> crypto::aead_stream_lasts(
                self.payload@.len() + V3_INNER_HEADER as nat,
            ),
        ensures
            self.version != VERSION_V3 ==> (out matches Ok(b) && b@ == self@.legacy_bytes(key@)),
            self.version == VERSION_V3 ==> match out {
                Ok(b) => {
                    &&& crypto::aead_len_ok(self.payload@.len() + V3_INNER_HEADER as nat)
                    &&& b@ == self@.v3_bytes(key@, nonce@)
                    &&& is_envelope_of(b@, self@, key@)
                    &&& self.payload@.len() <= 0xffff ==> v3_model(b@, self.key_id, key@) == Ok::<
                        FrameModel,
                        FrameError,
                    >(self@)
                },
                Err(e) => !crypto::aead_len_ok(self.payload@.len() + V3_INNER_HEADER as nat) && e
                    == FrameError::V3Encryption,
            },
    {
        if self.version != VERSION_V3 {
            return Ok(self.encode(key));
        }
        let inner = self.v3_inner();
        proof {
            broadcast use wire::lemma_be_len;

        }
        let ciphertext = match seal(key, nonce, &inner) {
            Ok(ciphertext) => ciphertext,
            Err(_) => return Err(FrameError::V3Encryption),
        };
        let mut out: Vec<u8> = Vec::new();
        let selector = v3_selector(key);
        put_bytes(&mut out, &selector);
        put_bytes(&mut out, nonce);
        put_bytes(&mut out, &ciphertext);
        proof {
            assert(out@ =~= self@.v3_bytes(key@, nonce@));
            assert(out@.take(V3_SELECTOR as int) =~= selector@);
            assert(out@.subrange(V3_SELECTOR as int, V3_SELECTOR + V3_NONCE) =~= nonce@);
            assert(out@.skip(V3_SELECTOR + V3_NONCE) =~= ciphertext@);
            let body = out@.len() - AEAD_TAG;
            assert forall|other: Seq<u8>, id: u64|
                other.len() == out@.len() && other != out@ && other.take(body) == out@.take(
                    body,
                ) implies #[trigger] v3_model(other, id, key@) == Err::<FrameModel, FrameError>(
                FrameError::V3Authentication,
            ) by {
                let rest = other.skip(V3_SELECTOR + V3_NONCE);
                assert(other.take(V3_SELECTOR as int) =~= other.take(body).take(
                    V3_SELECTOR as int,
                ));
                assert(out@.take(V3_SELECTOR as int) =~= out@.take(body).take(V3_SELECTOR as int));
                assert(envelope_nonce(other) =~= envelope_nonce(other.take(body)));
                assert(envelope_nonce(out@) =~= envelope_nonce(out@.take(body)));
                assert(rest.take(inner@.len() as int) =~= other.take(body).skip(
                    V3_SELECTOR + V3_NONCE,
                ));
                assert(ciphertext@.take(inner@.len() as int) =~= out@.take(body).skip(
                    V3_SELECTOR + V3_NONCE,
                ));
                assert(other =~= other.take(V3_SELECTOR as int) + envelope_nonce(other) + rest);
                assert(crypto::xchacha_open(key@, nonce@, rest) is None);
            }
            if self.payload@.len() <= 0xffff {
                law_v3_inner_round_trip(self@);
            }
        }
        Ok(out)
    }

    /// The frame as it is sent. V3 draws a fresh nonce.
    pub fn encode_wire(&self, key: &[u8; 32]) -> (out: Result<Vec<u8>, FrameError>)
        requires
            self.version == VERSION_V3 ==> self.payload@.len() + V3_INNER_HEADER + AEAD_TAG
                <= isize::MAX,
            self.version == VERSION_V3 ==> crypto::aead_stream_lasts(
                self.payload@.len() + V3_INNER_HEADER as nat,
            ),
        ensures
            self.version != VERSION_V3 ==> (out matches Ok(b) && b@ == self@.legacy_bytes(key@)),
            self.version == VERSION_V3 ==> match out {
                Ok(b) => {
                    &&& crypto::aead_len_ok(self.payload@.len() + V3_INNER_HEADER as nat)
                    &&& exists|nonce: Seq<u8>|
                        is_drawn(nonce) && nonce.len() == V3_NONCE && b@
                            == #[trigger] self@.v3_bytes(key@, nonce)
                    &&& is_envelope_of(b@, self@, key@)
                    &&& self.payload@.len() <= 0xffff ==> v3_model(b@, self.key_id, key@) == Ok::<
                        FrameModel,
                        FrameError,
                    >(self@)
                },
                Err(e) => !crypto::aead_len_ok(self.payload@.len() + V3_INNER_HEADER as nat) && e
                    == FrameError::V3Encryption,
            },
    {
        let nonce = random_nonce();
        assert(call_ensures(random_nonce, (), nonce));
        self.encode_wire_with_nonce(key, &nonce)
    }

    /// Decodes the plaintext of a V3 envelope.
    pub fn decode_v3_inner(inner: &[u8], key_id: u64) -> (frame: Result<Self, FrameError>)
        ensures
            frame_result(frame) == v3_inner_model(inner@, key_id),
    {
        if inner.len() < V3_INNER_HEADER {
            return Err(FrameError::ShortV3Payload);
        }
        proof {
            wire::lemma_byte_bounds();
        }
        let payload_len: usize = get_be(inner, 29, 2) as usize;
        if V3_INNER_HEADER + payload_len != inner.len() {
            return Err(FrameError::BadV3Length);
        }
        Ok(take_fields(inner, VERSION_V3, key_id, inner[0], 1, V3_INNER_HEADER, inner.len()))
    }

    /// Decodes a V3 envelope under `key`.
    pub fn decode_v3(buf: &[u8], key_id: u64, key: &[u8; 32]) -> (frame: Result<Self, FrameError>)
        requires
            envelope_len_defined(buf@.len()),
        ensures
            frame_result(frame) == v3_model(buf@, key_id, key@),
            frame matches Ok(f) ==> buf@ == f@.v3_bytes(key@, envelope_nonce(buf@)),
    {
        let total: usize = buf.len();
        if total < V3_SELECTOR + V3_NONCE + V3_INNER_HEADER + TAG {
            return Err(FrameError::InvalidV3Envelope);
        }
        let selector = v3_selector(key);
        assert(buf@.subrange(0, V3_SELECTOR as int) =~= buf@.take(V3_SELECTOR as int));
        if !bytes_equal(vstd::slice::slice_subrange(buf, 0, V3_SELECTOR), &selector) {
            return Err(FrameError::InvalidV3Envelope);
        }
        let mut nonce: [u8; 24] = [0u8; 24];
        let mut i: usize = 0;
        while i < V3_NONCE
            invariant
                i <= V3_NONCE,
                V3_SELECTOR + V3_NONCE <= buf@.len(),
                nonce@.len() == V3_NONCE,
                forall|j: int| 0 <= j < i ==> nonce@[j] == buf@[V3_SELECTOR + j],
            decreases V3_NONCE - i,
        {
            nonce[i] = buf[V3_SELECTOR + i];
            i = i + 1;
        }
        assert(nonce@ =~= buf@.subrange(V3_SELECTOR as int, V3_SELECTOR + V3_NONCE));
        assert(buf@.subrange(V3_SELECTOR + V3_NONCE, total as int) =~= buf@.skip(
            V3_SELECTOR + V3_NONCE,
        ));
        match open(
            key,
            &nonce,
            vstd::slice::slice_subrange(buf, V3_SELECTOR + V3_NONCE, total),
        ) {
            Ok(inner) => {
                proof {
                    if v3_inner_model(inner@, key_id) is Ok {
                        lemma_v3_accepts_only_encodings(buf@, key_id, key@, inner@);
                    }
                }
                Self::decode_v3_inner(&inner, key_id)
            },
            Err(_) => Err(FrameError::V3Authentication),
        }
    }
}

/// The selector that stands for `key` on the wire.
pub fn v3_selector(key: &[u8; 32]) -> (selector: [u8; 8])
    ensures
        selector@ == v3_selector_model(key@),
{
    let label: [u8; 29] = [
        0x73u8, 0x6d, 0x61, 0x72, 0x74, 0x2d, 0x66, 0x65, 0x63, 0x2d, 0x76, 0x33, 0x2d, 0x72, 0x6f,
        0x75, 0x74, 0x69, 0x6e, 0x67, 0x2d, 0x73, 0x65, 0x6c, 0x65, 0x63, 0x74, 0x6f, 0x72,
    ];
    assert(label@ =~= selector_label());
    let digest = keyed_hash(key, &label);
    let selector: [u8; 8] = [
        digest[0], digest[1], digest[2], digest[3], digest[4], digest[5], digest[6], digest[7],
    ];
    assert(selector@ =~= digest@.take(V3_SELECTOR as int));
    selector
}

/// Whether `buf` begins as V1 and V2 frames do.
pub fn starts_with_magic(buf: &[u8]) -> (yes: bool)
    ensures
        yes == has_magic(buf@),
{
    if buf.len() < 4 {
        return false;
    }
    proof {
        wire::lemma_byte_bounds();
        wire::lemma_be_round_trip(MAGIC as nat, 4);
        wire::lemma_be_value_round_trip(buf@.take(4));
        assert(buf@.subrange(0, 4) =~= buf@.take(4));
    }
    get_be(buf, 0, 4) == MAGIC as u64
}

/// Decodes what a client received, in any of the formats.
pub fn decode_client_frame(buf: &[u8], key_id: u64, key: &[u8; 32]) -> (frame: Result<
    Frame,
    FrameError,
>)
    requires
        envelope_len_defined(buf@.len()),
    ensures
        frame_result(frame) == client_model(buf@, key_id, key@),
        frame matches Ok(f) ==> is_encoding(buf@, f@, key@),
{
    if starts_with_magic(buf) {
        proof {
            if let Ok(f) = legacy_model(buf@, key@) {
                law_legacy_accepts_only_encodings(buf@, key@, f);
            }
        }
        Frame::decode(buf, key)
    } else {
        Frame::decode_v3(buf, key_id, key)
    }
}

/// How the header fields that every format carries lie, from `at` on: session, number and
/// group in eight bytes each, the place in two, the data and parity counts in one each,
/// and the length of the payload in two.
proof fn lemma_fields_lie(f: FrameModel, head: Seq<u8>, tail: Seq<u8>)
    requires
        f.payload.len() <= 0xffff,
    ensures
        ({
            let s = head + f.fields() + f.payload + tail;
            let at = head.len() as int;
            &&& s.len() == at + 30 + f.payload.len() + tail.len()
            &&& wire::be_value(s.subrange(at, at + 8)) == f.session
            &&& wire::be_value(s.subrange(at + 8, at + 16)) == f.sequence
            &&& wire::be_value(s.subrange(at + 16, at + 24)) == f.group
            &&& wire::be_value(s.subrange(at + 24, at + 26)) == f.index
            &&& s[at + 26] == f.data
            &&& s[at + 27] == f.parity
            &&& wire::be_value(s.subrange(at + 28, at + 30)) == f.payload.len()
            &&& s.subrange(at + 30, at + 30 + f.payload.len()) == f.payload
        }),
{
    broadcast use wire::lemma_be_len;

    let s = head + f.fields() + f.payload + tail;
    let at = head.len() as int;
    wire::lemma_byte_bounds();
    wire::lemma_be_round_trip(f.session as nat, 8);
    wire::lemma_be_round_trip(f.sequence as nat, 8);
    wire::lemma_be_round_trip(f.group as nat, 8);
    wire::lemma_be_round_trip(f.index as nat, 2);
    wire::lemma_be_round_trip(f.payload.len(), 2);
    assert(s.subrange(at, at + 8) =~= wire::be(f.session as nat, 8));
    assert(s.subrange(at + 8, at + 16) =~= wire::be(f.sequence as nat, 8));
    assert(s.subrange(at + 16, at + 24) =~= wire::be(f.group as nat, 8));
    assert(s.subrange(at + 24, at + 26) =~= wire::be(f.index as nat, 2));
    assert(s.subrange(at + 28, at + 30) =~= wire::be(f.payload.len(), 2));
    assert(s.subrange(at + 30, at + 30 + f.payload.len()) =~= f.payload);
}

/// The first four bytes are the letters SFEC.
proof fn lemma_magic_letters()
    ensures
        wire::be(MAGIC as nat, 4) == seq![0x53u8, 0x46u8, 0x45u8, 0x43u8],
{
    reveal_with_fuel(wire::be, 5);
    assert(wire::be(MAGIC as nat, 4) =~= seq![0x53u8, 0x46u8, 0x45u8, 0x43u8]);
}

/// How a frame of the first two formats lies: the letters SFEC, the version, the kind, in
/// the second format the device in eight bytes, the header fields, the payload, and behind
/// them the first sixteen bytes of the keyed hash of all that.
pub proof fn law_legacy_frames_lie_open(f: FrameModel, key: Seq<u8>)
    requires
        f.payload.len() <= 0xffff,
    ensures
        ({
            let s = f.legacy_bytes(key);
            let at = if f.version == 2 {
                14int
            } else {
                6int
            };
            let end = at + 30 + f.payload.len();
            &&& s.len() == end + 16
            &&& s[0] == 0x53 && s[1] == 0x46 && s[2] == 0x45 && s[3] == 0x43
            &&& s[4] == f.version
            &&& s[5] == f.kind
            &&& f.version == 2 ==> wire::be_value(s.subrange(6, 14)) == f.key_id
            &&& wire::be_value(s.subrange(at, at + 8)) == f.session
            &&& wire::be_value(s.subrange(at + 8, at + 16)) == f.sequence
            &&& wire::be_value(s.subrange(at + 16, at + 24)) == f.group
            &&& wire::be_value(s.subrange(at + 24, at + 26)) == f.index
            &&& s[at + 26] == f.data
            &&& s[at + 27] == f.parity
            &&& wire::be_value(s.subrange(at + 28, at + 30)) == f.payload.len()
            &&& s.subrange(at + 30, end) == f.payload
            &&& s.skip(end) == crypto::blake3_keyed_hash(key, s.take(end))@.take(16)
        }),
{
    broadcast use wire::lemma_be_len;

    let tag = legacy_tag(key, f.legacy_body());
    let s = f.legacy_bytes(key);
    lemma_fields_lie(f, f.prologue(), tag);
    assert(s =~= f.prologue() + f.fields() + f.payload + tag);
    let end = s.len() - 16;
    assert(s.take(end) =~= f.legacy_body());
    assert(s.skip(end) =~= tag);
    let magic = wire::be(MAGIC as nat, 4);
    lemma_magic_letters();
    assert(s[0] == magic[0] && s[1] == magic[1] && s[2] == magic[2] && s[3] == magic[3]);
    if f.version == VERSION_V2 {
        wire::lemma_byte_bounds();
        wire::lemma_be_round_trip(f.key_id as nat, 8);
        assert(s.subrange(6, 14) =~= wire::be(f.key_id as nat, 8));
    }
}

/// Which bytes are taken as a frame of the first two formats, and why the others are not:
/// they are too short, of no such version, do not end in the keyed hash of the rest, do not
/// begin with the letters SFEC, or give a length that they do not have. The first of these
/// that holds is named; where none does there is a frame.
pub proof fn law_legacy_frames_are_refused_for_reasons(s: Seq<u8>, key: Seq<u8>)
    ensures
        ({
            let out = legacy_model(s, key);
            let short = s.len() < 22 || s[4] == 1 && s.len() < 52;
            let short_two = !short && s[4] == 2 && s.len() < 60;
            let version = !short && s[4] != 1 && s[4] != 2;
            let tag = !short && !short_two && !version && s.skip(s.len() - 16)
                != crypto::blake3_keyed_hash(key, s.take(s.len() - 16))@.take(16);
            let magic = !short && !short_two && !version && !tag && !(s[0] == 0x53 && s[1] == 0x46
                && s[2] == 0x45 && s[3] == 0x43);
            let at = if s[4] == 2 {
                14int
            } else {
                6int
            };
            let length = !short && !short_two && !version && !tag && !magic && s.len() != at + 30
                + 256 * s[at + 28] + s[at + 29] + 16;
            &&& short <==> out == Err::<FrameModel, FrameError>(FrameError::ShortFrame)
            &&& short_two <==> out == Err::<FrameModel, FrameError>(FrameError::ShortV2Frame)
            &&& version <==> out == Err::<FrameModel, FrameError>(FrameError::BadVersion)
            &&& tag <==> out == Err::<FrameModel, FrameError>(FrameError::BadAuth)
            &&& magic <==> out == Err::<FrameModel, FrameError>(FrameError::BadProtocol)
            &&& length <==> out == Err::<FrameModel, FrameError>(FrameError::BadLength)
            &&& out is Ok <==> !short && !short_two && !version && !tag && !magic && !length
            &&& has_magic(s) <==> s.len() >= 4 && s[0] == 0x53 && s[1] == 0x46 && s[2] == 0x45
                && s[3] == 0x43
        }),
{
    let magic = wire::be(MAGIC as nat, 4);
    lemma_magic_letters();
    wire::lemma_byte_bounds();
    wire::lemma_be_round_trip(MAGIC as nat, 4);
    if s.len() >= 4 {
        let head = s.subrange(0, 4);
        assert(head =~= s.take(4));
        wire::lemma_be_value_round_trip(head);
        if s[0] == 0x53 && s[1] == 0x46 && s[2] == 0x45 && s[3] == 0x43 {
            assert(head =~= magic);
        } else {
            assert(head[0] == s[0] && head[1] == s[1] && head[2] == s[2] && head[3] == s[3]);
            assert(head != magic);
        }
    }
    match legacy_layout_model(s) {
        Ok(l) => {
            wire::law_two_bytes(s, l.offset + 28);
        },
        Err(_) => {},
    }
}

/// How a V3 envelope lies: the selector of the key, the nonce, and the sealed frame; and
/// how the frame lies inside it: its kind, the header fields and the payload.
pub proof fn law_v3_envelopes_lie_sealed(f: FrameModel, key: Seq<u8>, nonce: Seq<u8>)
    requires
        f.payload.len() <= 0xffff,
        nonce.len() == 24,
    ensures
        ({
            let s = f.v3_bytes(key, nonce);
            let inner = f.v3_inner();
            &&& v3_selector_model(key).len() == 8
            &&& s.take(8) == v3_selector_model(key)
            &&& s.subrange(8, 32) == nonce
            &&& s.skip(32) == crypto::xchacha_seal(key, nonce, inner)
            &&& inner.len() == 31 + f.payload.len()
            &&& inner[0] == f.kind
            &&& wire::be_value(inner.subrange(1, 9)) == f.session
            &&& wire::be_value(inner.subrange(9, 17)) == f.sequence
            &&& wire::be_value(inner.subrange(17, 25)) == f.group
            &&& wire::be_value(inner.subrange(25, 27)) == f.index
            &&& inner[27] == f.data
            &&& inner[28] == f.parity
            &&& wire::be_value(inner.subrange(29, 31)) == f.payload.len()
            &&& inner.skip(31) == f.payload
        }),
{
    let s = f.v3_bytes(key, nonce);
    let inner = f.v3_inner();
    assert(s.take(8) =~= v3_selector_model(key));
    assert(s.subrange(8, 32) =~= nonce);
    assert(s.skip(32) =~= crypto::xchacha_seal(key, nonce, inner));
    lemma_fields_lie(f, seq![f.kind], Seq::empty());
    assert(inner =~= seq![f.kind] + f.fields() + f.payload + Seq::<u8>::empty());
    assert(inner.skip(31) =~= f.payload);
}

/// What stands for a key on the wire: the first eight bytes of the keyed hash of the words
/// "smart-fec-v3-routing-selector".
pub proof fn law_selectors_are_hashes(key: Seq<u8>, label: Seq<u8>)
    requires
        label.len() == "smart-fec-v3-routing-selector"@.len(),
        forall|i: int|
            0 <= i < label.len() ==> label[i] as char
                == #[trigger] "smart-fec-v3-routing-selector"@[i],
    ensures
        v3_selector_model(key) == crypto::blake3_keyed_hash(key, label)@.take(8),
{
    reveal_strlit("smart-fec-v3-routing-selector");
    assert forall|i: int| 0 <= i < label.len() implies label[i] == selector_label()[i] by {
        assert(label[i] as char == "smart-fec-v3-routing-selector"@[i]);
    }
    assert(label =~= selector_label());
}

/// Which bytes are taken as a V3 envelope, and why the others are not: they are too short
/// or bear another selector, do not open, or hold what is too short for a frame or gives a
/// length that it does not have. The first of these that holds is named; where none does
/// there is a frame, of the device that the key belongs to.
pub proof fn law_v3_envelopes_are_refused_for_reasons(s: Seq<u8>, key_id: u64, key: Seq<u8>)
    ensures
        ({
            let out = v3_model(s, key_id, key);
            let strange = s.len() < 79 || s.take(8) != v3_selector_model(key);
            let opened = crypto::xchacha_open(key, s.subrange(8, 32), s.skip(32));
            let shut = !strange && opened is None;
            let inner = opened->0;
            let short = !strange && !shut && inner.len() < 31;
            let length = !strange && !shut && !short && inner.len() != 31 + 256 * inner[29]
                + inner[30];
            &&& strange <==> out == Err::<FrameModel, FrameError>(FrameError::InvalidV3Envelope)
            &&& shut <==> out == Err::<FrameModel, FrameError>(FrameError::V3Authentication)
            &&& short <==> out == Err::<FrameModel, FrameError>(FrameError::ShortV3Payload)
            &&& length <==> out == Err::<FrameModel, FrameError>(FrameError::BadV3Length)
            &&& out is Ok <==> !strange && !shut && !short && !length
            &&& out matches Ok(f) ==> {
                &&& f.version == 3
                &&& f.key_id == key_id
                &&& f.v3_inner() == inner
            }
        }),
{
    if s.len() >= 79 && s.take(8) == v3_selector_model(key) {
        match crypto::xchacha_open(key, s.subrange(8, 32), s.skip(32)) {
            Some(inner) => {
                if inner.len() >= 31 {
                    wire::law_two_bytes(inner, 29);
                    if v3_inner_model(inner, key_id) is Ok {
                        law_v3_inner_is_canonical(
                            inner,
                            key_id,
                            v3_inner_model(inner, key_id)->Ok_0,
                        );
                    }
                }
            },
            None => {},
        }
    }
}

/// A client reads what begins with the letters SFEC in the first two formats, and all else
/// as a V3 envelope of its own device.
pub proof fn law_clients_read_all_formats(s: Seq<u8>, key_id: u64, key: Seq<u8>)
    ensures
        ({
            let open = s.len() >= 4 && s[0] == 0x53 && s[1] == 0x46 && s[2] == 0x45 && s[3] == 0x43;
            &&& open ==> client_model(s, key_id, key) == legacy_model(s, key)
            &&& !open ==> client_model(s, key_id, key) == v3_model(s, key_id, key)
        }),
{
    law_legacy_frames_are_refused_for_reasons(s, key);
}

/// Frames, and what decoding gives, are seen as they are.
pub proof fn law_frames_are_seen_as_they_are(f: Frame, r: Result<Frame, FrameError>)
    ensures
        f@.version == f.version,
        f@.key_id == f.key_id,
        f@.kind == f.kind,
        f@.session == f.session,
        f@.sequence == f.sequence,
        f@.group == f.group,
        f@.index == f.index,
        f@.data == f.data,
        f@.parity == f.parity,
        f@.payload == f.payload@,
        match r {
            Ok(f) => frame_result(r) == Ok::<FrameModel, FrameError>(f@),
            Err(e) => frame_result(r) == Err::<FrameModel, FrameError>(e),
        },
{
}

} // verus!
