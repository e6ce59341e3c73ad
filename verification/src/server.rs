//! The multi-user server: what it is set up with, and which key opens a frame.

use crate::frame::{
    self, starts_with_magic, v3_selector, Frame, FrameError, FrameModel, HEADER_V2, TAG,
    V3_SELECTOR, VERSION_V1, VERSION_V2, VERSION_V3,
};
use crate::tables::{self, hash_map_keys};
use crate::wire::{self, get_be};
use std::collections::HashMap;
use vstd::prelude::*;

verus! {

broadcast use vstd::std_specs::hash::group_hash_axioms;

/// Most sessions of one device.
pub const MAX_V2_SESSIONS_PER_DEVICE: usize = 16;

/// Most sessions under the shared key of the first format.
pub const MAX_V1_MIGRATION_SESSIONS: usize = 64;

/// Most sessions that a server can be set up for.
pub const MAX_SESSIONS: usize = 65_536;

/// Shortest and longest idle time that a server can be set up for, in seconds.
pub const MIN_IDLE_SECS: u64 = 10;

pub const MAX_IDLE_SECS: u64 = 86_400;

/// Why a server cannot be set up.
#[derive(Clone, Copy, Debug, PartialEq, Eq, Structural)]
pub enum ServerError {
    MaxSessionsOutOfRange,
    IdleOutOfRange,
    NoKeys,
    SelectorCollision,
}

/// Checks the limits that a server is set up with.
pub fn check_limits(max_sessions: usize, session_idle_secs: u64) -> (checked: Result<
    (),
    ServerError,
>)
    ensures
        checked == if !(1 <= max_sessions <= MAX_SESSIONS) {
            Err::<(), ServerError>(ServerError::MaxSessionsOutOfRange)
        } else if !(MIN_IDLE_SECS <= session_idle_secs <= MAX_IDLE_SECS) {
            Err(ServerError::IdleOutOfRange)
        } else {
            Ok(())
        },
{
    if max_sessions == 0 || max_sessions > MAX_SESSIONS {
        return Err(ServerError::MaxSessionsOutOfRange);
    }
    if session_idle_secs < MIN_IDLE_SECS || session_idle_secs > MAX_IDLE_SECS {
        return Err(ServerError::IdleOutOfRange);
    }
    Ok(())
}

/// Checks that a server holds a key at all.
pub fn check_keys(legacy: bool, keyring: &HashMap<u64, [u8; 32]>) -> (checked: Result<
    (),
    ServerError,
>)
    ensures
        checked == if !legacy && keyring@.len() == 0 {
            Err::<(), ServerError>(ServerError::NoKeys)
        } else {
            Ok(())
        },
{
    if !legacy && keyring.is_empty() {
        return Err(ServerError::NoKeys);
    }
    Ok(())
}

/// The selector of a key as a number.
pub open spec fn selector_number(key: [u8; 32]) -> u64 {
    wire::be_value(frame::v3_selector_model(key@)) as u64
}

/// Whether two devices have keys with the same selector.
pub open spec fn selectors_collide(keyring: Map<u64, [u8; 32]>) -> bool {
    exists|a: u64, b: u64| #[trigger]
        keyring.contains_key(a) && #[trigger] keyring.contains_key(b) && a != b && selector_number(
            keyring[a],
        ) == selector_number(keyring[b])
}

/// Whether `selectors` gives for each selector of a key the device and the key, and
/// nothing else.
pub open spec fn selects(
    selectors: Map<u64, (u64, [u8; 32])>,
    keyring: Map<u64, [u8; 32]>,
) -> bool {
    &&& forall|s: u64| #[trigger]
        selectors.contains_key(s) ==> {
            let (id, key) = selectors[s];
            keyring.contains_key(id) && key == keyring[id] && selector_number(key) == s
        }
    &&& forall|id: u64| #[trigger]
        keyring.contains_key(id) ==> selectors.contains_key(selector_number(keyring[id]))
            && selectors[selector_number(keyring[id])] == (id, keyring[id])
}

/// The device and key of each selector.
pub fn build_selectors(keyring: &HashMap<u64, [u8; 32]>) -> (selectors: Result<
    HashMap<u64, (u64, [u8; 32])>,
    ServerError,
>)
    ensures
        match selectors {
            Ok(m) => !selectors_collide(keyring@) && selects(m@, keyring@),
            Err(e) => selectors_collide(keyring@) && e == ServerError::SelectorCollision,
        },
{
    let ids: Vec<u64> = hash_map_keys(keyring);
    let mut selectors: HashMap<u64, (u64, [u8; 32])> = HashMap::new();
    let mut i: usize = 0;
    while i < ids.len()
        invariant
            i <= ids@.len(),
            tables::lists(ids@, keyring@.dom()),
            forall|s: u64| #[trigger]
                selectors@.contains_key(s) ==> {
                    let (id, key) = selectors@[s];
                    keyring@.contains_key(id) && key == keyring@[id] && selector_number(key) == s
                        && ids@.take(i as int).contains(id)
                },
            forall|id: u64| #[trigger]
                ids@.take(i as int).contains(id) ==> selectors@.contains_key(
                    selector_number(keyring@[id]),
                ) && selectors@[selector_number(keyring@[id])] == (id, keyring@[id]),
        decreases ids@.len() - i,
    {
        let id: u64 = ids[i];
        proof {
            tables::lemma_listed(ids@, keyring@.dom(), i as int);
            assert(keyring@.contains_key(id));
        }
        let ghost before = selectors@;
        match keyring.get(&id) {
            Some(key) => {
                let bytes: [u8; 8] = v3_selector(key);
                proof {
                    wire::lemma_byte_bounds();
                    assert(bytes@.subrange(0, 8) =~= bytes@);
                }
                let selector: u64 = get_be(&bytes, 0, 8);
                assert(selector == selector_number(*key));
                if selectors.contains_key(&selector) {
                    proof {
                        let (other, _) = before[selector];
                        assert(keyring@.contains_key(other) && keyring@.contains_key(id));
                    }
                    return Err(ServerError::SelectorCollision);
                }
                selectors.insert(selector, (id, *key));
            },
            None => {},
        }
        i = i + 1;
    }
    proof {
        assert(ids@.take(i as int) =~= ids@);
        assert forall|id: u64| keyring@.contains_key(id) implies ids@.contains(id) by {
            assert(ids@.to_set().contains(id));
        }
        assert(selects(selectors@, keyring@)) by {
            assert forall|id: u64| #[trigger] keyring@.contains_key(id) implies
                selectors@.contains_key(selector_number(keyring@[id]))
                    && selectors@[selector_number(keyring@[id])] == (id, keyring@[id]) by {
                assert(ids@.take(i as int).contains(id));
            }
        }
        assert(!selectors_collide(keyring@));
    }
    Ok(selectors)
}

/// What bytes decode to at a server, and under which key.
pub open spec fn server_model(
    bytes: Seq<u8>,
    legacy: Option<[u8; 32]>,
    keyring: Map<u64, [u8; 32]>,
    selectors: Map<u64, (u64, [u8; 32])>,
) -> Result<(FrameModel, [u8; 32]), FrameError> {
    if !frame::has_magic(bytes) {
        if bytes.len() < V3_SELECTOR {
            Err(FrameError::ShortV3Envelope)
        } else {
            let selector = wire::be_value(bytes.take(V3_SELECTOR as int)) as u64;
            if !selectors.contains_key(selector) {
                Err(FrameError::UnknownSelector)
            } else {
                let (id, key) = selectors[selector];
                with_key(frame::v3_model(bytes, id, key@), key)
            }
        }
    } else if bytes.len() < 6 {
        Err(FrameError::ShortLegacyFrame)
    } else if bytes[4] == VERSION_V1 {
        match legacy {
            None => Err(FrameError::LegacyDisabled),
            Some(key) => with_key(frame::legacy_model(bytes, key@), key),
        }
    } else if bytes[4] == VERSION_V2 {
        let id = wire::be_value(bytes.subrange(6, 14)) as u64;
        if bytes.len() < HEADER_V2 + TAG {
            Err(FrameError::ShortV2Frame)
        } else if !keyring.contains_key(id) {
            Err(FrameError::UnknownKeyId)
        } else {
            with_key(frame::legacy_model(bytes, keyring[id]@), keyring[id])
        }
    } else {
        Err(FrameError::UnsupportedVersion)
    }
}

/// A frame with the key that opened it.
pub open spec fn with_key(frame: Result<FrameModel, FrameError>, key: [u8; 32]) -> Result<
    (FrameModel, [u8; 32]),
    FrameError,
> {
    match frame {
        Ok(f) => Ok((f, key)),
        Err(e) => Err(e),
    }
}

/// What a server decoded, as a mathematical value.
pub open spec fn server_result(r: Result<(Frame, [u8; 32]), FrameError>) -> Result<
    (FrameModel, [u8; 32]),
    FrameError,
> {
    match r {
        Ok((f, key)) => Ok((f@, key)),
        Err(e) => Err(e),
    }
}

/// Decodes what a server received, in any of the formats.
pub fn decode_server_frame(
    bytes: &[u8],
    legacy_key: Option<&[u8; 32]>,
    keyring: &HashMap<u64, [u8; 32]>,
    selectors: &HashMap<u64, (u64, [u8; 32])>,
) -> (frame: Result<(Frame, [u8; 32]), FrameError>)
    requires
        frame::envelope_len_defined(bytes@.len()),
    ensures
        server_result(frame) == server_model(
            bytes@,
            match legacy_key {
                Some(key) => Some(*key),
                None => None,
            },
            keyring@,
            selectors@,
        ),
        frame matches Ok((f, key)) ==> frame::is_encoding(bytes@, f@, key@),
{
    proof {
        wire::lemma_byte_bounds();
    }
    if !starts_with_magic(bytes) {
        if bytes.len() < V3_SELECTOR {
            return Err(FrameError::ShortV3Envelope);
        }
        assert(bytes@.subrange(0, 8) =~= bytes@.take(V3_SELECTOR as int));
        let selector: u64 = get_be(bytes, 0, 8);
        return match selectors.get(&selector) {
            None => Err(FrameError::UnknownSelector),
            Some(entry) => match Frame::decode_v3(bytes, entry.0, &entry.1) {
                Ok(frame) => Ok((frame, entry.1)),
                Err(e) => Err(e),
            },
        };
    }
    if bytes.len() < 6 {
        return Err(FrameError::ShortLegacyFrame);
    }
    let selected: [u8; 32] = if bytes[4] == VERSION_V1 {
        match legacy_key {
            None => return Err(FrameError::LegacyDisabled),
            Some(key) => *key,
        }
    } else if bytes[4] == VERSION_V2 {
        if bytes.len() < HEADER_V2 + TAG {
            return Err(FrameError::ShortV2Frame);
        }
        let id: u64 = get_be(bytes, 6, 8);
        match keyring.get(&id) {
            None => return Err(FrameError::UnknownKeyId),
            Some(key) => *key,
        }
    } else {
        return Err(FrameError::UnsupportedVersion);
    };
    proof {
        if let Ok(f) = frame::legacy_model(bytes@, selected@) {
            frame::law_legacy_accepts_only_encodings(bytes@, selected@, f);
        }
    }
    match Frame::decode(bytes, &selected) {
        Ok(frame) => Ok((frame, selected)),
        Err(e) => Err(e),
    }
}

/// A server opens a V2 frame of a device in its keyring under that device's key.
pub proof fn law_v2_frames_find_their_key(
    f: FrameModel,
    legacy: Option<[u8; 32]>,
    keyring: Map<u64, [u8; 32]>,
    selectors: Map<u64, (u64, [u8; 32])>,
)
    requires
        f.version == VERSION_V2,
        f.payload.len() <= 0xffff,
        keyring.contains_key(f.key_id),
    ensures
        server_model(f.legacy_bytes(keyring[f.key_id]@), legacy, keyring, selectors) == Ok::<
            (FrameModel, [u8; 32]),
            FrameError,
        >((f, keyring[f.key_id])),
{
    broadcast use wire::lemma_be_len;

    let bytes = f.legacy_bytes(keyring[f.key_id]@);
    frame::law_legacy_round_trip(f, keyring[f.key_id]@);
    wire::lemma_byte_bounds();
    wire::lemma_be_round_trip(f.key_id as nat, 8);
    assert(bytes.take(4) =~= wire::be(frame::MAGIC as nat, 4));
    assert(bytes.subrange(6, 14) =~= wire::be(f.key_id as nat, 8));
}

/// A server that still takes the first format opens its frames under the shared
/// key.
pub proof fn law_v1_frames_use_the_shared_key(
    f: FrameModel,
    key: [u8; 32],
    keyring: Map<u64, [u8; 32]>,
    selectors: Map<u64, (u64, [u8; 32])>,
)
    requires
        f.version == VERSION_V1,
        f.key_id == 0,
        f.payload.len() <= 0xffff,
    ensures
        server_model(f.legacy_bytes(key@), Some(key), keyring, selectors) == Ok::<
            (FrameModel, [u8; 32]),
            FrameError,
        >((f, key)),
        server_model(f.legacy_bytes(key@), None, keyring, selectors) == Err::<
            (FrameModel, [u8; 32]),
            FrameError,
        >(FrameError::LegacyDisabled),
{
    broadcast use wire::lemma_be_len;

    let bytes = f.legacy_bytes(key@);
    frame::law_legacy_round_trip(f, key@);
    assert(bytes.take(4) =~= wire::be(frame::MAGIC as nat, 4));
}

/// A server opens a V3 envelope of a device in its keyring under that device's key,
/// unless the selector of that key happens to begin as the older formats do.
pub proof fn law_v3_envelopes_find_their_key(
    f: FrameModel,
    bytes: Seq<u8>,
    legacy: Option<[u8; 32]>,
    keyring: Map<u64, [u8; 32]>,
    selectors: Map<u64, (u64, [u8; 32])>,
)
    requires
        keyring.contains_key(f.key_id),
        selects(selectors, keyring),
        frame::v3_model(bytes, f.key_id, keyring[f.key_id]@) == Ok::<FrameModel, FrameError>(f),
        !frame::has_magic(frame::v3_selector_model(keyring[f.key_id]@)),
    ensures
        server_model(bytes, legacy, keyring, selectors) == Ok::<
            (FrameModel, [u8; 32]),
            FrameError,
        >((f, keyring[f.key_id])),
{
    let selector = frame::v3_selector_model(keyring[f.key_id]@);
    assert(bytes.take(V3_SELECTOR as int) == selector);
    assert(bytes.take(4) =~= selector.take(4));
}

/// Whatever a server opens under a key, it opened under one of its own keys, and
/// the frame bears the number of the device that the key belongs to.
pub proof fn law_frames_bear_their_device(
    bytes: Seq<u8>,
    legacy: Option<[u8; 32]>,
    keyring: Map<u64, [u8; 32]>,
    selectors: Map<u64, (u64, [u8; 32])>,
    f: FrameModel,
    key: [u8; 32],
)
    requires
        selects(selectors, keyring),
        server_model(bytes, legacy, keyring, selectors) == Ok::<
            (FrameModel, [u8; 32]),
            FrameError,
        >((f, key)),
    ensures
        f.version == VERSION_V1 ==> f.key_id == 0 && legacy == Some(key),
        f.version != VERSION_V1 ==> keyring.contains_key(f.key_id) && keyring[f.key_id] == key,
        f.version == VERSION_V1 || f.version == VERSION_V2 || f.version == VERSION_V3,
{
}

/// A server can be set up for one to 65,536 sessions, idle for ten seconds to a day, and
/// with a key at least; it is told the first of these that it is not.
pub proof fn law_servers_are_set_up_within_limits(
    max_sessions: usize,
    idle: u64,
    limits: Result<(), ServerError>,
    legacy: bool,
    keyring: &HashMap<u64, [u8; 32]>,
    keys: Result<(), ServerError>,
)
    requires
        call_ensures(check_limits, (max_sessions, idle), limits),
        call_ensures(check_keys, (legacy, keyring), keys),
    ensures
        max_sessions == 0 || max_sessions > 65_536 ==> limits == Err::<(), ServerError>(
            ServerError::MaxSessionsOutOfRange,
        ),
        1 <= max_sessions <= 65_536 && (idle < 10 || idle > 86_400) ==> limits == Err::<
            (),
            ServerError,
        >(ServerError::IdleOutOfRange),
        1 <= max_sessions <= 65_536 && 10 <= idle <= 86_400 ==> limits is Ok,
        keys is Ok <==> legacy || keyring@.len() > 0,
        keys matches Err(e) ==> e == ServerError::NoKeys,
{
}

/// Selectors are set up if no two devices share one: each device is found under its own
/// selector with its own key, and nothing else is found.
pub proof fn law_selectors_find_their_device(
    keyring: &HashMap<u64, [u8; 32]>,
    selectors: Result<HashMap<u64, (u64, [u8; 32])>, ServerError>,
    a: u64,
    b: u64,
)
    requires
        call_ensures(build_selectors, (keyring,), selectors),
        keyring@.contains_key(a),
    ensures
        selectors matches Err(e) ==> e == ServerError::SelectorCollision,
        selectors is Err ==> exists|x: u64, y: u64| #[trigger]
            keyring@.contains_key(x) && #[trigger] keyring@.contains_key(y) && x != y
                && frame::v3_selector_model(keyring@[x]@) == frame::v3_selector_model(
                keyring@[y]@,
            ),
        selectors matches Ok(m) ==> {
            let selector = wire::be_value(frame::v3_selector_model(keyring@[a]@)) as u64;
            &&& m@.contains_key(selector)
            &&& m@[selector] == (a, keyring@[a])
        },
        selectors matches Ok(m) ==> (m@.contains_key(b) ==> keyring@.contains_key(m@[b].0)
            && m@[b].1 == keyring@[m@[b].0]),
        keyring@.contains_key(b) && a != b && frame::v3_selector_model(keyring@[a]@)
            == frame::v3_selector_model(keyring@[b]@) ==> selectors is Err,
{
    if keyring@.contains_key(b) && a != b && frame::v3_selector_model(keyring@[a]@)
        == frame::v3_selector_model(keyring@[b]@) {
        assert(selector_number(keyring@[a]) == selector_number(keyring@[b]));
        assert(selectors_collide(keyring@));
    }
    if selectors is Err {
        let (x, y) = choose|x: u64, y: u64| #[trigger]
            keyring@.contains_key(x) && #[trigger] keyring@.contains_key(y) && x != y
                && selector_number(keyring@[x]) == selector_number(keyring@[y]);
        wire::lemma_byte_bounds();
        wire::lemma_be_value_round_trip(frame::v3_selector_model(keyring@[x]@));
        wire::lemma_be_value_round_trip(frame::v3_selector_model(keyring@[y]@));
        assert(keyring@.contains_key(x) && keyring@.contains_key(y));
    }
}

/// Which key a server opens a frame under, and when it has none. What begins with the
/// letters SFEC goes by its version: the first under the shared key, if there is one, and
/// the second under the key of the device that it names; what does not goes by its
/// selector. The frame is then what it is under that key.
pub proof fn law_servers_go_by_version_and_device(
    s: Seq<u8>,
    legacy: Option<[u8; 32]>,
    keyring: Map<u64, [u8; 32]>,
    selectors: Map<u64, (u64, [u8; 32])>,
)
    ensures
        ({
            let out = server_model(s, legacy, keyring, selectors);
            let open = s.len() >= 4 && s[0] == 0x53 && s[1] == 0x46 && s[2] == 0x45 && s[3] == 0x43;
            let short = Err::<(FrameModel, [u8; 32]), FrameError>(FrameError::ShortV3Envelope);
            let selector = wire::be_value(s.take(8)) as u64;
            let id = wire::be_value(s.subrange(6, 14)) as u64;
            &&& !open && s.len() < 8 ==> out == short
            &&& !open && s.len() >= 8 && !selectors.contains_key(selector) ==> out == Err::<
                (FrameModel, [u8; 32]),
                FrameError,
            >(FrameError::UnknownSelector)
            &&& !open && s.len() >= 8 && selectors.contains_key(selector) ==> {
                let (device, key) = selectors[selector];
                match frame::v3_model(s, device, key@) {
                    Ok(f) => out == Ok::<(FrameModel, [u8; 32]), FrameError>((f, key)),
                    Err(e) => out == Err::<(FrameModel, [u8; 32]), FrameError>(e),
                }
            }
            &&& open && s.len() < 6 ==> out == Err::<(FrameModel, [u8; 32]), FrameError>(
                FrameError::ShortLegacyFrame,
            )
            &&& open && s.len() >= 6 && s[4] == 1 ==> match legacy {
                None => out == Err::<(FrameModel, [u8; 32]), FrameError>(
                    FrameError::LegacyDisabled,
                ),
                Some(key) => match frame::legacy_model(s, key@) {
                    Ok(f) => out == Ok::<(FrameModel, [u8; 32]), FrameError>((f, key)),
                    Err(e) => out == Err::<(FrameModel, [u8; 32]), FrameError>(e),
                },
            }
            &&& open && s.len() >= 6 && s[4] == 2 ==> {
                &&& s.len() < 60 ==> out == Err::<(FrameModel, [u8; 32]), FrameError>(
                    FrameError::ShortV2Frame,
                )
                &&& s.len() >= 60 && !keyring.contains_key(id) ==> out == Err::<
                    (FrameModel, [u8; 32]),
                    FrameError,
                >(FrameError::UnknownKeyId)
                &&& s.len() >= 60 && keyring.contains_key(id) ==> match frame::legacy_model(
                    s,
                    keyring[id]@,
                ) {
                    Ok(f) => out == Ok::<(FrameModel, [u8; 32]), FrameError>((f, keyring[id])),
                    Err(e) => out == Err::<(FrameModel, [u8; 32]), FrameError>(e),
                }
            }
            &&& open && s.len() >= 6 && s[4] != 1 && s[4] != 2 ==> out == Err::<
                (FrameModel, [u8; 32]),
                FrameError,
            >(FrameError::UnsupportedVersion)
        }),
{
    frame::law_legacy_frames_are_refused_for_reasons(s, Seq::empty());
}

/// What a server decoded is seen as it is.
pub proof fn law_decoded_frames_are_seen_as_they_are(r: Result<(Frame, [u8; 32]), FrameError>)
    ensures
        match r {
            Ok((f, key)) => server_result(r) == Ok::<(FrameModel, [u8; 32]), FrameError>((f@, key)),
            Err(e) => server_result(r) == Err::<(FrameModel, [u8; 32]), FrameError>(e),
        },
{
}

} // verus!
