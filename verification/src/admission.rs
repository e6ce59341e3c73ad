//! Which sessions a server runs, and when it lets them go.

use crate::decoder;
use crate::frame::{VERSION_V1, VERSION_V2, VERSION_V3};
use crate::server::{
    check_limits, ServerError, MAX_IDLE_SECS, MAX_SESSIONS, MAX_V1_MIGRATION_SESSIONS,
    MAX_V2_SESSIONS_PER_DEVICE, MIN_IDLE_SECS,
};
use crate::tables::{self, wide_hash_map_keys};
use std::collections::HashMap;
use vstd::prelude::*;

verus! {

broadcast use vstd::std_specs::hash::group_hash_axioms;

/// One more than the largest session of a device.
pub const SESSION_SPAN: u128 = 0x1_0000_0000_0000_0000;

/// Nanoseconds of a second.
pub const NANOS: u128 = 1_000_000_000;

/// What a server does with a frame.
#[derive(Clone, Copy, Debug, PartialEq, Eq, Structural)]
pub enum Admission {
    /// It belongs to a session that runs.
    Known,
    /// It starts a session.
    Started,
    /// It would start a session, and there is no room for one.
    Refused,
}

/// Session `session` of device `key_id` as one number.
pub open spec fn session_number(key_id: u64, session: u64) -> u128 {
    (key_id * SESSION_SPAN + session) as u128
}

/// The device of a session number.
pub open spec fn device_of(number: u128) -> u64 {
    (number / SESSION_SPAN) as u64
}

/// Sessions as numbers.
pub open spec fn session_numbers(sessions: Seq<(u64, u64)>) -> Seq<u128> {
    Seq::new(sessions.len(), |i: int| session_number(sessions[i].0, sessions[i].1))
}

/// The sessions of a server.
#[derive(Debug)]
pub struct SessionTable {
    max_sessions: usize,
    idle: u128,
    last_seen: HashMap<u128, u128>,
}

/// The sessions of a server as a mathematical value: how many there may be, how
/// long they may be idle, and when each was last seen, in nanoseconds.
#[verifier::ext_equal]
pub struct TableModel {
    pub max_sessions: nat,
    pub idle: nat,
    pub last_seen: Map<u128, u128>,
}

impl View for SessionTable {
    type V = TableModel;

    closed spec fn view(&self) -> TableModel {
        TableModel {
            max_sessions: self.max_sessions as nat,
            idle: self.idle as nat,
            last_seen: self.last_seen@,
        }
    }
}

impl TableModel {
    /// The sessions of a device.
    pub open spec fn sessions_of(self, key_id: u64) -> Set<u128> {
        self.last_seen.dom().filter(|n: u128| device_of(n) == key_id)
    }

    /// Whether there is room for one more session of a device.
    pub open spec fn has_room(self, version: u8, key_id: u64) -> bool {
        &&& self.last_seen.len() < self.max_sessions
        &&& version == VERSION_V1 ==> self.sessions_of(0).len() < MAX_V1_MIGRATION_SESSIONS
        &&& version == VERSION_V2 || version == VERSION_V3 ==> self.sessions_of(key_id).len()
            < MAX_V2_SESSIONS_PER_DEVICE
    }

    /// What is done with a frame.
    pub open spec fn admission(self, version: u8, key_id: u64, session: u64) -> Admission {
        if self.last_seen.contains_key(session_number(key_id, session)) {
            Admission::Known
        } else if self.has_room(version, key_id) {
            Admission::Started
        } else {
            Admission::Refused
        }
    }

    /// The sessions once one was seen.
    pub open spec fn seen(self, key_id: u64, session: u64, now: u128) -> TableModel {
        TableModel {
            last_seen: self.last_seen.insert(session_number(key_id, session), now),
            ..self
        }
    }

    /// The sessions after a frame.
    pub open spec fn admitted(
        self,
        version: u8,
        key_id: u64,
        session: u64,
        now: u128,
    ) -> TableModel {
        if self.admission(version, key_id, session) == Admission::Refused {
            self
        } else {
            self.seen(key_id, session, now)
        }
    }

    /// Whether a session is let go.
    pub open spec fn lets_go(self, finished: Seq<(u64, u64)>, now: nat, n: u128) -> bool {
        &&& self.last_seen.contains_key(n)
        &&& session_numbers(finished).contains(n) || decoder::age(now, self.last_seen[n] as nat)
            >= self.idle
    }

    /// The sessions that are let go.
    pub open spec fn gone(self, finished: Seq<(u64, u64)>, now: nat) -> Set<u128> {
        self.last_seen.dom().filter(|n: u128| self.lets_go(finished, now, n))
    }

    /// The sessions that stay.
    pub open spec fn cleaned(self, finished: Seq<(u64, u64)>, now: nat) -> TableModel {
        TableModel {
            last_seen: self.last_seen.remove_keys(self.gone(finished, now)),
            ..self
        }
    }

    /// That no limit is exceeded.
    pub open spec fn within_limits(self) -> bool {
        &&& self.last_seen.dom().finite()
        &&& self.last_seen.len() <= self.max_sessions
        &&& self.sessions_of(0).len() <= MAX_V1_MIGRATION_SESSIONS
        &&& forall|id: u64|
            id != 0 ==> (#[trigger] self.sessions_of(id)).len() <= MAX_V2_SESSIONS_PER_DEVICE
    }
}

/// Sessions have different numbers, and the number tells the device.
pub proof fn law_sessions_are_told_apart(a: (u64, u64), b: (u64, u64))
    ensures
        session_number(a.0, a.1) == session_number(b.0, b.1) ==> a == b,
        device_of(session_number(a.0, a.1)) == a.0,
{
}

/// No frame makes a server exceed a limit. Frames of the first format, and only
/// they, bear the device number zero.
pub proof fn law_admission_keeps_the_limits(
    t: TableModel,
    version: u8,
    key_id: u64,
    session: u64,
    now: u128,
)
    requires
        t.within_limits(),
        version == VERSION_V1 || version == VERSION_V2 || version == VERSION_V3,
        version == VERSION_V1 <==> key_id == 0,
    ensures
        t.admitted(version, key_id, session, now).within_limits(),
{
    let n = session_number(key_id, session);
    let after = t.admitted(version, key_id, session, now);
    law_sessions_are_told_apart((key_id, session), (key_id, session));
    if t.admission(version, key_id, session) != Admission::Refused {
        assert forall|id: u64| after.sessions_of(id) == if id == key_id {
            t.sessions_of(id).insert(n)
        } else {
            t.sessions_of(id)
        } by {
            if id == key_id {
                assert(after.sessions_of(id) =~= t.sessions_of(id).insert(n));
            } else {
                assert(after.sessions_of(id) =~= t.sessions_of(id));
            }
        }
        if t.last_seen.contains_key(n) {
            assert(t.sessions_of(key_id).insert(n) =~= t.sessions_of(key_id));
            assert(after.last_seen.dom() =~= t.last_seen.dom());
        }
        assert forall|id: u64| id != 0 implies (#[trigger] after.sessions_of(id)).len()
            <= MAX_V2_SESSIONS_PER_DEVICE by {
            assert(t.sessions_of(id).len() <= MAX_V2_SESSIONS_PER_DEVICE);
        }
    }
}

/// Letting sessions go exceeds no limit.
pub proof fn law_cleaning_keeps_the_limits(t: TableModel, finished: Seq<(u64, u64)>, now: nat)
    requires
        t.within_limits(),
    ensures
        t.cleaned(finished, now).within_limits(),
{
    let after = t.cleaned(finished, now);
    assert(after.last_seen.dom().subset_of(t.last_seen.dom()));
    vstd::set_lib::lemma_len_subset(after.last_seen.dom(), t.last_seen.dom());
    assert forall|id: u64| (#[trigger] after.sessions_of(id)).len() <= t.sessions_of(id).len() by {
        assert(after.sessions_of(id).subset_of(t.sessions_of(id)));
        vstd::set_lib::lemma_len_subset(after.sessions_of(id), t.sessions_of(id));
    }
}

/// A session that was seen within the idle time and has not finished stays.
pub proof fn law_active_sessions_stay(
    t: TableModel,
    finished: Seq<(u64, u64)>,
    now: nat,
    key_id: u64,
    session: u64,
)
    requires
        t.last_seen.contains_key(session_number(key_id, session)),
        decoder::age(now, t.last_seen[session_number(key_id, session)] as nat) < t.idle,
        !finished.contains((key_id, session)),
    ensures
        t.cleaned(finished, now).last_seen.contains_key(session_number(key_id, session)),
        t.cleaned(finished, now).last_seen[session_number(key_id, session)]
            == t.last_seen[session_number(key_id, session)],
{
    let n = session_number(key_id, session);
    if session_numbers(finished).contains(n) {
        let i = choose|i: int|
            0 <= i < finished.len() && session_numbers(finished)[i] == n;
        law_sessions_are_told_apart(finished[i], (key_id, session));
        assert(finished[i] == (key_id, session));
    }
}

/// Session `session` of device `key_id` as one number.
fn number_of(key_id: u64, session: u64) -> (number: u128)
    ensures
        number == session_number(key_id, session),
{
    key_id as u128 * SESSION_SPAN + session as u128
}

impl SessionTable {
    /// An empty table.
    pub fn new(max_sessions: usize, session_idle_secs: u64) -> (table: Result<Self, ServerError>)
        ensures
            match table {
                Ok(t) => {
                    &&& 1 <= max_sessions <= MAX_SESSIONS
                    &&& MIN_IDLE_SECS <= session_idle_secs <= MAX_IDLE_SECS
                    &&& t@ == (TableModel {
                        max_sessions: max_sessions as nat,
                        idle: (session_idle_secs * NANOS) as nat,
                        last_seen: Map::empty(),
                    })
                    &&& t@.within_limits()
                },
                Err(e) => {
                    ||| e == ServerError::MaxSessionsOutOfRange && !(1 <= max_sessions
                        <= MAX_SESSIONS)
                    ||| e == ServerError::IdleOutOfRange && 1 <= max_sessions <= MAX_SESSIONS && !(
                    MIN_IDLE_SECS <= session_idle_secs <= MAX_IDLE_SECS)
                },
            },
    {
        match check_limits(max_sessions, session_idle_secs) {
            Ok(_) => {},
            Err(e) => return Err(e),
        }
        let table = SessionTable {
            max_sessions,
            idle: session_idle_secs as u128 * NANOS,
            last_seen: HashMap::new(),
        };
        assert forall|id: u64| (#[trigger] table@.sessions_of(id)).len() == 0 by {
            assert(table@.sessions_of(id) =~= Set::empty());
        }
        Ok(table)
    }

    /// How many sessions run.
    pub fn len(&self) -> (n: usize)
        ensures
            n == self@.last_seen.len(),
    {
        self.last_seen.len()
    }

    /// How many sessions a device has.
    fn count_of(&self, key_id: u64) -> (n: usize)
        ensures
            n == self@.sessions_of(key_id).len(),
    {
        let keys: Vec<u128> = wide_hash_map_keys(&self.last_seen);
        let mut n: usize = 0;
        let mut i: usize = 0;
        let ghost mut found: Set<u128> = Set::empty();
        while i < keys.len()
            invariant
                i <= keys@.len(),
                tables::lists(keys@, self@.last_seen.dom()),
                n <= i,
                found.finite(),
                found.len() == n,
                forall|k: u128| #[trigger]
                    found.contains(k) <==> keys@.take(i as int).contains(k) && device_of(k)
                        == key_id,
            decreases keys@.len() - i,
        {
            proof {
                tables::lemma_listed(keys@, self@.last_seen.dom(), i as int);
            }
            if (keys[i] / SESSION_SPAN) as u64 == key_id {
                n = n + 1;
                proof {
                    found = found.insert(keys@[i as int]);
                }
            }
            i = i + 1;
        }
        proof {
            assert(keys@.take(i as int) =~= keys@);
            assert forall|k: u128| keys@.contains(k) <==> self@.last_seen.contains_key(k) by {
                assert(keys@.to_set().contains(k) <==> keys@.contains(k));
            }
            assert(found =~= self@.sessions_of(key_id));
        }
        n
    }

    /// Decides on a frame of a session, and notes when it came.
    pub fn decide(&mut self, version: u8, key_id: u64, session: u64, now: u128) -> (admission:
        Admission)
        ensures
            admission == old(self)@.admission(version, key_id, session),
            final(self)@ == old(self)@.admitted(version, key_id, session, now),
    {
        let number: u128 = number_of(key_id, session);
        if self.last_seen.contains_key(&number) {
            self.last_seen.insert(number, now);
            return Admission::Known;
        }
        if self.last_seen.len() >= self.max_sessions {
            return Admission::Refused;
        }
        if version == VERSION_V1 && self.count_of(0) >= MAX_V1_MIGRATION_SESSIONS {
            return Admission::Refused;
        }
        if (version == VERSION_V2 || version == VERSION_V3) && self.count_of(key_id)
            >= MAX_V2_SESSIONS_PER_DEVICE {
            return Admission::Refused;
        }
        self.last_seen.insert(number, now);
        Admission::Started
    }

    /// Notes that a session is active, if it runs.
    pub fn touch(&mut self, key_id: u64, session: u64, now: u128)
        ensures
            final(self)@ == if old(self)@.last_seen.contains_key(session_number(key_id, session)) {
                old(self)@.seen(key_id, session, now)
            } else {
                old(self)@
            },
    {
        let number: u128 = number_of(key_id, session);
        if self.last_seen.contains_key(&number) {
            self.last_seen.insert(number, now);
        }
    }

    /// Lets go the sessions that have finished or been idle for too long, and gives
    /// their devices and numbers.
    pub fn expire(&mut self, finished: &Vec<(u64, u64)>, now: u128) -> (gone: Vec<(u64, u64)>)
        ensures
            tables::lists(session_numbers(gone@), old(self)@.gone(finished@, now as nat)),
            final(self)@ == old(self)@.cleaned(finished@, now as nat),
    {
        let ghost before = self@;
        let keys: Vec<u128> = wide_hash_map_keys(&self.last_seen);
        let mut gone: Vec<(u64, u64)> = Vec::new();
        let mut i: usize = 0;
        assert(session_numbers(gone@) =~= Seq::<u128>::empty());
        while i < keys.len()
            invariant
                i <= keys@.len(),
                tables::lists(keys@, before.last_seen.dom()),
                self@ == (TableModel { last_seen: self@.last_seen, ..before }),
                forall|n: u128| #[trigger]
                    self@.last_seen.contains_key(n) <==> before.last_seen.contains_key(n) && !(
                    keys@.take(i as int).contains(n) && before.lets_go(finished@, now as nat, n)),
                forall|n: u128| #[trigger]
                    self@.last_seen.contains_key(n) ==> self@.last_seen[n] == before.last_seen[n],
                session_numbers(gone@).no_duplicates(),
                forall|n: u128| #[trigger]
                    session_numbers(gone@).contains(n) <==> keys@.take(i as int).contains(n)
                        && before.lets_go(finished@, now as nat, n),
            decreases keys@.len() - i,
        {
            let number: u128 = keys[i];
            proof {
                tables::lemma_listed(keys@, before.last_seen.dom(), i as int);
            }
            let device: u64 = (number / SESSION_SPAN) as u64;
            let session: u64 = (number % SESSION_SPAN) as u64;
            assert(session_number(device, session) == number);
            let listed: bool = is_listed(finished, device, session);
            let idle: bool = match self.last_seen.get(&number) {
                Some(seen) => (if now >= *seen {
                    now - *seen
                } else {
                    0
                }) >= self.idle,
                None => false,
            };
            if listed || idle {
                assert(before.lets_go(finished@, now as nat, number));
                self.last_seen.remove(&number);
                let ghost had = session_numbers(gone@);
                gone.push((device, session));
                proof {
                    assert(session_numbers(gone@) =~= had.push(number));
                    assert(!had.contains(number));
                    assert(had.push(number).no_duplicates());
                    assert forall|n: u128| #[trigger]
                        session_numbers(gone@).contains(n) <==> had.contains(n) || n == number by {
                        assert(had.push(number)[had.len() as int] == number);
                        if had.contains(n) {
                            let at = choose|at: int| 0 <= at < had.len() && had[at] == n;
                            assert(had.push(number)[at] == n);
                        }
                    }
                }
            } else {
                assert(!before.lets_go(finished@, now as nat, number));
            }
            i = i + 1;
        }
        proof {
            assert(keys@.take(i as int) =~= keys@);
            assert forall|n: u128| keys@.contains(n) <==> before.last_seen.contains_key(n) by {
                assert(keys@.to_set().contains(n) <==> keys@.contains(n));
            }
            assert(self@.last_seen =~= before.cleaned(finished@, now as nat).last_seen);
            assert(session_numbers(gone@).to_set() =~= before.gone(finished@, now as nat));
        }
        gone
    }
}

/// Whether a session is in a list.
fn is_listed(sessions: &Vec<(u64, u64)>, key_id: u64, session: u64) -> (yes: bool)
    ensures
        yes == session_numbers(sessions@).contains(session_number(key_id, session)),
{
    let ghost numbers = session_numbers(sessions@);
    let mut i: usize = 0;
    while i < sessions.len()
        invariant
            i <= sessions@.len(),
            numbers == session_numbers(sessions@),
            forall|j: int| 0 <= j < i ==> numbers[j] != session_number(key_id, session),
        decreases sessions@.len() - i,
    {
        let entry: (u64, u64) = sessions[i];
        assert(numbers[i as int] == session_number(entry.0, entry.1));
        if entry.0 == key_id && entry.1 == session {
            return true;
        }
        proof {
            law_sessions_are_told_apart(entry, (key_id, session));
        }
        i = i + 1;
    }
    false
}

/// When a frame is let in: a session that runs is known; any other is started if there is
/// room for it among all sessions, and among those of its device: sixty-four of the first
/// format and sixteen of each device in the others. What is not let in changes nothing;
/// what is let in counts as seen now.
pub proof fn law_frames_are_let_in(
    t: TableModel,
    version: u8,
    key_id: u64,
    session: u64,
    now: u128,
    n: u128,
)
    requires
        n == key_id * 0x1_0000_0000_0000_0000 + session,
    ensures
        ({
            let admission = t.admission(version, key_id, session);
            let after = t.admitted(version, key_id, session, now);
            let known = t.last_seen.contains_key(n);
            let of_first = t.last_seen.dom().filter(|k: u128| k / 0x1_0000_0000_0000_0000 == 0);
            let of_device = t.last_seen.dom().filter(
                |k: u128| k / 0x1_0000_0000_0000_0000 == key_id,
            );
            let room = t.last_seen.len() < t.max_sessions && (version == 1 ==> of_first.len() < 64)
                && (version == 2 || version == 3 ==> of_device.len() < 16);
            &&& admission == Admission::Known <==> known
            &&& admission == Admission::Started <==> !known && room
            &&& admission == Admission::Refused <==> !known && !room
            &&& !known && !room ==> after == t
            &&& known || room ==> after.last_seen == t.last_seen.insert(n, now)
            &&& after.max_sessions == t.max_sessions && after.idle == t.idle
        }),
{
    let of_first = t.last_seen.dom().filter(|k: u128| k / 0x1_0000_0000_0000_0000 == 0);
    let of_device = t.last_seen.dom().filter(|k: u128| k / 0x1_0000_0000_0000_0000 == key_id);
    assert(t.sessions_of(0) =~= of_first);
    assert(t.sessions_of(key_id) =~= of_device);
}

/// When a session goes: when it has finished, or was not seen for the idle time. Nothing
/// else goes, and what stays keeps its time.
pub proof fn law_sessions_go_for_reasons(
    t: TableModel,
    finished: Seq<(u64, u64)>,
    now: nat,
    key_id: u64,
    session: u64,
    n: u128,
)
    requires
        n == key_id * 0x1_0000_0000_0000_0000 + session,
        t.idle > 0,
    ensures
        ({
            let after = t.cleaned(finished, now);
            let runs = t.last_seen.contains_key(n);
            let over = finished.contains((key_id, session)) || now >= t.last_seen[n] + t.idle;
            &&& t.gone(finished, now).contains(n) <==> runs && over
            &&& after.last_seen.contains_key(n) <==> runs && !over
            &&& after.last_seen.contains_key(n) ==> after.last_seen[n] == t.last_seen[n]
            &&& after.max_sessions == t.max_sessions && after.idle == t.idle
        }),
{
    let numbers = session_numbers(finished);
    assert(n == session_number(key_id, session));
    assert(numbers.contains(n) <==> finished.contains((key_id, session))) by {
        if numbers.contains(n) {
            let i = choose|i: int| 0 <= i < numbers.len() && numbers[i] == n;
            law_sessions_are_told_apart(finished[i], (key_id, session));
            assert(finished[i] == (key_id, session));
        }
        if finished.contains((key_id, session)) {
            let i = choose|i: int| 0 <= i < finished.len() && finished[i] == (key_id, session);
            assert(numbers[i] == n);
        }
    }
}

/// A table starts empty, with the number of sessions and the idle time that it was made
/// with, within the limits of a server.
pub proof fn law_tables_start_empty(
    max_sessions: usize,
    idle: u64,
    table: Result<SessionTable, ServerError>,
)
    requires
        call_ensures(SessionTable::new, (max_sessions, idle), table),
    ensures
        table is Ok <==> 1 <= max_sessions <= 65_536 && 10 <= idle <= 86_400,
        table matches Ok(t) ==> {
            &&& t@.max_sessions == max_sessions
            &&& t@.idle == idle * 1_000_000_000
            &&& t@.last_seen.len() == 0
        },
        !(1 <= max_sessions <= 65_536) ==> table == Err::<SessionTable, ServerError>(
            ServerError::MaxSessionsOutOfRange,
        ),
{
}

/// A session that runs counts as seen when it is touched, and one that does not run is not
/// started by it.
pub proof fn law_touching_starts_nothing(
    table: &mut SessionTable,
    key_id: u64,
    session: u64,
    now: u128,
    n: u128,
)
    requires
        n == key_id * 0x1_0000_0000_0000_0000 + session,
        call_ensures(SessionTable::touch, (table, key_id, session, now), ()),
    ensures
        old(table)@.last_seen.contains_key(n) ==> final(table)@.last_seen
            == old(table)@.last_seen.insert(n, now),
        !old(table)@.last_seen.contains_key(n) ==> final(table)@ == old(table)@,
        final(table)@.max_sessions == old(table)@.max_sessions,
        final(table)@.idle == old(table)@.idle,
{
}

} // verus!
