//! A SOCKS5 front for several upstream proxies: what it says, and which upstream it
//! tries next.

use vstd::prelude::*;

verus! {

/// The SOCKS version.
pub const SOCKS_VERSION: u8 = 5;

/// The command to connect.
pub const COMMAND_CONNECT: u8 = 1;

/// Most methods that a greeting may offer.
pub const MAX_METHODS: usize = 32;

/// The code of a reply that refuses a command.
pub const REPLY_UNSUPPORTED: u8 = 7;

/// The code of a reply that no upstream could be reached.
pub const REPLY_FAILURE: u8 = 1;

/// Fewest upstreams that there is anything to choose from.
pub const MIN_UPSTREAMS: usize = 2;

/// What is wrong with a SOCKS exchange, or with the upstreams.
#[derive(Clone, Copy, Debug, PartialEq, Eq, Structural)]
pub enum SocksError {
    InvalidGreeting,
    AuthenticationRequired,
    UnsupportedCommand,
    EmptyDomain,
    UnsupportedAddress,
    UpstreamRejected,
    UpstreamFailed { code: u8 },
    TooFewUpstreams,
}

/// How many methods a greeting offers.
pub fn greeting_methods(version: u8, methods: u8) -> (count: Result<usize, SocksError>)
    ensures
        count == if version != SOCKS_VERSION || methods == 0 || methods > MAX_METHODS {
            Err::<usize, SocksError>(SocksError::InvalidGreeting)
        } else {
            Ok(methods as usize)
        },
{
    if version != SOCKS_VERSION || methods == 0 || methods as usize > MAX_METHODS {
        return Err(SocksError::InvalidGreeting);
    }
    Ok(methods as usize)
}

/// The reply to the methods that a client offers, and whether it goes on. Only a
/// client that can do without authentication is served.
pub fn choose_method(offered: &[u8]) -> (reply: ([u8; 2], Result<(), SocksError>))
    ensures
        offered@.contains(0u8) ==> reply.0@ == seq![SOCKS_VERSION, 0u8] && reply.1 == Ok::<
            (),
            SocksError,
        >(()),
        !offered@.contains(0u8) ==> reply.0@ == seq![SOCKS_VERSION, 0xffu8] && reply.1 == Err::<
            (),
            SocksError,
        >(SocksError::AuthenticationRequired),
{
    let mut i: usize = 0;
    while i < offered.len()
        invariant
            i <= offered@.len(),
            forall|j: int| 0 <= j < i ==> offered@[j] != 0,
        decreases offered@.len() - i,
    {
        if offered[i] == 0 {
            let reply: [u8; 2] = [5u8, 0];
            assert(offered@[i as int] == 0);
            assert(reply@ =~= seq![SOCKS_VERSION, 0u8]);
            return (reply, Ok(()));
        }
        i = i + 1;
    }
    let reply: [u8; 2] = [5u8, 0xff];
    assert(reply@ =~= seq![SOCKS_VERSION, 0xffu8]);
    (reply, Err(SocksError::AuthenticationRequired))
}

/// Checks the head of a request: only connecting is supported.
pub fn check_request(head: &[u8; 4]) -> (checked: Result<(), SocksError>)
    ensures
        checked == if head@[0] == SOCKS_VERSION && head@[1] == COMMAND_CONNECT && head@[2] == 0 {
            Ok::<(), SocksError>(())
        } else {
            Err(SocksError::UnsupportedCommand)
        },
{
    if head[0] != SOCKS_VERSION || head[1] != COMMAND_CONNECT || head[2] != 0 {
        return Err(SocksError::UnsupportedCommand);
    }
    Ok(())
}

/// A reply without an address of use.
pub fn plain_reply(code: u8) -> (reply: [u8; 10])
    ensures
        reply@ == seq![SOCKS_VERSION, code, 0u8, 1u8, 0u8, 0u8, 0u8, 0u8, 0u8, 0u8],
{
    let reply: [u8; 10] = [5u8, code, 0, 1, 0, 0, 0, 0, 0, 0];
    assert(reply@ =~= seq![SOCKS_VERSION, code, 0u8, 1u8, 0u8, 0u8, 0u8, 0u8, 0u8, 0u8]);
    reply
}

/// How many bytes an address with its port has in all, as far as `have` tells.
pub open spec fn address_total(atyp: u8, have: Seq<u8>) -> Result<nat, SocksError> {
    if atyp == 1 {
        Ok(6)
    } else if atyp == 4 {
        Ok(18)
    } else if atyp == 3 {
        if have.len() == 0 {
            Ok(1)
        } else if have[0] == 0 {
            Err(SocksError::EmptyDomain)
        } else {
            Ok((1 + have[0] + 2) as nat)
        }
    } else {
        Err(SocksError::UnsupportedAddress)
    }
}

/// How many more bytes of an address with its port are to be read after `have`.
pub fn address_missing(atyp: u8, have: &[u8]) -> (missing: Result<usize, SocksError>)
    ensures
        match address_total(atyp, have@) {
            Ok(total) => missing matches Ok(n) && n == if have@.len() < total {
                total - have@.len()
            } else {
                0
            },
            Err(e) => missing == Err::<usize, SocksError>(e),
        },
{
    let total: usize = if atyp == 1 {
        6
    } else if atyp == 4 {
        18
    } else if atyp == 3 {
        if have.len() == 0 {
            1
        } else if have[0] == 0 {
            return Err(SocksError::EmptyDomain);
        } else {
            have[0] as usize + 3
        }
    } else {
        return Err(SocksError::UnsupportedAddress);
    };
    if have.len() < total {
        Ok(total - have.len())
    } else {
        Ok(0)
    }
}

/// Whether `address` is a whole address of its type.
pub open spec fn is_whole_address(atyp: u8, address: Seq<u8>) -> bool {
    ||| atyp == 1 && address.len() == 6
    ||| atyp == 4 && address.len() == 18
    ||| atyp == 3 && address.len() >= 1 && address[0] > 0 && address.len() == 1 + address[0] + 2
}

/// Reading what is missing, until nothing is, reads a whole address and not a byte
/// more: a domain takes two rounds, one for its length, and the others take one.
pub proof fn law_addresses_are_read_whole(atyp: u8, first: Seq<u8>, rest: Seq<u8>)
    requires
        address_total(atyp, Seq::empty()) == Ok::<nat, SocksError>(first.len()),
        address_total(atyp, first) is Ok,
        rest.len() == address_total(atyp, first)->Ok_0 - first.len(),
    ensures
        is_whole_address(atyp, first + rest),
        address_total(atyp, first + rest) == Ok::<nat, SocksError>((first + rest).len()),
{
}

/// Checks the method that an upstream chose.
pub fn check_method(method: &[u8; 2]) -> (checked: Result<(), SocksError>)
    ensures
        checked == if method@[0] == SOCKS_VERSION && method@[1] == 0 {
            Ok::<(), SocksError>(())
        } else {
            Err(SocksError::UpstreamRejected)
        },
{
    if method[0] != SOCKS_VERSION || method[1] != 0 {
        return Err(SocksError::UpstreamRejected);
    }
    Ok(())
}

/// Checks the head of the answer of an upstream.
pub fn check_response(head: &[u8; 4]) -> (checked: Result<(), SocksError>)
    ensures
        checked == if head@[0] == SOCKS_VERSION && head@[1] == 0 {
            Ok::<(), SocksError>(())
        } else {
            Err(SocksError::UpstreamFailed { code: head@[1] })
        },
{
    if head[0] != SOCKS_VERSION || head[1] != 0 {
        return Err(SocksError::UpstreamFailed { code: head[1] });
    }
    Ok(())
}

/// The request that tells whether an upstream is healthy: to connect to
/// "www.gstatic.com" on port 443.
pub open spec fn health_request_model() -> Seq<u8> {
    seq![
        5u8, 1u8, 0u8, 3u8, 15u8, 0x77u8, 0x77u8, 0x77u8, 0x2eu8, 0x67u8, 0x73u8, 0x74u8, 0x61u8,
        0x74u8, 0x69u8, 0x63u8, 0x2eu8, 0x63u8, 0x6fu8, 0x6du8, 0x01u8, 0xbbu8,
    ]
}

/// The request that tells whether an upstream is healthy.
pub fn health_request() -> (request: [u8; 22])
    ensures
        request@ == health_request_model(),
{
    let request: [u8; 22] = [
        5u8, 1, 0, 3, 15, 0x77, 0x77, 0x77, 0x2e, 0x67, 0x73, 0x74, 0x61, 0x74, 0x69, 0x63, 0x2e,
        0x63, 0x6f, 0x6d, 0x01, 0xbb,
    ];
    assert(request@ =~= health_request_model());
    request
}

/// The health request is one that this front would take itself.
pub proof fn law_health_request_is_valid()
    ensures
        health_request_model()[0] == SOCKS_VERSION,
        health_request_model()[1] == COMMAND_CONNECT,
        health_request_model()[2] == 0,
        is_whole_address(health_request_model()[3], health_request_model().skip(4)),
{
}

/// Checks that there are upstreams to choose from.
pub fn check_upstreams(count: usize) -> (checked: Result<(), SocksError>)
    ensures
        checked == if count < MIN_UPSTREAMS {
            Err::<(), SocksError>(SocksError::TooFewUpstreams)
        } else {
            Ok(())
        },
{
    if count < MIN_UPSTREAMS {
        return Err(SocksError::TooFewUpstreams);
    }
    Ok(())
}

/// Which upstreams are healthy, as far as is known: those that were reached when they
/// were last tried, and those that were not tried yet.
#[derive(Clone, Debug)]
pub struct Health {
    flags: Vec<bool>,
}

impl View for Health {
    type V = Seq<bool>;

    closed spec fn view(&self) -> Seq<bool> {
        self.flags@
    }
}

impl Health {
    /// The health of `count` upstreams that were not tried yet.
    pub fn new(count: usize) -> (health: Self)
        ensures
            health@ == Seq::new(count as nat, |i: int| true),
    {
        let mut flags: Vec<bool> = Vec::new();
        while flags.len() < count
            invariant
                flags@.len() <= count,
                forall|i: int| 0 <= i < flags@.len() ==> #[trigger] flags@[i],
            decreases count - flags@.len(),
        {
            flags.push(true);
        }
        assert(flags@ =~= Seq::new(count as nat, |i: int| true));
        Health { flags }
    }

    /// Notes whether an upstream was reached.
    pub fn note(&mut self, index: usize, reached: bool)
        requires
            index < old(self)@.len(),
        ensures
            final(self)@ == old(self)@.update(index as int, reached),
    {
        self.flags.set(index, reached);
    }

    /// Which upstreams are healthy.
    pub fn flags(&self) -> (flags: &[bool])
        ensures
            flags@ == self@,
    {
        self.flags.as_slice()
    }
}

/// The order in which upstreams are tried for one client: all that are healthy, from
/// the one whose turn it is, and then all of them once more.
#[derive(Clone, Copy, Debug, PartialEq, Eq, Structural)]
pub struct Attempts {
    count: usize,
    start: usize,
    round: usize,
    offset: usize,
}

/// The order of attempts as a mathematical value: how many upstreams there are, whose
/// turn it is, and how many places of the two rounds are behind.
pub struct AttemptsModel {
    pub count: nat,
    pub start: nat,
    pub passed: nat,
}

impl View for Attempts {
    type V = AttemptsModel;

    closed spec fn view(&self) -> AttemptsModel {
        AttemptsModel {
            count: self.count as nat,
            start: self.start as nat,
            passed: (self.round * self.count + self.offset) as nat,
        }
    }
}

impl AttemptsModel {
    /// Whether the numbers are in range.
    pub open spec fn wf(self) -> bool {
        &&& self.count > 0
        &&& self.start < self.count
        &&& self.passed <= 2 * self.count
    }

    /// The upstream at a place of the two rounds.
    pub open spec fn index_at(self, place: nat) -> nat {
        let offset = if place < self.count {
            place
        } else {
            (place - self.count) as nat
        };
        if self.start + offset < self.count {
            self.start + offset
        } else {
            (self.start + offset - self.count) as nat
        }
    }

    /// Whether the upstream at a place is tried: in the first round only if it is
    /// healthy.
    pub open spec fn is_tried(self, healthy: Seq<bool>, place: nat) -> bool {
        place >= self.count || healthy[self.index_at(place) as int]
    }

    /// Whether `place` is the next that is tried.
    pub open spec fn is_next(self, healthy: Seq<bool>, place: nat) -> bool {
        &&& self.passed <= place < 2 * self.count
        &&& self.is_tried(healthy, place)
        &&& forall|p: nat| self.passed <= p < place ==> !#[trigger] self.is_tried(healthy, p)
    }
}

impl Attempts {
    /// What every operation keeps.
    pub closed spec fn wf(&self) -> bool {
        &&& self.count > 0
        &&& self.start < self.count
        &&& self.round <= 2
        &&& self.round < 2 ==> self.offset < self.count
        &&& self.round == 2 ==> self.offset == 0
    }

    /// The attempts for client number `cursor` with `count` upstreams.
    pub fn new(cursor: usize, count: usize) -> (attempts: Self)
        requires
            count > 0,
        ensures
            attempts.wf(),
            attempts@.wf(),
            attempts@ == (AttemptsModel {
                count: count as nat,
                start: (cursor % count) as nat,
                passed: 0,
            }),
    {
        let attempts = Attempts { count, start: cursor % count, round: 0, offset: 0 };
        assert(0 * count == 0) by (nonlinear_arith);
        attempts
    }

    /// The upstream to try next, given which are healthy now.
    pub fn next(&mut self, healthy: &[bool]) -> (index: Option<usize>)
        requires
            old(self).wf(),
            healthy@.len() == old(self)@.count,
        ensures
            final(self).wf(),
            final(self)@.wf(),
            final(self)@.count == old(self)@.count,
            final(self)@.start == old(self)@.start,
            match index {
                Some(i) => final(self)@.passed > old(self)@.passed && old(self)@.is_next(
                    healthy@,
                    (final(self)@.passed - 1) as nat,
                ) && i == old(self)@.index_at((final(self)@.passed - 1) as nat) && i < old(
                    self,
                )@.count,
                None => final(self)@.passed == 2 * old(self)@.count && forall|p: nat|
                    old(self)@.passed <= p < 2 * old(self)@.count ==> !#[trigger] old(
                        self,
                    )@.is_tried(healthy@, p),
            },
            index is None <==> old(self)@.passed == 2 * old(self)@.count,
    {
        let ghost before = self@;
        proof {
            self.lemma_passed();
        }
        while self.round < 2
            invariant
                self.wf(),
                self@.wf(),
                before == old(self)@,
                before.count == self@.count,
                before.start == self@.start,
                healthy@.len() == self@.count,
                before.passed <= self@.passed,
                forall|p: nat|
                    before.passed <= p < self@.passed ==> !#[trigger] before.is_tried(healthy@, p),
            decreases 2 * self@.count - self@.passed,
        {
            let ghost place = self@.passed;
            proof {
                self.lemma_passed();
            }
            let room: usize = self.count - self.start;
            let index: usize = if self.offset < room {
                self.start + self.offset
            } else {
                self.offset - room
            };
            assert(index == before.index_at(place));
            let first: bool = self.round == 0;
            if self.offset + 1 == self.count {
                self.round = self.round + 1;
                self.offset = 0;
            } else {
                self.offset = self.offset + 1;
            }
            proof {
                self.lemma_passed();
                assert(self@.passed == place + 1);
            }
            if !first || healthy[index] {
                assert(before.is_next(healthy@, place));
                return Some(index);
            }
        }
        proof {
            self.lemma_passed();
            law_no_upstream_is_spared(before, healthy@);
        }
        None
    }

    /// An order of attempts that is in order has a value that is in order.
    pub proof fn lemma_wf(&self)
        requires
            self.wf(),
        ensures
            self@.wf(),
    {
        self.lemma_passed();
    }

    /// Where the two rounds stand.
    proof fn lemma_passed(&self)
        requires
            self.wf(),
        ensures
            self@.wf(),
            self.round == 0 ==> self@.passed == self.offset,
            self.round == 1 ==> self@.passed == self.count + self.offset,
            self.round == 2 ==> self@.passed == 2 * self.count,
    {
        let count = self.count as int;
        assert(0 * count == 0 && 1 * count == count && 2 * count == count + count)
            by (nonlinear_arith);
    }
}

/// Clients take turns: the upstream that is first in the order of one client is
/// followed by the one that is first in the order of the next client.
pub proof fn law_clients_take_turns(cursor: nat, count: nat)
    requires
        count > 0,
    ensures
        (cursor + 1) % count == if cursor % count + 1 == count {
            0
        } else {
            cursor % count + 1
        },
{
    vstd::arithmetic::div_mod::lemma_fundamental_div_mod(cursor as int, count as int);
    vstd::arithmetic::div_mod::lemma_mod_bound(cursor as int, count as int);
    let q = cursor as int / count as int;
    let r = cursor as int % count as int;
    if r + 1 == count {
        assert(cursor + 1 == (q + 1) * count + 0) by (nonlinear_arith)
            requires
                cursor == count * q + r,
                r + 1 == count,
        ;
        vstd::arithmetic::div_mod::lemma_fundamental_div_mod_converse(
            (cursor + 1) as int,
            count as int,
            q + 1,
            0,
        );
    } else {
        assert(cursor + 1 == q * count + (r + 1)) by (nonlinear_arith)
            requires
                cursor == count * q + r,
        ;
        vstd::arithmetic::div_mod::lemma_fundamental_div_mod_converse(
            (cursor + 1) as int,
            count as int,
            q,
            r + 1,
        );
    }
}

/// The place of an upstream in a round.
pub open spec fn place_of(m: AttemptsModel, index: nat) -> nat {
    if index >= m.start {
        (index - m.start) as nat
    } else {
        (index + m.count - m.start) as nat
    }
}

/// Every upstream has its place in each round, and only one.
pub proof fn law_rounds_are_complete(m: AttemptsModel, index: nat, place: nat)
    requires
        m.wf(),
        index < m.count,
        place < m.count,
    ensures
        place_of(m, index) < m.count,
        m.index_at(place_of(m, index)) == index,
        m.index_at(m.count + place_of(m, index)) == index,
        m.index_at(place) == index ==> place == place_of(m, index),
        m.index_at(m.count + place) == m.index_at(place),
{
}

/// A client is turned away only once every upstream was tried in vain: nothing is
/// left to try just when the second round, which spares none, is over.
pub proof fn law_no_upstream_is_spared(m: AttemptsModel, healthy: Seq<bool>)
    requires
        m.wf(),
        healthy.len() == m.count,
        forall|p: nat| m.passed <= p < 2 * m.count ==> !#[trigger] m.is_tried(healthy, p),
    ensures
        m.passed == 2 * m.count,
{
    if m.passed < 2 * m.count {
        let last = (2 * m.count - 1) as nat;
        assert(m.is_tried(healthy, last));
    }
}

/// An upstream that was not reached is passed over in the first round, until it is
/// reached again.
pub proof fn law_unreached_upstreams_wait(
    m: AttemptsModel,
    healthy: Seq<bool>,
    index: nat,
    reached: bool,
)
    requires
        m.wf(),
        healthy.len() == m.count,
        index < m.count,
    ensures
        m.is_tried(healthy.update(index as int, reached), place_of(m, index)) == reached,
{
    law_rounds_are_complete(m, index, place_of(m, index));
}

/// A healthy upstream that was not tried comes before any that is not healthy.
pub proof fn law_healthy_upstreams_come_first(
    m: AttemptsModel,
    healthy: Seq<bool>,
    index: nat,
    place: nat,
)
    requires
        m.wf(),
        healthy.len() == m.count,
        index < m.count,
        healthy[index as int],
        m.passed <= place_of(m, index),
        m.is_next(healthy, place),
    ensures
        place < m.count,
        healthy[m.index_at(place) as int],
        place <= place_of(m, index),
{
    let own = place_of(m, index);
    law_rounds_are_complete(m, index, own);
    assert(m.is_tried(healthy, own));
}

/// Upstreams are tried round and round from the one whose turn it is: in the first round
/// those that are healthy, in the second all of them, and each time the first that is left.
pub proof fn law_upstreams_are_tried_round_and_round(
    m: AttemptsModel,
    healthy: Seq<bool>,
    place: nat,
    earlier: nat,
)
    requires
        m.wf(),
        healthy.len() == m.count,
        place < 2 * m.count,
    ensures
        m.index_at(place) == (m.start + place) % m.count,
        m.is_tried(healthy, place) <==> place >= m.count || healthy[((m.start + place)
            % m.count) as int],
        m.is_next(healthy, place) ==> place >= m.passed && m.is_tried(healthy, place),
        m.is_next(healthy, place) && m.passed <= earlier < place ==> earlier < m.count
            && !healthy[((m.start + earlier) % m.count) as int],
{
    lemma_wraps(m, place);
    if earlier < place {
        lemma_wraps(m, earlier);
        if m.is_next(healthy, place) && m.passed <= earlier {
            assert(!m.is_tried(healthy, earlier));
        }
    }
}

/// Places wrap around the upstreams.
proof fn lemma_wraps(m: AttemptsModel, place: nat)
    requires
        m.wf(),
        place < 2 * m.count,
    ensures
        m.index_at(place) == (m.start + place) % m.count,
{
    let sum = (m.start + place) as int;
    let count = m.count as int;
    let q: int = if sum < count {
        0
    } else if sum < 2 * count {
        1
    } else {
        2
    };
    assert(sum == q * count + (sum - q * count));
    assert(q == 0 ==> q * count == 0);
    assert(q == 1 ==> q * count == count);
    assert(q == 2 ==> q * count == 2 * count);
    vstd::arithmetic::div_mod::lemma_fundamental_div_mod_converse(
        sum,
        count,
        q,
        sum - q * count,
    );
}

/// Attempts start with the upstream whose turn it is, with nothing tried, and upstreams
/// that were not tried count as healthy. There must be two of them at least.
pub proof fn law_attempts_start_anew(
    cursor: usize,
    count: usize,
    attempts: Attempts,
    health: Health,
    checked: Result<(), SocksError>,
)
    requires
        count > 0,
        call_ensures(Attempts::new, (cursor, count), attempts),
        call_ensures(Health::new, (count,), health),
        call_ensures(check_upstreams, (count,), checked),
    ensures
        attempts@.count == count,
        attempts@.start == cursor % count,
        attempts@.passed == 0,
        health@.len() == count,
        forall|i: int| 0 <= i < count ==> #[trigger] health@[i],
        count < 2 ==> checked == Err::<(), SocksError>(SocksError::TooFewUpstreams),
        count >= 2 ==> checked is Ok,
{
}

/// How long addresses are: four bytes, sixteen, or a length and as many bytes, and two for
/// the port behind them. No others are known, and a domain is not empty. What is read
/// before a domain is its length.
pub proof fn law_addresses_have_lengths(
    atyp: u8,
    have: &[u8],
    missing: Result<usize, SocksError>,
)
    requires
        call_ensures(address_missing, (atyp, have), missing),
    ensures
        ({
            let total = if atyp == 1 {
                4int + 2
            } else if atyp == 4 {
                16int + 2
            } else if have@.len() == 0 {
                1int
            } else {
                1 + have@[0] + 2
            };
            let known = atyp == 1 || atyp == 3 || atyp == 4;
            let empty = atyp == 3 && have@.len() > 0 && have@[0] == 0;
            &&& !known ==> missing == Err::<usize, SocksError>(SocksError::UnsupportedAddress)
            &&& empty ==> missing == Err::<usize, SocksError>(SocksError::EmptyDomain)
            &&& known && !empty ==> (missing matches Ok(n) && (have@.len() <= total ==> n
                + have@.len() == total) && (have@.len() > total ==> n == 0))
            &&& known && !empty && have@.len() > 0 ==> (missing == Ok::<usize, SocksError>(0)
                && have@.len() == total <==> is_whole_address(atyp, have@))
        }),
{
}

/// What is said to clients: a greeting of version five with one to thirty-two methods is
/// taken, no authentication is the only method, connecting the only command, and a reply
/// has no address of use. Code seven refuses a command, and code one says that no upstream
/// could be reached.
pub proof fn law_clients_are_answered(
    version: u8,
    methods: u8,
    count: Result<usize, SocksError>,
    offered: &[u8],
    reply: ([u8; 2], Result<(), SocksError>),
    head: &[u8; 4],
    checked: Result<(), SocksError>,
    code: u8,
    plain: [u8; 10],
    i: int,
)
    requires
        call_ensures(greeting_methods, (version, methods), count),
        call_ensures(choose_method, (offered,), reply),
        call_ensures(check_request, (head,), checked),
        call_ensures(plain_reply, (code,), plain),
    ensures
        version == 5 && 1 <= methods <= 32 ==> (count matches Ok(n) && n == methods),
        version != 5 || methods < 1 || methods > 32 ==> count == Err::<usize, SocksError>(
            SocksError::InvalidGreeting,
        ),
        reply.0@[0] == 5,
        reply.0@[1] == 0 <==> exists|k: int| 0 <= k < offered@.len() && #[trigger] offered@[k] == 0,
        reply.0@[1] == 0 <==> reply.1 is Ok,
        reply.0@[1] == 0 || reply.0@[1] == 255,
        reply.1 matches Err(e) ==> e == SocksError::AuthenticationRequired,
        checked is Ok <==> head@[0] == 5 && head@[1] == 1 && head@[2] == 0,
        checked matches Err(e) ==> e == SocksError::UnsupportedCommand,
        plain@[0] == 5,
        plain@[1] == code,
        plain@[3] == 1,
        2 <= i < 10 && i != 3 ==> plain@[i] == 0,
        REPLY_UNSUPPORTED == 7,
        REPLY_FAILURE == 1,
{
    let none = seq![SOCKS_VERSION, 0u8];
    let refused = seq![SOCKS_VERSION, 0xffu8];
    assert(none[0] == 5 && none[1] == 0 && refused[0] == 5 && refused[1] == 255);
}

/// What upstreams say: version five and no authentication is taken, and an answer of
/// version five with code zero; any other code is handed on.
pub proof fn law_upstreams_are_heard(
    method: &[u8; 2],
    chosen: Result<(), SocksError>,
    head: &[u8; 4],
    answered: Result<(), SocksError>,
)
    requires
        call_ensures(check_method, (method,), chosen),
        call_ensures(check_response, (head,), answered),
    ensures
        chosen is Ok <==> method@[0] == 5 && method@[1] == 0,
        chosen matches Err(e) ==> e == SocksError::UpstreamRejected,
        answered is Ok <==> head@[0] == 5 && head@[1] == 0,
        answered matches Err(e) ==> e == (SocksError::UpstreamFailed { code: head@[1] }),
{
}

/// The health request asks for the host "www.gstatic.com", by name, on port 443.
pub proof fn law_health_is_asked_of_a_known_host(i: int)
    requires
        0 <= i < "www.gstatic.com"@.len(),
    ensures
        health_request_model().len() == 5 + "www.gstatic.com"@.len() + 2,
        health_request_model()[3] == 3,
        health_request_model()[4] == "www.gstatic.com"@.len(),
        health_request_model()[5 + i] as char == "www.gstatic.com"@[i],
        256 * health_request_model()[20] + health_request_model()[21] == 443,
{
    reveal_strlit("www.gstatic.com");
}

/// As long as the two rounds are not over there is an upstream to try next, and it is in
/// one of them.
pub proof fn law_rounds_are_gone_through(m: AttemptsModel, healthy: Seq<bool>)
    requires
        m.wf(),
        healthy.len() == m.count,
    ensures
        m.passed < 2 * m.count ==> exists|place: nat| m.is_next(healthy, place),
        forall|place: nat| #[trigger]
            m.is_next(healthy, place) ==> m.passed <= place < m.count + m.count,
{
    if m.passed < 2 * m.count {
        lemma_next_is_found(m, healthy, m.passed);
    }
}

/// Where nothing before a place is tried, something from it on is.
proof fn lemma_next_is_found(m: AttemptsModel, healthy: Seq<bool>, from: nat)
    requires
        m.wf(),
        healthy.len() == m.count,
        m.passed <= from < 2 * m.count,
        forall|p: nat| m.passed <= p < from ==> !#[trigger] m.is_tried(healthy, p),
    ensures
        exists|place: nat| m.is_next(healthy, place),
    decreases 2 * m.count - from,
{
    if m.is_tried(healthy, from) {
        assert(m.is_next(healthy, from));
    } else {
        lemma_next_is_found(m, healthy, from + 1);
    }
}

/// Noting whether an upstream was reached changes what is known of it, and of no other.
pub proof fn law_notes_are_kept(health: &mut Health, index: usize, reached: bool, i: int)
    requires
        index < old(health)@.len(),
        call_ensures(Health::note, (health, index, reached), ()),
    ensures
        final(health)@.len() == old(health)@.len(),
        final(health)@[index as int] == reached,
        0 <= i < old(health)@.len() && i != index ==> final(health)@[i] == old(health)@[i],
{
}

/// What a call for the next upstream gives: the first, from the one whose turn it is on,
/// that was not passed and is healthy, once round; after that every one in turn, once round;
/// and nothing after that.
pub proof fn law_next_upstream(attempts: &mut Attempts, healthy: &[bool], index: Option<usize>)
    requires
        old(attempts).wf(),
        healthy@.len() == old(attempts)@.count,
        call_ensures(Attempts::next, (attempts, healthy), index),
    ensures
        ({
            let m = old(attempts)@;
            let place = (final(attempts)@.passed - 1) as nat;
            &&& index is None <==> m.passed == 2 * m.count
            &&& index matches Some(i) ==> {
                &&& m.passed <= place < 2 * m.count
                &&& i == (m.start + place) % m.count
                &&& place < m.count ==> healthy@[i as int]
            }
        }),
{
    let m = old(attempts)@;
    old(attempts).lemma_wf();
    match index {
        Some(_) => {
            let place = (final(attempts)@.passed - 1) as nat;
            law_upstreams_are_tried_round_and_round(m, healthy@, place, m.passed);
        },
        None => {},
    }
}

} // verus!
