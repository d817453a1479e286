use vstd::prelude::*;
use crate::address::{parse_address_header, parse_header, AddressView};
use crate::balancer::RoundRobin;
use crate::config::{server_addrs, Config};
use crate::peer::PeerAddr;
use crate::session::{
    key_absent, lemma_put_other_key, lookup, put_all, put_entries, touch_entries,
    without_key, EntryView, SessionTable,
};

verus! {

/// Why a datagram is dropped.
#[derive(Clone, Copy, Debug, PartialEq, Eq, Structural)]
pub enum DropReason {
    /// Too short to hold a SOCKS5 UDP header.
    TooShort,
    /// A fragment number other than zero.
    Fragmented,
    /// No complete address header of a known type.
    BadHeader,
    /// A reply for a destination that has no association.
    UnknownSession,
}

/// Why the relay cannot start with a configuration.
#[derive(Clone, Copy, Debug, PartialEq, Eq, Structural)]
pub enum ConfigError {
    NoLocalAddress,
    NoServer,
    ZeroCapacity,
}

/// What the receive loop does with one datagram.
#[derive(Clone, Copy, Debug, PartialEq, Eq, Structural)]
pub enum Dispatch {
    /// Drop it: it cannot hold a SOCKS5 UDP header.
    TooShort,
    /// A reply from the server at this index of the pool.
    Response(usize),
    /// A client request, to be forwarded to the server at this index.
    Request(usize),
}

/// Datagrams shorter than this are dropped on receipt.
pub const MIN_DATAGRAM_LEN: usize = 4;

/// Length of the SOCKS5 UDP prefix: two reserved bytes and the fragment number.
pub const SOCKS5_UDP_PREFIX_LEN: usize = 3;

/// The destination a client datagram names, where the relay forwards it:
/// the datagram is unfragmented and an address header follows the prefix.
pub open spec fn request_key(msg: Seq<u8>) -> Option<AddressView> {
    if msg.len() >= 3 && msg[2] == 0 {
        match parse_header(msg.subrange(3, msg.len() as int)) {
            Some((k, _)) => Some(k),
            None => None,
        }
    } else {
        None
    }
}

/// The destination that a decrypted server reply names.
pub open spec fn response_key(plain: Seq<u8>) -> Option<AddressView> {
    match parse_header(plain) {
        Some((k, _)) => Some(k),
        None => None,
    }
}

/// Classifies received datagrams by their source: a configured server's
/// address marks a reply, any other a client request, which gets the next
/// server in round-robin order.
pub struct Dispatcher {
    servers: Vec<PeerAddr>,
    balancer: RoundRobin,
}

impl Dispatcher {
    /// The addresses of the server pool, in order.
    pub closed spec fn addrs(&self) -> Seq<PeerAddr> {
        self.servers@
    }

    /// The index of the server the next request goes to.
    pub closed spec fn cursor(&self) -> nat {
        self.balancer.cursor()
    }

    pub closed spec fn wf(&self) -> bool {
        &&& self.balancer.wf()
        &&& self.balancer.pool_len() == self.servers.len()
    }

    /// A dispatcher over the servers at `servers`, which starts with the first.
    pub fn new(servers: Vec<PeerAddr>) -> (r: Dispatcher)
        requires
            servers@.len() > 0,
        ensures
            r.wf(),
            r.addrs() == servers@,
            r.cursor() == 0,
    {
        let n = servers.len();
        Dispatcher { servers, balancer: RoundRobin::new(n) }
    }

    /// The index of the last server whose address is `source`.
    fn find_server(&self, source: PeerAddr) -> (r: Option<usize>)
        ensures
            match r {
                Some(i) => {
                    &&& i < self.servers@.len()
                    &&& self.servers@[i as int] == source
                    &&& forall|j: int| i < j < self.servers@.len() ==> self.servers@[j] != source
                },
                None => forall|j: int| 0 <= j < self.servers@.len() ==> self.servers@[j] != source,
            },
    {
        let mut i: usize = self.servers.len();
        while i > 0
            invariant
                i <= self.servers.len(),
                forall|j: int| i <= j < self.servers@.len() ==> self.servers@[j] != source,
            decreases i,
        {
            if self.servers[i - 1] == source {
                return Some(i - 1);
            }
            i = i - 1;
        }
        None
    }

    /// What to do with a datagram of `len` bytes from `source`: too short
    /// ones are dropped, those from a configured server are replies from it,
    /// and any other is a request that takes the next server in turn.
    pub fn dispatch(&mut self, len: usize, source: PeerAddr) -> (r: Dispatch)
        requires
            old(self).wf(),
        ensures
            final(self).wf(),
            final(self).addrs() == old(self).addrs(),
            len < MIN_DATAGRAM_LEN ==> r == Dispatch::TooShort && final(self).cursor() == old(self).cursor(),
            len >= MIN_DATAGRAM_LEN && old(self).addrs().contains(source) ==> {
                &&& r is Response
                &&& r->Response_0 < old(self).addrs().len()
                &&& old(self).addrs()[r->Response_0 as int] == source
                &&& forall|j: int| r->Response_0 < j < old(self).addrs().len() ==> old(self).addrs()[j] != source
                &&& final(self).cursor() == old(self).cursor()
            },
            len >= MIN_DATAGRAM_LEN && !old(self).addrs().contains(source) ==> {
                &&& r == Dispatch::Request(old(self).cursor() as usize)
                &&& final(self).cursor() == (old(self).cursor() + 1) % old(self).addrs().len()
            },
    {
        if len < MIN_DATAGRAM_LEN {
            return Dispatch::TooShort;
        }
        match self.find_server(source) {
            Some(i) => Dispatch::Response(i),
            None => {
                let i = self.balancer.pick_server();
                Dispatch::Request(i)
            },
        }
    }
}

/// The local UDP relay, built from its configuration.
#[derive(Clone, Debug)]
pub struct UdpRelayLocal {
    config: Config,
}

impl UdpRelayLocal {
    /// The configuration the relay was built with.
    pub closed spec fn spec_config(&self) -> Config {
        self.config
    }

    pub fn new(config: Config) -> (r: UdpRelayLocal)
        ensures
            r.spec_config() == config,
    {
        UdpRelayLocal { config }
    }

    pub fn config(&self) -> (r: &Config)
        ensures
            *r == self.spec_config(),
    {
        &self.config
    }

    /// The address to bind the relay's socket to.
    pub fn local_addr(&self) -> (r: Result<PeerAddr, ConfigError>)
        ensures
            match self.spec_config().local {
                Some(a) => r == Ok::<PeerAddr, ConfigError>(a),
                None => r == Err::<PeerAddr, ConfigError>(ConfigError::NoLocalAddress),
            },
    {
        match self.config.local {
            Some(a) => Ok(a),
            None => Err(ConfigError::NoLocalAddress),
        }
    }

    /// A dispatcher over the configured servers, in their configured order.
    pub fn dispatcher(&self) -> (r: Result<Dispatcher, ConfigError>)
        ensures
            self.spec_config().servers@.len() == 0 ==> r == Err::<Dispatcher, ConfigError>(ConfigError::NoServer),
            self.spec_config().servers@.len() > 0 ==> {
                &&& r is Ok
                &&& r->Ok_0.wf()
                &&& r->Ok_0.addrs() == server_addrs(self.spec_config().servers@)
                &&& r->Ok_0.cursor() == 0
            },
    {
        let servers = &self.config.servers;
        if servers.len() == 0 {
            return Err(ConfigError::NoServer);
        }
        let mut addrs: Vec<PeerAddr> = Vec::new();
        let mut i: usize = 0;
        while i < servers.len()
            invariant
                i <= servers.len(),
                addrs@ =~= server_addrs(servers@).subrange(0, i as int),
            decreases servers.len() - i,
        {
            addrs.push(servers[i].addr);
            i = i + 1;
        }
        assert(addrs@ =~= server_addrs(servers@));
        Ok(Dispatcher::new(addrs))
    }

    /// An empty session table of the configured capacity.
    pub fn session_table(&self) -> (r: Result<SessionTable, ConfigError>)
        ensures
            self.spec_config().session_capacity == 0 ==> r == Err::<SessionTable, ConfigError>(ConfigError::ZeroCapacity),
            self.spec_config().session_capacity > 0 ==> {
                &&& r is Ok
                &&& r->Ok_0.wf()
                &&& r->Ok_0@ == Seq::<crate::session::EntryView>::empty()
                &&& r->Ok_0.cap() == self.spec_config().session_capacity
            },
    {
        if self.config.session_capacity == 0 {
            return Err(ConfigError::ZeroCapacity);
        }
        Ok(SessionTable::new(self.config.session_capacity))
    }
}

/// After a request for a destination from client `from` has been handled,
/// a reply that names that destination resolves to `from`; and however many
/// requests for other destinations follow, it resolves to `from` for as long
/// as the association has not been evicted.
pub proof fn lemma_session_freshness(
    s: Seq<EntryView>,
    cap: nat,
    request: Seq<u8>,
    from: PeerAddr,
    later: Seq<EntryView>,
    reply: Seq<u8>,
)
    requires
        cap > 0,
        request_key(request) is Some,
        response_key(reply) == request_key(request),
        key_absent(later, request_key(request)->Some_0),
    ensures
        lookup(put_entries(s, cap, request_key(request)->Some_0, from), response_key(reply)->Some_0) == Some(from),
        ({
            let r = lookup(put_all(put_entries(s, cap, request_key(request)->Some_0, from), cap, later), response_key(reply)->Some_0);
            r is None || r == Some(from)
        }),
    decreases later.len(),
{
    let k = request_key(request)->Some_0;
    let t = without_key(s, k).push((k, from));
    assert(t.last() == (k, from));
    if t.len() > cap {
        assert(t.drop_first().last() == (k, from));
    }
    if later.len() > 0 {
        let d = later.drop_last();
        assert(key_absent(d, k));
        lemma_session_freshness(s, cap, request, from, d, reply);
        let e = later.last();
        lemma_put_other_key(put_all(put_entries(s, cap, k, from), cap, d), cap, e.0, e.1, k);
    }
}

/// Turns a client datagram into the plaintext of a tunnel datagram, and
/// records that replies for its destination go back to `from`.
///
/// The result is everything after the SOCKS5 prefix: the address header and
/// the data, ready to be encrypted for the chosen server.
pub fn handle_request(sessions: &mut SessionTable, message: &[u8], from: PeerAddr) -> (r: Result<Vec<u8>, DropReason>)
    requires
        old(sessions).wf(),
    ensures
        final(sessions).wf(),
        final(sessions).cap() == old(sessions).cap(),
        message@.len() < 3 ==> r == Err::<Vec<u8>, DropReason>(DropReason::TooShort),
        message@.len() >= 3 && message@[2] != 0 ==> r == Err::<Vec<u8>, DropReason>(DropReason::Fragmented),
        message@.len() >= 3 && message@[2] == 0 && request_key(message@) is None
            ==> r == Err::<Vec<u8>, DropReason>(DropReason::BadHeader),
        match request_key(message@) {
            Some(k) => {
                &&& r is Ok
                &&& r->Ok_0@ == message@.subrange(3, message@.len() as int)
                &&& final(sessions)@ == put_entries(old(sessions)@, old(sessions).cap(), k, from)
            },
            None => r is Err && final(sessions)@ == old(sessions)@,
        },
{
    if message.len() < SOCKS5_UDP_PREFIX_LEN {
        return Err(DropReason::TooShort);
    }
    // A relay that does not reassemble fragments drops every datagram whose
    // fragment number is not zero.
    if message[2] != 0 {
        return Err(DropReason::Fragmented);
    }
    let mut data: Vec<u8> = Vec::new();
    let mut i: usize = SOCKS5_UDP_PREFIX_LEN;
    while i < message.len()
        invariant
            3 <= i <= message.len(),
            data@ =~= message@.subrange(3, i as int),
        decreases message.len() - i,
    {
        data.push(message[i]);
        i = i + 1;
    }
    match parse_address_header(data.as_slice()) {
        Some((addr, _)) => {
            sessions.put(addr, from);
            Ok(data)
        },
        None => Err(DropReason::BadHeader),
    }
}

/// Turns the decrypted plaintext of a server reply into the SOCKS5 datagram
/// for the client that asked, and that client's address.
///
/// A reply whose destination has no association is dropped: there is no
/// client to deliver it to.
pub fn handle_response(sessions: &mut SessionTable, plain: &[u8]) -> (r: Result<(Vec<u8>, PeerAddr), DropReason>)
    requires
        old(sessions).wf(),
    ensures
        final(sessions).wf(),
        final(sessions).cap() == old(sessions).cap(),
        match response_key(plain@) {
            None => r == Err::<(Vec<u8>, PeerAddr), DropReason>(DropReason::BadHeader) && final(sessions)@ == old(sessions)@,
            Some(k) => match lookup(old(sessions)@, k) {
                None => {
                    &&& r == Err::<(Vec<u8>, PeerAddr), DropReason>(DropReason::UnknownSession)
                    &&& final(sessions)@ == old(sessions)@
                },
                Some(client) => {
                    &&& r is Ok
                    &&& r->Ok_0.0@ == seq![0u8, 0u8, 0u8] + plain@
                    &&& r->Ok_0.1 == client
                    &&& final(sessions)@ == touch_entries(old(sessions)@, k, client)
                },
            },
        },
{
    let addr = match parse_address_header(plain) {
        Some((addr, _)) => addr,
        None => return Err(DropReason::BadHeader),
    };
    let client = match sessions.get(&addr) {
        Some(c) => c,
        None => return Err(DropReason::UnknownSession),
    };
    let mut response: Vec<u8> = vec![0u8, 0u8, 0u8];
    let mut i: usize = 0;
    while i < plain.len()
        invariant
            i <= plain.len(),
            response@ =~= seq![0u8, 0u8, 0u8] + plain@.subrange(0, i as int),
        decreases plain.len() - i,
    {
        response.push(plain[i]);
        i = i + 1;
    }
    assert(plain@.subrange(0, plain@.len() as int) =~= plain@);
    Ok((response, client))
}

} // verus!
