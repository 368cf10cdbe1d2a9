//! Tunnels over TCP: what to do with what the sockets report.
//!
//! Addresses are text: URLs as `tcp://host:port`, and socket addresses as `host:port`.
use vstd::prelude::*;

verus! {

/// The size of the read buffer of a tunnel, in bytes.
pub const TCP_MTU_BYTES: usize = 2000;

/// The versions of the internet protocol that a name may be resolved to.
#[derive(Clone, Copy, Debug, PartialEq, Eq, Structural)]
pub enum IpVersion {
    V4,
    V6,
    Both,
}

/// The ends of a tunnel.
#[derive(Clone, Debug)]
pub struct TunnelInfo {
    pub tunnel_type: String,
    pub local_addr: Option<String>,
    pub remote_addr: Option<String>,
}

impl TunnelInfo {
    /// A TCP tunnel between two addresses.
    pub open spec fn joins(self, local: Seq<char>, remote: Seq<char>) -> bool {
        &&& self.tunnel_type@ == "tcp"@
        &&& self.local_addr matches Some(l) && l@ == local
        &&& self.remote_addr matches Some(r) && r@ == remote
    }
}

/// What is measured of a tunnel.
#[derive(Clone, Copy, Debug, PartialEq, Eq, Structural)]
pub struct TunnelMetrics {
    /// The bytes sent and not yet acknowledged, where the system tells.
    pub inflight_bytes: Option<u64>,
}

/// The text of a URL with its port set, if the URL can have one.
pub uninterp spec fn url_with_port(url: Seq<char>, port: u16) -> Option<Seq<char>>;

/// The port that a URL names.
pub uninterp spec fn url_port(url: Seq<char>) -> Option<u16>;

/// The longest TCP URL that is dealt with, in characters. None of them takes more than twelve
/// bytes when the URL is written out.
pub const MAX_TCP_URL_CHARS: usize = 0x1000_0000;

/// The longest URL of another scheme that is dealt with, in characters. Host names of such
/// schemes are translated and may take more bytes.
pub const MAX_URL_CHARS: usize = 0x100_0000;

/// The longest text that a port is read from, in characters: the crate counts those before the
/// host in 31 bits.
pub const MAX_READ_URL_CHARS: usize = 0x7fff_ffff;

/// The text starts as that of a TCP URL does.
pub open spec fn is_tcp(url: Seq<char>) -> bool {
    url.len() >= 4 && url[0] == 't' && url[1] == 'c' && url[2] == 'p' && url[3] == ':'
}

/// The text is not too long for a URL.
pub open spec fn writable(url: Seq<char>) -> bool {
    url.len() <= if is_tcp(url) {
        MAX_TCP_URL_CHARS
    } else {
        MAX_URL_CHARS
    }
}

/// The contents of an optional text.
pub open spec fn text_of(s: Option<String>) -> Option<Seq<char>> {
    match s {
        Some(t) => Some(t@),
        None => None,
    }
}

/// Calls `url::Url::set_port` on the URL that a text stands for. The result depends on the
/// text and the port alone; the grammar of URLs is left to the crate. There is none if the
/// text is no URL, or one that cannot have a port. The scheme `tcp` has no default port, so
/// the new text names the port that was set. A text so long that the positions in it do not
/// fit in 32 bits is left out.
#[verifier::external_body]
fn set_url_port(url: &str, port: u16) -> (r: Option<String>)
    requires
        writable(url@),
    ensures
        text_of(r) == url_with_port(url@, port),
        r matches Some(text) ==> (is_tcp(url@) ==> url_port(text@) == Some(port)),
{
    match url::Url::parse(url) {
        Ok(mut parsed) => match parsed.set_port(Some(port)) {
            Ok(()) => Some(parsed.into()),
            Err(()) => None,
        },
        Err(_) => None,
    }
}

/// Calls `url::Url::port` on the URL that a text stands for. The result depends on the text
/// alone; a text that is no URL names no port. A text with more characters than the crate can
/// count is left out.
#[verifier::external_body]
fn read_url_port(url: &str) -> (r: Option<u16>)
    requires
        url@.len() <= MAX_READ_URL_CHARS,
    ensures
        r == url_port(url@),
{
    match url::Url::parse(url) {
        Ok(parsed) => parsed.port(),
        Err(_) => None,
    }
}

/// How accepting a connection failed.
#[derive(Clone, Copy, Debug, PartialEq, Eq, Structural)]
pub enum AcceptError {
    NotConnected,
    ConnectionAborted,
    ConnectionRefused,
    ConnectionReset,
    Other,
}

/// What to do after trying to accept a connection.
#[derive(Clone, Copy, Debug, PartialEq, Eq, Structural)]
pub enum AcceptStep {
    /// Hand the tunnel out.
    Done,
    /// Try again.
    Retry,
    /// Hand the error out.
    Fail,
}

/// A listener for tunnels.
#[derive(Debug)]
pub struct TcpTunnelListener {
    addr: String,
    listening: bool,
}

/// What a listener knows.
pub struct Listener {
    /// The URL it listens on.
    pub addr: Seq<char>,
    pub listening: bool,
}

impl View for TcpTunnelListener {
    type V = Listener;

    closed spec fn view(&self) -> Listener {
        Listener { addr: self.addr@, listening: self.listening }
    }
}

impl TcpTunnelListener {
    /// A listener for a URL, which does not listen yet.
    pub fn new(addr: String) -> (r: TcpTunnelListener)
        ensures
            r@ == (Listener { addr: addr@, listening: false }),
    {
        TcpTunnelListener { addr, listening: false }
    }

    /// Notes that the listener is to be set up anew.
    pub fn begin_listen(&mut self)
        ensures
            final(self)@ == (Listener { listening: false, ..old(self)@ }),
    {
        self.listening = false;
    }

    /// Notes the port that the socket was bound to, and tells whether the URL can have one. The
    /// URL of a TCP listener names that port from then on.
    pub fn bound_to(&mut self, port: u16) -> (r: bool)
        requires
            writable(old(self)@.addr),
        ensures
            r && is_tcp(old(self)@.addr) ==> url_port(final(self)@.addr) == Some(port),
            r == (url_with_port(old(self)@.addr, port) is Some),
            final(self)@ == (Listener {
                addr: match url_with_port(old(self)@.addr, port) {
                    Some(url) => url,
                    None => old(self)@.addr,
                },
                ..old(self)@
            }),
    {
        match set_url_port(self.addr.as_str(), port) {
            Some(url) => {
                self.addr = url;
                true
            },
            None => false,
        }
    }

    /// Notes that the socket listens.
    pub fn end_listen(&mut self)
        ensures
            final(self)@ == (Listener { listening: true, ..old(self)@ }),
    {
        self.listening = true;
    }

    /// Whether the socket listens.
    pub fn is_listening(&self) -> (r: bool)
        ensures
            r == self@.listening,
    {
        self.listening
    }

    /// The URL that the listener listens on.
    pub fn local_url(&self) -> (r: String)
        ensures
            r@ == self@.addr,
    {
        self.addr.clone()
    }

    /// The port that the URL names; none if the URL is too long to be read.
    pub fn local_port(&self) -> (r: Option<u16>)
        ensures
            r == if self@.addr.len() <= MAX_READ_URL_CHARS {
                url_port(self@.addr)
            } else {
                None
            },
    {
        let url = self.addr.as_str();
        if url.unicode_len() <= MAX_READ_URL_CHARS {
            read_url_port(url)
        } else {
            None
        }
    }

    /// The ends of a tunnel accepted from a remote URL.
    pub fn accepted(&self, remote_url: String) -> (r: TunnelInfo)
        ensures
            r.joins(self@.addr, remote_url@),
    {
        TunnelInfo {
            tunnel_type: "tcp".to_string(),
            local_addr: Some(self.local_url()),
            remote_addr: Some(remote_url),
        }
    }

    /// What to do after trying to accept a connection: errors of a single connection are no
    /// reason to stop.
    pub fn accept_step(&self, result: Result<(), AcceptError>) -> (r: AcceptStep)
        ensures
            r == match result {
                Ok(()) => AcceptStep::Done,
                Err(AcceptError::Other) => AcceptStep::Fail,
                Err(_) => AcceptStep::Retry,
            },
    {
        match result {
            Ok(()) => AcceptStep::Done,
            Err(AcceptError::NotConnected) => AcceptStep::Retry,
            Err(AcceptError::ConnectionAborted) => AcceptStep::Retry,
            Err(AcceptError::ConnectionRefused) => AcceptStep::Retry,
            Err(AcceptError::ConnectionReset) => AcceptStep::Retry,
            Err(AcceptError::Other) => AcceptStep::Fail,
        }
    }
}

/// What came of preparing a socket bound to an address.
#[derive(Clone, Copy, Debug, PartialEq, Eq, Structural)]
pub enum BindOutcome {
    /// The system gave no socket.
    NoSocket,
    /// The socket could not be bound to the address.
    NotBound,
    Bound,
}

/// The addresses that were bound, by their places.
pub open spec fn bound_places(outcomes: Seq<BindOutcome>) -> Seq<usize>
    decreases outcomes.len(),
{
    if outcomes.len() == 0 {
        seq![]
    } else if outcomes.last() == BindOutcome::Bound {
        bound_places(outcomes.drop_last()).push((outcomes.len() - 1) as usize)
    } else {
        bound_places(outcomes.drop_last())
    }
}

/// The addresses to connect from, by their places: all that could be bound. Without a socket
/// for one of them there is no connection at all.
pub fn connect_from(outcomes: &Vec<BindOutcome>) -> (r: Option<Vec<usize>>)
    ensures
        r is None <==> outcomes@.contains(BindOutcome::NoSocket),
        r matches Some(places) ==> places@ == bound_places(outcomes@),
{
    let mut places: Vec<usize> = Vec::new();
    let mut i: usize = 0;
    assert(outcomes@.take(0) =~= seq![]);
    while i < outcomes.len()
        invariant
            i <= outcomes.len(),
            places@ == bound_places(outcomes@.take(i as int)),
            forall|j: int| 0 <= j < i ==> #[trigger] outcomes@[j] != BindOutcome::NoSocket,
        decreases outcomes.len() - i,
    {
        proof {
            assert(outcomes@.take(i + 1).drop_last() =~= outcomes@.take(i as int));
        }
        match outcomes[i] {
            BindOutcome::NoSocket => {
                assert(outcomes@[i as int] == BindOutcome::NoSocket);
                return None;
            },
            BindOutcome::NotBound => {},
            BindOutcome::Bound => {
                places.push(i);
            },
        }
        i = i + 1;
    }
    assert(outcomes@.take(i as int) =~= outcomes@);
    Some(places)
}

/// A connector of tunnels.
#[derive(Debug)]
pub struct TcpTunnelConnector {
    addr: String,
    bind_addrs: Vec<String>,
    ip_version: IpVersion,
}

/// What a connector knows.
pub struct Connector {
    /// The URL it connects to.
    pub addr: Seq<char>,
    /// The addresses it connects from.
    pub bind_addrs: Seq<String>,
    pub ip_version: IpVersion,
}

impl View for TcpTunnelConnector {
    type V = Connector;

    closed spec fn view(&self) -> Connector {
        Connector {
            addr: self.addr@,
            bind_addrs: self.bind_addrs@,
            ip_version: self.ip_version,
        }
    }
}

impl TcpTunnelConnector {
    /// A connector to a URL, from any address and over any version of the protocol.
    pub fn new(addr: String) -> (r: TcpTunnelConnector)
        ensures
            r@ == (Connector { addr: addr@, bind_addrs: seq![], ip_version: IpVersion::Both }),
    {
        TcpTunnelConnector { addr, bind_addrs: Vec::new(), ip_version: IpVersion::Both }
    }

    /// Whether to connect from an address that the system chooses: no address was set.
    pub fn default_bind(&self) -> (r: bool)
        ensures
            r == (self@.bind_addrs.len() == 0),
    {
        self.bind_addrs.len() == 0
    }

    /// The addresses to connect from.
    pub fn bind_addrs(&self) -> (r: &Vec<String>)
        ensures
            r@ == self@.bind_addrs,
    {
        &self.bind_addrs
    }

    /// The versions of the protocol to connect over.
    pub fn ip_version(&self) -> (r: IpVersion)
        ensures
            r == self@.ip_version,
    {
        self.ip_version
    }

    /// The URL that the connector connects to.
    pub fn remote_url(&self) -> (r: String)
        ensures
            r@ == self@.addr,
    {
        self.addr.clone()
    }

    /// Sets the addresses to connect from.
    pub fn set_bind_addrs(&mut self, addrs: Vec<String>)
        ensures
            final(self)@ == (Connector { bind_addrs: addrs@, ..old(self)@ }),
    {
        self.bind_addrs = addrs;
    }

    /// Sets the version of the protocol.
    pub fn set_ip_version(&mut self, ip_version: IpVersion)
        ensures
            final(self)@ == (Connector { ip_version, ..old(self)@ }),
    {
        self.ip_version = ip_version;
    }

    /// The ends of a tunnel connected from a local URL.
    pub fn connected(&self, local_url: String) -> (r: TunnelInfo)
        ensures
            r.joins(local_url@, self@.addr),
    {
        TunnelInfo {
            tunnel_type: "tcp".to_string(),
            local_addr: Some(local_url),
            remote_addr: Some(self.remote_url()),
        }
    }
}

/// The bytes in the send queue of a socket, from what the system call gave: its return value
/// and the number it filled in, taken as unsigned.
pub open spec fn queued(ret: i32, bytes: i32) -> Option<u64> {
    if ret != 0 {
        None
    } else if bytes >= 0 {
        Some(bytes as u64)
    } else {
        Some((bytes + 0x1_0000_0000_0000_0000) as u64)
    }
}

/// The bytes in the send queue of a socket, from what the system call gave.
pub fn inflight_bytes(ret: i32, bytes: i32) -> (r: Option<u64>)
    ensures
        r == queued(ret, bytes),
{
    if ret == 0 {
        let n: u64 = if bytes >= 0 {
            bytes as u64
        } else {
            u64::MAX - ((-1 - bytes) as u64)
        };
        Some(n)
    } else {
        None
    }
}

/// The metrics of a tunnel, from what the system call gave.
pub fn metrics(ret: i32, bytes: i32) -> (r: Option<TunnelMetrics>)
    ensures
        r == Some(TunnelMetrics { inflight_bytes: queued(ret, bytes) }),
{
    Some(TunnelMetrics { inflight_bytes: inflight_bytes(ret, bytes) })
}

/// A connection is made from every address that was bound, each once, in their order, and from
/// no other.
pub proof fn law_connections_come_from_every_bound_address(outcomes: Seq<BindOutcome>)
    requires
        outcomes.len() <= usize::MAX,
    ensures
        forall|k: int|
            0 <= k < outcomes.len() ==> (#[trigger] outcomes[k] == BindOutcome::Bound
                <==> bound_places(outcomes).contains(k as usize)),
        forall|i: int|
            0 <= i < bound_places(outcomes).len() ==> (#[trigger] bound_places(outcomes)[i])
                < outcomes.len(),
        forall|i: int, j: int|
            0 <= i < j < bound_places(outcomes).len() ==> (#[trigger] bound_places(outcomes)[i]) < (
            #[trigger] bound_places(outcomes)[j]),
    decreases outcomes.len(),
{
    if outcomes.len() > 0 {
        let front = outcomes.drop_last();
        law_connections_come_from_every_bound_address(front);
        let (a, b) = (bound_places(front), bound_places(outcomes));
        let last = outcomes.len() - 1;
        if outcomes.last() == BindOutcome::Bound {
            assert(b[a.len() as int] == last);
        }
        assert forall|k: int| 0 <= k < outcomes.len() implies (#[trigger] outcomes[k]
            == BindOutcome::Bound <==> b.contains(k as usize)) by {
            if k < last {
                assert(front[k] == outcomes[k]);
                if a.contains(k as usize) {
                    let m = choose|m: int| 0 <= m < a.len() && a[m] == k as usize;
                    assert(b[m] == k as usize);
                }
                if b.contains(k as usize) {
                    let m = choose|m: int| 0 <= m < b.len() && b[m] == k as usize;
                    assert(a[m] == k as usize);
                }
            } else if b.contains(k as usize) && outcomes.last() != BindOutcome::Bound {
                let m = choose|m: int| 0 <= m < a.len() && a[m] == k as usize;
                assert(a[m] < front.len());
            }
        }
    }
}

/// A failed call tells nothing; of one that succeeds, the number that it filled in counts, modulo
/// 2^64.
pub proof fn law_queued_bytes_are_what_the_call_gave(ret: i32, bytes: i32)
    ensures
        queued(ret, bytes) is None <==> ret != 0,
        queued(ret, bytes) matches Some(n) ==> (n - bytes) % 0x1_0000_0000_0000_0000 == 0,
{
}

} // verus!
