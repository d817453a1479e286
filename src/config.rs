use vstd::prelude::*;
use crate::peer::PeerAddr;

verus! {

/// One upstream tunnel endpoint.
#[derive(Clone, Debug)]
pub struct ServerConfig {
    pub addr: PeerAddr,
    pub method: String,
    pub password: String,
}

/// What the relay is started with.
#[derive(Clone, Debug)]
pub struct Config {
    /// Where the relay's socket is bound.
    pub local: Option<PeerAddr>,
    /// The upstream servers, in the order the balancer walks them.
    pub servers: Vec<ServerConfig>,
    /// The most associations the session table holds.
    pub session_capacity: usize,
}

/// The transport addresses of `servers`, in order.
pub open spec fn server_addrs(servers: Seq<ServerConfig>) -> Seq<PeerAddr> {
    servers.map_values(|s: ServerConfig| s.addr)
}

} // verus!
