//! The local half of a UDP relay that carries SOCKS5 UDP ASSOCIATE
//! datagrams through an encrypted tunnel.
//!
//! The library holds the relay's decisions: the address header codec, the
//! session table, the round-robin server choice, and the two conversions
//! between the SOCKS5 envelope and the tunnel's plaintext form. Sockets and
//! ciphers stay with the caller.

pub mod address;
pub mod balancer;
pub mod config;
pub mod local;
pub mod peer;
pub mod session;
