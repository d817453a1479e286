use vstd::prelude::*;

verus! {

/// A transport address: an IP address and a UDP port.
#[derive(Clone, Copy, Debug, PartialEq, Eq, Structural, Hash)]
pub enum PeerAddr {
    V4 { ip: u32, port: u16 },
    V6 { ip6: u128, port: u16 },
}

} // verus!
