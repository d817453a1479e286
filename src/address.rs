use vstd::prelude::*;

verus! {

/// The address type byte of an address header.
#[derive(Clone, Copy, Debug, PartialEq, Eq, Structural, Hash)]
pub enum AddrKind {
    Ipv4,
    Domain,
    Ipv6,
}

/// A destination as an address header carries it: its type, the address
/// bytes (4 for IPv4, the name for a domain, 16 for IPv6) and the port.
#[derive(Debug)]
pub struct Address {
    pub kind: AddrKind,
    pub host: Vec<u8>,
    pub port: u16,
}

/// The mathematical value of an [`Address`].
pub struct AddressView {
    pub kind: AddrKind,
    pub host: Seq<u8>,
    pub port: u16,
}

impl View for Address {
    type V = AddressView;

    open spec fn view(&self) -> AddressView {
        AddressView { kind: self.kind, host: self.host@, port: self.port }
    }
}

pub const ATYP_IPV4: u8 = 0x01;
pub const ATYP_DOMAIN: u8 = 0x03;
pub const ATYP_IPV6: u8 = 0x04;

pub open spec fn kind_byte(k: AddrKind) -> u8 {
    match k {
        AddrKind::Ipv4 => ATYP_IPV4,
        AddrKind::Domain => ATYP_DOMAIN,
        AddrKind::Ipv6 => ATYP_IPV6,
    }
}

/// An address that an address header can carry.
pub open spec fn address_wf(a: AddressView) -> bool {
    match a.kind {
        AddrKind::Ipv4 => a.host.len() == 4,
        AddrKind::Domain => a.host.len() <= 255,
        AddrKind::Ipv6 => a.host.len() == 16,
    }
}

/// The two big-endian bytes of a port.
pub open spec fn port_bytes(p: u16) -> Seq<u8> {
    seq![(p / 256) as u8, (p % 256) as u8]
}

pub open spec fn port_of(hi: u8, lo: u8) -> u16 {
    (hi as int * 256 + lo as int) as u16
}

/// The header that carries `a`: the type byte, a length byte for a domain
/// name, the address bytes, then the port.
pub open spec fn encode_header(a: AddressView) -> Seq<u8> {
    let len_byte = if a.kind == AddrKind::Domain {
        seq![a.host.len() as u8]
    } else {
        Seq::<u8>::empty()
    };
    seq![kind_byte(a.kind)] + len_byte + a.host + port_bytes(a.port)
}

/// A header of the given kind whose `n` address bytes begin at `start`,
/// followed by the two port bytes.
pub open spec fn fixed_header(b: Seq<u8>, kind: AddrKind, start: int, n: int) -> Option<(AddressView, nat)> {
    if b.len() >= start + n + 2 {
        Some((
            AddressView {
                kind,
                host: b.subrange(start, start + n),
                port: port_of(b[start + n], b[start + n + 1]),
            },
            (start + n + 2) as nat,
        ))
    } else {
        None
    }
}

/// What the address header at the start of `b` holds, and its length in
/// bytes; `None` where `b` does not start with a complete header of a known
/// type.
pub open spec fn parse_header(b: Seq<u8>) -> Option<(AddressView, nat)> {
    if b.len() == 0 {
        None
    } else if b[0] == ATYP_IPV4 {
        fixed_header(b, AddrKind::Ipv4, 1, 4)
    } else if b[0] == ATYP_IPV6 {
        fixed_header(b, AddrKind::Ipv6, 1, 16)
    } else if b[0] == ATYP_DOMAIN && b.len() >= 2 {
        fixed_header(b, AddrKind::Domain, 2, b[1] as int)
    } else {
        None
    }
}

/// Decoding an encoded header gives back the address, and the length it
/// reports is the length of the encoding, whatever follows it.
pub proof fn lemma_header_round_trip(a: AddressView, rest: Seq<u8>)
    requires
        address_wf(a),
    ensures
        parse_header(encode_header(a) + rest) == Some((a, encode_header(a).len())),
{
    let e = encode_header(a);
    let b = e + rest;
    let p = a.port;
    assert(port_of((p / 256) as u8, (p % 256) as u8) == p);
    let start: int = if a.kind == AddrKind::Domain { 2 } else { 1 };
    let n = a.host.len() as int;
    assert(e.len() == start + n + 2);
    assert(b.subrange(start, start + n) =~= a.host);
    assert(b[start + n] == (p / 256) as u8);
    assert(b[start + n + 1] == (p % 256) as u8);
    if a.kind == AddrKind::Domain {
        assert(b[1] == n as u8);
    }
}

impl Address {
    /// A second address with the same value.
    pub fn duplicate(&self) -> (r: Address)
        ensures
            r@ == self@,
    {
        let mut host: Vec<u8> = Vec::new();
        let mut i: usize = 0;
        while i < self.host.len()
            invariant
                i <= self.host.len(),
                host@ =~= self.host@.subrange(0, i as int),
            decreases self.host.len() - i,
        {
            host.push(self.host[i]);
            i = i + 1;
        }
        assert(host@ =~= self.host@);
        Address { kind: self.kind, host, port: self.port }
    }

    /// Whether two addresses have the same value.
    pub fn same_as(&self, other: &Address) -> (r: bool)
        ensures
            r == (self@ == other@),
    {
        if self.kind != other.kind || self.port != other.port || self.host.len() != other.host.len() {
            if self.host.len() != other.host.len() {
                assert(self@.host.len() != other@.host.len());
            }
            return false;
        }
        let mut i: usize = 0;
        while i < self.host.len()
            invariant
                i <= self.host.len(),
                self.host.len() == other.host.len(),
                forall|j: int| 0 <= j < i ==> self.host@[j] == other.host@[j],
            decreases self.host.len() - i,
        {
            if self.host[i] != other.host[i] {
                assert(self@.host[i as int] != other@.host[i as int]);
                return false;
            }
            i = i + 1;
        }
        assert(self.host@ =~= other.host@);
        true
    }
}

/// Reads the address header at the start of `buf`: the address and the
/// number of bytes the header takes.
pub fn parse_address_header(buf: &[u8]) -> (r: Option<(Address, usize)>)
    ensures
        match (r, parse_header(buf@)) {
            (Some((a, len)), Some((v, n))) => a@ == v && len == n,
            (None, None) => true,
            _ => false,
        },
{
    if buf.len() == 0 {
        return None;
    }
    let tag = buf[0];
    if tag == ATYP_IPV4 {
        read_fixed(buf, AddrKind::Ipv4, 1, 4)
    } else if tag == ATYP_IPV6 {
        read_fixed(buf, AddrKind::Ipv6, 1, 16)
    } else if tag == ATYP_DOMAIN && buf.len() >= 2 {
        read_fixed(buf, AddrKind::Domain, 2, buf[1] as usize)
    } else {
        None
    }
}

fn read_fixed(buf: &[u8], kind: AddrKind, start: usize, n: usize) -> (r: Option<(Address, usize)>)
    requires
        start <= 2,
        n <= 255,
    ensures
        match (r, fixed_header(buf@, kind, start as int, n as int)) {
            (Some((a, len)), Some((v, m))) => a@ == v && len == m,
            (None, None) => true,
            _ => false,
        },
{
    if buf.len() < start + n + 2 {
        return None;
    }
    let mut host: Vec<u8> = Vec::new();
    let mut i: usize = start;
    while i < start + n
        invariant
            start <= i <= start + n,
            start + n + 2 <= buf.len(),
            host@ =~= buf@.subrange(start as int, i as int),
        decreases start + n - i,
    {
        host.push(buf[i]);
        i = i + 1;
    }
    let hi = buf[start + n];
    let lo = buf[start + n + 1];
    let port: u16 = (hi as u16) * 256 + lo as u16;
    Some((Address { kind, host, port }, start + n + 2))
}

/// Writes the address header that carries `a`.
pub fn encode_address_header(a: &Address) -> (r: Vec<u8>)
    requires
        address_wf(a@),
    ensures
        r@ == encode_header(a@),
{
    let mut out: Vec<u8> = Vec::new();
    let tag: u8 = match a.kind {
        AddrKind::Ipv4 => ATYP_IPV4,
        AddrKind::Domain => ATYP_DOMAIN,
        AddrKind::Ipv6 => ATYP_IPV6,
    };
    out.push(tag);
    if a.kind == AddrKind::Domain {
        out.push(a.host.len() as u8);
    }
    let prefix = Ghost(out@);
    let mut i: usize = 0;
    while i < a.host.len()
        invariant
            i <= a.host.len(),
            out@ =~= prefix@ + a.host@.subrange(0, i as int),
        decreases a.host.len() - i,
    {
        out.push(a.host[i]);
        i = i + 1;
    }
    out.push((a.port / 256) as u8);
    out.push((a.port % 256) as u8);
    assert(out@ =~= encode_header(a@));
    out
}

} // verus!
