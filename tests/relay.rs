use shadowsocks::address::{encode_address_header, parse_address_header, AddrKind, Address};
use shadowsocks::balancer::RoundRobin;
use shadowsocks::config::{Config, ServerConfig};
use shadowsocks::local::{handle_request, handle_response, ConfigError, Dispatch, Dispatcher, DropReason, UdpRelayLocal};
use shadowsocks::peer::PeerAddr;
use shadowsocks::session::SessionTable;

fn v4(a: u8, b: u8, c: u8, d: u8, port: u16) -> PeerAddr {
    PeerAddr::V4 { ip: u32::from_be_bytes([a, b, c, d]), port }
}

fn example_addr() -> Address {
    Address { kind: AddrKind::Ipv4, host: vec![93, 184, 216, 34], port: 80 }
}

fn domain(name: &str, port: u16) -> Address {
    Address { kind: AddrKind::Domain, host: name.as_bytes().to_vec(), port }
}

fn request_for(a: &Address, data: &[u8]) -> Vec<u8> {
    let mut m = vec![0u8, 0, 0];
    m.extend_from_slice(&encode_address_header(a));
    m.extend_from_slice(data);
    m
}

fn reply_for(a: &Address, data: &[u8]) -> Vec<u8> {
    let mut m = encode_address_header(a);
    m.extend_from_slice(data);
    m
}

fn assert_same(a: &Address, b: &Address) {
    assert_eq!(a.kind, b.kind);
    assert_eq!(a.host, b.host);
    assert_eq!(a.port, b.port);
}

#[test]
fn header_round_trip_ipv4() {
    let a = example_addr();
    let bytes = encode_address_header(&a);
    assert_eq!(bytes, vec![0x01, 93, 184, 216, 34, 0x00, 0x50]);
    let mut with_data = bytes.clone();
    with_data.extend_from_slice(b"GET");
    let (b, len) = parse_address_header(&with_data).unwrap();
    assert_same(&a, &b);
    assert_eq!(len, 7);
}

#[test]
fn header_round_trip_domain() {
    let a = domain("example.com", 443);
    let bytes = encode_address_header(&a);
    assert_eq!(bytes[0], 0x03);
    assert_eq!(bytes[1], 11);
    assert_eq!(&bytes[2..13], b"example.com");
    assert_eq!(&bytes[13..], &[0x01, 0xbb]);
    let (b, len) = parse_address_header(&bytes).unwrap();
    assert_same(&a, &b);
    assert_eq!(len, bytes.len());
}

#[test]
fn header_round_trip_ipv6() {
    let host: Vec<u8> = (1u8..=16).collect();
    let a = Address { kind: AddrKind::Ipv6, host, port: 0xffff };
    let bytes = encode_address_header(&a);
    assert_eq!(bytes.len(), 19);
    assert_eq!(bytes[0], 0x04);
    let mut with_data = bytes.clone();
    with_data.extend_from_slice(&[9, 9]);
    let (b, len) = parse_address_header(&with_data).unwrap();
    assert_same(&a, &b);
    assert_eq!(len, 19);
}

#[test]
fn header_rejects_unknown_type_and_truncation() {
    assert!(parse_address_header(&[]).is_none());
    assert!(parse_address_header(&[0x02, 1, 2, 3, 4, 0, 80]).is_none());
    assert!(parse_address_header(&[0x01, 1, 2, 3, 4, 0]).is_none());
    assert!(parse_address_header(&[0x03]).is_none());
    assert!(parse_address_header(&[0x03, 5, b'a', b'b', 0, 80]).is_none());
    assert!(parse_address_header(&[0x04, 0, 0, 0]).is_none());
}

#[test]
fn empty_domain_round_trip() {
    let a = domain("", 1);
    let bytes = encode_address_header(&a);
    assert_eq!(bytes, vec![0x03, 0, 0, 1]);
    let (b, len) = parse_address_header(&bytes).unwrap();
    assert_same(&a, &b);
    assert_eq!(len, 4);
}

#[test]
fn fragmented_datagram_is_dropped() {
    let mut t = SessionTable::new(8);
    let mut msg = request_for(&example_addr(), b"GET");
    msg[2] = 1;
    let r = handle_request(&mut t, &msg, v4(127, 0, 0, 1, 40000));
    assert_eq!(r, Err(DropReason::Fragmented));
    assert_eq!(t.len(), 0);
    assert_eq!(handle_response(&mut t, &reply_for(&example_addr(), b"x")), Err(DropReason::UnknownSession));
}

#[test]
fn short_and_malformed_requests_are_dropped() {
    let mut t = SessionTable::new(8);
    let from = v4(127, 0, 0, 1, 40000);
    assert_eq!(handle_request(&mut t, &[0, 0], from), Err(DropReason::TooShort));
    assert_eq!(handle_request(&mut t, &[0, 0, 0, 0x07, 1, 2], from), Err(DropReason::BadHeader));
    assert_eq!(handle_request(&mut t, &[0, 0, 0, 0x01, 1, 2], from), Err(DropReason::BadHeader));
    assert_eq!(t.len(), 0);
}

#[test]
fn request_scenario() {
    let mut t = SessionTable::new(8);
    let client = v4(127, 0, 0, 1, 40000);
    let msg = vec![0u8, 0, 0, 0x01, 93, 184, 216, 34, 0x00, 0x50, b'G', b'E', b'T'];
    let out = handle_request(&mut t, &msg, client).unwrap();
    assert_eq!(out, vec![0x01, 93, 184, 216, 34, 0x00, 0x50, b'G', b'E', b'T']);
    assert_eq!(t.len(), 1);
    assert_eq!(t.get(&example_addr()), Some(client));
}

#[test]
fn response_scenario() {
    let mut t = SessionTable::new(8);
    let client = v4(127, 0, 0, 1, 40000);
    let msg = vec![0u8, 0, 0, 0x01, 93, 184, 216, 34, 0x00, 0x50, b'G', b'E', b'T'];
    handle_request(&mut t, &msg, client).unwrap();
    let mut plain = vec![0x01u8, 93, 184, 216, 34, 0x00, 0x50];
    plain.extend_from_slice(b"HTTP/1.1 200 OK");
    let (out, to) = handle_response(&mut t, &plain).unwrap();
    let mut expected = vec![0u8, 0, 0, 0x01, 93, 184, 216, 34, 0x00, 0x50];
    expected.extend_from_slice(b"HTTP/1.1 200 OK");
    assert_eq!(out, expected);
    assert_eq!(to, client);
}

#[test]
fn reply_resolves_to_latest_client() {
    let mut t = SessionTable::new(8);
    let a = domain("example.org", 53);
    handle_request(&mut t, &request_for(&a, b"q1"), v4(10, 0, 0, 1, 1000)).unwrap();
    handle_request(&mut t, &request_for(&a, b"q2"), v4(10, 0, 0, 2, 2000)).unwrap();
    assert_eq!(t.len(), 1);
    let (_, to) = handle_response(&mut t, &reply_for(&a, b"r")).unwrap();
    assert_eq!(to, v4(10, 0, 0, 2, 2000));
}

#[test]
fn malformed_reply_is_dropped() {
    let mut t = SessionTable::new(2);
    assert_eq!(handle_response(&mut t, &[0x09, 1, 2, 3]), Err(DropReason::BadHeader));
    assert_eq!(handle_response(&mut t, &[]), Err(DropReason::BadHeader));
}

#[test]
fn unknown_destination_reply_is_dropped() {
    let mut t = SessionTable::new(4);
    handle_request(&mut t, &request_for(&example_addr(), b"GET"), v4(127, 0, 0, 1, 40000)).unwrap();
    let other = domain("never.example", 80);
    assert_eq!(handle_response(&mut t, &reply_for(&other, b"x")), Err(DropReason::UnknownSession));
    assert_eq!(t.len(), 1);
}

#[test]
fn lru_evicts_least_recently_used() {
    let cap = 3usize;
    let mut t = SessionTable::new(cap);
    let client = v4(127, 0, 0, 1, 5000);
    for p in 0..=cap as u16 {
        let a = Address { kind: AddrKind::Ipv4, host: vec![1, 1, 1, 1], port: p };
        handle_request(&mut t, &request_for(&a, b"d"), client).unwrap();
    }
    assert_eq!(t.len(), cap);
    let first = Address { kind: AddrKind::Ipv4, host: vec![1, 1, 1, 1], port: 0 };
    assert_eq!(handle_response(&mut t, &reply_for(&first, b"r")), Err(DropReason::UnknownSession));
    for p in 1..=cap as u16 {
        let a = Address { kind: AddrKind::Ipv4, host: vec![1, 1, 1, 1], port: p };
        assert!(handle_response(&mut t, &reply_for(&a, b"r")).is_ok());
    }
}

#[test]
fn lru_access_refreshes_entry() {
    let mut t = SessionTable::new(2);
    let c = v4(127, 0, 0, 1, 5000);
    let a = domain("a", 1);
    let b = domain("b", 2);
    let d = domain("d", 3);
    t.put(a.duplicate(), c);
    t.put(b.duplicate(), c);
    assert_eq!(t.get(&a), Some(c));
    t.put(d.duplicate(), c);
    assert_eq!(t.get(&b), None);
    assert_eq!(t.get(&a), Some(c));
    assert_eq!(t.get(&d), Some(c));
    assert_eq!(t.capacity(), 2);
}

#[test]
fn capacity_one_table() {
    let mut t = SessionTable::new(1);
    let a = domain("a", 1);
    let b = domain("b", 1);
    t.put(a.duplicate(), v4(1, 2, 3, 4, 5));
    t.put(b.duplicate(), v4(1, 2, 3, 4, 6));
    assert_eq!(t.len(), 1);
    assert_eq!(t.get(&a), None);
    assert_eq!(t.get(&b), Some(v4(1, 2, 3, 4, 6)));
}

#[test]
fn round_robin_cycles() {
    let mut rr = RoundRobin::new(3);
    let picks: Vec<usize> = (0..9).map(|_| rr.pick_server()).collect();
    assert_eq!(picks, vec![0, 1, 2, 0, 1, 2, 0, 1, 2]);
    for i in 0..3 {
        assert_eq!(picks.iter().filter(|&&p| p == i).count(), 3);
    }
}

#[test]
fn round_robin_single_server() {
    let mut rr = RoundRobin::new(1);
    assert_eq!(rr.pick_server(), 0);
    assert_eq!(rr.pick_server(), 0);
}

fn sample_config() -> Config {
    Config {
        local: Some(v4(127, 0, 0, 1, 1080)),
        servers: vec![
            ServerConfig { addr: v4(127, 0, 0, 1, 8388), method: "aes-256-cfb".to_string(), password: "pw".to_string() },
            ServerConfig { addr: v4(127, 0, 0, 1, 8389), method: "aes-256-cfb".to_string(), password: "pw".to_string() },
        ],
        session_capacity: 16,
    }
}

#[test]
fn dispatch_classifies_by_source() {
    let relay = UdpRelayLocal::new(sample_config());
    let mut d = relay.dispatcher().unwrap();
    let client = v4(127, 0, 0, 1, 40000);
    assert_eq!(d.dispatch(3, client), Dispatch::TooShort);
    assert_eq!(d.dispatch(10, client), Dispatch::Request(0));
    assert_eq!(d.dispatch(10, v4(127, 0, 0, 1, 8389)), Dispatch::Response(1));
    assert_eq!(d.dispatch(10, client), Dispatch::Request(1));
    assert_eq!(d.dispatch(4, client), Dispatch::Request(0));
    assert_eq!(d.dispatch(4, v4(127, 0, 0, 1, 8388)), Dispatch::Response(0));
}

#[test]
fn dispatcher_over_addresses() {
    let mut d = Dispatcher::new(vec![v4(10, 0, 0, 1, 1), v4(10, 0, 0, 1, 1)]);
    assert_eq!(d.dispatch(8, v4(10, 0, 0, 1, 1)), Dispatch::Response(1));
}

#[test]
fn relay_configuration() {
    let relay = UdpRelayLocal::new(sample_config());
    assert_eq!(relay.local_addr(), Ok(v4(127, 0, 0, 1, 1080)));
    assert_eq!(relay.config().servers.len(), 2);
    let t = relay.session_table().unwrap();
    assert_eq!(t.capacity(), 16);
    assert_eq!(t.len(), 0);

    let mut bad = sample_config();
    bad.local = None;
    bad.servers.clear();
    bad.session_capacity = 0;
    let relay = UdpRelayLocal::new(bad);
    assert_eq!(relay.local_addr(), Err(ConfigError::NoLocalAddress));
    assert!(matches!(relay.dispatcher(), Err(ConfigError::NoServer)));
    assert!(matches!(relay.session_table(), Err(ConfigError::ZeroCapacity)));
}

#[test]
fn address_comparison() {
    let a = example_addr();
    assert!(a.same_as(&a.duplicate()));
    let b = Address { kind: AddrKind::Ipv4, host: vec![93, 184, 216, 35], port: 80 };
    assert!(!a.same_as(&b));
    let c = Address { kind: AddrKind::Domain, host: vec![93, 184, 216, 34], port: 80 };
    assert!(!a.same_as(&c));
}
