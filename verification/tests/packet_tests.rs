use tls_validator::checksum::compute_checksum;
use tls_validator::ip::{build_ipv4_packet, build_ipv6_packet, parse_ip};
use tls_validator::packet::{
    generate_return_rst, parse_tcp, set_tcp_checksum, tcp_to_bytes, IpAddress, TcpFlow,
    TcpSegment, TCP_FLAG_RST, TCP_FLAG_SYN,
};

fn segment(sport: u16, dport: u16, seq: u32, flags: u16, payload: &[u8]) -> TcpSegment {
    TcpSegment {
        source_port: sport,
        dest_port: dport,
        sequence: seq,
        acknowledgement: 0,
        data_offset: 5,
        flags,
        window: 64240,
        checksum: 0,
        urgent_pointer: 0,
        options: Vec::new(),
        payload: payload.to_vec(),
    }
}

#[test]
fn checksum_known_value() {
    // classic example: sum of these four words is 0x2ddf2, which folds to
    // 0xddf2; the checksum is its complement
    let data = [0x00u8, 0x01, 0xf2, 0x03, 0xf4, 0xf5, 0xf6, 0xf7];
    assert_eq!(compute_checksum(&data), !0xddf2u16);
}

#[test]
fn checksum_odd_length_pads_zero() {
    assert_eq!(compute_checksum(&[0xab]), !0xab00u16);
}

#[test]
fn tcp_checksum_verifies_over_pseudo_header() {
    let mut seg = segment(1234, 443, 77, TCP_FLAG_SYN, b"payload!");
    let src = IpAddress::V4(0x0a000005);
    let dst = IpAddress::V4(0x5db8d822);
    set_tcp_checksum(&mut seg, src, dst);
    assert_ne!(seg.checksum, 0);

    // a receiver sums pseudo-header plus segment and expects the complement
    // of 0xffff, i.e. a computed checksum of zero
    let bytes = tcp_to_bytes(&seg);
    let mut whole = Vec::new();
    whole.extend_from_slice(&0x0a000005u32.to_be_bytes());
    whole.extend_from_slice(&0x5db8d822u32.to_be_bytes());
    whole.push(0);
    whole.push(6);
    whole.extend_from_slice(&(bytes.len() as u16).to_be_bytes());
    whole.extend_from_slice(&bytes);
    assert_eq!(compute_checksum(&whole), 0);
}

#[test]
fn tcp_checksum_verifies_for_ipv6_pair() {
    let mut seg = segment(52000, 443, 9, TCP_FLAG_RST, b"");
    let src = IpAddress::V6(0x2001_0db8_0000_0000_0000_0000_0000_0001);
    let dst = IpAddress::V6(0xfe80_0000_0000_0000_0000_0000_0000_0009);
    set_tcp_checksum(&mut seg, src, dst);
    let bytes = tcp_to_bytes(&seg);
    let mut whole = Vec::new();
    whole.extend_from_slice(&0x2001_0db8_0000_0000_0000_0000_0000_0001u128.to_be_bytes());
    whole.extend_from_slice(&0xfe80_0000_0000_0000_0000_0000_0000_0009u128.to_be_bytes());
    whole.extend_from_slice(&(bytes.len() as u32).to_be_bytes());
    whole.extend_from_slice(&[0, 0, 0, 6]);
    whole.extend_from_slice(&bytes);
    assert_eq!(compute_checksum(&whole), 0);
}

#[test]
fn mixed_families_leave_segment_unchanged() {
    let mut seg = segment(1, 2, 3, TCP_FLAG_RST, b"");
    set_tcp_checksum(&mut seg, IpAddress::V4(1), IpAddress::V6(2));
    assert_eq!(seg.checksum, 0);
}

#[test]
fn tcp_serialize_parse_round_trip() {
    let mut seg = segment(4000, 443, 0xdeadbeef, 0x018, b"hello tcp");
    seg.acknowledgement = 0x01020304;
    seg.window = 1024;
    seg.urgent_pointer = 7;
    let bytes = tcp_to_bytes(&seg);
    assert_eq!(bytes.len(), 20 + 9);
    let parsed = parse_tcp(&bytes).unwrap();
    assert_eq!(parsed.source_port, 4000);
    assert_eq!(parsed.dest_port, 443);
    assert_eq!(parsed.sequence, 0xdeadbeef);
    assert_eq!(parsed.acknowledgement, 0x01020304);
    assert_eq!(parsed.data_offset, 5);
    assert_eq!(parsed.flags, 0x018);
    assert_eq!(parsed.window, 1024);
    assert_eq!(parsed.urgent_pointer, 7);
    assert_eq!(parsed.payload, b"hello tcp");
}

#[test]
fn return_rst_fields() {
    let seg = segment(50123, 443, 1000, TCP_FLAG_SYN, b"x");
    let rst = generate_return_rst(&seg, 777);
    assert_eq!(rst.source_port, 443);
    assert_eq!(rst.dest_port, 50123);
    assert_eq!(rst.sequence, 777);
    assert_eq!(rst.acknowledgement, 0);
    assert_eq!(rst.data_offset, 5);
    assert_eq!(rst.flags, TCP_FLAG_RST);
    assert!(rst.payload.is_empty());
}

#[test]
fn ipv4_build_and_reparse() {
    let seg = segment(443, 50123, 5000, TCP_FLAG_RST, b"");
    let tcp = tcp_to_bytes(&seg);
    let raw = build_ipv4_packet(0x0a000005, 0xc0a80101, &tcp);
    assert_eq!(raw.len(), 20 + tcp.len());
    assert_eq!(raw[0], 0x45);
    assert_eq!(raw[8], 64); // TTL
    assert_eq!(raw[9], 6); // TCP
    // the IPv4 header checksum itself verifies
    assert_eq!(compute_checksum(&raw[..20]), 0);

    let parsed = parse_ip(&raw).unwrap();
    assert_eq!(parsed.ttl, 64);
    assert_eq!(parsed.protocol, 6);
    assert_eq!(parsed.source, IpAddress::V4(0x0a000005));
    assert_eq!(parsed.dest, IpAddress::V4(0xc0a80101));
    assert_eq!(parsed.payload, tcp);
}

#[test]
fn ipv6_build_and_reparse() {
    let seg = segment(443, 50123, 5000, TCP_FLAG_RST, b"");
    let tcp = tcp_to_bytes(&seg);
    let src = 0x2001_0db8_0000_0000_0000_0000_0000_0001u128;
    let dst = 0xfe80_0000_0000_0000_0000_0000_0000_0009u128;
    let raw = build_ipv6_packet(src, dst, &tcp);
    assert_eq!(raw.len(), 40 + tcp.len());
    assert_eq!(raw[0], 0x60);
    assert_eq!(raw[6], 6); // next header TCP
    assert_eq!(raw[7], 64); // hop limit

    let parsed = parse_ip(&raw).unwrap();
    assert_eq!(parsed.ttl, 64);
    assert_eq!(parsed.protocol, 6);
    assert_eq!(parsed.source, IpAddress::V6(src));
    assert_eq!(parsed.dest, IpAddress::V6(dst));
    assert_eq!(parsed.payload, tcp);
}

#[test]
fn flow_reverse_swaps_endpoints() {
    let f = TcpFlow {
        source_ip: IpAddress::V4(1),
        dest_ip: IpAddress::V4(2),
        source_port: 10,
        dest_port: 20,
    };
    let r = f.reverse();
    assert_eq!(r.source_ip, IpAddress::V4(2));
    assert_eq!(r.dest_ip, IpAddress::V4(1));
    assert_eq!(r.source_port, 20);
    assert_eq!(r.dest_port, 10);
    assert_eq!(r.reverse(), f);
}
