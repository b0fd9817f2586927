use tls_validator::cert_verify::{ChainVerifier, SniName};
use tls_validator::middlebox::{TlsvMiddlebox, TlsvResult};
use tls_validator::packet::{IpAddress, TcpFlow, TcpSegment, TCP_FLAG_RST, TCP_FLAG_SYN};

/// Accepts a chain exactly when the server name is the expected DNS name.
struct NameMatcher(Vec<u8>);

impl ChainVerifier for NameMatcher {
    fn verify_chain(&self, _leaf: &Vec<u8>, _intermediates: &Vec<Vec<u8>>, name: &SniName) -> bool {
        match name {
            SniName::Dns(d) => *d == self.0,
            SniName::Ip(_) => false,
        }
    }
}

/// Rejects every chain.
struct RejectAll;

impl ChainVerifier for RejectAll {
    fn verify_chain(&self, _l: &Vec<u8>, _i: &Vec<Vec<u8>>, _n: &SniName) -> bool {
        false
    }
}

const CLIENT: IpAddress = IpAddress::V4(0x0a000005); // 10.0.0.5
const SERVER: IpAddress = IpAddress::V4(0x5db8d822);
const ACK_FLAG: u16 = 0x10;

fn flow() -> TcpFlow {
    TcpFlow { source_ip: CLIENT, dest_ip: SERVER, source_port: 51000, dest_port: 443 }
}

fn seg(sport: u16, dport: u16, sequence: u32, flags: u16, payload: &[u8]) -> TcpSegment {
    TcpSegment {
        source_port: sport,
        dest_port: dport,
        sequence,
        acknowledgement: 0,
        data_offset: 5,
        flags,
        window: 64240,
        checksum: 0,
        urgent_pointer: 0,
        options: Vec::new(),
        payload: payload.to_vec(),
    }
}

fn outgoing(sequence: u32, flags: u16, payload: &[u8]) -> TcpSegment {
    seg(51000, 443, sequence, flags, payload)
}

fn incoming(sequence: u32, flags: u16, payload: &[u8]) -> TcpSegment {
    seg(443, 51000, sequence, flags, payload)
}

fn record(minor: u8, payload: &[u8]) -> Vec<u8> {
    let mut out = vec![0x16, 0x03, minor, (payload.len() >> 8) as u8, payload.len() as u8];
    out.extend_from_slice(payload);
    out
}

fn handshake(msg_type: u8, body: &[u8]) -> Vec<u8> {
    let mut out = vec![
        msg_type,
        (body.len() >> 16) as u8,
        (body.len() >> 8) as u8,
        body.len() as u8,
    ];
    out.extend_from_slice(body);
    out
}

fn hello_prefix() -> Vec<u8> {
    let mut body = vec![0x03, 0x03];
    body.extend_from_slice(&[0u8; 32]);
    body.push(0); // empty session id
    body
}

/// A ClientHello record; `sni` adds a server_name extension, `pad` grows the
/// record with a padding extension to reach a chosen size.
fn client_hello_record(sni: Option<&[u8]>, pad: usize) -> Vec<u8> {
    let mut body = hello_prefix();
    body.extend_from_slice(&[0x00, 0x02, 0x00, 0x2f]); // cipher suites
    body.extend_from_slice(&[0x01, 0x00]); // null compression
    let mut ext = Vec::new();
    if let Some(host) = sni {
        let entry_len = 3 + host.len();
        ext.extend_from_slice(&[0x00, 0x00]);
        ext.push(((entry_len + 2) >> 8) as u8);
        ext.push((entry_len + 2) as u8);
        ext.push((entry_len >> 8) as u8);
        ext.push(entry_len as u8);
        ext.push(0);
        ext.push((host.len() >> 8) as u8);
        ext.push(host.len() as u8);
        ext.extend_from_slice(host);
    }
    if pad > 0 {
        ext.extend_from_slice(&[0x00, 0x15]); // padding extension
        ext.push((pad >> 8) as u8);
        ext.push(pad as u8);
        ext.extend(std::iter::repeat(0u8).take(pad));
    }
    body.push((ext.len() >> 8) as u8);
    body.push(ext.len() as u8);
    body.extend_from_slice(&ext);
    record(0x03, &handshake(1, &body))
}

/// A ClientHello record with an empty extensions block.
fn client_hello_record_no_extensions() -> Vec<u8> {
    let mut body = hello_prefix();
    body.extend_from_slice(&[0x00, 0x02, 0x00, 0x2f]);
    body.extend_from_slice(&[0x01, 0x00]);
    body.extend_from_slice(&[0x00, 0x00]); // extensions length 0
    record(0x03, &handshake(1, &body))
}

/// A ServerHello record; `supported` optionally adds a supported_versions
/// extension naming that version.
fn server_hello_record(supported: Option<u16>) -> Vec<u8> {
    let mut body = hello_prefix();
    body.extend_from_slice(&[0x00, 0x2f]); // cipher suite
    body.push(0); // compression
    if let Some(v) = supported {
        let ext = [0x00, 0x2b, 0x00, 0x02, (v >> 8) as u8, v as u8];
        body.push(0);
        body.push(ext.len() as u8);
        body.extend_from_slice(&ext);
    }
    record(0x03, &handshake(2, &body))
}

/// A Certificate record with the given DER blobs.
fn certificate_record(certs: &[&[u8]]) -> Vec<u8> {
    let mut list = Vec::new();
    for c in certs {
        list.push((c.len() >> 16) as u8);
        list.push((c.len() >> 8) as u8);
        list.push(c.len() as u8);
        list.extend_from_slice(c);
    }
    let mut body = vec![(list.len() >> 16) as u8, (list.len() >> 8) as u8, list.len() as u8];
    body.extend_from_slice(&list);
    record(0x03, &handshake(11, &body))
}

fn assert_cleared(r: &TlsvResult) {
    assert!(matches!(r, TlsvResult::Cleared));
}

/// Drives the TCP handshake: SYN out, SYN/ACK in, ACK out.
fn run_tcp_handshake<V: ChainVerifier>(mb: &mut TlsvMiddlebox<V>) {
    assert_cleared(&mb.process_outgoing(&outgoing(1000, TCP_FLAG_SYN, b""), flow(), 1));
    assert_cleared(&mb.process_incoming(
        &incoming(5000, TCP_FLAG_SYN | ACK_FLAG, b""),
        flow(),
        2,
    ));
    assert_cleared(&mb.process_outgoing(&outgoing(1001, ACK_FLAG, b""), flow(), 3));
}

#[test]
fn valid_tls12_flow_is_never_disrupted() {
    let mut mb = TlsvMiddlebox::new(NameMatcher(b"example.com".to_vec()));
    run_tcp_handshake(&mut mb);

    // one 517-byte ClientHello record carrying SNI example.com
    let ch = client_hello_record(Some(b"example.com"), 441);
    assert_eq!(ch.len(), 517);
    assert_cleared(&mb.process_outgoing(&outgoing(1001, ACK_FLAG, &ch), flow(), 4));

    let sh = server_hello_record(None);
    assert_cleared(&mb.process_incoming(&incoming(5001, ACK_FLAG, &sh), flow(), 5));

    let certs = certificate_record(&[b"leaf for example.com", b"intermediate"]);
    let r = mb.process_incoming(
        &incoming(5001 + sh.len() as u32, ACK_FLAG, &certs),
        flow(),
        6,
    );
    assert_cleared(&r);

    // later traffic passes too
    assert_cleared(&mb.process_outgoing(&outgoing(1001 + ch.len() as u32, ACK_FLAG, b"app"), flow(), 7));
}

#[test]
fn invalid_certificate_triggers_byte_exact_rsts() {
    let mut mb = TlsvMiddlebox::new(NameMatcher(b"example.com".to_vec()));
    run_tcp_handshake(&mut mb);

    let ch = client_hello_record(Some(b"attacker.test"), 0);
    assert_cleared(&mb.process_outgoing(&outgoing(1001, ACK_FLAG, &ch), flow(), 4));

    let sh = server_hello_record(None);
    assert_cleared(&mb.process_incoming(&incoming(5001, ACK_FLAG, &sh), flow(), 5));

    let certs = certificate_record(&[b"leaf for attacker.test"]);
    let cert_seq = 5001 + sh.len() as u32;
    let r = mb.process_incoming(&incoming(cert_seq, ACK_FLAG, &certs), flow(), 6);
    match r {
        TlsvResult::Invalid { forward_packet, return_packet } => {
            // the forward RST is the offending packet with RST set
            assert_eq!(forward_packet.sequence, cert_seq);
            assert_ne!(forward_packet.flags & TCP_FLAG_RST, 0);
            assert_eq!(forward_packet.payload, certs);
            // the reverse RST goes back to the server at the sequence the
            // server expects next from the client
            assert_eq!(return_packet.source_port, 51000);
            assert_eq!(return_packet.dest_port, 443);
            assert_eq!(return_packet.flags, TCP_FLAG_RST);
            assert_eq!(return_packet.sequence, 1001 + ch.len() as u32);
            assert_ne!(forward_packet.checksum, 0);
            assert_ne!(return_packet.checksum, 0);
        }
        TlsvResult::Cleared => panic!("expected RST injection"),
    }
}

#[test]
fn client_hello_without_sni_goes_bad_immediately() {
    let mut mb = TlsvMiddlebox::new(NameMatcher(b"example.com".to_vec()));
    run_tcp_handshake(&mut mb);

    let ch = client_hello_record_no_extensions();
    let r = mb.process_outgoing(&outgoing(1001, ACK_FLAG, &ch), flow(), 4);
    match r {
        TlsvResult::Invalid { forward_packet, return_packet } => {
            assert_ne!(forward_packet.flags & TCP_FLAG_RST, 0);
            // the reverse RST heads back to the client with the sequence
            // number the client expects from the server
            assert_eq!(return_packet.dest_port, 51000);
            assert_eq!(return_packet.sequence, 5001);
        }
        TlsvResult::Cleared => panic!("expected the flow to go bad"),
    }
    // the flow stays bad: the next packet is also reset
    let r2 = mb.process_outgoing(&outgoing(2000, ACK_FLAG, b"more"), flow(), 5);
    assert!(matches!(r2, TlsvResult::Invalid { .. }));
}

#[test]
fn tls13_flow_is_cleared_not_blocked() {
    let mut mb = TlsvMiddlebox::new(RejectAll);
    run_tcp_handshake(&mut mb);

    let ch = client_hello_record(Some(b"example.com"), 0);
    assert_cleared(&mb.process_outgoing(&outgoing(1001, ACK_FLAG, &ch), flow(), 4));

    // supported_versions says TLS 1.3: the certificate will be encrypted,
    // so the flow is cleared even though the verifier rejects everything
    let sh = server_hello_record(Some(0x0304));
    assert_cleared(&mb.process_incoming(&incoming(5001, ACK_FLAG, &sh), flow(), 5));
    let certs = certificate_record(&[b"unused"]);
    assert_cleared(&mb.process_incoming(
        &incoming(5001 + sh.len() as u32, ACK_FLAG, &certs),
        flow(),
        6,
    ));
}

#[test]
fn non_tls_flow_on_port_443_is_cleared() {
    let mut mb = TlsvMiddlebox::new(RejectAll);
    run_tcp_handshake(&mut mb);
    let r = mb.process_outgoing(&outgoing(1001, ACK_FLAG, b"GET / HTTP/1.1\r\n\r\n"), flow(), 4);
    assert_cleared(&r);
    // and stays cleared for the rest of the conversation
    let r2 = mb.process_incoming(&incoming(5001, ACK_FLAG, b"HTTP/1.1 200 OK\r\n\r\n"), flow(), 5);
    assert_cleared(&r2);
}

#[test]
fn out_of_order_client_hello_parses_on_completion() {
    let mut mb = TlsvMiddlebox::new(RejectAll);
    run_tcp_handshake(&mut mb);

    let ch = client_hello_record(Some(b"example.com"), 40);
    let third = ch.len() / 3;
    let (p1, rest) = ch.split_at(third);
    let (p2, p3) = rest.split_at(third);

    // delivery order 3, 1, 2: the hello completes only with part 2
    assert_cleared(&mb.process_outgoing(
        &outgoing(1001 + (2 * third) as u32, ACK_FLAG, p3),
        flow(),
        4,
    ));
    assert_cleared(&mb.process_outgoing(&outgoing(1001, ACK_FLAG, p1), flow(), 5));
    assert_cleared(&mb.process_outgoing(
        &outgoing(1001 + third as u32, ACK_FLAG, p2),
        flow(),
        6,
    ));

    // the hello was parsed: the server's certificate is now inspected, and
    // the rejecting verifier condemns the flow
    let sh = server_hello_record(None);
    assert_cleared(&mb.process_incoming(&incoming(5001, ACK_FLAG, &sh), flow(), 7));
    let certs = certificate_record(&[b"some chain"]);
    let r = mb.process_incoming(
        &incoming(5001 + sh.len() as u32, ACK_FLAG, &certs),
        flow(),
        8,
    );
    assert!(matches!(r, TlsvResult::Invalid { .. }));
}

#[test]
fn empty_certificate_list_goes_bad() {
    let mut mb = TlsvMiddlebox::new(NameMatcher(b"example.com".to_vec()));
    run_tcp_handshake(&mut mb);
    let ch = client_hello_record(Some(b"example.com"), 0);
    assert_cleared(&mb.process_outgoing(&outgoing(1001, ACK_FLAG, &ch), flow(), 4));
    let sh = server_hello_record(None);
    assert_cleared(&mb.process_incoming(&incoming(5001, ACK_FLAG, &sh), flow(), 5));
    let certs = certificate_record(&[]);
    let r = mb.process_incoming(
        &incoming(5001 + sh.len() as u32, ACK_FLAG, &certs),
        flow(),
        6,
    );
    assert!(matches!(r, TlsvResult::Invalid { .. }));
}

#[test]
fn retransmission_does_not_move_sequence_numbers_back() {
    let mut mb = TlsvMiddlebox::new(NameMatcher(b"example.com".to_vec()));
    run_tcp_handshake(&mut mb);
    let ch = client_hello_record(Some(b"attacker.test"), 0);
    assert_cleared(&mb.process_outgoing(&outgoing(1001, ACK_FLAG, &ch), flow(), 4));
    // an old, empty retransmission from the client must not rewind what the
    // server expects next
    assert_cleared(&mb.process_outgoing(&outgoing(1001, ACK_FLAG, b""), flow(), 5));
    let sh = server_hello_record(None);
    assert_cleared(&mb.process_incoming(&incoming(5001, ACK_FLAG, &sh), flow(), 6));
    let certs = certificate_record(&[b"bad chain"]);
    let r = mb.process_incoming(&incoming(5001 + sh.len() as u32, ACK_FLAG, &certs), flow(), 7);
    match r {
        TlsvResult::Invalid { return_packet, .. } => {
            assert_eq!(return_packet.sequence, 1001 + ch.len() as u32);
        }
        TlsvResult::Cleared => panic!("expected RST injection"),
    }
}

#[test]
fn unusable_sni_blocks_the_flow_at_the_client_hello() {
    // "1.2.3.4.5" is neither an IP literal nor a DNS name: the name is
    // treated as absent and the flow goes bad immediately
    let mut mb = TlsvMiddlebox::new(RejectAll);
    run_tcp_handshake(&mut mb);
    let ch = client_hello_record(Some(b"1.2.3.4.5"), 0);
    let r = mb.process_outgoing(&outgoing(1001, ACK_FLAG, &ch), flow(), 4);
    assert!(matches!(r, TlsvResult::Invalid { .. }));
}

#[test]
fn unknown_flow_without_syn_is_forwarded() {
    let mut mb = TlsvMiddlebox::new(RejectAll);
    let r = mb.process_outgoing(&outgoing(9999, ACK_FLAG, b"data"), flow(), 1);
    assert_cleared(&r);
}

#[test]
fn peer_initiated_flow_is_never_validated() {
    let mut mb = TlsvMiddlebox::new(RejectAll);
    // the server opens the connection: parked as peer-initiated
    let rev = flow().reverse();
    assert_cleared(&mb.process_incoming(&incoming(100, TCP_FLAG_SYN, b""), rev, 1));
    assert_cleared(&mb.process_incoming(&incoming(101, ACK_FLAG, b"anything"), rev, 2));
}

#[test]
fn eviction_removes_idle_flows() {
    let mut mb = TlsvMiddlebox::new(RejectAll);
    run_tcp_handshake(&mut mb);
    // a cleared flow is evicted after the terminal idle threshold
    assert_cleared(&mb.process_outgoing(&outgoing(1001, ACK_FLAG, b"GET /"), flow(), 4));
    mb.evict_idle(10_000, 5_000, 60_000);
    // the flow is gone: a new non-SYN packet no longer finds it, but a new
    // SYN recreates state
    assert_cleared(&mb.process_outgoing(&outgoing(3000, TCP_FLAG_SYN, b""), flow(), 10_001));
}
