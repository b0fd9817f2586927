use tls_validator::cert_verify::{ChainVerifier, SniName, WebPkiChainVerifier};
use tls_validator::dispatch::{dispatch_packet, DispatchAction};
use tls_validator::ip::{build_ipv4_packet, parse_ip};
use tls_validator::middlebox::TlsvMiddlebox;
use tls_validator::packet::{parse_tcp, tcp_to_bytes, IpAddress, TcpSegment, TCP_FLAG_SYN};

const CLIENT_V4: u32 = 0x0a000005; // 10.0.0.5
const SERVER_V4: u32 = 0x5db8d822;

fn raw_tcp_packet(
    src: u32,
    dst: u32,
    sport: u16,
    dport: u16,
    sequence: u32,
    flags: u16,
    payload: &[u8],
) -> Vec<u8> {
    let seg = TcpSegment {
        source_port: sport,
        dest_port: dport,
        sequence,
        acknowledgement: 0,
        data_offset: 5,
        flags,
        window: 64240,
        checksum: 0,
        urgent_pointer: 0,
        options: Vec::new(),
        payload: payload.to_vec(),
    };
    build_ipv4_packet(src, dst, &tcp_to_bytes(&seg))
}

/// A ClientHello record with an empty extensions block (no SNI).
fn no_sni_client_hello() -> Vec<u8> {
    let mut body = vec![0x03, 0x03];
    body.extend_from_slice(&[0u8; 32]);
    body.push(0);
    body.extend_from_slice(&[0x00, 0x02, 0x00, 0x2f]);
    body.extend_from_slice(&[0x01, 0x00]);
    body.extend_from_slice(&[0x00, 0x00]);
    let mut msg = vec![1, 0, (body.len() >> 8) as u8, body.len() as u8];
    msg.extend_from_slice(&body);
    let mut rec = vec![0x16, 0x03, 0x03, (msg.len() >> 8) as u8, msg.len() as u8];
    rec.extend_from_slice(&msg);
    rec
}

struct RejectEverything;

impl ChainVerifier for RejectEverything {
    fn verify_chain(&self, _l: &Vec<u8>, _i: &Vec<Vec<u8>>, _n: &SniName) -> bool {
        false
    }
}

#[test]
fn non_tcp_and_unrelated_packets_are_forwarded() {
    let mut mb = TlsvMiddlebox::new(RejectEverything);
    let client = IpAddress::V4(CLIENT_V4);

    // not an IP packet at all
    let r = dispatch_packet(&mut mb, b"not an ip packet", client, 1);
    assert!(matches!(r, DispatchAction::Forward));

    // traffic between two other hosts
    let raw = raw_tcp_packet(0x01020304, 0x05060708, 1, 2, 0, TCP_FLAG_SYN, b"");
    let r = dispatch_packet(&mut mb, &raw, client, 2);
    assert!(matches!(r, DispatchAction::Forward));
}

#[test]
fn blocked_flow_yields_two_injectable_ipv4_packets() {
    let mut mb = TlsvMiddlebox::new(RejectEverything);
    let client = IpAddress::V4(CLIENT_V4);

    // handshake
    let syn = raw_tcp_packet(CLIENT_V4, SERVER_V4, 51000, 443, 1000, TCP_FLAG_SYN, b"");
    assert!(matches!(dispatch_packet(&mut mb, &syn, client, 1), DispatchAction::Forward));
    let syn_ack = raw_tcp_packet(SERVER_V4, CLIENT_V4, 443, 51000, 5000, TCP_FLAG_SYN | 0x10, b"");
    assert!(matches!(dispatch_packet(&mut mb, &syn_ack, client, 2), DispatchAction::Forward));

    // a ClientHello without SNI: blocked by policy
    let ch = no_sni_client_hello();
    let bad = raw_tcp_packet(CLIENT_V4, SERVER_V4, 51000, 443, 1001, 0x10, &ch);
    match dispatch_packet(&mut mb, &bad, client, 3) {
        DispatchAction::Inject { first, second } => {
            // the first injected packet mirrors the offending one, RST set
            let ip1 = parse_ip(&first).unwrap();
            assert_eq!(ip1.source, IpAddress::V4(CLIENT_V4));
            assert_eq!(ip1.dest, IpAddress::V4(SERVER_V4));
            assert_eq!(ip1.ttl, 64);
            assert_eq!(ip1.protocol, 6);
            let t1 = parse_tcp(&ip1.payload).unwrap();
            assert_ne!(t1.flags & 4, 0);
            assert_eq!(t1.sequence, 1001);

            // the second heads back to the client from the server's side
            let ip2 = parse_ip(&second).unwrap();
            assert_eq!(ip2.source, IpAddress::V4(SERVER_V4));
            assert_eq!(ip2.dest, IpAddress::V4(CLIENT_V4));
            let t2 = parse_tcp(&ip2.payload).unwrap();
            assert_eq!(t2.flags, 4);
            assert_eq!(t2.source_port, 443);
            assert_eq!(t2.dest_port, 51000);
            assert_eq!(t2.sequence, 5001);
        }
        DispatchAction::Forward => panic!("expected RST injection"),
    }
}

#[test]
fn webpki_verifier_rejects_garbage_der() {
    // the real Web PKI verifier: a chain that is not even DER cannot
    // validate for any name
    let verifier = WebPkiChainVerifier::new();
    let ok = verifier.verify_chain(
        &b"not a certificate".to_vec(),
        &Vec::new(),
        &SniName::Dns(b"example.com".to_vec()),
    );
    assert!(!ok);
    let ok_ip = verifier.verify_chain(
        &b"not a certificate".to_vec(),
        &Vec::new(),
        &SniName::Ip(IpAddress::V4(0x7f000001)),
    );
    assert!(!ok_ip);
}
