use tls_validator::protocol::{read_handshake_frame, read_handshake_msg, HandshakePayload, SniValue};
use tls_validator::tcp_buffer::TcpBuffer;

/// Wraps a handshake message in a TLS record with the given minor version.
fn record(minor: u8, payload: &[u8]) -> Vec<u8> {
    let mut out = vec![0x16, 0x03, minor, (payload.len() >> 8) as u8, payload.len() as u8];
    out.extend_from_slice(payload);
    out
}

/// A handshake message: type byte, 24-bit length, body.
fn handshake(msg_type: u8, body: &[u8]) -> Vec<u8> {
    let mut out = vec![
        msg_type,
        (body.len() >> 16) as u8,
        (body.len() >> 8) as u8,
        body.len() as u8,
    ];
    out.extend_from_slice(body);
    out
}

/// A ClientHello body; `extensions` is the raw extension block, or absent.
fn client_hello_body(extensions: Option<&[u8]>) -> Vec<u8> {
    let mut body = vec![0x03, 0x03];
    body.extend_from_slice(&[0u8; 32]); // random
    body.push(0); // empty session id
    body.extend_from_slice(&[0x00, 0x02, 0x00, 0x2f]); // one cipher suite
    body.extend_from_slice(&[0x01, 0x00]); // null compression
    if let Some(ext) = extensions {
        body.push((ext.len() >> 8) as u8);
        body.push(ext.len() as u8);
        body.extend_from_slice(ext);
    }
    body
}

/// An SNI extension carrying one host name.
fn sni_extension(host: &[u8]) -> Vec<u8> {
    let entry_len = 3 + host.len();
    let mut ext = vec![0x00, 0x00]; // extension type: server_name
    ext.push(((entry_len + 2) >> 8) as u8);
    ext.push((entry_len + 2) as u8);
    ext.push((entry_len >> 8) as u8);
    ext.push(entry_len as u8);
    ext.push(0); // name type: host_name
    ext.push((host.len() >> 8) as u8);
    ext.push(host.len() as u8);
    ext.extend_from_slice(host);
    ext
}

fn buffer_with(bytes: &[u8]) -> TcpBuffer {
    let mut buf = TcpBuffer::new(0, 2 * (5 + 16384));
    buf.add_segment(0, bytes);
    buf
}

#[test]
fn frame_header_fields() {
    let data = [0x16, 0x03, 0x03, 0x01, 0x40, 0xaa];
    let (minor, len) = read_handshake_frame(&data).unwrap();
    assert_eq!(minor, 3);
    assert_eq!(len, 0x140);
}

#[test]
fn frame_rejects_wrong_type_and_version() {
    assert!(read_handshake_frame(&[0x17, 0x03, 0x03, 0x00, 0x10]).is_err());
    assert!(read_handshake_frame(&[0x16, 0x02, 0x03, 0x00, 0x10]).is_err());
    // length over 16384 is rejected
    assert!(read_handshake_frame(&[0x16, 0x03, 0x03, 0x40, 0x01]).is_err());
}

#[test]
fn client_hello_with_sni_parses() {
    let ext = sni_extension(b"example.com");
    let msg = handshake(1, &client_hello_body(Some(&ext)));
    let rec = record(0x01, &msg); // ClientHello may ride in a TLS 1.0 record
    let buf = buffer_with(&rec);
    let parsed = read_handshake_msg(&buf).unwrap().unwrap();
    assert_eq!(parsed.total_len, rec.len());
    assert!(!parsed.is_tls12);
    match parsed.payload {
        HandshakePayload::ClientHello { server_name: Some(SniValue::Dns(d)) } => {
            assert_eq!(d, b"example.com");
        }
        other => panic!("unexpected payload: parsed something else {:?}", discriminant(&other)),
    }
}

fn discriminant(p: &HandshakePayload) -> u8 {
    match p {
        HandshakePayload::ClientHello { .. } => 1,
        HandshakePayload::ServerHello { .. } => 2,
        HandshakePayload::Certificates { .. } => 11,
        HandshakePayload::Unknown => 0,
    }
}

#[test]
fn client_hello_ip_literal_sni() {
    let ext = sni_extension(b"10.0.0.9");
    let msg = handshake(1, &client_hello_body(Some(&ext)));
    let buf = buffer_with(&record(0x03, &msg));
    let parsed = read_handshake_msg(&buf).unwrap().unwrap();
    match parsed.payload {
        HandshakePayload::ClientHello { server_name: Some(SniValue::IpLiteral) } => {}
        _ => panic!("expected an IP-literal server name"),
    }
}

#[test]
fn sni_ipv6_literal_is_recognized() {
    let ext = sni_extension(b"2001:db8::1");
    let msg = handshake(1, &client_hello_body(Some(&ext)));
    let buf = buffer_with(&record(0x03, &msg));
    let parsed = read_handshake_msg(&buf).unwrap().unwrap();
    match parsed.payload {
        HandshakePayload::ClientHello { server_name: Some(SniValue::IpLiteral) } => {}
        _ => panic!("expected an IP-literal server name"),
    }
}

#[test]
fn sni_with_trailing_dot_is_a_dns_name() {
    let ext = sni_extension(b"example.com.");
    let msg = handshake(1, &client_hello_body(Some(&ext)));
    let buf = buffer_with(&record(0x03, &msg));
    let parsed = read_handshake_msg(&buf).unwrap().unwrap();
    match parsed.payload {
        HandshakePayload::ClientHello { server_name: Some(SniValue::Dns(d)) } => {
            assert_eq!(d, b"example.com.");
        }
        _ => panic!("expected a DNS server name"),
    }
}

#[test]
fn unusable_sni_names_count_as_absent() {
    // neither valid IP literals nor valid DNS names: five dotted parts, an
    // octet out of range, a leading zero, a stray character, an empty name
    for bad in [
        &b"1.2.3.4.5"[..],
        b"999.1.2.3",
        b"01.2.3.4",
        b"bad!name",
        b"",
        b"1:::2",
        b"-leading.hyphen",
    ] {
        let ext = sni_extension(bad);
        let msg = handshake(1, &client_hello_body(Some(&ext)));
        let buf = buffer_with(&record(0x03, &msg));
        let parsed = read_handshake_msg(&buf).unwrap().unwrap();
        match parsed.payload {
            HandshakePayload::ClientHello { server_name: None } => {}
            _ => panic!("expected the name to be treated as absent"),
        }
    }
}

#[test]
fn client_hello_without_extensions_has_no_sni() {
    let msg = handshake(1, &client_hello_body(None));
    let buf = buffer_with(&record(0x03, &msg));
    let parsed = read_handshake_msg(&buf).unwrap().unwrap();
    match parsed.payload {
        HandshakePayload::ClientHello { server_name: None } => {}
        _ => panic!("expected an absent server name"),
    }
}

#[test]
fn split_at_header_boundary_needs_second_segment() {
    let ext = sni_extension(b"example.com");
    let msg = handshake(1, &client_hello_body(Some(&ext)));
    let rec = record(0x03, &msg);
    let mut buf = TcpBuffer::new(0, 2 * (5 + 16384));
    // first exactly the 5 header bytes: not parsed yet
    buf.add_segment(0, &rec[..5]);
    assert!(matches!(read_handshake_msg(&buf), Ok(None)));
    // then the rest: parsed
    buf.add_segment(5, &rec[5..]);
    let parsed = read_handshake_msg(&buf).unwrap();
    assert!(parsed.is_some());
}

#[test]
fn non_tls_bytes_are_rejected() {
    let buf = buffer_with(b"GET / HTTP/1.1\r\n\r\n");
    assert!(read_handshake_msg(&buf).is_err());
}

#[test]
fn short_data_needs_more() {
    let buf = buffer_with(&[0x16, 0x03]);
    assert!(matches!(read_handshake_msg(&buf), Ok(None)));
}

#[test]
fn server_hello_supported_versions_tls13() {
    // ServerHello body with a supported_versions extension naming 0x0304
    let mut body = vec![0x03, 0x03];
    body.extend_from_slice(&[0u8; 32]);
    body.push(0); // empty session id
    body.extend_from_slice(&[0x00, 0x2f]); // cipher suite
    body.push(0); // compression
    let ext = [0x00, 0x2b, 0x00, 0x02, 0x03, 0x04];
    body.push(0);
    body.push(ext.len() as u8);
    body.extend_from_slice(&ext);
    let msg = handshake(2, &body);
    let buf = buffer_with(&record(0x03, &msg));
    let parsed = read_handshake_msg(&buf).unwrap().unwrap();
    assert!(parsed.is_tls12);
    match parsed.payload {
        HandshakePayload::ServerHello { supported_version: Some(v) } => assert_eq!(v, 0x0304),
        _ => panic!("expected a ServerHello with supported_versions"),
    }
}

#[test]
fn certificate_chain_parses() {
    let certs: [&[u8]; 2] = [b"leaf-der-bytes", b"intermediate"];
    let mut list = Vec::new();
    for c in certs {
        list.push((c.len() >> 16) as u8);
        list.push((c.len() >> 8) as u8);
        list.push(c.len() as u8);
        list.extend_from_slice(c);
    }
    let mut body = vec![(list.len() >> 16) as u8, (list.len() >> 8) as u8, list.len() as u8];
    body.extend_from_slice(&list);
    let msg = handshake(11, &body);
    let buf = buffer_with(&record(0x03, &msg));
    let parsed = read_handshake_msg(&buf).unwrap().unwrap();
    match parsed.payload {
        HandshakePayload::Certificates { certs } => {
            assert_eq!(certs.len(), 2);
            assert_eq!(certs[0], b"leaf-der-bytes");
            assert_eq!(certs[1], b"intermediate");
        }
        _ => panic!("expected a certificate list"),
    }
}

#[test]
fn fragmented_record_parses_like_in_order() {
    let ext = sni_extension(b"example.com");
    let msg = handshake(1, &client_hello_body(Some(&ext)));
    let rec = record(0x03, &msg);

    let mut in_order = TcpBuffer::new(0, 2 * (5 + 16384));
    in_order.add_segment(0, &rec);

    let mut scrambled = TcpBuffer::new(0, 2 * (5 + 16384));
    let third = rec.len() / 3;
    scrambled.add_segment((2 * third) as u32, &rec[2 * third..]);
    scrambled.add_segment(0, &rec[..third]);
    scrambled.add_segment(third as u32, &rec[third..2 * third]);

    assert_eq!(in_order.get_data(), scrambled.get_data());
    let a = read_handshake_msg(&in_order).unwrap().unwrap();
    let b = read_handshake_msg(&scrambled).unwrap().unwrap();
    assert_eq!(a.total_len, b.total_len);
}
