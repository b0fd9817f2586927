use tls_validator::hostname::{is_dns_name, is_ipv4_literal, is_ipv6_literal};

#[test]
fn ipv4_literals() {
    assert!(is_ipv4_literal(b"0.0.0.0"));
    assert!(is_ipv4_literal(b"10.0.0.9"));
    assert!(is_ipv4_literal(b"255.255.255.255"));

    assert!(!is_ipv4_literal(b"1.2.3"));
    assert!(!is_ipv4_literal(b"1.2.3.4.5"));
    assert!(!is_ipv4_literal(b"256.1.2.3"));
    assert!(!is_ipv4_literal(b"999.1.2.3"));
    assert!(!is_ipv4_literal(b"01.2.3.4"));
    assert!(!is_ipv4_literal(b"1..2.3"));
    assert!(!is_ipv4_literal(b"1.2.3.4."));
    assert!(!is_ipv4_literal(b""));
}

#[test]
fn ipv6_literals() {
    assert!(is_ipv6_literal(b"::"));
    assert!(is_ipv6_literal(b"::1"));
    assert!(is_ipv6_literal(b"1::"));
    assert!(is_ipv6_literal(b"2001:db8::1"));
    assert!(is_ipv6_literal(b"fe80:0:0:0:0:0:0:9"));
    assert!(is_ipv6_literal(b"1:2:3:4:5:6:7:8"));
    assert!(is_ipv6_literal(b"1:2:3:4:5:6:7::"));
    assert!(is_ipv6_literal(b"ABCD:ef01::2"));

    assert!(!is_ipv6_literal(b"1:2:3:4:5:6:7"));
    assert!(!is_ipv6_literal(b"1:2:3:4:5:6:7:8:9"));
    assert!(!is_ipv6_literal(b"1:2:3:4:5:6:7:8::"));
    assert!(!is_ipv6_literal(b"1:::2"));
    assert!(!is_ipv6_literal(b"::1::2"));
    assert!(!is_ipv6_literal(b"12345::"));
    assert!(!is_ipv6_literal(b"g::1"));
    assert!(!is_ipv6_literal(b"1:2:"));
    assert!(!is_ipv6_literal(b""));
}

#[test]
fn dns_names() {
    assert!(is_dns_name(b"example.com"));
    assert!(is_dns_name(b"example.com."));
    assert!(is_dns_name(b"a"));
    assert!(is_dns_name(b"xn--bcher-kva.example"));
    assert!(is_dns_name(b"under_score.example"));
    assert!(is_dns_name(b"123.example"));

    // the final label must not be all-numeric, so a name is never confused
    // with an IPv4 address
    assert!(!is_dns_name(b"1.2.3.4"));
    assert!(!is_dns_name(b"example.123"));
    assert!(!is_dns_name(b"-leading.hyphen"));
    assert!(!is_dns_name(b"trailing-.hyphen"));
    assert!(!is_dns_name(b"double..dot"));
    assert!(!is_dns_name(b"bad!name"));
    assert!(!is_dns_name(b"has:colon"));
    assert!(!is_dns_name(b""));
    assert!(!is_dns_name(&[97u8; 254]));
    let long_label = [97u8; 64];
    let mut name = long_label.to_vec();
    name.extend_from_slice(b".example");
    assert!(!is_dns_name(&name));
}
