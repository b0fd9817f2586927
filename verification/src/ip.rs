//! IPv4 and IPv6 packet framing for the dispatcher.
//!
//! Incoming raw packets are decoded just far enough to classify them
//! (version, next protocol, addresses, TCP payload); outgoing RST segments
//! are wrapped in fresh headers with TTL/hop-limit 64, next protocol TCP,
//! and — for IPv4 — a correct header checksum.

use vstd::prelude::*;

use crate::checksum::{checksum_of, checksum_valid, compute_checksum};
use crate::packet::v6_byte;

verus! {

/// TTL / hop limit of every packet this middlebox injects.
pub const NEW_PACKET_TTL: u8 = 64;

/// What the dispatcher reads out of an IP packet.
pub ghost struct IpInfo {
    pub ttl: u8,
    pub protocol: u8,
    pub source: crate::packet::IpAddress,
    pub dest: crate::packet::IpAddress,
    pub payload: Seq<u8>,
}

/// 32-bit big-endian value at offset `i` of `b`.
pub open spec fn be32_at(b: Seq<u8>, i: int) -> u32 {
    (0x1000000 * b[i] + 0x10000 * b[i + 1] + 256 * b[i + 2] + b[i + 3]) as u32
}

/// 128-bit big-endian value at offset `i` of `b`.
pub open spec fn be128_at(b: Seq<u8>, i: int) -> u128 {
    (0x1000000000000000000000000000000 * b[i] + 0x10000000000000000000000000000 * b[i + 1]
        + 0x100000000000000000000000000 * b[i + 2] + 0x1000000000000000000000000 * b[i + 3]
        + 0x10000000000000000000000 * b[i + 4] + 0x100000000000000000000 * b[i + 5]
        + 0x1000000000000000000 * b[i + 6] + 0x10000000000000000 * b[i + 7] + 0x100000000000000 * b[
        i + 8
    ] + 0x1000000000000 * b[i + 9] + 0x10000000000 * b[i + 10] + 0x100000000 * b[i + 11]
        + 0x1000000 * b[i + 12] + 0x10000 * b[i + 13] + 256 * b[i + 14] + b[i + 15]) as u128
}

/// Decoding of an IPv4 packet: version 4, a plausible header length, and
/// the payload delimited by the total-length field (clamped to the bytes
/// actually present).
pub open spec fn parse_ipv4_spec(b: Seq<u8>) -> Option<IpInfo> {
    if b.len() < 20 {
        Option::None
    } else if b[0] / 16 != 4 {
        Option::None
    } else {
        let ihl = b[0] % 16;
        if ihl < 5 || b.len() < 4 * ihl {
            Option::None
        } else {
            let tl = 256 * b[2] + b[3];
            let end = if 4 * ihl <= tl <= b.len() {
                tl
            } else {
                b.len() as int
            };
            Option::Some(
                IpInfo {
                    ttl: b[8],
                    protocol: b[9],
                    source: crate::packet::IpAddress::V4(be32_at(b, 12)),
                    dest: crate::packet::IpAddress::V4(be32_at(b, 16)),
                    payload: b.subrange(4 * ihl, end),
                },
            )
        }
    }
}

/// Decoding of an IPv6 packet: version 6 and the payload delimited by the
/// payload-length field (clamped to the bytes actually present).
pub open spec fn parse_ipv6_spec(b: Seq<u8>) -> Option<IpInfo> {
    if b.len() < 40 {
        Option::None
    } else if b[0] / 16 != 6 {
        Option::None
    } else {
        let pl = 256 * b[4] + b[5];
        let end = if 40 + pl <= b.len() {
            40 + pl
        } else {
            b.len() as int
        };
        Option::Some(
            IpInfo {
                ttl: b[7],
                protocol: b[6],
                source: crate::packet::IpAddress::V6(be128_at(b, 8)),
                dest: crate::packet::IpAddress::V6(be128_at(b, 24)),
                payload: b.subrange(40, end),
            },
        )
    }
}

/// The fields the dispatcher uses, decoded into executable form.
pub struct ParsedIp {
    pub ttl: u8,
    pub protocol: u8,
    pub source: crate::packet::IpAddress,
    pub dest: crate::packet::IpAddress,
    pub payload: Vec<u8>,
}

/// Abstract value of a decoded packet.
pub open spec fn parsed_ip_view(p: ParsedIp) -> IpInfo {
    IpInfo {
        ttl: p.ttl,
        protocol: p.protocol,
        source: p.source,
        dest: p.dest,
        payload: p.payload@,
    }
}

/// Decodes the IP header of a raw packet, IPv4 or IPv6 by version nibble.
pub fn parse_ip(b: &[u8]) -> (r: Option<ParsedIp>)
    ensures
        match r {
            Option::Some(p) => {
                &&& (parse_ipv4_spec(b@) == Option::Some(parsed_ip_view(p)) || parse_ipv6_spec(b@)
                    == Option::Some(parsed_ip_view(p)))
                &&& (parse_ipv4_spec(b@) is Some || parse_ipv6_spec(b@) is Some)
            },
            Option::None => parse_ipv4_spec(b@) is None && parse_ipv6_spec(b@) is None,
        },
{
    if b.len() >= 20 && b[0] / 16 == 4 {
        let ihl = b[0] % 16;
        if ihl < 5 {
            return Option::None;
        }
        let hdr = 4 * (ihl as usize);
        if b.len() < hdr {
            return Option::None;
        }
        let tl = 256 * (b[2] as usize) + (b[3] as usize);
        let end = if hdr <= tl && tl <= b.len() {
            tl
        } else {
            b.len()
        };
        let payload = vstd::slice::slice_to_vec(&b[hdr..end]);
        let source = 0x1000000 * (b[12] as u32) + 0x10000 * (b[13] as u32) + 256 * (b[14] as u32)
            + (b[15] as u32);
        let dest = 0x1000000 * (b[16] as u32) + 0x10000 * (b[17] as u32) + 256 * (b[18] as u32) + (
        b[19] as u32);
        proof {
            assert(parse_ipv6_spec(b@) is None);
        }
        return Option::Some(
            ParsedIp {
                ttl: b[8],
                protocol: b[9],
                source: crate::packet::IpAddress::V4(source),
                dest: crate::packet::IpAddress::V4(dest),
                payload,
            },
        );
    }
    if b.len() >= 40 && b[0] / 16 == 6 {
        let pl = 256 * (b[4] as usize) + (b[5] as usize);
        let end = if 40 + pl <= b.len() {
            40 + pl
        } else {
            b.len()
        };
        let payload = vstd::slice::slice_to_vec(&b[40..end]);
        let source = read_v6_addr(b, 8);
        let dest = read_v6_addr(b, 24);
        proof {
            assert(parse_ipv4_spec(b@) is None);
        }
        return Option::Some(
            ParsedIp {
                ttl: b[7],
                protocol: b[6],
                source: crate::packet::IpAddress::V6(source),
                dest: crate::packet::IpAddress::V6(dest),
                payload,
            },
        );
    }
    Option::None
}

/// Reads the 128-bit big-endian value at offset `i`.
fn read_v6_addr(b: &[u8], i: usize) -> (r: u128)
    requires
        i + 16 <= b@.len(),
    ensures
        r == be128_at(b@, i as int),
{
    0x1000000000000000000000000000000 * (b[i] as u128) + 0x10000000000000000000000000000 * (b[i
        + 1] as u128) + 0x100000000000000000000000000 * (b[i + 2] as u128)
        + 0x1000000000000000000000000 * (b[i + 3] as u128) + 0x10000000000000000000000 * (b[i
        + 4] as u128) + 0x100000000000000000000 * (b[i + 5] as u128) + 0x1000000000000000000 * (b[i
        + 6] as u128) + 0x10000000000000000 * (b[i + 7] as u128) + 0x100000000000000 * (b[i
        + 8] as u128) + 0x1000000000000 * (b[i + 9] as u128) + 0x10000000000 * (b[i + 10] as u128)
        + 0x100000000 * (b[i + 11] as u128) + 0x1000000 * (b[i + 12] as u128) + 0x10000 * (b[i
        + 13] as u128) + 256 * (b[i + 14] as u128) + (b[i + 15] as u128)
}

/// A 32-bit value is recovered from its four big-endian bytes.
proof fn lemma_u32_be_decomp(x: u32)
    by (bit_vector)
    ensures
        0x1000000 * (x / 0x1000000) + 0x10000 * ((x / 0x10000) % 256) + 256 * ((x / 256) % 256) + (
        x % 256) == x,
{
}

/// A 128-bit value is recovered from its sixteen big-endian bytes.
proof fn lemma_u128_be_decomp(x: u128)
    by (bit_vector)
    ensures
        0x1000000000000000000000000000000 * (x / 0x1000000000000000000000000000000)
            + 0x10000000000000000000000000000 * ((x / 0x10000000000000000000000000000) % 256)
            + 0x100000000000000000000000000 * ((x / 0x100000000000000000000000000) % 256)
            + 0x1000000000000000000000000 * ((x / 0x1000000000000000000000000) % 256)
            + 0x10000000000000000000000 * ((x / 0x10000000000000000000000) % 256)
            + 0x100000000000000000000 * ((x / 0x100000000000000000000) % 256)
            + 0x1000000000000000000 * ((x / 0x1000000000000000000) % 256) + 0x10000000000000000 * ((
        x / 0x10000000000000000) % 256) + 0x100000000000000 * ((x / 0x100000000000000) % 256)
            + 0x1000000000000 * ((x / 0x1000000000000) % 256) + 0x10000000000 * ((x
            / 0x10000000000) % 256) + 0x100000000 * ((x / 0x100000000) % 256) + 0x1000000 * ((x
            / 0x1000000) % 256) + 0x10000 * ((x / 0x10000) % 256) + 256 * ((x / 256) % 256) + (x
            % 256) == x,
{
}

/// Byte `i` of a fresh 20-byte IPv4 header around a TCP segment of
/// `tcp_len` bytes, with header checksum value `ck`.
pub open spec fn ipv4_header_byte(src: u32, dst: u32, tcp_len: int, ck: int, i: int) -> u8 {
    if i == 0 {
        0x45  // version 4, header length 5 words
    } else if i == 2 {
        (((20 + tcp_len) / 256) % 256) as u8
    } else if i == 3 {
        ((20 + tcp_len) % 256) as u8
    } else if i == 8 {
        NEW_PACKET_TTL
    } else if i == 9 {
        6  // TCP
    } else if i == 10 {
        ((ck / 256) % 256) as u8
    } else if i == 11 {
        (ck % 256) as u8
    } else if i == 12 {
        (src / 0x1000000) as u8
    } else if i == 13 {
        ((src / 0x10000) % 256) as u8
    } else if i == 14 {
        ((src / 256) % 256) as u8
    } else if i == 15 {
        (src % 256) as u8
    } else if i == 16 {
        (dst / 0x1000000) as u8
    } else if i == 17 {
        ((dst / 0x10000) % 256) as u8
    } else if i == 18 {
        ((dst / 256) % 256) as u8
    } else if i == 19 {
        (dst % 256) as u8
    } else {
        0
    }
}

/// The wire form of an injected IPv4 packet: the header with its checksum
/// filled in, then the TCP bytes.
pub open spec fn ipv4_packet_bytes(src: u32, dst: u32, tcp: Seq<u8>) -> Seq<u8> {
    let ck = checksum_of(Seq::new(20, |i: int| ipv4_header_byte(src, dst, tcp.len() as int, 0, i)));
    Seq::new(20, |i: int| ipv4_header_byte(src, dst, tcp.len() as int, ck, i)) + tcp
}

/// Builds a fresh IPv4 packet around a TCP segment: version 4, header
/// length 5, TTL 64, protocol TCP, correct total length and header
/// checksum.  Re-parsing it yields the original addresses and exactly the
/// TCP bytes as payload.
pub fn build_ipv4_packet(src: u32, dest: u32, tcp: &[u8]) -> (r: Vec<u8>)
    requires
        tcp@.len() <= 65515,
    ensures
        r@ == ipv4_packet_bytes(src, dest, tcp@),
        parse_ipv4_spec(r@) == Option::Some(
            IpInfo {
                ttl: NEW_PACKET_TTL,
                protocol: 6,
                source: crate::packet::IpAddress::V4(src),
                dest: crate::packet::IpAddress::V4(dest),
                payload: tcp@,
            },
        ),
        checksum_valid(r@.subrange(0, 20)),
{
    let tl = 20 + tcp.len();
    let mut r: Vec<u8> = Vec::new();
    r.push(0x45);
    r.push(0);
    r.push(((tl / 256) % 256) as u8);
    r.push((tl % 256) as u8);
    r.push(0);
    r.push(0);
    r.push(0);
    r.push(0);
    r.push(NEW_PACKET_TTL);
    r.push(6);
    r.push(0);
    r.push(0);
    r.push((src / 0x1000000) as u8);
    r.push(((src / 0x10000) % 256) as u8);
    r.push(((src / 256) % 256) as u8);
    r.push((src % 256) as u8);
    r.push((dest / 0x1000000) as u8);
    r.push(((dest / 0x10000) % 256) as u8);
    r.push(((dest / 256) % 256) as u8);
    r.push((dest % 256) as u8);
    let ghost h0 = Seq::new(20, |i: int| ipv4_header_byte(src, dest, tcp@.len() as int, 0, i));
    proof {
        assert(r@ =~= h0);
    }
    let ck = compute_checksum(r.as_slice());
    r[10] = (ck / 256) as u8;
    r[11] = (ck % 256) as u8;
    let ghost h1 = Seq::new(
        20,
        |i: int| ipv4_header_byte(src, dest, tcp@.len() as int, checksum_of(h0) as int, i),
    );
    proof {
        assert(r@ =~= h1);
        crate::checksum::lemma_words_sum_bound(h0, crate::checksum::num_words(h0));
        assert(crate::checksum::num_words(h0) * 0xffff < 0x1_0000_0000) by (nonlinear_arith)
            requires
                crate::checksum::num_words(h0) <= 11,
        ;
        assert(crate::checksum::word_at(h0, 5) == 0);
        crate::checksum::lemma_checksum_verifies(h0, 5);
        assert(h1 =~= h0.update(10, (checksum_of(h0) / 256) as u8).update(
            11,
            (checksum_of(h0) % 256) as u8,
        ));
    }
    let mut i: usize = 0;
    let n = tcp.len();
    while i < n
        invariant
            i <= n,
            n == tcp@.len(),
            r@ == h1 + tcp@.take(i as int),
        decreases n - i,
    {
        r.push(tcp[i]);
        proof {
            assert(r@ =~= h1 + tcp@.take(i + 1));
        }
        i += 1;
    }
    proof {
        assert(tcp@.take(tcp@.len() as int) =~= tcp@);
        assert(r@ =~= ipv4_packet_bytes(src, dest, tcp@));
        assert(r@.subrange(0, 20) =~= h1);
        assert(r@.subrange(20, r@.len() as int) =~= tcp@);
        lemma_u32_be_decomp(src);
        lemma_u32_be_decomp(dest);
        assert(be32_at(r@, 12) == src);
        assert(be32_at(r@, 16) == dest);
        assert(parse_ipv4_spec(r@) == Option::Some(
            IpInfo {
                ttl: NEW_PACKET_TTL,
                protocol: 6,
                source: crate::packet::IpAddress::V4(src),
                dest: crate::packet::IpAddress::V4(dest),
                payload: tcp@,
            },
        ));
    }
    r
}

/// Byte `i` of a fresh 40-byte IPv6 header around a TCP segment of
/// `tcp_len` bytes.
pub open spec fn ipv6_header_byte(src: u128, dst: u128, tcp_len: int, i: int) -> u8 {
    if i == 0 {
        0x60  // version 6
    } else if i == 4 {
        ((tcp_len / 256) % 256) as u8
    } else if i == 5 {
        (tcp_len % 256) as u8
    } else if i == 6 {
        6  // TCP
    } else if i == 7 {
        NEW_PACKET_TTL
    } else if 8 <= i < 24 {
        v6_byte(src, i - 8)
    } else if 24 <= i < 40 {
        v6_byte(dst, i - 24)
    } else {
        0
    }
}

/// The wire form of an injected IPv6 packet.
pub open spec fn ipv6_packet_bytes(src: u128, dst: u128, tcp: Seq<u8>) -> Seq<u8> {
    Seq::new(40, |i: int| ipv6_header_byte(src, dst, tcp.len() as int, i)) + tcp
}

/// Builds a fresh IPv6 packet around a TCP segment: version 6, hop limit
/// 64, next header TCP, correct payload length.  Re-parsing it yields the
/// original addresses and exactly the TCP bytes as payload.
#[verifier::rlimit(40)]
pub fn build_ipv6_packet(src: u128, dest: u128, tcp: &[u8]) -> (r: Vec<u8>)
    requires
        tcp@.len() <= 65535,
    ensures
        r@ == ipv6_packet_bytes(src, dest, tcp@),
        parse_ipv6_spec(r@) == Option::Some(
            IpInfo {
                ttl: NEW_PACKET_TTL,
                protocol: 6,
                source: crate::packet::IpAddress::V6(src),
                dest: crate::packet::IpAddress::V6(dest),
                payload: tcp@,
            },
        ),
{
    let mut r: Vec<u8> = Vec::new();
    r.push(0x60);
    r.push(0);
    r.push(0);
    r.push(0);
    r.push(((tcp.len() / 256) % 256) as u8);
    r.push((tcp.len() % 256) as u8);
    r.push(6);
    r.push(NEW_PACKET_TTL);
    let mut j: usize = 0;
    while j < 16
        invariant
            j <= 16,
            r@ == Seq::new(
                8,
                |i: int| ipv6_header_byte(src, dest, tcp@.len() as int, i),
            ) + Seq::new(j as nat, |i: int| v6_byte(src, i)),
        decreases 16 - j,
    {
        r.push(crate::packet::v6_byte_exec(src, j));
        proof {
            assert(r@ =~= Seq::new(
                8,
                |i: int| ipv6_header_byte(src, dest, tcp@.len() as int, i),
            ) + Seq::new((j + 1) as nat, |i: int| v6_byte(src, i)));
        }
        j += 1;
    }
    let mut k: usize = 0;
    while k < 16
        invariant
            k <= 16,
            r@ == Seq::new(
                24,
                |i: int| ipv6_header_byte(src, dest, tcp@.len() as int, i),
            ) + Seq::new(k as nat, |i: int| v6_byte(dest, i)),
        decreases 16 - k,
    {
        r.push(crate::packet::v6_byte_exec(dest, k));
        proof {
            assert(r@ =~= Seq::new(
                24,
                |i: int| ipv6_header_byte(src, dest, tcp@.len() as int, i),
            ) + Seq::new((k + 1) as nat, |i: int| v6_byte(dest, i)));
        }
        k += 1;
    }
    let ghost h = Seq::new(40, |i: int| ipv6_header_byte(src, dest, tcp@.len() as int, i));
    proof {
        assert(r@ =~= h);
    }
    let mut i: usize = 0;
    let n = tcp.len();
    while i < n
        invariant
            i <= n,
            n == tcp@.len(),
            r@ == h + tcp@.take(i as int),
        decreases n - i,
    {
        r.push(tcp[i]);
        proof {
            assert(r@ =~= h + tcp@.take(i + 1));
        }
        i += 1;
    }
    proof {
        assert(tcp@.take(tcp@.len() as int) =~= tcp@);
        assert(r@ =~= ipv6_packet_bytes(src, dest, tcp@));
        assert(r@.subrange(40, r@.len() as int) =~= tcp@);
        // the verifier needs the address bytes decoded back
        lemma_v6_bytes_value(src, r@, 8);
        lemma_v6_bytes_value(dest, r@, 24);
        assert(parse_ipv6_spec(r@) == Option::Some(
            IpInfo {
                ttl: NEW_PACKET_TTL,
                protocol: 6,
                source: crate::packet::IpAddress::V6(src),
                dest: crate::packet::IpAddress::V6(dest),
                payload: tcp@,
            },
        ));
    }
    r
}

/// Sixteen big-endian bytes of `x` read back as a 128-bit value give `x`.
proof fn lemma_v6_bytes_value(x: u128, b: Seq<u8>, i: int)
    requires
        0 <= i,
        i + 16 <= b.len(),
        forall|j: int| 0 <= j < 16 ==> b[i + j] == v6_byte(x, j),
    ensures
        be128_at(b, i) == x,
{
    lemma_u128_be_decomp(x);
    assert(b[i] == v6_byte(x, 0));
    assert(b[i + 1] == v6_byte(x, 1));
    assert(b[i + 2] == v6_byte(x, 2));
    assert(b[i + 3] == v6_byte(x, 3));
    assert(b[i + 4] == v6_byte(x, 4));
    assert(b[i + 5] == v6_byte(x, 5));
    assert(b[i + 6] == v6_byte(x, 6));
    assert(b[i + 7] == v6_byte(x, 7));
    assert(b[i + 8] == v6_byte(x, 8));
    assert(b[i + 9] == v6_byte(x, 9));
    assert(b[i + 10] == v6_byte(x, 10));
    assert(b[i + 11] == v6_byte(x, 11));
    assert(b[i + 12] == v6_byte(x, 12));
    assert(b[i + 13] == v6_byte(x, 13));
    assert(b[i + 14] == v6_byte(x, 14));
    assert(b[i + 15] == v6_byte(x, 15));
}

} // verus!
