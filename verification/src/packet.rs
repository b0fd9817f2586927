//! TCP segments, flow keys, and the RST forger.
//!
//! A TCP segment is modelled as plain fields plus option and payload bytes;
//! its wire form is given byte-by-byte by spec functions, and the checksum
//! contract is stated over the pseudo-header of the two endpoint addresses.

use vstd::prelude::*;

use crate::checksum::{checksum_of, checksum_valid, compute_checksum};

verus! {

/// The RST flag bit of the TCP flags field.
pub const TCP_FLAG_RST: u16 = 4;

/// The SYN flag bit of the TCP flags field.
pub const TCP_FLAG_SYN: u16 = 2;

/// An IPv4 or IPv6 address as its numeric (big-endian) value.
#[derive(PartialEq, Eq, Structural, Clone, Copy, Debug, Hash)]
pub enum IpAddress {
    V4(u32),
    V6(u128),
}

/// A TCP connection's 4-tuple.
#[derive(PartialEq, Eq, Structural, Clone, Copy, Debug, Hash)]
pub struct TcpFlow {
    pub source_ip: IpAddress,
    pub dest_ip: IpAddress,
    pub source_port: u16,
    pub dest_port: u16,
}

impl TcpFlow {
    /// The same conversation seen from the other direction.
    pub fn reverse(self) -> (r: TcpFlow)
        ensures
            r.source_ip == self.dest_ip,
            r.dest_ip == self.source_ip,
            r.source_port == self.dest_port,
            r.dest_port == self.source_port,
    {
        TcpFlow {
            source_ip: self.dest_ip,
            dest_ip: self.source_ip,
            source_port: self.dest_port,
            dest_port: self.source_port,
        }
    }
}

/// A TCP segment, decoded.  `flags` holds the nine flag bits (NS in bit 8);
/// `options` the raw option bytes between header and payload.
pub struct TcpSegment {
    pub source_port: u16,
    pub dest_port: u16,
    pub sequence: u32,
    pub acknowledgement: u32,
    pub data_offset: u8,
    pub flags: u16,
    pub window: u16,
    pub checksum: u16,
    pub urgent_pointer: u16,
    pub options: Vec<u8>,
    pub payload: Vec<u8>,
}

/// Abstract value of a TCP segment.
pub ghost struct TcpSegModel {
    pub source_port: u16,
    pub dest_port: u16,
    pub sequence: u32,
    pub acknowledgement: u32,
    pub data_offset: u8,
    pub flags: u16,
    pub window: u16,
    pub checksum: u16,
    pub urgent_pointer: u16,
    pub options: Seq<u8>,
    pub payload: Seq<u8>,
}

impl View for TcpSegment {
    type V = TcpSegModel;

    open spec fn view(&self) -> TcpSegModel {
        TcpSegModel {
            source_port: self.source_port,
            dest_port: self.dest_port,
            sequence: self.sequence,
            acknowledgement: self.acknowledgement,
            data_offset: self.data_offset,
            flags: self.flags,
            window: self.window,
            checksum: self.checksum,
            urgent_pointer: self.urgent_pointer,
            options: self.options@,
            payload: self.payload@,
        }
    }
}

/// A segment whose fields can be laid out on the wire: flag bits fit in 9
/// bits, the data offset is consistent with the option bytes, and the whole
/// segment fits in an IP packet.
pub open spec fn tcp_wf(m: TcpSegModel) -> bool {
    &&& m.flags < 512
    &&& 5 <= m.data_offset <= 15
    &&& m.options.len() == 4 * (m.data_offset - 5)
    &&& m.payload.len() <= 65536
}

/// Byte `i` of the 20-byte TCP base header.
pub open spec fn tcp_header_byte(m: TcpSegModel, i: int) -> u8 {
    if i == 0 {
        (m.source_port / 256) as u8
    } else if i == 1 {
        (m.source_port % 256) as u8
    } else if i == 2 {
        (m.dest_port / 256) as u8
    } else if i == 3 {
        (m.dest_port % 256) as u8
    } else if i == 4 {
        (m.sequence / 0x1000000) as u8
    } else if i == 5 {
        ((m.sequence / 0x10000) % 256) as u8
    } else if i == 6 {
        ((m.sequence / 256) % 256) as u8
    } else if i == 7 {
        (m.sequence % 256) as u8
    } else if i == 8 {
        (m.acknowledgement / 0x1000000) as u8
    } else if i == 9 {
        ((m.acknowledgement / 0x10000) % 256) as u8
    } else if i == 10 {
        ((m.acknowledgement / 256) % 256) as u8
    } else if i == 11 {
        (m.acknowledgement % 256) as u8
    } else if i == 12 {
        (m.data_offset * 16 + m.flags / 256) as u8
    } else if i == 13 {
        (m.flags % 256) as u8
    } else if i == 14 {
        (m.window / 256) as u8
    } else if i == 15 {
        (m.window % 256) as u8
    } else if i == 16 {
        (m.checksum / 256) as u8
    } else if i == 17 {
        (m.checksum % 256) as u8
    } else if i == 18 {
        (m.urgent_pointer / 256) as u8
    } else {
        (m.urgent_pointer % 256) as u8
    }
}

/// The wire form of a TCP segment.
pub open spec fn tcp_segment_bytes(m: TcpSegModel) -> Seq<u8> {
    Seq::new(20, |i: int| tcp_header_byte(m, i)) + m.options + m.payload
}

/// Serializes a TCP segment to its wire form.
pub fn tcp_to_bytes(s: &TcpSegment) -> (r: Vec<u8>)
    requires
        tcp_wf(s@),
    ensures
        r@ == tcp_segment_bytes(s@),
{
    let mut r: Vec<u8> = Vec::new();
    r.push((s.source_port / 256) as u8);
    r.push((s.source_port % 256) as u8);
    r.push((s.dest_port / 256) as u8);
    r.push((s.dest_port % 256) as u8);
    r.push((s.sequence / 0x1000000) as u8);
    r.push(((s.sequence / 0x10000) % 256) as u8);
    r.push(((s.sequence / 256) % 256) as u8);
    r.push((s.sequence % 256) as u8);
    r.push((s.acknowledgement / 0x1000000) as u8);
    r.push(((s.acknowledgement / 0x10000) % 256) as u8);
    r.push(((s.acknowledgement / 256) % 256) as u8);
    r.push((s.acknowledgement % 256) as u8);
    r.push((s.data_offset * 16 + (s.flags / 256) as u8));
    r.push((s.flags % 256) as u8);
    r.push((s.window / 256) as u8);
    r.push((s.window % 256) as u8);
    r.push((s.checksum / 256) as u8);
    r.push((s.checksum % 256) as u8);
    r.push((s.urgent_pointer / 256) as u8);
    r.push((s.urgent_pointer % 256) as u8);
    let mut i: usize = 0;
    while i < s.options.len()
        invariant
            i <= s.options@.len(),
            r@ == Seq::new(20, |k: int| tcp_header_byte(s@, k)) + s.options@.take(i as int),
            tcp_wf(s@),
        decreases s.options@.len() - i,
    {
        r.push(s.options[i]);
        proof {
            assert(r@ =~= Seq::new(20, |k: int| tcp_header_byte(s@, k)) + s.options@.take(
                i + 1,
            ));
        }
        i += 1;
    }
    proof {
        assert(s.options@.take(s.options@.len() as int) =~= s.options@);
    }
    let mut j: usize = 0;
    while j < s.payload.len()
        invariant
            j <= s.payload@.len(),
            r@ == Seq::new(20, |k: int| tcp_header_byte(s@, k)) + s.options@ + s.payload@.take(
                j as int,
            ),
            tcp_wf(s@),
        decreases s.payload@.len() - j,
    {
        r.push(s.payload[j]);
        proof {
            assert(r@ =~= Seq::new(20, |k: int| tcp_header_byte(s@, k)) + s.options@
                + s.payload@.take(j + 1));
        }
        j += 1;
    }
    proof {
        assert(s.payload@.take(s.payload@.len() as int) =~= s.payload@);
        assert(r@ =~= tcp_segment_bytes(s@));
    }
    r
}

/// Decoding of a TCP segment from wire bytes, as the dispatcher sees it.
pub open spec fn parse_tcp_spec(b: Seq<u8>) -> Option<TcpSegModel> {
    if b.len() < 20 {
        Option::None
    } else {
        let off = b[12] / 16;
        if off < 5 || b.len() < 4 * off {
            Option::None
        } else {
            Option::Some(
                TcpSegModel {
                    source_port: (256 * b[0] + b[1]) as u16,
                    dest_port: (256 * b[2] + b[3]) as u16,
                    sequence: (0x1000000 * b[4] + 0x10000 * b[5] + 256 * b[6] + b[7]) as u32,
                    acknowledgement: (0x1000000 * b[8] + 0x10000 * b[9] + 256 * b[10]
                        + b[11]) as u32,
                    data_offset: off,
                    flags: (256 * (b[12] % 2) + b[13]) as u16,
                    window: (256 * b[14] + b[15]) as u16,
                    checksum: (256 * b[16] + b[17]) as u16,
                    urgent_pointer: (256 * b[18] + b[19]) as u16,
                    options: b.subrange(20, 4 * off),
                    payload: b.skip(4 * off),
                },
            )
        }
    }
}

/// Decodes a TCP segment from wire bytes.
pub fn parse_tcp(b: &[u8]) -> (r: Option<TcpSegment>)
    ensures
        match r {
            Option::Some(s) => parse_tcp_spec(b@) == Option::Some(s@),
            Option::None => parse_tcp_spec(b@) is None,
        },
{
    if b.len() < 20 {
        return Option::None;
    }
    let off = b[12] / 16;
    if off < 5 {
        return Option::None;
    }
    let hdr = 4 * (off as usize);
    if b.len() < hdr {
        return Option::None;
    }
    let options = vstd::slice::slice_to_vec(&b[20..hdr]);
    let payload = vstd::slice::slice_to_vec(&b[hdr..b.len()]);
    Option::Some(
        TcpSegment {
            source_port: 256 * (b[0] as u16) + (b[1] as u16),
            dest_port: 256 * (b[2] as u16) + (b[3] as u16),
            sequence: 0x1000000 * (b[4] as u32) + 0x10000 * (b[5] as u32) + 256 * (b[6] as u32) + (
            b[7] as u32),
            acknowledgement: 0x1000000 * (b[8] as u32) + 0x10000 * (b[9] as u32) + 256 * (
            b[10] as u32) + (b[11] as u32),
            data_offset: off,
            flags: 256 * ((b[12] % 2) as u16) + (b[13] as u16),
            window: 256 * (b[14] as u16) + (b[15] as u16),
            checksum: 256 * (b[16] as u16) + (b[17] as u16),
            urgent_pointer: 256 * (b[18] as u16) + (b[19] as u16),
            options,
            payload,
        },
    )
}

/// The 12-byte IPv4 pseudo-header over which a TCP checksum is computed.
pub open spec fn pseudo_v4_byte(src: u32, dst: u32, tcp_len: int, i: int) -> u8 {
    if i == 0 {
        (src / 0x1000000) as u8
    } else if i == 1 {
        ((src / 0x10000) % 256) as u8
    } else if i == 2 {
        ((src / 256) % 256) as u8
    } else if i == 3 {
        (src % 256) as u8
    } else if i == 4 {
        (dst / 0x1000000) as u8
    } else if i == 5 {
        ((dst / 0x10000) % 256) as u8
    } else if i == 6 {
        ((dst / 256) % 256) as u8
    } else if i == 7 {
        (dst % 256) as u8
    } else if i == 8 {
        0
    } else if i == 9 {
        6  // TCP
    } else if i == 10 {
        ((tcp_len / 256) % 256) as u8
    } else {
        (tcp_len % 256) as u8
    }
}

pub open spec fn pseudo_v4(src: u32, dst: u32, tcp_len: int) -> Seq<u8> {
    Seq::new(12, |i: int| pseudo_v4_byte(src, dst, tcp_len, i))
}

/// Byte `j` (big-endian) of an IPv6 address.
pub open spec fn v6_byte(x: u128, j: int) -> u8 {
    if j == 0 {
        (x / 0x1000000000000000000000000000000) as u8
    } else if j == 1 {
        ((x / 0x10000000000000000000000000000) % 256) as u8
    } else if j == 2 {
        ((x / 0x100000000000000000000000000) % 256) as u8
    } else if j == 3 {
        ((x / 0x1000000000000000000000000) % 256) as u8
    } else if j == 4 {
        ((x / 0x10000000000000000000000) % 256) as u8
    } else if j == 5 {
        ((x / 0x100000000000000000000) % 256) as u8
    } else if j == 6 {
        ((x / 0x1000000000000000000) % 256) as u8
    } else if j == 7 {
        ((x / 0x10000000000000000) % 256) as u8
    } else if j == 8 {
        ((x / 0x100000000000000) % 256) as u8
    } else if j == 9 {
        ((x / 0x1000000000000) % 256) as u8
    } else if j == 10 {
        ((x / 0x10000000000) % 256) as u8
    } else if j == 11 {
        ((x / 0x100000000) % 256) as u8
    } else if j == 12 {
        ((x / 0x1000000) % 256) as u8
    } else if j == 13 {
        ((x / 0x10000) % 256) as u8
    } else if j == 14 {
        ((x / 256) % 256) as u8
    } else {
        (x % 256) as u8
    }
}

/// Byte `j` of an IPv6 address, executable form.
pub fn v6_byte_exec(x: u128, j: usize) -> (r: u8)
    requires
        j < 16,
    ensures
        r == v6_byte(x, j as int),
{
    if j == 0 {
        (x / 0x1000000000000000000000000000000) as u8
    } else if j == 1 {
        ((x / 0x10000000000000000000000000000) % 256) as u8
    } else if j == 2 {
        ((x / 0x100000000000000000000000000) % 256) as u8
    } else if j == 3 {
        ((x / 0x1000000000000000000000000) % 256) as u8
    } else if j == 4 {
        ((x / 0x10000000000000000000000) % 256) as u8
    } else if j == 5 {
        ((x / 0x100000000000000000000) % 256) as u8
    } else if j == 6 {
        ((x / 0x1000000000000000000) % 256) as u8
    } else if j == 7 {
        ((x / 0x10000000000000000) % 256) as u8
    } else if j == 8 {
        ((x / 0x100000000000000) % 256) as u8
    } else if j == 9 {
        ((x / 0x1000000000000) % 256) as u8
    } else if j == 10 {
        ((x / 0x10000000000) % 256) as u8
    } else if j == 11 {
        ((x / 0x100000000) % 256) as u8
    } else if j == 12 {
        ((x / 0x1000000) % 256) as u8
    } else if j == 13 {
        ((x / 0x10000) % 256) as u8
    } else if j == 14 {
        ((x / 256) % 256) as u8
    } else {
        (x % 256) as u8
    }
}

/// The 40-byte IPv6 pseudo-header over which a TCP checksum is computed:
/// source, destination, 32-bit TCP length, three zero bytes, next header 6.
pub open spec fn pseudo_v6_byte(src: u128, dst: u128, tcp_len: int, i: int) -> u8 {
    if 0 <= i < 16 {
        v6_byte(src, i)
    } else if 16 <= i < 32 {
        v6_byte(dst, i - 16)
    } else if i == 32 {
        ((tcp_len / 0x1000000) % 256) as u8
    } else if i == 33 {
        ((tcp_len / 0x10000) % 256) as u8
    } else if i == 34 {
        ((tcp_len / 256) % 256) as u8
    } else if i == 35 {
        (tcp_len % 256) as u8
    } else if i <= 38 {
        0
    } else {
        6  // TCP
    }
}

pub open spec fn pseudo_v6(src: u128, dst: u128, tcp_len: int) -> Seq<u8> {
    Seq::new(40, |i: int| pseudo_v6_byte(src, dst, tcp_len, i))
}

/// The pseudo-header of two endpoint addresses of the same family; mixed
/// families have none.
pub open spec fn pseudo_header(a1: IpAddress, a2: IpAddress, tcp_len: int) -> Option<Seq<u8>> {
    match (a1, a2) {
        (IpAddress::V4(s), IpAddress::V4(d)) => Option::Some(pseudo_v4(s, d, tcp_len)),
        (IpAddress::V6(s), IpAddress::V6(d)) => Option::Some(pseudo_v6(s, d, tcp_len)),
        _ => Option::None,
    }
}

/// The minimum-size RST segment aimed back at the sender of `p`: ports
/// swapped, the given sequence number, acknowledgement 0, data offset 5,
/// only the RST flag, and no checksum yet.
pub open spec fn return_rst_model(p: TcpSegModel, seqno: u32) -> TcpSegModel {
    TcpSegModel {
        source_port: p.dest_port,
        dest_port: p.source_port,
        sequence: seqno,
        acknowledgement: 0,
        data_offset: 5,
        flags: TCP_FLAG_RST,
        window: 0,
        checksum: 0,
        urgent_pointer: 0,
        options: Seq::<u8>::empty(),
        payload: Seq::<u8>::empty(),
    }
}

/// Creates an empty RST segment going in the opposite direction of
/// `original`, with the given sequence number and a minimum-size header.
pub fn generate_return_rst(original: &TcpSegment, seqno: u32) -> (r: TcpSegment)
    ensures
        r@ == return_rst_model(original@, seqno),
        tcp_wf(r@),
{
    let r = TcpSegment {
        source_port: original.dest_port,
        dest_port: original.source_port,
        sequence: seqno,
        acknowledgement: 0,
        data_offset: 5,
        flags: TCP_FLAG_RST,
        window: 0,
        checksum: 0,
        urgent_pointer: 0,
        options: Vec::new(),
        payload: Vec::new(),
    };
    proof {
        assert(r@.options =~= Seq::<u8>::empty());
        assert(r@.payload =~= Seq::<u8>::empty());
    }
    r
}

/// A segment carries a verifiable checksum for the endpoint pair `(a1, a2)`:
/// the folded one's-complement sum of its pseudo-header and wire bytes is
/// `0xffff`.  Which address is source and which destination does not matter.
pub open spec fn segment_checksum_ok(m: TcpSegModel, a1: IpAddress, a2: IpAddress) -> bool {
    match pseudo_header(a1, a2, tcp_segment_bytes(m).len() as int) {
        Option::Some(ph) => checksum_valid(ph + tcp_segment_bytes(m)),
        Option::None => true,
    }
}

/// The segment with its checksum field set to the Internet checksum of the
/// pseudo-header for `(a1, a2)` followed by the segment's zero-checksum
/// wire bytes; for a mixed address pair, the segment unchanged.
pub open spec fn with_checksum_for(m: TcpSegModel, a1: IpAddress, a2: IpAddress) -> TcpSegModel {
    let z = TcpSegModel { checksum: 0, ..m };
    match pseudo_header(a1, a2, tcp_segment_bytes(z).len() as int) {
        Option::Some(ph) => TcpSegModel {
            checksum: checksum_of(ph + tcp_segment_bytes(z)) as u16,
            ..m
        },
        Option::None => m,
    }
}

/// Computes and installs the TCP checksum of `packet` for the endpoint pair
/// `(addr_1, addr_2)`: exactly the checksum `with_checksum_for` says.  For
/// a mixed address pair the segment is unchanged.
pub fn set_tcp_checksum(packet: &mut TcpSegment, addr_1: IpAddress, addr_2: IpAddress)
    requires
        tcp_wf(old(packet)@),
    ensures
        tcp_wf(final(packet)@),
        final(packet)@ == with_checksum_for(old(packet)@, addr_1, addr_2),
        segment_checksum_ok(final(packet)@, addr_1, addr_2),
{
    let same_family = match (addr_1, addr_2) {
        (IpAddress::V4(_), IpAddress::V4(_)) => true,
        (IpAddress::V6(_), IpAddress::V6(_)) => true,
        _ => false,
    };
    if !same_family {
        return ;
    }
    packet.checksum = 0;
    let tcp = tcp_to_bytes(packet);
    let mut buf: Vec<u8> = Vec::new();
    let ghost zeroed = packet@;
    match (addr_1, addr_2) {
        (IpAddress::V4(s), IpAddress::V4(d)) => {
            buf.push((s / 0x1000000) as u8);
            buf.push(((s / 0x10000) % 256) as u8);
            buf.push(((s / 256) % 256) as u8);
            buf.push((s % 256) as u8);
            buf.push((d / 0x1000000) as u8);
            buf.push(((d / 0x10000) % 256) as u8);
            buf.push(((d / 256) % 256) as u8);
            buf.push((d % 256) as u8);
            buf.push(0);
            buf.push(6);
            buf.push(((tcp.len() / 256) % 256) as u8);
            buf.push((tcp.len() % 256) as u8);
            proof {
                assert(buf@ =~= pseudo_v4(s, d, tcp_segment_bytes(zeroed).len() as int));
            }
        },
        (IpAddress::V6(s), IpAddress::V6(d)) => {
            let mut j: usize = 0;
            while j < 16
                invariant
                    j <= 16,
                    buf@ == Seq::new(j as nat, |i: int| v6_byte(s, i)),
                decreases 16 - j,
            {
                buf.push(v6_byte_exec(s, j));
                proof {
                    assert(buf@ =~= Seq::new((j + 1) as nat, |i: int| v6_byte(s, i)));
                }
                j += 1;
            }
            let mut k: usize = 0;
            while k < 16
                invariant
                    k <= 16,
                    buf@ == Seq::new(16, |i: int| v6_byte(s, i)) + Seq::new(
                        k as nat,
                        |i: int| v6_byte(d, i),
                    ),
                decreases 16 - k,
            {
                buf.push(v6_byte_exec(d, k));
                proof {
                    assert(buf@ =~= Seq::new(16, |i: int| v6_byte(s, i)) + Seq::new(
                        (k + 1) as nat,
                        |i: int| v6_byte(d, i),
                    ));
                }
                k += 1;
            }
            buf.push(((tcp.len() / 0x1000000) % 256) as u8);
            buf.push(((tcp.len() / 0x10000) % 256) as u8);
            buf.push(((tcp.len() / 256) % 256) as u8);
            buf.push((tcp.len() % 256) as u8);
            buf.push(0);
            buf.push(0);
            buf.push(0);
            buf.push(6);
            proof {
                assert(buf@ =~= pseudo_v6(s, d, tcp_segment_bytes(zeroed).len() as int));
            }
        },
        _ => {
            proof {
                assert(false);
            }
        },
    }
    let ghost ph = buf@;
    let mut i: usize = 0;
    let n = tcp.len();
    while i < n
        invariant
            i <= n,
            n == tcp@.len(),
            buf@ == ph + tcp@.take(i as int),
        decreases n - i,
    {
        buf.push(tcp[i]);
        proof {
            assert(buf@ =~= ph + tcp@.take(i + 1));
        }
        i += 1;
    }
    proof {
        assert(tcp@.take(tcp@.len() as int) =~= tcp@);
    }
    let ck = compute_checksum(buf.as_slice());
    packet.checksum = ck;
    proof {
        let whole = ph + tcp_segment_bytes(zeroed);
        let p = (ph.len() + 16) as int / 2;
        assert(crate::checksum::word_at(whole, p) == 0);
        assert(whole.len() <= 40 + 20 + 40 + 65536);
        crate::checksum::lemma_words_sum_bound(whole, crate::checksum::num_words(whole));
        assert(crate::checksum::num_words(whole) * 0xffff < 0x1_0000_0000) by (nonlinear_arith)
            requires
                crate::checksum::num_words(whole) <= 32900,
        ;
        crate::checksum::lemma_checksum_verifies(whole, p);
        let c = checksum_of(whole);
        assert(ph + tcp_segment_bytes(packet@) =~= whole.update(2 * p, (c / 256) as u8).update(
            2 * p + 1,
            (c % 256) as u8,
        ));
    }
}

} // verus!
