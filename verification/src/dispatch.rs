//! The packet dispatcher: classification and re-framing.
//!
//! For every raw IP packet observed on the wire: decode the IP and TCP
//! headers, classify the packet as outgoing or incoming relative to the
//! monitored client address, hand it to the middlebox, and either forward
//! the original unchanged or emit the two RST segments wrapped in fresh IP
//! packets in its place.  Anything that is not TCP to or from the client —
//! and anything malformed — passes through untouched.

use vstd::prelude::*;

use crate::cert_verify::ChainVerifier;
use crate::ip::{
    build_ipv4_packet, build_ipv6_packet, ipv4_packet_bytes, ipv6_packet_bytes, parse_ip,
    parse_ipv4_spec, parse_ipv6_spec, IpInfo,
};
use crate::middlebox::{
    flow_update_ok, fresh_flow_model, has_rst, has_syn, rst_or, rst_seq_of,
    TlsvMiddlebox, TlsvResult,
};
use crate::packet::{
    parse_tcp, parse_tcp_spec, segment_checksum_ok, tcp_segment_bytes, tcp_to_bytes, tcp_wf,
    with_checksum_for, IpAddress, TcpFlow, TcpSegModel,
};

verus! {

/// What the capture loop should do with the observed packet.
pub enum DispatchAction {
    /// Forward the original packet unchanged.
    Forward,
    /// Drop the original and inject these two raw IP packets instead.
    Inject { first: Vec<u8>, second: Vec<u8> },
}

/// The IP packet the dispatcher reads out of `raw`, if any.  The version
/// nibble decides the family, so at most one of the two decodings holds.
pub open spec fn observed_ip(raw: Seq<u8>) -> Option<IpInfo> {
    if parse_ipv4_spec(raw) is Some {
        parse_ipv4_spec(raw)
    } else {
        parse_ipv6_spec(raw)
    }
}

/// The TCP segment the middlebox will inspect: the packet must carry
/// protocol TCP, a payload that fits an IP packet, and a decodable TCP
/// header.
pub open spec fn carried_segment(info: IpInfo) -> Option<TcpSegModel> {
    if info.protocol == 6 && info.payload.len() <= 65515 {
        parse_tcp_spec(info.payload)
    } else {
        Option::None
    }
}

/// The packet's direction relative to the monitored client: outgoing when
/// its source is the client, incoming when its destination is, neither
/// otherwise (such packets pass through).
pub open spec fn monitored_direction(info: IpInfo, client_ip: IpAddress) -> Option<bool> {
    if info.source == client_ip {
        Option::Some(true)
    } else if info.dest == client_ip {
        Option::Some(false)
    } else {
        Option::None
    }
}

/// The canonical (client→server) flow key of the packet.
pub open spec fn flow_key_of(info: IpInfo, seg: TcpSegModel, is_outgoing: bool) -> TcpFlow {
    if is_outgoing {
        TcpFlow {
            source_ip: info.source,
            dest_ip: info.dest,
            source_port: seg.source_port,
            dest_port: seg.dest_port,
        }
    } else {
        TcpFlow {
            source_ip: info.dest,
            dest_ip: info.source,
            source_port: seg.dest_port,
            dest_port: seg.source_port,
        }
    }
}

/// Handles one observed raw IP packet.  A packet that is not IP, not TCP,
/// or unrelated to the client passes through with the middlebox untouched.
/// A monitored packet drives its flow exactly as `process_outgoing` /
/// `process_incoming` specify, the result is `Inject` precisely when that
/// flow is now condemned, and the injected packets are byte-exactly the
/// fresh IP framings of the two RST segments: the offending segment with
/// RST set towards the original destination, and the minimum reverse
/// segment at the peer's expected sequence number back towards the source.
pub fn dispatch_packet<V: ChainVerifier>(
    middlebox: &mut TlsvMiddlebox<V>,
    raw: &[u8],
    client_ip: IpAddress,
    now: u64,
) -> (r: DispatchAction)
    requires
        old(middlebox).wf(),
    ensures
        final(middlebox).wf(),
        ({
            match observed_ip(raw@) {
                Option::None => r is Forward && *final(middlebox) == *old(middlebox),
                Option::Some(info) => match carried_segment(info) {
                    Option::None => r is Forward && *final(middlebox) == *old(middlebox),
                    Option::Some(seg) => match monitored_direction(info, client_ip) {
                        Option::None => r is Forward && *final(middlebox) == *old(middlebox),
                        Option::Some(is_outgoing) => {
                            let flow = flow_key_of(info, seg, is_outgoing);
                            &&& forall|f: TcpFlow|
                                f != flow ==> #[trigger] final(middlebox).flow_of(f)
                                    == old(middlebox).flow_of(f)
                            &&& match old(middlebox).flow_of(flow) {
                                Option::Some(prior) => final(middlebox).flow_of(flow)
                                    matches Option::Some(m) && flow_update_ok(
                                    prior,
                                    m,
                                    seg,
                                    is_outgoing,
                                    now,
                                    flow.dest_ip,
                                ),
                                Option::None => if has_syn(seg.flags) {
                                    final(middlebox).flow_of(flow) matches Option::Some(m)
                                        && flow_update_ok(
                                        fresh_flow_model(seg, is_outgoing, now),
                                        m,
                                        seg,
                                        is_outgoing,
                                        now,
                                        flow.dest_ip,
                                    )
                                } else {
                                    *final(middlebox) == *old(middlebox)
                                },
                            }
                            &&& ((r is Inject) <==> (final(middlebox).flow_of(flow)
                                matches Option::Some(m) && m.status is Bad))
                            &&& (r matches DispatchAction::Inject { first, second }
                                ==> (final(middlebox).flow_of(flow) matches Option::Some(m) && {
                                let fw = with_checksum_for(
                                    (TcpSegModel { flags: rst_or(seg.flags), ..seg }),
                                    info.source,
                                    info.dest,
                                );
                                let rp = with_checksum_for(
                                    crate::packet::return_rst_model(
                                        seg,
                                        rst_seq_of(m, is_outgoing),
                                    ),
                                    info.source,
                                    info.dest,
                                );
                                match (info.source, info.dest) {
                                    (IpAddress::V4(s4), IpAddress::V4(d4)) => first@
                                        == ipv4_packet_bytes(s4, d4, tcp_segment_bytes(fw))
                                        && second@ == ipv4_packet_bytes(
                                        d4,
                                        s4,
                                        tcp_segment_bytes(rp),
                                    ),
                                    (IpAddress::V6(s6), IpAddress::V6(d6)) => first@
                                        == ipv6_packet_bytes(s6, d6, tcp_segment_bytes(fw))
                                        && second@ == ipv6_packet_bytes(
                                        d6,
                                        s6,
                                        tcp_segment_bytes(rp),
                                    ),
                                    _ => false,
                                }
                            }))
                        },
                    },
                },
            }
        }),
{
    let parsed = parse_ip(raw);
    let ip = match parsed {
        Option::None => {
            return DispatchAction::Forward;
        },
        Option::Some(p) => p,
    };
    proof {
        // the version nibble makes the two decodings mutually exclusive
        assert(parse_ipv4_spec(raw@) is Some ==> parse_ipv6_spec(raw@) is None);
        assert(observed_ip(raw@) == Option::Some(crate::ip::parsed_ip_view(ip)));
        // both addresses come from one header, so they share a family
        assert(ip.source is V4 <==> ip.dest is V4);
    }
    if ip.protocol != 6 {
        return DispatchAction::Forward;
    }
    if ip.payload.len() > 65515 {
        return DispatchAction::Forward;
    }
    let seg = match parse_tcp(ip.payload.as_slice()) {
        Option::None => {
            return DispatchAction::Forward;
        },
        Option::Some(s) => s,
    };
    proof {
        assert(carried_segment(crate::ip::parsed_ip_view(ip)) == Option::Some(seg@));
        assert(seg@.payload.len() <= 65515);
        assert(tcp_wf(seg@));
    }
    let flow = TcpFlow {
        source_ip: ip.source,
        dest_ip: ip.dest,
        source_port: seg.source_port,
        dest_port: seg.dest_port,
    };
    let is_outgoing = if ip.source == client_ip {
        true
    } else if ip.dest == client_ip {
        false
    } else {
        return DispatchAction::Forward;
    };
    let monitored_flow = if is_outgoing {
        flow
    } else {
        flow.reverse()
    };
    proof {
        assert(monitored_direction(crate::ip::parsed_ip_view(ip), client_ip) == Option::Some(
            is_outgoing,
        ));
        assert(monitored_flow == flow_key_of(crate::ip::parsed_ip_view(ip), seg@, is_outgoing));
    }
    let result = if is_outgoing {
        middlebox.process_outgoing(&seg, monitored_flow, now)
    } else {
        middlebox.process_incoming(&seg, monitored_flow, now)
    };
    match result {
        TlsvResult::Cleared => DispatchAction::Forward,
        TlsvResult::Invalid { forward_packet, return_packet } => {
            proof {
                assert(forward_packet@.options.len() == seg@.options.len());
                assert(forward_packet@.payload.len() == seg@.payload.len());
                assert(tcp_segment_bytes(forward_packet@).len() <= 65515);
                assert(tcp_segment_bytes(return_packet@).len() == 20);
            }
            let ftcp = tcp_to_bytes(&forward_packet);
            let rtcp = tcp_to_bytes(&return_packet);
            match (ip.source, ip.dest) {
                (IpAddress::V4(s), IpAddress::V4(d)) => {
                    let first = build_ipv4_packet(s, d, ftcp.as_slice());
                    let second = build_ipv4_packet(d, s, rtcp.as_slice());
                    proof {
                        let info = crate::ip::parsed_ip_view(ip);
                        assert(segment_checksum_ok(forward_packet@, info.source, info.dest));
                        assert(segment_checksum_ok(return_packet@, info.source, info.dest));
                        assert(has_rst(forward_packet@.flags) && has_rst(return_packet@.flags));
                        assert(first@ == ipv4_packet_bytes(
                            s,
                            d,
                            tcp_segment_bytes(forward_packet@),
                        ));
                        assert(second@ == ipv4_packet_bytes(
                            d,
                            s,
                            tcp_segment_bytes(return_packet@),
                        ));
                    }
                    DispatchAction::Inject { first, second }
                },
                (IpAddress::V6(s), IpAddress::V6(d)) => {
                    let first = build_ipv6_packet(s, d, ftcp.as_slice());
                    let second = build_ipv6_packet(d, s, rtcp.as_slice());
                    proof {
                        let info = crate::ip::parsed_ip_view(ip);
                        assert(segment_checksum_ok(forward_packet@, info.source, info.dest));
                        assert(segment_checksum_ok(return_packet@, info.source, info.dest));
                        assert(has_rst(forward_packet@.flags) && has_rst(return_packet@.flags));
                        assert(first@ == ipv6_packet_bytes(
                            s,
                            d,
                            tcp_segment_bytes(forward_packet@),
                        ));
                        assert(second@ == ipv6_packet_bytes(
                            d,
                            s,
                            tcp_segment_bytes(return_packet@),
                        ));
                    }
                    DispatchAction::Inject { first, second }
                },
                _ => {
                    proof {
                        // unreachable: one IP packet cannot mix address
                        // families
                        assert(false);
                    }
                    DispatchAction::Forward
                },
            }
        },
    }
}

} // verus!
