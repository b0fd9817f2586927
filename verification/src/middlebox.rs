//! The per-flow state machine and the middlebox flow table.
//!
//! Each flow moves through the phases awaiting-ClientHello →
//! awaiting-ServerHello → awaiting-Certificate → cleared or bad.  Non-TLS
//! traffic, handshakes this middlebox cannot inspect (TLS 1.3 and older
//! than 1.2), and anything that fails to parse clear the flow: only a
//! ClientHello without SNI or a certificate chain that fails validation
//! condemns it.

use vstd::prelude::*;

use crate::buffer_props::empty_model;
use crate::cert_verify::{ChainVerifier, SniName, SniNameModel};
use crate::packet::{IpAddress, TcpFlow, TcpSegment};
use crate::protocol::{
    read_handshake_msg, read_record, HandshakePayload, HsSummary, RecordOutcome, SniSpec, SniValue,
};
use crate::seqnum::{seq_distance, seq_newer};
use crate::tcp_buffer::{add_model, data_model, drain_model, BufModel, TcpBuffer};

verus! {

/// Capacity of every reassembly buffer: room for two maximum-size TLS
/// records with their headers.
pub const BUFFER_CAPACITY: usize = 2 * (5 + 16384);

/// A server-direction reassembly buffer together with the server name the
/// flow's certificate chain must validate against.
pub struct ServerBuffer {
    pub buffer: TcpBuffer,
    pub server_name: SniName,
}

/// Where a flow stands in the TLS handshake.
pub enum Status {
    /// The peer initiated this connection; it is never validated.
    PeerInitiated,
    /// The flow is allowed to continue; no further parsing happens.
    Cleared,
    /// The flow must be reset; every subsequent packet triggers RSTs.
    Bad,
    /// Client-initiated; sniffing the client bytes for a ClientHello.
    WaitForClientHello(TcpBuffer),
    /// ClientHello seen; sniffing the server bytes for a ServerHello.
    WaitForServerHello(ServerBuffer),
    /// ServerHello seen; sniffing the server bytes for the Certificate.
    WaitForCerts(ServerBuffer),
}

/// Abstract value of a flow's phase.
pub ghost enum StatusModel {
    PeerInitiated,
    Cleared,
    Bad,
    WaitForClientHello(BufModel),
    WaitForServerHello(BufModel, SniNameModel),
    WaitForCerts(BufModel, SniNameModel),
}

impl View for Status {
    type V = StatusModel;

    open spec fn view(&self) -> StatusModel {
        match self {
            Status::PeerInitiated => StatusModel::PeerInitiated,
            Status::Cleared => StatusModel::Cleared,
            Status::Bad => StatusModel::Bad,
            Status::WaitForClientHello(b) => StatusModel::WaitForClientHello(b@),
            Status::WaitForServerHello(sb) => StatusModel::WaitForServerHello(
                sb.buffer@,
                sb.server_name@,
            ),
            Status::WaitForCerts(sb) => StatusModel::WaitForCerts(sb.buffer@, sb.server_name@),
        }
    }
}

impl Status {
    /// The reassembly buffers a phase holds are well-formed.
    pub open spec fn wf(&self) -> bool {
        match self {
            Status::WaitForClientHello(b) => b.wf(),
            Status::WaitForServerHello(sb) => sb.buffer.wf(),
            Status::WaitForCerts(sb) => sb.buffer.wf(),
            _ => true,
        }
    }
}

/// The state kept for one flow.
pub struct FlowState {
    /// When the flow last saw a packet, for eviction.
    pub last_seen: u64,
    /// Next sequence number expected from the client, once known.
    pub client_expected_seqno: Option<u32>,
    /// Next sequence number expected from the server, once known.
    pub server_expected_seqno: Option<u32>,
    /// Handshake phase.
    pub status: Status,
}

impl FlowState {
    pub open spec fn wf(&self) -> bool {
        self.status.wf()
    }
}

/// Abstract value of a flow's state.
pub ghost struct FlowModel {
    pub last_seen: u64,
    pub client_expected_seqno: Option<u32>,
    pub server_expected_seqno: Option<u32>,
    pub status: StatusModel,
}

impl View for FlowState {
    type V = FlowModel;

    open spec fn view(&self) -> FlowModel {
        FlowModel {
            last_seen: self.last_seen,
            client_expected_seqno: self.client_expected_seqno,
            server_expected_seqno: self.server_expected_seqno,
            status: self.status@,
        }
    }
}

/// The buffer after feeding it one TCP segment's payload, exactly as
/// `TcpBuffer::add_segment` specifies: empty payloads and data at or past
/// the window capacity leave it unchanged; data crossing the capacity is
/// truncated.
pub open spec fn buf_after_add(m: BufModel, seqno: u32, payload: Seq<u8>) -> BufModel {
    let off = seq_distance(m.initial, seqno);
    if payload.len() == 0 || off >= m.cap {
        m
    } else {
        let tlen = if payload.len() <= m.cap - off {
            payload.len() as int
        } else {
            m.cap - off
        };
        add_model(m, off as nat, payload.take(tlen))
    }
}

/// Phase transition while awaiting the ClientHello, after the client bytes
/// have been fed into `buf`: stay while the record is incomplete; clear the
/// flow when it is not TLS, not a ClientHello, or the server's sequence
/// number is still unknown; go bad on a ClientHello without a usable SNI;
/// otherwise anchor a server-direction buffer at the expected server
/// sequence number and await the ServerHello.
pub open spec fn client_hello_step(
    buf: BufModel,
    client_seq: Option<u32>,
    dest_ip: IpAddress,
) -> StatusModel {
    match read_record(data_model(buf)) {
        RecordOutcome::NeedMore => StatusModel::WaitForClientHello(buf),
        RecordOutcome::NotTls => StatusModel::Cleared,
        RecordOutcome::Parsed { summary, .. } => match summary {
            HsSummary::ClientHello { sni } => match client_seq {
                Option::None => StatusModel::Cleared,
                Option::Some(cseq) => match sni {
                    Option::None => StatusModel::Bad,
                    Option::Some(SniSpec::Dns(d)) => StatusModel::WaitForServerHello(
                        empty_model(cseq, BUFFER_CAPACITY as nat),
                        SniNameModel::Dns(d),
                    ),
                    Option::Some(SniSpec::IpLiteral) => StatusModel::WaitForServerHello(
                        empty_model(cseq, BUFFER_CAPACITY as nat),
                        SniNameModel::Ip(dest_ip),
                    ),
                },
            },
            _ => StatusModel::Cleared,
        },
    }
}

/// Phase transition while awaiting the ServerHello: stay while incomplete;
/// clear on non-TLS bytes, a different message, a record layer that is not
/// TLS 1.2, or a `supported_versions` extension naming another version
/// (TLS 1.3 encrypts the certificate, so such flows cannot be inspected);
/// otherwise drain the record and await the Certificate.
pub open spec fn server_hello_step(buf: BufModel, name: SniNameModel) -> StatusModel {
    match read_record(data_model(buf)) {
        RecordOutcome::NeedMore => StatusModel::WaitForServerHello(buf, name),
        RecordOutcome::NotTls => StatusModel::Cleared,
        RecordOutcome::Parsed { is_tls12, total_len, summary } => match summary {
            HsSummary::ServerHello { supported_version } => if !is_tls12 {
                StatusModel::Cleared
            } else if supported_version matches Option::Some(v) && v != 0x0303 {
                StatusModel::Cleared
            } else {
                StatusModel::WaitForCerts(drain_model(buf, total_len as nat), name)
            },
            _ => StatusModel::Cleared,
        },
    }
}

/// The full transition of one outgoing (client→server) segment.
pub open spec fn outgoing_step(
    st: StatusModel,
    seqno: u32,
    payload: Seq<u8>,
    client_seq: Option<u32>,
    dest_ip: IpAddress,
) -> StatusModel {
    match st {
        StatusModel::WaitForClientHello(buf) => client_hello_step(
            buf_after_add(buf, seqno, payload),
            client_seq,
            dest_ip,
        ),
        _ => st,
    }
}

/// What one incoming (server→client) segment may do to a flow's phase.
/// The ServerHello phase transitions are an exact function of the bytes;
/// the Certificate phase depends on the verifier, so only the shape of its
/// outcome is fixed: bad or cleared, and bad whenever the chain is empty.
pub open spec fn incoming_transition(
    old_st: StatusModel,
    new_st: StatusModel,
    seqno: u32,
    payload: Seq<u8>,
) -> bool {
    match old_st {
        StatusModel::WaitForServerHello(buf, name) => new_st == server_hello_step(
            buf_after_add(buf, seqno, payload),
            name,
        ),
        StatusModel::WaitForCerts(buf, name) => {
            let buf2 = buf_after_add(buf, seqno, payload);
            match read_record(data_model(buf2)) {
                RecordOutcome::NeedMore => new_st == StatusModel::WaitForCerts(buf2, name),
                RecordOutcome::NotTls => new_st == StatusModel::Cleared,
                RecordOutcome::Parsed { summary, .. } => match summary {
                    HsSummary::Certificates { certs } => {
                        &&& (new_st is Bad || new_st is Cleared)
                        &&& (certs.len() == 0 ==> new_st is Bad)
                    },
                    _ => new_st == StatusModel::Cleared,
                },
            }
        },
        _ => new_st == old_st,
    }
}

/// Handles one outgoing TCP segment of a flow.  Returns whether the flow
/// may continue; `false` means it has gone bad and must be reset.
pub fn process_outgoing_tcp(packet: &TcpSegment, state: &mut FlowState, dest_ip: IpAddress) -> (r:
    bool)
    requires
        old(state).wf(),
    ensures
        final(state).wf(),
        final(state).status@ == outgoing_step(
            old(state).status@,
            packet@.sequence,
            packet@.payload,
            old(state).client_expected_seqno,
            dest_ip,
        ),
        final(state).last_seen == old(state).last_seen,
        final(state).client_expected_seqno == old(state).client_expected_seqno,
        final(state).server_expected_seqno == old(state).server_expected_seqno,
        r == !(final(state).status@ is Bad),
{
    let mut taken = Status::Cleared;
    core::mem::swap(&mut state.status, &mut taken);
    match taken {
        Status::WaitForClientHello(mut buffer) => {
            buffer.add_segment(packet.sequence, packet.payload.as_slice());
            let parsed = read_handshake_msg(&buffer);
            match parsed {
                Result::Err(_) => {
                    // non-TLS flows are always allowed
                    state.status = Status::Cleared;
                },
                Result::Ok(Option::None) => {
                    state.status = Status::WaitForClientHello(buffer);
                },
                Result::Ok(Option::Some(handshake)) => {
                    match handshake.payload {
                        HandshakePayload::ClientHello { server_name } => {
                            match state.client_expected_seqno {
                                Option::None => {
                                    // the server must have ACKed during the
                                    // TCP handshake for a ClientHello to be
                                    // in flight; bail out if it has not
                                    state.status = Status::Cleared;
                                },
                                Option::Some(cseq) => {
                                    match server_name {
                                        Option::None => {
                                            // TLS without SNI is blocked by
                                            // policy
                                            state.status = Status::Bad;
                                        },
                                        Option::Some(SniValue::Dns(d)) => {
                                            state.status = Status::WaitForServerHello(
                                                ServerBuffer {
                                                    buffer: TcpBuffer::new(cseq, BUFFER_CAPACITY),
                                                    server_name: SniName::Dns(d),
                                                },
                                            );
                                        },
                                        Option::Some(SniValue::IpLiteral) => {
                                            state.status = Status::WaitForServerHello(
                                                ServerBuffer {
                                                    buffer: TcpBuffer::new(cseq, BUFFER_CAPACITY),
                                                    server_name: SniName::Ip(dest_ip),
                                                },
                                            );
                                        },
                                    }
                                },
                            }
                        },
                        _ => {
                            // the first TLS record should be a ClientHello
                            state.status = Status::Cleared;
                        },
                    }
                },
            }
        },
        other => {
            state.status = other;
        },
    }
    !(matches!(state.status, Status::Bad))
}

/// Decides the fate of a flow whose Certificate message has been parsed:
/// an empty chain, or one the verifier rejects, condemns the flow.
pub fn validate_certs<V: ChainVerifier>(
    verifier: &V,
    certs: &Vec<Vec<u8>>,
    name: &SniName,
) -> (r: bool)
    ensures
        certs@.len() == 0 ==> !r,
{
    if certs.len() == 0 {
        return false;
    }
    let leaf = clone_bytes(&certs[0]);
    let mut intermediates: Vec<Vec<u8>> = Vec::new();
    let mut i: usize = 1;
    while i < certs.len()
        invariant
            1 <= i <= certs@.len(),
        decreases certs@.len() - i,
    {
        intermediates.push(clone_bytes(&certs[i]));
        i += 1;
    }
    verifier.verify_chain(&leaf, &intermediates, name)
}

/// Copies a byte vector.
fn clone_bytes(v: &Vec<u8>) -> (r: Vec<u8>)
    ensures
        r@ == v@,
{
    let mut r: Vec<u8> = Vec::new();
    let mut i: usize = 0;
    while i < v.len()
        invariant
            i <= v@.len(),
            r@ == v@.take(i as int),
        decreases v@.len() - i,
    {
        r.push(v[i]);
        proof {
            assert(r@ =~= v@.take(i + 1));
        }
        i += 1;
    }
    proof {
        assert(v@.take(v@.len() as int) =~= v@);
    }
    r
}

/// Handles one incoming (server→client) TCP segment of a flow.  Returns
/// whether the flow may continue; `false` means it has gone bad.
pub fn process_incoming_tcp<V: ChainVerifier>(
    packet: &TcpSegment,
    state: &mut FlowState,
    verifier: &V,
) -> (r: bool)
    requires
        old(state).wf(),
    ensures
        final(state).wf(),
        final(state).last_seen == old(state).last_seen,
        final(state).client_expected_seqno == old(state).client_expected_seqno,
        final(state).server_expected_seqno == old(state).server_expected_seqno,
        r == !(final(state).status@ is Bad),
        incoming_transition(
            old(state).status@,
            final(state).status@,
            packet@.sequence,
            packet@.payload,
        ),
{
    let mut taken = Status::Cleared;
    core::mem::swap(&mut state.status, &mut taken);
    match taken {
        Status::WaitForServerHello(mut sb) => {
            sb.buffer.add_segment(packet.sequence, packet.payload.as_slice());
            let parsed = read_handshake_msg(&sb.buffer);
            match parsed {
                Result::Err(_) => {
                    state.status = Status::Cleared;
                },
                Result::Ok(Option::None) => {
                    state.status = Status::WaitForServerHello(sb);
                },
                Result::Ok(Option::Some(handshake)) => {
                    match handshake.payload {
                        HandshakePayload::ServerHello { supported_version } => {
                            if !handshake.is_tls12 {
                                // for TLS 1.2 and older the record version
                                // is accurate; this is older
                                state.status = Status::Cleared;
                            } else {
                                let not_12 = match supported_version {
                                    Option::Some(v) => v != 0x0303,
                                    Option::None => false,
                                };
                                if not_12 {
                                    // supported_versions says TLS 1.3; the
                                    // certificate will be encrypted
                                    state.status = Status::Cleared;
                                } else {
                                    sb.buffer.drain(handshake.total_len);
                                    state.status = Status::WaitForCerts(sb);
                                }
                            }
                        },
                        _ => {
                            state.status = Status::Cleared;
                        },
                    }
                },
            }
        },
        Status::WaitForCerts(mut sb) => {
            sb.buffer.add_segment(packet.sequence, packet.payload.as_slice());
            let parsed = read_handshake_msg(&sb.buffer);
            match parsed {
                Result::Err(_) => {
                    // perhaps a renegotiation of an old connection; let it
                    // pass
                    state.status = Status::Cleared;
                },
                Result::Ok(Option::None) => {
                    state.status = Status::WaitForCerts(sb);
                },
                Result::Ok(Option::Some(handshake)) => {
                    match handshake.payload {
                        HandshakePayload::Certificates { certs } => {
                            if validate_certs(verifier, &certs, &sb.server_name) {
                                state.status = Status::Cleared;
                            } else {
                                state.status = Status::Bad;
                            }
                        },
                        _ => {
                            state.status = Status::Cleared;
                        },
                    }
                },
            }
        },
        other => {
            state.status = other;
        },
    }
    !(matches!(state.status, Status::Bad))
}

/// One row of the flow table.
pub struct FlowEntry {
    pub key: TcpFlow,
    pub state: FlowState,
}

/// Looks a flow key up in a table, last entry first.
pub open spec fn lookup(s: Seq<FlowEntry>, f: TcpFlow) -> Option<FlowModel>
    decreases s.len(),
{
    if s.len() == 0 {
        Option::None
    } else if s.last().key == f {
        Option::Some(s.last().state@)
    } else {
        lookup(s.drop_last(), f)
    }
}

/// No two rows share a key.
pub open spec fn keys_unique(s: Seq<FlowEntry>) -> bool {
    forall|j: int, k: int| 0 <= j < k < s.len() ==> (#[trigger] s[j]).key != (#[trigger] s[k]).key
}

/// With unique keys, looking up the key of row `j` finds row `j`.
proof fn lemma_lookup_found(s: Seq<FlowEntry>, f: TcpFlow, j: int)
    requires
        keys_unique(s),
        0 <= j < s.len(),
        s[j].key == f,
    ensures
        lookup(s, f) == Option::Some(s[j].state@),
    decreases s.len(),
{
    if j < s.len() - 1 {
        assert(s[s.len() - 1].key != f);
        lemma_lookup_found(s.drop_last(), f, j);
    }
}

/// A key in no row is not found.
proof fn lemma_lookup_none(s: Seq<FlowEntry>, f: TcpFlow)
    requires
        forall|j: int| 0 <= j < s.len() ==> (#[trigger] s[j]).key != f,
    ensures
        lookup(s, f) is None,
    decreases s.len(),
{
    if s.len() > 0 {
        lemma_lookup_none(s.drop_last(), f);
    }
}

/// What a lookup result means in terms of the rows.
proof fn lemma_lookup_witness(s: Seq<FlowEntry>, f: TcpFlow)
    ensures
        match lookup(s, f) {
            Option::Some(m) => exists|j: int|
                0 <= j < s.len() && (#[trigger] s[j]).key == f && s[j].state@ == m,
            Option::None => forall|j: int| 0 <= j < s.len() ==> (#[trigger] s[j]).key != f,
        },
    decreases s.len(),
{
    if s.len() > 0 {
        if s.last().key == f {
            assert(s[s.len() - 1].key == f && s[s.len() - 1].state@ == s.last().state@);
        } else {
            lemma_lookup_witness(s.drop_last(), f);
            match lookup(s.drop_last(), f) {
                Option::Some(m) => {
                    let j = choose|j: int|
                        0 <= j < s.drop_last().len() && (#[trigger] s.drop_last()[j]).key == f
                            && s.drop_last()[j].state@ == m;
                    assert(s[j].key == f && s[j].state@ == m);
                },
                Option::None => {
                    assert forall|j: int| 0 <= j < s.len() implies (#[trigger] s[j]).key != f by {
                        if j < s.len() - 1 {
                            assert(s.drop_last()[j].key != f);
                        }
                    }
                },
            }
        }
    }
}

/// The sequence number a peer will expect after this segment: the segment's
/// sequence number advanced by its payload length, plus one for a SYN, on
/// the 2^32 ring.
pub open spec fn next_seq_candidate(p: crate::packet::TcpSegModel) -> u32 {
    (((p.sequence + p.payload.len() + if has_syn(p.flags) {
        1int
    } else {
        0int
    })) % 0x1_0000_0000) as u32
}

/// The SYN bit of a flags field.
pub open spec fn has_syn(flags: u16) -> bool {
    (flags / 2) % 2 == 1
}

/// The RST bit of a flags field.
pub open spec fn has_rst(flags: u16) -> bool {
    (flags / 4) % 2 == 1
}

/// A flags field with the RST bit set.
pub open spec fn rst_or(flags: u16) -> u16 {
    if has_rst(flags) {
        flags
    } else {
        (flags + 4) as u16
    }
}

/// The sequence number an injected reverse RST carries: what the packet's
/// direction's peer expects next, or 0 when that is still unknown.
pub open spec fn rst_seq_of(m: FlowModel, is_outgoing: bool) -> u32 {
    let stored = if is_outgoing {
        m.client_expected_seqno
    } else {
        m.server_expected_seqno
    };
    match stored {
        Option::Some(v) => v,
        Option::None => 0,
    }
}

/// The two RST segments injected for a condemned flow: the offending packet
/// with the RST bit set, and a fresh minimum reverse segment at the peer's
/// expected sequence number — both with their checksums installed for the
/// endpoint pair `(a1, a2)`.
pub open spec fn rst_pair_ok(
    p: crate::packet::TcpSegModel,
    m: FlowModel,
    is_outgoing: bool,
    a1: IpAddress,
    a2: IpAddress,
    forward: crate::packet::TcpSegModel,
    ret: crate::packet::TcpSegModel,
) -> bool {
    &&& forward == crate::packet::with_checksum_for(
        (crate::packet::TcpSegModel { flags: rst_or(p.flags), ..p }),
        a1,
        a2,
    )
    &&& ret == crate::packet::with_checksum_for(
        crate::packet::return_rst_model(p, rst_seq_of(m, is_outgoing)),
        a1,
        a2,
    )
}

/// Wrap-aware monotonic update of an expected sequence number: a candidate
/// replaces the stored value iff the stored value is absent or the
/// candidate lies within `TCP_MAX_WINDOW` ahead of it on the ring.
pub open spec fn updated_seq(stored: Option<u32>, cand: u32) -> Option<u32> {
    match stored {
        Option::None => Option::Some(cand),
        Option::Some(s) => if seq_newer(s, cand) {
            Option::Some(cand)
        } else {
            stored
        },
    }
}

/// The expected sequence numbers never move backwards: an update keeps the
/// stored value or advances it by less than `TCP_MAX_WINDOW` on the ring.
pub proof fn lemma_seq_update_monotone(stored: Option<u32>, cand: u32)
    ensures
        ({
            let r = updated_seq(stored, cand);
            &&& r is Some
            &&& stored matches Option::Some(s) ==> (r == stored || seq_newer(s, r->Some_0))
        }),
{
}

/// The flow state of an outgoing SYN from the client: sniffing for the
/// ClientHello from the byte after the SYN.
pub open spec fn fresh_outgoing_status(seqno: u32) -> StatusModel {
    StatusModel::WaitForClientHello(
        empty_model(((seqno + 1) % 0x1_0000_0000) as u32, BUFFER_CAPACITY as nat),
    )
}

/// The state a flow is created with when first observed.
pub open spec fn fresh_flow_model(p: crate::packet::TcpSegModel, is_outgoing: bool, now: u64) -> FlowModel {
    FlowModel {
        last_seen: now,
        client_expected_seqno: Option::None,
        server_expected_seqno: Option::None,
        status: if is_outgoing {
            fresh_outgoing_status(p.sequence)
        } else {
            StatusModel::PeerInitiated
        },
    }
}

/// Exactly how handling one packet evolves a flow's state from `prior` (its
/// stored state, or the state it was just created with): the timestamp is
/// refreshed, the packet's direction advances its expected sequence number
/// under the wrap-aware rule, and the phase takes the direction's
/// transition.
pub open spec fn flow_update_ok(
    prior: FlowModel,
    m: FlowModel,
    p: crate::packet::TcpSegModel,
    is_outgoing: bool,
    now: u64,
    dest_ip: IpAddress,
) -> bool {
    let cand = next_seq_candidate(p);
    &&& m.last_seen == now
    &&& m.client_expected_seqno == if is_outgoing {
        prior.client_expected_seqno
    } else {
        updated_seq(prior.client_expected_seqno, cand)
    }
    &&& m.server_expected_seqno == if is_outgoing {
        updated_seq(prior.server_expected_seqno, cand)
    } else {
        prior.server_expected_seqno
    }
    &&& if is_outgoing {
        m.status == outgoing_step(
            prior.status,
            p.sequence,
            p.payload,
            prior.client_expected_seqno,
            dest_ip,
        )
    } else {
        incoming_transition(prior.status, m.status, p.sequence, p.payload)
    }
}

/// Outcome of one observed packet.
pub enum TlsvResult {
    /// Forward the original packet unchanged.
    Cleared,
    /// Drop the original packet and inject these two RST segments instead:
    /// `forward_packet` towards the original destination, `return_packet`
    /// back towards the source.
    Invalid { forward_packet: TcpSegment, return_packet: TcpSegment },
}

/// The transparent TLS-validating middlebox: a flow table driven by the
/// per-flow state machine, parameterized by the certificate verifier.
pub struct TlsvMiddlebox<V: ChainVerifier> {
    flows: Vec<FlowEntry>,
    verifier: V,
}

impl<V: ChainVerifier> TlsvMiddlebox<V> {
    /// Every row's buffers are well-formed and no key repeats.
    pub closed spec fn wf(&self) -> bool {
        &&& keys_unique(self.flows@)
        &&& forall|j: int| 0 <= j < self.flows@.len() ==> (#[trigger] self.flows@[j]).state.wf()
    }

    /// The state the table holds for flow `f`.
    pub closed spec fn flow_of(&self, f: TcpFlow) -> Option<FlowModel> {
        lookup(self.flows@, f)
    }

    /// Creates a middlebox with no tracked flows.
    pub fn new(verifier: V) -> (r: TlsvMiddlebox<V>)
        ensures
            r.wf(),
            forall|f: TcpFlow| #[trigger] r.flow_of(f) is None,
    {
        let r = TlsvMiddlebox { flows: Vec::new(), verifier };
        proof {
            assert forall|f: TcpFlow| #[trigger] r.flow_of(f) is None by {
                lemma_lookup_none(r.flows@, f);
            }
        }
        r
    }

    /// Index of the row holding `flow`, if any.
    fn find_flow(&self, flow: &TcpFlow) -> (r: Option<usize>)
        ensures
            match r {
                Option::Some(i) => i < self.flows@.len() && self.flows@[i as int].key == *flow,
                Option::None => forall|j: int|
                    0 <= j < self.flows@.len() ==> (#[trigger] self.flows@[j]).key != *flow,
            },
    {
        let n = self.flows.len();
        let mut i: usize = 0;
        while i < n
            invariant
                i <= n,
                n == self.flows@.len(),
                forall|j: int| 0 <= j < i ==> (#[trigger] self.flows@[j]).key != *flow,
            decreases n - i,
        {
            if self.flows[i].key == *flow {
                return Option::Some(i);
            }
            i += 1;
        }
        Option::None
    }

    /// Looks the flow up (creating it on a SYN), refreshes `last_seen`, and
    /// advances the expected sequence number of the packet's direction
    /// under the wrap-aware ordering.  Fails on a non-SYN packet of an
    /// unknown flow, leaving the table unchanged.
    fn update_flow_state(
        &mut self,
        packet: &TcpSegment,
        flow: TcpFlow,
        is_outgoing: bool,
        now: u64,
    ) -> (r: Result<usize, ()>)
        requires
            old(self).wf(),
        ensures
            final(self).wf(),
            match r {
                Result::Err(_) => *final(self) == *old(self) && old(self).flow_of(flow) is None
                    && !has_syn(packet@.flags),
                Result::Ok(i) => {
                    let cand = next_seq_candidate(packet@);
                    let prior = match old(self).flow_of(flow) {
                        Option::Some(m) => m,
                        Option::None => FlowModel {
                            last_seen: now,
                            client_expected_seqno: Option::None,
                            server_expected_seqno: Option::None,
                            status: if is_outgoing {
                                fresh_outgoing_status(packet@.sequence)
                            } else {
                                StatusModel::PeerInitiated
                            },
                        },
                    };
                    &&& (old(self).flow_of(flow) is None ==> has_syn(packet@.flags))
                    &&& i < final(self).flows_len()
                    &&& final(self).flow_at(i as int).key == flow
                    &&& final(self).flow_at(i as int).state@ == (FlowModel {
                        last_seen: now,
                        client_expected_seqno: if is_outgoing {
                            prior.client_expected_seqno
                        } else {
                            updated_seq(prior.client_expected_seqno, cand)
                        },
                        server_expected_seqno: if is_outgoing {
                            updated_seq(prior.server_expected_seqno, cand)
                        } else {
                            prior.server_expected_seqno
                        },
                        status: prior.status,
                    })
                    &&& final(self).flow_of(flow) == Option::Some(
                        final(self).flow_at(i as int).state@,
                    )
                    &&& forall|f: TcpFlow|
                        f != flow ==> #[trigger] final(self).flow_of(f) == old(self).flow_of(f)
                },
            },
    {
        let has_syn_flag = (packet.flags / 2) % 2 == 1;
        let found = self.find_flow(&flow);
        let idx: usize;
        match found {
            Option::Some(i) => {
                idx = i;
                proof {
                    lemma_lookup_found(self.flows@, flow, i as int);
                }
            },
            Option::None => {
                if !has_syn_flag {
                    proof {
                        lemma_lookup_none(self.flows@, flow);
                    }
                    return Result::Err(());
                }
                let initial_status: Status = if is_outgoing {
                    Status::WaitForClientHello(
                        TcpBuffer::new(packet.sequence.wrapping_add(1), BUFFER_CAPACITY),
                    )
                } else {
                    Status::PeerInitiated
                };
                proof {
                    lemma_lookup_none(self.flows@, flow);
                }
                let ghost pre_push = self.flows@;
                self.flows.push(
                    FlowEntry {
                        key: flow,
                        state: FlowState {
                            last_seen: now,
                            client_expected_seqno: Option::None,
                            server_expected_seqno: Option::None,
                            status: initial_status,
                        },
                    },
                );
                idx = self.flows.len() - 1;
                proof {
                    assert(self.flows@.drop_last() =~= pre_push);
                }
            },
        }
        let ghost before = self.flows@;
        let ghost prior_model = before[idx as int].state@;
        let plen: u32 = ((packet.payload.len() as u64) % 0x1_0000_0000) as u32;
        let mut cand: u32 = packet.sequence.wrapping_add(plen);
        if has_syn_flag {
            cand = cand.wrapping_add(1);
        }
        proof {
            let m = 0x1_0000_0000int;
            vstd::arithmetic::div_mod::lemma_add_mod_noop(
                packet@.sequence as int,
                packet@.payload.len() as int,
                m,
            );
            vstd::arithmetic::div_mod::lemma_small_mod(packet@.sequence as nat, m as nat);
            vstd::arithmetic::div_mod::lemma_mod_bound(
                packet@.sequence + packet@.payload.len(),
                m,
            );
            if has_syn(packet@.flags) {
                vstd::arithmetic::div_mod::lemma_add_mod_noop(
                    packet@.sequence + packet@.payload.len(),
                    1int,
                    m,
                );
                vstd::arithmetic::div_mod::lemma_small_mod(1nat, m as nat);
            }
            assert(cand == next_seq_candidate(packet@));
        }
        let entry = &mut self.flows[idx];
        entry.state.last_seen = now;
        if is_outgoing {
            let replace = match entry.state.server_expected_seqno {
                Option::None => true,
                Option::Some(s) => crate::seqnum::seq_offset(s, cand)
                    < crate::seqnum::TCP_MAX_WINDOW,
            };
            if replace {
                entry.state.server_expected_seqno = Option::Some(cand);
            }
        } else {
            let replace = match entry.state.client_expected_seqno {
                Option::None => true,
                Option::Some(s) => crate::seqnum::seq_offset(s, cand)
                    < crate::seqnum::TCP_MAX_WINDOW,
            };
            if replace {
                entry.state.client_expected_seqno = Option::Some(cand);
            }
        }
        proof {
            let after = self.flows@;
            assert(after == before.update(idx as int, after[idx as int]));
            assert(after[idx as int].key == flow);
            assert forall|j: int, k: int| 0 <= j < k < after.len() implies (#[trigger] after[j]).key
                != (#[trigger] after[k]).key by {
                assert(before[j].key != before[k].key);
            }
            lemma_lookup_found(after, flow, idx as int);
            assert forall|f: TcpFlow| f != flow implies #[trigger] lookup(after, f) == lookup(
                old(self).flows@,
                f,
            ) by {
                lemma_lookup_witness(before, f);
                match lookup(before, f) {
                    Option::Some(m) => {
                        let j = choose|j: int|
                            0 <= j < before.len() && (#[trigger] before[j]).key == f
                                && before[j].state@ == m;
                        lemma_lookup_found(after, f, j);
                    },
                    Option::None => {
                        lemma_lookup_none(after, f);
                    },
                }
                if old(self).flows@.len() < before.len() {
                    // a fresh row for `flow` was pushed; it does not affect f
                    assert(before.drop_last() =~= old(self).flows@);
                }
            }
        }
        Result::Ok(idx)
    }

    /// Number of tracked flows.
    pub closed spec fn flows_len(&self) -> nat {
        self.flows@.len()
    }

    /// Row `i` of the table.
    pub closed spec fn flow_at(&self, i: int) -> FlowEntry {
        self.flows@[i]
    }

    /// Tracks the packet in the flow table, runs the state machine, and on
    /// a bad flow forges the two RST segments: the original packet with the
    /// RST flag set, and a fresh reverse segment aimed at what the peer
    /// expects next.  Both carry checksums over the pseudo-header of the
    /// pair `(a1, a2)` = (source, destination) for outgoing packets and
    /// (destination, source) for incoming ones.
    #[verifier::rlimit(100)]
    fn validate_flow(
        &mut self,
        packet: &TcpSegment,
        flow: TcpFlow,
        is_outgoing: bool,
        now: u64,
    ) -> (r: TlsvResult)
        requires
            old(self).wf(),
            crate::packet::tcp_wf(packet@),
        ensures
            final(self).wf(),
            forall|f: TcpFlow|
                f != flow ==> #[trigger] final(self).flow_of(f) == old(self).flow_of(f),
            old(self).flow_of(flow) is None && !has_syn(packet@.flags) ==> *final(self) == *old(
                self,
            ),
            (r is Invalid) <==> (final(self).flow_of(flow) matches Option::Some(m)
                && m.status is Bad),
            match (old(self).flow_of(flow), final(self).flow_of(flow)) {
                (Option::Some(a), Option::Some(b)) => seq_nondecreasing(
                    a.client_expected_seqno,
                    b.client_expected_seqno,
                ) && seq_nondecreasing(a.server_expected_seqno, b.server_expected_seqno),
                _ => true,
            },
            match old(self).flow_of(flow) {
                Option::Some(prior) => final(self).flow_of(flow) matches Option::Some(m)
                    && flow_update_ok(prior, m, packet@, is_outgoing, now, flow.dest_ip),
                Option::None => if has_syn(packet@.flags) {
                    final(self).flow_of(flow) matches Option::Some(m) && flow_update_ok(
                        fresh_flow_model(packet@, is_outgoing, now),
                        m,
                        packet@,
                        is_outgoing,
                        now,
                        flow.dest_ip,
                    )
                } else {
                    *final(self) == *old(self)
                },
            },
            match r {
                TlsvResult::Cleared => true,
                TlsvResult::Invalid { forward_packet, return_packet } => {
                    let a1 = if is_outgoing {
                        flow.source_ip
                    } else {
                        flow.dest_ip
                    };
                    let a2 = if is_outgoing {
                        flow.dest_ip
                    } else {
                        flow.source_ip
                    };
                    &&& has_rst(forward_packet@.flags)
                    &&& has_rst(return_packet@.flags)
                    &&& crate::packet::segment_checksum_ok(forward_packet@, a1, a2)
                    &&& crate::packet::segment_checksum_ok(return_packet@, a1, a2)
                    &&& crate::packet::tcp_wf(forward_packet@)
                    &&& crate::packet::tcp_wf(return_packet@)
                    &&& (final(self).flow_of(flow) matches Option::Some(m) && rst_pair_ok(
                        packet@,
                        m,
                        is_outgoing,
                        a1,
                        a2,
                        forward_packet@,
                        return_packet@,
                    ))
                },
            },
    {
        let updated = self.update_flow_state(packet, flow, is_outgoing, now);
        match updated {
            Result::Err(_) => {
                // never saw the TCP handshake for this flow; forward it
                proof {
                    assert(forall|f: TcpFlow| #[trigger] self.flow_of(f) == old(self).flow_of(f));
                }
                TlsvResult::Cleared
            },
            Result::Ok(i) => {
                let ghost mid_self = *self;
                let ghost mid = self.flows@;
                let valid: bool;
                let rst_seqno: u32;
                let entry = &mut self.flows[i];
                if is_outgoing {
                    valid = process_outgoing_tcp(packet, &mut entry.state, flow.dest_ip);
                    rst_seqno = match entry.state.client_expected_seqno {
                        Option::Some(v) => v,
                        Option::None => 0,
                    };
                } else {
                    valid = process_incoming_tcp(packet, &mut entry.state, &self.verifier);
                    rst_seqno = match entry.state.server_expected_seqno {
                        Option::Some(v) => v,
                        Option::None => 0,
                    };
                }
                proof {
                    lemma_lookup_update(mid, i as int, self.flows@[i as int]);
                    assert(self.flows@ == mid.update(i as int, self.flows@[i as int]));
                    assert forall|f: TcpFlow| f != flow implies #[trigger] self.flow_of(f) == old(
                        self,
                    ).flow_of(f) by {
                        assert(lookup(self.flows@, f) == lookup(mid, f));
                        assert(mid_self.flow_of(f) == lookup(mid, f));
                        assert(mid_self.flow_of(f) == old(self).flow_of(f));
                    }
                }
                if !valid {
                    let pair = if is_outgoing {
                        forge_rsts(packet, rst_seqno, flow.source_ip, flow.dest_ip)
                    } else {
                        forge_rsts(packet, rst_seqno, flow.dest_ip, flow.source_ip)
                    };
                    let (forward, ret) = pair;
                    TlsvResult::Invalid { forward_packet: forward, return_packet: ret }
                } else {
                    TlsvResult::Cleared
                }
            },
        }
    }

    /// Handles one packet travelling from the monitored client towards a
    /// server.
    pub fn process_outgoing(
        &mut self,
        tcp_packet: &TcpSegment,
        flow: TcpFlow,
        now: u64,
    ) -> (r: TlsvResult)
        requires
            old(self).wf(),
            crate::packet::tcp_wf(tcp_packet@),
        ensures
            final(self).wf(),
            forall|f: TcpFlow|
                f != flow ==> #[trigger] final(self).flow_of(f) == old(self).flow_of(f),
            (r is Invalid) <==> (final(self).flow_of(flow) matches Option::Some(m)
                && m.status is Bad),
            match (old(self).flow_of(flow), final(self).flow_of(flow)) {
                (Option::Some(a), Option::Some(b)) => seq_nondecreasing(
                    a.client_expected_seqno,
                    b.client_expected_seqno,
                ) && seq_nondecreasing(a.server_expected_seqno, b.server_expected_seqno),
                _ => true,
            },
            match old(self).flow_of(flow) {
                Option::Some(prior) => final(self).flow_of(flow) matches Option::Some(m)
                    && flow_update_ok(prior, m, tcp_packet@, true, now, flow.dest_ip),
                Option::None => if has_syn(tcp_packet@.flags) {
                    final(self).flow_of(flow) matches Option::Some(m) && flow_update_ok(
                        fresh_flow_model(tcp_packet@, true, now),
                        m,
                        tcp_packet@,
                        true,
                        now,
                        flow.dest_ip,
                    )
                } else {
                    *final(self) == *old(self)
                },
            },
            r matches TlsvResult::Invalid { forward_packet, return_packet } ==> {
                &&& has_rst(forward_packet@.flags)
                &&& has_rst(return_packet@.flags)
                &&& crate::packet::segment_checksum_ok(
                    forward_packet@,
                    flow.source_ip,
                    flow.dest_ip,
                )
                &&& crate::packet::segment_checksum_ok(
                    return_packet@,
                    flow.source_ip,
                    flow.dest_ip,
                )
                &&& crate::packet::tcp_wf(forward_packet@)
                &&& crate::packet::tcp_wf(return_packet@)
                &&& (final(self).flow_of(flow) matches Option::Some(m) && rst_pair_ok(
                    tcp_packet@,
                    m,
                    true,
                    flow.source_ip,
                    flow.dest_ip,
                    forward_packet@,
                    return_packet@,
                ))
            },
    {
        self.validate_flow(tcp_packet, flow, true, now)
    }

    /// Handles one packet travelling from a server back to the monitored
    /// client.  `flow` is given in the client→server orientation.
    pub fn process_incoming(
        &mut self,
        tcp_packet: &TcpSegment,
        flow: TcpFlow,
        now: u64,
    ) -> (r: TlsvResult)
        requires
            old(self).wf(),
            crate::packet::tcp_wf(tcp_packet@),
        ensures
            final(self).wf(),
            forall|f: TcpFlow|
                f != flow ==> #[trigger] final(self).flow_of(f) == old(self).flow_of(f),
            (r is Invalid) <==> (final(self).flow_of(flow) matches Option::Some(m)
                && m.status is Bad),
            match (old(self).flow_of(flow), final(self).flow_of(flow)) {
                (Option::Some(a), Option::Some(b)) => seq_nondecreasing(
                    a.client_expected_seqno,
                    b.client_expected_seqno,
                ) && seq_nondecreasing(a.server_expected_seqno, b.server_expected_seqno),
                _ => true,
            },
            match old(self).flow_of(flow) {
                Option::Some(prior) => final(self).flow_of(flow) matches Option::Some(m)
                    && flow_update_ok(prior, m, tcp_packet@, false, now, flow.dest_ip),
                Option::None => if has_syn(tcp_packet@.flags) {
                    final(self).flow_of(flow) matches Option::Some(m) && flow_update_ok(
                        fresh_flow_model(tcp_packet@, false, now),
                        m,
                        tcp_packet@,
                        false,
                        now,
                        flow.dest_ip,
                    )
                } else {
                    *final(self) == *old(self)
                },
            },
            r matches TlsvResult::Invalid { forward_packet, return_packet } ==> {
                &&& has_rst(forward_packet@.flags)
                &&& has_rst(return_packet@.flags)
                &&& crate::packet::segment_checksum_ok(
                    forward_packet@,
                    flow.dest_ip,
                    flow.source_ip,
                )
                &&& crate::packet::segment_checksum_ok(
                    return_packet@,
                    flow.dest_ip,
                    flow.source_ip,
                )
                &&& crate::packet::tcp_wf(forward_packet@)
                &&& crate::packet::tcp_wf(return_packet@)
                &&& (final(self).flow_of(flow) matches Option::Some(m) && rst_pair_ok(
                    tcp_packet@,
                    m,
                    false,
                    flow.dest_ip,
                    flow.source_ip,
                    forward_packet@,
                    return_packet@,
                ))
            },
    {
        self.validate_flow(tcp_packet, flow, false, now)
    }

    /// Evicts idle flows: a flow in a terminal phase (cleared or bad) goes
    /// once idle longer than `terminal_idle_ms`; any flow goes once idle
    /// longer than `global_idle_ms`.
    pub fn evict_idle(&mut self, now: u64, terminal_idle_ms: u64, global_idle_ms: u64)
        requires
            old(self).wf(),
        ensures
            final(self).wf(),
            forall|f: TcpFlow| #[trigger]
                final(self).flow_of(f) == match old(self).flow_of(f) {
                    Option::Some(m) => if flow_expired(m, now, terminal_idle_ms, global_idle_ms) {
                        Option::None::<FlowModel>
                    } else {
                        Option::Some(m)
                    },
                    Option::None => Option::None::<FlowModel>,
                },
    {
        let mut source: Vec<FlowEntry> = Vec::new();
        core::mem::swap(&mut self.flows, &mut source);
        let ghost all = source@;
        let ghost mut idx: int = 0;
        while source.len() > 0
            invariant
                0 <= idx <= all.len(),
                idx == all.len() - source@.len(),
                source@ == all.skip(idx as int),
                all == old(self).flows@,
                old(self).wf(),
                keys_unique(self.flows@),
                forall|j: int| 0 <= j < self.flows@.len() ==> (#[trigger] self.flows@[j]).state.wf(),
                forall|f: TcpFlow| #[trigger]
                    lookup(self.flows@, f) == match lookup(all.take(idx as int), f) {
                        Option::Some(m) => if flow_expired(
                            m,
                            now,
                            terminal_idle_ms,
                            global_idle_ms,
                        ) {
                            Option::None::<FlowModel>
                        } else {
                            Option::Some(m)
                        },
                        Option::None => Option::None::<FlowModel>,
                    },
                forall|f: TcpFlow|
                    (exists|j: int| 0 <= j < self.flows@.len() && (#[trigger] self.flows@[j]).key
                        == f) ==> lookup(all.take(idx as int), f) is Some,
            decreases source@.len(),
        {
            let ghost kept_before = self.flows@;
            let e = source.remove(0);
            proof {
                assert(all.skip(idx as int)[0] == all[idx as int]);
                assert(source@ =~= all.skip(idx + 1));
            }
            let idle: u64 = if now >= e.state.last_seen {
                now - e.state.last_seen
            } else {
                0
            };
            let terminal = match e.state.status {
                Status::Cleared => true,
                Status::Bad => true,
                _ => false,
            };
            let expired = idle > global_idle_ms || (terminal && idle > terminal_idle_ms);
            proof {
                assert(expired == flow_expired(
                    all[idx as int].state@,
                    now,
                    terminal_idle_ms,
                    global_idle_ms,
                ));
            }
            if !expired {
                self.flows.push(e);
                proof {
                    assert(self.flows@.drop_last() =~= kept_before);
                }
            }
            proof {
                assert(all.take(idx + 1).drop_last() =~= all.take(idx as int));
                assert(all.take(idx + 1).last() == all[idx as int]);
                let key_here = all[idx as int].key;
                assert forall|f: TcpFlow| #![trigger lookup(self.flows@, f)] lookup(
                    self.flows@,
                    f,
                ) == (
                match lookup(all.take(idx + 1), f) {
                    Option::Some(m) => if flow_expired(m, now, terminal_idle_ms, global_idle_ms) {
                        Option::None::<FlowModel>
                    } else {
                        Option::Some(m)
                    },
                    Option::None => Option::None::<FlowModel>,
                }) by {
                    assert(lookup(all.take(idx + 1), f) == if all[idx as int].key == f {
                        Option::Some(all[idx as int].state@)
                    } else {
                        lookup(all.take(idx as int), f)
                    });
                    if f == key_here && !expired {
                        assert(self.flows@.last() == all[idx as int]);
                        assert(lookup(self.flows@, f) == Option::Some(all[idx as int].state@));
                    }
                    if f != key_here && !expired {
                        assert(self.flows@.last().key != f);
                        assert(lookup(self.flows@, f) == lookup(kept_before, f));
                    }
                    if f == key_here {
                        if expired {
                            // no earlier row can hold this key
                            if exists|j: int|
                                0 <= j < kept_before.len() && (#[trigger] kept_before[j]).key
                                    == f {
                                assert(lookup(all.take(idx as int), f) is Some);
                                lemma_lookup_witness(all.take(idx as int), f);
                                let j = choose|j: int|
                                    0 <= j < all.take(idx as int).len() && (#[trigger] all.take(
                                        idx as int,
                                    )[j]).key == f && all.take(idx as int)[j].state@ == lookup(
                                        all.take(idx as int),
                                        f,
                                    )->Some_0;
                                assert(all[j].key == all[idx as int].key);
                                assert(false);
                            }
                            lemma_lookup_none(self.flows@, f);
                        }
                    }
                }
                assert forall|j: int, k: int|
                    0 <= j < k < self.flows@.len() implies (#[trigger] self.flows@[j]).key
                    != (#[trigger] self.flows@[k]).key by {
                    if k == self.flows@.len() - 1 && !expired {
                        // the pushed key comes from all[idx]; earlier kept keys
                        // come from all.take(idx)
                        if self.flows@[j].key == all[idx as int].key {
                            assert(lookup(all.take(idx as int), self.flows@[j].key) is Some);
                            lemma_lookup_witness(all.take(idx as int), self.flows@[j].key);
                            let w = choose|w: int|
                                0 <= w < all.take(idx as int).len() && (#[trigger] all.take(
                                    idx as int,
                                )[w]).key == self.flows@[j].key;
                            assert(all[w].key == all[idx as int].key);
                            assert(false);
                        }
                    }
                }
                assert forall|f: TcpFlow| #![trigger lookup(all.take(idx + 1), f)]
                    (exists|j: int| 0 <= j < self.flows@.len() && (#[trigger] self.flows@[j]).key
                        == f) implies lookup(all.take(idx + 1), f) is Some by {
                    let j = choose|j: int|
                        0 <= j < self.flows@.len() && (#[trigger] self.flows@[j]).key == f;
                    if j < kept_before.len() {
                        assert(lookup(all.take(idx as int), f) is Some);
                        lemma_lookup_witness(all.take(idx as int), f);
                        let w = choose|w: int|
                            0 <= w < all.take(idx as int).len() && (#[trigger] all.take(
                                idx as int,
                            )[w]).key == f && all.take(idx as int)[w].state@ == lookup(
                                all.take(idx as int),
                                f,
                            )->Some_0;
                        lemma_lookup_found(all.take(idx + 1), f, w);
                    } else {
                        lemma_lookup_found(all.take(idx + 1), f, idx as int);
                    }
                }
            }
            proof {
                idx = idx + 1;
            }
        }
        proof {
            assert(all.take(idx as int) =~= all);
        }
    }
}

/// Outgoing traffic condemns a flow only one way: a complete, parsed
/// ClientHello without a usable server name (and with the server's sequence
/// number known).  Every other outgoing transition leaves or clears the
/// flow, or was condemned before.
pub proof fn lemma_outgoing_bad_only_missing_sni(
    st: StatusModel,
    seqno: u32,
    payload: Seq<u8>,
    client_seq: Option<u32>,
    dest_ip: IpAddress,
)
    ensures
        outgoing_step(st, seqno, payload, client_seq, dest_ip) is Bad ==> (st is Bad || (
        st matches StatusModel::WaitForClientHello(buf) && client_seq is Some && read_record(
            data_model(buf_after_add(buf, seqno, payload)),
        ) matches RecordOutcome::Parsed {
            summary: HsSummary::ClientHello { sni: Option::None },
            ..
        })),
{
}

/// The ServerHello phase never condemns a flow: a handshake the middlebox
/// cannot inspect is cleared, not broken.
pub proof fn lemma_server_hello_never_bad(buf: BufModel, name: SniNameModel)
    ensures
        !(server_hello_step(buf, name) is Bad),
{
}

/// A stored expected sequence number never moves backwards under the
/// wrap-aware ordering.
pub open spec fn seq_nondecreasing(a: Option<u32>, b: Option<u32>) -> bool {
    match (a, b) {
        (Option::Some(x), Option::Some(y)) => x == y || seq_newer(x, y),
        (Option::Some(_), Option::None) => false,
        (Option::None, _) => true,
    }
}

/// When a flow is evicted: in a terminal phase after `terminal_idle_ms` of
/// idleness, in any phase after `global_idle_ms`.
pub open spec fn flow_expired(
    m: FlowModel,
    now: u64,
    terminal_idle_ms: u64,
    global_idle_ms: u64,
) -> bool {
    let idle = if now >= m.last_seen {
        now - m.last_seen
    } else {
        0
    };
    ||| idle > global_idle_ms
    ||| ((m.status is Cleared || m.status is Bad) && idle > terminal_idle_ms)
}

/// Updating row `i` without changing its key changes only that flow.
proof fn lemma_lookup_update(s: Seq<FlowEntry>, i: int, e: FlowEntry)
    requires
        keys_unique(s),
        0 <= i < s.len(),
        e.key == s[i].key,
    ensures
        keys_unique(s.update(i, e)),
        lookup(s.update(i, e), e.key) == Option::Some(e.state@),
        forall|f: TcpFlow|
            f != e.key ==> #[trigger] lookup(s.update(i, e), f) == lookup(s, f),
{
    let s2 = s.update(i, e);
    assert forall|j: int, k: int| 0 <= j < k < s2.len() implies (#[trigger] s2[j]).key
        != (#[trigger] s2[k]).key by {
        assert(s[j].key != s[k].key);
    }
    lemma_lookup_found(s2, e.key, i);
    assert forall|f: TcpFlow| f != e.key implies #[trigger] lookup(s2, f) == lookup(s, f) by {
        lemma_lookup_witness(s, f);
        match lookup(s, f) {
            Option::Some(m) => {
                let j = choose|j: int|
                    0 <= j < s.len() && (#[trigger] s[j]).key == f && s[j].state@ == m;
                lemma_lookup_found(s2, f, j);
            },
            Option::None => {
                lemma_lookup_none(s2, f);
            },
        }
    }
}

/// Forges the two RST segments for a condemned flow: the offending packet
/// with the RST bit set, and the minimum reverse segment at `rst_seqno` —
/// both with checksums installed for the endpoint pair `(a1, a2)`.
fn forge_rsts(packet: &TcpSegment, rst_seqno: u32, a1: IpAddress, a2: IpAddress) -> (r: (
    TcpSegment,
    TcpSegment,
))
    requires
        crate::packet::tcp_wf(packet@),
    ensures
        r.0@ == crate::packet::with_checksum_for(
            (crate::packet::TcpSegModel { flags: rst_or(packet@.flags), ..packet@ }),
            a1,
            a2,
        ),
        r.1@ == crate::packet::with_checksum_for(
            crate::packet::return_rst_model(packet@, rst_seqno),
            a1,
            a2,
        ),
        crate::packet::tcp_wf(r.0@),
        crate::packet::tcp_wf(r.1@),
        has_rst(r.0@.flags),
        has_rst(r.1@.flags),
        crate::packet::segment_checksum_ok(r.0@, a1, a2),
        crate::packet::segment_checksum_ok(r.1@, a1, a2),
{
    let mut forward = copy_segment(packet);
    if (forward.flags / 4) % 2 != 1 {
        forward.flags = forward.flags + 4;
    }
    proof {
        assert(forward@ == (crate::packet::TcpSegModel {
            flags: rst_or(packet@.flags),
            ..packet@
        }));
        assert(has_rst(forward@.flags));
    }
    let mut ret = crate::packet::generate_return_rst(packet, rst_seqno);
    crate::packet::set_tcp_checksum(&mut forward, a1, a2);
    crate::packet::set_tcp_checksum(&mut ret, a1, a2);
    (forward, ret)
}

/// Copies a TCP segment.
fn copy_segment(p: &TcpSegment) -> (r: TcpSegment)
    ensures
        r@ == p@,
{
    TcpSegment {
        source_port: p.source_port,
        dest_port: p.dest_port,
        sequence: p.sequence,
        acknowledgement: p.acknowledgement,
        data_offset: p.data_offset,
        flags: p.flags,
        window: p.window,
        checksum: p.checksum,
        urgent_pointer: p.urgent_pointer,
        options: clone_bytes(&p.options),
        payload: clone_bytes(&p.payload),
    }
}

} // verus!
