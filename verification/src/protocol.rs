//! TLS record framing and handshake-message structure.
//!
//! The record layer frames handshake messages in 5-byte headers; the three
//! handshake bodies this middlebox inspects are ClientHello (for the SNI),
//! ServerHello (for the negotiated version), and Certificate (for the DER
//! chain).  The grammar is written out as spec functions over byte
//! sequences, and the executable parser is proved to compute exactly what
//! the grammar says.
//!
//! Version fields in record headers cannot be trusted on their own: TLS 1.3
//! ClientHellos ride in records labelled TLS 1.0 or 1.2, so the real version
//! discrimination happens in the flow state machine using the ServerHello
//! `supported_versions` extension.

use vstd::prelude::*;

use crate::tcp_buffer::{data_model, TcpBuffer};

verus! {

/// Length of the TLS record header.
pub const TLS_HEADER_LENGTH: u16 = 5;

/// Largest payload a TLS record may carry.
pub const TLS_MAX_RECORD_LENGTH: u16 = 16384;

/// Record type of the TLS handshake protocol.
pub const TLS_HANDSHAKE_RECORD: u8 = 0x16;

/// Big-endian 16-bit value of two bytes.
pub open spec fn be16(hi: u8, lo: u8) -> int {
    256 * hi + lo
}

/// Big-endian 24-bit value of three bytes.
pub open spec fn be24(b0: u8, b1: u8, b2: u8) -> int {
    65536 * b0 + 256 * b1 + b2
}

/// The server name carried by a ClientHello's SNI extension: either a DNS
/// name, or the marker that the client presented an IP literal (in which
/// case the flow's destination address is what gets validated).
pub ghost enum SniSpec {
    Dns(Seq<u8>),
    IpLiteral,
}

/// What the middlebox learns from one parsed handshake message.
pub ghost enum HsSummary {
    /// A ClientHello and the server name it carries, if any.
    ClientHello { sni: Option<SniSpec> },
    /// A ServerHello and its `supported_versions` selection, if present.
    ServerHello { supported_version: Option<u16> },
    /// A Certificate message: the DER certificates, leaf first.
    Certificates { certs: Seq<Seq<u8>> },
    /// A structurally valid handshake message of another type.
    Unknown,
}

/// Outcome of trying to read one handshake record from a byte stream.
pub ghost enum RecordOutcome {
    /// Not enough bytes buffered yet.
    NeedMore,
    /// The bytes cannot be a TLS handshake record this middlebox accepts.
    NotTls,
    /// A complete record: whether its header says TLS 1.2, how many bytes
    /// of the stream it occupies, and the parsed message.
    Parsed { is_tls12: bool, total_len: int, summary: HsSummary },
}

/// Classifies one SNI host name.  A syntactically valid IPv4 or IPv6
/// literal is an IP literal (the flow's destination address is what gets
/// validated); a syntactically valid DNS name is used as one; anything
/// else is unusable and treated as absent, so the flow is blocked by
/// policy.
pub open spec fn classify_sni_name(b: Seq<u8>) -> Option<SniSpec> {
    if crate::hostname::valid_ipv4_literal(b) || crate::hostname::valid_ipv6_literal(b) {
        Option::Some(SniSpec::IpLiteral)
    } else if crate::hostname::valid_dns_name(b) {
        Option::Some(SniSpec::Dns(b))
    } else {
        Option::None
    }
}

/// Walks the entries of one SNI extension (RFC 6066 `ServerNameList`).
/// `val` is the name found so far (`None` meaning an unusable name), `have`
/// whether a host_name entry was already seen (a duplicate is malformed).
/// An entry of another type ends the walk: its length encoding is unknown.
/// Returns `None` when the list is malformed.
pub open spec fn parse_sni_entries(b: Seq<u8>, val: Option<SniSpec>, have: bool) -> Option<
    Option<SniSpec>,
>
    decreases b.len(),
{
    if b.len() == 0 {
        Option::Some(val)
    } else if b[0] != 0 {
        Option::Some(val)
    } else if b.len() < 3 {
        Option::None
    } else {
        let nl = be16(b[1], b[2]);
        if b.len() < 3 + nl {
            Option::None
        } else if have {
            Option::None
        } else {
            parse_sni_entries(b.skip(3 + nl), classify_sni_name(b.subrange(3, 3 + nl)), true)
        }
    }
}

/// Parses the payload of one SNI extension: a 16-bit list length that must
/// cover the rest of the extension exactly, followed by the entries.
/// An empty list is malformed.
pub open spec fn parse_sni_extension(b: Seq<u8>) -> Option<Option<SniSpec>> {
    if b.len() < 2 {
        Option::None
    } else {
        let ll = be16(b[0], b[1]);
        if ll == 0 || b.len() != 2 + ll {
            Option::None
        } else {
            parse_sni_entries(b.skip(2), Option::None, false)
        }
    }
}

/// Walks a ClientHello extension block looking for SNI extensions; the last
/// one that yields a usable name wins, mirroring how the extensions are
/// processed in order.  Returns `None` when the block is malformed.
pub open spec fn scan_extensions_sni(b: Seq<u8>, acc: Option<SniSpec>) -> Option<Option<SniSpec>>
    decreases b.len(),
{
    if b.len() == 0 {
        Option::Some(acc)
    } else if b.len() < 4 {
        Option::None
    } else {
        let el = be16(b[2], b[3]);
        if b.len() < 4 + el {
            Option::None
        } else if be16(b[0], b[1]) == 0 {
            match parse_sni_extension(b.subrange(4, 4 + el)) {
                Option::None => Option::None,
                Option::Some(update) => scan_extensions_sni(
                    b.skip(4 + el),
                    if update is Some {
                        update
                    } else {
                        acc
                    },
                ),
            }
        } else {
            scan_extensions_sni(b.skip(4 + el), acc)
        }
    }
}

/// ClientHello body: legacy version, 32 random bytes, session id, cipher
/// suites, compression methods, then an optional extension block that must
/// fill the rest of the message exactly.
pub open spec fn parse_client_hello(b: Seq<u8>) -> Option<HsSummary> {
    if b.len() < 35 {
        Option::None
    } else {
        let p1 = 35 + b[34];  // cipher-suite length field, after the session id
        if b.len() < p1 + 2 {
            Option::None
        } else {
            let p2 = p1 + 2 + be16(b[p1], b[p1 + 1]);  // compression length field
            if b.len() < p2 + 1 {
                Option::None
            } else {
                let p3 = p2 + 1 + b[p2];  // extension block start
                if b.len() < p3 {
                    Option::None
                } else if b.len() == p3 {
                    Option::Some(HsSummary::ClientHello { sni: Option::None })
                } else if b.len() < p3 + 2 {
                    Option::None
                } else if b.len() != p3 + 2 + be16(b[p3], b[p3 + 1]) {
                    Option::None
                } else {
                    match scan_extensions_sni(b.skip(p3 + 2), Option::None) {
                        Option::None => Option::None,
                        Option::Some(sni) => Option::Some(HsSummary::ClientHello { sni }),
                    }
                }
            }
        }
    }
}

/// Walks a ServerHello extension block for the first `supported_versions`
/// extension (type 43), whose ServerHello form is a single 16-bit version.
pub open spec fn scan_extensions_version(b: Seq<u8>, acc: Option<u16>) -> Option<Option<u16>>
    decreases b.len(),
{
    if b.len() == 0 {
        Option::Some(acc)
    } else if b.len() < 4 {
        Option::None
    } else {
        let el = be16(b[2], b[3]);
        if b.len() < 4 + el {
            Option::None
        } else if be16(b[0], b[1]) == 43 && acc is None {
            if el != 2 {
                Option::None
            } else {
                scan_extensions_version(
                    b.skip(4 + el),
                    Option::Some((256 * b[4] + b[5]) as u16),
                )
            }
        } else {
            scan_extensions_version(b.skip(4 + el), acc)
        }
    }
}

/// ServerHello body: version, 32 random bytes, session id, cipher suite,
/// compression method, then an optional extension block.
pub open spec fn parse_server_hello(b: Seq<u8>) -> Option<HsSummary> {
    if b.len() < 35 {
        Option::None
    } else {
        let p1 = 35 + b[34] + 3;  // past session id, cipher suite and compression
        if b.len() < p1 {
            Option::None
        } else if b.len() == p1 {
            Option::Some(HsSummary::ServerHello { supported_version: Option::None })
        } else if b.len() < p1 + 2 {
            Option::None
        } else if b.len() != p1 + 2 + be16(b[p1], b[p1 + 1]) {
            Option::None
        } else {
            match scan_extensions_version(b.skip(p1 + 2), Option::None) {
                Option::None => Option::None,
                Option::Some(v) => Option::Some(HsSummary::ServerHello { supported_version: v }),
            }
        }
    }
}

/// Walks the entries of a Certificate message: each is a 24-bit length and
/// that many DER bytes.
pub open spec fn parse_cert_entries(b: Seq<u8>) -> Option<Seq<Seq<u8>>>
    decreases b.len(),
{
    if b.len() == 0 {
        Option::Some(Seq::<Seq<u8>>::empty())
    } else if b.len() < 3 {
        Option::None
    } else {
        let cl = be24(b[0], b[1], b[2]);
        if b.len() < 3 + cl {
            Option::None
        } else {
            match parse_cert_entries(b.skip(3 + cl)) {
                Option::None => Option::None,
                Option::Some(rest) => Option::Some(
                    seq![b.subrange(3, 3 + cl)] + rest,
                ),
            }
        }
    }
}

/// Certificate body: a 24-bit list length that must cover the rest of the
/// message exactly, then the certificate entries, leaf first.
pub open spec fn parse_certificates(b: Seq<u8>) -> Option<HsSummary> {
    if b.len() < 3 {
        Option::None
    } else if b.len() != 3 + be24(b[0], b[1], b[2]) {
        Option::None
    } else {
        match parse_cert_entries(b.skip(3)) {
            Option::None => Option::None,
            Option::Some(certs) => Option::Some(HsSummary::Certificates { certs }),
        }
    }
}

/// One handshake message: type byte, 24-bit length that must cover the rest
/// of the record exactly, then the body.  Message types the middlebox does
/// not inspect are structurally accepted as `Unknown`.
pub open spec fn parse_handshake(b: Seq<u8>) -> Option<HsSummary> {
    if b.len() < 4 {
        Option::None
    } else if be24(b[1], b[2], b[3]) != b.len() - 4 {
        Option::None
    } else if b[0] == 1 {
        parse_client_hello(b.skip(4))
    } else if b[0] == 2 {
        parse_server_hello(b.skip(4))
    } else if b[0] == 11 {
        parse_certificates(b.skip(4))
    } else {
        Option::Some(HsSummary::Unknown)
    }
}

/// Record length advertised by a 5-byte record header.
pub open spec fn rec_len(d: Seq<u8>) -> int {
    be16(d[3], d[4])
}

/// Reading one handshake record from the head of a byte stream, exactly as
/// the flow state machine sees it: fewer than 5 bytes, or fewer than the
/// advertised record length, is `NeedMore`; a header that is not a
/// handshake record of TLS major version 3 with a length within bounds, or
/// a payload that fails to parse, is `NotTls`.
pub open spec fn read_record(d: Seq<u8>) -> RecordOutcome {
    if d.len() < 5 {
        RecordOutcome::NeedMore
    } else if d[0] != TLS_HANDSHAKE_RECORD || d[1] != 3 || rec_len(d) > TLS_MAX_RECORD_LENGTH {
        RecordOutcome::NotTls
    } else if d.len() < 5 + rec_len(d) {
        RecordOutcome::NeedMore
    } else {
        match parse_handshake(d.subrange(5, 5 + rec_len(d))) {
            Option::None => RecordOutcome::NotTls,
            Option::Some(summary) => RecordOutcome::Parsed {
                is_tls12: d[2] == 3,
                total_len: 5 + rec_len(d),
                summary,
            },
        }
    }
}

/// Executable form of the server name carried by an SNI extension.
pub enum SniValue {
    Dns(Vec<u8>),
    IpLiteral,
}

/// Executable form of a parsed handshake message body.
pub enum HandshakePayload {
    ClientHello { server_name: Option<SniValue> },
    ServerHello { supported_version: Option<u16> },
    Certificates { certs: Vec<Vec<u8>> },
    Unknown,
}

/// A handshake message read from the head of a TCP stream.  `is_tls12`
/// reports whether the record header says TLS 1.2 (TLS 1.3 rides in such
/// records too); `total_len` is how many stream bytes the record occupies.
pub struct HandshakeMessage {
    pub is_tls12: bool,
    pub total_len: usize,
    pub payload: HandshakePayload,
}

/// Abstract value of an executable SNI name.
pub open spec fn sni_view(v: SniValue) -> SniSpec {
    match v {
        SniValue::Dns(b) => SniSpec::Dns(b@),
        SniValue::IpLiteral => SniSpec::IpLiteral,
    }
}

/// Abstract value of an optional executable SNI name.
pub open spec fn opt_sni_view(v: Option<SniValue>) -> Option<SniSpec> {
    match v {
        Option::None => Option::None,
        Option::Some(x) => Option::Some(sni_view(x)),
    }
}

/// Abstract value of a list of byte vectors.
pub open spec fn vecs_view(v: Seq<Vec<u8>>) -> Seq<Seq<u8>> {
    Seq::new(v.len(), |i: int| v[i]@)
}

/// Abstract value of an executable handshake body.
pub open spec fn payload_view(p: HandshakePayload) -> HsSummary {
    match p {
        HandshakePayload::ClientHello { server_name } => HsSummary::ClientHello {
            sni: opt_sni_view(server_name),
        },
        HandshakePayload::ServerHello { supported_version } => HsSummary::ServerHello {
            supported_version,
        },
        HandshakePayload::Certificates { certs } => HsSummary::Certificates {
            certs: vecs_view(certs@),
        },
        HandshakePayload::Unknown => HsSummary::Unknown,
    }
}

fn be16_exec(hi: u8, lo: u8) -> (r: u16)
    ensures
        r == be16(hi, lo),
{
    (hi as u16) * 256 + (lo as u16)
}

fn be24_exec(b0: u8, b1: u8, b2: u8) -> (r: u32)
    ensures
        r == be24(b0, b1, b2),
{
    (b0 as u32) * 65536 + (b1 as u32) * 256 + (b2 as u32)
}

fn classify_sni(name: &[u8]) -> (r: Option<SniValue>)
    ensures
        opt_sni_view(r) == classify_sni_name(name@),
{
    if crate::hostname::is_ipv4_literal(name) || crate::hostname::is_ipv6_literal(name) {
        Option::Some(SniValue::IpLiteral)
    } else if crate::hostname::is_dns_name(name) {
        Option::Some(SniValue::Dns(vstd::slice::slice_to_vec(name)))
    } else {
        Option::None
    }
}

fn parse_sni_entries_exec(b: &[u8], val: Option<SniValue>, have: bool) -> (r: Result<
    Option<SniValue>,
    (),
>)
    ensures
        parse_sni_entries(b@, opt_sni_view(val), have) == match r {
            Result::Ok(v) => Option::Some(opt_sni_view(v)),
            Result::Err(_) => Option::None::<Option<SniSpec>>,
        },
    decreases b@.len(),
{
    if b.len() == 0 {
        return Result::Ok(val);
    }
    if b[0] != 0 {
        return Result::Ok(val);
    }
    if b.len() < 3 {
        return Result::Err(());
    }
    let nl = be16_exec(b[1], b[2]) as usize;
    if b.len() - 3 < nl {
        return Result::Err(());
    }
    if have {
        return Result::Err(());
    }
    let name = &b[3..3 + nl];
    let v2 = classify_sni(name);
    parse_sni_entries_exec(&b[3 + nl..b.len()], v2, true)
}

fn parse_sni_extension_exec(b: &[u8]) -> (r: Result<Option<SniValue>, ()>)
    ensures
        parse_sni_extension(b@) == match r {
            Result::Ok(v) => Option::Some(opt_sni_view(v)),
            Result::Err(_) => Option::None::<Option<SniSpec>>,
        },
{
    if b.len() < 2 {
        return Result::Err(());
    }
    let ll = be16_exec(b[0], b[1]) as usize;
    if ll == 0 {
        return Result::Err(());
    }
    if b.len() - 2 != ll {
        return Result::Err(());
    }
    parse_sni_entries_exec(&b[2..b.len()], Option::None, false)
}

fn scan_extensions_sni_exec(b: &[u8], acc: Option<SniValue>) -> (r: Result<Option<SniValue>, ()>)
    ensures
        scan_extensions_sni(b@, opt_sni_view(acc)) == match r {
            Result::Ok(v) => Option::Some(opt_sni_view(v)),
            Result::Err(_) => Option::None::<Option<SniSpec>>,
        },
    decreases b@.len(),
{
    if b.len() == 0 {
        return Result::Ok(acc);
    }
    if b.len() < 4 {
        return Result::Err(());
    }
    let el = be16_exec(b[2], b[3]) as usize;
    if b.len() - 4 < el {
        return Result::Err(());
    }
    let et = be16_exec(b[0], b[1]);
    if et == 0 {
        match parse_sni_extension_exec(&b[4..4 + el]) {
            Result::Err(_) => Result::Err(()),
            Result::Ok(update) => {
                let next = if update.is_some() {
                    update
                } else {
                    acc
                };
                scan_extensions_sni_exec(&b[4 + el..b.len()], next)
            },
        }
    } else {
        scan_extensions_sni_exec(&b[4 + el..b.len()], acc)
    }
}

fn parse_client_hello_exec(b: &[u8]) -> (r: Result<Option<SniValue>, ()>)
    requires
        b@.len() <= TLS_MAX_RECORD_LENGTH,
    ensures
        parse_client_hello(b@) == match r {
            Result::Ok(v) => Option::Some(HsSummary::ClientHello { sni: opt_sni_view(v) }),
            Result::Err(_) => Option::None::<HsSummary>,
        },
{
    if b.len() < 35 {
        return Result::Err(());
    }
    let p1 = 35 + b[34] as usize;
    if b.len() < p1 + 2 {
        return Result::Err(());
    }
    let p2 = p1 + 2 + be16_exec(b[p1], b[p1 + 1]) as usize;
    if b.len() < p2 + 1 {
        return Result::Err(());
    }
    let p3 = p2 + 1 + b[p2] as usize;
    if b.len() < p3 {
        return Result::Err(());
    }
    if b.len() == p3 {
        return Result::Ok(Option::None);
    }
    if b.len() < p3 + 2 {
        return Result::Err(());
    }
    let el = be16_exec(b[p3], b[p3 + 1]) as usize;
    if b.len() != p3 + 2 + el {
        return Result::Err(());
    }
    scan_extensions_sni_exec(&b[p3 + 2..b.len()], Option::None)
}

fn scan_extensions_version_exec(b: &[u8], acc: Option<u16>) -> (r: Result<Option<u16>, ()>)
    ensures
        scan_extensions_version(b@, acc) == match r {
            Result::Ok(v) => Option::Some(v),
            Result::Err(_) => Option::None::<Option<u16>>,
        },
    decreases b@.len(),
{
    if b.len() == 0 {
        return Result::Ok(acc);
    }
    if b.len() < 4 {
        return Result::Err(());
    }
    let el = be16_exec(b[2], b[3]) as usize;
    if b.len() - 4 < el {
        return Result::Err(());
    }
    let et = be16_exec(b[0], b[1]);
    if et == 43 && acc.is_none() {
        if el != 2 {
            return Result::Err(());
        }
        let v = be16_exec(b[4], b[5]);
        scan_extensions_version_exec(&b[4 + el..b.len()], Option::Some(v))
    } else {
        scan_extensions_version_exec(&b[4 + el..b.len()], acc)
    }
}

fn parse_server_hello_exec(b: &[u8]) -> (r: Result<Option<u16>, ()>)
    requires
        b@.len() <= TLS_MAX_RECORD_LENGTH,
    ensures
        parse_server_hello(b@) == match r {
            Result::Ok(v) => Option::Some(HsSummary::ServerHello { supported_version: v }),
            Result::Err(_) => Option::None::<HsSummary>,
        },
{
    if b.len() < 35 {
        return Result::Err(());
    }
    let p1 = 35 + b[34] as usize + 3;
    if b.len() < p1 {
        return Result::Err(());
    }
    if b.len() == p1 {
        return Result::Ok(Option::None);
    }
    if b.len() < p1 + 2 {
        return Result::Err(());
    }
    let el = be16_exec(b[p1], b[p1 + 1]) as usize;
    if b.len() != p1 + 2 + el {
        return Result::Err(());
    }
    scan_extensions_version_exec(&b[p1 + 2..b.len()], Option::None)
}

fn parse_cert_entries_exec(b: &[u8]) -> (r: Result<Vec<Vec<u8>>, ()>)
    ensures
        parse_cert_entries(b@) == match r {
            Result::Ok(c) => Option::Some(vecs_view(c@)),
            Result::Err(_) => Option::None::<Seq<Seq<u8>>>,
        },
    decreases b@.len(),
{
    if b.len() == 0 {
        let empty: Vec<Vec<u8>> = Vec::new();
        proof {
            assert(vecs_view(empty@) =~= Seq::<Seq<u8>>::empty());
        }
        return Result::Ok(empty);
    }
    if b.len() < 3 {
        return Result::Err(());
    }
    let cl = be24_exec(b[0], b[1], b[2]) as usize;
    if b.len() - 3 < cl {
        return Result::Err(());
    }
    let entry = vstd::slice::slice_to_vec(&b[3..3 + cl]);
    match parse_cert_entries_exec(&b[3 + cl..b.len()]) {
        Result::Err(_) => Result::Err(()),
        Result::Ok(mut rest) => {
            let ghost rest0 = rest@;
            rest.insert(0, entry);
            proof {
                assert(vecs_view(rest@) =~= seq![b@.subrange(3, 3 + cl)] + vecs_view(rest0));
            }
            Result::Ok(rest)
        },
    }
}

fn parse_certificates_exec(b: &[u8]) -> (r: Result<Vec<Vec<u8>>, ()>)
    requires
        b@.len() <= TLS_MAX_RECORD_LENGTH,
    ensures
        parse_certificates(b@) == match r {
            Result::Ok(c) => Option::Some(HsSummary::Certificates { certs: vecs_view(c@) }),
            Result::Err(_) => Option::None::<HsSummary>,
        },
{
    if b.len() < 3 {
        return Result::Err(());
    }
    let ll = be24_exec(b[0], b[1], b[2]) as usize;
    if b.len() - 3 != ll {
        return Result::Err(());
    }
    parse_cert_entries_exec(&b[3..b.len()])
}

fn parse_handshake_exec(b: &[u8]) -> (r: Result<HandshakePayload, ()>)
    requires
        b@.len() <= TLS_MAX_RECORD_LENGTH,
    ensures
        parse_handshake(b@) == match r {
            Result::Ok(p) => Option::Some(payload_view(p)),
            Result::Err(_) => Option::None::<HsSummary>,
        },
{
    if b.len() < 4 {
        return Result::Err(());
    }
    let ml = be24_exec(b[1], b[2], b[3]) as usize;
    if ml != b.len() - 4 {
        return Result::Err(());
    }
    let body = &b[4..b.len()];
    if b[0] == 1 {
        match parse_client_hello_exec(body) {
            Result::Err(_) => Result::Err(()),
            Result::Ok(server_name) => Result::Ok(HandshakePayload::ClientHello { server_name }),
        }
    } else if b[0] == 2 {
        match parse_server_hello_exec(body) {
            Result::Err(_) => Result::Err(()),
            Result::Ok(supported_version) => Result::Ok(
                HandshakePayload::ServerHello { supported_version },
            ),
        }
    } else if b[0] == 11 {
        match parse_certificates_exec(body) {
            Result::Err(_) => Result::Err(()),
            Result::Ok(certs) => Result::Ok(HandshakePayload::Certificates { certs }),
        }
    } else {
        Result::Ok(HandshakePayload::Unknown)
    }
}

/// Parses the 5-byte TLS record header at the head of `data` and returns
/// the advertised minor version and record length.  Fails when the header
/// is not a handshake record of TLS major version 3 within the length
/// bound.
pub fn read_handshake_frame(data: &[u8]) -> (r: Result<(u8, u16), ()>)
    requires
        data@.len() >= 5,
    ensures
        if data@[0] != TLS_HANDSHAKE_RECORD || data@[1] != 3 || be16(data@[3], data@[4])
            > TLS_MAX_RECORD_LENGTH {
            r is Err
        } else {
            r == Result::<(u8, u16), ()>::Ok((data@[2], be16(data@[3], data@[4]) as u16))
        },
{
    let record_type = data[0];
    let tls_major_version = data[1];
    let tls_minor_version = data[2];
    let length = be16_exec(data[3], data[4]);
    if record_type != TLS_HANDSHAKE_RECORD || tls_major_version != 0x03 || length
        > TLS_MAX_RECORD_LENGTH {
        Result::Err(())
    } else {
        Result::Ok((tls_minor_version, length))
    }
}

/// Reads one TLS handshake message from the contiguous data of `buffer`.
/// Returns `Ok(None)` while not enough bytes are buffered, `Err(())` when
/// the buffered bytes cannot be such a message, and the parsed message
/// otherwise — exactly as the grammar (`read_record`) says.
pub fn read_handshake_msg(buffer: &TcpBuffer) -> (r: Result<Option<HandshakeMessage>, ()>)
    requires
        buffer.wf(),
    ensures
        match read_record(data_model(buffer@)) {
            RecordOutcome::NeedMore => r == Result::<Option<HandshakeMessage>, ()>::Ok(
                Option::None,
            ),
            RecordOutcome::NotTls => r is Err,
            RecordOutcome::Parsed { is_tls12, total_len, summary } => r matches Result::Ok(
                Option::Some(m),
            ) && m.is_tls12 == is_tls12 && m.total_len == total_len && payload_view(m.payload)
                == summary,
        },
{
    let data = buffer.get_data();
    if data.len() < TLS_HEADER_LENGTH as usize {
        return Result::Ok(Option::None);
    }
    let header = read_handshake_frame(data);
    match header {
        Result::Err(_) => Result::Err(()),
        Result::Ok((minor_version, record_length)) => {
            let rl = record_length as usize;
            if data.len() - 5 < rl {
                return Result::Ok(Option::None);
            }
            let body = &data[5..5 + rl];
            match parse_handshake_exec(body) {
                Result::Err(_) => Result::Err(()),
                Result::Ok(payload) => Result::Ok(
                    Option::Some(
                        HandshakeMessage {
                            is_tls12: minor_version == 3,
                            total_len: 5 + rl,
                            payload,
                        },
                    ),
                ),
            }
        },
    }
}

} // verus!
