//! The certificate-verification capability.
//!
//! Chain validation itself is outside this library's scope: it is delegated
//! to a verifier over the Web PKI trust store.  The capability is a trait so
//! that any implementation can be plugged in; nothing is assumed about what
//! a verifier accepts, so everything proved about the flow state machine
//! holds for every implementation.

use vstd::prelude::*;

use rustls::client::danger::ServerCertVerifier;
use rustls::client::WebPkiServerVerifier;
use rustls::pki_types::{CertificateDer, ServerName, UnixTime};
use rustls::RootCertStore;
use std::sync::Arc;

use crate::packet::IpAddress;

verus! {

/// The server name a certificate chain is validated against: the DNS name
/// from the ClientHello's SNI, or the flow's destination address when the
/// client presented an IP literal.
pub enum SniName {
    Dns(Vec<u8>),
    Ip(IpAddress),
}

/// Abstract value of a server name.
pub ghost enum SniNameModel {
    Dns(Seq<u8>),
    Ip(IpAddress),
}

impl View for SniName {
    type V = SniNameModel;

    open spec fn view(&self) -> SniNameModel {
        match self {
            SniName::Dns(b) => SniNameModel::Dns(b@),
            SniName::Ip(a) => SniNameModel::Ip(*a),
        }
    }
}

/// Decides whether a certificate chain is valid for a server name.  `leaf`
/// is the end-entity certificate in DER form, `intermediates` the rest of
/// the presented chain.
pub trait ChainVerifier {
    fn verify_chain(&self, leaf: &Vec<u8>, intermediates: &Vec<Vec<u8>>, name: &SniName) -> bool;
}

/// The decimal digits of a byte, most significant first, no leading zeros.
pub open spec fn dec_byte_text(x: u8) -> Seq<u8> {
    if x >= 100 {
        seq![(48 + x / 100) as u8, (48 + (x / 10) % 10) as u8, (48 + x % 10) as u8]
    } else if x >= 10 {
        seq![(48 + x / 10) as u8, (48 + x % 10) as u8]
    } else {
        seq![(48 + x) as u8]
    }
}

/// One lower-case hexadecimal digit.
pub open spec fn hex_digit_text(x: u8) -> u8 {
    if x < 10 {
        (48 + x) as u8
    } else {
        (87 + x) as u8
    }
}

/// The dotted-quad form of an IPv4 address.
pub open spec fn ipv4_text(x: u32) -> Seq<u8> {
    dec_byte_text((x / 0x1000000) as u8) + seq![46u8] + dec_byte_text(
        ((x / 0x10000) % 256) as u8,
    ) + seq![46u8] + dec_byte_text(((x / 256) % 256) as u8) + seq![46u8] + dec_byte_text(
        (x % 256) as u8,
    )
}

/// The first `g` bytes of an IPv6 address rendered as hexadecimal pairs,
/// with a colon after every odd byte but the last.
pub open spec fn ipv6_text_upto(x: u128, g: int) -> Seq<u8>
    decreases g,
{
    if g <= 0 {
        Seq::<u8>::empty()
    } else {
        let b = crate::packet::v6_byte(x, g - 1);
        let chunk = if (g - 1) % 2 == 1 && g - 1 != 15 {
            seq![hex_digit_text(b / 16), hex_digit_text(b % 16), 58u8]
        } else {
            seq![hex_digit_text(b / 16), hex_digit_text(b % 16)]
        };
        ipv6_text_upto(x, g - 1) + chunk
    }
}

/// The textual form of an address as this library renders it.
pub open spec fn ip_text(a: IpAddress) -> Seq<u8> {
    match a {
        IpAddress::V4(x) => ipv4_text(x),
        IpAddress::V6(x) => ipv6_text_upto(x, 16),
    }
}

/// Renders a server name as the textual host the verifier expects: DNS
/// names as their bytes, addresses in dotted-quad or full hexadecimal
/// colon-separated form.
fn sni_host_bytes(name: &SniName) -> (r: Vec<u8>)
    ensures
        match name@ {
            SniNameModel::Dns(b) => r@ == b,
            SniNameModel::Ip(a) => r@ == ip_text(a),
        },
{
    match name {
        SniName::Dns(b) => {
            let mut r: Vec<u8> = Vec::new();
            let mut i: usize = 0;
            while i < b.len()
                invariant
                    i <= b@.len(),
                    r@ == b@.take(i as int),
                decreases b@.len() - i,
            {
                r.push(b[i]);
                proof {
                    assert(r@ =~= b@.take(i + 1));
                }
                i += 1;
            }
            proof {
                assert(b@.take(b@.len() as int) =~= b@);
            }
            r
        },
        SniName::Ip(a) => format_ip(*a),
    }
}

/// Pushes the decimal digits of `x` (at most three) onto `out`.
fn push_decimal_u8(out: &mut Vec<u8>, x: u8)
    ensures
        final(out)@ == old(out)@ + dec_byte_text(x),
{
    if x >= 100 {
        out.push(48 + x / 100);
    }
    if x >= 10 {
        out.push(48 + (x / 10) % 10);
    }
    out.push(48 + x % 10);
    proof {
        assert(final(out)@ =~= old(out)@ + dec_byte_text(x));
    }
}

/// One hexadecimal digit.
fn hex_digit(x: u8) -> (r: u8)
    requires
        x < 16,
    ensures
        r == hex_digit_text(x),
{
    if x < 10 {
        48 + x
    } else {
        87 + x  // 'a' .. 'f'
    }
}

/// Renders an address textually: IPv4 as dotted quad, IPv6 as eight
/// colon-separated 16-bit groups of four hexadecimal digits.
fn format_ip(a: IpAddress) -> (r: Vec<u8>)
    ensures
        r@ == ip_text(a),
{
    let mut out: Vec<u8> = Vec::new();
    match a {
        IpAddress::V4(x) => {
            push_decimal_u8(&mut out, (x / 0x1000000) as u8);
            out.push(46);  // '.'
            push_decimal_u8(&mut out, ((x / 0x10000) % 256) as u8);
            out.push(46);
            push_decimal_u8(&mut out, ((x / 256) % 256) as u8);
            out.push(46);
            push_decimal_u8(&mut out, (x % 256) as u8);
            proof {
                assert(out@ =~= ipv4_text(x));
            }
        },
        IpAddress::V6(x) => {
            let mut g: usize = 0;
            while g < 16
                invariant
                    g <= 16,
                    out@ == ipv6_text_upto(x, g as int),
                decreases 16 - g,
            {
                let b = crate::packet::v6_byte_exec(x, g);
                out.push(hex_digit(b / 16));
                out.push(hex_digit(b % 16));
                if g % 2 == 1 && g != 15 {
                    out.push(58);  // ':'
                }
                g += 1;
                proof {
                    assert(out@ =~= ipv6_text_upto(x, g as int));
                }
            }
        },
    }
    out
}

/// A verifier backed by rustls's Web PKI implementation over the embedded
/// root store.
pub struct WebPkiChainVerifier {
    marker: bool,
}

impl WebPkiChainVerifier {
    /// Creates the Web PKI-backed verifier.
    pub fn new() -> WebPkiChainVerifier {
        WebPkiChainVerifier { marker: true }
    }
}

/// Relies on rustls's `WebPkiServerVerifier::verify_server_cert` over the
/// `webpki_roots` trust anchors: returns whether the presented chain is
/// valid for `host` at the current time.  The outcome depends on the trust
/// store and the clock, so nothing more is assumed of it.
#[verifier::external_body]
fn webpki_verify(leaf: &Vec<u8>, intermediates: &Vec<Vec<u8>>, host: &Vec<u8>) -> bool {
    let roots = RootCertStore::from_iter(webpki_roots::TLS_SERVER_ROOTS.iter().cloned());
    let Ok(verifier) = WebPkiServerVerifier::builder(Arc::new(roots)).build() else { return false };
    let Ok(server) = ServerName::try_from(host.as_slice()) else { return false };
    let leaf_der = CertificateDer::from(leaf.clone());
    let inters: Vec<CertificateDer> = intermediates.iter().map(|c| CertificateDer::from(c.clone())).collect();
    verifier.verify_server_cert(&leaf_der, &inters, &server.to_owned(), &[], UnixTime::now()).is_ok()
}

impl ChainVerifier for WebPkiChainVerifier {
    fn verify_chain(&self, leaf: &Vec<u8>, intermediates: &Vec<Vec<u8>>, name: &SniName) -> bool {
        let host = sni_host_bytes(name);
        webpki_verify(leaf, intermediates, &host)
    }
}

} // verus!
