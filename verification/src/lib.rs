//! A transparent TLS-validating middlebox library.
//!
//! The library passively reassembles both halves of a TCP flow, parses the
//! TLS handshake far enough to obtain the server's certificate chain, checks
//! that chain against a pluggable verifier, and forges the pair of TCP RST
//! segments that tear down a connection whose chain does not validate.

pub mod buffer_props;
pub mod cert_verify;
pub mod checksum;
pub mod dispatch;
pub mod hostname;
pub mod ip;
pub mod middlebox;
pub mod packet;
pub mod protocol;
pub mod seqnum;
pub mod tcp_buffer;

pub use seqnum::TCP_MAX_WINDOW;
