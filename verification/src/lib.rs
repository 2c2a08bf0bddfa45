//! UDP NAT hole-punching, modelled and verified.
//!
//! A rendezvous server pairs two distinct remote endpoints and tells each
//! the other's address; each client then re-targets its socket at its peer
//! and runs a full-duplex exchange. This crate holds the protocol logic:
//! the textual endpoint wire format, the server's pairing state machine,
//! the relay variant's forwarding rule, and the client's handshake state
//! machine. The socket and console plumbing around it is ordinary Rust.

pub mod bytes;
pub mod client;
pub mod config;
pub mod digits;
pub mod endpoint;
pub mod pairing;
pub mod relay;
