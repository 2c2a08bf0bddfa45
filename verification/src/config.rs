//! Startup configuration, validated before any socket is touched: the
//! client's two endpoints and the transport tag, and the server's
//! listening port. Only UDP is implemented; the tag is held against a
//! fixed allowed set.

use vstd::prelude::*;
use vstd::assert_by_contradiction;
use crate::digits::{dec_digits, scan_num,
    lemma_dec_digits_wf, lemma_dec_digits_injective, lemma_digit_run_boundary};
use crate::endpoint::{Endpoint, spec_parse_endpoint, parse_endpoint};

verus! {

/// Transport selector. Only UDP is implemented; the tag exists for
/// future transports and must come from the fixed allowed set.
#[derive(Clone, Copy, PartialEq, Eq, Structural, Debug)]
pub enum Transport {
    Udp,
}

/// The only allowed transport tag, as bytes: `udp`.
pub open spec fn spec_udp_tag() -> Seq<u8> {
    seq![117u8, 100u8, 112u8]
}

pub open spec fn spec_parse_transport(s: Seq<u8>) -> Option<Transport> {
    if s == spec_udp_tag() {
        Some(Transport::Udp)
    } else {
        None
    }
}

/// Accepts a transport tag exactly when it is in the allowed set.
pub fn parse_transport(tag: &Vec<u8>) -> (r: Option<Transport>)
    ensures
        r == spec_parse_transport(tag@),
{
    if tag.len() == 3 && tag[0] == 117 && tag[1] == 100 && tag[2] == 112 {
        proof {
            assert(tag@ =~= spec_udp_tag());
        }
        Some(Transport::Udp)
    } else {
        proof {
            if tag@ == spec_udp_tag() {
                assert(tag@.len() == 3);
                assert(tag@[0] == 117 && tag@[1] == 100 && tag@[2] == 112);
            }
        }
        None
    }
}

/// A configuration error names the offending argument; it is detected
/// before any socket operation and aborts startup.
#[derive(Clone, Copy, PartialEq, Eq, Structural, Debug)]
pub enum ConfigError {
    BadLocalEndpoint,
    BadServerEndpoint,
    BadTransport,
}

/// Client parameters, immutable once parsed: where to bind, where the
/// rendezvous server listens, and the transport to use.
#[derive(Clone, Copy, PartialEq, Eq, Structural, Debug)]
pub struct Params {
    pub local: Endpoint,
    pub server: Endpoint,
    pub transport: Transport,
}

/// Which parameters the three textual arguments denote, or the first
/// error among them: local endpoint, then server endpoint, then tag.
pub open spec fn spec_build_params(local: Seq<u8>, server: Seq<u8>, transport: Seq<u8>) -> Result<
    Params,
    ConfigError,
> {
    match spec_parse_endpoint(local) {
        None => Err(ConfigError::BadLocalEndpoint),
        Some(l) => match spec_parse_endpoint(server) {
            None => Err(ConfigError::BadServerEndpoint),
            Some(sv) => match spec_parse_transport(transport) {
                None => Err(ConfigError::BadTransport),
                Some(t) => Ok(Params { local: l, server: sv, transport: t }),
            },
        },
    }
}

/// Validates the client's textual arguments. Succeeds exactly when both
/// endpoints are canonical renderings and the tag is allowed; otherwise
/// reports the first offending argument.
pub fn build_params(local: &Vec<u8>, server: &Vec<u8>, transport: &Vec<u8>) -> (r: Result<
    Params,
    ConfigError,
>)
    ensures
        r == spec_build_params(local@, server@, transport@),
{
    let l = match parse_endpoint(local) {
        None => {
            return Err(ConfigError::BadLocalEndpoint);
        },
        Some(e) => e,
    };
    let sv = match parse_endpoint(server) {
        None => {
            return Err(ConfigError::BadServerEndpoint);
        },
        Some(e) => e,
    };
    let t = match parse_transport(transport) {
        None => {
            return Err(ConfigError::BadTransport);
        },
        Some(t) => t,
    };
    Ok(Params { local: l, server: sv, transport: t })
}

/// The port whose canonical decimal rendering is `s`, if any.
pub open spec fn spec_parse_port(s: Seq<u8>) -> Option<u16> {
    if exists|v: u16| s == dec_digits(v as nat) {
        Some(choose|v: u16| s == dec_digits(v as nat))
    } else {
        None
    }
}

/// Parses the server's listening port: the whole text must be one
/// canonical decimal number that fits a port.
pub fn parse_port(text: &Vec<u8>) -> (r: Option<u16>)
    ensures
        r == spec_parse_port(text@),
{
    let ghost s = text@;
    let r0 = scan_num(text, 0, 65535);
    match r0 {
        None => {
            proof {
                assert_by_contradiction!(!exists|v: u16| s == dec_digits(v as nat), {
                    let v = choose|v: u16| s == dec_digits(v as nat);
                    lemma_dec_digits_wf(v as nat);
                    lemma_digit_run_boundary(s, 0, s.len() as int);
                    assert(s.subrange(0, s.len() as int) =~= s);
                });
            }
            None
        },
        Some(p) => {
            if p.1 == text.len() {
                proof {
                    assert(s.subrange(0, s.len() as int) =~= s);
                    assert(exists|v: u16| s == dec_digits(v as nat)) by {
                        assert(s == dec_digits((p.0 as u16) as nat));
                    }
                    let w = choose|v: u16| s == dec_digits(v as nat);
                    lemma_dec_digits_injective(w as nat, p.0 as nat);
                }
                Some(p.0 as u16)
            } else {
                proof {
                    assert_by_contradiction!(!exists|v: u16| s == dec_digits(v as nat), {
                        let v = choose|v: u16| s == dec_digits(v as nat);
                        lemma_dec_digits_wf(v as nat);
                        lemma_digit_run_boundary(s, 0, s.len() as int);
                    });
                }
                None
            }
        },
    }
}

} // verus!
