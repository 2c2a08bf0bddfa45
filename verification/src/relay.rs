//! The relay variant: after a pair forms, the server keeps forwarding
//! datagrams between its two members instead of stepping out of the data
//! path. A datagram from either member goes verbatim to the other, capped
//! at the receive buffer's capacity; datagrams from anyone else are
//! dropped silently.

use vstd::prelude::*;
use crate::bytes::copy_prefix;
use crate::endpoint::Endpoint;

verus! {

/// Capacity of the relay's receive buffer. A forwarded payload holds at
/// most this many bytes; whatever a sender puts beyond it is lost.
pub const RELAY_CAPACITY: usize = 1024;

/// An established pair the relay forwards between. Well-formed only when
/// the members are distinct, which pairing guarantees.
#[derive(Clone, Copy, PartialEq, Eq, Structural, Debug)]
pub struct RelayPair {
    pub first: Endpoint,
    pub second: Endpoint,
}

impl RelayPair {
    /// A pair never relates an endpoint to itself.
    pub open spec fn wf(self) -> bool {
        self.first != self.second
    }
}

/// Where a datagram from `src` is forwarded: to the counterpart of `src`
/// within the pair, and nowhere if `src` is not a member.
pub open spec fn spec_relay_dest(p: RelayPair, src: Endpoint) -> Option<Endpoint> {
    if src == p.first {
        Some(p.second)
    } else if src == p.second {
        Some(p.first)
    } else {
        None
    }
}

/// The bytes that survive a fixed-size receive: all of them if the
/// datagram fits in `cap` bytes, else exactly the first `cap`.
pub open spec fn spec_clip(s: Seq<u8>, cap: int) -> Seq<u8> {
    if s.len() <= cap {
        s
    } else {
        s.take(cap)
    }
}

/// Picks the forwarding destination for a datagram from `src`.
pub fn relay_dest(p: &RelayPair, src: Endpoint) -> (r: Option<Endpoint>)
    ensures
        r == spec_relay_dest(*p, src),
{
    if src == p.first {
        Some(p.second)
    } else if src == p.second {
        Some(p.first)
    } else {
        None
    }
}

/// One relay decision: a datagram with `payload` arrived from `src`.
/// Returns the member to forward to and the forwarded bytes — the
/// payload clipped to the relay's buffer capacity — or `None` when `src`
/// is not a member of the pair.
pub fn relay_forward(p: &RelayPair, src: Endpoint, payload: &Vec<u8>) -> (r: Option<
    (Endpoint, Vec<u8>),
>)
    ensures
        ({
            let dest = spec_relay_dest(*p, src);
            match r {
                Some(f) => dest == Some(f.0) && f.1@ == spec_clip(payload@, RELAY_CAPACITY as int),
                None => dest is None,
            }
        }),
{
    match relay_dest(p, src) {
        None => None,
        Some(to) => {
            let n = if payload.len() <= RELAY_CAPACITY {
                payload.len()
            } else {
                RELAY_CAPACITY
            };
            let bytes = copy_prefix(payload, n);
            proof {
                if payload@.len() <= RELAY_CAPACITY {
                    assert(payload@.take(payload@.len() as int) =~= payload@);
                }
            }
            Some((to, bytes))
        },
    }
}

/// Relay correctness: within a pair, a payload that fits the buffer goes
/// verbatim from either member to the other, and an unrelated endpoint's
/// datagram is forwarded to no one.
pub proof fn lemma_relay_correctness(p: RelayPair, stranger: Endpoint, payload: Seq<u8>)
    requires
        p.wf(),
        payload.len() <= RELAY_CAPACITY,
        stranger != p.first,
        stranger != p.second,
    ensures
        spec_relay_dest(p, p.first) == Some(p.second),
        spec_relay_dest(p, p.second) == Some(p.first),
        spec_clip(payload, RELAY_CAPACITY as int) == payload,
        spec_relay_dest(p, stranger) is None,
{
}

/// Truncation boundary: a payload of exactly the buffer capacity is
/// forwarded in full; a longer one loses everything past the capacity.
pub proof fn lemma_truncation_boundary(payload: Seq<u8>)
    ensures
        payload.len() == RELAY_CAPACITY ==> spec_clip(payload, RELAY_CAPACITY as int) == payload,
        payload.len() > RELAY_CAPACITY ==> spec_clip(payload, RELAY_CAPACITY as int)
            == payload.take(RELAY_CAPACITY as int),
        spec_clip(payload, RELAY_CAPACITY as int).len() <= RELAY_CAPACITY,
{
}

} // verus!
