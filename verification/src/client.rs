//! The punching client's handshake, as a state machine over plain
//! events: bind the local socket, register with the rendezvous server,
//! await the peer's endpoint, punch through to the peer, then stream in
//! both directions until local input ends. The surrounding process
//! performs each returned action on the real socket and feeds the
//! outcome back in as the next event; any fatal outcome aborts the whole
//! client, and no transition ever returns to an earlier phase.

use vstd::prelude::*;
use crate::endpoint::{
    Endpoint, spec_encode, spec_decode_peer, decode_peer,
    lemma_decode_peer_of_encode,
};
use crate::bytes::copy_prefix;
use crate::pairing::{spec_pairing_init, spec_pairing_run};

verus! {

/// How many further punch attempts follow a failed one before the
/// failure counts as fatal.
pub const PUNCH_TRIES: u8 = 3;

/// Size of the client's receive buffer; a longer datagram is truncated
/// by the socket, a shorter one leaves the buffer's tail untouched.
pub const CLIENT_BUF_SIZE: usize = 4096;

/// ASCII line feed, the terminator appended to each outgoing line.
pub const NL_CH: u8 = 10;

/// Where the client stands in its handshake.
#[derive(Clone, Copy, PartialEq, Eq, Structural, Debug)]
pub enum ClientPhase {
    /// The local socket is not bound yet.
    Binding,
    /// Bound; the registration marker still has to reach the server.
    Registering,
    /// Registered; waiting for the server's datagram with the peer.
    AwaitingPeer,
    /// Peer known; a punch datagram has to reach it.
    Punching { peer: Endpoint, tries_left: u8 },
    /// The hole is open; both duplex loops run.
    Streaming { peer: Endpoint },
    /// Local input is exhausted; the client is done.
    Finished,
    /// A fatal error ended the client.
    Failed,
}

/// What the outside world reports back to the state machine.
pub enum ClientEvent {
    /// The bind attempt finished.
    BindDone { ok: bool },
    /// Connecting to the server and sending the marker finished.
    RegisterDone { ok: bool },
    /// A datagram arrived from the server: the receive buffer and how
    /// many of its bytes the datagram filled.
    ServerDatagram { data: Vec<u8>, len: usize },
    /// The punch attempt finished.
    PunchDone { ok: bool },
    /// Local input is exhausted.
    InputClosed,
}

/// What the state machine asks the outside world to do next.
#[derive(Clone, Copy, PartialEq, Eq, Structural, Debug)]
pub enum ClientAction {
    /// Bind the local socket to the configured endpoint.
    BindLocal,
    /// Set the socket's destination to the server and send the marker.
    RegisterWithServer,
    /// Block until a datagram arrives from the server.
    AwaitServerDatagram,
    /// Re-target the socket at the peer and send the marker.
    PunchPeer { peer: Endpoint },
    /// Start the concurrent receive and send loops toward the peer.
    StartDuplex { peer: Endpoint },
    /// Stop; `failure` tells a clean end from a fatal error.
    Quit { failure: bool },
}

/// The phase a client starts in, and the action that opens the handshake.
pub open spec fn spec_client_init() -> (ClientPhase, ClientAction) {
    (ClientPhase::Binding, ClientAction::BindLocal)
}

/// The handshake's transition function. The valid bytes of a server
/// datagram are decoded — NUL padding trimmed — into the peer endpoint;
/// an undecodable datagram is fatal, a failed punch is retried a bounded
/// number of times, and any event out of protocol is fatal.
pub open spec fn spec_client_step(phase: ClientPhase, event: ClientEvent) -> (
    ClientPhase,
    ClientAction,
) {
    match (phase, event) {
        (ClientPhase::Binding, ClientEvent::BindDone { ok }) => if ok {
            (ClientPhase::Registering, ClientAction::RegisterWithServer)
        } else {
            (ClientPhase::Failed, ClientAction::Quit { failure: true })
        },
        (ClientPhase::Registering, ClientEvent::RegisterDone { ok }) => if ok {
            (ClientPhase::AwaitingPeer, ClientAction::AwaitServerDatagram)
        } else {
            (ClientPhase::Failed, ClientAction::Quit { failure: true })
        },
        (ClientPhase::AwaitingPeer, ClientEvent::ServerDatagram { data, len }) => {
            let n = if len <= data@.len() {
                len as int
            } else {
                data@.len() as int
            };
            match spec_decode_peer(data@, n) {
                Some(peer) => (
                    ClientPhase::Punching { peer, tries_left: PUNCH_TRIES },
                    ClientAction::PunchPeer { peer },
                ),
                None => (ClientPhase::Failed, ClientAction::Quit { failure: true }),
            }
        },
        (ClientPhase::Punching { peer, tries_left }, ClientEvent::PunchDone { ok }) => if ok {
            (ClientPhase::Streaming { peer }, ClientAction::StartDuplex { peer })
        } else if tries_left > 0 {
            (
                ClientPhase::Punching { peer, tries_left: (tries_left - 1) as u8 },
                ClientAction::PunchPeer { peer },
            )
        } else {
            (ClientPhase::Failed, ClientAction::Quit { failure: true })
        },
        (ClientPhase::Streaming { peer }, ClientEvent::InputClosed) => (
            ClientPhase::Finished,
            ClientAction::Quit { failure: false },
        ),
        _ => (ClientPhase::Failed, ClientAction::Quit { failure: true }),
    }
}

/// Starts the handshake.
pub fn client_init() -> (r: (ClientPhase, ClientAction))
    ensures
        r == spec_client_init(),
{
    (ClientPhase::Binding, ClientAction::BindLocal)
}

/// Feeds one event to the handshake and returns the next phase and the
/// action to perform.
pub fn client_step(phase: ClientPhase, event: ClientEvent) -> (r: (ClientPhase, ClientAction))
    ensures
        r == spec_client_step(phase, event),
{
    match (phase, event) {
        (ClientPhase::Binding, ClientEvent::BindDone { ok }) => if ok {
            (ClientPhase::Registering, ClientAction::RegisterWithServer)
        } else {
            (ClientPhase::Failed, ClientAction::Quit { failure: true })
        },
        (ClientPhase::Registering, ClientEvent::RegisterDone { ok }) => if ok {
            (ClientPhase::AwaitingPeer, ClientAction::AwaitServerDatagram)
        } else {
            (ClientPhase::Failed, ClientAction::Quit { failure: true })
        },
        (ClientPhase::AwaitingPeer, ClientEvent::ServerDatagram { data, len }) => {
            let n = if len <= data.len() {
                len
            } else {
                data.len()
            };
            match decode_peer(&data, n) {
                Some(peer) => (
                    ClientPhase::Punching { peer, tries_left: PUNCH_TRIES },
                    ClientAction::PunchPeer { peer },
                ),
                None => (ClientPhase::Failed, ClientAction::Quit { failure: true }),
            }
        },
        (ClientPhase::Punching { peer, tries_left }, ClientEvent::PunchDone { ok }) => if ok {
            (ClientPhase::Streaming { peer }, ClientAction::StartDuplex { peer })
        } else if tries_left > 0 {
            (
                ClientPhase::Punching { peer, tries_left: tries_left - 1 },
                ClientAction::PunchPeer { peer },
            )
        } else {
            (ClientPhase::Failed, ClientAction::Quit { failure: true })
        },
        (ClientPhase::Streaming { peer: _ }, ClientEvent::InputClosed) => (
            ClientPhase::Finished,
            ClientAction::Quit { failure: false },
        ),
        _ => (ClientPhase::Failed, ClientAction::Quit { failure: true }),
    }
}

/// The registration and punch marker: a short, nonempty payload whose
/// content the server never reads. Reads `punch`.
pub open spec fn spec_marker() -> Seq<u8> {
    seq![112u8, 117u8, 110u8, 99u8, 104u8]
}

pub fn marker_payload() -> (r: Vec<u8>)
    ensures
        r@ == spec_marker(),
        r@.len() > 0,
{
    let mut out: Vec<u8> = Vec::new();
    out.push(112);
    out.push(117);
    out.push(110);
    out.push(99);
    out.push(104);
    proof {
        assert(out@ =~= spec_marker());
    }
    out
}

/// Frames one line of local input as a datagram: the line's bytes plus
/// the line terminator.
pub fn frame_line(line: &Vec<u8>) -> (r: Vec<u8>)
    ensures
        r@ == line@.push(NL_CH),
{
    let mut out = copy_prefix(line, line.len());
    proof {
        assert(line@.take(line@.len() as int) =~= line@);
    }
    out.push(NL_CH);
    out
}

/// The bytes one receive-loop iteration emits: exactly the `len` bytes
/// the datagram filled, never the stale tail of the reused buffer.
pub fn received_text(buf: &Vec<u8>, len: usize) -> (r: Vec<u8>)
    requires
        len <= buf@.len(),
    ensures
        r@ == buf@.take(len as int),
{
    copy_prefix(buf, len)
}

/// A handshake transition never moves to an earlier phase.
pub open spec fn phase_rank(p: ClientPhase) -> int {
    match p {
        ClientPhase::Binding => 0,
        ClientPhase::Registering => 1,
        ClientPhase::AwaitingPeer => 2,
        ClientPhase::Punching { .. } => 3,
        ClientPhase::Streaming { .. } => 4,
        ClientPhase::Finished => 5,
        ClientPhase::Failed => 5,
    }
}

pub proof fn lemma_no_backward_transition(phase: ClientPhase, event: ClientEvent)
    ensures
        phase_rank(spec_client_step(phase, event).0) >= phase_rank(phase),
{
}

/// Round-trip handshake: a completed pairing round pairs the two
/// clients' endpoints, each payload the server then sends decodes back
/// to the other client's actual endpoint, and such a payload — however
/// NUL-padded by the receive buffer — moves the awaiting client straight
/// to punching at that endpoint.
pub proof fn lemma_round_trip_handshake(
    ea: Endpoint,
    eb: Endpoint,
    m: nat,
    data: Vec<u8>,
    len: usize,
)
    requires
        ea != eb,
        m >= 1,
        spec_encode(eb).len() <= len <= data@.len(),
        data@.take(len as int).take(spec_encode(eb).len() as int) == spec_encode(eb),
        forall|i: int| spec_encode(eb).len() <= i < len ==> #[trigger] data@[i] == 0,
    ensures
        spec_pairing_run(spec_pairing_init(), Seq::new(m, |i: int| ea).push(eb)).1 == seq![
            (ea, eb),
        ],
        spec_decode_peer(spec_encode(eb), spec_encode(eb).len() as int) == Some(eb),
        spec_decode_peer(spec_encode(ea), spec_encode(ea).len() as int) == Some(ea),
        spec_client_step(ClientPhase::AwaitingPeer, ClientEvent::ServerDatagram { data, len })
            == (
            ClientPhase::Punching { peer: eb, tries_left: PUNCH_TRIES },
            ClientAction::PunchPeer { peer: eb },
        ),
{
    crate::pairing::lemma_pairing_correctness(ea, eb, m);
    let enca = spec_encode(ea);
    let encb = spec_encode(eb);
    assert(enca.take(enca.len() as int) =~= enca);
    assert(encb.take(encb.len() as int) =~= encb);
    lemma_decode_peer_of_encode(ea, enca, enca.len() as int);
    lemma_decode_peer_of_encode(eb, encb, encb.len() as int);
    lemma_decode_peer_of_encode(eb, data@, len as int);
}

/// Duplex liveness, one direction: a framed line that arrives whole and
/// is read back with its exact received length is emitted byte-for-byte
/// — the original line, plus the terminator the sender appended.
pub proof fn lemma_duplex_line_round_trip(line: Seq<u8>, buf: Seq<u8>)
    requires
        line.len() + 1 <= buf.len(),
        buf.take(line.len() + 1 as int) == line.push(NL_CH),
    ensures
        buf.take(line.len() + 1 as int).drop_last() == line,
        buf.take(line.len() + 1 as int).last() == NL_CH,
{
    assert(line.push(NL_CH).drop_last() =~= line);
}

} // verus!
