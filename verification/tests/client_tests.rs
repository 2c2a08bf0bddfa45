use hole_punch::client::{
    ClientPhase, ClientEvent, ClientAction, PUNCH_TRIES, CLIENT_BUF_SIZE,
    client_init, client_step, frame_line, received_text, marker_payload,
};
use hole_punch::endpoint::{Endpoint, encode_endpoint};

fn ep(a: u8, b: u8, c: u8, d: u8, port: u16) -> Endpoint {
    Endpoint { a, b, c, d, port }
}

/// The server's datagram as the client sees it: the peer's rendered
/// endpoint at the front of the reused 4096-byte receive buffer.
fn server_datagram(peer: &Endpoint) -> (Vec<u8>, usize) {
    let mut buf = encode_endpoint(peer);
    let n = buf.len();
    buf.resize(CLIENT_BUF_SIZE, 0);
    (buf, n)
}

#[test]
fn handshake_walks_all_phases() {
    let peer = ep(198, 51, 100, 9, 41000);

    let (phase, action) = client_init();
    assert_eq!(phase, ClientPhase::Binding);
    assert_eq!(action, ClientAction::BindLocal);

    let (phase, action) = client_step(phase, ClientEvent::BindDone { ok: true });
    assert_eq!(phase, ClientPhase::Registering);
    assert_eq!(action, ClientAction::RegisterWithServer);

    let (phase, action) = client_step(phase, ClientEvent::RegisterDone { ok: true });
    assert_eq!(phase, ClientPhase::AwaitingPeer);
    assert_eq!(action, ClientAction::AwaitServerDatagram);

    let (data, len) = server_datagram(&peer);
    let (phase, action) = client_step(phase, ClientEvent::ServerDatagram { data, len });
    assert_eq!(phase, ClientPhase::Punching { peer, tries_left: PUNCH_TRIES });
    assert_eq!(action, ClientAction::PunchPeer { peer });

    let (phase, action) = client_step(phase, ClientEvent::PunchDone { ok: true });
    assert_eq!(phase, ClientPhase::Streaming { peer });
    assert_eq!(action, ClientAction::StartDuplex { peer });

    let (phase, action) = client_step(phase, ClientEvent::InputClosed);
    assert_eq!(phase, ClientPhase::Finished);
    assert_eq!(action, ClientAction::Quit { failure: false });
}

#[test]
fn failed_bind_is_fatal() {
    let (phase, _) = client_init();
    let (phase, action) = client_step(phase, ClientEvent::BindDone { ok: false });
    assert_eq!(phase, ClientPhase::Failed);
    assert_eq!(action, ClientAction::Quit { failure: true });
}

#[test]
fn failed_register_is_fatal() {
    let (phase, action) = client_step(
        ClientPhase::Registering,
        ClientEvent::RegisterDone { ok: false },
    );
    assert_eq!(phase, ClientPhase::Failed);
    assert_eq!(action, ClientAction::Quit { failure: true });
}

#[test]
fn undecodable_peer_datagram_is_fatal() {
    let mut data = b"garbage".to_vec();
    let len = data.len();
    data.resize(CLIENT_BUF_SIZE, 0);
    let (phase, action) = client_step(
        ClientPhase::AwaitingPeer,
        ClientEvent::ServerDatagram { data, len },
    );
    assert_eq!(phase, ClientPhase::Failed);
    assert_eq!(action, ClientAction::Quit { failure: true });
}

#[test]
fn punch_is_retried_a_bounded_number_of_times() {
    let peer = ep(198, 51, 100, 9, 41000);
    let mut phase = ClientPhase::Punching { peer, tries_left: PUNCH_TRIES };
    for left in (0..PUNCH_TRIES).rev() {
        let (next, action) = client_step(phase, ClientEvent::PunchDone { ok: false });
        assert_eq!(next, ClientPhase::Punching { peer, tries_left: left });
        assert_eq!(action, ClientAction::PunchPeer { peer });
        phase = next;
    }
    // Retries exhausted: the next failure is fatal.
    let (phase, action) = client_step(phase, ClientEvent::PunchDone { ok: false });
    assert_eq!(phase, ClientPhase::Failed);
    assert_eq!(action, ClientAction::Quit { failure: true });
}

#[test]
fn punch_success_after_retry_enters_streaming() {
    let peer = ep(198, 51, 100, 9, 41000);
    let phase = ClientPhase::Punching { peer, tries_left: PUNCH_TRIES };
    let (phase, _) = client_step(phase, ClientEvent::PunchDone { ok: false });
    let (phase, action) = client_step(phase, ClientEvent::PunchDone { ok: true });
    assert_eq!(phase, ClientPhase::Streaming { peer });
    assert_eq!(action, ClientAction::StartDuplex { peer });
}

#[test]
fn out_of_protocol_event_is_fatal() {
    let (phase, action) = client_step(ClientPhase::Binding, ClientEvent::InputClosed);
    assert_eq!(phase, ClientPhase::Failed);
    assert_eq!(action, ClientAction::Quit { failure: true });
}

#[test]
fn marker_is_short_and_nonempty() {
    let m = marker_payload();
    assert!(!m.is_empty());
    assert_eq!(m, b"punch".to_vec());
}

#[test]
fn duplex_lines_survive_the_round_trip() {
    // A line sent on one side arrives byte-for-byte on the other, modulo
    // the appended terminator — including the empty line.
    for line in [&b"hello"[..], &b"world"[..], &b""[..]] {
        let sent = frame_line(&line.to_vec());
        assert_eq!(sent.len(), line.len() + 1);

        // The datagram lands at the front of the receiver's buffer.
        let mut buf = sent.clone();
        buf.resize(CLIENT_BUF_SIZE, 0);
        let emitted = received_text(&buf, sent.len());

        assert_eq!(emitted, sent);
        assert_eq!(&emitted[..emitted.len() - 1], line);
        assert_eq!(*emitted.last().unwrap(), b'\n');
    }
}

#[test]
fn received_text_ignores_stale_buffer_tail() {
    // A long datagram followed by a short one in the same buffer: only
    // the received length is emitted, not the previous datagram's tail.
    let mut buf = frame_line(&b"a much longer earlier message".to_vec());
    let short = frame_line(&b"hi".to_vec());
    buf[..short.len()].copy_from_slice(&short);
    assert_eq!(received_text(&buf, short.len()), b"hi\n".to_vec());
}
