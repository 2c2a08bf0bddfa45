use hole_punch::endpoint::Endpoint;
use hole_punch::pairing::{PairingState, pairing_init, pairing_step, exchange_payloads};

fn ep(a: u8, b: u8, c: u8, d: u8, port: u16) -> Endpoint {
    Endpoint { a, b, c, d, port }
}

#[test]
fn pairs_first_two_distinct_endpoints() {
    let e1 = ep(203, 0, 113, 7, 40000);
    let e2 = ep(198, 51, 100, 9, 41000);

    let st = pairing_init();
    assert_eq!(st, PairingState::AwaitingFirst);

    let (st, pair) = pairing_step(st, e1);
    assert_eq!(st, PairingState::AwaitingSecond { first: e1 });
    assert_eq!(pair, None);

    // A duplicate registration from the first endpoint is discarded.
    let (st, pair) = pairing_step(st, e1);
    assert_eq!(st, PairingState::AwaitingSecond { first: e1 });
    assert_eq!(pair, None);

    // The first distinct endpoint completes the round.
    let (st, pair) = pairing_step(st, e2);
    assert_eq!(st, PairingState::AwaitingFirst);
    assert_eq!(pair, Some((e1, e2)));
    let (first, second) = pair.unwrap();
    assert_ne!(first, second);
}

#[test]
fn exchange_sends_each_the_other() {
    let e1 = ep(203, 0, 113, 7, 40000);
    let e2 = ep(198, 51, 100, 9, 41000);
    let (to_first, to_second) = exchange_payloads(e1, e2);
    assert_eq!(to_first, b"198.51.100.9:41000".to_vec());
    assert_eq!(to_second, b"203.0.113.7:40000".to_vec());
}

#[test]
fn rounds_are_independent() {
    let e1 = ep(203, 0, 113, 7, 40000);
    let e2 = ep(198, 51, 100, 9, 41000);
    let e3 = ep(192, 0, 2, 33, 42000);
    let e4 = ep(192, 0, 2, 34, 43000);

    let st = pairing_init();
    let (st, _) = pairing_step(st, e1);
    let (st, _) = pairing_step(st, e1);
    let (st, pair) = pairing_step(st, e2);
    assert_eq!(pair, Some((e1, e2)));

    // A third endpoint opens a fresh round: it is never paired with a
    // stale endpoint from the finished round.
    let (st, pair) = pairing_step(st, e3);
    assert_eq!(st, PairingState::AwaitingSecond { first: e3 });
    assert_eq!(pair, None);

    let (st, pair) = pairing_step(st, e4);
    assert_eq!(st, PairingState::AwaitingFirst);
    assert_eq!(pair, Some((e3, e4)));
}
