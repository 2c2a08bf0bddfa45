use hole_punch::endpoint::Endpoint;
use hole_punch::relay::{RelayPair, RELAY_CAPACITY, relay_dest, relay_forward};

fn ep(a: u8, b: u8, c: u8, d: u8, port: u16) -> Endpoint {
    Endpoint { a, b, c, d, port }
}

fn pair() -> RelayPair {
    RelayPair { first: ep(203, 0, 113, 7, 40000), second: ep(198, 51, 100, 9, 41000) }
}

#[test]
fn forwards_first_to_second() {
    let p = pair();
    let payload = b"hello across the NAT".to_vec();
    let r = relay_forward(&p, p.first, &payload);
    assert_eq!(r, Some((p.second, payload)));
}

#[test]
fn forwards_second_to_first() {
    let p = pair();
    let payload = b"and back again".to_vec();
    let r = relay_forward(&p, p.second, &payload);
    assert_eq!(r, Some((p.first, payload)));
}

#[test]
fn drops_unrelated_sources() {
    let p = pair();
    let stranger = ep(192, 0, 2, 99, 5353);
    assert_eq!(relay_dest(&p, stranger), None);
    assert_eq!(relay_forward(&p, stranger, &b"noise".to_vec()), None);
}

#[test]
fn payload_at_capacity_is_forwarded_in_full() {
    let p = pair();
    let payload = vec![7u8; RELAY_CAPACITY];
    let (_, forwarded) = relay_forward(&p, p.first, &payload).unwrap();
    assert_eq!(forwarded, payload);
    assert_eq!(forwarded.len(), RELAY_CAPACITY);
}

#[test]
fn payload_over_capacity_is_truncated() {
    let p = pair();
    let mut payload = vec![7u8; RELAY_CAPACITY];
    payload.push(8);
    let (_, forwarded) = relay_forward(&p, p.first, &payload).unwrap();
    assert_eq!(forwarded.len(), RELAY_CAPACITY);
    assert_eq!(forwarded, payload[..RELAY_CAPACITY].to_vec());
}

#[test]
fn empty_payload_is_forwarded() {
    let p = pair();
    let r = relay_forward(&p, p.second, &Vec::new());
    assert_eq!(r, Some((p.first, Vec::new())));
}
