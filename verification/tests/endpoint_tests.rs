use hole_punch::endpoint::{Endpoint, encode_endpoint, parse_endpoint, decode_peer, trim_received};

fn ep(a: u8, b: u8, c: u8, d: u8, port: u16) -> Endpoint {
    Endpoint { a, b, c, d, port }
}

#[test]
fn encode_loopback() {
    let e = ep(127, 0, 0, 1, 8080);
    assert_eq!(encode_endpoint(&e), b"127.0.0.1:8080".to_vec());
}

#[test]
fn encode_all_zero() {
    let e = ep(0, 0, 0, 0, 0);
    assert_eq!(encode_endpoint(&e), b"0.0.0.0:0".to_vec());
}

#[test]
fn encode_all_max() {
    let e = ep(255, 255, 255, 255, 65535);
    assert_eq!(encode_endpoint(&e), b"255.255.255.255:65535".to_vec());
}

#[test]
fn parse_simple() {
    let r = parse_endpoint(&b"10.0.0.2:9000".to_vec());
    assert_eq!(r, Some(ep(10, 0, 0, 2, 9000)));
}

#[test]
fn parse_then_encode_round_trip() {
    let text = b"192.168.1.42:31337".to_vec();
    let e = parse_endpoint(&text).unwrap();
    assert_eq!(encode_endpoint(&e), text);
}

#[test]
fn encode_then_parse_round_trip() {
    let e = ep(8, 8, 4, 4, 53);
    assert_eq!(parse_endpoint(&encode_endpoint(&e)), Some(e));
}

#[test]
fn parse_rejects_octet_overflow() {
    assert_eq!(parse_endpoint(&b"256.0.0.1:1".to_vec()), None);
}

#[test]
fn parse_rejects_port_overflow() {
    assert_eq!(parse_endpoint(&b"1.2.3.4:65536".to_vec()), None);
}

#[test]
fn parse_rejects_leading_zero() {
    assert_eq!(parse_endpoint(&b"01.2.3.4:5".to_vec()), None);
    assert_eq!(parse_endpoint(&b"1.2.3.4:05".to_vec()), None);
}

#[test]
fn parse_rejects_missing_port() {
    assert_eq!(parse_endpoint(&b"1.2.3.4".to_vec()), None);
    assert_eq!(parse_endpoint(&b"1.2.3.4:".to_vec()), None);
}

#[test]
fn parse_rejects_trailing_junk() {
    assert_eq!(parse_endpoint(&b"1.2.3.4:5x".to_vec()), None);
    assert_eq!(parse_endpoint(&b"1.2.3.4:5 ".to_vec()), None);
}

#[test]
fn parse_rejects_empty() {
    assert_eq!(parse_endpoint(&Vec::new()), None);
}

#[test]
fn trim_drops_nul_padding() {
    let mut buf = b"9.9.9.9:443".to_vec();
    buf.resize(64, 0);
    assert_eq!(trim_received(&buf, 64), b"9.9.9.9:443".to_vec());
}

#[test]
fn trim_respects_received_length() {
    // Stale bytes beyond the received length must never leak through.
    let buf = b"1.2.3.4:5!!!!".to_vec();
    assert_eq!(trim_received(&buf, 9), b"1.2.3.4:5".to_vec());
}

#[test]
fn decode_peer_with_padding() {
    let mut buf = encode_endpoint(&ep(172, 16, 0, 7, 4000));
    let n = buf.len();
    buf.resize(4096, 0);
    assert_eq!(decode_peer(&buf, n), Some(ep(172, 16, 0, 7, 4000)));
    // The whole zero-padded buffer decodes the same way.
    assert_eq!(decode_peer(&buf, 4096), Some(ep(172, 16, 0, 7, 4000)));
}

#[test]
fn decode_peer_garbage_fails() {
    let buf = b"not an endpoint".to_vec();
    let n = buf.len();
    assert_eq!(decode_peer(&buf, n), None);
}
