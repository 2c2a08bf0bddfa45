use hole_punch::config::{
    Transport, ConfigError, Params, parse_transport, build_params, parse_port,
};
use hole_punch::endpoint::Endpoint;

#[test]
fn udp_tag_is_accepted() {
    assert_eq!(parse_transport(&b"udp".to_vec()), Some(Transport::Udp));
}

#[test]
fn other_tags_are_rejected() {
    assert_eq!(parse_transport(&b"tcp".to_vec()), None);
    assert_eq!(parse_transport(&b"UDP".to_vec()), None);
    assert_eq!(parse_transport(&b"".to_vec()), None);
    assert_eq!(parse_transport(&b"udpx".to_vec()), None);
}

#[test]
fn good_arguments_build_params() {
    let r = build_params(
        &b"0.0.0.0:3400".to_vec(),
        &b"203.0.113.7:3478".to_vec(),
        &b"udp".to_vec(),
    );
    assert_eq!(
        r,
        Ok(Params {
            local: Endpoint { a: 0, b: 0, c: 0, d: 0, port: 3400 },
            server: Endpoint { a: 203, b: 0, c: 113, d: 7, port: 3478 },
            transport: Transport::Udp,
        })
    );
}

#[test]
fn bad_local_endpoint_is_reported() {
    let r = build_params(
        &b"not-an-endpoint".to_vec(),
        &b"203.0.113.7:3478".to_vec(),
        &b"udp".to_vec(),
    );
    assert_eq!(r, Err(ConfigError::BadLocalEndpoint));
}

#[test]
fn bad_server_endpoint_is_reported() {
    let r = build_params(
        &b"0.0.0.0:3400".to_vec(),
        &b"203.0.113:3478".to_vec(),
        &b"udp".to_vec(),
    );
    assert_eq!(r, Err(ConfigError::BadServerEndpoint));
}

#[test]
fn bad_transport_is_reported() {
    let r = build_params(
        &b"0.0.0.0:3400".to_vec(),
        &b"203.0.113.7:3478".to_vec(),
        &b"tcp".to_vec(),
    );
    assert_eq!(r, Err(ConfigError::BadTransport));
}

#[test]
fn ports_parse_canonically() {
    assert_eq!(parse_port(&b"8080".to_vec()), Some(8080));
    assert_eq!(parse_port(&b"0".to_vec()), Some(0));
    assert_eq!(parse_port(&b"65535".to_vec()), Some(65535));
}

#[test]
fn bad_ports_are_rejected() {
    assert_eq!(parse_port(&b"65536".to_vec()), None);
    assert_eq!(parse_port(&b"012".to_vec()), None);
    assert_eq!(parse_port(&b"".to_vec()), None);
    assert_eq!(parse_port(&b"80a".to_vec()), None);
    assert_eq!(parse_port(&b"-1".to_vec()), None);
}
