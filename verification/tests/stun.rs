use hypercast_relay_directory::stun::{binding_request, is_binding_success, parse_turn_host_port};

#[test]
fn parses_turn_urls() {
    assert_eq!(
        parse_turn_host_port("turn:turn.example.com:3478"),
        Some(("turn.example.com".into(), 3478))
    );
    assert_eq!(
        parse_turn_host_port("stun:1.2.3.4:5444"),
        Some(("1.2.3.4".into(), 5444))
    );
    assert_eq!(
        parse_turn_host_port("turns:relay.example.com:443"),
        Some(("relay.example.com".into(), 443))
    );
    assert_eq!(parse_turn_host_port("turn:noport"), None);
    assert_eq!(parse_turn_host_port("garbage"), None);
}

#[test]
fn parse_edge_cases() {
    assert_eq!(parse_turn_host_port("  turn:h:1\t"), Some(("h".into(), 1)));
    assert_eq!(parse_turn_host_port("h:+80"), Some(("h".into(), 80)));
    assert_eq!(parse_turn_host_port("h:00080"), Some(("h".into(), 80)));
    assert_eq!(parse_turn_host_port("turn::80"), None);
    assert_eq!(parse_turn_host_port("turn:h:65535"), Some(("h".into(), 65535)));
    assert_eq!(parse_turn_host_port("turn:h:65536"), None);
    assert_eq!(parse_turn_host_port("turn:h:-1"), None);
    assert_eq!(parse_turn_host_port("turn:h:+"), None);
    assert_eq!(parse_turn_host_port("turn:h:"), None);
    assert_eq!(parse_turn_host_port("turn:[::1]:3478"), Some(("[::1]".into(), 3478)));
    assert_eq!(parse_turn_host_port("turn:turn:3478"), Some(("turn".into(), 3478)));
    assert_eq!(parse_turn_host_port("TURN:h:1"), Some(("TURN:h".into(), 1)));
    assert_eq!(parse_turn_host_port("turn:h:1２"), None);
}

#[test]
fn parse_roundtrip_examples() {
    for scheme in ["turn:", "turns:", "stun:"] {
        for host in ["a", "relay.example.com", "10.0.0.1", "x:y"] {
            for port in [0u16, 7, 443, 3478, 65535] {
                let url = format!("{scheme}{host}:{port}");
                assert_eq!(parse_turn_host_port(&url), Some((host.to_string(), port)));
            }
        }
    }
}

#[test]
fn binding_request_layout() {
    let pkt = binding_request(0x0102_0304, 0x0A0B_0C0D);
    assert_eq!(
        pkt,
        vec![
            0x00, 0x01, 0x00, 0x00, 0x21, 0x12, 0xA4, 0x42, 0x01, 0x02, 0x03, 0x04, 0x0A, 0x0B,
            0x0C, 0x0D, 0x48, 0x43, 0x55, 0x31
        ]
    );
}

#[test]
fn binding_response_check() {
    let req = binding_request(7, 9);
    let mut resp = req.clone();
    resp[0] = 0x01;
    resp[1] = 0x01;
    assert!(is_binding_success(&req, &resp));
    // trailing attributes are fine
    let mut longer = resp.clone();
    longer.extend_from_slice(&[0, 1, 2, 3]);
    assert!(is_binding_success(&req, &longer));
    // the request itself is not an answer
    assert!(!is_binding_success(&req, &req));
    // wrong transaction id
    let mut other = resp.clone();
    other[19] ^= 0xFF;
    assert!(!is_binding_success(&req, &other));
    // cookie bytes are not compared
    let mut cookie = resp.clone();
    cookie[4] = 0;
    assert!(is_binding_success(&req, &cookie));
    // too short
    assert!(!is_binding_success(&req, &resp[..19]));
    // error response type
    let mut error = resp.clone();
    error[0] = 0x01;
    error[1] = 0x11;
    assert!(!is_binding_success(&req, &error));
}

/// The same parse written with std's string methods, for comparison.
fn host_port_by_std(url: &str) -> Option<(String, u16)> {
    let rest = url.trim();
    let rest = rest
        .strip_prefix("turns:")
        .or_else(|| rest.strip_prefix("turn:"))
        .or_else(|| rest.strip_prefix("stun:"))
        .unwrap_or(rest);
    let (host, port) = rest.rsplit_once(':')?;
    let port: u16 = port.parse().ok()?;
    if host.is_empty() {
        return None;
    }
    Some((host.to_owned(), port))
}

#[test]
fn parse_agrees_with_std_on_many_inputs() {
    let pieces = [
        "", " ", "\u{3000}", "turn:", "turns:", "stun:", "TURN:", "h", "é", ":", "::", "+", "-",
        "0", "9", "65535", "65536", "99999999999999999999", "+80", "0080", "１", "\t", "a:b",
    ];
    let mut count = 0;
    for a in pieces {
        for b in pieces {
            for c in pieces {
                let url = format!("{a}{b}{c}");
                assert_eq!(parse_turn_host_port(&url), host_port_by_std(&url), "url {url:?}");
                count += 1;
            }
        }
    }
    assert_eq!(count, pieces.len().pow(3));
}

#[test]
fn padding_does_not_change_parse() {
    let urls = ["turn:turn.example.com:3478", "stun:1.2.3.4:5444", "garbage", "turn::1", " x:1 "];
    let pads = ["", " ", "\t\n", "\u{3000}\u{2028}", "\u{85}"];
    for url in urls {
        for a in pads {
            for b in pads {
                let padded = format!("{a}{url}{b}");
                assert_eq!(parse_turn_host_port(&padded), parse_turn_host_port(url));
            }
        }
        assert_eq!(parse_turn_host_port(url.trim()), parse_turn_host_port(url));
    }
}
