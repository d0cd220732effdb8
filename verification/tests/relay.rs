use atproxy::addr::{Ipv4Addr, SocketAddrV4};
use atproxy::exclude::ExcludeList;
use atproxy::relay::{
    connect_request, find_header_end, original_dst, parse_host_port, parse_status_code, route,
    Handshake, HandshakeError, HandshakeStep, Route, RESPONSE_LIMIT,
};

#[test]
fn test_parse_host_port() {
    assert_eq!(
        parse_host_port("192.168.1.1:8080"),
        Some(("192.168.1.1".into(), 8080))
    );
    assert_eq!(parse_host_port("bad"), None);
    assert_eq!(parse_host_port(":8080"), None);
    assert_eq!(parse_host_port("host:"), None);
    assert_eq!(parse_host_port("host:0"), None);
    assert_eq!(parse_host_port("host:999999"), None);
}

#[test]
fn test_parse_host_port_hostname() {
    assert_eq!(
        parse_host_port("proxy.example.com:8080"),
        Some(("proxy.example.com".into(), 8080))
    );
    assert_eq!(
        parse_host_port("localhost:3128"),
        Some(("localhost".into(), 3128))
    );
}

#[test]
fn test_parse_host_port_bracketed_ipv6() {
    assert_eq!(
        parse_host_port("[::1]:8080"),
        Some(("[::1]".into(), 8080))
    );
}

#[test]
fn test_find_header_end() {
    let hdr = b"HTTP/1.1 200 OK\r\n\r\n";
    assert_eq!(find_header_end(hdr), Some(hdr.len()));
    let with_body = b"HTTP/1.1 200 OK\r\n\r\ndata";
    assert_eq!(find_header_end(with_body), Some(19));
    assert_eq!(find_header_end(b"partial"), None);
}

#[test]
fn test_parse_status_code_ok_with_reason() {
    assert_eq!(parse_status_code("HTTP/1.1 200 OK\r\n"), Some(200));
    assert_eq!(
        parse_status_code("HTTP/1.0 200 Connection Established\r\n"),
        Some(200)
    );
}

#[test]
fn test_parse_status_code_ok_no_reason() {
    assert_eq!(parse_status_code("HTTP/1.1 200 \r\n"), Some(200));
    assert_eq!(parse_status_code("HTTP/1.1 200\r\n"), Some(200));
}

#[test]
fn test_parse_status_code_non_200() {
    assert_eq!(
        parse_status_code("HTTP/1.1 407 Proxy Authentication Required\r\n"),
        Some(407)
    );
    assert_eq!(
        parse_status_code("HTTP/1.1 502 Bad Gateway\r\n"),
        Some(502)
    );
    assert_eq!(parse_status_code("HTTP/1.1 503\r\n"), Some(503));
}

#[test]
fn test_parse_status_code_malformed() {
    assert_eq!(parse_status_code(""), None);
    assert_eq!(parse_status_code("garbage"), None);
    assert_eq!(parse_status_code("HTTP/1.1\r\n"), None);
    assert_eq!(parse_status_code("HTTP/1.1 abc\r\n"), None);
}

#[test]
fn test_parse_status_code_no_false_positive_on_substring() {
    let header = "HTTP/1.1 418 I'm a teapot\r\nX-Note: see RFC 200 too\r\n\r\n";
    assert_eq!(parse_status_code(header), Some(418));
}

#[test]
fn host_port_splits_at_the_last_colon() {
    assert_eq!(parse_host_port("::1:8080"), Some(("::1".into(), 8080)));
    assert_eq!(parse_host_port("host:65535"), Some(("host".into(), 65535)));
    assert_eq!(parse_host_port("host:65536"), None);
    assert_eq!(parse_host_port("host:+80"), Some(("host".into(), 80)));
    assert_eq!(parse_host_port("host:0080"), Some(("host".into(), 80)));
    assert_eq!(parse_host_port("host: 80"), None);
    assert_eq!(parse_host_port("host:-1"), None);
    assert_eq!(parse_host_port("h\u{f6}st:1"), Some(("h\u{f6}st".into(), 1)));
    assert_eq!(parse_host_port(""), None);
}

#[test]
fn status_code_is_the_second_word_of_the_first_line() {
    assert_eq!(parse_status_code("HTTP/1.1\t\t204 x"), Some(204));
    assert_eq!(parse_status_code("  HTTP/1.1 204"), Some(204));
    assert_eq!(parse_status_code("HTTP/1.1\r\n200"), None);
    assert_eq!(parse_status_code("HTTP/1.1 65535"), Some(65535));
    assert_eq!(parse_status_code("HTTP/1.1 65536"), None);
    assert_eq!(parse_status_code("HTTP/1.1\n200\r\n"), Some(200));
    assert_eq!(parse_status_code("HTTP/1.1 200\r\nX: 1\r\n\r\n"), parse_status_code("HTTP/1.1 200"));
}

#[test]
fn header_ends_at_the_first_blank_line() {
    assert_eq!(find_header_end(b"\r\n\r\n"), Some(4));
    assert_eq!(find_header_end(b"a\r\n\r\nb\r\n\r\n"), Some(5));
    assert_eq!(find_header_end(b"a\r\n\r"), None);
    assert_eq!(find_header_end(b"\n\r\n\r\n"), Some(5));
    assert_eq!(find_header_end(b""), None);
}

#[test]
fn handshake_is_established_by_status_200() {
    let mut h = Handshake::new();
    let step = h.on_read(b"HTTP/1.1 200 OK\r\n\r\nearly");
    assert_eq!(step, HandshakeStep::Established(b"early".to_vec()));
}

#[test]
fn handshake_does_not_depend_on_how_reads_are_cut() {
    let response = b"HTTP/1.1 200 Connection Established\r\nVia: x\r\n\r\ntail";
    let header = response.len() - 4;
    for cut in 1..header {
        let mut h = Handshake::new();
        assert_eq!(
            h.on_read(&response[..cut]),
            HandshakeStep::Read(RESPONSE_LIMIT - cut)
        );
        assert_eq!(
            h.on_read(&response[cut..]),
            HandshakeStep::Established(b"tail".to_vec())
        );
    }
    let mut h = Handshake::new();
    for i in 0..header - 1 {
        assert_eq!(
            h.on_read(&response[i..i + 1]),
            HandshakeStep::Read(RESPONSE_LIMIT - i - 1)
        );
    }
    assert_eq!(
        h.on_read(&response[header - 1..header]),
        HandshakeStep::Established(Vec::new())
    );
}

#[test]
fn handshake_reports_a_rejection_with_its_status() {
    let mut h = Handshake::new();
    let step = h.on_read(b"HTTP/1.1 407 Proxy Authentication Required\r\n\r\n");
    assert_eq!(step, HandshakeStep::Failed(HandshakeError::Rejected(407)));
    let mut h = Handshake::new();
    let step = h.on_read(b"hello\r\n\r\n");
    assert_eq!(step, HandshakeStep::Failed(HandshakeError::Rejected(0)));
    assert_eq!(HandshakeError::Rejected(407).message(), "proxy rejected CONNECT");
}

#[test]
fn handshake_reports_a_closed_connection() {
    let mut h = Handshake::new();
    assert_eq!(h.on_read(b"HTTP/1.1 200"), HandshakeStep::Read(RESPONSE_LIMIT - 12));
    assert_eq!(h.on_read(b""), HandshakeStep::Failed(HandshakeError::Eof));
    assert_eq!(HandshakeError::Eof.message(), "proxy EOF during CONNECT");
}

#[test]
fn handshake_reports_a_header_that_is_not_utf8() {
    let mut h = Handshake::new();
    let step = h.on_read(b"HTTP/1.1 200 \xff\r\n\r\n");
    assert_eq!(step, HandshakeStep::Failed(HandshakeError::NotUtf8));
    assert_eq!(HandshakeError::NotUtf8.message(), "non-UTF8 response");
    // Only the header has to be text.
    let mut h = Handshake::new();
    let step = h.on_read(b"HTTP/1.1 200 \xc3\xb6k\r\n\r\n\xff\xfe");
    assert_eq!(step, HandshakeStep::Established(b"\xff\xfe".to_vec()));
}

#[test]
fn handshake_reports_a_header_that_is_too_large() {
    let filler = vec![b'a'; RESPONSE_LIMIT - 1];
    let mut h = Handshake::new();
    assert_eq!(h.on_read(&filler), HandshakeStep::Read(1));
    assert_eq!(h.on_read(b"a"), HandshakeStep::Failed(HandshakeError::TooLarge));
    assert_eq!(HandshakeError::TooLarge.message(), "CONNECT response too large");
}

#[test]
fn handshake_accepts_a_header_that_just_fits() {
    let mut response = b"HTTP/1.1 200 ".to_vec();
    while response.len() < RESPONSE_LIMIT - 4 {
        response.push(b'a');
    }
    response.extend_from_slice(b"\r\n\r\n");
    let mut h = Handshake::new();
    assert_eq!(h.on_read(&response), HandshakeStep::Established(Vec::new()));
}

#[test]
fn connect_request_names_the_destination_twice() {
    let target = SocketAddrV4::new(Ipv4Addr::new(93, 184, 216, 34), 443);
    assert_eq!(
        connect_request(target),
        "CONNECT 93.184.216.34:443 HTTP/1.1\r\nHost: 93.184.216.34:443\r\n\r\n"
    );
}

#[test]
fn original_destination_is_in_network_order() {
    let dst = original_dst([10, 0, 0, 1], [0x1f, 0x90]);
    assert_eq!(dst.ip(), &Ipv4Addr::new(10, 0, 0, 1));
    assert_eq!(dst.port(), 8080);
}

#[test]
fn excluded_destinations_are_relayed_directly() {
    let excludes = ExcludeList::from_strs(&["10.0.0.0/8", "::/0"]).unwrap();
    let inside = SocketAddrV4::new(Ipv4Addr::new(10, 1, 2, 3), 80);
    let outside = SocketAddrV4::new(Ipv4Addr::new(11, 1, 2, 3), 80);
    assert_eq!(route(Some(inside), &excludes), Route::Direct(inside));
    assert_eq!(route(Some(outside), &excludes), Route::Tunnel(outside));
    assert_eq!(route(None, &excludes), Route::Unknown);
}

#[test]
fn first_line_of_the_response_is_kept_for_the_log() {
    let mut h = Handshake::new();
    h.on_read(b"HTTP/1.1 502 Bad");
    assert_eq!(h.response_line(), None);
    h.on_read(b" Gateway\r\nVia: x\r\n\r\nbody");
    assert_eq!(h.response_line(), Some("HTTP/1.1 502 Bad Gateway".to_string()));
    let mut h = Handshake::new();
    h.on_read(b"\r\n\r\n");
    assert_eq!(h.response_line(), Some(String::new()));
    let mut h = Handshake::new();
    h.on_read(b"HTTP/1.1 \xff\r\n\r\n");
    assert_eq!(h.response_line(), None);
}
