use ws_relay::handshake::{accept_token, negotiate, HandshakeError};
use ws_relay::http::{parse, HttpParseError, HttpVerb};

#[test]
fn parse_empty_is_invalid() {
    assert!(matches!(parse(b""), Err(HttpParseError::InvalidInput)));
}

#[test]
fn parse_unsupported_verb() {
    assert!(matches!(
        parse(b"PUT /x HTTP/1.1\r\n\r\n"),
        Err(HttpParseError::UnsupportedVerb)
    ));
}

#[test]
fn parse_request_line_and_headers() {
    let req = b"GET /ws HTTP/1.1\r\nHost: example\r\nUpgrade: websocket\r\n\r\n";
    let h = parse(req).expect("request should parse");
    assert_eq!(h.verb, HttpVerb::Get);
    assert_eq!(h.path, b"/ws".to_vec());
    assert_eq!(h.get(b"Host").unwrap(), &b"example".to_vec());
    assert_eq!(h.get(b"Upgrade").unwrap(), &b"websocket".to_vec());
    assert!(h.get(b"Absent").is_none());
}

#[test]
fn parse_post_and_missing_path() {
    let h = parse(b"POST\r\n\r\n").expect("request should parse");
    assert_eq!(h.verb, HttpVerb::Post);
    assert_eq!(h.path, Vec::<u8>::new());
}

#[test]
fn parse_last_header_occurrence_wins() {
    let req = b"GET / HTTP/1.1\r\nX: one\r\nX: two\r\n\r\n";
    let h = parse(req).expect("request should parse");
    assert_eq!(h.get(b"X").unwrap(), &b"two".to_vec());
}

#[test]
fn parse_stops_at_blank_line_and_skips_odd_lines() {
    let req = b"GET / HTTP/1.1\r\nnocolonhere\r\nA: 1\r\n\r\nB: 2\r\n";
    let h = parse(req).expect("request should parse");
    assert_eq!(h.get(b"A").unwrap(), &b"1".to_vec());
    assert!(h.get(b"nocolonhere").is_none());
    assert!(h.get(b"B").is_none());
}

#[test]
fn accept_token_matches_reference_vector() {
    let token = accept_token(b"dGhlIHNhbXBsZSBub25jZQ==");
    assert_eq!(token, "s3pPLMBiTxaQ9kYGzzhZRbK+xOo=");
}

#[test]
fn negotiate_emits_101_response() {
    let req = b"GET /ws HTTP/1.1\r\nUpgrade: websocket\r\nSec-WebSocket-Version: 13\r\nSec-WebSocket-Key: dGhlIHNhbXBsZSBub25jZQ==\r\n\r\n";
    let h = parse(req).expect("request should parse");
    let n = negotiate(&h).expect("handshake should succeed");
    assert_eq!(n.identity, "s3pPLMBiTxaQ9kYGzzhZRbK+xOo=");
    let expected = "HTTP/1.1 101 Switching Protocols\r\nUpgrade: websocket\r\nConnection: Upgrade\r\nSec-WebSocket-Accept: s3pPLMBiTxaQ9kYGzzhZRbK+xOo=\r\n\r\n";
    assert_eq!(n.response, expected.as_bytes().to_vec());
}

#[test]
fn negotiate_rejects_bad_upgrade() {
    let h = parse(b"GET /ws HTTP/1.1\r\nSec-WebSocket-Version: 13\r\n\r\n").unwrap();
    assert!(matches!(negotiate(&h), Err(HandshakeError::BadUpgrade)));
    let h = parse(b"GET /ws HTTP/1.1\r\nUpgrade: h2c\r\nSec-WebSocket-Version: 13\r\n\r\n").unwrap();
    assert!(matches!(negotiate(&h), Err(HandshakeError::BadUpgrade)));
}

#[test]
fn negotiate_rejects_wrong_version() {
    let h = parse(b"GET /ws HTTP/1.1\r\nUpgrade: websocket\r\nSec-WebSocket-Version: 12\r\n\r\n")
        .unwrap();
    assert!(matches!(negotiate(&h), Err(HandshakeError::UnsupportedVersion)));
    let h = parse(b"GET /ws HTTP/1.1\r\nUpgrade: websocket\r\n\r\n").unwrap();
    assert!(matches!(negotiate(&h), Err(HandshakeError::UnsupportedVersion)));
}

#[test]
fn negotiate_rejects_missing_key() {
    let h = parse(b"GET /ws HTTP/1.1\r\nUpgrade: websocket\r\nSec-WebSocket-Version: 13\r\n\r\n")
        .unwrap();
    assert!(matches!(negotiate(&h), Err(HandshakeError::MissingKey)));
}
