use globalrts::handshake::{accept_key, handshake, handshake_response, websocket_key};

#[test]
fn accept_value_of_rfc_sample_key() {
    assert_eq!(accept_key("dGhlIHNhbXBsZSBub25jZQ=="), "s3pPLMBiTxaQ9kYGzzhZRbK+xOo=");
}

#[test]
fn key_header_is_found_in_any_case_and_trimmed() {
    let req = "GET / HTTP/1.1\r\nHost: x\r\nsec-WEBSOCKET-key:   abc==  \r\nUpgrade: websocket\r\n\r\n";
    assert_eq!(websocket_key(req), Some("abc==".to_string()));
}

#[test]
fn missing_key_fails_the_handshake() {
    assert_eq!(
        handshake("GET / HTTP/1.1\r\nUpgrade: websocket\r\n\r\n"),
        Err("Missing Sec-WebSocket-Key".to_string())
    );
    assert_eq!(websocket_key("GET / HTTP/1.1\r\n\r\n"), None);
}

#[test]
fn handshake_reply_carries_accept_value() {
    let req = "GET / HTTP/1.1\r\nUpgrade: websocket\r\nSec-WebSocket-Key: dGhlIHNhbXBsZSBub25jZQ==\r\n\r\n";
    let r = handshake(req).unwrap();
    assert_eq!(
        r,
        "HTTP/1.1 101 Switching Protocols\r\nUpgrade: websocket\r\nConnection: Upgrade\r\nSec-WebSocket-Accept: s3pPLMBiTxaQ9kYGzzhZRbK+xOo=\r\n\r\n"
    );
    assert_eq!(handshake_response("A"), "HTTP/1.1 101 Switching Protocols\r\nUpgrade: websocket\r\nConnection: Upgrade\r\nSec-WebSocket-Accept: A\r\n\r\n");
}

#[test]
fn header_value_is_trimmed_of_unicode_white_space() {
    let req = "GET / HTTP/1.1\r\nSec-WebSocket-Key:\u{a0}\u{3000}abc==\u{2003}\r\n\r\n";
    assert_eq!(websocket_key(req), Some("abc==".to_string()));
}
