use monoio_ws::handshake::{
    accept_key, check_response, contains_ignoring_case, encode_key, ends_header_block,
    generate_key, generate_mask, http_request, verify_response,
};
use monoio_ws::{ConnectError, Target};

fn target(host: &str, port: Option<u16>, path: &str) -> Target {
    Target { host: host.to_string(), port, path_and_query: path.to_string() }
}

#[test]
fn test_http_request() {
    let output = http_request(
        &target("localhost", Some(9001), "/runCase?case=1&agent=monoio-ws"),
        "dGhlIHNhbXBsZSBub25jZQ==",
    );
    assert_eq!(
        output,
        "GET /runCase?case=1&agent=monoio-ws HTTP/1.1\r\n\
        Host: localhost:9001\r\n\
        Upgrade: websocket\r\n\
        Connection: Upgrade\r\n\
        Sec-WebSocket-Key: dGhlIHNhbXBsZSBub25jZQ==\r\n\
        Sec-WebSocket-Version: 13\r\n\
        \r\n"
    )
}

#[test]
fn http_request_without_port() {
    let output = http_request(&target("example.com", None, "/chat"), "abc=");
    assert!(output.starts_with("GET /chat HTTP/1.1\r\nHost: example.com\r\nUpgrade"));
}

#[test]
fn http_request_port_digits() {
    let output = http_request(&target("h", Some(7), "/"), "k");
    assert!(output.contains("Host: h:7\r\n"));
    let output = http_request(&target("h", Some(65535), "/"), "k");
    assert!(output.contains("Host: h:65535\r\n"));
    let output = http_request(&target("h", Some(10), "/"), "k");
    assert!(output.contains("Host: h:10\r\n"));
}

#[test]
fn accept_key_of_rfc_sample() {
    assert_eq!(accept_key("dGhlIHNhbXBsZSBub25jZQ=="), "s3pPLMBiTxaQ9kYGzzhZRbK+xOo=");
}

#[test]
fn encode_key_is_base64() {
    let bytes: [u8; 16] = *b"the sample nonce";
    assert_eq!(encode_key(bytes), "dGhlIHNhbXBsZSBub25jZQ==");
}

#[test]
fn generated_keys_and_masks() {
    let key = generate_key();
    assert_eq!(key.len(), 24);
    assert!(key.ends_with("=="));
    let _mask: [u8; 4] = generate_mask();
}

const GOOD: &str = "HTTP/1.1 101 Switching Protocols\r\nUpgrade: websocket\r\nConnection: Upgrade\r\nSec-WebSocket-Accept: s3pPLMBiTxaQ9kYGzzhZRbK+xOo=\r\n\r\n";

#[test]
fn response_accepted() {
    assert!(check_response(GOOD, "dGhlIHNhbXBsZSBub25jZQ==").is_ok());
    let lower = GOOD.replace("Sec-WebSocket-Accept", "sec-websocket-accept");
    assert!(check_response(&lower, "dGhlIHNhbXBsZSBub25jZQ==").is_ok());
}

#[test]
fn response_with_other_status_refused() {
    let resp = "HTTP/1.1 400 Bad Request\r\n\r\n";
    match check_response(resp, "dGhlIHNhbXBsZSBub25jZQ==") {
        Err(ConnectError::InvalidHandshakeResponse(raw)) => assert_eq!(raw, resp),
        other => panic!("unexpected {other:?}"),
    }
    match verify_response("HTTP", "x") {
        Err(ConnectError::InvalidHandshakeResponse(raw)) => assert_eq!(raw, "HTTP"),
        other => panic!("unexpected {other:?}"),
    }
}

#[test]
fn response_with_wrong_accept_refused() {
    assert!(matches!(
        check_response(GOOD, "AAAAAAAAAAAAAAAAAAAAAA=="),
        Err(ConnectError::InvalidWebSocketAcceptHeader)
    ));
    assert!(matches!(
        verify_response("HTTP/1.1 101 OK\r\n\r\n", "abc"),
        Err(ConnectError::InvalidWebSocketAcceptHeader)
    ));
}

#[test]
fn case_blind_search() {
    assert!(contains_ignoring_case(b"Hello World", b"WORLD"));
    assert!(contains_ignoring_case(b"abc", b""));
    assert!(!contains_ignoring_case(b"ab", b"abc"));
    assert!(!contains_ignoring_case(b"Hello", b"help"));
}

#[test]
fn header_block_end() {
    assert!(ends_header_block(2));
    assert!(ends_header_block(0));
    assert!(!ends_header_block(3));
}
