use hanzo_core::machine::{native_available, Error, Manager};
use hanzo_core::sidecar::parse_response;

#[test]
fn parses_simple_response() {
    let raw = b"HTTP/1.1 200 OK\r\ncontent-type: application/json\r\ncontent-length: 9\r\n\r\n{\"ok\":1}\n";
    let body = parse_response(raw).unwrap();
    assert_eq!(body, b"{\"ok\":1}\n");
}

#[test]
fn parses_chunked_response() {
    let raw =
        b"HTTP/1.1 200 OK\r\ntransfer-encoding: chunked\r\n\r\n5\r\nhello\r\n5\r\nworld\r\n0\r\n\r\n";
    let body = parse_response(raw).unwrap();
    assert_eq!(body, b"helloworld");
}

#[test]
fn maps_404() {
    let raw = b"HTTP/1.1 404 Not Found\r\ncontent-length: 0\r\n\r\n";
    match parse_response(raw) {
        Err(Error::NotFound) => {}
        other => panic!("unexpected: {other:?}"),
    }
}

#[test]
fn maps_5xx() {
    let raw = b"HTTP/1.1 500 oops\r\ncontent-length: 4\r\n\r\nboom";
    match parse_response(raw) {
        Err(Error::Sidecar(s)) => assert!(s.contains("500"), "got: {s}"),
        other => panic!("unexpected: {other:?}"),
    }
}

#[test]
fn version_string_is_non_empty() {
    if !native_available() {
        println!("skip: libluxmachine not linked (build with LUXMACHINE_DIR set)");
        return;
    }
    let v = Manager::version();
    assert!(!v.is_empty(), "version() returned empty string");
    assert_ne!(v, "unknown", "version() returned 'unknown' (NULL ptr)");
}
