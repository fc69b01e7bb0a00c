use rustlet::error::ErrorKind;
use rustlet::framing::frame_chunk;
use rustlet::response::{RustletResponse, State};

const HEADERS: &[u8] = b"HTTP/1.1 200 OK\r\n\r\n";

fn with_headers(body: &[u8]) -> Vec<u8> {
    let mut v = HEADERS.to_vec();
    v.extend_from_slice(body);
    v
}

#[test]
fn hello_close_framing() {
    let mut r = RustletResponse::new(false, false);
    r.write(b"Hello");
    r.complete(HEADERS);
    assert_eq!(r.take_output(), with_headers(b"Hello"));
    assert!(r.is_closed());
    assert_eq!(r.get_callback_state(), Some(State::HeadersClose));
}

#[test]
fn hello_keep_alive_chunking() {
    let mut r = RustletResponse::new(true, false);
    r.write(b"Hello");
    r.complete(HEADERS);
    assert_eq!(r.take_output(), with_headers(b"5\r\nHello\r\n0\r\n\r\n"));
    assert!(!r.is_closed());
    assert_eq!(r.get_callback_state(), Some(State::HeadersChunked));
}

#[test]
fn chunk_length_is_upper_case_hex() {
    let data = vec![b'x'; 26];
    let framed = frame_chunk(&data);
    assert_eq!(&framed[..4], b"1A\r\n");
    assert_eq!(framed.len(), 4 + 26 + 2);
    assert_eq!(frame_chunk(&vec![b'y'; 256])[..5].to_vec(), b"100\r\n".to_vec());
}

#[test]
fn headers_written_once_over_several_flushes() {
    let mut r = RustletResponse::new(true, false);
    r.write(b"ab");
    r.flush(HEADERS);
    r.write(b"c");
    r.flush(b"SHOULD NOT APPEAR");
    r.flush(b"NOR THIS");
    r.complete(b"NOR THIS");
    assert_eq!(r.take_output(), with_headers(b"2\r\nab\r\n1\r\nc\r\n0\r\n\r\n"));
}

#[test]
fn empty_first_flush_sends_only_headers() {
    let mut r = RustletResponse::new(true, false);
    r.flush(HEADERS);
    assert_eq!(r.take_output(), HEADERS.to_vec());
    assert!(r.get_headers_written());
}

#[test]
fn mutators_fail_after_headers_written() {
    let mut r = RustletResponse::new(false, false);
    r.write(b"x");
    r.flush(HEADERS);
    assert_eq!(r.set_content_type("text/html").unwrap_err().kind(), ErrorKind::OrderingError);
    assert_eq!(r.add_header("X-A", "1").unwrap_err().kind(), ErrorKind::OrderingError);
    assert_eq!(r.set_redirect("/elsewhere").unwrap_err().kind(), ErrorKind::OrderingError);
    assert_eq!(r.set_cookie("a", "b", "path=/").unwrap_err().kind(), ErrorKind::OrderingError);
    assert!(r.get_additional_headers().is_empty());
    assert!(r.get_redirect().is_none());
    r.complete(HEADERS);
    assert_eq!(r.take_output(), with_headers(b"x"));
    assert!(r.is_closed());
}

#[test]
fn ordering_error_then_normal_completion() {
    let mut r = RustletResponse::new(true, false);
    r.write(b"1");
    r.flush(HEADERS);
    let e = r.set_content_type("text/plain");
    assert!(e.is_err());
    r.complete(HEADERS);
    assert_eq!(r.take_output(), with_headers(b"1\r\n1\r\n0\r\n\r\n"));
}

#[test]
fn mutators_record_headers_before_flush() {
    let mut r = RustletResponse::new(false, false);
    r.write(b"x");
    assert!(r.set_content_type("text/html").is_ok());
    assert!(r.add_header("X-A", "1").is_ok());
    assert!(r.set_cookie("k", "v", "path=/").is_ok());
    assert!(r.set_redirect("/there").is_ok());
    let h: Vec<(String, String)> = r.get_additional_headers().clone();
    assert_eq!(
        h,
        vec![
            ("Content-Type".to_string(), "text/html".to_string()),
            ("X-A".to_string(), "1".to_string()),
            ("Set-Cookie".to_string(), "k=v; path=/".to_string()),
        ]
    );
    assert_eq!(r.get_redirect().clone(), Some("/there".to_string()));
}

#[test]
fn chained_never_terminates_or_closes() {
    let mut r = RustletResponse::new(true, true);
    r.write(b"abc");
    r.complete(HEADERS);
    r.complete(HEADERS);
    assert_eq!(r.take_output(), b"3\r\nabc\r\n".to_vec());
    assert!(!r.is_closed());
    assert!(!r.is_complete());

    let mut c = RustletResponse::new(false, true);
    c.write(b"abc");
    c.complete(HEADERS);
    assert_eq!(c.take_output(), b"abc".to_vec());
    assert!(!c.is_closed());
}

#[test]
fn complete_twice_sends_one_terminal_chunk() {
    let mut r = RustletResponse::new(true, false);
    r.write(b"ok");
    r.complete(HEADERS);
    r.write(b"late");
    r.complete(HEADERS);
    r.flush(HEADERS);
    assert_eq!(r.take_output(), with_headers(b"2\r\nok\r\n0\r\n\r\n"));

    let mut c = RustletResponse::new(false, false);
    c.complete(HEADERS);
    assert!(c.is_closed());
    c.complete(HEADERS);
    assert_eq!(c.take_output(), HEADERS.to_vec());
}

#[test]
fn async_response_waits_for_async_complete() {
    let mut r = RustletResponse::new(true, false);
    r.write(b"first\n");
    r.flush(HEADERS);
    assert_eq!(r.take_output(), with_headers(b"6\r\nfirst\n\r\n"));
    r.set_is_async(true);
    assert!(r.is_async());
    r.complete(HEADERS);
    assert!(r.take_output().is_empty());
    assert!(!r.is_complete());
    r.write(b"second\n");
    r.async_complete(HEADERS);
    assert_eq!(r.take_output(), b"7\r\nsecond\n\r\n0\r\n\r\n".to_vec());
    assert!(r.is_complete());
}
