use rustlet::container::{is_template_path, Route, RustletConfig, RustletContainer};
use rustlet::dispatch::{
    decimal, begin_exchange, bind_session_with, error_output, finish_exchange, missing_handler_response,
    missing_handler_text, RustletAsyncContext, SEPARATOR_LINE,
};
use rustlet::error::ErrorKind;
use rustlet::request::{HttpMethod, HttpVersion, RustletRequest};
use rustlet::response::RustletResponse;

const HEADERS: &[u8] = b"HTTP/1.1 200 OK\r\n\r\n";

type Handler = fn(&mut RustletResponse);

fn hello(r: &mut RustletResponse) {
    r.write(b"Hello");
}

fn other(r: &mut RustletResponse) {
    r.write(b"Other");
}

fn container() -> RustletContainer<Handler> {
    let mut c: RustletContainer<Handler> = RustletContainer::new();
    c.set_config(RustletConfig::default()).unwrap();
    c.add_rustlet("hello", hello).unwrap();
    c.add_rustlet_mapping("/", "hello").unwrap();
    c
}

fn get(path: &str, headers: Vec<(Vec<u8>, Vec<u8>)>, keep_alive: bool) -> (RustletRequest, RustletResponse) {
    begin_exchange(
        path.to_string(),
        String::new(),
        vec![],
        HttpMethod::Get,
        HttpVersion::V11,
        headers,
        keep_alive,
        false,
    )
}

fn serve(c: &RustletContainer<Handler>, path: &str, keep_alive: bool) -> (Vec<u8>, bool) {
    match c.route(path) {
        Route::Rustlet(name) => {
            let h = c.get_rustlet(&name).unwrap();
            let (_req, mut resp) = get(path, vec![(b"Cookie".to_vec(), b"rustletsessionid=1".to_vec())], keep_alive);
            h(&mut resp);
            finish_exchange(&mut resp, true, HEADERS);
            (resp.take_output(), resp.is_closed())
        }
        _ => panic!("no route"),
    }
}

#[test]
fn default_session_timeout() {
    assert_eq!(RustletConfig::default().session_timeout, 1800);
}

#[test]
fn hello_with_connection_close() {
    let c = container();
    let (wire, closed) = serve(&c, "/", false);
    let mut want = HEADERS.to_vec();
    want.extend_from_slice(b"Hello");
    assert_eq!(wire, want);
    assert!(closed);
}

#[test]
fn hello_with_keep_alive() {
    let c = container();
    let (wire, closed) = serve(&c, "/", true);
    let mut want = HEADERS.to_vec();
    want.extend_from_slice(b"5\r\nHello\r\n0\r\n\r\n");
    assert_eq!(wire, want);
    assert!(!closed);
}

#[test]
fn routing() {
    let mut c = container();
    assert!(matches!(c.route("/"), Route::Rustlet(n) if n == "hello"));
    assert!(matches!(c.route("/x/page.RsP"), Route::Template));
    assert!(matches!(c.route("/missing"), Route::NoMapping));
    c.add_rustlet_mapping("/a.rsp", "hello").unwrap();
    assert!(matches!(c.route("/a.rsp"), Route::Rustlet(_)));
    assert!(is_template_path("/p.rsp"));
    assert!(!is_template_path("/p.rs"));
}

#[test]
fn replacing_a_handler() {
    let mut c = container();
    assert!(c.get_rustlet("nope").is_none());
    c.add_rustlet("hello", other).unwrap();
    let (wire, _) = serve(&c, "/", false);
    assert!(wire.ends_with(b"Other"));
}

#[test]
fn mapping_needs_configuration_and_start_once() {
    let mut c: RustletContainer<Handler> = RustletContainer::new();
    c.add_rustlet_mapping("/", "hello").unwrap();
    assert!(matches!(c.route("/"), Route::NoMapping));
    assert_eq!(c.start().unwrap_err().kind(), ErrorKind::ConfigurationError);
    assert_eq!(c.start().unwrap_err().kind(), ErrorKind::ConfigurationError);
    c.set_config(RustletConfig { session_timeout: 1 }).unwrap();
    c.start().unwrap();
    assert_eq!(c.start().unwrap_err().kind(), ErrorKind::ConfigurationError);
}

#[test]
fn new_session_gets_cookie() {
    let (req, resp) = get("/set", vec![], false);
    let id = req.get_session_id();
    let headers = resp.get_additional_headers().clone();
    assert_eq!(
        headers,
        vec![("Set-Cookie".to_string(), format!("rustletsessionid={}; path=/", id))]
    );
}

#[test]
fn fresh_id_is_used_without_cookie() {
    let mut req = RustletRequest::new(
        "/".to_string(),
        String::new(),
        vec![],
        HttpMethod::Get,
        HttpVersion::V10,
        vec![(b"Cookie".to_vec(), b"rustletsessionid=abc".to_vec())],
        false,
    );
    let mut resp = RustletResponse::new(false, false);
    bind_session_with(&mut req, &mut resp, 123);
    assert_eq!(req.get_session_id(), 123);
    assert_eq!(
        resp.get_additional_headers().clone(),
        vec![("Set-Cookie".to_string(), "rustletsessionid=123; path=/".to_string())]
    );
}

#[test]
fn session_set_then_get_through_cookie() {
    let mut c = container();
    let (req, resp) = get("/set", vec![], true);
    let id = req.get_session_id();
    assert_eq!(resp.get_additional_headers().len(), 1);
    req.set_session(c.sessions(), "abc", 42u32.to_be_bytes().to_vec()).unwrap();
    let cookie = format!("rustletsessionid={}", id);
    let (req2, resp2) = get("/get", vec![(b"Cookie".to_vec(), cookie.into_bytes())], true);
    assert_eq!(req2.get_session_id(), id);
    assert!(resp2.get_additional_headers().is_empty());
    let v = req2.get_session(c.sessions(), "abc").unwrap().unwrap();
    assert_eq!(u32::from_be_bytes([v[0], v[1], v[2], v[3]]), 42);
}

#[test]
fn session_expiry_by_housekeeper() {
    let mut c: RustletContainer<Handler> = RustletContainer::new();
    c.set_config(RustletConfig { session_timeout: 1 }).unwrap();
    c.sessions().set_at(5, "abc", vec![1], 1000);
    c.housekeeper_at(2500);
    assert!(!c.sessions().contains(5));
    assert_eq!(c.sessions().get_at(5, "abc", 2600), None);
}

#[test]
fn missing_handler_message() {
    assert_eq!(missing_handler_text("zz"), "Handler 'zz' does not exist.");
    let mut r = missing_handler_response("zz", true, false, HEADERS);
    let mut want = HEADERS.to_vec();
    want.extend_from_slice(b"1C\r\nHandler 'zz' does not exist.\r\n0\r\n\r\n");
    assert_eq!(r.take_output(), want);
    let mut c = missing_handler_response("zz", false, false, HEADERS);
    assert!(c.is_closed());
    assert!(c.take_output().ends_with(b"does not exist."));
}

#[test]
fn error_after_headers_appends_trailer() {
    let trailer = format!(
        "\n</br>{}\n</br>Internal Server error. See logs for details.</body></html>",
        SEPARATOR_LINE
    );
    assert_eq!(error_output(true, false, HEADERS), trailer.as_bytes().to_vec());
    let mut chunked = format!("{:X}\r\n", trailer.len()).into_bytes();
    chunked.extend_from_slice(trailer.as_bytes());
    chunked.extend_from_slice(b"\r\n0\r\n\r\n");
    assert_eq!(error_output(true, true, HEADERS), chunked);
    let mut fresh = HEADERS.to_vec();
    fresh.extend_from_slice(b"Internal Server error. See logs for details.");
    assert_eq!(error_output(false, true, HEADERS), fresh);
    assert_eq!(SEPARATOR_LINE.len(), 132);
}

#[test]
fn failed_handler_flushes_then_trailer() {
    let (_req, mut resp) = get("/", vec![(b"Cookie".to_vec(), b"rustletsessionid=3".to_vec())], false);
    resp.write(b"oops");
    finish_exchange(&mut resp, false, HEADERS);
    let mut wire = resp.take_output();
    wire.extend(error_output(resp.get_headers_written(), resp.is_keep_alive(), HEADERS));
    let mut want = HEADERS.to_vec();
    want.extend_from_slice(b"oops\n</br>");
    assert!(wire.starts_with(&want));
    assert!(wire.ends_with(b"</body></html>"));
}

#[test]
fn async_context_completes_response() {
    let (req, mut resp) = get("/", vec![(b"Cookie".to_vec(), b"rustletsessionid=3".to_vec())], true);
    resp.write(b"first\n");
    resp.flush(HEADERS);
    resp.set_is_async(true);
    finish_exchange(&mut resp, true, HEADERS);
    let mut ctx = RustletAsyncContext { request: Some(req), response: Some(resp) };
    let r = ctx.response.as_mut().unwrap();
    r.write(b"second\n");
    ctx.complete(HEADERS);
    let out = ctx.response.as_mut().unwrap().take_output();
    let mut want = HEADERS.to_vec();
    want.extend_from_slice(b"6\r\nfirst\n\r\n7\r\nsecond\n\r\n0\r\n\r\n");
    assert_eq!(out, want);
    let mut empty = RustletAsyncContext { request: None, response: None };
    empty.complete(HEADERS);
    assert!(empty.response.is_none());
}

#[test]
fn housekeeper_keeps_recent_sessions() {
    let mut c: RustletContainer<Handler> = RustletContainer::new();
    c.set_config(RustletConfig { session_timeout: 1800 }).unwrap();
    c.sessions().set_at(5, "abc", vec![1], u128::MAX / 2);
    c.housekeeper().unwrap();
    assert!(c.sessions().contains(5));
}

#[test]
fn decimal_text_of_ids() {
    assert_eq!(decimal(0), "0");
    assert_eq!(decimal(907), "907");
    assert_eq!(decimal(u128::MAX), u128::MAX.to_string());
}
