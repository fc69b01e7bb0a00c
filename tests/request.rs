use rustlet::request::{find_cookie, cookie_in_piece, HttpMethod, HttpVersion, RustletRequest};
use rustlet::session::SessionStore;
use rustlet::text::{parse_u128, split_text, text_ends_with, trim_text};

fn h(name: &str, value: &str) -> (Vec<u8>, Vec<u8>) {
    (name.as_bytes().to_vec(), value.as_bytes().to_vec())
}

fn request(query: &str, headers: Vec<(Vec<u8>, Vec<u8>)>) -> RustletRequest {
    RustletRequest::new(
        "/page".to_string(),
        query.to_string(),
        b"body".to_vec(),
        HttpMethod::Post,
        HttpVersion::V11,
        headers,
        true,
    )
}

#[test]
fn accessors_return_what_was_given() {
    let r = request("a=1", vec![h("Host", "x")]);
    assert_eq!(r.get_uri(), "/page");
    assert_eq!(r.get_query(), "a=1");
    assert_eq!(r.get_content(), &b"body".to_vec());
    assert_eq!(r.get_http_method(), HttpMethod::Post);
    assert_eq!(r.get_http_version(), HttpVersion::V11);
    assert!(r.is_keep_alive());
    assert_eq!(r.get_headers().len(), 1);
    assert_eq!(r.get_session_id(), 0);
}

#[test]
fn header_lookup_last_wins_and_skips_non_utf8() {
    let mut r = request(
        "",
        vec![
            h("Accept", "a"),
            (b"Bad".to_vec(), vec![0xff, 0xfe]),
            h("Accept", "b"),
            h("Host", "example"),
        ],
    );
    assert_eq!(r.get_header("Accept"), Some("b".to_string()));
    assert_eq!(r.get_header("Host"), Some("example".to_string()));
    assert_eq!(r.get_header("Bad"), None);
    assert_eq!(r.get_header("host"), None);
    assert_eq!(r.get_header_len(), 2);
    assert_eq!(r.get_header_i_name(1), "Bad");
    assert_eq!(r.get_header_i_value(1), "");
    assert_eq!(r.get_header_i_value(2), "b");
    assert_eq!(r.get_header_i_name(9), "");
}

#[test]
fn query_parameters() {
    let mut r = request("a=1&b=2&a=3&flag&c=x=y&=e", vec![]);
    assert_eq!(r.get_query_parameter("a"), Some("3".to_string()));
    assert_eq!(r.get_query_parameter("b"), Some("2".to_string()));
    assert_eq!(r.get_query_parameter("flag"), None);
    assert_eq!(r.get_query_parameter("c"), Some("x".to_string()));
    assert_eq!(r.get_query_parameter(""), Some("e".to_string()));
    assert_eq!(r.get_query_parameter("zzz"), None);
}

#[test]
fn cookies() {
    let mut r = request("", vec![h("Cookie", "a=1; rustletsessionid=77 ;b=x=y")]);
    assert_eq!(r.get_cookie("a"), Some("1".to_string()));
    assert_eq!(r.get_cookie("rustletsessionid"), Some("77".to_string()));
    assert_eq!(r.get_cookie("b"), Some("x".to_string()));
    assert_eq!(r.get_cookie("c"), None);
    let mut none = request("", vec![h("cookie", "a=1")]);
    assert_eq!(none.get_cookie("a"), None);
}

#[test]
fn cookie_helpers() {
    assert_eq!(cookie_in_piece("k=v", "k"), Some("v".to_string()));
    assert_eq!(cookie_in_piece("k", "k"), None);
    assert_eq!(cookie_in_piece("kk=v", "k"), None);
    assert_eq!(find_cookie(" x=1 ;  y=2", "y"), Some("2".to_string()));
    assert_eq!(find_cookie("x=1; x=2", "x"), Some("1".to_string()));
}

#[test]
fn session_forwarding() {
    let mut store = SessionStore::new();
    let mut r = request("", vec![]);
    r.set_session_id(11);
    assert_eq!(r.get_session(&mut store, "abc").unwrap(), None);
    r.set_session(&mut store, "abc", vec![4, 2]).unwrap();
    assert_eq!(r.get_session(&mut store, "abc").unwrap(), Some(vec![4, 2]));
    r.remove_session_entry(&mut store, "abc").unwrap();
    assert_eq!(r.get_session(&mut store, "abc").unwrap(), None);
    r.set_session(&mut store, "abc", vec![1]).unwrap();
    r.invalidate_session(&mut store);
    assert!(!store.contains(11));
}

#[test]
fn text_helpers() {
    assert_eq!(split_text("a;b;;c", ';'), vec!["a", "b", "", "c"]);
    assert_eq!(split_text("", ';'), vec![""]);
    assert_eq!(split_text(";", ';'), vec!["", ""]);
    assert_eq!(parse_u128("0"), Some(0));
    assert_eq!(parse_u128("+12"), Some(12));
    assert_eq!(parse_u128("340282366920938463463374607431768211455"), Some(u128::MAX));
    assert_eq!(parse_u128("340282366920938463463374607431768211456"), None);
    assert_eq!(parse_u128(""), None);
    assert_eq!(parse_u128("+"), None);
    assert_eq!(parse_u128("-1"), None);
    assert_eq!(parse_u128("12a"), None);
    assert!(text_ends_with("/p.RSP", ".RSP"));
    assert!(!text_ends_with("sp", ".rsp"));
}

#[test]
fn trimming() {
    assert_eq!(trim_text("  a b \t\r\n"), "a b");
    assert_eq!(trim_text("\u{3000}x\u{2009}"), "x");
    assert_eq!(trim_text(" \n "), "");
    assert_eq!(trim_text("x"), "x");
}
