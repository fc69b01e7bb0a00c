use rustlet::error::ErrorKind;
use rustlet::response::RustletResponse;
use rustlet::template::{check_template_size, parse_template, Piece, TemplateRun, MAX_TEMPLATE_SIZE};

const HEADERS: &[u8] = b"HTTP/1.1 200 OK\r\n\r\n";

fn run(page: &[u8], keep_alive: bool, outputs: &[(&str, &[u8])]) -> (Vec<u8>, bool) {
    let pieces = parse_template(page).unwrap();
    let mut run = TemplateRun::new(pieces, keep_alive, HEADERS);
    while let Some(name) = run.next_call() {
        let mut sub = RustletResponse::new(keep_alive, true);
        for (n, out) in outputs {
            if *n == name.as_str() {
                sub.write(out);
            }
        }
        sub.complete(HEADERS);
        run.splice(&mut sub);
    }
    assert!(run.is_done());
    (run.take_output(), run.is_closed())
}

fn unchunk(mut body: &[u8]) -> Vec<u8> {
    let mut out = vec![];
    loop {
        let pos = body.windows(2).position(|w| w == b"\r\n").unwrap();
        let len = usize::from_str_radix(std::str::from_utf8(&body[..pos]).unwrap(), 16).unwrap();
        body = &body[pos + 2..];
        if len == 0 {
            assert_eq!(body, b"\r\n");
            return out;
        }
        out.extend_from_slice(&body[..len]);
        assert_eq!(&body[len..len + 2], b"\r\n");
        body = &body[len + 2..];
    }
}

#[test]
fn parse_pieces() {
    let p = parse_template(b"A<@=x>B<@=y>C").unwrap();
    assert_eq!(p.len(), 5);
    assert!(matches!(&p[0], Piece::Text(t) if t == b"A"));
    assert!(matches!(&p[1], Piece::Call(n) if n == "x"));
    assert!(matches!(&p[2], Piece::Text(t) if t == b"B"));
    assert!(matches!(&p[3], Piece::Call(n) if n == "y"));
    assert!(matches!(&p[4], Piece::Text(t) if t == b"C"));
}

#[test]
fn parse_without_escapes() {
    let p = parse_template(b"plain <@ text >").unwrap();
    assert_eq!(p.len(), 1);
    assert!(matches!(&p[0], Piece::Text(t) if t == b"plain <@ text >"));
    let e = parse_template(b"").unwrap();
    assert!(matches!(&e[0], Piece::Text(t) if t.is_empty()));
}

#[test]
fn parse_errors() {
    assert_eq!(parse_template(b"A<@=x").unwrap_err().kind(), ErrorKind::InvalidRSPError);
    assert_eq!(parse_template(b"<@=").unwrap_err().kind(), ErrorKind::InvalidRSPError);
    assert_eq!(parse_template(b"A<@=\xff>").unwrap_err().kind(), ErrorKind::Utf8Error);
}

#[test]
fn escape_closing_on_last_byte() {
    let p = parse_template(b"<@=x>").unwrap();
    assert_eq!(p.len(), 3);
    assert!(matches!(&p[1], Piece::Call(n) if n == "x"));
}

#[test]
fn template_composition_keep_alive() {
    let (wire, closed) = run(b"A<@=x>B<@=y>C", true, &[("x", b"1"), ("y", b"2")]);
    let mut want = HEADERS.to_vec();
    want.extend_from_slice(b"1\r\nA\r\n1\r\n1\r\n1\r\nB\r\n1\r\n2\r\n1\r\nC\r\n0\r\n\r\n");
    assert_eq!(wire, want);
    assert_eq!(unchunk(&wire[HEADERS.len()..]), b"A1B2C".to_vec());
    assert!(!closed);
}

#[test]
fn template_composition_close() {
    let (wire, closed) = run(b"A<@=x>B<@=y>C", false, &[("x", b"11"), ("y", b"")]);
    let mut want = HEADERS.to_vec();
    want.extend_from_slice(b"A11BC");
    assert_eq!(wire, want);
    assert!(closed);
}

#[test]
fn empty_static_segments_send_no_chunk() {
    let (wire, _) = run(b"<@=x><@=x>", true, &[("x", b"hi")]);
    let mut want = HEADERS.to_vec();
    want.extend_from_slice(b"2\r\nhi\r\n2\r\nhi\r\n0\r\n\r\n");
    assert_eq!(wire, want);
}

#[test]
fn template_size_limit() {
    assert!(check_template_size(MAX_TEMPLATE_SIZE).is_ok());
    assert_eq!(
        check_template_size(MAX_TEMPLATE_SIZE + 1).unwrap_err().kind(),
        ErrorKind::InvalidRSPError
    );
    assert_eq!(MAX_TEMPLATE_SIZE, 10 * 1024 * 1024);
}
