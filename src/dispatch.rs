//! What the dispatcher decides for one request: binding the request to a
//! session through the session cookie, the answer for a handler that does
//! not exist, and the bytes that end a response that failed.

use vstd::prelude::*;
use vstd::string::*;
use crate::framing::{append_bytes, append_chunk, append_last_chunk, chunk, last_chunk};
use crate::request::{request_cookie, RequestView, RustletRequest};
use crate::response::{cookie_text, set_cookie_name, ResponseState, RustletResponse};
use crate::text::{
    all_digits, digits_value, is_digit, parse_u128, parsed_u128, unsigned_digits,
};
use vstd::utf8::encode_utf8;

verus! {

/// Relies on rand::random: a value drawn from the thread's generator.
/// Nothing is promised of it.
pub assume_specification<T>[ rand::random::<T> ]() -> (r: T)
    where
        rand::distributions::Standard: rand::distributions::Distribution<T>,
;

pub const SESSION_COOKIE: &'static str = "rustletsessionid";

/// The name of the session cookie.
pub open spec fn session_cookie() -> Seq<char> {
    "rustletsessionid"@
}

/// The decimal digit character for a value below ten.
pub open spec fn digit_char(d: nat) -> char {
    ((d + 48) as u8) as char
}

/// The decimal text of `n`, without sign or leading zeros.
pub open spec fn decimal_text(n: nat) -> Seq<char>
    decreases n,
{
    if n < 10 {
        seq![digit_char(n)]
    } else {
        decimal_text(n / 10).push(digit_char(n % 10))
    }
}

proof fn lemma_decimal_digits(n: nat)
    ensures
        decimal_text(n).len() > 0,
        all_digits(decimal_text(n)),
        digits_value(decimal_text(n)) == n,
    decreases n,
{
    let d = digit_char(n % 10);
    assert((d as nat) == n % 10 + 48);
    if n >= 10 {
        lemma_decimal_digits(n / 10);
        let t = decimal_text(n / 10);
        assert(decimal_text(n).drop_last() =~= t);
        assert forall|i: int| 0 <= i < decimal_text(n).len() implies #[trigger] is_digit(
            decimal_text(n)[i],
        ) by {
            if i < t.len() {
                assert(decimal_text(n)[i] == t[i]);
            }
        }
        assert(decimal_text(n).last() == d);
        assert(digits_value(decimal_text(n)) == digits_value(t) * 10 + n % 10);
        assert((n / 10) * 10 + n % 10 == n);
    } else {
        assert(decimal_text(n).drop_last() =~= Seq::<char>::empty());
        assert(digits_value(Seq::<char>::empty()) == 0);
        assert(decimal_text(n).last() == d);
    }
}

/// The id that a `Set-Cookie` header hands out is the id that the cookie
/// names when the client sends it back.
pub proof fn lemma_session_cookie_round_trip(id: u128)
    ensures
        parsed_u128(decimal_text(id as nat)) == Some(id),
{
    lemma_decimal_digits(id as nat);
    let t = decimal_text(id as nat);
    assert(is_digit(t[0]));
    assert(unsigned_digits(t) == t);
}

fn digit_text(d: u128) -> (r: &'static str)
    requires
        d < 10,
    ensures
        r@ == seq![digit_char(d as nat)],
{
    proof {
        reveal_strlit("0");
        reveal_strlit("1");
        reveal_strlit("2");
        reveal_strlit("3");
        reveal_strlit("4");
        reveal_strlit("5");
        reveal_strlit("6");
        reveal_strlit("7");
        reveal_strlit("8");
        reveal_strlit("9");
    }
    let r = if d == 0 {
        "0"
    } else if d == 1 {
        "1"
    } else if d == 2 {
        "2"
    } else if d == 3 {
        "3"
    } else if d == 4 {
        "4"
    } else if d == 5 {
        "5"
    } else if d == 6 {
        "6"
    } else if d == 7 {
        "7"
    } else if d == 8 {
        "8"
    } else {
        "9"
    };
    assert(r@ =~= seq![digit_char(d as nat)]);
    r
}

fn append_decimal(out: &mut String, n: u128)
    ensures
        final(out)@ == old(out)@ + decimal_text(n as nat),
    decreases n,
{
    if n >= 10 {
        append_decimal(out, n / 10);
    }
    out.append(digit_text(n % 10));
    proof {
        if n < 10 {
            assert(old(out)@ + decimal_text(n as nat) =~= old(out)@ + seq![digit_char(n as nat)]);
        } else {
            assert(old(out)@ + decimal_text(n as nat) =~= (old(out)@ + decimal_text(
                (n / 10) as nat,
            )) + seq![digit_char((n % 10) as nat)]);
        }
    }
}

/// The decimal text of `n`, as the `Display` of `u128` writes it.
pub fn decimal(n: u128) -> (r: String)
    ensures
        r@ == decimal_text(n as nat),
{
    let mut out = String::new();
    append_decimal(&mut out, n);
    assert(out@ =~= Seq::<char>::empty() + decimal_text(n as nat));
    out
}

/// The session id that the request's `rustletsessionid` cookie names, when
/// it parses as a `u128`.
pub open spec fn cookie_session(h: Seq<(Seq<u8>, Seq<u8>)>) -> Option<u128> {
    match request_cookie(h, session_cookie()) {
        Some(x) => parsed_u128(x),
        None => None,
    }
}

/// The `Set-Cookie` value that hands a new session id to the client.
pub open spec fn session_cookie_text(id: u128) -> Seq<char> {
    cookie_text(session_cookie(), decimal_text(id as nat), "path=/"@)
}

/// Binds `request` to the session its cookie names; without a valid
/// cookie, to `fresh_id`, which `response` then hands to the client in a
/// `Set-Cookie` header.
pub fn bind_session_with(
    request: &mut RustletRequest,
    response: &mut RustletResponse,
    fresh_id: u128,
)
    requires
        old(request).wf(),
        old(response).wf(),
        !old(response)@.headers_written,
    ensures
        final(request).wf(),
        final(response).wf(),
        final(request)@ == (RequestView {
            session_id: match cookie_session(old(request)@.headers) {
                Some(id) => id,
                None => fresh_id,
            },
            ..old(request)@
        }),
        cookie_session(old(request)@.headers) is Some ==> final(response)@ == old(response)@,
        cookie_session(old(request)@.headers) is None ==> final(response)@
            == old(response)@.with_header(set_cookie_name(), session_cookie_text(fresh_id)),
{
    let cookie = request.get_cookie(SESSION_COOKIE);
    let parsed = match &cookie {
        Some(text) => parse_u128(text.as_str()),
        None => None,
    };
    match parsed {
        Some(id) => {
            request.set_session_id(id);
        },
        None => {
            let text = decimal(fresh_id);
            let _ = response.set_cookie(SESSION_COOKIE, text.as_str(), "path=/");
            request.set_session_id(fresh_id);
        },
    }
}

/// Binds `request` to the session its cookie names, or to a new random
/// session id that `response` hands to the client.
pub fn bind_session(request: &mut RustletRequest, response: &mut RustletResponse) -> (r: u128)
    requires
        old(request).wf(),
        old(response).wf(),
        !old(response)@.headers_written,
    ensures
        final(request).wf(),
        final(response).wf(),
        final(request)@ == (RequestView { session_id: r, ..old(request)@ }),
        cookie_session(old(request)@.headers) matches Some(id) ==> r == id && final(response)@
            == old(response)@,
        cookie_session(old(request)@.headers) is None ==> final(response)@
            == old(response)@.with_header(set_cookie_name(), session_cookie_text(r)),
{
    let fresh: u128 = rand::random();
    bind_session_with(request, response, fresh);
    request.get_session_id()
}

/// The body sent for a route whose handler does not exist.
pub open spec fn missing_text(name: Seq<char>) -> Seq<char> {
    "Handler '"@ + name + "' does not exist."@
}

/// The text of the body sent for a route whose handler does not exist.
pub fn missing_handler_text(name: &str) -> (r: String)
    ensures
        r@ == missing_text(name@),
{
    let mut t = String::from_str("Handler '");
    t.append(name);
    t.append("' does not exist.");
    t
}

/// The response for a route whose handler `name` does not exist: the
/// message as its whole body, completed in the framing the request asks
/// for.
pub fn missing_handler_response(
    name: &str,
    keep_alive: bool,
    chained: bool,
    header_block: &[u8],
) -> (r: RustletResponse)
    ensures
        r.wf(),
        r@ == ResponseState::initial(keep_alive, chained).with_written(
            encode_utf8(missing_text(name@)),
        ).completed(header_block@),
{
    let mut response = RustletResponse::new(keep_alive, chained);
    let text = missing_handler_text(name);
    response.write(text.as_str().as_bytes());
    response.complete(header_block);
    response
}

pub const SEPARATOR_LINE: &'static str = "------------------------------------------------------------------------------------------------------------------------------------";

pub const ERROR_TEXT: &'static str = "Internal Server error. See logs for details.";

/// The trailer appended to a response that failed after its header block
/// went out: a separator line and the error message.
pub open spec fn error_trailer() -> Seq<u8> {
    "\n</br>".spec_bytes() + SEPARATOR_LINE.spec_bytes() + "\n</br>".spec_bytes()
        + ERROR_TEXT.spec_bytes() + "</body></html>".spec_bytes()
}

/// The plain error body of a request that failed before any header block
/// went out, or that no route serves.
pub open spec fn error_body() -> Seq<u8> {
    ERROR_TEXT.spec_bytes()
}

/// The bytes that end a failed request, after which the connection is
/// closed: inside an answer whose header block went out, the trailer (as a
/// chunk and the terminal chunk in keep-alive mode); otherwise a fresh
/// close-delimited answer (`header_block` serialized without keep-alive)
/// carrying the plain error body.
pub fn error_output(headers_written: bool, keep_alive: bool, header_block: &[u8]) -> (r: Vec<u8>)
    ensures
        r@ == if headers_written {
            if keep_alive {
                chunk(error_trailer()) + last_chunk()
            } else {
                error_trailer()
            }
        } else {
            header_block@ + error_body()
        },
{
    let mut out: Vec<u8> = Vec::new();
    if headers_written {
        let mut trailer: Vec<u8> = Vec::new();
        append_bytes(&mut trailer, "\n</br>".as_bytes());
        append_bytes(&mut trailer, SEPARATOR_LINE.as_bytes());
        append_bytes(&mut trailer, "\n</br>".as_bytes());
        append_bytes(&mut trailer, ERROR_TEXT.as_bytes());
        append_bytes(&mut trailer, "</body></html>".as_bytes());
        assert(trailer@ =~= error_trailer());
        if keep_alive {
            append_chunk(&mut out, trailer.as_slice());
            append_last_chunk(&mut out);
            assert(out@ =~= chunk(error_trailer()) + last_chunk());
        } else {
            out = trailer;
        }
    } else {
        append_bytes(&mut out, header_block);
        append_bytes(&mut out, ERROR_TEXT.as_bytes());
        assert(out@ =~= header_block@ + error_body());
    }
    out
}

/// The request and response of an invocation that a handler finishes
/// later, from another task.
pub struct RustletAsyncContext {
    pub request: Option<RustletRequest>,
    pub response: Option<RustletResponse>,
}

impl RustletAsyncContext {
    /// Ends the held response as `RustletResponse::async_complete` does;
    /// without a response there is nothing to do.
    pub fn complete(&mut self, header_block: &[u8])
        requires
            old(self).response matches Some(r) ==> r.wf(),
        ensures
            final(self).request == old(self).request,
            match old(self).response {
                Some(r) => final(self).response matches Some(f) && f.wf() && f@ == r@.with_async(
                    false,
                ).completed(header_block@),
                None => final(self).response is None,
            },
    {
        match &mut self.response {
            Some(response) => {
                response.async_complete(header_block);
            },
            None => {},
        }
    }
}

/// The request and response for one handler invocation, with the request
/// bound to the session that its cookie names, or to a new one that the
/// response hands to the client.
pub fn begin_exchange(
    uri: String,
    query: String,
    content: Vec<u8>,
    method: crate::request::HttpMethod,
    version: crate::request::HttpVersion,
    headers: Vec<(Vec<u8>, Vec<u8>)>,
    keep_alive: bool,
    chained: bool,
) -> (r: (RustletRequest, RustletResponse))
    ensures
        r.0.wf(),
        r.1.wf(),
        r.0@.uri == uri@,
        r.0@.query == query@,
        r.0@.content == content@,
        r.0@.method == method,
        r.0@.version == version,
        r.0@.headers == headers@.map_values(|p: (Vec<u8>, Vec<u8>)| crate::request::pair_view(p)),
        r.0@.keep_alive == keep_alive,
        cookie_session(r.0@.headers) matches Some(id) ==> r.0@.session_id == id && r.1@
            == ResponseState::initial(keep_alive, chained),
        cookie_session(r.0@.headers) is None ==> r.1@ == ResponseState::initial(
            keep_alive,
            chained,
        ).with_header(set_cookie_name(), session_cookie_text(r.0@.session_id)),
{
    let mut request = RustletRequest::new(
        uri,
        query,
        content,
        method,
        version,
        headers,
        keep_alive,
    );
    let mut response = RustletResponse::new(keep_alive, chained);
    bind_session(&mut request, &mut response);
    (request, response)
}

/// Ends a handler invocation: completes the response when the handler
/// succeeded; after a failure, sends what was written so far (the failure
/// itself is then answered with `error_output`).
pub fn finish_exchange(response: &mut RustletResponse, succeeded: bool, header_block: &[u8])
    requires
        old(response).wf(),
    ensures
        final(response).wf(),
        succeeded ==> final(response)@ == old(response)@.completed(header_block@),
        !succeeded ==> final(response)@ == old(response)@.flushed(header_block@),
{
    if succeeded {
        response.complete(header_block);
    } else {
        response.flush(header_block);
    }
}

} // verus!
