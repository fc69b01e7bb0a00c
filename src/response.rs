//! The response of one handler invocation: a body buffer, the extra header
//! lines, an optional redirect, the headers-written latch, and the framing
//! (chunked or close-delimited) that turns flushes into bytes for the wire.
//!
//! The header block itself is serialized by the HTTP layer and handed to
//! `flush` and `complete`; the bytes that the response produces are taken
//! with `take_output` and written to the connection by the caller.

use vstd::prelude::*;
use vstd::string::*;
use crate::error::{Error, ErrorKind};
use crate::framing::{
    all_non_empty, append_bytes, append_chunk, append_last_chunk, chunk, chunks, joined,
    last_chunk,
};

verus! {

/// What the connection is told once a response has written its header block.
#[derive(Clone, Copy, Debug, PartialEq, Eq, Structural)]
pub enum State {
    /// The body follows in chunked transfer coding.
    HeadersChunked,
    /// The body follows and ends when the connection closes.
    HeadersClose,
}

/// The abstract state of a response.
pub struct ResponseState {
    pub additional_headers: Seq<(Seq<char>, Seq<char>)>,
    pub redirect: Option<Seq<char>>,
    pub headers_written: bool,
    pub keep_alive: bool,
    pub chained: bool,
    pub is_async: bool,
    /// The terminal framing (last chunk or close) has been produced.
    pub is_complete: bool,
    pub buffer: Seq<u8>,
    /// Every byte the handler wrote, in order.
    pub written: Seq<u8>,
    /// Every byte this response has produced for the wire, in order.
    pub wire: Seq<u8>,
    /// The suffix of `wire` that has not been taken yet.
    pub pending: Seq<u8>,
    pub closed: bool,
    pub callback_state: Option<State>,
    /// The header block as it went to the wire (empty until then).
    pub header_block: Seq<u8>,
    /// The non-empty buffers that were flushed, in order.
    pub parts: Seq<Seq<u8>>,
}

pub open spec fn set_cookie_name() -> Seq<char> {
    "Set-Cookie"@
}

pub open spec fn content_type_name() -> Seq<char> {
    "Content-Type"@
}

/// The value of a `Set-Cookie` header: `name=value; other`.
pub open spec fn cookie_text(name: Seq<char>, value: Seq<char>, other: Seq<char>) -> Seq<char> {
    name + "="@ + value + "; "@ + other
}

impl ResponseState {
    pub open spec fn initial(keep_alive: bool, chained: bool) -> ResponseState {
        ResponseState {
            additional_headers: Seq::empty(),
            redirect: None,
            headers_written: false,
            keep_alive,
            chained,
            is_async: false,
            is_complete: false,
            buffer: Seq::empty(),
            written: Seq::empty(),
            wire: Seq::empty(),
            pending: Seq::empty(),
            closed: false,
            callback_state: None,
            header_block: Seq::empty(),
            parts: Seq::empty(),
        }
    }

    /// The body bytes on the wire after the header block.
    pub open spec fn body(self) -> Seq<u8> {
        if self.keep_alive {
            chunks(self.parts) + if self.is_complete {
                last_chunk()
            } else {
                Seq::empty()
            }
        } else {
            joined(self.parts)
        }
    }

    /// The wire holds at most one header block, then the flushed buffers in
    /// the response's framing, then at most one terminal chunk or close.
    pub open spec fn well_framed(self) -> bool {
        &&& self.wire == self.header_block + self.body()
        &&& all_non_empty(self.parts)
        &&& self.written == joined(self.parts) + self.buffer
        &&& self.chained ==> self.header_block.len() == 0 && !self.is_complete
        &&& self.closed == (self.is_complete && !self.keep_alive)
        &&& !self.headers_written ==> {
            &&& self.wire.len() == 0
            &&& self.parts.len() == 0
            &&& self.header_block.len() == 0
            &&& !self.is_complete
        }
    }

    /// A flush now writes the header block.
    pub open spec fn writes_headers(self) -> bool {
        !self.headers_written && !self.chained
    }

    /// The buffer in this response's framing; with `finishing`, followed by
    /// the terminal chunk in chunked mode.
    pub open spec fn framed_buffer(self, finishing: bool) -> Seq<u8> {
        if self.keep_alive {
            (if self.buffer.len() > 0 {
                chunk(self.buffer)
            } else {
                Seq::empty()
            }) + if finishing {
                last_chunk()
            } else {
                Seq::empty()
            }
        } else {
            self.buffer
        }
    }

    /// The state after the buffer (and, the first time, the header block) went out.
    pub open spec fn emitted(self, header_block: Seq<u8>, finishing: bool) -> ResponseState {
        let hdr = if self.writes_headers() {
            header_block
        } else {
            Seq::<u8>::empty()
        };
        let out = hdr + self.framed_buffer(finishing);
        ResponseState {
            headers_written: true,
            header_block: self.header_block + hdr,
            buffer: Seq::empty(),
            wire: self.wire + out,
            pending: self.pending + out,
            parts: if self.buffer.len() > 0 {
                self.parts.push(self.buffer)
            } else {
                self.parts
            },
            callback_state: Some(
                if self.keep_alive {
                    State::HeadersChunked
                } else {
                    State::HeadersClose
                },
            ),
            is_complete: self.is_complete || finishing,
            closed: self.closed || (finishing && !self.keep_alive),
            ..self
        }
    }

    /// The state after `flush`.
    pub open spec fn flushed(self, header_block: Seq<u8>) -> ResponseState {
        if self.is_complete {
            self
        } else {
            self.emitted(header_block, false)
        }
    }

    /// The state after `complete`.
    pub open spec fn completed(self, header_block: Seq<u8>) -> ResponseState {
        if self.chained {
            self.flushed(header_block)
        } else if self.is_async || self.is_complete {
            self
        } else {
            self.emitted(header_block, true)
        }
    }

    pub open spec fn with_header(self, name: Seq<char>, value: Seq<char>) -> ResponseState {
        ResponseState { additional_headers: self.additional_headers.push((name, value)), ..self }
    }

    pub open spec fn with_redirect(self, location: Seq<char>) -> ResponseState {
        ResponseState { redirect: Some(location), ..self }
    }

    pub open spec fn with_written(self, data: Seq<u8>) -> ResponseState {
        ResponseState { buffer: self.buffer + data, written: self.written + data, ..self }
    }

    pub open spec fn with_async(self, value: bool) -> ResponseState {
        ResponseState { is_async: value, ..self }
    }

    pub open spec fn taken(self) -> ResponseState {
        ResponseState { pending: Seq::empty(), ..self }
    }
}

proof fn lemma_chunks_push(parts: Seq<Seq<u8>>, b: Seq<u8>)
    ensures
        chunks(parts.push(b)) == chunks(parts) + chunk(b),
        joined(parts.push(b)) == joined(parts) + b,
{
    assert(parts.push(b).drop_last() =~= parts);
}

proof fn lemma_emitted_well_framed(s: ResponseState, hb: Seq<u8>, finishing: bool)
    requires
        s.well_framed(),
        !s.is_complete,
        finishing ==> !s.chained,
    ensures
        s.emitted(hb, finishing).well_framed(),
{
    let t = s.emitted(hb, finishing);
    lemma_chunks_push(s.parts, s.buffer);
    assert(t.written =~= joined(t.parts) + t.buffer);
    assert(all_non_empty(t.parts)) by {
        if s.buffer.len() > 0 {
            assert forall|i: int| 0 <= i < t.parts.len() implies #[trigger] t.parts[i].len() > 0 by {
                if i < s.parts.len() {
                    assert(t.parts[i] == s.parts[i]);
                }
            }
        }
    }
    if s.buffer.len() == 0 {
        assert(s.buffer =~= Seq::<u8>::empty());
    }
    assert(t.body() =~= s.body() + s.framed_buffer(finishing));
    if s.writes_headers() {
        assert(t.header_block =~= hb);
    } else {
        assert(t.header_block =~= s.header_block);
    }
    assert(t.wire =~= t.header_block + t.body());
}

/// The header block goes to the wire at most once: once the latch is set,
/// neither a flush nor the completion changes the header block, and the wire
/// is always that block followed by body bytes alone.
pub proof fn lemma_headers_once(s: ResponseState, hb: Seq<u8>)
    requires
        s.well_framed(),
        s.headers_written,
    ensures
        s.flushed(hb).headers_written,
        s.completed(hb).headers_written,
        s.flushed(hb).header_block == s.header_block,
        s.completed(hb).header_block == s.header_block,
        s.flushed(hb).wire == s.header_block + s.flushed(hb).body(),
        s.completed(hb).wire == s.header_block + s.completed(hb).body(),
{
    if !s.is_complete {
        lemma_emitted_well_framed(s, hb, false);
        assert(s.emitted(hb, false).header_block =~= s.header_block);
        if !s.chained && !s.is_async {
            lemma_emitted_well_framed(s, hb, true);
            assert(s.emitted(hb, true).header_block =~= s.header_block);
        }
    }
}

/// A chained response never closes the connection and never sends the
/// terminal chunk: its wire is the flushed buffers alone, each non-empty,
/// and completing it keeps it so.
pub proof fn lemma_chained_never_terminates(s: ResponseState, hb: Seq<u8>)
    requires
        s.well_framed(),
        s.chained,
    ensures
        !s.closed,
        !s.is_complete,
        s.wire == if s.keep_alive {
            chunks(s.parts)
        } else {
            joined(s.parts)
        },
        all_non_empty(s.parts),
        s.completed(hb).well_framed(),
        s.completed(hb).chained,
        !s.completed(hb).closed,
        !s.completed(hb).is_complete,
{
    assert(s.wire =~= s.body());
    lemma_emitted_well_framed(s, hb, false);
}

/// Completing a response twice is completing it once: the second call
/// changes nothing, so at most one close or terminal chunk is ever sent.
pub proof fn lemma_complete_once(s: ResponseState, hb1: Seq<u8>, hb2: Seq<u8>)
    requires
        s.well_framed(),
    ensures
        s.completed(hb1).completed(hb2) == s.completed(hb1),
{
    let c = s.completed(hb1);
    if s.chained {
        lemma_emitted_well_framed(s, hb1, false);
        let d = c.completed(hb2);
        assert(c.framed_buffer(false) =~= Seq::<u8>::empty());
        assert(d.wire =~= c.wire);
        assert(d.pending =~= c.pending);
        assert(d.header_block =~= c.header_block);
        assert(d.buffer =~= c.buffer);
        assert(d =~= c);
    }
}

/// In keep-alive mode the wire after the header block is a run of
/// non-empty chunks, `HEX CRLF BYTES CRLF` each, followed by the terminal
/// chunk once the response is complete; the connection stays open.
pub proof fn lemma_chunked_framing(s: ResponseState)
    requires
        s.well_framed(),
        s.keep_alive,
    ensures
        s.wire == s.header_block + chunks(s.parts) + if s.is_complete {
            last_chunk()
        } else {
            Seq::<u8>::empty()
        },
        all_non_empty(s.parts),
        !s.closed,
{
}

/// A keep-alive flush before completion sends exactly the header block
/// when it is due, then the buffer as one chunk when it holds anything; it
/// never closes, empties the buffer and tells the connection the body is
/// chunked.
pub proof fn lemma_keep_alive_flush(s: ResponseState, hb: Seq<u8>)
    requires
        s.well_framed(),
        s.keep_alive,
        !s.is_complete,
    ensures
        ({
            let sent = (if s.writes_headers() {
                hb
            } else {
                Seq::<u8>::empty()
            }) + if s.buffer.len() > 0 {
                chunk(s.buffer)
            } else {
                Seq::<u8>::empty()
            };
            let f = s.flushed(hb);
            &&& f.wire == s.wire + sent
            &&& f.pending == s.pending + sent
            &&& f.buffer.len() == 0
            &&& !f.closed
            &&& f.callback_state == Some(State::HeadersChunked)
            &&& f.well_framed()
        }),
{
    lemma_emitted_well_framed(s, hb, false);
    let sent = (if s.writes_headers() {
        hb
    } else {
        Seq::<u8>::empty()
    }) + if s.buffer.len() > 0 {
        chunk(s.buffer)
    } else {
        Seq::<u8>::empty()
    };
    assert(s.framed_buffer(false) =~= (if s.buffer.len() > 0 {
        chunk(s.buffer)
    } else {
        Seq::<u8>::empty()
    }));
    assert(s.flushed(hb).wire =~= s.wire + sent);
    assert(s.flushed(hb).pending =~= s.pending + sent);
}

/// Once the header block is out, a refused header leaves the response as
/// it was, and completing it sends no second header block: only the rest
/// of the buffer, then the terminal chunk (keep-alive) or the close.
pub proof fn lemma_complete_after_headers(s: ResponseState, hb: Seq<u8>)
    requires
        s.well_framed(),
        s.headers_written,
        !s.chained,
        !s.is_async,
        !s.is_complete,
    ensures
        ({
            let c = s.completed(hb);
            &&& c.header_block == s.header_block
            &&& c.wire == s.wire + if s.keep_alive {
                (if s.buffer.len() > 0 {
                    chunk(s.buffer)
                } else {
                    Seq::<u8>::empty()
                }) + last_chunk()
            } else {
                s.buffer
            }
            &&& c.is_complete
            &&& c.closed == !s.keep_alive
            &&& c.well_framed()
        }),
{
    lemma_emitted_well_framed(s, hb, true);
    let c = s.completed(hb);
    assert(c.header_block =~= s.header_block);
    assert(c.wire =~= s.wire + s.framed_buffer(true));
}

/// The response of one handler invocation.
pub struct RustletResponse {
    additional_headers: Vec<(String, String)>,
    redirect: Option<String>,
    headers_written: bool,
    keep_alive: bool,
    chained: bool,
    is_async: bool,
    is_complete: bool,
    buffer: Vec<u8>,
    pending: Vec<u8>,
    closed: bool,
    callback_state: Option<State>,
    written: Ghost<Seq<u8>>,
    taken: Ghost<Seq<u8>>,
    header_block: Ghost<Seq<u8>>,
    parts: Ghost<Seq<Seq<u8>>>,
}

pub open spec fn header_view(h: (String, String)) -> (Seq<char>, Seq<char>) {
    (h.0@, h.1@)
}

pub open spec fn option_view(o: Option<String>) -> Option<Seq<char>> {
    match o {
        Some(s) => Some(s@),
        None => None,
    }
}

impl View for RustletResponse {
    type V = ResponseState;

    closed spec fn view(&self) -> ResponseState {
        ResponseState {
            additional_headers: self.additional_headers@.map_values(
                |h: (String, String)| header_view(h),
            ),
            redirect: option_view(self.redirect),
            headers_written: self.headers_written,
            keep_alive: self.keep_alive,
            chained: self.chained,
            is_async: self.is_async,
            is_complete: self.is_complete,
            buffer: self.buffer@,
            written: self.written@,
            wire: self.taken@ + self.pending@,
            pending: self.pending@,
            closed: self.closed,
            callback_state: self.callback_state,
            header_block: self.header_block@,
            parts: self.parts@,
        }
    }
}

impl RustletResponse {
    pub open spec fn wf(&self) -> bool {
        self@.well_framed()
    }

    pub fn new(keep_alive: bool, chained: bool) -> (r: RustletResponse)
        ensures
            r.wf(),
            r@ == ResponseState::initial(keep_alive, chained),
    {
        let r = RustletResponse {
            additional_headers: Vec::new(),
            redirect: None,
            headers_written: false,
            keep_alive,
            chained,
            is_async: false,
            is_complete: false,
            buffer: Vec::new(),
            pending: Vec::new(),
            closed: false,
            callback_state: None,
            written: Ghost(Seq::empty()),
            taken: Ghost(Seq::empty()),
            header_block: Ghost(Seq::empty()),
            parts: Ghost(Seq::empty()),
        };
        assert(r@.additional_headers =~= Seq::empty());
        assert(r@.wire =~= Seq::empty());
        assert(r@ =~= ResponseState::initial(keep_alive, chained));
        r
    }

    fn push_header(&mut self, name: String, value: String)
        ensures
            final(self)@ == old(self)@.with_header(name@, value@),
    {
        let ghost s = self@;
        self.additional_headers.push((name, value));
        assert(self@.additional_headers =~= s.additional_headers.push((name@, value@)));
        assert(self@ =~= s.with_header(name@, value@));
    }

    /// Adds `Set-Cookie: name=value; other`. Fails once the header block
    /// has been written.
    pub fn set_cookie(&mut self, name: &str, value: &str, other: &str) -> (r: Result<(), Error>)
        requires
            old(self).wf(),
        ensures
            final(self).wf(),
            old(self)@.headers_written ==> r == Err::<(), Error>(
                Error { kind: ErrorKind::OrderingError },
            ) && final(self)@ == old(self)@,
            !old(self)@.headers_written ==> r is Ok && final(self)@ == old(self)@.with_header(
                set_cookie_name(),
                cookie_text(name@, value@, other@),
            ),
    {
        if self.headers_written {
            return Err(Error::new(ErrorKind::OrderingError));
        }
        let mut text = String::from_str(name);
        text.append("=");
        text.append(value);
        text.append("; ");
        text.append(other);
        self.push_header(String::from_str("Set-Cookie"), text);
        Ok(())
    }

    /// Whether the header block has been written.
    pub fn get_headers_written(&self) -> (r: bool)
        ensures
            r == self@.headers_written,
    {
        self.headers_written
    }

    /// The redirect location, if one is set.
    pub fn get_redirect(&self) -> (r: &Option<String>)
        ensures
            option_view(*r) == self@.redirect,
    {
        &self.redirect
    }

    /// The extra header lines, in the order they were added.
    pub fn get_additional_headers(&self) -> (r: &Vec<(String, String)>)
        ensures
            r@.map_values(|h: (String, String)| header_view(h)) == self@.additional_headers,
    {
        &self.additional_headers
    }

    /// Sets the redirect location (answered with a 301). Fails once the
    /// header block has been written.
    pub fn set_redirect(&mut self, value: &str) -> (r: Result<(), Error>)
        requires
            old(self).wf(),
        ensures
            final(self).wf(),
            old(self)@.headers_written ==> r == Err::<(), Error>(
                Error { kind: ErrorKind::OrderingError },
            ) && final(self)@ == old(self)@,
            !old(self)@.headers_written ==> r is Ok && final(self)@ == old(self)@.with_redirect(
                value@,
            ),
    {
        if self.headers_written {
            return Err(Error::new(ErrorKind::OrderingError));
        }
        let ghost s = self@;
        self.redirect = Some(String::from_str(value));
        assert(self@ =~= s.with_redirect(value@));
        Ok(())
    }

    /// Adds the header line `name: value`. Fails once the header block has
    /// been written.
    pub fn add_header(&mut self, name: &str, value: &str) -> (r: Result<(), Error>)
        requires
            old(self).wf(),
        ensures
            final(self).wf(),
            old(self)@.headers_written ==> r == Err::<(), Error>(
                Error { kind: ErrorKind::OrderingError },
            ) && final(self)@ == old(self)@,
            !old(self)@.headers_written ==> r is Ok && final(self)@ == old(self)@.with_header(
                name@,
                value@,
            ),
    {
        if self.headers_written {
            return Err(Error::new(ErrorKind::OrderingError));
        }
        self.push_header(String::from_str(name), String::from_str(value));
        Ok(())
    }

    /// Adds `Content-Type: ctype`. Fails once the header block has been
    /// written.
    pub fn set_content_type(&mut self, ctype: &str) -> (r: Result<(), Error>)
        requires
            old(self).wf(),
        ensures
            final(self).wf(),
            old(self)@.headers_written ==> r == Err::<(), Error>(
                Error { kind: ErrorKind::OrderingError },
            ) && final(self)@ == old(self)@,
            !old(self)@.headers_written ==> r is Ok && final(self)@ == old(self)@.with_header(
                content_type_name(),
                ctype@,
            ),
    {
        if self.headers_written {
            return Err(Error::new(ErrorKind::OrderingError));
        }
        self.push_header(String::from_str("Content-Type"), String::from_str(ctype));
        Ok(())
    }

    /// The bytes that a flush now sends: the header block when it is due,
    /// then the buffer in this response's framing.
    fn outgoing(&self, header_block: &[u8], finishing: bool) -> (r: Vec<u8>)
        ensures
            r@ == (if self@.writes_headers() {
                header_block@
            } else {
                Seq::<u8>::empty()
            }) + self@.framed_buffer(finishing),
    {
        let mut out: Vec<u8> = Vec::new();
        if !self.headers_written && !self.chained {
            append_bytes(&mut out, header_block);
        }
        let ghost with_hdr = out@;
        if self.keep_alive {
            if self.buffer.len() > 0 {
                append_chunk(&mut out, self.buffer.as_slice());
            }
            if finishing {
                append_last_chunk(&mut out);
            }
        } else {
            append_bytes(&mut out, self.buffer.as_slice());
        }
        assert(out@ =~= with_hdr + self@.framed_buffer(finishing));
        out
    }

    #[verifier::rlimit(40)]
    fn emit(&mut self, header_block: &[u8], finishing: bool)
        requires
            old(self).wf(),
            !old(self)@.is_complete,
            finishing ==> !old(self)@.chained,
        ensures
            final(self).wf(),
            final(self)@ == old(self)@.emitted(header_block@, finishing),
    {
        let ghost s = self@;
        let ghost t = s.emitted(header_block@, finishing);
        proof {
            lemma_emitted_well_framed(s, header_block@, finishing);
        }
        let out = self.outgoing(header_block, finishing);
        if !self.headers_written && !self.chained {
            self.header_block = Ghost(self.header_block@ + header_block@);
        }
        append_bytes(&mut self.pending, out.as_slice());
        if self.buffer.len() > 0 {
            self.parts = Ghost(self.parts@.push(self.buffer@));
        }
        self.headers_written = true;
        self.callback_state = Some(
            if self.keep_alive {
                State::HeadersChunked
            } else {
                State::HeadersClose
            },
        );
        if finishing {
            self.is_complete = true;
            if !self.keep_alive {
                self.closed = true;
            }
        }
        self.buffer.clear();
        assert(self@.pending =~= t.pending);
        assert(self@.wire =~= t.wire);
        assert(self@.buffer =~= t.buffer);
        assert(self@.written == t.written);
        assert(self@ =~= t);
    }

    /// Sends what has been written so far: the header block first if it has
    /// not gone out yet (never for a chained response), then the buffer, as
    /// one chunk in keep-alive mode. Does nothing once the response is
    /// complete.
    pub fn flush(&mut self, header_block: &[u8])
        requires
            old(self).wf(),
        ensures
            final(self).wf(),
            final(self)@ == old(self)@.flushed(header_block@),
    {
        if !self.is_complete {
            self.emit(header_block, false);
        }
    }

    /// Appends `data` to the body buffer.
    pub fn write(&mut self, data: &[u8])
        requires
            old(self).wf(),
        ensures
            final(self).wf(),
            final(self)@ == old(self)@.with_written(data@),
    {
        let ghost s = self@;
        append_bytes(&mut self.buffer, data);
        self.written = Ghost(self.written@ + data@);
        assert(self@.written =~= s.written + data@);
        assert(self@.buffer =~= s.buffer + data@);
        assert(self@.written =~= joined(self@.parts) + self@.buffer);
        assert(self@ =~= s.with_written(data@));
    }

    /// Marks the response as finished later by `async_complete`.
    pub fn set_is_async(&mut self, value: bool)
        requires
            old(self).wf(),
        ensures
            final(self).wf(),
            final(self)@ == old(self)@.with_async(value),
    {
        let ghost s = self@;
        self.is_async = value;
        assert(self@ =~= s.with_async(value));
    }

    /// Ends an asynchronous response.
    pub fn async_complete(&mut self, header_block: &[u8])
        requires
            old(self).wf(),
        ensures
            final(self).wf(),
            final(self)@ == old(self)@.with_async(false).completed(header_block@),
    {
        self.set_is_async(false);
        self.complete(header_block);
    }

    /// Ends the response: a chained response is flushed; an asynchronous one
    /// is left for `async_complete`; otherwise the last flush goes out with
    /// the terminal chunk (keep-alive) or the close. A second call does
    /// nothing.
    pub fn complete(&mut self, header_block: &[u8])
        requires
            old(self).wf(),
        ensures
            final(self).wf(),
            final(self)@ == old(self)@.completed(header_block@),
    {
        if self.chained {
            self.flush(header_block);
            return;
        }
        if self.is_async || self.is_complete {
            return;
        }
        self.emit(header_block, true);
    }

    /// Hands over the bytes produced since the last call.
    pub fn take_output(&mut self) -> (r: Vec<u8>)
        requires
            old(self).wf(),
        ensures
            final(self).wf(),
            r@ == old(self)@.pending,
            final(self)@ == old(self)@.taken(),
    {
        let ghost s = self@;
        let mut out: Vec<u8> = Vec::new();
        std::mem::swap(&mut out, &mut self.pending);
        self.taken = Ghost(self.taken@ + out@);
        assert(self@.wire =~= s.wire);
        assert(self@ =~= s.taken());
        out
    }

    /// Whether the connection is to be closed.
    pub fn is_closed(&self) -> (r: bool)
        ensures
            r == self@.closed,
    {
        self.closed
    }

    /// Whether the terminal framing has been produced.
    pub fn is_complete(&self) -> (r: bool)
        ensures
            r == self@.is_complete,
    {
        self.is_complete
    }

    /// What the connection is to be told after the header block.
    pub fn get_callback_state(&self) -> (r: Option<State>)
        ensures
            r == self@.callback_state,
    {
        self.callback_state
    }

    pub fn is_keep_alive(&self) -> (r: bool)
        ensures
            r == self@.keep_alive,
    {
        self.keep_alive
    }

    /// Whether the response waits for `async_complete`.
    pub fn is_async(&self) -> (r: bool)
        ensures
            r == self@.is_async,
    {
        self.is_async
    }

    pub fn is_chained(&self) -> (r: bool)
        ensures
            r == self@.chained,
    {
        self.chained
    }
}

} // verus!
