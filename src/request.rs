//! The request of one handler invocation: method, version, URI, query,
//! headers in wire order, body, keep-alive flag and bound session id, with
//! header and query maps built on first use.

use vstd::prelude::*;
use vstd::utf8::{decode_utf8, valid_utf8};
use crate::entries::{entries_map, TextMap};
use crate::error::{Error, ErrorKind};
use crate::session::{
    entry_removed, now_millis, session_value, stored, touched, SessionStore,
};
use crate::text::{split_on, split_text, texts_view, trim_text, trimmed};

verus! {

/// The request method.
#[derive(Clone, Copy, Debug, PartialEq, Eq, Structural)]
pub enum HttpMethod {
    Get,
    Post,
}

/// The HTTP version of the request.
#[derive(Clone, Copy, Debug, PartialEq, Eq, Structural)]
pub enum HttpVersion {
    V09,
    V10,
    V11,
    V20,
}

/// The headers that decode as UTF-8 (name and value), decoded, in wire order.
pub open spec fn header_entries(h: Seq<(Seq<u8>, Seq<u8>)>) -> Seq<(Seq<char>, Seq<char>)>
    decreases h.len(),
{
    if h.len() == 0 {
        Seq::empty()
    } else {
        let init = header_entries(h.drop_last());
        let (n, v) = h.last();
        if valid_utf8(n) && valid_utf8(v) {
            init.push((decode_utf8(n), decode_utf8(v)))
        } else {
            init
        }
    }
}

/// Header name → value; of repeated names the last one counts, and headers
/// that are not UTF-8 are left out.
pub open spec fn header_map_of(h: Seq<(Seq<u8>, Seq<u8>)>) -> Map<Seq<char>, Seq<char>> {
    entries_map(header_entries(h))
}

/// The pairs that a query yields: each `&`-separated piece that holds an
/// `=`, as the text before the first `=` and the text between the first
/// and a second `=`.
pub open spec fn query_pairs(pieces: Seq<Seq<char>>) -> Seq<(Seq<char>, Seq<char>)>
    decreases pieces.len(),
{
    if pieces.len() == 0 {
        Seq::empty()
    } else {
        let kv = split_on(pieces[0], '=');
        let rest = query_pairs(pieces.drop_first());
        if kv.len() >= 2 {
            seq![(kv[0], kv[1])] + rest
        } else {
            rest
        }
    }
}

/// Query key → value; of repeated keys the last one counts.
pub open spec fn query_map_of(q: Seq<char>) -> Map<Seq<char>, Seq<char>> {
    entries_map(query_pairs(split_on(q, '&')))
}

/// The value of cookie `name` in one `;`-separated piece of a `Cookie`
/// header, after trimming: the text between the first and a second `=`,
/// when the text before the first `=` is `name`.
pub open spec fn cookie_in(piece: Seq<char>, name: Seq<char>) -> Option<Seq<char>> {
    let kv = split_on(piece, '=');
    if kv.len() >= 2 && kv[0] == name {
        Some(kv[1])
    } else {
        None
    }
}

/// The first piece that carries cookie `name` gives its value.
pub open spec fn cookie_lookup(pieces: Seq<Seq<char>>, name: Seq<char>) -> Option<Seq<char>>
    decreases pieces.len(),
{
    if pieces.len() == 0 {
        None
    } else {
        match cookie_in(trimmed(pieces[0]), name) {
            Some(v) => Some(v),
            None => cookie_lookup(pieces.drop_first(), name),
        }
    }
}

/// The value of cookie `name` in a `Cookie` header.
pub open spec fn cookie_value(header: Seq<char>, name: Seq<char>) -> Option<Seq<char>> {
    cookie_lookup(split_on(header, ';'), name)
}

/// The cookie `name` of a request with these headers.
pub open spec fn request_cookie(h: Seq<(Seq<u8>, Seq<u8>)>, name: Seq<char>) -> Option<Seq<char>> {
    let m = header_map_of(h);
    if m.contains_key("Cookie"@) {
        cookie_value(m["Cookie"@], name)
    } else {
        None
    }
}

/// The text of a byte string that is UTF-8, else the empty text.
pub open spec fn text_or_empty(b: Seq<u8>) -> Seq<char> {
    if valid_utf8(b) {
        decode_utf8(b)
    } else {
        Seq::empty()
    }
}

pub open spec fn option_text(o: Option<String>) -> Option<Seq<char>> {
    match o {
        Some(s) => Some(s@),
        None => None,
    }
}

pub open spec fn pair_view(p: (Vec<u8>, Vec<u8>)) -> (Seq<u8>, Seq<u8>) {
    (p.0@, p.1@)
}

/// Relies on querystring::querify: the pairs of the query as `query_pairs`
/// states them (split at `&`, then at `=`, keeping the first two parts of
/// the pieces that have two).
#[verifier::external_body]
fn querify_pairs(q: &str) -> (r: Vec<(String, String)>)
    ensures
        r@.map_values(|p: (String, String)| (p.0@, p.1@)) == query_pairs(split_on(q@, '&')),
{
    let mut r = Vec::new();
    for (k, v) in querystring::querify(q) {
        r.push((k.to_string(), v.to_string()));
    }
    r
}

/// The value of cookie `name` in one trimmed piece of a `Cookie` header.
pub fn cookie_in_piece(piece: &str, name: &str) -> (r: Option<String>)
    ensures
        option_text(r) == cookie_in(piece@, name@),
{
    let kv = split_text(piece, '=');
    proof {
        assert(texts_view(kv@).len() == kv@.len());
    }
    if kv.len() >= 2 {
        let key = String::from_str(name);
        proof {
            assert(texts_view(kv@)[0] == kv@[0]@);
            assert(texts_view(kv@)[1] == kv@[1]@);
        }
        if kv[0] == key {
            return Some(kv[1].clone());
        }
    }
    None
}

/// The value of cookie `name` in a `Cookie` header.
pub fn find_cookie(header: &str, name: &str) -> (r: Option<String>)
    ensures
        option_text(r) == cookie_value(header@, name@),
{
    let pieces = split_text(header, ';');
    let ghost p = texts_view(pieces@);
    let mut i: usize = 0;
    proof {
        assert(p.subrange(0, p.len() as int) =~= p);
    }
    while i < pieces.len()
        invariant
            p == texts_view(pieces@),
            p == split_on(header@, ';'),
            i <= pieces@.len(),
            cookie_lookup(p, name@) == cookie_lookup(p.subrange(i as int, p.len() as int), name@),
        decreases pieces@.len() - i,
    {
        let t = trim_text(pieces[i].as_str());
        let found = cookie_in_piece(t.as_str(), name);
        proof {
            assert(p[i as int] == pieces@[i as int]@);
            assert(p.subrange(i as int, p.len() as int).drop_first() =~= p.subrange(
                i + 1,
                p.len() as int,
            ));
            assert(p.subrange(i as int, p.len() as int)[0] == p[i as int]);
        }
        if found.is_some() {
            proof {
                assert(t@ == trimmed(p[i as int]));
                assert(cookie_lookup(p.subrange(i as int, p.len() as int), name@) == cookie_in(
                    trimmed(p[i as int]),
                    name@,
                ));
            }
            return found;
        }
        i = i + 1;
    }
    proof {
        assert(p.subrange(i as int, p.len() as int) =~= Seq::<Seq<char>>::empty());
    }
    None
}

/// The abstract state of a request.
pub struct RequestView {
    pub uri: Seq<char>,
    pub query: Seq<char>,
    pub content: Seq<u8>,
    pub method: HttpMethod,
    pub version: HttpVersion,
    pub headers: Seq<(Seq<u8>, Seq<u8>)>,
    pub keep_alive: bool,
    pub session_id: u128,
}

/// The request of one handler invocation.
pub struct RustletRequest {
    content: Vec<u8>,
    http_method: HttpMethod,
    http_version: HttpVersion,
    uri: String,
    query: String,
    headers: Vec<(Vec<u8>, Vec<u8>)>,
    keep_alive: bool,
    query_map: Option<TextMap<String>>,
    header_map: Option<TextMap<String>>,
    session_id: u128,
}

impl View for RustletRequest {
    type V = RequestView;

    closed spec fn view(&self) -> RequestView {
        RequestView {
            uri: self.uri@,
            query: self.query@,
            content: self.content@,
            method: self.http_method,
            version: self.http_version,
            headers: self.headers@.map_values(|p: (Vec<u8>, Vec<u8>)| pair_view(p)),
            keep_alive: self.keep_alive,
            session_id: self.session_id,
        }
    }
}

impl RustletRequest {
    /// The lazily built maps, when present, agree with the headers and the
    /// query.
    pub closed spec fn wf(&self) -> bool {
        &&& (self.header_map matches Some(m) ==> m.wf() && m@ == header_map_of(self@.headers))
        &&& (self.query_map matches Some(m) ==> m.wf() && m@ == query_map_of(self@.query))
    }

    pub fn new(
        uri: String,
        query: String,
        content: Vec<u8>,
        http_method: HttpMethod,
        http_version: HttpVersion,
        headers: Vec<(Vec<u8>, Vec<u8>)>,
        keep_alive: bool,
    ) -> (r: RustletRequest)
        ensures
            r.wf(),
            r@ == (RequestView {
                uri: uri@,
                query: query@,
                content: content@,
                method: http_method,
                version: http_version,
                headers: headers@.map_values(|p: (Vec<u8>, Vec<u8>)| pair_view(p)),
                keep_alive,
                session_id: 0,
            }),
    {
        RustletRequest {
            uri,
            query,
            content,
            http_method,
            http_version,
            headers,
            keep_alive,
            query_map: None,
            header_map: None,
            session_id: 0,
        }
    }

    /// Binds the request to session `session_id`.
    pub fn set_session_id(&mut self, session_id: u128)
        requires
            old(self).wf(),
        ensures
            final(self).wf(),
            final(self)@ == (RequestView { session_id, ..old(self)@ }),
    {
        self.session_id = session_id;
    }

    /// The bound session id.
    pub fn get_session_id(&self) -> (r: u128)
        ensures
            r == self@.session_id,
    {
        self.session_id
    }

    /// Reads `name` from this request's session, which is created if
    /// missing; the session's access time becomes the current time. A clock
    /// that cannot be read is an internal error, and the store is left as
    /// it was.
    pub fn get_session(&self, store: &mut SessionStore, name: &str) -> (r: Result<
        Option<Vec<u8>>,
        Error,
    >)
        requires
            old(store).wf(),
        ensures
            final(store).wf(),
            match r {
                Ok(Some(v)) => session_value(old(store)@, self@.session_id, name@) == Some(v@),
                Ok(None) => session_value(old(store)@, self@.session_id, name@) is None,
                Err(e) => e.kind == ErrorKind::InternalError && final(store)@ == old(store)@,
            },
            r is Ok ==> exists|now: int|
                final(store)@ == touched(old(store)@, self@.session_id, now),
    {
        let now = match now_millis() {
            Some(t) => t,
            None => {
                return Err(Error::new(ErrorKind::InternalError));
            },
        };
        let r = store.get_at(self.session_id, name, now);
        assert(store@ == touched(old(store)@, self@.session_id, now as int));
        Ok(r)
    }

    /// Stores `value` under `name` in this request's session. A clock that
    /// cannot be read is an internal error, and nothing is stored.
    pub fn set_session(&self, store: &mut SessionStore, name: &str, value: Vec<u8>) -> (r: Result<
        (),
        Error,
    >)
        requires
            old(store).wf(),
        ensures
            final(store).wf(),
            r is Ok ==> exists|now: int|
                final(store)@ == stored(old(store)@, self@.session_id, name@, value@, now),
            r matches Err(e) ==> e.kind == ErrorKind::InternalError && final(store)@ == old(
                store,
            )@,
    {
        let now = match now_millis() {
            Some(t) => t,
            None => {
                return Err(Error::new(ErrorKind::InternalError));
            },
        };
        let ghost v = value@;
        store.set_at(self.session_id, name, value, now);
        assert(store@ == stored(old(store)@, self@.session_id, name@, v, now as int));
        Ok(())
    }

    /// Removes `name` from this request's session. A clock that cannot be
    /// read is an internal error, and nothing is removed.
    pub fn remove_session_entry(&self, store: &mut SessionStore, name: &str) -> (r: Result<
        (),
        Error,
    >)
        requires
            old(store).wf(),
        ensures
            final(store).wf(),
            r is Ok ==> exists|now: int|
                final(store)@ == entry_removed(old(store)@, self@.session_id, name@, now),
            r matches Err(e) ==> e.kind == ErrorKind::InternalError && final(store)@ == old(
                store,
            )@,
    {
        let now = match now_millis() {
            Some(t) => t,
            None => {
                return Err(Error::new(ErrorKind::InternalError));
            },
        };
        store.remove_entry_at(self.session_id, name, now);
        assert(store@ == entry_removed(old(store)@, self@.session_id, name@, now as int));
        Ok(())
    }

    /// Removes this request's session.
    pub fn invalidate_session(&self, store: &mut SessionStore)
        requires
            old(store).wf(),
        ensures
            final(store).wf(),
            final(store)@ == old(store)@.remove(self@.session_id),
    {
        store.invalidate(self.session_id);
    }

    fn build_header_map(&mut self)
        requires
            old(self).wf(),
        ensures
            final(self).wf(),
            final(self)@ == old(self)@,
            final(self).header_map is Some,
    {
        let ghost h = self@.headers;
        let mut map: TextMap<String> = TextMap::new();
        let n = self.headers.len();
        let mut i: usize = 0;
        while i < n
            invariant
                n == self.headers@.len(),
                h == self.headers@.map_values(|p: (Vec<u8>, Vec<u8>)| pair_view(p)),
                i <= n,
                map.wf(),
                map@ == entries_map(header_entries(h.subrange(0, i as int))),
            decreases n - i,
        {
            let ghost pre = header_entries(h.subrange(0, i as int));
            proof {
                assert(h.subrange(0, i + 1).drop_last() =~= h.subrange(0, i as int));
                assert(h.subrange(0, i + 1).last() == pair_view(self.headers@[i as int]));
            }
            let name = crate::text::utf8_text(self.headers[i].0.as_slice());
            let value = crate::text::utf8_text(self.headers[i].1.as_slice());
            match (name, value) {
                (Some(k), Some(v)) => {
                    let ghost e = (k@, v@);
                    map.put(k.as_str(), v);
                    proof {
                        assert(header_entries(h.subrange(0, i + 1)) == pre.push(e));
                        assert(pre.push(e).drop_last() =~= pre);
                    }
                },
                _ => {
                    proof {
                        assert(header_entries(h.subrange(0, i + 1)) == pre);
                    }
                },
            }
            i = i + 1;
        }
        proof {
            assert(h.subrange(0, n as int) =~= h);
        }
        self.header_map = Some(map);
    }

    fn build_query_map(&mut self)
        requires
            old(self).wf(),
        ensures
            final(self).wf(),
            final(self)@ == old(self)@,
            final(self).query_map is Some,
    {
        let pairs = querify_pairs(self.query.as_str());
        let ghost ps = pairs@.map_values(|p: (String, String)| (p.0@, p.1@));
        let mut map: TextMap<String> = TextMap::new();
        let n = pairs.len();
        let mut i: usize = 0;
        while i < n
            invariant
                n == pairs@.len(),
                ps == pairs@.map_values(|p: (String, String)| (p.0@, p.1@)),
                ps == query_pairs(split_on(self.query@, '&')),
                i <= n,
                map.wf(),
                map@ == entries_map(ps.subrange(0, i as int)),
            decreases n - i,
        {
            proof {
                assert(ps.subrange(0, i + 1).drop_last() =~= ps.subrange(0, i as int));
            }
            map.put(pairs[i].0.as_str(), pairs[i].1.clone());
            i = i + 1;
        }
        proof {
            assert(ps.subrange(0, n as int) =~= ps);
        }
        self.query_map = Some(map);
    }

    /// The value of cookie `name`, from the `Cookie` header.
    pub fn get_cookie(&mut self, name: &str) -> (r: Option<String>)
        requires
            old(self).wf(),
        ensures
            final(self).wf(),
            final(self)@ == old(self)@,
            option_text(r) == request_cookie(old(self)@.headers, name@),
    {
        if self.header_map.is_none() {
            self.build_header_map();
        }
        match &self.header_map {
            Some(map) => match map.get("Cookie") {
                Some(header) => find_cookie(header.as_str(), name),
                None => None,
            },
            None => None,
        }
    }

    /// The number of distinct header names that decode as UTF-8.
    pub fn get_header_len(&mut self) -> (r: usize)
        requires
            old(self).wf(),
        ensures
            final(self).wf(),
            final(self)@ == old(self)@,
            r == header_map_of(old(self)@.headers).len(),
    {
        if self.header_map.is_none() {
            self.build_header_map();
        }
        match &self.header_map {
            Some(map) => map.len(),
            None => 0,
        }
    }

    /// The value of header `i` in wire order; empty when there is no such
    /// header or it is not UTF-8.
    pub fn get_header_i_value(&self, i: usize) -> (r: String)
        ensures
            r@ == (if i < self@.headers.len() {
                text_or_empty(self@.headers[i as int].1)
            } else {
                Seq::<char>::empty()
            }),
    {
        if i >= self.headers.len() {
            return String::new();
        }
        match crate::text::utf8_text(self.headers[i].1.as_slice()) {
            Some(t) => t,
            None => String::new(),
        }
    }

    /// The name of header `i` in wire order; empty when there is no such
    /// header or it is not UTF-8.
    pub fn get_header_i_name(&self, i: usize) -> (r: String)
        ensures
            r@ == (if i < self@.headers.len() {
                text_or_empty(self@.headers[i as int].0)
            } else {
                Seq::<char>::empty()
            }),
    {
        if i >= self.headers.len() {
            return String::new();
        }
        match crate::text::utf8_text(self.headers[i].0.as_slice()) {
            Some(t) => t,
            None => String::new(),
        }
    }

    /// The value of header `name` (exact name; the last one if repeated).
    pub fn get_header(&mut self, name: &str) -> (r: Option<String>)
        requires
            old(self).wf(),
        ensures
            final(self).wf(),
            final(self)@ == old(self)@,
            option_text(r) == (if header_map_of(old(self)@.headers).contains_key(name@) {
                Some(header_map_of(old(self)@.headers)[name@])
            } else {
                None
            }),
    {
        if self.header_map.is_none() {
            self.build_header_map();
        }
        match &self.header_map {
            Some(map) => match map.get(name) {
                Some(v) => Some(v.clone()),
                None => None,
            },
            None => None,
        }
    }

    /// The headers in wire order, as bytes.
    pub fn get_headers(&self) -> (r: &Vec<(Vec<u8>, Vec<u8>)>)
        ensures
            r@.map_values(|p: (Vec<u8>, Vec<u8>)| pair_view(p)) == self@.headers,
    {
        &self.headers
    }

    pub fn get_http_method(&self) -> (r: HttpMethod)
        ensures
            r == self@.method,
    {
        self.http_method
    }

    pub fn get_http_version(&self) -> (r: HttpVersion)
        ensures
            r == self@.version,
    {
        self.http_version
    }

    /// The request body.
    pub fn get_content(&self) -> (r: &Vec<u8>)
        ensures
            r@ == self@.content,
    {
        &self.content
    }

    pub fn get_uri(&self) -> (r: &String)
        ensures
            r@ == self@.uri,
    {
        &self.uri
    }

    pub fn get_query(&self) -> (r: &String)
        ensures
            r@ == self@.query,
    {
        &self.query
    }

    /// Whether the connection is kept alive after this request.
    pub fn is_keep_alive(&self) -> (r: bool)
        ensures
            r == self@.keep_alive,
    {
        self.keep_alive
    }

    /// The value of query parameter `name` (the last one if repeated).
    pub fn get_query_parameter(&mut self, name: &str) -> (r: Option<String>)
        requires
            old(self).wf(),
        ensures
            final(self).wf(),
            final(self)@ == old(self)@,
            option_text(r) == (if query_map_of(old(self)@.query).contains_key(name@) {
                Some(query_map_of(old(self)@.query)[name@])
            } else {
                None
            }),
    {
        if self.query_map.is_none() {
            self.build_query_map();
        }
        match &self.query_map {
            Some(map) => match map.get(name) {
                Some(v) => Some(v.clone()),
                None => None,
            },
            None => None,
        }
    }
}

} // verus!
