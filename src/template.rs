//! Template pages: static bytes with embedded `<@=NAME>` escapes, each of
//! which runs handler `NAME` as a chained response between the static
//! parts.
//!
//! `parse_template` turns a page into pieces; a `TemplateRun` then frames
//! the static pieces, stops at each escape for the caller to run the
//! handler, takes the handler's chained output, and ends the answer.

use vstd::prelude::*;
use vstd::utf8::{decode_utf8, valid_utf8};
use crate::error::{Error, ErrorKind};
use crate::framing::{
    all_non_empty, append_bytes, append_chunk, append_last_chunk, chunk, chunks, joined,
    last_chunk,
};
use crate::response::{lemma_chained_never_terminates, RustletResponse, State};

verus! {

/// The largest template page, in bytes.
pub const MAX_TEMPLATE_SIZE: u64 = 10485760;

/// Rejects a template page larger than `MAX_TEMPLATE_SIZE`.
pub fn check_template_size(len: u64) -> (r: Result<(), Error>)
    ensures
        len > MAX_TEMPLATE_SIZE ==> r == Err::<(), Error>(Error { kind: ErrorKind::InvalidRSPError }),
        len <= MAX_TEMPLATE_SIZE ==> r is Ok,
{
    if len > MAX_TEMPLATE_SIZE {
        Err(Error::new(ErrorKind::InvalidRSPError))
    } else {
        Ok(())
    }
}

/// An escape `<@=` begins at `i`.
pub open spec fn open_at(s: Seq<u8>, i: int) -> bool {
    0 <= i && i + 3 <= s.len() && s[i] == 60 && s[i + 1] == 64 && s[i + 2] == 61
}

/// How far past `from` the first escape begins (up to the point where no
/// escape fits).
pub open spec fn open_offset(s: Seq<u8>, from: int) -> nat
    decreases s.len() - from,
{
    if from + 3 > s.len() || open_at(s, from) {
        0
    } else {
        open_offset(s, from + 1) + 1
    }
}

/// How far past `from` the first `>` is (up to the end).
pub open spec fn close_offset(s: Seq<u8>, from: int) -> nat
    decreases s.len() - from,
{
    if from >= s.len() || s[from] == 62 {
        0
    } else {
        close_offset(s, from + 1) + 1
    }
}

/// A piece of a template page.
pub enum PieceView {
    Text(Seq<u8>),
    Call(Seq<char>),
}

/// The pieces of `s` from position `from` on: static text up to the next
/// escape, the handler it names, and so on, ending with the static text
/// after the last escape. An escape without its `>` makes the page invalid;
/// so does a name that is not UTF-8.
pub open spec fn pieces_from(s: Seq<u8>, from: int) -> Result<Seq<PieceView>, ErrorKind>
    decreases s.len() - from,
{
    let i = from + open_offset(s, from);
    if !open_at(s, i) {
        Ok(seq![PieceView::Text(s.subrange(from, s.len() as int))])
    } else {
        let j = i + 3 + close_offset(s, i + 3);
        if j >= s.len() {
            Err(ErrorKind::InvalidRSPError)
        } else if !valid_utf8(s.subrange(i + 3, j)) {
            Err(ErrorKind::Utf8Error)
        } else {
            match pieces_from(s, j + 1) {
                Ok(rest) => Ok(
                    seq![
                        PieceView::Text(s.subrange(from, i)),
                        PieceView::Call(decode_utf8(s.subrange(i + 3, j))),
                    ] + rest,
                ),
                Err(e) => Err(e),
            }
        }
    }
}

/// The pieces of a template page.
pub open spec fn template_pieces(s: Seq<u8>) -> Result<Seq<PieceView>, ErrorKind> {
    pieces_from(s, 0)
}

/// The escape that runs handler `name`: `<@=NAME>`.
pub open spec fn escape(name: Seq<u8>) -> Seq<u8> {
    seq![60u8, 64u8, 61u8] + name + seq![62u8]
}

/// No escape begins anywhere in `s`.
pub open spec fn no_escape(s: Seq<u8>) -> bool {
    forall|i: int| !#[trigger] open_at(s, i)
}

/// `s` holds no `>`.
pub open spec fn no_close(s: Seq<u8>) -> bool {
    forall|i: int| 0 <= i < s.len() ==> #[trigger] s[i] != 62
}

proof fn lemma_open_offset(s: Seq<u8>, from: int, k: int)
    requires
        0 <= from <= k,
        open_at(s, k),
        forall|i: int| from <= i < k ==> !#[trigger] open_at(s, i),
    ensures
        from + open_offset(s, from) == k,
    decreases k - from,
{
    if from < k {
        assert(!open_at(s, from));
        lemma_open_offset(s, from + 1, k);
    }
}

proof fn lemma_close_offset(s: Seq<u8>, from: int, k: int)
    requires
        0 <= from <= k < s.len(),
        s[k] == 62,
        forall|i: int| from <= i < k ==> #[trigger] s[i] != 62,
    ensures
        from + close_offset(s, from) == k,
    decreases k - from,
{
    if from < k {
        assert(s[from] != 62);
        lemma_close_offset(s, from + 1, k);
    }
}

/// Static text `t` up to an escape naming `a`, then whatever follows.
proof fn lemma_pieces_step(p: Seq<u8>, from: int, t: Seq<u8>, a: Seq<u8>)
    requires
        0 <= from,
        from + t.len() + a.len() + 4 <= p.len(),
        p.subrange(from, from + t.len() + a.len() + 4) == t + escape(a),
        no_escape(t),
        no_close(a),
        valid_utf8(a),
    ensures
        pieces_from(p, from) == match pieces_from(p, from + t.len() + a.len() + 4) {
            Ok(rest) => Ok(seq![PieceView::Text(t), PieceView::Call(decode_utf8(a))] + rest),
            Err(e) => Err::<Seq<PieceView>, ErrorKind>(e),
        },
{
    let k = from + t.len();
    let j = k + 3 + a.len();
    let w = t + escape(a);
    assert forall|q: int| from <= q < from + w.len() implies #[trigger] p[q] == w[q - from] by {
        assert(p.subrange(from, from + w.len())[q - from] == p[q]);
    }
    assert(p[k] == 60 && p[k + 1] == 64 && p[k + 2] == 61) by {
        assert(w[t.len() as int] == 60);
        assert(w[t.len() as int + 1] == 64);
        assert(w[t.len() as int + 2] == 61);
    }
    assert forall|i: int| from <= i < k implies !#[trigger] open_at(p, i) by {
        if i + 3 <= k {
            assert(!open_at(t, i - from));
            assert(p[i] == t[i - from] && p[i + 1] == t[i + 1 - from] && p[i + 2] == t[i + 2
                - from]) by {
                assert(w[i - from] == t[i - from]);
                assert(w[i + 1 - from] == t[i + 1 - from]);
                assert(w[i + 2 - from] == t[i + 2 - from]);
            }
        }
    }
    lemma_open_offset(p, from, k);
    assert forall|i: int| k + 3 <= i < j implies #[trigger] p[i] != 62 by {
        assert(w[i - from] == a[i - k - 3]);
    }
    assert(p[j] == 62) by {
        assert(w[j - from] == 62);
    }
    lemma_close_offset(p, k + 3, j);
    assert(p.subrange(from, k) =~= t) by {
        assert forall|q: int| 0 <= q < t.len() implies p.subrange(from, k)[q] == t[q] by {
            assert(w[q] == t[q]);
        }
    }
    assert(p.subrange(k + 3, j) =~= a) by {
        assert forall|q: int| 0 <= q < a.len() implies p.subrange(k + 3, j)[q] == a[q] by {
            assert(w[t.len() + 3 + q] == a[q]);
        }
    }
}

/// Static text with no escape runs to the end of the page.
proof fn lemma_pieces_tail(p: Seq<u8>, from: int)
    requires
        0 <= from <= p.len(),
        no_escape(p.subrange(from, p.len() as int)),
    ensures
        pieces_from(p, from) == Ok::<Seq<PieceView>, ErrorKind>(
            seq![PieceView::Text(p.subrange(from, p.len() as int))],
        ),
{
    let i = from + open_offset(p, from);
    let t = p.subrange(from, p.len() as int);
    if open_at(p, i) {
        assert(!open_at(t, i - from));
        assert(t[i - from] == p[i] && t[i + 1 - from] == p[i + 1] && t[i + 2 - from] == p[i + 2]);
    }
}

/// A page `S0 <@=A> S1 <@=B> S2`, with no escape in the static parts and no
/// `>` in the names, parses into exactly those five pieces.
pub proof fn lemma_parse_two_escapes(
    s0: Seq<u8>,
    a: Seq<u8>,
    s1: Seq<u8>,
    b: Seq<u8>,
    s2: Seq<u8>,
)
    requires
        no_escape(s0),
        no_escape(s1),
        no_escape(s2),
        no_close(a),
        no_close(b),
        valid_utf8(a),
        valid_utf8(b),
    ensures
        template_pieces(s0 + escape(a) + s1 + escape(b) + s2) == Ok::<Seq<PieceView>, ErrorKind>(
            seq![
                PieceView::Text(s0),
                PieceView::Call(decode_utf8(a)),
                PieceView::Text(s1),
                PieceView::Call(decode_utf8(b)),
                PieceView::Text(s2),
            ],
        ),
{
    let p = s0 + escape(a) + s1 + escape(b) + s2;
    let f1: int = (s0.len() + a.len() + 4) as int;
    let f2: int = f1 + s1.len() + b.len() + 4;
    assert(p.subrange(0, f1) =~= s0 + escape(a));
    assert(p.subrange(f1, f2) =~= s1 + escape(b));
    assert(p.subrange(f2, p.len() as int) =~= s2);
    lemma_pieces_tail(p, f2);
    lemma_pieces_step(p, f1, s1, b);
    lemma_pieces_step(p, 0, s0, a);
    let tail = seq![PieceView::Text(s2)];
    assert(seq![PieceView::Text(s1), PieceView::Call(decode_utf8(b))] + tail =~= seq![
        PieceView::Text(s1),
        PieceView::Call(decode_utf8(b)),
        PieceView::Text(s2),
    ]);
    assert(seq![PieceView::Text(s0), PieceView::Call(decode_utf8(a))] + seq![
        PieceView::Text(s1),
        PieceView::Call(decode_utf8(b)),
        PieceView::Text(s2),
    ] =~= seq![
        PieceView::Text(s0),
        PieceView::Call(decode_utf8(a)),
        PieceView::Text(s1),
        PieceView::Call(decode_utf8(b)),
        PieceView::Text(s2),
    ]);
}

/// A piece of a template page.
#[derive(Debug)]
pub enum Piece {
    /// Static bytes.
    Text(Vec<u8>),
    /// The name of the handler to run.
    Call(String),
}

impl View for Piece {
    type V = PieceView;

    open spec fn view(&self) -> PieceView {
        match self {
            Piece::Text(t) => PieceView::Text(t@),
            Piece::Call(n) => PieceView::Call(n@),
        }
    }
}

pub open spec fn pieces_view(p: Seq<Piece>) -> Seq<PieceView> {
    p.map_values(|x: Piece| x@)
}

fn find_open(s: &[u8], from: usize) -> (r: usize)
    requires
        from <= s@.len(),
    ensures
        r == from + open_offset(s@, from as int),
        r <= s@.len(),
{
    let n = s.len();
    let mut i = from;
    while n - i >= 3 && !(s[i] == 60 && s[i + 1] == 64 && s[i + 2] == 61)
        invariant
            n == s@.len(),
            from <= i <= n,
            from + open_offset(s@, from as int) == i + open_offset(s@, i as int),
        decreases n - i,
    {
        i = i + 1;
    }
    i
}

fn find_close(s: &[u8], from: usize) -> (r: usize)
    requires
        from <= s@.len(),
    ensures
        r == from + close_offset(s@, from as int),
        r <= s@.len(),
{
    let n = s.len();
    let mut i = from;
    while i < n && s[i] != 62
        invariant
            n == s@.len(),
            from <= i <= n,
            from + close_offset(s@, from as int) == i + close_offset(s@, i as int),
        decreases n - i,
    {
        i = i + 1;
    }
    i
}

fn copy_range(s: &[u8], from: usize, to: usize) -> (r: Vec<u8>)
    requires
        from <= to <= s@.len(),
    ensures
        r@ == s@.subrange(from as int, to as int),
{
    let mut out: Vec<u8> = Vec::new();
    let mut i = from;
    while i < to
        invariant
            from <= i <= to <= s@.len(),
            out@ == s@.subrange(from as int, i as int),
        decreases to - i,
    {
        out.push(s[i]);
        i = i + 1;
        assert(out@ =~= s@.subrange(from as int, i as int));
    }
    out
}

/// Splits a template page into its pieces.
pub fn parse_template(s: &[u8]) -> (r: Result<Vec<Piece>, Error>)
    ensures
        match r {
            Ok(p) => template_pieces(s@) == Ok::<Seq<PieceView>, ErrorKind>(pieces_view(p@)),
            Err(e) => template_pieces(s@) == Err::<Seq<PieceView>, ErrorKind>(e.kind),
        },
{
    let n = s.len();
    let mut pieces: Vec<Piece> = Vec::new();
    let mut from: usize = 0;
    loop
        invariant
            n == s@.len(),
            from <= n,
            template_pieces(s@) == match pieces_from(s@, from as int) {
                Ok(rest) => Ok(pieces_view(pieces@) + rest),
                Err(e) => Err::<Seq<PieceView>, ErrorKind>(e),
            },
        decreases n - from,
    {
        let i = find_open(s, from);
        if !(n - i >= 3 && s[i] == 60 && s[i + 1] == 64 && s[i + 2] == 61) {
            let ghost before = pieces_view(pieces@);
            pieces.push(Piece::Text(copy_range(s, from, n)));
            assert(pieces_view(pieces@) =~= before + seq![PieceView::Text(s@.subrange(from as int, n as int))]);
            return Ok(pieces);
        }
        let j = find_close(s, i + 3);
        if j >= n {
            return Err(Error::new(ErrorKind::InvalidRSPError));
        }
        let name_bytes = copy_range(s, i + 3, j);
        let name = match crate::text::utf8_text(name_bytes.as_slice()) {
            Some(t) => t,
            None => {
                return Err(Error::new(ErrorKind::Utf8Error));
            },
        };
        let ghost before = pieces_view(pieces@);
        pieces.push(Piece::Text(copy_range(s, from, i)));
        pieces.push(Piece::Call(name));
        proof {
            let two = seq![
                PieceView::Text(s@.subrange(from as int, i as int)),
                PieceView::Call(decode_utf8(s@.subrange(i + 3, j as int))),
            ];
            assert(pieces_view(pieces@) =~= before + two);
            match pieces_from(s@, j + 1) {
                Ok(rest) => {
                    assert(before + (two + rest) =~= (before + two) + rest);
                },
                Err(e) => {},
            }
        }
        from = j + 1;
    }
}

/// The number of handler calls among the pieces.
pub open spec fn calls(p: Seq<PieceView>) -> nat
    decreases p.len(),
{
    if p.len() == 0 {
        0
    } else {
        calls(p.drop_last()) + if p.last() is Call {
            1nat
        } else {
            0nat
        }
    }
}

/// The body of a template answer: its static pieces with the output of
/// each handler call, in turn, in place of the call.
pub open spec fn composed(p: Seq<PieceView>, outs: Seq<Seq<u8>>) -> Seq<u8>
    decreases p.len(),
{
    if p.len() == 0 {
        Seq::empty()
    } else {
        match p.last() {
            PieceView::Text(t) => composed(p.drop_last(), outs) + t,
            PieceView::Call(_) => composed(p.drop_last(), outs.drop_last()) + outs.last(),
        }
    }
}

/// The abstract state of a template run.
pub struct RunView {
    pub pieces: Seq<PieceView>,
    /// The pieces before this one have been handled.
    pub next: int,
    pub keep_alive: bool,
    /// The piece before `next` is a call whose output has not been taken yet.
    pub awaiting: bool,
    pub done: bool,
    pub closed: bool,
    pub header_block: Seq<u8>,
    /// The non-empty segments sent so far, static and handler output alike.
    pub parts: Seq<Seq<u8>>,
    /// What each handler that ran wrote, in order.
    pub outs: Seq<Seq<u8>>,
    pub wire: Seq<u8>,
    pub pending: Seq<u8>,
}

/// `new` only adds to what `old` sent: the old wire and parts are prefixes
/// of the new ones, and every byte added to the wire is pending.
pub open spec fn extends(old: RunView, new: RunView) -> bool {
    &&& old.wire.len() <= new.wire.len()
    &&& new.wire.subrange(0, old.wire.len() as int) == old.wire
    &&& new.pending == old.pending + new.wire.subrange(
        old.wire.len() as int,
        new.wire.len() as int,
    )
    &&& old.parts.len() <= new.parts.len()
    &&& new.parts.subrange(0, old.parts.len() as int) == old.parts
}

proof fn lemma_extends_append(o: RunView, mid: RunView, new: RunView, x: Seq<u8>)
    requires
        extends(o, mid),
        new.wire == mid.wire + x,
        new.pending == mid.pending + x,
        new.parts == mid.parts || (exists|t: Seq<u8>| new.parts == mid.parts.push(t)),
    ensures
        extends(o, new),
{
    assert(new.wire.subrange(0, o.wire.len() as int) =~= o.wire) by {
        assert(new.wire.subrange(0, o.wire.len() as int) =~= mid.wire.subrange(
            0,
            o.wire.len() as int,
        ));
    }
    assert(new.wire.subrange(o.wire.len() as int, new.wire.len() as int) =~= mid.wire.subrange(
        o.wire.len() as int,
        mid.wire.len() as int,
    ) + x);
    assert(new.pending =~= o.pending + new.wire.subrange(
        o.wire.len() as int,
        new.wire.len() as int,
    ));
    assert(new.parts.subrange(0, o.parts.len() as int) =~= mid.parts.subrange(
        0,
        o.parts.len() as int,
    ));
}

impl RunView {
    /// The number of pieces whose bytes are in `parts`.
    pub open spec fn settled(self) -> int {
        if self.awaiting {
            self.next - 1
        } else {
            self.next
        }
    }

    pub open spec fn body(self) -> Seq<u8> {
        if self.keep_alive {
            chunks(self.parts) + if self.done {
                last_chunk()
            } else {
                Seq::empty()
            }
        } else {
            joined(self.parts)
        }
    }

    pub open spec fn well_formed(self) -> bool {
        &&& 0 <= self.next <= self.pieces.len()
        &&& self.wire == self.header_block + self.body()
        &&& all_non_empty(self.parts)
        &&& self.closed == (self.done && !self.keep_alive)
        &&& self.done ==> self.next == self.pieces.len() && !self.awaiting
        &&& self.awaiting ==> self.next >= 1 && self.pieces[self.next - 1] is Call
        &&& self.outs.len() == calls(self.pieces.subrange(0, self.settled()))
        &&& joined(self.parts) == composed(self.pieces.subrange(0, self.settled()), self.outs)
    }
}

/// A finished template answer, unchunked, is the page's static pieces with
/// the writes of each handler in place of its call; in keep-alive mode the
/// wire is the header block, those segments as chunks, and one terminal
/// chunk; otherwise the segments end with the close.
pub proof fn lemma_template_body(v: RunView)
    requires
        v.well_formed(),
        v.done,
    ensures
        joined(v.parts) == composed(v.pieces, v.outs),
        v.keep_alive ==> v.wire == v.header_block + chunks(v.parts) + last_chunk(),
        !v.keep_alive ==> v.wire == v.header_block + joined(v.parts) && v.closed,
{
    assert(v.pieces.subrange(0, v.pieces.len() as int) =~= v.pieces);
}

/// For a page `S0 <@=A> S1 <@=B> S2`, the finished answer's body, unchunked,
/// is `S0`, what `A` wrote, `S1`, what `B` wrote, `S2`.
pub proof fn lemma_template_composition(
    v: RunView,
    s0: Seq<u8>,
    s1: Seq<u8>,
    s2: Seq<u8>,
    a: Seq<char>,
    b: Seq<char>,
)
    requires
        v.well_formed(),
        v.done,
        v.pieces == seq![
            PieceView::Text(s0),
            PieceView::Call(a),
            PieceView::Text(s1),
            PieceView::Call(b),
            PieceView::Text(s2),
        ],
    ensures
        v.outs.len() == 2,
        joined(v.parts) == s0 + v.outs[0] + s1 + v.outs[1] + s2,
{
    lemma_template_body(v);
    let p = v.pieces;
    let o = v.outs;
    assert(p.subrange(0, p.len() as int) =~= p);
    assert(p.drop_last() =~= seq![
        PieceView::Text(s0),
        PieceView::Call(a),
        PieceView::Text(s1),
        PieceView::Call(b),
    ]);
    let upto4 = p.drop_last();
    let upto3 = upto4.drop_last();
    let upto2 = upto3.drop_last();
    let upto1 = upto2.drop_last();
    assert(upto1.drop_last() =~= Seq::<PieceView>::empty());
    assert(upto1 =~= seq![PieceView::Text(s0)]);
    assert(calls(upto1.drop_last()) == 0);
    assert(calls(upto1) == 0);
    assert(calls(upto2) == 1);
    assert(calls(upto3) == 1);
    assert(calls(upto4) == 2);
    assert(calls(p) == 2);
    assert(o.drop_last().drop_last() =~= Seq::<Seq<u8>>::empty());
    assert(composed(upto1.drop_last(), o.drop_last().drop_last()) == Seq::<u8>::empty());
    assert(composed(upto1, o.drop_last().drop_last()) =~= s0);
    assert(composed(upto2, o.drop_last()) =~= s0 + o[0]);
    assert(composed(upto3, o.drop_last()) =~= s0 + o[0] + s1);
    assert(composed(upto4, o) =~= s0 + o[0] + s1 + o[1]);
    assert(composed(p, o) =~= s0 + o[0] + s1 + o[1] + s2);
}

/// For a page `S0 <@=A> S1 <@=B> S2` (no escape in the static parts, no
/// `>` in the names), a finished run over the page's pieces answers, once
/// unchunked, `S0`, what `A` wrote, `S1`, what `B` wrote, `S2`.
pub proof fn lemma_page_composition(
    v: RunView,
    s0: Seq<u8>,
    a: Seq<u8>,
    s1: Seq<u8>,
    b: Seq<u8>,
    s2: Seq<u8>,
)
    requires
        v.well_formed(),
        v.done,
        no_escape(s0),
        no_escape(s1),
        no_escape(s2),
        no_close(a),
        no_close(b),
        valid_utf8(a),
        valid_utf8(b),
        template_pieces(s0 + escape(a) + s1 + escape(b) + s2) == Ok::<Seq<PieceView>, ErrorKind>(
            v.pieces,
        ),
    ensures
        v.outs.len() == 2,
        joined(v.parts) == s0 + v.outs[0] + s1 + v.outs[1] + s2,
{
    lemma_parse_two_escapes(s0, a, s1, b, s2);
    lemma_template_composition(v, s0, s1, s2, decode_utf8(a), decode_utf8(b));
}

/// The interpretation of one template page on one connection.
pub struct TemplateRun {
    pieces: Vec<Piece>,
    next: usize,
    keep_alive: bool,
    awaiting: bool,
    done: bool,
    closed: bool,
    pending: Vec<u8>,
    header_block: Ghost<Seq<u8>>,
    parts: Ghost<Seq<Seq<u8>>>,
    outs: Ghost<Seq<Seq<u8>>>,
    taken: Ghost<Seq<u8>>,
}

impl View for TemplateRun {
    type V = RunView;

    closed spec fn view(&self) -> RunView {
        RunView {
            pieces: pieces_view(self.pieces@),
            next: self.next as int,
            keep_alive: self.keep_alive,
            awaiting: self.awaiting,
            done: self.done,
            closed: self.closed,
            header_block: self.header_block@,
            parts: self.parts@,
            outs: self.outs@,
            wire: self.taken@ + self.pending@,
            pending: self.pending@,
        }
    }
}

impl TemplateRun {
    pub open spec fn wf(&self) -> bool {
        self@.well_formed()
    }

    /// Starts the answer for a page: the header block goes out first.
    pub fn new(pieces: Vec<Piece>, keep_alive: bool, header_block: &[u8]) -> (r: TemplateRun)
        ensures
            r.wf(),
            r@ == (RunView {
                pieces: pieces_view(pieces@),
                next: 0,
                keep_alive,
                awaiting: false,
                done: false,
                closed: false,
                header_block: header_block@,
                parts: Seq::empty(),
                outs: Seq::empty(),
                wire: header_block@,
                pending: header_block@,
            }),
    {
        let mut pending: Vec<u8> = Vec::new();
        append_bytes(&mut pending, header_block);
        let r = TemplateRun {
            pieces,
            next: 0,
            keep_alive,
            awaiting: false,
            done: false,
            closed: false,
            pending,
            header_block: Ghost(header_block@),
            parts: Ghost(Seq::empty()),
            outs: Ghost(Seq::empty()),
            taken: Ghost(Seq::empty()),
        };
        proof {
            assert(r@.wire =~= header_block@);
            assert(r@.pending =~= header_block@);
            assert(pieces_view(pieces@).subrange(0, 0) =~= Seq::<PieceView>::empty());
            assert(r@.wire =~= r@.header_block + r@.body());
        }
        r
    }

    /// What the connection is told after the header block.
    pub fn get_callback_state(&self) -> (r: State)
        ensures
            r == (if self@.keep_alive {
                State::HeadersChunked
            } else {
                State::HeadersClose
            }),
    {
        if self.keep_alive {
            State::HeadersChunked
        } else {
            State::HeadersClose
        }
    }

    /// Sends the static pieces up to the next handler call and returns the
    /// handler's name; at the end of the page, ends the answer (terminal
    /// chunk, or close) and returns nothing.
    pub fn next_call(&mut self) -> (r: Option<String>)
        requires
            old(self).wf(),
            !old(self)@.awaiting,
        ensures
            final(self).wf(),
            final(self)@.pieces == old(self)@.pieces,
            final(self)@.keep_alive == old(self)@.keep_alive,
            final(self)@.header_block == old(self)@.header_block,
            final(self)@.outs == old(self)@.outs,
            old(self)@.next <= final(self)@.next,
            extends(old(self)@, final(self)@),
            match r {
                Some(n) => final(self)@.awaiting && !final(self)@.done && final(self)@.pieces[final(self)@.next - 1] == PieceView::Call(n@),
                None => final(self)@.done && !final(self)@.awaiting,
            },
    {
        if self.done {
            proof {
                assert(self@.wire.subrange(0, self@.wire.len() as int) =~= self@.wire);
                assert(self@.parts.subrange(0, self@.parts.len() as int) =~= self@.parts);
                assert(self@.pending =~= self@.pending + self@.wire.subrange(
                    self@.wire.len() as int,
                    self@.wire.len() as int,
                ));
            }
            return None;
        }
        proof {
            assert(self@.wire.subrange(0, self@.wire.len() as int) =~= self@.wire);
            assert(self@.parts.subrange(0, self@.parts.len() as int) =~= self@.parts);
            assert(self@.pending =~= self@.pending + self@.wire.subrange(
                self@.wire.len() as int,
                self@.wire.len() as int,
            ));
        }
        while self.next < self.pieces.len()
            invariant
                self.wf(),
                extends(old(self)@, self@),
                !self@.awaiting,
                !self@.done,
                self@.pieces == old(self)@.pieces,
                self@.keep_alive == old(self)@.keep_alive,
                self@.header_block == old(self)@.header_block,
                self@.outs == old(self)@.outs,
                old(self)@.next <= self@.next,
            decreases self.pieces@.len() - self.next,
        {
            let i = self.next;
            let ghost s = self@;
            let ghost p = s.pieces;
            proof {
                assert(p.subrange(0, i + 1).drop_last() =~= p.subrange(0, i as int));
                assert(p.subrange(0, i + 1).last() == p[i as int]);
                assert(p[i as int] == self.pieces@[i as int]@);
            }
            match &self.pieces[i] {
                Piece::Text(t) => {
                    if t.len() > 0 {
                        if self.keep_alive {
                            append_chunk(&mut self.pending, t.as_slice());
                        } else {
                            append_bytes(&mut self.pending, t.as_slice());
                        }
                        proof {
                            crate::framing::lemma_chunks_concat(s.parts, seq![t@]);
                            assert(seq![t@].drop_last() =~= Seq::<Seq<u8>>::empty());
                            crate::framing::lemma_all_non_empty_concat(s.parts, seq![t@]);
                            assert(s.parts + seq![t@] =~= s.parts.push(t@));
                            crate::framing::lemma_single_part(t@);
                            assert(p[i as int] == PieceView::Text(t@));
                        }
                        self.parts = Ghost(self.parts@.push(t@));
                    } else {
                        proof {
                            assert(t@ =~= Seq::<u8>::empty());
                        }
                    }
                    self.next = i + 1;
                    proof {
                        if t@.len() > 0 {
                            if s.keep_alive {
                                assert(self@.pending =~= s.pending + chunk(t@));
                                assert(self@.wire =~= s.wire + chunk(t@));
                                assert(self@.body() =~= s.body() + chunk(t@));
                                lemma_extends_append(old(self)@, s, self@, chunk(t@));
                            } else {
                                assert(self@.pending =~= s.pending + t@);
                                assert(self@.wire =~= s.wire + t@);
                                assert(self@.body() =~= s.body() + t@);
                                lemma_extends_append(old(self)@, s, self@, t@);
                            }
                        } else {
                            assert(self@.wire =~= s.wire + Seq::<u8>::empty());
                            assert(self@.pending =~= s.pending + Seq::<u8>::empty());
                            lemma_extends_append(old(self)@, s, self@, Seq::<u8>::empty());
                        }
                        assert(self@.wire =~= self@.header_block + self@.body());
                        assert(joined(self@.parts) =~= composed(
                            p.subrange(0, self.next as int),
                            self@.outs,
                        ));
                    }
                },
                Piece::Call(n) => {
                    let name = n.clone();
                    self.next = i + 1;
                    self.awaiting = true;
                    proof {
                        assert(self@.wire =~= s.wire + Seq::<u8>::empty());
                        assert(self@.pending =~= s.pending + Seq::<u8>::empty());
                        lemma_extends_append(old(self)@, s, self@, Seq::<u8>::empty());
                    }
                    return Some(name);
                },
            }
        }
        let ghost s = self@;
        if self.keep_alive {
            append_last_chunk(&mut self.pending);
        } else {
            self.closed = true;
        }
        self.done = true;
        proof {
            assert(s.wire == s.header_block + s.body());
            if s.keep_alive {
                assert(self@.pending =~= s.pending + last_chunk());
                assert(self@.wire =~= s.wire + last_chunk());
                lemma_extends_append(old(self)@, s, self@, last_chunk());
                assert(self@.body() =~= s.body() + last_chunk());
            } else {
                assert(self@.pending =~= s.pending + Seq::<u8>::empty());
                assert(self@.wire =~= s.wire + Seq::<u8>::empty());
                assert(self@.body() =~= s.body());
                lemma_extends_append(old(self)@, s, self@, Seq::<u8>::empty());
            }
            assert(self@.wire =~= self@.header_block + self@.body());
        }
        None
    }

    /// Takes the output of the handler whose call `next_call` returned: its
    /// chained response, completed, with nothing taken from it yet.
    pub fn splice(&mut self, sub: &mut RustletResponse)
        requires
            old(self).wf(),
            old(self)@.awaiting,
            old(sub).wf(),
            old(sub)@.chained,
            old(sub)@.keep_alive == old(self)@.keep_alive,
            old(sub)@.buffer.len() == 0,
            old(sub)@.pending == old(sub)@.wire,
        ensures
            final(self).wf(),
            final(self)@ == (RunView {
                awaiting: false,
                outs: old(self)@.outs.push(old(sub)@.written),
                parts: old(self)@.parts + old(sub)@.parts,
                wire: old(self)@.wire + old(sub)@.wire,
                pending: old(self)@.pending + old(sub)@.wire,
                ..old(self)@
            }),
            final(sub)@ == old(sub)@.taken(),
    {
        let ghost s = self@;
        let ghost sp = sub@.parts;
        let ghost w = sub@.written;
        proof {
            lemma_chained_never_terminates(sub@, Seq::empty());
        }
        let out = sub.take_output();
        append_bytes(&mut self.pending, out.as_slice());
        self.parts = Ghost(self.parts@ + sp);
        self.outs = Ghost(self.outs@.push(w));
        self.awaiting = false;
        proof {
            let p = s.pieces;
            let k = s.next;
            crate::framing::lemma_chunks_concat(s.parts, sp);
            crate::framing::lemma_all_non_empty_concat(s.parts, sp);
            assert(w =~= joined(sp));
            assert(p.subrange(0, k).drop_last() =~= p.subrange(0, k - 1));
            assert(p.subrange(0, k).last() == p[k - 1]);
            assert(s.outs.push(w).drop_last() =~= s.outs);
            assert(s.wire == s.header_block + s.body());
            assert(self@.pending =~= s.pending + old(sub)@.wire);
            assert(self@.wire =~= s.wire + old(sub)@.wire);
            if s.keep_alive {
                assert(old(sub)@.wire == chunks(sp));
                assert(self@.body() =~= s.body() + chunks(sp));
            } else {
                assert(old(sub)@.wire == joined(sp));
                assert(self@.body() =~= s.body() + joined(sp));
            }
            assert(self@.wire =~= self@.header_block + self@.body());
            assert(self@ =~= (RunView {
                awaiting: false,
                outs: s.outs.push(w),
                parts: s.parts + sp,
                wire: s.wire + old(sub)@.wire,
                pending: s.pending + old(sub)@.wire,
                ..s
            }));
        }
    }

    /// Hands over the bytes produced since the last call.
    pub fn take_output(&mut self) -> (r: Vec<u8>)
        requires
            old(self).wf(),
        ensures
            final(self).wf(),
            r@ == old(self)@.pending,
            final(self)@ == (RunView { pending: Seq::empty(), ..old(self)@ }),
    {
        let ghost s = self@;
        let mut out: Vec<u8> = Vec::new();
        std::mem::swap(&mut out, &mut self.pending);
        self.taken = Ghost(self.taken@ + out@);
        assert(self@.wire =~= s.wire);
        assert(self@ =~= (RunView { pending: Seq::empty(), ..s }));
        out
    }

    /// Whether the page has been answered in full.
    pub fn is_done(&self) -> (r: bool)
        ensures
            r == self@.done,
    {
        self.done
    }

    /// Whether the connection is to be closed.
    pub fn is_closed(&self) -> (r: bool)
        ensures
            r == self@.closed,
    {
        self.closed
    }
}

} // verus!
