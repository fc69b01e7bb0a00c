//! Byte-level framing of a response body: chunked transfer coding and the
//! helpers that append bytes to an outgoing buffer.

use vstd::prelude::*;

verus! {

/// The upper-case hexadecimal digit for a value below sixteen.
pub open spec fn hex_digit(d: nat) -> u8 {
    if d < 10 {
        (48 + d) as u8
    } else {
        (55 + d) as u8
    }
}

/// The upper-case hexadecimal text of `n`, without leading zeros.
pub open spec fn hex_text(n: nat) -> Seq<u8>
    decreases n,
{
    if n < 16 {
        seq![hex_digit(n)]
    } else {
        hex_text(n / 16).push(hex_digit(n % 16))
    }
}

/// Carriage return and line feed.
pub open spec fn crlf() -> Seq<u8> {
    seq![13u8, 10u8]
}

/// The terminating zero-length chunk: `0\r\n\r\n`.
pub open spec fn last_chunk() -> Seq<u8> {
    seq![48u8, 13u8, 10u8, 13u8, 10u8]
}

/// One chunk of the chunked transfer coding: the length in hex, a line
/// break, the data and a line break.
pub open spec fn chunk(data: Seq<u8>) -> Seq<u8> {
    hex_text(data.len()) + crlf() + data + crlf()
}

/// The chunks of `parts`, one after the other.
pub open spec fn chunks(parts: Seq<Seq<u8>>) -> Seq<u8>
    decreases parts.len(),
{
    if parts.len() == 0 {
        Seq::empty()
    } else {
        chunks(parts.drop_last()) + chunk(parts.last())
    }
}

/// The parts, concatenated.
pub open spec fn joined(parts: Seq<Seq<u8>>) -> Seq<u8>
    decreases parts.len(),
{
    if parts.len() == 0 {
        Seq::empty()
    } else {
        joined(parts.drop_last()) + parts.last()
    }
}

/// Every part holds at least one byte.
pub open spec fn all_non_empty(parts: Seq<Seq<u8>>) -> bool {
    forall|i: int| 0 <= i < parts.len() ==> #[trigger] parts[i].len() > 0
}

/// Framing a run of parts piece by piece is framing the whole run.
pub proof fn lemma_chunks_concat(a: Seq<Seq<u8>>, b: Seq<Seq<u8>>)
    ensures
        chunks(a + b) == chunks(a) + chunks(b),
        joined(a + b) == joined(a) + joined(b),
    decreases b.len(),
{
    if b.len() == 0 {
        assert(a + b =~= a);
        assert(chunks(a) + chunks(b) =~= chunks(a));
        assert(joined(a) + joined(b) =~= joined(a));
    } else {
        lemma_chunks_concat(a, b.drop_last());
        assert((a + b).drop_last() =~= a + b.drop_last());
        assert((a + b).last() == b.last());
        assert(chunks(a + b) =~= chunks(a) + chunks(b));
        assert(joined(a + b) =~= joined(a) + joined(b));
    }
}

/// One part framed is one chunk; joined, it is itself.
pub proof fn lemma_single_part(t: Seq<u8>)
    ensures
        chunks(seq![t]) == chunk(t),
        joined(seq![t]) == t,
{
    assert(seq![t].drop_last() =~= Seq::<Seq<u8>>::empty());
    assert(chunks(Seq::<Seq<u8>>::empty()) == Seq::<u8>::empty());
    assert(joined(Seq::<Seq<u8>>::empty()) == Seq::<u8>::empty());
    assert(chunks(seq![t]) =~= chunk(t));
    assert(joined(seq![t]) =~= t);
}

/// Every part of `a + b` is non-empty when those of `a` and `b` are.
pub proof fn lemma_all_non_empty_concat(a: Seq<Seq<u8>>, b: Seq<Seq<u8>>)
    requires
        all_non_empty(a),
        all_non_empty(b),
    ensures
        all_non_empty(a + b),
{
    assert forall|i: int| 0 <= i < (a + b).len() implies #[trigger] (a + b)[i].len() > 0 by {
        if i < a.len() {
            assert((a + b)[i] == a[i]);
        } else {
            assert((a + b)[i] == b[i - a.len()]);
        }
    }
}

/// Appends `data` to `out`.
pub fn append_bytes(out: &mut Vec<u8>, data: &[u8])
    ensures
        final(out)@ == old(out)@ + data@,
{
    let n = data.len();
    let mut i: usize = 0;
    while i < n
        invariant
            n == data@.len(),
            i <= n,
            out@ == old(out)@ + data@.subrange(0, i as int),
        decreases n - i,
    {
        out.push(data[i]);
        i = i + 1;
        proof {
            assert(data@.subrange(0, i as int) =~= data@.subrange(0, (i - 1) as int).push(
                data@[i - 1],
            ));
        }
    }
    proof {
        assert(data@.subrange(0, n as int) =~= data@);
    }
}

/// Appends the upper-case hexadecimal text of `n` to `out`.
pub fn append_hex(out: &mut Vec<u8>, n: usize)
    ensures
        final(out)@ == old(out)@ + hex_text(n as nat),
    decreases n,
{
    if n >= 16 {
        append_hex(out, n / 16);
    }
    let d = n % 16;
    let b: u8 = if d < 10 {
        48 + d as u8
    } else {
        55 + d as u8
    };
    out.push(b);
    proof {
        if n < 16 {
            assert(old(out)@ + hex_text(n as nat) =~= old(out)@.push(b));
        } else {
            assert(old(out)@ + hex_text(n as nat) =~= (old(out)@ + hex_text((n / 16) as nat)).push(b));
        }
    }
}

/// Appends a line break to `out`.
pub fn append_crlf(out: &mut Vec<u8>)
    ensures
        final(out)@ == old(out)@ + crlf(),
{
    out.push(13);
    out.push(10);
    assert(final(out)@ =~= old(out)@ + crlf());
}

/// Appends the terminating zero-length chunk to `out`.
pub fn append_last_chunk(out: &mut Vec<u8>)
    ensures
        final(out)@ == old(out)@ + last_chunk(),
{
    out.push(48);
    out.push(13);
    out.push(10);
    out.push(13);
    out.push(10);
    assert(final(out)@ =~= old(out)@ + last_chunk());
}

/// Appends `data` to `out` as one chunk of the chunked transfer coding.
pub fn append_chunk(out: &mut Vec<u8>, data: &[u8])
    ensures
        final(out)@ == old(out)@ + chunk(data@),
{
    append_hex(out, data.len());
    append_crlf(out);
    append_bytes(out, data);
    append_crlf(out);
    assert(final(out)@ =~= old(out)@ + chunk(data@));
}

/// Frames `data` as one chunk.
pub fn frame_chunk(data: &[u8]) -> (r: Vec<u8>)
    ensures
        r@ == chunk(data@),
{
    let mut out: Vec<u8> = Vec::new();
    append_chunk(&mut out, data);
    assert(out@ =~= Seq::<u8>::empty() + chunk(data@));
    out
}

} // verus!
