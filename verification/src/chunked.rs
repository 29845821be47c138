//! Deciding whether a body in chunked transfer encoding has arrived in full.

use vstd::prelude::*;
use crate::scan::{
    crlf, find_bytes, find_from, is_prefix_of, lemma_find_from, lemma_find_from_extend,
    lemma_find_from_first, occurs_at,
};
use crate::head::{head_bytes, is_head_line, lemma_line_then_crlf};
use crate::text::{
    format_unsigned, is_plain_ascii, lemma_format_digits, lemma_trim_plain, parse_unsigned,
    parse_unsigned_bytes, trim_whitespace, whitespace_trim_bounds,
};

verus! {

/// The size that a chunk-size line announces: the line, trimmed of whitespace at both ends, as
/// a hexadecimal `usize`.
pub open spec fn chunk_size_of(line: Seq<u8>) -> Option<usize> {
    parse_unsigned(trim_whitespace(line), 16)
}

/// Where the trailer section that starts at `pos` ends: zero or more non-empty lines, each
/// ended by `\r\n`, then an empty line; the position just after that last `\r\n`.
pub open spec fn trailers_end_from(body: Seq<u8>, pos: nat) -> Option<nat>
    decreases body.len() - pos,
{
    match find_from(body, crlf(), pos) {
        None => None,
        Some(c) => if c == pos {
            Some(c + 2)
        } else {
            proof {
                lemma_find_from(body, crlf(), pos);
            }
            trailers_end_from(body, c + 2)
        },
    }
}

/// Where the chunked body that starts at `pos` in `body` ends, if it is complete there. Each
/// chunk is a size line ended by `\r\n`, then that many bytes of data, then `\r\n`; the chunk
/// of size 0 is followed by the trailer section (see `trailers_end_from`). A size line that is
/// not a hexadecimal number, data not followed by `\r\n`, or a chunk that runs past the end of
/// `body` leaves the body incomplete (`None`).
pub open spec fn chunked_end_from(body: Seq<u8>, pos: nat) -> Option<nat>
    decreases body.len() - pos,
{
    match find_from(body, crlf(), pos) {
        None => None,
        Some(c) => match chunk_size_of(body.subrange(pos as int, c as int)) {
            None => None,
            Some(size) => {
                let data = c + 2;
                if size == 0 {
                    trailers_end_from(body, data)
                } else if data + size + 2 > body.len() {
                    None
                } else if !occurs_at(body, crlf(), data + size) {
                    None
                } else {
                    proof {
                        lemma_find_from(body, crlf(), pos);
                    }
                    chunked_end_from(body, (data + size + 2) as nat)
                }
            },
        },
    }
}

/// Where the chunked body at the start of `body` ends, if it is complete.
pub open spec fn chunked_end(body: Seq<u8>) -> Option<nat> {
    chunked_end_from(body, 0)
}

/// Whether the chunked body at the start of `body` is complete.
pub open spec fn chunked_complete(body: Seq<u8>) -> bool {
    chunked_end(body) is Some
}

/// The end of the trailer section that starts at `pos` (see `trailers_end_from`).
fn trailers_end(body: &[u8], pos: usize) -> (r: Option<usize>)
    ensures
        match r {
            Some(e) => trailers_end_from(body@, pos as nat) == Some(e as nat),
            None => trailers_end_from(body@, pos as nat) is None,
        },
{
    let n = body.len();
    let pat: [u8; 2] = [13, 10];
    assert(pat@ =~= crlf());
    let mut p = pos;
    loop
        invariant
            n == body@.len(),
            pat@ == crlf(),
            trailers_end_from(body@, pos as nat) == trailers_end_from(body@, p as nat),
        decreases n - p,
    {
        let c = match find_bytes(body, &pat, p) {
            None => {
                return None;
            },
            Some(c) => c,
        };
        proof {
            lemma_find_from(body@, crlf(), p as nat);
            assert(occurs_at(body@, crlf(), c as int));
        }
        if c == p {
            return Some(c + 2);
        }
        p = c + 2;
    }
}

/// Where the chunked body at the start of `body` ends, or `None` when it is not complete (see
/// `chunked_end`). What follows that end is not part of the body.
pub fn chunked_body_end(body: &[u8]) -> (r: Option<usize>)
    ensures
        match r {
            Some(e) => chunked_end(body@) == Some(e as nat),
            None => chunked_end(body@) is None,
        },
{
    let n = body.len();
    let pat: [u8; 2] = [13, 10];
    assert(pat@ =~= crlf());
    let mut pos: usize = 0;
    loop
        invariant
            n == body@.len(),
            pos <= n,
            pat@ == crlf(),
            chunked_end(body@) == chunked_end_from(body@, pos as nat),
        decreases n - pos,
    {
        let c = match find_bytes(body, &pat, pos) {
            None => {
                return None;
            },
            Some(c) => c,
        };
        proof {
            lemma_find_from(body@, crlf(), pos as nat);
            assert(occurs_at(body@, crlf(), c as int));
        }
        let line = &body[pos..c];
        let (s, e) = whitespace_trim_bounds(line);
        let digits = &line[s..e];
        assert(digits@ == trim_whitespace(body@.subrange(pos as int, c as int)));
        let size = match parse_unsigned_bytes(digits, 16) {
            None => {
                return None;
            },
            Some(size) => size,
        };
        let data = c + 2;
        if size == 0 {
            return trailers_end(body, data);
        }
        if size > n - data || n - data - size < 2 {
            return None;
        }
        let after = data + size;
        if !(body[after] == 13 && body[after + 1] == 10) {
            proof {
                if occurs_at(body@, crlf(), after as int) {
                    let sub = body@.subrange(after as int, after + 2);
                    assert(sub[0] == body@[after as int] && sub[1] == body@[after + 1]);
                }
            }
            return None;
        }
        assert(body@.subrange(after as int, after + 2) =~= crlf());
        pos = after + 2;
    }
}

/// Whether the chunked body `body` has arrived in full: its chunks, from the first on, end in a
/// chunk of size 0 and a complete trailer section (see `chunked_complete`).
pub fn is_chunked_body_complete(body: &[u8]) -> (r: bool)
    ensures
        r == chunked_complete(body@),
{
    chunked_body_end(body).is_some()
}

/// A `\r\n` that lies within `s` is found at the same place in any extension of `s`.
proof fn lemma_occurs_extend(s: Seq<u8>, more: Seq<u8>, j: int)
    requires
        0 <= j,
        j + 2 <= s.len(),
    ensures
        occurs_at(s + more, crlf(), j) == occurs_at(s, crlf(), j),
{
    assert((s + more).subrange(j, j + 2) =~= s.subrange(j, j + 2));
}

/// A complete trailer section ends within the body, and more bytes after the body leave it
/// where it was.
pub proof fn lemma_trailers_end_extend(body: Seq<u8>, more: Seq<u8>, pos: nat)
    requires
        trailers_end_from(body, pos) is Some,
    ensures
        trailers_end_from(body + more, pos) == trailers_end_from(body, pos),
        pos + 2 <= trailers_end_from(body, pos).unwrap() <= body.len(),
    decreases body.len() - pos,
{
    lemma_find_from_extend(body, more, crlf(), pos);
    lemma_find_from(body, crlf(), pos);
    let c = find_from(body, crlf(), pos).unwrap();
    if c != pos {
        lemma_trailers_end_extend(body, more, c + 2);
    }
}

/// Once a chunked body is complete, more bytes after it change neither that it is complete nor
/// where it ends; and it ends within the bytes it was complete in.
pub proof fn lemma_chunked_end_extend(body: Seq<u8>, more: Seq<u8>, pos: nat)
    requires
        chunked_end_from(body, pos) is Some,
    ensures
        chunked_end_from(body + more, pos) == chunked_end_from(body, pos),
        pos < chunked_end_from(body, pos).unwrap() <= body.len(),
    decreases body.len() - pos,
{
    let t = body + more;
    lemma_find_from_extend(body, more, crlf(), pos);
    lemma_find_from(body, crlf(), pos);
    let c = find_from(body, crlf(), pos).unwrap();
    assert(t.subrange(pos as int, c as int) =~= body.subrange(pos as int, c as int));
    let size = chunk_size_of(body.subrange(pos as int, c as int)).unwrap();
    let data = c + 2;
    if size == 0 {
        lemma_trailers_end_extend(body, more, data);
    } else {
        lemma_occurs_extend(body, more, data + size);
        lemma_chunked_end_extend(body, more, (data + size + 2) as nat);
    }
}

/// Once a chunked body is complete, more bytes after it leave it complete.
pub proof fn lemma_chunked_complete_extend(body: Seq<u8>, more: Seq<u8>)
    requires
        chunked_complete(body),
    ensures
        chunked_complete(body + more),
        chunked_end(body + more) == chunked_end(body),
{
    lemma_chunked_end_extend(body, more, 0);
}

/// One chunk in chunked encoding: its length in hexadecimal, `\r\n`, the data, `\r\n`.
pub open spec fn encode_chunk(data: Seq<u8>) -> Seq<u8> {
    format_unsigned(data.len(), 16) + crlf() + data + crlf()
}

/// A body in chunked encoding: the chunks, then the last chunk `0\r\n`, the trailer lines
/// (each followed by `\r\n`) and an empty line.
pub open spec fn encode_chunked(chunks: Seq<Seq<u8>>, trailers: Seq<Seq<u8>>) -> Seq<u8>
    decreases chunks.len(),
{
    if chunks.len() == 0 {
        seq![48u8] + crlf() + head_bytes(trailers)
    } else {
        encode_chunk(chunks[0]) + encode_chunked(chunks.drop_first(), trailers)
    }
}

/// The first `\r\n` after a plain ASCII size line is the one that ends it.
proof fn lemma_size_line_ends(pre: Seq<u8>, h: Seq<u8>, post: Seq<u8>)
    requires
        h.len() > 0,
        is_plain_ascii(h),
    ensures
        find_from(pre + h + crlf() + post, crlf(), pre.len()) == Some(pre.len() + h.len()),
{
    let s = pre + h + crlf() + post;
    let c = pre.len() as int;
    assert(s.subrange(c + h.len() as int, c + h.len() + 2 as int) =~= crlf());
    assert forall|j: int| c <= j < c + h.len() implies !#[trigger] occurs_at(s, crlf(), j) by {
        if occurs_at(s, crlf(), j) {
            let sub = s.subrange(j, j + 2);
            assert(sub[0] == 13);
            assert(s[j] == h[j - c]);
        }
    }
    lemma_find_from_first(s, crlf(), pre.len(), (c + h.len()) as nat);
}

/// A trailer section written as lines and an empty line ends right after the empty line.
pub proof fn lemma_trailers_roundtrip(pre: Seq<u8>, trailers: Seq<Seq<u8>>, more: Seq<u8>)
    requires
        forall|i: int| 0 <= i < trailers.len() ==> #[trigger] is_head_line(trailers[i]),
    ensures
        trailers_end_from(pre + head_bytes(trailers) + more, pre.len()) == Some(
            pre.len() + head_bytes(trailers).len(),
        ),
    decreases trailers.len(),
{
    let body = pre + head_bytes(trailers) + more;
    let pos = pre.len();
    if trailers.len() == 0 {
        assert(body.subrange(pos as int, pos + 2 as int) =~= crlf());
        lemma_find_from_first(body, crlf(), pos, pos);
    } else {
        let l = trailers[0];
        assert(is_head_line(trailers[0]));
        let tail = trailers.drop_first();
        let post = head_bytes(tail) + more;
        assert(body =~= pre + l + crlf() + post);
        lemma_line_then_crlf(pre, l, post);
        let pre2 = pre + l + crlf();
        assert(body =~= pre2 + head_bytes(tail) + more);
        assert forall|i: int| 0 <= i < tail.len() implies #[trigger] is_head_line(tail[i]) by {
            assert(tail[i] == trailers[i + 1]);
        }
        lemma_find_from(body, crlf(), pos);
        lemma_trailers_roundtrip(pre2, tail, more);
    }
}

/// A chunk in front of the rest of a body is skipped whole: the body is complete from the
/// chunk on exactly as it is from just after the chunk.
proof fn lemma_chunk_skipped(pre: Seq<u8>, c: Seq<u8>, tail: Seq<u8>)
    requires
        0 < c.len() <= usize::MAX,
    ensures
        chunked_end_from(pre + encode_chunk(c) + tail, pre.len()) == chunked_end_from(
            pre + encode_chunk(c) + tail,
            pre.len() + encode_chunk(c).len(),
        ),
{
    let body = pre + encode_chunk(c) + tail;
    let pos = pre.len();
    let h = format_unsigned(c.len(), 16);
    lemma_format_digits(c.len(), 16);
    assert(body =~= pre + h + crlf() + (c + crlf() + tail));
    lemma_size_line_ends(pre, h, c + crlf() + tail);
    assert(body.subrange(pos as int, pos + h.len() as int) =~= h);
    lemma_trim_plain(h);
    let data = pos + h.len() + 2;
    assert(body.subrange(data + c.len() as int, data + c.len() + 2 as int) =~= crlf());
    assert(occurs_at(body, crlf(), data + c.len() as int));
    lemma_find_from(body, crlf(), pos);
}

/// The last chunk and the trailer section end right after the trailers' empty line.
proof fn lemma_last_chunk(pre: Seq<u8>, trailers: Seq<Seq<u8>>, more: Seq<u8>)
    requires
        forall|i: int| 0 <= i < trailers.len() ==> #[trigger] is_head_line(trailers[i]),
    ensures
        chunked_end_from(pre + encode_chunked(Seq::empty(), trailers) + more, pre.len()) == Some(
            pre.len() + encode_chunked(Seq::empty(), trailers).len(),
        ),
{
    let body = pre + encode_chunked(Seq::empty(), trailers) + more;
    let pos = pre.len();
    let zero = seq![48u8];
    assert(is_plain_ascii(zero));
    assert(body =~= pre + zero + crlf() + (head_bytes(trailers) + more));
    lemma_size_line_ends(pre, zero, head_bytes(trailers) + more);
    assert(body.subrange(pos as int, pos + 1 as int) =~= zero);
    lemma_trim_plain(zero);
    lemma_format_digits(0, 16);
    assert(format_unsigned(0, 16) =~= zero);
    let pre2 = pre + zero + crlf();
    assert(body =~= pre2 + head_bytes(trailers) + more);
    lemma_trailers_roundtrip(pre2, trailers, more);
}

/// A body encoded in chunks (none of them empty), with any trailer lines, is complete and
/// ends exactly where its encoding ends, wherever it starts and whatever follows it.
pub proof fn lemma_encoded_chunks_complete(
    pre: Seq<u8>,
    chunks: Seq<Seq<u8>>,
    trailers: Seq<Seq<u8>>,
    more: Seq<u8>,
)
    requires
        forall|i: int| 0 <= i < chunks.len() ==> 0 < #[trigger] chunks[i].len() <= usize::MAX,
        forall|i: int| 0 <= i < trailers.len() ==> #[trigger] is_head_line(trailers[i]),
    ensures
        chunked_end_from(pre + encode_chunked(chunks, trailers) + more, pre.len()) == Some(
            pre.len() + encode_chunked(chunks, trailers).len(),
        ),
    decreases chunks.len(),
{
    if chunks.len() == 0 {
        assert(chunks =~= Seq::<Seq<u8>>::empty());
        lemma_last_chunk(pre, trailers, more);
    } else {
        let c = chunks[0];
        assert(0 < chunks[0].len() <= usize::MAX);
        let rest = encode_chunked(chunks.drop_first(), trailers);
        let body = pre + encode_chunked(chunks, trailers) + more;
        assert(body =~= pre + encode_chunk(c) + (rest + more));
        lemma_chunk_skipped(pre, c, rest + more);
        let pre2 = pre + encode_chunk(c);
        assert(body =~= pre2 + rest + more);
        assert forall|i: int| 0 <= i < chunks.drop_first().len() implies 0 < #[trigger] chunks.drop_first()[i].len() <= usize::MAX by {
            assert(chunks.drop_first()[i] == chunks[i + 1]);
        }
        lemma_encoded_chunks_complete(pre2, chunks.drop_first(), trailers, more);
    }
}

/// A chunked body as written: for each chunk its size line and its data, the size line of the
/// last chunk, and the trailer lines.
pub struct ChunkedForm {
    pub sizes: Seq<Seq<u8>>,
    pub datas: Seq<Seq<u8>>,
    pub last_size: Seq<u8>,
    pub trailers: Seq<Seq<u8>>,
}

/// The chunks with their size lines: each size line, `\r\n`, the data, `\r\n`.
pub open spec fn chunks_bytes(sizes: Seq<Seq<u8>>, datas: Seq<Seq<u8>>) -> Seq<u8>
    decreases sizes.len(),
{
    if sizes.len() == 0 {
        Seq::empty()
    } else {
        sizes[0] + crlf() + datas[0] + crlf() + chunks_bytes(sizes.drop_first(), datas.drop_first())
    }
}

/// The bytes of a written chunked body: the chunks, the last chunk's size line and `\r\n`,
/// the trailer lines each followed by `\r\n`, and `\r\n`.
pub open spec fn form_bytes(f: ChunkedForm) -> Seq<u8> {
    chunks_bytes(f.sizes, f.datas) + f.last_size + crlf() + head_bytes(f.trailers)
}

/// A well-formed chunked body: as many size lines as chunks; each size line has no `\r\n`
/// and, trimmed of whitespace, is the hexadecimal length of its chunk, which is not empty; the
/// last size line has no `\r\n` and reads as zero; each trailer line is non-empty and has no
/// `\r\n`.
pub open spec fn form_ok(f: ChunkedForm) -> bool {
    &&& f.sizes.len() == f.datas.len()
    &&& forall|i: int|
        0 <= i < f.sizes.len() ==> {
            &&& is_head_line(#[trigger] f.sizes[i])
            &&& f.datas[i].len() > 0
            &&& chunk_size_of(f.sizes[i]) matches Some(n) && n == f.datas[i].len()
        }
    &&& is_head_line(f.last_size)
    &&& chunk_size_of(f.last_size) == Some(0usize)
    &&& forall|i: int| 0 <= i < f.trailers.len() ==> #[trigger] is_head_line(f.trailers[i])
}

/// The line from `pos` to the next `\r\n` has no `\r\n` in it.
proof fn lemma_first_line_has_no_crlf(body: Seq<u8>, pos: nat, c: nat)
    requires
        find_from(body, crlf(), pos) == Some(c),
    ensures
        forall|j: int| !#[trigger] occurs_at(body.subrange(pos as int, c as int), crlf(), j),
{
    lemma_find_from(body, crlf(), pos);
    let line = body.subrange(pos as int, c as int);
    assert forall|j: int| !#[trigger] occurs_at(line, crlf(), j) by {
        if occurs_at(line, crlf(), j) {
            assert(body.subrange(pos + j, pos + j + 2) =~= line.subrange(j, j + 2));
            assert(occurs_at(body, crlf(), pos + j));
        }
    }
}

/// A trailer section that ends is written as lines (each non-empty, without `\r\n`, followed
/// by `\r\n`) and an empty line.
proof fn lemma_trailers_written(body: Seq<u8>, pos: nat) -> (t: Seq<Seq<u8>>)
    requires
        trailers_end_from(body, pos) is Some,
    ensures
        forall|i: int| 0 <= i < t.len() ==> #[trigger] is_head_line(t[i]),
        pos + head_bytes(t).len() == trailers_end_from(body, pos).unwrap(),
        pos + head_bytes(t).len() <= body.len(),
        body.subrange(pos as int, (pos + head_bytes(t).len()) as int) == head_bytes(t),
    decreases body.len() - pos,
{
    lemma_find_from(body, crlf(), pos);
    let c = find_from(body, crlf(), pos).unwrap();
    assert(occurs_at(body, crlf(), c as int));
    if c == pos {
        let t = Seq::<Seq<u8>>::empty();
        assert(body.subrange(pos as int, pos + 2 as int) =~= crlf());
        assert(head_bytes(t) == crlf());
        t
    } else {
        let l = body.subrange(pos as int, c as int);
        lemma_first_line_has_no_crlf(body, pos, c);
        let rest = lemma_trailers_written(body, c + 2);
        let t = seq![l] + rest;
        assert(t.drop_first() =~= rest);
        assert(t[0] == l);
        assert(head_bytes(t) == l + crlf() + head_bytes(rest));
        assert(body.subrange(pos as int, (pos + head_bytes(t).len()) as int) =~= l + crlf()
            + body.subrange(c + 2 as int, (c + 2 + head_bytes(rest).len()) as int));
        assert forall|i: int| 0 <= i < t.len() implies #[trigger] is_head_line(t[i]) by {
            if i > 0 {
                assert(t[i] == rest[i - 1]);
            }
        }
        t
    }
}

/// A chunked body that ends is written as a well-formed chunked body: the bytes from `pos` to
/// where it ends are exactly the bytes of some `ChunkedForm` that `form_ok` accepts.
proof fn lemma_chunked_written(body: Seq<u8>, pos: nat) -> (f: ChunkedForm)
    requires
        chunked_end_from(body, pos) is Some,
    ensures
        form_ok(f),
        pos + form_bytes(f).len() == chunked_end_from(body, pos).unwrap(),
        pos + form_bytes(f).len() <= body.len(),
        body.subrange(pos as int, (pos + form_bytes(f).len()) as int) == form_bytes(f),
    decreases body.len() - pos,
{
    lemma_find_from(body, crlf(), pos);
    let c = find_from(body, crlf(), pos).unwrap();
    let h = body.subrange(pos as int, c as int);
    lemma_first_line_has_no_crlf(body, pos, c);
    assert(h.len() > 0) by {
        if h.len() == 0 {
            assert(trim_whitespace(h) =~= h) by {
                lemma_trim_plain(h);
            }
        }
    }
    let size = chunk_size_of(h).unwrap();
    let data = c + 2;
    assert(occurs_at(body, crlf(), c as int));
    assert(body.subrange(c as int, c + 2 as int) == crlf());
    if size == 0 {
        let t = lemma_trailers_written(body, data);
        let f = ChunkedForm { sizes: Seq::empty(), datas: Seq::empty(), last_size: h, trailers: t };
        assert(chunks_bytes(f.sizes, f.datas) =~= Seq::<u8>::empty());
        assert(body.subrange(pos as int, (pos + form_bytes(f).len()) as int) =~= h + crlf()
            + body.subrange(data as int, (data + head_bytes(t).len()) as int));
        f
    } else {
        let next = (data + size + 2) as nat;
        let g = lemma_chunked_written(body, next);
        let d = body.subrange(data as int, data + size as int);
        assert(body.subrange(data + size as int, data + size + 2 as int) == crlf());
        let f = ChunkedForm {
            sizes: seq![h] + g.sizes,
            datas: seq![d] + g.datas,
            last_size: g.last_size,
            trailers: g.trailers,
        };
        assert(f.sizes.drop_first() =~= g.sizes);
        assert(f.datas.drop_first() =~= g.datas);
        assert(f.sizes[0] == h && f.datas[0] == d);
        assert(chunks_bytes(f.sizes, f.datas) =~= h + crlf() + d + crlf() + chunks_bytes(
            g.sizes,
            g.datas,
        ));
        assert(form_bytes(f) =~= h + crlf() + d + crlf() + form_bytes(g));
        assert(body.subrange(pos as int, (pos + form_bytes(f).len()) as int) =~= h + crlf() + d + crlf()
            + body.subrange(next as int, (next + form_bytes(g).len()) as int));
        assert forall|i: int| 0 <= i < f.sizes.len() implies {
            &&& is_head_line(#[trigger] f.sizes[i])
            &&& f.datas[i].len() > 0
            &&& chunk_size_of(f.sizes[i]) matches Some(n) && n == f.datas[i].len()
        } by {
            if i > 0 {
                assert(f.sizes[i] == g.sizes[i - 1]);
                assert(f.datas[i] == g.datas[i - 1]);
            }
        }
        f
    }
}

/// A written chunk in front of the rest of a body is skipped whole.
proof fn lemma_written_chunk_skipped(pre: Seq<u8>, h: Seq<u8>, d: Seq<u8>, tail: Seq<u8>)
    requires
        is_head_line(h),
        d.len() > 0,
        chunk_size_of(h) matches Some(n) && n == d.len(),
    ensures
        chunked_end_from(pre + h + crlf() + d + crlf() + tail, pre.len()) == chunked_end_from(
            pre + h + crlf() + d + crlf() + tail,
            pre.len() + h.len() + 2 + d.len() + 2,
        ),
{
    let body = pre + h + crlf() + d + crlf() + tail;
    let pos = pre.len();
    assert(body =~= pre + h + crlf() + (d + crlf() + tail));
    lemma_line_then_crlf(pre, h, d + crlf() + tail);
    assert(body.subrange(pos as int, pos + h.len() as int) =~= h);
    let data = pos + h.len() + 2;
    assert(body.subrange(data + d.len() as int, data + d.len() + 2 as int) =~= crlf());
    assert(occurs_at(body, crlf(), data + d.len() as int));
    lemma_find_from(body, crlf(), pos);
}

/// A written last chunk and trailer section end right after the trailers' empty line.
proof fn lemma_written_last_chunk(pre: Seq<u8>, h: Seq<u8>, t: Seq<Seq<u8>>, more: Seq<u8>)
    requires
        is_head_line(h),
        chunk_size_of(h) == Some(0usize),
        forall|i: int| 0 <= i < t.len() ==> #[trigger] is_head_line(t[i]),
    ensures
        chunked_end_from(pre + h + crlf() + head_bytes(t) + more, pre.len()) == Some(
            pre.len() + h.len() + 2 + head_bytes(t).len(),
        ),
{
    let body = pre + h + crlf() + head_bytes(t) + more;
    let pos = pre.len();
    assert(body =~= pre + h + crlf() + (head_bytes(t) + more));
    lemma_line_then_crlf(pre, h, head_bytes(t) + more);
    assert(body.subrange(pos as int, pos + h.len() as int) =~= h);
    lemma_trailers_roundtrip(pre + h + crlf(), t, more);
}

/// A well-formed chunked body is read to its end, wherever it starts and whatever follows it.
proof fn lemma_written_chunked_ends(pre: Seq<u8>, f: ChunkedForm, more: Seq<u8>)
    requires
        form_ok(f),
    ensures
        chunked_end_from(pre + form_bytes(f) + more, pre.len()) == Some(
            pre.len() + form_bytes(f).len(),
        ),
    decreases f.sizes.len(),
{
    if f.sizes.len() == 0 {
        assert(chunks_bytes(f.sizes, f.datas) =~= Seq::<u8>::empty());
        assert(pre + form_bytes(f) + more =~= pre + f.last_size + crlf() + head_bytes(f.trailers)
            + more);
        lemma_written_last_chunk(pre, f.last_size, f.trailers, more);
    } else {
        let h = f.sizes[0];
        let d = f.datas[0];
        assert(is_head_line(f.sizes[0]));
        let g = ChunkedForm {
            sizes: f.sizes.drop_first(),
            datas: f.datas.drop_first(),
            last_size: f.last_size,
            trailers: f.trailers,
        };
        assert forall|i: int| 0 <= i < g.sizes.len() implies {
            &&& is_head_line(#[trigger] g.sizes[i])
            &&& g.datas[i].len() > 0
            &&& chunk_size_of(g.sizes[i]) matches Some(n) && n == g.datas[i].len()
        } by {
            assert(g.sizes[i] == f.sizes[i + 1]);
            assert(g.datas[i] == f.datas[i + 1]);
        }
        assert(form_bytes(f) =~= h + crlf() + d + crlf() + form_bytes(g));
        let tail = form_bytes(g) + more;
        assert(pre + form_bytes(f) + more =~= pre + h + crlf() + d + crlf() + tail);
        lemma_written_chunk_skipped(pre, h, d, tail);
        let pre2 = pre + h + crlf() + d + crlf();
        assert(pre + form_bytes(f) + more =~= pre2 + form_bytes(g) + more);
        lemma_written_chunked_ends(pre2, g, more);
    }
}

/// The grammar of a chunked body: it is complete exactly when it starts with a well-formed
/// chunked body (chunks, each a size line that reads as the hexadecimal length of its
/// non-empty data; a last chunk whose size reads as zero; trailer lines; an empty line), and
/// then it ends right after that body.
pub proof fn lemma_chunked_grammar(body: Seq<u8>)
    ensures
        chunked_complete(body) <==> exists|f: ChunkedForm|
            form_ok(f) && is_prefix_of(form_bytes(f), body),
        forall|f: ChunkedForm|
            form_ok(f) && is_prefix_of(form_bytes(f), body) ==> chunked_end(body) == Some(
                form_bytes(f).len(),
            ),
{
    if chunked_complete(body) {
        let f = lemma_chunked_written(body, 0);
        assert(body.take(form_bytes(f).len() as int) =~= body.subrange(0, form_bytes(f).len() as int));
        assert(form_ok(f) && is_prefix_of(form_bytes(f), body));
    }
    assert forall|f: ChunkedForm|
        form_ok(f) && is_prefix_of(form_bytes(f), body) implies chunked_end(body) == Some(
            form_bytes(f).len(),
        ) by {
        let more = body.skip(form_bytes(f).len() as int);
        assert(body =~= Seq::<u8>::empty() + form_bytes(f) + more);
        lemma_written_chunked_ends(Seq::empty(), f, more);
    }
}

/// A complete chunked body ends within the bytes, and read alone, without what follows it, it
/// is still a complete chunked body that ends at its last byte.
pub proof fn lemma_chunked_end_alone(body: Seq<u8>)
    requires
        chunked_complete(body),
    ensures
        chunked_end(body).unwrap() <= body.len(),
        chunked_end(body.take(chunked_end(body).unwrap() as int)) == chunked_end(body),
{
    let f = lemma_chunked_written(body, 0);
    let e = form_bytes(f).len();
    assert(body.take(e as int) =~= body.subrange(0, e as int));
    assert(body.take(e as int) =~= Seq::<u8>::empty() + form_bytes(f) + Seq::<u8>::empty());
    lemma_written_chunked_ends(Seq::empty(), f, Seq::empty());
}

} // verus!
