//! The incremental parser of HTTP request heads: `HeadParser` splits the bytes of a head into
//! lines as they arrive, and `parse_request_meta` reads the routing metadata from those lines.

use vstd::prelude::*;
use crate::scan::{
    crlf, find_bytes, find_byte, find_from, lemma_find_from, lemma_find_from_extend,
    lemma_find_from_first, occurs_at,
};
use crate::text::{
    ascii_whitespace_prefix_len, bytes_eq_ignore_ascii_case, eq_ignore_ascii_case,
    parse_unsigned, parse_unsigned_bytes, trim_ascii_start,
};

verus! {

/// Why a request head was refused.
#[derive(Debug, PartialEq, Eq, Structural)]
pub enum ParseError {
    InvalidHeader,
}

/// How the body that follows a request head is delimited.
#[derive(Debug, Clone, Copy, PartialEq, Eq, Structural)]
pub enum BodyKind {
    NoBody,
    ContentLength(usize),
    Chunked,
}

/// The metadata of a request that the proxy routes on.
pub struct RequestMeta {
    pub body_kind: BodyKind,
    pub connection_close: bool,
    pub host: Option<Vec<u8>>,
    pub method: Vec<u8>,
    pub uri: Vec<u8>,
    pub http_version: Vec<u8>,
}

/// `RequestMeta` with its byte strings as sequences.
pub struct SpecRequestMeta {
    pub body_kind: BodyKind,
    pub connection_close: bool,
    pub host: Option<Seq<u8>>,
    pub method: Seq<u8>,
    pub uri: Seq<u8>,
    pub http_version: Seq<u8>,
}

/// The view of an optional byte string.
pub open spec fn opt_bytes_view(o: Option<Vec<u8>>) -> Option<Seq<u8>> {
    match o {
        Some(v) => Some(v@),
        None => None,
    }
}

impl View for RequestMeta {
    type V = SpecRequestMeta;

    open spec fn view(&self) -> SpecRequestMeta {
        SpecRequestMeta {
            body_kind: self.body_kind,
            connection_close: self.connection_close,
            host: opt_bytes_view(self.host),
            method: self.method@,
            uri: self.uri@,
            http_version: self.http_version@,
        }
    }
}

/// What `advance` reports.
pub enum ParseEvent<'a> {
    /// A complete line, without its `\r\n`.
    Line(&'a [u8]),
    /// The empty line that ends the head.
    End,
    /// No complete line is in the buffer yet.
    NeedMore,
}

/// `ParseEvent` with the line as a sequence.
pub enum HeadEvent {
    Line(Seq<u8>),
    End,
    NeedMore,
}

impl<'a> View for ParseEvent<'a> {
    type V = HeadEvent;

    open spec fn view(&self) -> HeadEvent {
        match self {
            ParseEvent::Line(l) => HeadEvent::Line(l@),
            ParseEvent::End => HeadEvent::End,
            ParseEvent::NeedMore => HeadEvent::NeedMore,
        }
    }
}

/// The incremental parser of a request head: how far into the buffer it has read, and the
/// lines it has read so far.
pub struct HeadParser {
    cursor: usize,
    lines: Vec<Vec<u8>>,
    /// The bytes handed over with `consume`, for `parse`.
    pending: Vec<u8>,
}

/// The state of a `HeadParser`.
pub struct HeadState {
    pub cursor: nat,
    pub lines: Seq<Seq<u8>>,
    /// The bytes handed over with `consume`, which `parse` reads.
    pub consumed: Seq<u8>,
}

/// The lines of a parser as sequences of bytes.
pub open spec fn lines_view(lines: Seq<Vec<u8>>) -> Seq<Seq<u8>> {
    lines.map_values(|l: Vec<u8>| l@)
}

impl View for HeadParser {
    type V = HeadState;

    closed spec fn view(&self) -> HeadState {
        HeadState {
            cursor: self.cursor as nat,
            lines: lines_view(self.lines@),
            consumed: self.pending@,
        }
    }
}

/// The state of a parser that has read nothing.
pub open spec fn initial_head_state() -> HeadState {
    HeadState { cursor: 0, lines: Seq::empty(), consumed: Seq::empty() }
}

/// One step of the parser on `buf`: from the cursor, find the next `\r\n`; an empty line ends
/// the head, any other line is stored; without a `\r\n` more bytes are needed. The cursor moves
/// past the `\r\n` that was found.
pub open spec fn advance_step(st: HeadState, buf: Seq<u8>) -> (HeadState, HeadEvent) {
    if st.cursor >= buf.len() {
        (st, HeadEvent::NeedMore)
    } else {
        match find_from(buf, crlf(), st.cursor) {
            None => (st, HeadEvent::NeedMore),
            Some(p) => if p == st.cursor {
                (HeadState { cursor: p + 2, ..st }, HeadEvent::End)
            } else {
                let line = buf.subrange(st.cursor as int, p as int);
                (HeadState { cursor: p + 2, lines: st.lines.push(line), ..st }, HeadEvent::Line(line))
            },
        }
    }
}

/// Advances the parser over `buf` line by line until the head ends or more bytes are needed.
pub open spec fn drain_head(st: HeadState, buf: Seq<u8>) -> (HeadState, HeadEvent)
    decreases buf.len() - st.cursor,
{
    let (st2, ev) = advance_step(st, buf);
    match ev {
        HeadEvent::Line(_) => {
            proof {
                lemma_find_from(buf, crlf(), st.cursor);
            }
            drain_head(st2, buf)
        },
        _ => (st2, ev),
    }
}

/// A head that the parser finished lies within the buffer.
pub proof fn lemma_drain_head_in_bounds(st: HeadState, buf: Seq<u8>)
    ensures
        drain_head(st, buf).1 is End ==> drain_head(st, buf).0.cursor <= buf.len(),
        drain_head(st, buf).1 is End || drain_head(st, buf).1 is NeedMore,
    decreases buf.len() - st.cursor,
{
    lemma_find_from(buf, crlf(), st.cursor);
    let (st2, ev) = advance_step(st, buf);
    if ev is Line {
        lemma_drain_head_in_bounds(st2, buf);
    }
}

/// Once `advance` has found a line or the end of the head in `buf`, bytes that arrive after
/// `buf` change nothing of that step.
pub proof fn lemma_advance_extend(st: HeadState, buf: Seq<u8>, more: Seq<u8>)
    requires
        !(advance_step(st, buf).1 is NeedMore),
    ensures
        advance_step(st, buf + more) == advance_step(st, buf),
{
    lemma_find_from_extend(buf, more, crlf(), st.cursor);
    lemma_find_from(buf, crlf(), st.cursor);
    let p = find_from(buf, crlf(), st.cursor).unwrap();
    assert((buf + more).subrange(st.cursor as int, p as int) =~= buf.subrange(
        st.cursor as int,
        p as int,
    ));
}

/// Reading a head in pieces ends where reading it at once ends: once the parser has read every
/// complete line of `b1`, reading on over `b1 + b2` gives what reading `b1 + b2` from the same
/// start gives.
pub proof fn lemma_drain_incremental(st: HeadState, b1: Seq<u8>, b2: Seq<u8>)
    requires
        drain_head(st, b1).1 is NeedMore,
    ensures
        drain_head(drain_head(st, b1).0, b1 + b2) == drain_head(st, b1 + b2),
    decreases b1.len() - st.cursor,
{
    let (st2, ev) = advance_step(st, b1);
    lemma_find_from(b1, crlf(), st.cursor);
    if ev is Line {
        lemma_advance_extend(st, b1, b2);
        lemma_drain_incremental(st2, b1, b2);
    }
}

/// A line that a head can carry: not empty, and without `\r\n` in it.
pub open spec fn is_head_line(l: Seq<u8>) -> bool {
    l.len() > 0 && forall|i: int| !#[trigger] occurs_at(l, crlf(), i)
}

/// The bytes of a head made of `lines`: each line followed by `\r\n`, then an empty line.
pub open spec fn head_bytes(lines: Seq<Seq<u8>>) -> Seq<u8>
    decreases lines.len(),
{
    if lines.len() == 0 {
        crlf()
    } else {
        lines[0] + crlf() + head_bytes(lines.drop_first())
    }
}

/// The first `\r\n` after a head line is the one that ends it.
pub proof fn lemma_line_then_crlf(pre: Seq<u8>, l: Seq<u8>, post: Seq<u8>)
    requires
        is_head_line(l),
    ensures
        find_from(pre + l + crlf() + post, crlf(), pre.len()) == Some(pre.len() + l.len()),
{
    let s = pre + l + crlf() + post;
    let c = pre.len() as int;
    assert(s.subrange(c + l.len() as int, c + l.len() + 2 as int) =~= crlf());
    assert forall|j: int| c <= j < c + l.len() implies !#[trigger] occurs_at(s, crlf(), j) by {
        if occurs_at(s, crlf(), j) {
            let sub = s.subrange(j, j + 2);
            assert(sub[0] == 13 && sub[1] == 10);
            if j + 1 < c + l.len() {
                assert(l.subrange(j - c, j - c + 2) =~= crlf());
                assert(occurs_at(l, crlf(), j - c));
            } else {
                assert(s[j + 1] == 13);
            }
        }
    }
    lemma_find_from_first(s, crlf(), pre.len(), (c + l.len()) as nat);
}

/// Serialize, then parse: a parser that reads the bytes of a head made of `lines`, starting
/// where those bytes start, stores exactly those lines and stops right after the empty line,
/// whatever precedes or follows the head.
pub proof fn lemma_head_roundtrip(
    st: HeadState,
    pre: Seq<u8>,
    lines: Seq<Seq<u8>>,
    rest: Seq<u8>,
)
    requires
        st.cursor == pre.len(),
        forall|i: int| 0 <= i < lines.len() ==> #[trigger] is_head_line(lines[i]),
    ensures
        drain_head(st, pre + head_bytes(lines) + rest) == (
            HeadState {
                cursor: pre.len() + head_bytes(lines).len(),
                lines: st.lines + lines,
                consumed: st.consumed,
            },
            HeadEvent::End,
        ),
    decreases lines.len(),
{
    let buf = pre + head_bytes(lines) + rest;
    let c = pre.len();
    if lines.len() == 0 {
        assert(buf.subrange(c as int, c + 2 as int) =~= crlf());
        lemma_find_from_first(buf, crlf(), c, c);
        assert(st.lines + lines =~= st.lines);
    } else {
        let l = lines[0];
        assert(is_head_line(lines[0]));
        let tail = lines.drop_first();
        let post = head_bytes(tail) + rest;
        assert(buf =~= pre + l + crlf() + post);
        lemma_line_then_crlf(pre, l, post);
        assert(buf.subrange(c as int, c + l.len() as int) =~= l);
        let st2 = HeadState { cursor: c + l.len() + 2, lines: st.lines.push(l), consumed: st.consumed };
        assert(find_from(buf, crlf(), st.cursor) == Some(c + l.len()));
        assert(st.cursor < buf.len());
        assert(l.len() > 0);
        assert(advance_step(st, buf) == (st2, HeadEvent::Line(l)));
        let pre2 = pre + l + crlf();
        assert(buf =~= pre2 + head_bytes(tail) + rest);
        assert forall|i: int| 0 <= i < tail.len() implies #[trigger] is_head_line(tail[i]) by {
            assert(tail[i] == lines[i + 1]);
        }
        lemma_find_from(buf, crlf(), st.cursor);
        lemma_head_roundtrip(st2, pre2, tail, rest);
        assert(st.lines.push(l) + tail =~= st.lines + lines);
    }
}

/// The name `Content-Length`.
pub open spec fn content_length_name() -> Seq<u8> {
    seq![67u8, 111, 110, 116, 101, 110, 116, 45, 76, 101, 110, 103, 116, 104]
}

/// The name `Transfer-Encoding`.
pub open spec fn transfer_encoding_name() -> Seq<u8> {
    seq![84u8, 114, 97, 110, 115, 102, 101, 114, 45, 69, 110, 99, 111, 100, 105, 110, 103]
}

/// The value `chunked`.
pub open spec fn chunked_value() -> Seq<u8> {
    seq![99u8, 104, 117, 110, 107, 101, 100]
}

/// The name `Connection`.
pub open spec fn connection_name() -> Seq<u8> {
    seq![67u8, 111, 110, 110, 101, 99, 116, 105, 111, 110]
}

/// The value `close`.
pub open spec fn close_value() -> Seq<u8> {
    seq![99u8, 108, 111, 115, 101]
}

/// The name `Host`.
pub open spec fn host_name() -> Seq<u8> {
    seq![72u8, 111, 115, 116]
}

/// What the header lines of a request have set so far.
pub struct HeaderFields {
    pub content_length: Option<usize>,
    pub chunked: bool,
    pub close: bool,
    pub host: Option<Seq<u8>>,
}

/// Nothing set.
pub open spec fn no_header_fields() -> HeaderFields {
    HeaderFields { content_length: None, chunked: false, close: false, host: None }
}

/// The name of a header line: what precedes its first `:`.
pub open spec fn header_name(line: Seq<u8>, colon: nat) -> Seq<u8> {
    line.take(colon as int)
}

/// The value of a header line: what follows its first `:`, without leading ASCII whitespace.
pub open spec fn header_value(line: Seq<u8>, colon: nat) -> Seq<u8> {
    trim_ascii_start(line.skip(colon + 1 as int))
}

/// The effect of one request header line. A line without `:` is ignored. `Content-Length`
/// must be a decimal `usize` (else the head is refused, `None`) and the last one counts;
/// `Transfer-Encoding: chunked` and `Connection: close` set their flags for good; the last
/// `Host` counts. Names and those two values are matched up to ASCII case.
pub open spec fn apply_request_header(acc: HeaderFields, line: Seq<u8>) -> Option<HeaderFields> {
    match find_from(line, seq![58u8], 0) {
        None => Some(acc),
        Some(c) => {
            let name = header_name(line, c);
            let value = header_value(line, c);
            if eq_ignore_ascii_case(name, content_length_name()) {
                match parse_unsigned(value, 10) {
                    Some(n) => Some(
                        HeaderFields {
                            content_length: Some(n),
                            chunked: acc.chunked,
                            close: acc.close,
                            host: acc.host,
                        },
                    ),
                    None => None,
                }
            } else if eq_ignore_ascii_case(name, transfer_encoding_name()) {
                if eq_ignore_ascii_case(value, chunked_value()) {
                    Some(
                        HeaderFields {
                            content_length: acc.content_length,
                            chunked: true,
                            close: acc.close,
                            host: acc.host,
                        },
                    )
                } else {
                    Some(acc)
                }
            } else if eq_ignore_ascii_case(name, connection_name()) {
                if eq_ignore_ascii_case(value, close_value()) {
                    Some(
                        HeaderFields {
                            content_length: acc.content_length,
                            chunked: acc.chunked,
                            close: true,
                            host: acc.host,
                        },
                    )
                } else {
                    Some(acc)
                }
            } else if eq_ignore_ascii_case(name, host_name()) {
                Some(
                    HeaderFields {
                        content_length: acc.content_length,
                        chunked: acc.chunked,
                        close: acc.close,
                        host: Some(value),
                    },
                )
            } else {
                Some(acc)
            }
        },
    }
}

/// The header lines `lines[i..]` applied in order to `acc`; `None` as soon as one is refused.
pub open spec fn fold_request_headers(acc: HeaderFields, lines: Seq<Seq<u8>>, i: nat) -> Option<
    HeaderFields,
>
    decreases lines.len() - i,
{
    if i >= lines.len() {
        Some(acc)
    } else {
        match apply_request_header(acc, lines[i as int]) {
            None => None,
            Some(a) => fold_request_headers(a, lines, i + 1),
        }
    }
}

/// The three parts of a request line: up to the first space, up to the next space, and the
/// rest (as `splitn(3, ' ')`, which must give three parts).
pub open spec fn split_request_line(line: Seq<u8>) -> Option<(Seq<u8>, Seq<u8>, Seq<u8>)> {
    match find_from(line, seq![32u8], 0) {
        None => None,
        Some(i) => match find_from(line, seq![32u8], i + 1) {
            None => None,
            Some(j) => Some(
                (
                    line.take(i as int),
                    line.subrange(i + 1 as int, j as int),
                    line.skip(j + 1 as int),
                ),
            ),
        },
    }
}

/// How the body is delimited: chunked encoding wins over any `Content-Length`.
pub open spec fn body_kind_of(f: HeaderFields) -> BodyKind {
    if f.chunked {
        BodyKind::Chunked
    } else {
        match f.content_length {
            Some(n) => BodyKind::ContentLength(n),
            None => BodyKind::NoBody,
        }
    }
}

/// The metadata of the request whose head consists of `lines` (request line first).
pub open spec fn request_meta_of(lines: Seq<Seq<u8>>) -> Result<SpecRequestMeta, ParseError> {
    if lines.len() == 0 {
        Err(ParseError::InvalidHeader)
    } else {
        match split_request_line(lines[0]) {
            None => Err(ParseError::InvalidHeader),
            Some((method, uri, version)) => match fold_request_headers(
                no_header_fields(),
                lines,
                1,
            ) {
                None => Err(ParseError::InvalidHeader),
                Some(f) => Ok(
                    SpecRequestMeta {
                        body_kind: body_kind_of(f),
                        connection_close: f.close,
                        host: f.host,
                        method,
                        uri,
                        http_version: version,
                    },
                ),
            },
        }
    }
}

/// The header fields of a request, as they are gathered.
struct HeaderAcc {
    content_length: Option<usize>,
    chunked: bool,
    close: bool,
    host: Option<Vec<u8>>,
}

impl View for HeaderAcc {
    type V = HeaderFields;

    closed spec fn view(&self) -> HeaderFields {
        HeaderFields {
            content_length: self.content_length,
            chunked: self.chunked,
            close: self.close,
            host: opt_bytes_view(self.host),
        }
    }
}

/// Applies one header line to `acc`; `None` when the line is refused.
fn apply_header_line(acc: HeaderAcc, line: &[u8]) -> (r: Option<HeaderAcc>)
    ensures
        match r {
            Some(a) => apply_request_header(acc@, line@) == Some(a@),
            None => apply_request_header(acc@, line@) is None,
        },
{
    let n = line.len();
    let colon = match find_byte(line, 58, 0) {
        None => {
            return Some(acc);
        },
        Some(c) => c,
    };
    proof {
        lemma_find_from(line@, seq![58u8], 0);
        assert(occurs_at(line@, seq![58u8], colon as int));
    }
    let name = &line[0..colon];
    let after = &line[colon + 1..line.len()];
    let k = ascii_whitespace_prefix_len(after);
    let value = &after[k..after.len()];
    assert(name@ =~= header_name(line@, colon as nat));
    assert(after@ =~= line@.skip(colon + 1));
    assert(value@ =~= after@.skip(k as int));
    assert(value@ == header_value(line@, colon as nat));
    let cl: [u8; 14] = [67, 111, 110, 116, 101, 110, 116, 45, 76, 101, 110, 103, 116, 104];
    let te: [u8; 17] = [84, 114, 97, 110, 115, 102, 101, 114, 45, 69, 110, 99, 111, 100, 105, 110, 103];
    let chunked: [u8; 7] = [99, 104, 117, 110, 107, 101, 100];
    let conn: [u8; 10] = [67, 111, 110, 110, 101, 99, 116, 105, 111, 110];
    let close: [u8; 5] = [99, 108, 111, 115, 101];
    let host: [u8; 4] = [72, 111, 115, 116];
    assert(cl@ =~= content_length_name());
    assert(te@ =~= transfer_encoding_name());
    assert(chunked@ =~= chunked_value());
    assert(conn@ =~= connection_name());
    assert(close@ =~= close_value());
    assert(host@ =~= host_name());
    if bytes_eq_ignore_ascii_case(name, &cl) {
        match parse_unsigned_bytes(value, 10) {
            Some(n) => Some(
                HeaderAcc {
                    content_length: Some(n),
                    chunked: acc.chunked,
                    close: acc.close,
                    host: acc.host,
                },
            ),
            None => None,
        }
    } else if bytes_eq_ignore_ascii_case(name, &te) {
        if bytes_eq_ignore_ascii_case(value, &chunked) {
            Some(
                HeaderAcc {
                    content_length: acc.content_length,
                    chunked: true,
                    close: acc.close,
                    host: acc.host,
                },
            )
        } else {
            Some(acc)
        }
    } else if bytes_eq_ignore_ascii_case(name, &conn) {
        if bytes_eq_ignore_ascii_case(value, &close) {
            Some(
                HeaderAcc {
                    content_length: acc.content_length,
                    chunked: acc.chunked,
                    close: true,
                    host: acc.host,
                },
            )
        } else {
            Some(acc)
        }
    } else if bytes_eq_ignore_ascii_case(name, &host) {
        Some(
            HeaderAcc {
                content_length: acc.content_length,
                chunked: acc.chunked,
                close: acc.close,
                host: Some(vstd::slice::slice_to_vec(value)),
            },
        )
    } else {
        Some(acc)
    }
}

/// The three parts of a request line, or `None` when it has fewer than two spaces.
fn split_line_in_three(line: &[u8]) -> (r: Option<(Vec<u8>, Vec<u8>, Vec<u8>)>)
    ensures
        match r {
            Some((a, b, c)) => split_request_line(line@) == Some((a@, b@, c@)),
            None => split_request_line(line@) is None,
        },
{
    let n = line.len();
    let i = match find_byte(line, 32, 0) {
        None => {
            return None;
        },
        Some(i) => i,
    };
    proof {
        lemma_find_from(line@, seq![32u8], 0);
        assert(occurs_at(line@, seq![32u8], i as int));
    }
    let j = match find_byte(line, 32, i + 1) {
        None => {
            return None;
        },
        Some(j) => j,
    };
    proof {
        lemma_find_from(line@, seq![32u8], (i + 1) as nat);
        assert(occurs_at(line@, seq![32u8], j as int));
    }
    let a = vstd::slice::slice_to_vec(&line[0..i]);
    let b = vstd::slice::slice_to_vec(&line[i + 1..j]);
    let c = vstd::slice::slice_to_vec(&line[j + 1..line.len()]);
    assert(a@ =~= line@.take(i as int));
    assert(c@ =~= line@.skip(j + 1));
    Some((a, b, c))
}

/// One step of the parser whose cursor and lines are given, over `buf` (see `advance_step`).
fn advance_over<'a>(cursor: &mut usize, lines: &mut Vec<Vec<u8>>, buf: &'a [u8]) -> (ev: ParseEvent<
    'a,
>)
    ensures
        ({
            let (st, e) = advance_step(
                HeadState {
                    cursor: *old(cursor) as nat,
                    lines: lines_view(old(lines)@),
                    consumed: Seq::empty(),
                },
                buf@,
            );
            &&& st.cursor == *final(cursor) as nat
            &&& st.lines == lines_view(final(lines)@)
            &&& e == ev@
        }),
{
    if *cursor >= buf.len() {
        return ParseEvent::NeedMore;
    }
    let pat: [u8; 2] = [13, 10];
    assert(pat@ =~= crlf());
    match find_bytes(buf, &pat, *cursor) {
        None => ParseEvent::NeedMore,
        Some(p) => {
            proof {
                lemma_find_from(buf@, crlf(), *cursor as nat);
            }
            assert(occurs_at(buf@, crlf(), p as int));
            if p == *cursor {
                *cursor = p + 2;
                ParseEvent::End
            } else {
                let line = &buf[*cursor..p];
                let ghost old_lines = lines@;
                lines.push(vstd::slice::slice_to_vec(line));
                assert(lines_view(lines@) =~= lines_view(old_lines).push(line@));
                *cursor = p + 2;
                ParseEvent::Line(line)
            }
        },
    }
}

impl HeadParser {
    /// A parser that has read nothing.
    pub fn new() -> (r: Self)
        ensures
            r@ == initial_head_state(),
    {
        let r = HeadParser { cursor: 0, lines: Vec::new(), pending: Vec::new() };
        assert(r@.lines =~= Seq::<Seq<u8>>::empty());
        r
    }

    /// How far into the buffer the parser has read.
    pub fn cursor(&self) -> (r: usize)
        ensures
            r == self@.cursor,
    {
        self.cursor
    }

    /// Reads the next line of `buf` from the cursor on (see `advance_step`): stores it and
    /// reports it, reports the end of the head on an empty line, or reports that more bytes
    /// are needed.
    pub fn advance<'a>(&mut self, buf: &'a [u8]) -> (ev: ParseEvent<'a>)
        ensures
            (final(self)@, ev@) == advance_step(old(self)@, buf@),
    {
        let ev = advance_over(&mut self.cursor, &mut self.lines, buf);
        assert(self@ == advance_step(old(self)@, buf@).0);
        ev
    }

    /// The lines read so far.
    pub fn lines(&self) -> (r: &Vec<Vec<u8>>)
        ensures
            lines_view(r@) == self@.lines,
    {
        &self.lines
    }

    /// Hands the parser more bytes of the head, for `parse` to read.
    pub fn consume(&mut self, bytes: &[u8])
        ensures
            final(self)@ == (HeadState { consumed: old(self)@.consumed + bytes@, ..old(self)@ }),
    {
        let mut more = vstd::slice::slice_to_vec(bytes);
        self.pending.append(&mut more);
    }

    /// `advance` over the bytes handed over with `consume`.
    pub fn parse(&mut self) -> (ev: ParseEvent<'_>)
        ensures
            (final(self)@, ev@) == advance_step(old(self)@, old(self)@.consumed),
    {
        let ev = advance_over(&mut self.cursor, &mut self.lines, self.pending.as_slice());
        assert(self@ == advance_step(old(self)@, old(self)@.consumed).0);
        ev
    }

    /// Reads the metadata of the request from the lines read so far (see `request_meta_of`).
    pub fn parse_request_meta(&self) -> (r: Result<RequestMeta, ParseError>)
        ensures
            match r {
                Ok(m) => request_meta_of(self@.lines) == Ok::<SpecRequestMeta, ParseError>(m@),
                Err(e) => e == ParseError::InvalidHeader && request_meta_of(self@.lines) is Err,
            },
    {
        if self.lines.len() == 0 {
            return Err(ParseError::InvalidHeader);
        }
        let (method, uri, http_version) = match split_line_in_three(self.lines[0].as_slice()) {
            None => {
                return Err(ParseError::InvalidHeader);
            },
            Some(parts) => parts,
        };
        let mut acc = HeaderAcc { content_length: None, chunked: false, close: false, host: None };
        let mut i: usize = 1;
        while i < self.lines.len()
            invariant
                1 <= i <= self@.lines.len(),
                self@.lines.len() == self.lines@.len(),
                fold_request_headers(no_header_fields(), self@.lines, 1) == fold_request_headers(
                    acc@,
                    self@.lines,
                    i as nat,
                ),
            decreases self.lines@.len() - i,
        {
            assert(self.lines[i as int]@ == self@.lines[i as int]);
            match apply_header_line(acc, self.lines[i].as_slice()) {
                None => {
                    return Err(ParseError::InvalidHeader);
                },
                Some(a) => {
                    acc = a;
                },
            }
            i = i + 1;
        }
        let body_kind = if acc.chunked {
            BodyKind::Chunked
        } else {
            match acc.content_length {
                Some(n) => BodyKind::ContentLength(n),
                None => BodyKind::NoBody,
            }
        };
        Ok(
            RequestMeta {
                body_kind,
                connection_close: acc.close,
                host: acc.host,
                method,
                uri,
                http_version,
            },
        )
    }
}

} // verus!
