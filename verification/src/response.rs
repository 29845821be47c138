//! Reading the metadata of an HTTP response head that a backend sent.

use vstd::prelude::*;
use crate::head::{close_value, connection_name, content_length_name};
use crate::scan::{find_byte, find_from, lemma_find_from, occurs_at};
use crate::text::{
    ascii_whitespace_prefix_len, bytes_eq_ignore_ascii_case, eq_ignore_ascii_case,
    parse_unsigned, parse_unsigned_bytes, trim_ascii_start, trim_whitespace,
    whitespace_trim_bounds,
};

verus! {

/// What the proxy needs of a response head: the length of the body, when it is given, and
/// whether the backend asked to close the connection.
#[derive(Debug, Clone, Copy, PartialEq, Eq, Structural)]
pub struct ResponseMeta {
    pub content_length: Option<usize>,
    pub connection_close: bool,
}

/// Nothing known of the response.
pub open spec fn empty_response_meta() -> ResponseMeta {
    ResponseMeta { content_length: None, connection_close: false }
}

/// The prefix `HTTP/` of a status line.
pub open spec fn http_prefix() -> Seq<u8> {
    seq![72u8, 84, 84, 80, 47]
}

/// `line` without one trailing `\r`.
pub open spec fn strip_cr(line: Seq<u8>) -> Seq<u8> {
    if line.len() > 0 && line.last() == 13 {
        line.drop_last()
    } else {
        line
    }
}

/// The effect of one line of a response head (split at `\n`). Empty lines, the status line
/// (it starts with `HTTP/`) and lines without `:` change nothing. A `Content-Length` whose
/// value, trimmed of whitespace at both ends, is a decimal `usize` sets the length (a value that
/// is not is ignored); `Connection: close` sets the flag for good. Names and `close` are
/// matched up to ASCII case.
pub open spec fn apply_response_line(acc: ResponseMeta, raw: Seq<u8>) -> ResponseMeta {
    let line = strip_cr(raw);
    if line.len() == 0 {
        acc
    } else if line.len() >= 5 && line.take(5) == http_prefix() {
        acc
    } else {
        match find_from(line, seq![58u8], 0) {
            None => acc,
            Some(c) => {
                let name = line.take(c as int);
                let value = trim_ascii_start(line.skip(c + 1 as int));
                if eq_ignore_ascii_case(name, content_length_name()) {
                    match parse_unsigned(trim_whitespace(value), 10) {
                        Some(n) => ResponseMeta {
                            content_length: Some(n),
                            connection_close: acc.connection_close,
                        },
                        None => acc,
                    }
                } else if eq_ignore_ascii_case(name, connection_name()) {
                    if eq_ignore_ascii_case(value, close_value()) {
                        ResponseMeta { content_length: acc.content_length, connection_close: true }
                    } else {
                        acc
                    }
                } else {
                    acc
                }
            },
        }
    }
}

/// The lines of `s` from `pos` on, split at `\n`, applied in order to `acc`.
pub open spec fn fold_response_lines(acc: ResponseMeta, s: Seq<u8>, pos: nat) -> ResponseMeta
    decreases s.len() - pos,
{
    if pos >= s.len() {
        acc
    } else {
        match find_from(s, seq![10u8], pos) {
            None => apply_response_line(acc, s.subrange(pos as int, s.len() as int)),
            Some(i) => {
                proof {
                    lemma_find_from(s, seq![10u8], pos);
                }
                fold_response_lines(
                    apply_response_line(acc, s.subrange(pos as int, i as int)),
                    s,
                    i + 1,
                )
            },
        }
    }
}

/// The metadata of the response head `headers`.
pub open spec fn response_meta_of(headers: Seq<u8>) -> ResponseMeta {
    fold_response_lines(empty_response_meta(), headers, 0)
}

/// Applies one line of a response head to `acc`.
fn apply_response_line_exec(acc: ResponseMeta, raw: &[u8]) -> (r: ResponseMeta)
    ensures
        r == apply_response_line(acc, raw@),
{
    let n = raw.len();
    let line: &[u8] = if n > 0 && raw[n - 1] == 13 {
        &raw[0..n - 1]
    } else {
        raw
    };
    assert(line@ =~= strip_cr(raw@));
    let len = line.len();
    if len == 0 {
        return acc;
    }
    if len >= 5 && line[0] == 72 && line[1] == 84 && line[2] == 84 && line[3] == 80 && line[4]
        == 47 {
        assert(line@.take(5) =~= http_prefix());
        return acc;
    }
    assert(len >= 5 ==> line@.take(5) != http_prefix()) by {
        if len >= 5 {
            let t = line@.take(5);
            if t == http_prefix() {
                assert(t[0] == 72 && t[1] == 84 && t[2] == 84 && t[3] == 80 && t[4] == 47);
            }
        }
    }
    let colon = match find_byte(line, 58, 0) {
        None => {
            return acc;
        },
        Some(c) => c,
    };
    proof {
        lemma_find_from(line@, seq![58u8], 0);
        assert(occurs_at(line@, seq![58u8], colon as int));
    }
    let name = &line[0..colon];
    let after = &line[colon + 1..len];
    let k = ascii_whitespace_prefix_len(after);
    let value = &after[k..after.len()];
    assert(name@ =~= line@.take(colon as int));
    assert(after@ =~= line@.skip(colon + 1));
    assert(value@ =~= after@.skip(k as int));
    let cl: [u8; 14] = [67, 111, 110, 116, 101, 110, 116, 45, 76, 101, 110, 103, 116, 104];
    let conn: [u8; 10] = [67, 111, 110, 110, 101, 99, 116, 105, 111, 110];
    let close: [u8; 5] = [99, 108, 111, 115, 101];
    assert(cl@ =~= content_length_name());
    assert(conn@ =~= connection_name());
    assert(close@ =~= close_value());
    if bytes_eq_ignore_ascii_case(name, &cl) {
        let (s, e) = whitespace_trim_bounds(value);
        let digits = &value[s..e];
        match parse_unsigned_bytes(digits, 10) {
            Some(v) => ResponseMeta { content_length: Some(v), connection_close: acc.connection_close },
            None => acc,
        }
    } else if bytes_eq_ignore_ascii_case(name, &conn) {
        if bytes_eq_ignore_ascii_case(value, &close) {
            ResponseMeta { content_length: acc.content_length, connection_close: true }
        } else {
            acc
        }
    } else {
        acc
    }
}

/// Reads the length of the body and the `Connection: close` flag from a response head (see
/// `response_meta_of`).
pub fn parse_response_headers(headers: &[u8]) -> (r: ResponseMeta)
    ensures
        r == response_meta_of(headers@),
{
    let n = headers.len();
    let mut acc = ResponseMeta { content_length: None, connection_close: false };
    let mut pos: usize = 0;
    while pos < n
        invariant
            n == headers@.len(),
            pos <= n,
            response_meta_of(headers@) == fold_response_lines(acc, headers@, pos as nat),
        decreases n - pos,
    {
        match find_byte(headers, 10, pos) {
            None => {
                let last = &headers[pos..n];
                return apply_response_line_exec(acc, last);
            },
            Some(i) => {
                proof {
                    lemma_find_from(headers@, seq![10u8], pos as nat);
                    assert(occurs_at(headers@, seq![10u8], i as int));
                }
                let line = &headers[pos..i];
                acc = apply_response_line_exec(acc, line);
                pos = i + 1;
            },
        }
    }
    acc
}

/// The status code `200`.
pub open spec fn ok_code() -> Seq<u8> {
    seq![50u8, 48, 48]
}

/// Whether `resp` starts with a status line whose code is `200`: it begins with `HTTP/`, and
/// its first space is followed by `200` and then a space, `\r`, or the end.
pub open spec fn status_ok(resp: Seq<u8>) -> bool {
    &&& resp.len() >= 5
    &&& resp.take(5) == http_prefix()
    &&& match find_from(resp, seq![32u8], 0) {
        Some(i) => {
            &&& i + 4 <= resp.len()
            &&& resp.subrange(i + 1 as int, i + 4 as int) == ok_code()
            &&& (i + 4 == resp.len() || resp[i + 4 as int] == 32 || resp[i + 4 as int] == 13)
        },
        None => false,
    }
}

/// Whether a health-check response reports success (see `status_ok`).
pub fn status_is_ok(resp: &[u8]) -> (r: bool)
    ensures
        r == status_ok(resp@),
{
    let n = resp.len();
    if n < 5 || !(resp[0] == 72 && resp[1] == 84 && resp[2] == 84 && resp[3] == 80 && resp[4]
        == 47) {
        proof {
            if n >= 5 && resp@.take(5) == http_prefix() {
                let t = resp@.take(5);
                assert(t[0] == 72 && t[1] == 84 && t[2] == 84 && t[3] == 80 && t[4] == 47);
            }
        }
        return false;
    }
    assert(resp@.take(5) =~= http_prefix());
    match find_byte(resp, 32, 0) {
        None => false,
        Some(i) => {
            if i > n - 4 {
                return false;
            }
            let code_ok = resp[i + 1] == 50 && resp[i + 2] == 48 && resp[i + 3] == 48;
            proof {
                let sub = resp@.subrange(i + 1 as int, i + 4 as int);
                if code_ok {
                    assert(sub =~= ok_code());
                } else if sub == ok_code() {
                    assert(sub[0] == 50 && sub[1] == 48 && sub[2] == 48);
                }
            }
            code_ok && (i + 4 == n || resp[i + 4] == 32 || resp[i + 4] == 13)
        },
    }
}

/// The lines of `s` from `pos` on, split at `\n` (the `\n`s left out; the last line is what
/// follows the last `\n`, when anything does).
pub open spec fn response_lines_from(s: Seq<u8>, pos: nat) -> Seq<Seq<u8>>
    decreases s.len() - pos,
{
    if pos >= s.len() {
        Seq::empty()
    } else {
        match find_from(s, seq![10u8], pos) {
            None => seq![s.subrange(pos as int, s.len() as int)],
            Some(i) => {
                proof {
                    lemma_find_from(s, seq![10u8], pos);
                }
                seq![s.subrange(pos as int, i as int)] + response_lines_from(s, i + 1)
            },
        }
    }
}

/// The name and value of a response header line: the line without a trailing `\r` is not
/// empty, is not a status line, and has a `:`; the name precedes it, and the value follows it
/// without leading ASCII whitespace.
pub open spec fn response_header(raw: Seq<u8>) -> Option<(Seq<u8>, Seq<u8>)> {
    let line = strip_cr(raw);
    if line.len() == 0 || (line.len() >= 5 && line.take(5) == http_prefix()) {
        None
    } else {
        match find_from(line, seq![58u8], 0) {
            None => None,
            Some(c) => Some((line.take(c as int), trim_ascii_start(line.skip(c + 1 as int)))),
        }
    }
}

/// The length that a response line gives: it is a `Content-Length` header whose value, trimmed
/// of whitespace at both ends, is a decimal `usize`.
pub open spec fn response_length_of(raw: Seq<u8>) -> Option<usize> {
    match response_header(raw) {
        Some((name, value)) => if eq_ignore_ascii_case(name, content_length_name()) {
            parse_unsigned(trim_whitespace(value), 10)
        } else {
            None
        },
        None => None,
    }
}

/// Whether a response line says `Connection: close` (up to ASCII case).
pub open spec fn response_says_close(raw: Seq<u8>) -> bool {
    match response_header(raw) {
        Some((name, value)) => eq_ignore_ascii_case(name, connection_name())
            && eq_ignore_ascii_case(value, close_value()),
        None => false,
    }
}

/// The length given by the last of `lines` that gives one.
pub open spec fn last_length(lines: Seq<Seq<u8>>) -> Option<usize>
    decreases lines.len(),
{
    if lines.len() == 0 {
        None
    } else {
        match response_length_of(lines.last()) {
            Some(n) => Some(n),
            None => last_length(lines.drop_last()),
        }
    }
}

/// One response line: it sets the length when it gives one, and the close flag when it says
/// `Connection: close`.
proof fn lemma_apply_response_line(acc: ResponseMeta, raw: Seq<u8>)
    ensures
        apply_response_line(acc, raw) == (ResponseMeta {
            content_length: match response_length_of(raw) {
                Some(n) => Some(n),
                None => acc.content_length,
            },
            connection_close: acc.connection_close || response_says_close(raw),
        }),
{
    assert(content_length_name().len() == 14);
    assert(connection_name().len() == 10);
}

/// The length given by a line followed by more lines: the last one among the later lines, or
/// else the first line's.
proof fn lemma_last_length_cons(l: Seq<u8>, rest: Seq<Seq<u8>>)
    ensures
        last_length(seq![l] + rest) == match last_length(rest) {
            Some(n) => Some(n),
            None => response_length_of(l),
        },
    decreases rest.len(),
{
    let all = seq![l] + rest;
    if rest.len() == 0 {
        assert(all.drop_last() =~= Seq::<Seq<u8>>::empty());
        assert(all.last() == l);
        assert(last_length(all.drop_last()) is None);
    } else {
        assert(all.last() == rest.last());
        assert(all.drop_last() =~= seq![l] + rest.drop_last());
        lemma_last_length_cons(l, rest.drop_last());
    }
}

/// Reading the lines of `s` from `pos` on: the connection is to close when `acc` says so or a
/// line says `Connection: close`; the length is the one the last line that gives one gives,
/// else the one of `acc`.
proof fn lemma_fold_response_lines(acc: ResponseMeta, s: Seq<u8>, pos: nat)
    ensures
        ({
            let ls = response_lines_from(s, pos);
            let r = fold_response_lines(acc, s, pos);
            &&& r.connection_close == (acc.connection_close || exists|k: int|
                0 <= k < ls.len() && response_says_close(#[trigger] ls[k]))
            &&& r.content_length == match last_length(ls) {
                Some(n) => Some(n),
                None => acc.content_length,
            }
        }),
    decreases s.len() - pos,
{
    if pos < s.len() {
        lemma_find_from(s, seq![10u8], pos);
        match find_from(s, seq![10u8], pos) {
            None => {
                let l = s.subrange(pos as int, s.len() as int);
                lemma_apply_response_line(acc, l);
                lemma_last_length_cons(l, Seq::empty());
                assert(seq![l] + Seq::<Seq<u8>>::empty() =~= seq![l]);
                assert(seq![l][0] == l);
            },
            Some(i) => {
                let l = s.subrange(pos as int, i as int);
                let a = apply_response_line(acc, l);
                lemma_apply_response_line(acc, l);
                lemma_fold_response_lines(a, s, i + 1);
                let rest = response_lines_from(s, i + 1);
                let ls = seq![l] + rest;
                lemma_last_length_cons(l, rest);
                assert(ls[0] == l);
                assert forall|k: int| 0 <= k < rest.len() implies ls[k + 1] == rest[k] by {}
                if exists|k: int| 0 <= k < ls.len() && response_says_close(#[trigger] ls[k]) {
                    let k = choose|k: int| 0 <= k < ls.len() && response_says_close(#[trigger] ls[k]);
                    if k > 0 {
                        assert(rest[k - 1] == ls[k]);
                    }
                }
                if exists|k: int| 0 <= k < rest.len() && response_says_close(#[trigger] rest[k]) {
                    let k = choose|k: int| 0 <= k < rest.len() && response_says_close(#[trigger] rest[k]);
                    assert(ls[k + 1] == rest[k]);
                }
            },
        }
    }
}

/// What a response head says, line by line (split at `\n`): the connection is to close
/// exactly when a header line says `Connection: close`; the length of the body is the one that
/// the last `Content-Length` line with a valid value gives (lines whose value is not a decimal
/// `usize` are skipped), and none when no line gives one. Status lines, empty lines and lines
/// without `:` are no header lines.
pub proof fn lemma_response_meta_lines(headers: Seq<u8>)
    ensures
        ({
            let ls = response_lines_from(headers, 0);
            let m = response_meta_of(headers);
            &&& m.connection_close == exists|k: int|
                0 <= k < ls.len() && response_says_close(#[trigger] ls[k])
            &&& m.content_length == last_length(ls)
        }),
{
    lemma_fold_response_lines(empty_response_meta(), headers, 0);
}

/// `last_length` is the length given by a line after which no line gives one; `None` when no
/// line gives one.
pub proof fn lemma_last_length(lines: Seq<Seq<u8>>)
    ensures
        match last_length(lines) {
            Some(n) => exists|k: int|
                0 <= k < lines.len() && response_length_of(#[trigger] lines[k]) == Some(n)
                    && forall|j: int| k < j < lines.len() ==> response_length_of(#[trigger] lines[j]) is None,
            None => forall|j: int| 0 <= j < lines.len() ==> response_length_of(#[trigger] lines[j]) is None,
        },
    decreases lines.len(),
{
    if lines.len() > 0 {
        let init = lines.drop_last();
        lemma_last_length(init);
        let last = lines.len() - 1;
        assert(lines[last] == lines.last());
        assert forall|j: int| 0 <= j < init.len() implies init[j] == lines[j] by {}
        if response_length_of(lines.last()) is None {
            if let Some(n) = last_length(init) {
                let k = choose|k: int|
                    0 <= k < init.len() && response_length_of(#[trigger] init[k]) == Some(n)
                        && forall|j: int| k < j < init.len() ==> response_length_of(#[trigger] init[j]) is None;
                assert(response_length_of(lines[k]) == Some(n));
                assert forall|j: int| k < j < lines.len() implies response_length_of(#[trigger] lines[j]) is None by {
                    if j < last {
                        assert(lines[j] == init[j]);
                    }
                }
            } else {
                assert forall|j: int| 0 <= j < lines.len() implies response_length_of(#[trigger] lines[j]) is None by {
                    if j < last {
                        assert(lines[j] == init[j]);
                    }
                }
            }
        }
    }
}

/// `resp[j]` is a space exactly where the one-byte pattern of a space occurs.
proof fn lemma_space_byte(resp: Seq<u8>, j: int)
    requires
        0 <= j < resp.len(),
    ensures
        occurs_at(resp, seq![32u8], j) <==> resp[j] == 32,
{
    assert(resp[j] == 32 ==> resp.subrange(j, j + 1) =~= seq![32u8]);
    if occurs_at(resp, seq![32u8], j) {
        assert(resp.subrange(j, j + 1)[0] == resp[j]);
    }
}

/// A health-check answer counts as success exactly when its bytes begin with `HTTP/` and its
/// first space is followed by the digits `2`, `0`, `0` and then a space, a `\r`, or the end:
/// any other status code, such as `500` or `2000`, is no success.
pub proof fn lemma_status_ok_bytes(resp: Seq<u8>)
    ensures
        status_ok(resp) <==> {
            &&& resp.len() >= 5
            &&& resp[0] == 72 && resp[1] == 84 && resp[2] == 84 && resp[3] == 80 && resp[4] == 47
            &&& exists|i: int|
                {
                    &&& 0 <= i && i + 4 <= resp.len()
                    &&& #[trigger] resp[i] == 32
                    &&& forall|j: int| 0 <= j < i ==> resp[j] != 32
                    &&& resp[i + 1] == 50 && resp[i + 2] == 48 && resp[i + 3] == 48
                    &&& (i + 4 == resp.len() || resp[i + 4] == 32 || resp[i + 4] == 13)
                }
        },
{
    if resp.len() >= 5 {
        let t = resp.take(5);
        assert(t[0] == resp[0] && t[1] == resp[1] && t[2] == resp[2] && t[3] == resp[3] && t[4]
            == resp[4]);
        if resp[0] == 72 && resp[1] == 84 && resp[2] == 84 && resp[3] == 80 && resp[4] == 47 {
            assert(t =~= http_prefix());
        }
    }
    lemma_find_from(resp, seq![32u8], 0);
    match find_from(resp, seq![32u8], 0) {
        Some(i) => {
            let i = i as int;
            lemma_space_byte(resp, i);
            assert forall|j: int| 0 <= j < i implies resp[j] != 32 by {
                lemma_space_byte(resp, j);
            }
            if i + 4 <= resp.len() {
                let sub = resp.subrange(i + 1, i + 4);
                assert(sub[0] == resp[i + 1] && sub[1] == resp[i + 2] && sub[2] == resp[i + 3]);
                if resp[i + 1] == 50 && resp[i + 2] == 48 && resp[i + 3] == 48 {
                    assert(sub =~= ok_code());
                }
            }
            if exists|a: int|
                {
                    &&& 0 <= a && a + 4 <= resp.len()
                    &&& #[trigger] resp[a] == 32
                    &&& forall|j: int| 0 <= j < a ==> resp[j] != 32
                    &&& resp[a + 1] == 50 && resp[a + 2] == 48 && resp[a + 3] == 48
                    &&& (a + 4 == resp.len() || resp[a + 4] == 32 || resp[a + 4] == 13)
                } {
                let a = choose|a: int|
                    {
                        &&& 0 <= a && a + 4 <= resp.len()
                        &&& #[trigger] resp[a] == 32
                        &&& forall|j: int| 0 <= j < a ==> resp[j] != 32
                        &&& resp[a + 1] == 50 && resp[a + 2] == 48 && resp[a + 3] == 48
                        &&& (a + 4 == resp.len() || resp[a + 4] == 32 || resp[a + 4] == 13)
                    };
                if a < i {
                    assert(resp[a] != 32);
                } else if a > i {
                    assert(resp[i] != 32);
                }
            }
        },
        None => {
            if exists|a: int|
                {
                    &&& 0 <= a && a + 4 <= resp.len()
                    &&& #[trigger] resp[a] == 32
                    &&& forall|j: int| 0 <= j < a ==> resp[j] != 32
                    &&& resp[a + 1] == 50 && resp[a + 2] == 48 && resp[a + 3] == 48
                    &&& (a + 4 == resp.len() || resp[a + 4] == 32 || resp[a + 4] == 13)
                } {
                let a = choose|a: int|
                    {
                        &&& 0 <= a && a + 4 <= resp.len()
                        &&& #[trigger] resp[a] == 32
                        &&& forall|j: int| 0 <= j < a ==> resp[j] != 32
                        &&& resp[a + 1] == 50 && resp[a + 2] == 48 && resp[a + 3] == 48
                        &&& (a + 4 == resp.len() || resp[a + 4] == 32 || resp[a + 4] == 13)
                    };
                lemma_space_byte(resp, a);
            }
        },
    }
}

} // verus!
