//! What the metadata of a request head is, stated line by line: when a head is refused, where
//! the request line splits, and which header lines decide each field.

use vstd::prelude::*;
use crate::head::{
    apply_request_header, chunked_value, close_value, connection_name, content_length_name,
    fold_request_headers, header_name, header_value, host_name, no_header_fields,
    request_meta_of, split_request_line, transfer_encoding_name, BodyKind, HeaderFields,
};
use crate::scan::{find_from, lemma_find_from, occurs_at};
use crate::text::{
    eq_ignore_ascii_case, format_unsigned, lemma_format_digits,
    lemma_format_then_parse, parse_unsigned, trim_ascii_start,
};

verus! {

/// The position of the first `:` of a line.
pub open spec fn colon_of(line: Seq<u8>) -> Option<nat> {
    find_from(line, seq![58u8], 0)
}

/// Whether `line` is a header line whose name is `name` up to ASCII case.
pub open spec fn header_named(line: Seq<u8>, name: Seq<u8>) -> bool {
    match colon_of(line) {
        Some(c) => eq_ignore_ascii_case(header_name(line, c), name),
        None => false,
    }
}

/// The value of a header line: what follows its first `:`, without leading ASCII whitespace
/// (nothing, for a line without `:`).
pub open spec fn value_of(line: Seq<u8>) -> Seq<u8> {
    match colon_of(line) {
        Some(c) => header_value(line, c),
        None => Seq::empty(),
    }
}

/// Whether `line` is a header named `name` whose value is `value`, both up to ASCII case.
pub open spec fn header_says(line: Seq<u8>, name: Seq<u8>, value: Seq<u8>) -> bool {
    header_named(line, name) && eq_ignore_ascii_case(value_of(line), value)
}

/// A `Content-Length` line whose value is not a decimal `usize`.
pub open spec fn refused_content_length(line: Seq<u8>) -> bool {
    header_named(line, content_length_name()) && parse_unsigned(value_of(line), 10) is None
}

/// The index of the last of `lines[i..]` that is a header named `name`.
pub open spec fn last_named(lines: Seq<Seq<u8>>, i: nat, name: Seq<u8>) -> Option<nat>
    decreases lines.len() - i,
{
    if i >= lines.len() {
        None
    } else {
        match last_named(lines, i + 1, name) {
            Some(k) => Some(k),
            None => if header_named(lines[i as int], name) {
                Some(i)
            } else {
                None
            },
        }
    }
}

/// `last_named` finds the last matching line at or after `i`, and `None` when there is none.
pub proof fn lemma_last_named(lines: Seq<Seq<u8>>, i: nat, name: Seq<u8>)
    ensures
        match last_named(lines, i, name) {
            Some(k) => i <= k < lines.len() && header_named(lines[k as int], name) && forall|j: int|
                k < j < lines.len() ==> !header_named(#[trigger] lines[j], name),
            None => forall|j: int| i <= j < lines.len() ==> !header_named(#[trigger] lines[j], name),
        },
    decreases lines.len() - i,
{
    if i < lines.len() {
        lemma_last_named(lines, i + 1, name);
    }
}

/// The four names a request header is read for differ in length, so a line has at most one of
/// them.
proof fn lemma_names_differ()
    ensures
        content_length_name().len() == 14,
        transfer_encoding_name().len() == 17,
        connection_name().len() == 10,
        host_name().len() == 4,
{
}

/// The header lines `lines[i..]` applied to `acc`: they are refused exactly when one of them is
/// a `Content-Length` that is not a decimal `usize`; otherwise `Connection: close` and
/// `Transfer-Encoding: chunked` lines set their flags, and the last `Content-Length` and the
/// last `Host` line give their fields (else `acc` keeps its own).
proof fn lemma_fold_request_headers(acc: HeaderFields, lines: Seq<Seq<u8>>, i: nat)
    ensures
        fold_request_headers(acc, lines, i) is None <==> exists|k: int|
            i <= k < lines.len() && refused_content_length(#[trigger] lines[k]),
        fold_request_headers(acc, lines, i) matches Some(f) ==> {
            &&& f.close == (acc.close || exists|k: int|
                i <= k < lines.len() && header_says(
                    #[trigger] lines[k],
                    connection_name(),
                    close_value(),
                ))
            &&& f.chunked == (acc.chunked || exists|k: int|
                i <= k < lines.len() && header_says(
                    #[trigger] lines[k],
                    transfer_encoding_name(),
                    chunked_value(),
                ))
            &&& f.content_length == match last_named(lines, i, content_length_name()) {
                Some(k) => parse_unsigned(value_of(lines[k as int]), 10),
                None => acc.content_length,
            }
            &&& f.host == match last_named(lines, i, host_name()) {
                Some(k) => Some(value_of(lines[k as int])),
                None => acc.host,
            }
        },
    decreases lines.len() - i,
{
    lemma_names_differ();
    if i < lines.len() {
        let line = lines[i as int];
        match apply_request_header(acc, line) {
            None => {
                assert(refused_content_length(lines[i as int]));
            },
            Some(a) => {
                lemma_fold_request_headers(a, lines, i + 1);
                assert(!refused_content_length(line));
                if exists|k: int| i <= k < lines.len() && refused_content_length(#[trigger] lines[k]) {
                    let k = choose|k: int| i <= k < lines.len() && refused_content_length(#[trigger] lines[k]);
                    assert(k != i);
                }
                if let Some(f) = fold_request_headers(a, lines, i + 1) {
                    if exists|k: int|
                        i <= k < lines.len() && header_says(
                            #[trigger] lines[k],
                            connection_name(),
                            close_value(),
                        ) {
                        let k = choose|k: int|
                            i <= k < lines.len() && header_says(
                                #[trigger] lines[k],
                                connection_name(),
                                close_value(),
                            );
                        if k == i {
                            assert(a.close);
                        }
                    }
                    if exists|k: int|
                        i <= k < lines.len() && header_says(
                            #[trigger] lines[k],
                            transfer_encoding_name(),
                            chunked_value(),
                        ) {
                        let k = choose|k: int|
                            i <= k < lines.len() && header_says(
                                #[trigger] lines[k],
                                transfer_encoding_name(),
                                chunked_value(),
                            );
                        if k == i {
                            assert(a.chunked);
                        }
                    }
                }
            },
        }
    }
}

/// `line[j]` is a space exactly where the one-byte pattern of a space occurs.
proof fn lemma_space_at(line: Seq<u8>, j: int)
    requires
        0 <= j < line.len(),
    ensures
        occurs_at(line, seq![32u8], j) <==> line[j] == 32,
{
    assert(line[j] == 32 ==> line.subrange(j, j + 1) =~= seq![32u8]);
    if occurs_at(line, seq![32u8], j) {
        assert(line.subrange(j, j + 1)[0] == line[j]);
    }
}

/// A request line splits at its first two spaces: it can be split exactly when it holds two
/// spaces, and then it is the method, a space, the URI, a space and the version, with no space
/// in the method or the URI (the version keeps any further spaces).
pub proof fn lemma_split_request_line(line: Seq<u8>)
    ensures
        split_request_line(line) is Some <==> exists|i: int, j: int|
            0 <= i < j < line.len() && #[trigger] line[i] == 32 && #[trigger] line[j] == 32,
        split_request_line(line) matches Some((m, u, v)) ==> {
            &&& line == m + seq![32u8] + u + seq![32u8] + v
            &&& !m.contains(32u8)
            &&& !u.contains(32u8)
        },
{
    lemma_find_from(line, seq![32u8], 0);
    match find_from(line, seq![32u8], 0) {
        None => {
            if exists|i: int, j: int|
                0 <= i < j < line.len() && #[trigger] line[i] == 32 && #[trigger] line[j] == 32 {
                let (i, j) = choose|i: int, j: int|
                    0 <= i < j < line.len() && #[trigger] line[i] == 32 && #[trigger] line[j]
                        == 32;
                lemma_space_at(line, i);
            }
        },
        Some(i) => {
            lemma_find_from(line, seq![32u8], i + 1);
            lemma_space_at(line, i as int);
            match find_from(line, seq![32u8], i + 1) {
                None => {
                    if exists|a: int, b: int|
                        0 <= a < b < line.len() && #[trigger] line[a] == 32 && #[trigger] line[b]
                            == 32 {
                        let (a, b) = choose|a: int, b: int|
                            0 <= a < b < line.len() && #[trigger] line[a] == 32
                                && #[trigger] line[b] == 32;
                        lemma_space_at(line, a);
                        lemma_space_at(line, b);
                    }
                },
                Some(j) => {
                    lemma_space_at(line, j as int);
                    let m = line.take(i as int);
                    let u = line.subrange(i + 1 as int, j as int);
                    let v = line.skip(j + 1 as int);
                    assert(line =~= m + seq![32u8] + u + seq![32u8] + v);
                    assert forall|x: int| 0 <= x < m.len() implies m[x] != 32 by {
                        lemma_space_at(line, x);
                    }
                    assert forall|x: int| 0 <= x < u.len() implies u[x] != 32 by {
                        lemma_space_at(line, i + 1 + x);
                    }
                },
            }
        },
    }
}

/// A request head is refused exactly when it has no lines, its request line does not hold two
/// spaces, or one of its header lines is a `Content-Length` whose value is not a decimal
/// `usize` (empty, not all digits, with trailing bytes, or too large).
pub proof fn lemma_request_meta_refused(lines: Seq<Seq<u8>>)
    ensures
        request_meta_of(lines) is Err <==> {
            ||| lines.len() == 0
            ||| split_request_line(lines[0]) is None
            ||| exists|k: int| 1 <= k < lines.len() && refused_content_length(#[trigger] lines[k])
        },
{
    lemma_fold_request_headers(no_header_fields(), lines, 1);
}

/// The metadata of an accepted request head: the method, URI and version are the three parts
/// of the request line (raw bytes); the connection is to close exactly when a header line says
/// `Connection: close`; the body is chunked when a header line says
/// `Transfer-Encoding: chunked`, else it has the length of the last `Content-Length` line, else
/// there is none; the host is the value of the last `Host` line, if any. Names and the values
/// `close` and `chunked` are matched up to ASCII case.
pub proof fn lemma_request_meta_fields(lines: Seq<Seq<u8>>)
    requires
        request_meta_of(lines) is Ok,
    ensures
        ({
            let m = request_meta_of(lines)->Ok_0;
            let (method, uri, version) = split_request_line(lines[0]).unwrap();
            &&& m.method == method
            &&& m.uri == uri
            &&& m.http_version == version
            &&& m.connection_close == exists|k: int|
                1 <= k < lines.len() && header_says(
                    #[trigger] lines[k],
                    connection_name(),
                    close_value(),
                )
            &&& m.body_kind == if exists|k: int|
                1 <= k < lines.len() && header_says(
                    #[trigger] lines[k],
                    transfer_encoding_name(),
                    chunked_value(),
                ) {
                BodyKind::Chunked
            } else {
                match last_named(lines, 1, content_length_name()) {
                    Some(k) => BodyKind::ContentLength(
                        parse_unsigned(value_of(lines[k as int]), 10).unwrap(),
                    ),
                    None => BodyKind::NoBody,
                }
            }
            &&& m.host == match last_named(lines, 1, host_name()) {
                Some(k) => Some(value_of(lines[k as int])),
                None => None,
            }
        }),
{
    lemma_fold_request_headers(no_header_fields(), lines, 1);
    lemma_last_named(lines, 1, content_length_name());
    if let Some(k) = last_named(lines, 1, content_length_name()) {
        assert(!refused_content_length(lines[k as int]));
    }
}

/// Header lines from `j + 1` on are read as the lines from `j` on once line `k <= j` is
/// removed.
proof fn lemma_fold_shift(acc: HeaderFields, lines: Seq<Seq<u8>>, k: int, j: nat)
    requires
        0 <= k <= j,
        k < lines.len(),
    ensures
        fold_request_headers(acc, lines, j + 1) == fold_request_headers(acc, lines.remove(k), j),
    decreases lines.len() - j,
{
    let r = lines.remove(k);
    if j + 1 < lines.len() {
        assert(r[j as int] == lines[j + 1 as int]);
        match apply_request_header(acc, lines[j + 1 as int]) {
            None => {},
            Some(a) => {
                lemma_fold_shift(a, lines, k, j + 1);
            },
        }
    }
}

/// Removing a header line without `:` at `k` changes nothing of reading the lines from `i`
/// on, for `i <= k`.
proof fn lemma_fold_skip_colonless(acc: HeaderFields, lines: Seq<Seq<u8>>, k: int, i: nat)
    requires
        i <= k < lines.len(),
        colon_of(lines[k]) is None,
    ensures
        fold_request_headers(acc, lines, i) == fold_request_headers(acc, lines.remove(k), i),
    decreases k - i,
{
    let r = lines.remove(k);
    if i == k {
        lemma_fold_shift(acc, lines, k, i);
    } else {
        assert(r[i as int] == lines[i as int]);
        match apply_request_header(acc, lines[i as int]) {
            None => {},
            Some(a) => {
                lemma_fold_skip_colonless(a, lines, k, i + 1);
            },
        }
    }
}

/// A header line without `:` changes nothing: the head is read as if it were not there.
pub proof fn lemma_colonless_line_ignored(lines: Seq<Seq<u8>>, k: int)
    requires
        1 <= k < lines.len(),
        colon_of(lines[k]) is None,
    ensures
        request_meta_of(lines) == request_meta_of(lines.remove(k)),
{
    lemma_fold_skip_colonless(no_header_fields(), lines, k, 1);
    assert(lines.remove(k)[0] == lines[0]);
}


/// The header line `Content-Length: ` followed by the decimal digits of `n`.
pub open spec fn content_length_line(n: usize) -> Seq<u8> {
    content_length_name() + seq![58u8, 32u8] + format_unsigned(n as nat, 10)
}

/// A header `Content-Length: n`, with `n` written in decimal, is read as the length `n`: a
/// request head whose request line has two spaces and whose header is that line is accepted,
/// and its body has exactly `n` bytes.
pub proof fn lemma_content_length_read(request_line: Seq<u8>, n: usize)
    requires
        split_request_line(request_line) is Some,
    ensures
        request_meta_of(seq![request_line, content_length_line(n)]) matches Ok(m)
            && m.body_kind == BodyKind::ContentLength(n),
{
    let d = format_unsigned(n as nat, 10);
    lemma_format_digits(n as nat, 10);
    lemma_format_then_parse(n, 10);
    let line = content_length_line(n);
    let name = content_length_name();
    assert(line[14] == 58);
    assert forall|j: int| 0 <= j < 14 implies !#[trigger] occurs_at(line, seq![58u8], j) by {
        if occurs_at(line, seq![58u8], j) {
            assert(line.subrange(j, j + 1)[0] == line[j]);
            assert(line[j] == name[j]);
        }
    }
    assert(line.subrange(14, 15) =~= seq![58u8]);
    crate::scan::lemma_find_from_first(line, seq![58u8], 0, 14);
    assert(header_name(line, 14) =~= name);
    let rest = line.skip(15);
    assert(rest =~= seq![32u8] + d);
    assert(rest.drop_first() =~= d);
    assert(d[0] != 32 && d[0] != 9 && d[0] != 10 && d[0] != 12 && d[0] != 13);
    assert(trim_ascii_start(d) == d);
    assert(header_value(line, 14) == d);
    let lines = seq![request_line, line];
    assert(lines[1] == line);
    lemma_fold_request_headers(no_header_fields(), lines, 1);
    lemma_last_named(lines, 1, content_length_name());
    lemma_names_differ();
    assert(header_named(line, content_length_name()));
    assert(last_named(lines, 2, content_length_name()) is None);
    assert(last_named(lines, 1, content_length_name()) == Some(1nat));
    assert(!header_says(line, transfer_encoding_name(), chunked_value()));
}

} // verus!
