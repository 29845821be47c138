//! How the incremental parser of request heads behaves over many calls: the bytes before its
//! cursor are what it has reported, and reading a growing buffer in pieces reports what reading
//! it at once reports.

use vstd::prelude::*;
use crate::head::{
    advance_step, drain_head, initial_head_state, lemma_advance_extend, HeadEvent, HeadState,
};
use crate::scan::{
    crlf, double_crlf, find_first, find_from, is_prefix_of, lemma_find_from,
    lemma_find_from_first, occurs_at,
};

verus! {

/// The bytes that reported events stand for: each reported line followed by `\r\n`, and
/// `\r\n` for each end of a head (nothing for a request for more bytes).
pub open spec fn events_bytes(evs: Seq<HeadEvent>) -> Seq<u8>
    decreases evs.len(),
{
    if evs.len() == 0 {
        Seq::empty()
    } else {
        events_bytes(evs.drop_last()) + match evs.last() {
            HeadEvent::Line(l) => l + crlf(),
            HeadEvent::End => crlf(),
            HeadEvent::NeedMore => Seq::empty(),
        }
    }
}

/// The lines among reported events, in order.
pub open spec fn event_lines(evs: Seq<HeadEvent>) -> Seq<Seq<u8>>
    decreases evs.len(),
{
    if evs.len() == 0 {
        Seq::empty()
    } else {
        event_lines(evs.drop_last()) + match evs.last() {
            HeadEvent::Line(l) => seq![l],
            _ => Seq::empty(),
        }
    }
}

/// Each buffer is a prefix of the next: bytes only ever arrive at the end.
pub open spec fn growing(bufs: Seq<Seq<u8>>) -> bool {
    forall|k: int| 0 <= k < bufs.len() - 1 ==> is_prefix_of(#[trigger] bufs[k], bufs[k + 1])
}

/// The parser from `st` after one call of `advance` on each of `bufs`, in order, with the events
/// the calls reported.
pub open spec fn advance_each(st: HeadState, bufs: Seq<Seq<u8>>) -> (HeadState, Seq<HeadEvent>)
    decreases bufs.len(),
{
    if bufs.len() == 0 {
        (st, Seq::empty())
    } else {
        let (s1, evs) = advance_each(st, bufs.drop_last());
        let (s2, ev) = advance_step(s1, bufs.last());
        (s2, evs.push(ev))
    }
}

/// One call of `advance` keeps the parser over what it reported: if the bytes before the cursor
/// are what the events so far stand for, and its lines are the lines reported, then so they are
/// after the call, with the new event added.
proof fn lemma_step_layout(st: HeadState, buf: Seq<u8>, evs: Seq<HeadEvent>)
    requires
        st.cursor <= buf.len(),
        buf.take(st.cursor as int) == events_bytes(evs),
        st.lines == event_lines(evs),
    ensures
        ({
            let (s2, ev) = advance_step(st, buf);
            &&& s2.cursor <= buf.len()
            &&& buf.take(s2.cursor as int) == events_bytes(evs.push(ev))
            &&& s2.lines == event_lines(evs.push(ev))
        }),
{
    let (s2, ev) = advance_step(st, buf);
    let e2 = evs.push(ev);
    assert(e2.drop_last() =~= evs);
    lemma_find_from(buf, crlf(), st.cursor);
    let c = st.cursor as int;
    if ev is NeedMore {
        assert(events_bytes(e2) =~= events_bytes(evs));
        assert(event_lines(e2) =~= event_lines(evs));
    } else {
        let p = find_from(buf, crlf(), st.cursor).unwrap() as int;
        assert(occurs_at(buf, crlf(), p));
        assert(buf.subrange(p, p + 2) == crlf());
        if p == c {
            assert(buf.take(p + 2) =~= buf.take(c) + crlf());
            assert(event_lines(e2) =~= event_lines(evs));
        } else {
            let line = buf.subrange(c, p);
            assert(buf.take(p + 2) =~= buf.take(c) + (line + crlf()));
            assert(event_lines(e2) =~= event_lines(evs) + seq![line]);
            assert(st.lines.push(line) =~= event_lines(evs) + seq![line]);
        }
    }
}

/// Parser layout: a new parser that is handed a growing buffer, one `advance` call per
/// buffer, has its cursor within the last buffer; the bytes before the cursor are each reported
/// line followed by `\r\n` and `\r\n` for each reported end of a head, in the order reported;
/// and its lines are the reported lines.
pub proof fn lemma_parser_layout(bufs: Seq<Seq<u8>>)
    requires
        bufs.len() > 0,
        growing(bufs),
    ensures
        ({
            let (p, evs) = advance_each(initial_head_state(), bufs);
            &&& p.cursor <= bufs.last().len()
            &&& bufs.last().take(p.cursor as int) == events_bytes(evs)
            &&& p.lines == event_lines(evs)
        }),
    decreases bufs.len(),
{
    let init = bufs.drop_last();
    let last = bufs.last();
    let (s1, evs) = advance_each(initial_head_state(), init);
    if init.len() == 0 {
        assert(last.take(0) =~= events_bytes(Seq::<HeadEvent>::empty()));
        lemma_step_layout(initial_head_state(), last, evs);
    } else {
        assert forall|k: int| 0 <= k < init.len() - 1 implies is_prefix_of(
            #[trigger] init[k],
            init[k + 1],
        ) by {
            assert(init[k] == bufs[k] && init[k + 1] == bufs[k + 1]);
        }
        lemma_parser_layout(init);
        let prev = init.last();
        assert(prev == bufs[bufs.len() - 2]);
        assert(is_prefix_of(bufs[bufs.len() - 2], bufs[bufs.len() - 1]));
        assert(last.take(s1.cursor as int) =~= prev.take(s1.cursor as int));
        lemma_step_layout(s1, last, evs);
    }
}

/// The parser from `st` calling `advance` on `buf` until it reports that more bytes are
/// needed, with the events reported before that.
pub open spec fn advance_until_more(st: HeadState, buf: Seq<u8>) -> (HeadState, Seq<HeadEvent>)
    decreases buf.len() - st.cursor,
{
    let (s2, ev) = advance_step(st, buf);
    match ev {
        HeadEvent::NeedMore => (s2, Seq::empty()),
        _ => {
            proof {
                lemma_find_from(buf, crlf(), st.cursor);
            }
            let (s3, evs) = advance_until_more(s2, buf);
            (s3, seq![ev] + evs)
        },
    }
}

/// The parser from `st` reading each of `bufs` in turn until more bytes are needed, with all
/// the events reported.
pub open spec fn advance_pieces(st: HeadState, bufs: Seq<Seq<u8>>) -> (HeadState, Seq<HeadEvent>)
    decreases bufs.len(),
{
    if bufs.len() == 0 {
        (st, Seq::empty())
    } else {
        let (s1, e1) = advance_pieces(st, bufs.drop_last());
        let (s2, e2) = advance_until_more(s1, bufs.last());
        (s2, e1 + e2)
    }
}

/// Reading `b1` until more bytes are needed and then `b2`, of which `b1` is a prefix, reports
/// what reading `b2` at once reports and ends in the same state.
proof fn lemma_until_more_two(st: HeadState, b1: Seq<u8>, b2: Seq<u8>)
    requires
        is_prefix_of(b1, b2),
    ensures
        ({
            let (s1, e1) = advance_until_more(st, b1);
            let (s2, e2) = advance_until_more(s1, b2);
            (s2, e1 + e2) == advance_until_more(st, b2)
        }),
    decreases b1.len() - st.cursor,
{
    let (s1, ev) = advance_step(st, b1);
    lemma_find_from(b1, crlf(), st.cursor);
    assert(b2 =~= b1 + b2.skip(b1.len() as int));
    if ev is NeedMore {
        let (s2, e2) = advance_until_more(st, b2);
        assert(Seq::<HeadEvent>::empty() + e2 =~= e2);
    } else {
        lemma_advance_extend(st, b1, b2.skip(b1.len() as int));
        lemma_until_more_two(s1, b1, b2);
        let (t1, f1) = advance_until_more(s1, b1);
        let (t2, f2) = advance_until_more(t1, b2);
        assert(seq![ev] + f1 + f2 =~= seq![ev] + (f1 + f2));
    }
}

/// Incremental reading: handing the parser a growing buffer in any number of pieces, and
/// calling `advance` on each until it reports that more bytes are needed, reports the same lines
/// and ends of heads, and leaves the parser in the same state, as calling it on the last buffer
/// alone, even where a piece ends inside a `\r\n`.
pub proof fn lemma_pieces_read_as_whole(st: HeadState, bufs: Seq<Seq<u8>>)
    requires
        bufs.len() > 0,
        growing(bufs),
    ensures
        advance_pieces(st, bufs) == advance_until_more(st, bufs.last()),
    decreases bufs.len(),
{
    let init = bufs.drop_last();
    let last = bufs.last();
    if init.len() == 0 {
        assert(advance_pieces(st, init) == (st, Seq::<HeadEvent>::empty()));
        let (s2, e2) = advance_until_more(st, last);
        assert(Seq::<HeadEvent>::empty() + e2 =~= e2);
    } else {
        assert forall|k: int| 0 <= k < init.len() - 1 implies is_prefix_of(
            #[trigger] init[k],
            init[k + 1],
        ) by {
            assert(init[k] == bufs[k] && init[k + 1] == bufs[k + 1]);
        }
        lemma_pieces_read_as_whole(st, init);
        assert(init.last() == bufs[bufs.len() - 2]);
        assert(is_prefix_of(bufs[bufs.len() - 2], bufs[bufs.len() - 1]));
        lemma_until_more_two(st, init.last(), last);
        assert(advance_pieces(st, init) == advance_until_more(st, init.last()));
    }
}

/// `\r\n\r\n` starts at `j` in `buf`.
pub open spec fn blank_line_at(buf: Seq<u8>, j: int) -> bool {
    0 <= j && j + 4 <= buf.len() && buf[j] == 13 && buf[j + 1] == 10 && buf[j + 2] == 13 && buf[
        j + 3] == 10
}

/// A parser in the middle of a head in `buf`: its cursor is within `buf`; no `\r\n\r\n` lies
/// wholly before the cursor; and it has read nothing and stored no line, or what it read ends
/// with `\r\n` and it stored a line.
pub open spec fn reading_head(st: HeadState, buf: Seq<u8>) -> bool {
    &&& st.cursor <= buf.len()
    &&& forall|j: int| j + 4 <= st.cursor ==> !#[trigger] blank_line_at(buf, j)
    &&& {
        ||| st.cursor == 0 && st.lines.len() == 0
        ||| st.cursor >= 2 && st.lines.len() > 0 && buf[st.cursor - 2] == 13 && buf[st.cursor
            - 1] == 10
    }
}

/// `\r\n` at `k` in `s`, byte by byte.
proof fn lemma_crlf_bytes(s: Seq<u8>, k: int)
    ensures
        occurs_at(s, crlf(), k) <==> (0 <= k && k + 2 <= s.len() && s[k] == 13 && s[k + 1] == 10),
{
    if 0 <= k && k + 2 <= s.len() {
        if s[k] == 13 && s[k + 1] == 10 {
            assert(s.subrange(k, k + 2) =~= crlf());
        }
        if occurs_at(s, crlf(), k) {
            assert(s.subrange(k, k + 2)[0] == s[k] && s.subrange(k, k + 2)[1] == s[k + 1]);
        }
    }
}

/// `\r\n\r\n` at `j` in `s`, byte by byte.
proof fn lemma_blank_line_bytes(s: Seq<u8>, j: int)
    ensures
        occurs_at(s, double_crlf(), j) <==> blank_line_at(s, j),
{
    if 0 <= j && j + 4 <= s.len() {
        let t = s.subrange(j, j + 4);
        if blank_line_at(s, j) {
            assert(t =~= double_crlf());
        }
        if occurs_at(s, double_crlf(), j) {
            assert(t[0] == s[j] && t[1] == s[j + 1] && t[2] == s[j + 2] && t[3] == s[j + 3]);
        }
    }
}

/// More bytes at the end of the buffer leave a parser in the middle of a head there.
pub proof fn lemma_reading_head_extend(st: HeadState, buf: Seq<u8>, more: Seq<u8>)
    requires
        reading_head(st, buf),
    ensures
        reading_head(st, buf + more),
{
    let b2 = buf + more;
    assert forall|j: int| j + 4 <= st.cursor implies !#[trigger] blank_line_at(b2, j) by {
        if blank_line_at(b2, j) {
            assert(b2[j] == buf[j] && b2[j + 1] == buf[j + 1] && b2[j + 2] == buf[j + 2] && b2[j
                + 3] == buf[j + 3]);
            assert(blank_line_at(buf, j));
        }
    }
    if st.cursor >= 2 {
        assert(b2[st.cursor - 2] == buf[st.cursor - 2]);
        assert(b2[st.cursor - 1] == buf[st.cursor - 1]);
    }
}

/// One step of the parser in the middle of a head: a line keeps it in the middle of the head;
/// the end of a head after a stored line lies just past the first `\r\n\r\n` of `buf`.
proof fn lemma_step_reading_head(st: HeadState, buf: Seq<u8>)
    requires
        reading_head(st, buf),
    ensures
        ({
            let (s2, ev) = advance_step(st, buf);
            &&& ev is Line ==> reading_head(s2, buf)
            &&& ev is NeedMore ==> s2 == st
            &&& ev is End ==> s2.lines == st.lines
            &&& (ev is End && s2.lines.len() > 0) ==> s2.cursor >= 4 && find_first(
                buf,
                double_crlf(),
            ) == Some((s2.cursor - 4) as nat)
        }),
{
    let c = st.cursor as int;
    lemma_find_from(buf, crlf(), st.cursor);
    if st.cursor < buf.len() {
        if let Some(p) = find_from(buf, crlf(), st.cursor) {
            let p = p as int;
            lemma_crlf_bytes(buf, p);
            assert forall|k: int| c <= k < p implies !(#[trigger] buf[k] == 13 && buf[k + 1] == 10) by {
                lemma_crlf_bytes(buf, k);
            }
            if p == c {
                if st.lines.len() > 0 {
                    let j = c - 2;
                    assert(blank_line_at(buf, j));
                    assert forall|i: int| 0 <= i < j implies !#[trigger] occurs_at(
                        buf,
                        double_crlf(),
                        i,
                    ) by {
                        lemma_blank_line_bytes(buf, i);
                        if i + 4 > c {
                            assert(i == c - 3);
                        }
                    }
                    lemma_blank_line_bytes(buf, j);
                    lemma_find_from_first(buf, double_crlf(), 0, j as nat);
                }
            } else {
                let n2 = p + 2;
                assert forall|j: int| j + 4 <= n2 implies !#[trigger] blank_line_at(buf, j) by {
                    if blank_line_at(buf, j) && j + 4 > c {
                        if j + 2 >= c && j + 2 < p {
                            assert(buf[j + 2] == 13 && buf[j + 3] == 10);
                        } else if j + 2 == p {
                            if j >= c {
                                assert(buf[j] == 13 && buf[j + 1] == 10);
                            }
                        }
                    }
                }
            }
        }
    }
}

/// Reading a head to its end: a parser in the middle of a head either needs more bytes and stays
/// in the middle of it, or reaches the end of the head; when lines were read, it ends just past
/// the first `\r\n\r\n` of the buffer.
pub proof fn lemma_drain_reading_head(st: HeadState, buf: Seq<u8>)
    requires
        reading_head(st, buf),
    ensures
        ({
            let (s2, ev) = drain_head(st, buf);
            &&& ev is NeedMore ==> reading_head(s2, buf)
            &&& (ev is End && s2.lines.len() > 0) ==> s2.cursor >= 4 && find_first(
                buf,
                double_crlf(),
            ) == Some((s2.cursor - 4) as nat)
        }),
    decreases buf.len() - st.cursor,
{
    lemma_step_reading_head(st, buf);
    lemma_find_from(buf, crlf(), st.cursor);
    let (s1, ev) = advance_step(st, buf);
    if ev is Line {
        lemma_drain_reading_head(s1, buf);
    }
}

/// A new parser is in the middle of a head in any buffer.
pub proof fn lemma_initial_reading_head(buf: Seq<u8>)
    ensures
        reading_head(initial_head_state(), buf),
{
}

} // verus!
