//! The decisions that the proxy takes for one client connection, as a state machine. The
//! driver performs the I/O that each `Action` asks for and hands what came of it back as an
//! `Event`; `Connection::step` then decides what to do next.
//!
//! A connection reads a request head, reads the body that the head announces, picks a healthy
//! backend (reusing an idle connection to it, or connecting), hands the request verbatim to it,
//! relays the response head and exactly the body the response announces, and then either
//! closes or goes on with the next request, which may already be in what the client sent.

use vstd::prelude::*;
use crate::chunked::{
    chunked_body_end, chunked_complete, chunked_end, form_bytes, form_ok, is_chunked_body_complete,
    lemma_chunked_end_alone, lemma_chunked_grammar, ChunkedForm,
};
use crate::head::{
    drain_head, initial_head_state, lemma_drain_head_in_bounds, request_meta_of,
    BodyKind, HeadEvent, HeadParser, HeadState, ParseEvent, RequestMeta, SpecRequestMeta,
};
use crate::response::{parse_response_headers, response_meta_of};
use crate::parser_laws::{
    lemma_drain_reading_head, lemma_initial_reading_head, lemma_reading_head_extend, reading_head,
};
use crate::scan::{
    crlf, double_crlf, find_bytes, find_first, lemma_find_first_take, lemma_find_from,
    lemma_find_from_extend, is_prefix_of, occurs_at,
};

verus! {

/// Where a connection stands.
#[derive(Debug, Clone, Copy, PartialEq, Eq, Structural)]
pub enum Phase {
    Idle,
    ReadingHeaders,
    ReadingBody,
    WaitingBackend,
    BorrowingIdle,
    Connecting,
    MarkingHealthy,
    MarkingUnhealthy,
    ReadingResponseHeaders,
    ReadingResponseBody,
    KeepAliveDecision,
    Closed,
}

/// What the driver must do next.
pub enum Action {
    /// Read from the client, and report `Event::ClientRead` with the bytes read (none when the
    /// client closed the connection).
    ReadClient,
    /// Ask the backend pool for the next healthy backend, and report `Event::BackendPicked`
    /// with its index, or `Event::NoBackend`.
    PickBackend,
    /// Take an idle connection to this backend from the pool of idle connections, and report
    /// `Event::IdleFound` or `Event::IdleMissing`.
    BorrowIdle(usize),
    /// Open a connection to this backend, and report `Event::Connected` or
    /// `Event::ConnectFailed`.
    Connect(usize),
    /// Mark this backend healthy in the backend pool, and report `Event::Marked`.
    MarkHealthy(usize),
    /// Mark this backend unhealthy in the backend pool, and report `Event::Marked`.
    MarkUnhealthy(usize),
    /// Write these bytes to the backend, and report `Event::Sent`.
    SendBackend(Vec<u8>),
    /// Read from the backend, and report `Event::BackendRead` with the bytes read (none when
    /// the backend closed the connection or the read failed).
    ReadBackend,
    /// Write these bytes to the client, and report `Event::Sent`.
    SendClient(Vec<u8>),
    /// Give the connection to this backend back to the pool of idle connections, and report
    /// `Event::Released`.
    ReleaseBackend(usize),
    /// The connection is over.
    Finish,
    /// The connection is in a state it should never be in.
    Fail,
}

/// What came of the last action.
pub enum Event {
    ClientRead(Vec<u8>),
    BackendPicked(usize),
    NoBackend,
    IdleFound,
    IdleMissing,
    Connected,
    ConnectFailed,
    Marked,
    BackendRead(Vec<u8>),
    Sent,
    Released,
}

/// `Action` with its bytes as sequences.
pub enum SpecAction {
    ReadClient,
    PickBackend,
    BorrowIdle(usize),
    Connect(usize),
    MarkHealthy(usize),
    MarkUnhealthy(usize),
    SendBackend(Seq<u8>),
    ReadBackend,
    SendClient(Seq<u8>),
    ReleaseBackend(usize),
    Finish,
    Fail,
}

/// `Event` with its bytes as sequences.
pub enum SpecEvent {
    ClientRead(Seq<u8>),
    BackendPicked(usize),
    NoBackend,
    IdleFound,
    IdleMissing,
    Connected,
    ConnectFailed,
    Marked,
    BackendRead(Seq<u8>),
    Sent,
    Released,
}

impl View for Action {
    type V = SpecAction;

    open spec fn view(&self) -> SpecAction {
        match self {
            Action::ReadClient => SpecAction::ReadClient,
            Action::PickBackend => SpecAction::PickBackend,
            Action::BorrowIdle(i) => SpecAction::BorrowIdle(*i),
            Action::Connect(i) => SpecAction::Connect(*i),
            Action::MarkHealthy(i) => SpecAction::MarkHealthy(*i),
            Action::MarkUnhealthy(i) => SpecAction::MarkUnhealthy(*i),
            Action::SendBackend(b) => SpecAction::SendBackend(b@),
            Action::ReadBackend => SpecAction::ReadBackend,
            Action::SendClient(b) => SpecAction::SendClient(b@),
            Action::ReleaseBackend(i) => SpecAction::ReleaseBackend(*i),
            Action::Finish => SpecAction::Finish,
            Action::Fail => SpecAction::Fail,
        }
    }
}

impl View for Event {
    type V = SpecEvent;

    open spec fn view(&self) -> SpecEvent {
        match self {
            Event::ClientRead(b) => SpecEvent::ClientRead(b@),
            Event::BackendPicked(i) => SpecEvent::BackendPicked(*i),
            Event::NoBackend => SpecEvent::NoBackend,
            Event::IdleFound => SpecEvent::IdleFound,
            Event::IdleMissing => SpecEvent::IdleMissing,
            Event::Connected => SpecEvent::Connected,
            Event::ConnectFailed => SpecEvent::ConnectFailed,
            Event::Marked => SpecEvent::Marked,
            Event::BackendRead(b) => SpecEvent::BackendRead(b@),
            Event::Sent => SpecEvent::Sent,
            Event::Released => SpecEvent::Released,
        }
    }
}

/// The state of one client connection.
pub struct Connection {
    phase: Phase,
    /// The bytes of the request head read so far.
    buf: Vec<u8>,
    parser: HeadParser,
    meta: Option<RequestMeta>,
    /// The request head, as the client sent it.
    raw_headers: Vec<u8>,
    /// Everything the client sent after the head: the body, and whatever followed it.
    body: Vec<u8>,
    /// What the client sent after the request that went to the backend: the start of the
    /// next request.
    pipelined: Vec<u8>,
    /// The index of the backend serving the request.
    backend: usize,
    /// The response read so far, until its head is complete.
    resp_buf: Vec<u8>,
    /// How many bytes of the response body are still to be relayed.
    remaining: usize,
    /// Whether the client or the backend asked to close the connection.
    should_close: bool,
    /// Every byte the client sent since the current request began.
    received: Ghost<Seq<u8>>,
    /// Every byte the backend sent since the current request was handed to it.
    from_backend: Ghost<Seq<u8>>,
    /// Every byte relayed to the client since then.
    to_client: Ghost<Seq<u8>>,
    /// How many bytes of the response go to the client: the head plus the announced length.
    expected: Ghost<nat>,
}

/// The state of a connection.
pub struct ConnView {
    pub phase: Phase,
    pub buf: Seq<u8>,
    pub parser: HeadState,
    pub meta: Option<SpecRequestMeta>,
    pub raw_headers: Seq<u8>,
    pub body: Seq<u8>,
    pub pipelined: Seq<u8>,
    pub backend: usize,
    pub resp_buf: Seq<u8>,
    pub remaining: nat,
    pub should_close: bool,
    pub received: Seq<u8>,
    pub from_backend: Seq<u8>,
    pub to_client: Seq<u8>,
    pub expected: nat,
}

/// The view of an optional request metadata.
pub open spec fn opt_meta_view(m: Option<RequestMeta>) -> Option<SpecRequestMeta> {
    match m {
        Some(x) => Some(x@),
        None => None,
    }
}

impl View for Connection {
    type V = ConnView;

    closed spec fn view(&self) -> ConnView {
        ConnView {
            phase: self.phase,
            buf: self.buf@,
            parser: self.parser@,
            meta: opt_meta_view(self.meta),
            raw_headers: self.raw_headers@,
            body: self.body@,
            pipelined: self.pipelined@,
            backend: self.backend,
            resp_buf: self.resp_buf@,
            remaining: self.remaining as nat,
            should_close: self.should_close,
            received: self.received@,
            from_backend: self.from_backend@,
            to_client: self.to_client@,
            expected: self.expected@,
        }
    }
}

/// A new connection: it starts by reading a request head.
pub open spec fn initial_conn() -> ConnView {
    ConnView {
        phase: Phase::ReadingHeaders,
        buf: Seq::empty(),
        parser: initial_head_state(),
        meta: None,
        raw_headers: Seq::empty(),
        body: Seq::empty(),
        pipelined: Seq::empty(),
        backend: 0,
        resp_buf: Seq::empty(),
        remaining: 0,
        should_close: false,
        received: Seq::empty(),
        from_backend: Seq::empty(),
        to_client: Seq::empty(),
        expected: 0,
    }
}

/// `v` in phase `p`, all else unchanged.
pub open spec fn with_phase(v: ConnView, p: Phase) -> ConnView {
    ConnView { phase: p, ..v }
}

/// The way the body of the request in `v` is delimited (none when no request was read).
pub open spec fn request_body_kind(v: ConnView) -> BodyKind {
    match v.meta {
        Some(m) => m.body_kind,
        None => BodyKind::NoBody,
    }
}

/// Whether the client asked to close the connection.
pub open spec fn request_wants_close(v: ConnView) -> bool {
    match v.meta {
        Some(m) => m.connection_close,
        None => false,
    }
}

/// Whether `body` holds all of a body delimited as `kind`.
pub open spec fn body_complete(kind: BodyKind, body: Seq<u8>) -> bool {
    match kind {
        BodyKind::NoBody => true,
        BodyKind::ContentLength(n) => body.len() >= n,
        BodyKind::Chunked => chunked_complete(body),
    }
}

/// How many of the bytes after the head belong to the request's body: none, the announced
/// length, or up to the end of the chunked encoding (at most all of them).
pub open spec fn request_body_len(kind: BodyKind, body: Seq<u8>) -> nat {
    match kind {
        BodyKind::NoBody => 0,
        BodyKind::ContentLength(n) => if n <= body.len() {
            n as nat
        } else {
            body.len()
        },
        BodyKind::Chunked => match chunked_end(body) {
            Some(e) => if e <= body.len() {
                e
            } else {
                body.len()
            },
            None => body.len(),
        },
    }
}

/// The request that goes to the backend: the raw head and the body, without what follows it.
pub open spec fn request_bytes_of(v: ConnView) -> Seq<u8> {
    v.raw_headers + v.body.take(request_body_len(request_body_kind(v), v.body) as int)
}

/// What the client sent after the request: the start of the next one.
pub open spec fn pipelined_of(v: ConnView) -> Seq<u8> {
    v.body.skip(request_body_len(request_body_kind(v), v.body) as int)
}

/// The first I/O that a connection in state `v` needs, after the moves that need none: a
/// complete body leads to picking a backend, and a keep-alive decision to close leads to the
/// end.
pub open spec fn settle(v: ConnView) -> (ConnView, SpecAction) {
    match v.phase {
        Phase::Idle => (v, SpecAction::Fail),
        Phase::ReadingHeaders => (v, SpecAction::ReadClient),
        Phase::ReadingBody => if body_complete(request_body_kind(v), v.body) {
            (with_phase(v, Phase::WaitingBackend), SpecAction::PickBackend)
        } else {
            (v, SpecAction::ReadClient)
        },
        Phase::WaitingBackend => (v, SpecAction::PickBackend),
        Phase::BorrowingIdle => (v, SpecAction::BorrowIdle(v.backend)),
        Phase::Connecting => (v, SpecAction::Connect(v.backend)),
        Phase::MarkingHealthy => (v, SpecAction::MarkHealthy(v.backend)),
        Phase::MarkingUnhealthy => (v, SpecAction::MarkUnhealthy(v.backend)),
        Phase::ReadingResponseHeaders => (v, SpecAction::ReadBackend),
        Phase::ReadingResponseBody => (v, SpecAction::ReadBackend),
        Phase::KeepAliveDecision => if v.should_close {
            (with_phase(v, Phase::Closed), SpecAction::Finish)
        } else {
            (v, SpecAction::ReleaseBackend(v.backend))
        },
        Phase::Closed => (v, SpecAction::Finish),
    }
}

/// The parser reads every complete line of the head buffer. A complete head whose metadata
/// cannot be read closes the connection; one that can be read splits the buffer into the raw
/// head and what follows it, and the body is read next. Otherwise more bytes are needed.
pub open spec fn process_head(v: ConnView) -> (ConnView, SpecAction) {
    let (ps, ev) = drain_head(v.parser, v.buf);
    match ev {
        HeadEvent::End => match request_meta_of(ps.lines) {
            Err(_) => (ConnView { phase: Phase::Closed, parser: ps, ..v }, SpecAction::Finish),
            Ok(m) => settle(
                ConnView {
                    phase: Phase::ReadingBody,
                    buf: Seq::empty(),
                    parser: initial_head_state(),
                    meta: Some(m),
                    raw_headers: v.buf.take(ps.cursor as int),
                    body: v.buf.skip(ps.cursor as int),
                    ..v
                },
            ),
        },
        _ => (ConnView { parser: ps, ..v }, SpecAction::ReadClient),
    }
}

/// Bytes `d` from the client while a head is read: at the end of the stream the connection
/// closes; otherwise they join the head buffer, which is processed (see `process_head`).
pub open spec fn head_read(v: ConnView, d: Seq<u8>) -> (ConnView, SpecAction) {
    if d.len() == 0 {
        (with_phase(v, Phase::Closed), SpecAction::Finish)
    } else {
        process_head(ConnView { buf: v.buf + d, received: v.received + d, ..v })
    }
}

/// Bytes `d` from the client while the body is read: they join the body, or, at the end of
/// the stream, the connection closes.
pub open spec fn body_read(v: ConnView, d: Seq<u8>) -> (ConnView, SpecAction) {
    if d.len() == 0 {
        (with_phase(v, Phase::Closed), SpecAction::Finish)
    } else {
        settle(ConnView { body: v.body + d, received: v.received + d, ..v })
    }
}

/// The backend was marked healthy: the request (the raw head and exactly its body) goes to
/// it, what followed the body is kept for the next request, and the response is read next.
pub open spec fn send_request(v: ConnView) -> (ConnView, SpecAction) {
    (
        ConnView {
            phase: Phase::ReadingResponseHeaders,
            pipelined: pipelined_of(v),
            resp_buf: Seq::empty(),
            from_backend: Seq::empty(),
            to_client: Seq::empty(),
            ..v
        },
        SpecAction::SendBackend(request_bytes_of(v)),
    )
}

/// Bytes `d` from the backend while the response head is read. At the end of the stream the
/// connection closes. Once the buffer holds `\r\n\r\n`, the connection is to close if the
/// client or the backend asked for it. A response that announces a length gets the head and
/// at most that many bytes relayed: all of them now if they have arrived, otherwise what has
/// arrived, and the rest next. A response without a length gets what has arrived.
pub open spec fn response_head_read(v: ConnView, d: Seq<u8>) -> (ConnView, SpecAction) {
    if d.len() == 0 {
        (with_phase(v, Phase::Closed), SpecAction::Finish)
    } else {
        let rb = v.resp_buf + d;
        let fb = v.from_backend + d;
        match find_first(rb, double_crlf()) {
            None => (ConnView { resp_buf: rb, from_backend: fb, ..v }, SpecAction::ReadBackend),
            Some(end) => {
                let head = rb.take(end + 4 as int);
                let initial = rb.skip(end + 4 as int);
                let rm = response_meta_of(head);
                let close = request_wants_close(v) || rm.connection_close;
                match rm.content_length {
                    Some(total) => if initial.len() < total {
                        (
                            ConnView {
                                phase: Phase::ReadingResponseBody,
                                resp_buf: rb,
                                remaining: (total - initial.len()) as nat,
                                should_close: close,
                                from_backend: fb,
                                to_client: v.to_client + rb,
                                expected: (head.len() + total) as nat,
                                ..v
                            },
                            SpecAction::SendClient(rb),
                        )
                    } else {
                        let out = rb.take(head.len() + total);
                        (
                            ConnView {
                                phase: Phase::KeepAliveDecision,
                                resp_buf: rb,
                                should_close: close,
                                from_backend: fb,
                                to_client: v.to_client + out,
                                expected: (head.len() + total) as nat,
                                ..v
                            },
                            SpecAction::SendClient(out),
                        )
                    },
                    None => (
                        ConnView {
                            phase: Phase::KeepAliveDecision,
                            resp_buf: rb,
                            should_close: close,
                            from_backend: fb,
                            to_client: v.to_client + rb,
                            expected: rb.len(),
                            ..v
                        },
                        SpecAction::SendClient(rb),
                    ),
                }
            },
        }
    }
}

/// Bytes `d` from the backend while the response body is relayed: at most the rest of the
/// announced length goes to the client; once it is all relayed, the response is done. At the
/// end of the stream the connection closes.
pub open spec fn response_body_read(v: ConnView, d: Seq<u8>) -> (ConnView, SpecAction) {
    if d.len() == 0 {
        (with_phase(v, Phase::Closed), SpecAction::Finish)
    } else {
        let w = if d.len() < v.remaining {
            d.len()
        } else {
            v.remaining
        };
        let rem = (v.remaining - w) as nat;
        let out = d.take(w as int);
        (
            ConnView {
                phase: if rem == 0 {
                    Phase::KeepAliveDecision
                } else {
                    Phase::ReadingResponseBody
                },
                remaining: rem,
                from_backend: v.from_backend + d,
                to_client: v.to_client + out,
                ..v
            },
            SpecAction::SendClient(out),
        )
    }
}

/// A connection kept alive: the next request head starts with what the client sent after
/// the last request, read by a new parser.
pub open spec fn reset_for_next(v: ConnView) -> ConnView {
    ConnView {
        phase: Phase::ReadingHeaders,
        buf: v.pipelined,
        parser: initial_head_state(),
        pipelined: Seq::empty(),
        received: v.pipelined,
        ..v
    }
}

/// What a connection in state `v` does with event `e`: the next state and the next action.
/// An event that does not answer the pending action changes nothing.
pub open spec fn step_spec(v: ConnView, e: SpecEvent) -> (ConnView, SpecAction) {
    match (v.phase, e) {
        (Phase::ReadingHeaders, SpecEvent::ClientRead(d)) => head_read(v, d),
        (Phase::ReadingBody, SpecEvent::ClientRead(d)) => body_read(v, d),
        (Phase::WaitingBackend, SpecEvent::BackendPicked(i)) => (
            ConnView { phase: Phase::BorrowingIdle, backend: i, ..v },
            SpecAction::BorrowIdle(i),
        ),
        (Phase::WaitingBackend, SpecEvent::NoBackend) => (
            with_phase(v, Phase::Closed),
            SpecAction::Finish,
        ),
        (Phase::BorrowingIdle, SpecEvent::IdleFound) => (
            with_phase(v, Phase::MarkingHealthy),
            SpecAction::MarkHealthy(v.backend),
        ),
        (Phase::BorrowingIdle, SpecEvent::IdleMissing) => (
            with_phase(v, Phase::Connecting),
            SpecAction::Connect(v.backend),
        ),
        (Phase::Connecting, SpecEvent::Connected) => (
            with_phase(v, Phase::MarkingHealthy),
            SpecAction::MarkHealthy(v.backend),
        ),
        (Phase::Connecting, SpecEvent::ConnectFailed) => (
            with_phase(v, Phase::MarkingUnhealthy),
            SpecAction::MarkUnhealthy(v.backend),
        ),
        (Phase::MarkingUnhealthy, SpecEvent::Marked) => (
            with_phase(v, Phase::Closed),
            SpecAction::Finish,
        ),
        (Phase::MarkingHealthy, SpecEvent::Marked) => send_request(v),
        (Phase::ReadingResponseHeaders, SpecEvent::BackendRead(d)) => response_head_read(v, d),
        (Phase::ReadingResponseBody, SpecEvent::BackendRead(d)) => response_body_read(v, d),
        (Phase::KeepAliveDecision, SpecEvent::Released) => process_head(reset_for_next(v)),
        _ => settle(v),
    }
}

/// Advances `parser` over `buf` until the head ends (`true`) or more bytes are needed
/// (`false`); see `drain_head`.
fn drain_parser(parser: &mut HeadParser, buf: &[u8]) -> (ended: bool)
    ensures
        drain_head(old(parser)@, buf@) == (final(parser)@, if ended {
            HeadEvent::End
        } else {
            HeadEvent::NeedMore
        }),
        ended ==> final(parser)@.cursor <= buf@.len(),
{
    loop
        invariant
            drain_head(parser@, buf@) == drain_head(old(parser)@, buf@),
        decreases buf@.len() - parser@.cursor,
    {
        let ghost st = parser@;
        let ev = parser.advance(buf);
        proof {
            lemma_find_from(buf@, crlf(), st.cursor);
        }
        match ev {
            ParseEvent::Line(_) => {},
            ParseEvent::NeedMore => {
                return false;
            },
            ParseEvent::End => {
                return true;
            },
        }
    }
}

impl Connection {
    /// A new connection, about to read a request head.
    pub fn new() -> (r: Self)
        ensures
            r@ == initial_conn(),
    {
        Connection {
            phase: Phase::ReadingHeaders,
            buf: Vec::new(),
            parser: HeadParser::new(),
            meta: None,
            raw_headers: Vec::new(),
            body: Vec::new(),
            pipelined: Vec::new(),
            backend: 0,
            resp_buf: Vec::new(),
            remaining: 0,
            should_close: false,
            received: Ghost(Seq::empty()),
            from_backend: Ghost(Seq::empty()),
            to_client: Ghost(Seq::empty()),
            expected: Ghost(0),
        }
    }

    /// Where the connection stands.
    pub fn phase(&self) -> (r: Phase)
        ensures
            r == self@.phase,
    {
        self.phase
    }

    /// The metadata of the request being served, once its head was read.
    pub fn request_meta(&self) -> (r: Option<&RequestMeta>)
        ensures
            match r {
                Some(m) => self@.meta == Some(m@),
                None => self@.meta is None,
            },
    {
        match &self.meta {
            Some(m) => Some(m),
            None => None,
        }
    }

    /// The first action of the connection in its current state (see `settle`).
    pub fn start(&mut self) -> (a: Action)
        ensures
            (final(self)@, a@) == settle(old(self)@),
    {
        self.settle()
    }

    /// Moves on without I/O where the state allows it, and returns the I/O needed next.
    fn settle(&mut self) -> (a: Action)
        ensures
            (final(self)@, a@) == settle(old(self)@),
    {
        match self.phase {
            Phase::Idle => Action::Fail,
            Phase::ReadingHeaders => Action::ReadClient,
            Phase::ReadingBody => {
                let complete = match &self.meta {
                    Some(m) => match m.body_kind {
                        BodyKind::NoBody => true,
                        BodyKind::ContentLength(n) => self.body.len() >= n,
                        BodyKind::Chunked => is_chunked_body_complete(self.body.as_slice()),
                    },
                    None => true,
                };
                if complete {
                    self.phase = Phase::WaitingBackend;
                    Action::PickBackend
                } else {
                    Action::ReadClient
                }
            },
            Phase::WaitingBackend => Action::PickBackend,
            Phase::BorrowingIdle => Action::BorrowIdle(self.backend),
            Phase::Connecting => Action::Connect(self.backend),
            Phase::MarkingHealthy => Action::MarkHealthy(self.backend),
            Phase::MarkingUnhealthy => Action::MarkUnhealthy(self.backend),
            Phase::ReadingResponseHeaders => Action::ReadBackend,
            Phase::ReadingResponseBody => Action::ReadBackend,
            Phase::KeepAliveDecision => {
                if self.should_close {
                    self.phase = Phase::Closed;
                    Action::Finish
                } else {
                    Action::ReleaseBackend(self.backend)
                }
            },
            Phase::Closed => Action::Finish,
        }
    }

    /// Reads the complete lines of the head buffer (see `process_head`).
    fn process_head(&mut self) -> (a: Action)
        requires
            old(self)@.phase == Phase::ReadingHeaders,
        ensures
            (final(self)@, a@) == process_head(old(self)@),
    {
        let ended = drain_parser(&mut self.parser, self.buf.as_slice());
        if !ended {
            return Action::ReadClient;
        }
        match self.parser.parse_request_meta() {
            Err(_) => {
                self.phase = Phase::Closed;
                Action::Finish
            },
            Ok(m) => {
                let cursor = self.parser.cursor();
                let mut head: Vec<u8> = Vec::new();
                std::mem::swap(&mut head, &mut self.buf);
                let body = head.split_off(cursor);
                self.raw_headers = head;
                self.body = body;
                self.meta = Some(m);
                self.parser = HeadParser::new();
                self.phase = Phase::ReadingBody;
                self.settle()
            },
        }
    }

    /// Bytes from the client while a head is read (see `head_read`).
    fn on_head_bytes(&mut self, d: Vec<u8>) -> (a: Action)
        requires
            old(self)@.phase == Phase::ReadingHeaders,
        ensures
            (final(self)@, a@) == head_read(old(self)@, d@),
    {
        if d.len() == 0 {
            self.phase = Phase::Closed;
            return Action::Finish;
        }
        let mut d = d;
        let ghost dv = d@;
        self.buf.append(&mut d);
        self.received = Ghost(self.received@ + dv);
        self.process_head()
    }

    /// The request's body length (see `request_body_len`).
    fn body_len(&self) -> (r: usize)
        ensures
            r == request_body_len(request_body_kind(self@), self@.body),
    {
        match &self.meta {
            Some(m) => match m.body_kind {
                BodyKind::NoBody => 0,
                BodyKind::ContentLength(n) => if n <= self.body.len() {
                    n
                } else {
                    self.body.len()
                },
                BodyKind::Chunked => match chunked_body_end(self.body.as_slice()) {
                    Some(e) => if e <= self.body.len() {
                        e
                    } else {
                        self.body.len()
                    },
                    None => self.body.len(),
                },
            },
            None => 0,
        }
    }

    /// Hands the request to the backend (see `send_request`).
    fn on_backend_ready(&mut self) -> (a: Action)
        ensures
            (final(self)@, a@) == send_request(old(self)@),
    {
        let blen = self.body_len();
        let mut req = vstd::slice::slice_to_vec(self.raw_headers.as_slice());
        let mut used = vstd::slice::slice_to_vec(&self.body.as_slice()[0..blen]);
        req.append(&mut used);
        let rest = vstd::slice::slice_to_vec(&self.body.as_slice()[blen..self.body.len()]);
        assert(rest@ =~= pipelined_of(old(self)@));
        assert(req@ =~= request_bytes_of(old(self)@));
        self.pipelined = rest;
        self.phase = Phase::ReadingResponseHeaders;
        self.resp_buf = Vec::new();
        self.from_backend = Ghost(Seq::empty());
        self.to_client = Ghost(Seq::empty());
        Action::SendBackend(req)
    }

    /// Bytes from the backend while the response head is read (see `response_head_read`).
    fn on_response_head_bytes(&mut self, d: Vec<u8>) -> (a: Action)
        requires
            old(self)@.phase == Phase::ReadingResponseHeaders,
        ensures
            (final(self)@, a@) == response_head_read(old(self)@, d@),
    {
        if d.len() == 0 {
            self.phase = Phase::Closed;
            return Action::Finish;
        }
        let mut d = d;
        let ghost dv = d@;
        self.resp_buf.append(&mut d);
        self.from_backend = Ghost(self.from_backend@ + dv);
        let pat: [u8; 4] = [13, 10, 13, 10];
        assert(pat@ =~= double_crlf());
        match find_bytes(self.resp_buf.as_slice(), &pat, 0) {
            None => Action::ReadBackend,
            Some(end) => {
                proof {
                    lemma_find_from(self.resp_buf@, double_crlf(), 0);
                }
                assert(occurs_at(self.resp_buf@, double_crlf(), end as int));
                let n = self.resp_buf.len();
                let rb = self.resp_buf.as_slice();
                let head_len = end + 4;
                let head = &rb[0..head_len];
                let initial_len = n - head_len;
                let rm = parse_response_headers(head);
                let req_close = match &self.meta {
                    Some(m) => m.connection_close,
                    None => false,
                };
                self.should_close = req_close || rm.connection_close;
                match rm.content_length {
                    Some(total) => {
                        if initial_len < total {
                            let out = vstd::slice::slice_to_vec(rb);
                            self.phase = Phase::ReadingResponseBody;
                            self.remaining = total - initial_len;
                            self.expected = Ghost((head_len + total) as nat);
                            self.to_client = Ghost(self.to_client@ + out@);
                            Action::SendClient(out)
                        } else {
                            let out = vstd::slice::slice_to_vec(&rb[0..head_len + total]);
                            assert(out@ =~= rb@.take(head_len + total));
                            self.phase = Phase::KeepAliveDecision;
                            self.expected = Ghost((head_len + total) as nat);
                            self.to_client = Ghost(self.to_client@ + out@);
                            Action::SendClient(out)
                        }
                    },
                    None => {
                        let out = vstd::slice::slice_to_vec(rb);
                        self.phase = Phase::KeepAliveDecision;
                        self.expected = Ghost(n as nat);
                        self.to_client = Ghost(self.to_client@ + out@);
                        Action::SendClient(out)
                    },
                }
            },
        }
    }

    /// Bytes from the backend while the response body is relayed (see `response_body_read`).
    fn on_response_body_bytes(&mut self, d: Vec<u8>) -> (a: Action)
        requires
            old(self)@.phase == Phase::ReadingResponseBody,
        ensures
            (final(self)@, a@) == response_body_read(old(self)@, d@),
    {
        if d.len() == 0 {
            self.phase = Phase::Closed;
            return Action::Finish;
        }
        let ghost dv = d@;
        let w = if d.len() < self.remaining {
            d.len()
        } else {
            self.remaining
        };
        let mut out = d;
        out.truncate(w);
        self.remaining = self.remaining - w;
        self.from_backend = Ghost(self.from_backend@ + dv);
        self.to_client = Ghost(self.to_client@ + out@);
        if self.remaining == 0 {
            self.phase = Phase::KeepAliveDecision;
        }
        Action::SendClient(out)
    }

    /// Takes the outcome of the last action and decides what to do next (see `step_spec`).
    pub fn step(&mut self, event: Event) -> (a: Action)
        ensures
            (final(self)@, a@) == step_spec(old(self)@, event@),
    {
        match (self.phase, event) {
            (Phase::ReadingHeaders, Event::ClientRead(d)) => self.on_head_bytes(d),
            (Phase::ReadingBody, Event::ClientRead(d)) => {
                if d.len() == 0 {
                    self.phase = Phase::Closed;
                    return Action::Finish;
                }
                let mut d = d;
                let ghost dv = d@;
                self.body.append(&mut d);
                self.received = Ghost(self.received@ + dv);
                self.settle()
            },
            (Phase::WaitingBackend, Event::BackendPicked(i)) => {
                self.phase = Phase::BorrowingIdle;
                self.backend = i;
                Action::BorrowIdle(i)
            },
            (Phase::WaitingBackend, Event::NoBackend) => {
                self.phase = Phase::Closed;
                Action::Finish
            },
            (Phase::BorrowingIdle, Event::IdleFound) => {
                self.phase = Phase::MarkingHealthy;
                Action::MarkHealthy(self.backend)
            },
            (Phase::BorrowingIdle, Event::IdleMissing) => {
                self.phase = Phase::Connecting;
                Action::Connect(self.backend)
            },
            (Phase::Connecting, Event::Connected) => {
                self.phase = Phase::MarkingHealthy;
                Action::MarkHealthy(self.backend)
            },
            (Phase::Connecting, Event::ConnectFailed) => {
                self.phase = Phase::MarkingUnhealthy;
                Action::MarkUnhealthy(self.backend)
            },
            (Phase::MarkingUnhealthy, Event::Marked) => {
                self.phase = Phase::Closed;
                Action::Finish
            },
            (Phase::MarkingHealthy, Event::Marked) => self.on_backend_ready(),
            (Phase::ReadingResponseHeaders, Event::BackendRead(d)) => self.on_response_head_bytes(d),
            (Phase::ReadingResponseBody, Event::BackendRead(d)) => self.on_response_body_bytes(d),
            (Phase::KeepAliveDecision, Event::Released) => {
                let mut next: Vec<u8> = Vec::new();
                std::mem::swap(&mut next, &mut self.pipelined);
                self.received = Ghost(next@);
                self.buf = next;
                self.pipelined = Vec::new();
                self.parser = HeadParser::new();
                self.phase = Phase::ReadingHeaders;
                self.process_head()
            },
            _ => self.settle(),
        }
    }
}

/// The phases in which a request head has been read and the request is being served.
pub open spec fn serving(p: Phase) -> bool {
    p == Phase::ReadingBody || p == Phase::WaitingBackend || p == Phase::BorrowingIdle || p
        == Phase::Connecting || p == Phase::MarkingHealthy || p == Phase::MarkingUnhealthy
        || p == Phase::ReadingResponseHeaders || p == Phase::ReadingResponseBody || p
        == Phase::KeepAliveDecision
}

/// The phases in which a backend is being acquired for a complete request.
pub open spec fn acquiring(p: Phase) -> bool {
    p == Phase::WaitingBackend || p == Phase::BorrowingIdle || p == Phase::Connecting || p
        == Phase::MarkingHealthy || p == Phase::MarkingUnhealthy
}

/// The phases after the request went to the backend.
pub open spec fn responding(p: Phase) -> bool {
    p == Phase::ReadingResponseHeaders || p == Phase::ReadingResponseBody || p
        == Phase::KeepAliveDecision
}

/// Where the head of a response ends in `resp`: just past its first `\r\n\r\n`.
pub open spec fn response_head_end(resp: Seq<u8>) -> Option<nat> {
    match find_first(resp, double_crlf()) {
        Some(end) => Some(end + 4),
        None => None,
    }
}

/// The response in `resp` has a complete head, and when the head announces a length, `expected`
/// is the head plus that length.
pub open spec fn response_length_known(resp: Seq<u8>, expected: nat) -> bool {
    match response_head_end(resp) {
        Some(h) => match response_meta_of(resp.take(h as int)).content_length {
            Some(n) => expected == h + n,
            None => true,
        },
        None => false,
    }
}

/// More bytes of a response whose head is complete change neither where its head ends nor what
/// the head says.
proof fn lemma_response_head_extend(resp: Seq<u8>, more: Seq<u8>)
    requires
        response_head_end(resp) is Some,
    ensures
        response_head_end(resp + more) == response_head_end(resp),
        ({
            let h = response_head_end(resp).unwrap();
            (resp + more).take(h as int) == resp.take(h as int)
        }),
{
    lemma_find_from(resp, double_crlf(), 0);
    lemma_find_from_extend(resp, more, double_crlf(), 0);
    let h = response_head_end(resp).unwrap();
    assert((resp + more).take(h as int) =~= resp.take(h as int));
}

/// What holds of a connection at every step. It is never idle. The head buffer holds exactly
/// what the client sent for the current request, and so do the raw head and what followed it
/// once the head is read; a backend is only sought for a complete body; once the request went
/// out, what the client sent after it is kept for the next request. The response buffer holds
/// exactly what the backend sent. While the body of a response is relayed, the client has been
/// sent exactly what the backend sent, and that plus what remains is the head plus the
/// announced length; once the response is done, the client has been sent exactly that many
/// bytes of what the backend sent.
pub open spec fn conn_inv(v: ConnView) -> bool {
    &&& v.phase != Phase::Idle
    &&& v.phase == Phase::ReadingHeaders ==> v.buf == v.received && reading_head(v.parser, v.buf)
    &&& serving(v.phase) ==> v.raw_headers + v.body == v.received
    &&& serving(v.phase) ==> v.raw_headers.len() >= 4 && find_first(v.raw_headers, double_crlf())
        == Some((v.raw_headers.len() - 4) as nat)
    &&& acquiring(v.phase) ==> body_complete(request_body_kind(v), v.body)
    &&& responding(v.phase) ==> v.pipelined == pipelined_of(v)
    &&& v.phase == Phase::ReadingResponseHeaders ==> find_first(v.from_backend, double_crlf())
        is None
    &&& (v.phase == Phase::ReadingResponseBody || v.phase == Phase::KeepAliveDecision)
        ==> response_length_known(v.from_backend, v.expected)
    &&& v.phase == Phase::ReadingResponseBody ==> response_meta_of(
        v.from_backend.take(response_head_end(v.from_backend).unwrap() as int),
    ).content_length is Some
    &&& v.phase == Phase::ReadingResponseHeaders ==> v.resp_buf == v.from_backend
        && v.to_client.len() == 0
    &&& v.phase == Phase::ReadingResponseBody ==> v.to_client == v.from_backend
        && v.to_client.len() + v.remaining == v.expected
    &&& v.phase == Phase::KeepAliveDecision ==> is_prefix_of(v.to_client, v.from_backend)
        && v.to_client.len() == v.expected
}

/// A new connection satisfies the invariant.
pub proof fn lemma_initial_conn_inv()
    ensures
        conn_inv(initial_conn()),
{
}

/// Processing a head buffer that holds what the client sent keeps the invariant.
proof fn lemma_process_head_inv(v: ConnView)
    requires
        v.phase == Phase::ReadingHeaders,
        v.buf == v.received,
        reading_head(v.parser, v.buf),
    ensures
        conn_inv(process_head(v).0),
        !(process_head(v).1 is Fail),
{
    lemma_drain_head_in_bounds(v.parser, v.buf);
    lemma_drain_reading_head(v.parser, v.buf);
    let (ps, ev) = drain_head(v.parser, v.buf);
    if ev is End {
        assert(v.buf.take(ps.cursor as int) + v.buf.skip(ps.cursor as int) =~= v.buf);
        if request_meta_of(ps.lines) is Ok {
            lemma_find_first_take(v.buf, double_crlf(), ps.cursor as int);
        }
    }
}

/// Reading bytes of a response head keeps the invariant, and what goes to the client is
/// appended to the record of what it was sent.
proof fn lemma_response_head_inv(v: ConnView, d: Seq<u8>)
    requires
        conn_inv(v),
        v.phase == Phase::ReadingResponseHeaders,
    ensures
        conn_inv(response_head_read(v, d).0),
        response_head_read(v, d).1 matches SpecAction::SendClient(bytes) ==> response_head_read(
            v,
            d,
        ).0.to_client == v.to_client + bytes,
{
    if d.len() > 0 {
        let rb = v.resp_buf + d;
        lemma_find_from(rb, double_crlf(), 0);
        match find_first(rb, double_crlf()) {
            None => {},
            Some(end) => {
                assert(v.to_client + rb =~= rb);
                assert(rb.take(rb.len() as int) =~= rb);
                let head = rb.take(end + 4 as int);
                let rm = response_meta_of(head);
                if let Some(total) = rm.content_length {
                    if rb.len() - head.len() >= total {
                        let out = rb.take(head.len() + total);
                        assert(v.to_client + out =~= out);
                        assert(rb.take(out.len() as int) =~= out);
                    }
                }
            },
        }
    }
}

/// Every step keeps the invariant and never fails. What a connection hands to a backend is
/// the raw head the client sent and exactly the body it announced, and that plus what is kept
/// for the next request is all the client sent (nothing is lost, nothing added); what it
/// relays to the client is appended to the record of what the client was sent.
pub proof fn lemma_step_keeps_invariant(v: ConnView, e: SpecEvent)
    requires
        conn_inv(v),
    ensures
        conn_inv(step_spec(v, e).0),
        !(step_spec(v, e).1 is Fail),
        step_spec(v, e).1 matches SpecAction::SendBackend(bytes) ==> bytes
            == v.raw_headers + v.body.take(request_body_len(request_body_kind(v), v.body) as int)
            && bytes + step_spec(v, e).0.pipelined == v.received,
        step_spec(v, e).1 matches SpecAction::SendClient(bytes) ==> step_spec(v, e).0.to_client
            == v.to_client + bytes,
{
    match (v.phase, e) {
        (Phase::ReadingHeaders, SpecEvent::ClientRead(d)) => {
            if d.len() > 0 {
                lemma_reading_head_extend(v.parser, v.buf, d);
                lemma_process_head_inv(ConnView { buf: v.buf + d, received: v.received + d, ..v });
            }
        },
        (Phase::ReadingBody, SpecEvent::ClientRead(d)) => {
            if d.len() > 0 {
                assert(v.raw_headers + (v.body + d) =~= v.raw_headers + v.body + d);
            }
        },
        (Phase::MarkingHealthy, SpecEvent::Marked) => {
            let b = request_body_len(request_body_kind(v), v.body);
            assert(v.raw_headers + v.body.take(b as int) + v.body.skip(b as int) =~= v.raw_headers
                + v.body);
        },
        (Phase::ReadingResponseHeaders, SpecEvent::BackendRead(d)) => {
            lemma_response_head_inv(v, d);
        },
        (Phase::ReadingResponseBody, SpecEvent::BackendRead(d)) => {
            if d.len() > 0 {
                lemma_response_head_extend(v.from_backend, d);
                let w = if d.len() < v.remaining {
                    d.len()
                } else {
                    v.remaining
                };
                let out = d.take(w as int);
                let tc = v.to_client + out;
                let fb = v.from_backend + d;
                if w == d.len() {
                    assert(out =~= d);
                    assert(fb.take(fb.len() as int) =~= fb);
                } else {
                    assert(fb.take(tc.len() as int) =~= tc);
                }
            }
        },
        (Phase::KeepAliveDecision, SpecEvent::Released) => {
            lemma_initial_reading_head(v.pipelined);
            lemma_process_head_inv(reset_for_next(v));
        },
        _ => {},
    }
}

/// Once a response is done, the client has been sent exactly the response head and as many
/// bytes of the body as it announced (all that arrived, when it announced no length), taken
/// from the start of what the backend sent.
pub proof fn lemma_response_done_relays_exactly(v: ConnView)
    requires
        conn_inv(v),
        v.phase == Phase::KeepAliveDecision,
    ensures
        v.to_client == v.from_backend.take(v.expected as int),
{
}

/// When the head of a response completes, the connection is marked to close exactly when the
/// client's request or the backend's response carries `Connection: close`; and when the
/// response announces `n` bytes of body and at least that many have arrived, the client is
/// sent the head and exactly the first `n` of them, and the response is done.
pub proof fn lemma_response_head_relay(v: ConnView, d: Seq<u8>)
    requires
        v.phase == Phase::ReadingResponseHeaders,
        d.len() > 0,
        find_first(v.resp_buf + d, double_crlf()) is Some,
    ensures
        ({
            let rb = v.resp_buf + d;
            let end = find_first(rb, double_crlf()).unwrap();
            let head = rb.take(end + 4 as int);
            let rm = response_meta_of(head);
            let (v2, a) = step_spec(v, SpecEvent::BackendRead(d));
            &&& v2.should_close == (request_wants_close(v) || rm.connection_close)
            &&& match rm.content_length {
                Some(n) => rb.len() - head.len() >= n ==> a == SpecAction::SendClient(
                    rb.take(head.len() + n),
                ) && v2.phase == Phase::KeepAliveDecision,
                None => true,
            }
        }),
{
    lemma_find_from(v.resp_buf + d, double_crlf(), 0);
}

/// A backend is acquired in order: the next healthy backend is picked (with none, the
/// connection ends); an idle connection to it is tried before a new one is opened; a
/// connection that cannot be opened marks the backend unhealthy and ends the connection; a
/// connection in hand marks the backend healthy before the request is written to it.
pub proof fn lemma_backend_acquisition(v: ConnView, i: usize)
    requires
        v.phase == Phase::WaitingBackend,
    ensures
        settle(v).1 == SpecAction::PickBackend,
        step_spec(v, SpecEvent::NoBackend) == (with_phase(v, Phase::Closed), SpecAction::Finish),
        ({
            let (v1, a1) = step_spec(v, SpecEvent::BackendPicked(i));
            &&& a1 == SpecAction::BorrowIdle(i)
            &&& step_spec(v1, SpecEvent::IdleFound).1 == SpecAction::MarkHealthy(i)
            &&& step_spec(v1, SpecEvent::IdleMissing).1 == SpecAction::Connect(i)
            &&& {
                let v2 = step_spec(v1, SpecEvent::IdleFound).0;
                step_spec(v2, SpecEvent::Marked) == send_request(v2)
            }
            &&& {
                let v2 = step_spec(v1, SpecEvent::IdleMissing).0;
                &&& step_spec(v2, SpecEvent::Connected).1 == SpecAction::MarkHealthy(i)
                &&& step_spec(v2, SpecEvent::ConnectFailed).1 == SpecAction::MarkUnhealthy(i)
                &&& {
                    let v3 = step_spec(v2, SpecEvent::ConnectFailed).0;
                    step_spec(v3, SpecEvent::Marked) == (
                        with_phase(v3, Phase::Closed),
                        SpecAction::Finish,
                    )
                }
            }
        }),
{
}

/// Whatever happens, a closed connection stays closed and has nothing more to do.
pub proof fn lemma_closed_is_final(v: ConnView, e: SpecEvent)
    requires
        v.phase == Phase::Closed,
    ensures
        step_spec(v, e) == (v, SpecAction::Finish),
{
}

/// Once a response is done, the connection closes if the client or the backend asked for it;
/// otherwise it gives the backend connection back, and the next request head starts with what
/// the client sent after the last request.
pub proof fn lemma_keep_alive_decision(v: ConnView)
    requires
        v.phase == Phase::KeepAliveDecision,
    ensures
        v.should_close ==> step_spec(v, SpecEvent::Sent) == (
            with_phase(v, Phase::Closed),
            SpecAction::Finish,
        ),
        !v.should_close ==> step_spec(v, SpecEvent::Sent) == (
            v,
            SpecAction::ReleaseBackend(v.backend),
        ),
        !v.should_close ==> step_spec(v, SpecEvent::Released) == process_head(reset_for_next(v)),
        reset_for_next(v).buf == v.pipelined,
{
}

/// The state a connection in state `v` reaches after the events `es`, one by one.
pub open spec fn run_events(v: ConnView, es: Seq<SpecEvent>) -> ConnView
    decreases es.len(),
{
    if es.len() == 0 {
        v
    } else {
        run_events(step_spec(v, es[0]).0, es.drop_first())
    }
}

/// The invariant holds after any events from a state where it holds.
proof fn lemma_run_keeps_invariant(v: ConnView, es: Seq<SpecEvent>)
    requires
        conn_inv(v),
    ensures
        conn_inv(run_events(v, es)),
    decreases es.len(),
{
    if es.len() > 0 {
        lemma_step_keeps_invariant(v, es[0]);
        lemma_run_keeps_invariant(step_spec(v, es[0]).0, es.drop_first());
    }
}

/// Whatever events a new connection is handed, it is never idle and never asked to fail.
pub proof fn lemma_never_idle_nor_failing(es: Seq<SpecEvent>, e: SpecEvent)
    ensures
        run_events(initial_conn(), es).phase != Phase::Idle,
        !(step_spec(run_events(initial_conn(), es), e).1 is Fail),
        !(settle(initial_conn()).1 is Fail),
{
    lemma_run_keeps_invariant(initial_conn(), es);
    lemma_step_keeps_invariant(run_events(initial_conn(), es), e);
}

/// What a connection in state `v` takes from the client with event `e`: the bytes of a client
/// read while it reads a request head or body, and nothing otherwise.
pub open spec fn client_bytes_taken(v: ConnView, e: SpecEvent) -> Seq<u8> {
    match (v.phase, e) {
        (Phase::ReadingHeaders, SpecEvent::ClientRead(d)) => d,
        (Phase::ReadingBody, SpecEvent::ClientRead(d)) => d,
        _ => Seq::empty(),
    }
}

/// All that a connection in state `v` takes from the client over the events `es`.
pub open spec fn client_input(v: ConnView, es: Seq<SpecEvent>) -> Seq<u8>
    decreases es.len(),
{
    if es.len() == 0 {
        Seq::empty()
    } else {
        client_bytes_taken(v, es[0]) + client_input(step_spec(v, es[0]).0, es.drop_first())
    }
}

/// What a connection in state `v` takes from the backend with event `e`: the bytes of a
/// backend read while it reads a response, and nothing otherwise.
pub open spec fn backend_bytes_taken(v: ConnView, e: SpecEvent) -> Seq<u8> {
    match (v.phase, e) {
        (Phase::ReadingResponseHeaders, SpecEvent::BackendRead(d)) => d,
        (Phase::ReadingResponseBody, SpecEvent::BackendRead(d)) => d,
        _ => Seq::empty(),
    }
}

/// All that a connection in state `v` takes from the backend over the events `es`.
pub open spec fn backend_input(v: ConnView, es: Seq<SpecEvent>) -> Seq<u8>
    decreases es.len(),
{
    if es.len() == 0 {
        Seq::empty()
    } else {
        backend_bytes_taken(v, es[0]) + backend_input(step_spec(v, es[0]).0, es.drop_first())
    }
}

/// The bytes that an action writes to the client.
pub open spec fn client_bytes_sent(a: SpecAction) -> Seq<u8> {
    match a {
        SpecAction::SendClient(b) => b,
        _ => Seq::empty(),
    }
}

/// All that a connection in state `v` writes to the client over the events `es`.
pub open spec fn client_output(v: ConnView, es: Seq<SpecEvent>) -> Seq<u8>
    decreases es.len(),
{
    if es.len() == 0 {
        Seq::empty()
    } else {
        let (v2, a) = step_spec(v, es[0]);
        client_bytes_sent(a) + client_output(v2, es.drop_first())
    }
}

/// No event gives a backend connection back: the events serve one request.
pub open spec fn single_request(es: Seq<SpecEvent>) -> bool {
    forall|k: int| 0 <= k < es.len() ==> !(#[trigger] es[k] is Released)
}

/// Running one more event.
#[verifier::spinoff_prover]
proof fn lemma_run_push(v: ConnView, es: Seq<SpecEvent>, e: SpecEvent)
    ensures
        run_events(v, es.push(e)) == step_spec(run_events(v, es), e).0,
        client_input(v, es.push(e)) == client_input(v, es) + client_bytes_taken(
            run_events(v, es),
            e,
        ),
    decreases es.len(),
{
    let all = es.push(e);
    if es.len() == 0 {
        assert(all[0] == e);
        assert(all.drop_first() =~= Seq::<SpecEvent>::empty());
        let v1 = step_spec(v, e).0;
        assert(run_events(v1, all.drop_first()) == v1);
        assert(client_input(v1, all.drop_first()) == Seq::<u8>::empty());
        assert(client_bytes_taken(v, e) + Seq::<u8>::empty() =~= client_bytes_taken(v, e));
        assert(Seq::<u8>::empty() + client_bytes_taken(v, e) =~= client_bytes_taken(v, e));
    } else {
        assert(all[0] == es[0]);
        assert(all.drop_first() =~= es.drop_first().push(e));
        let v1 = step_spec(v, es[0]).0;
        lemma_run_push(v1, es.drop_first(), e);
        assert(run_events(v, all) == run_events(v1, all.drop_first()));
        assert(run_events(v, es) == run_events(v1, es.drop_first()));
        assert(client_bytes_taken(v, es[0]) + client_input(v1, es.drop_first())
            + client_bytes_taken(run_events(v1, es.drop_first()), e) =~= client_bytes_taken(
            v,
            es[0],
        ) + (client_input(v1, es.drop_first()) + client_bytes_taken(
            run_events(v1, es.drop_first()),
            e,
        )));
    }
}

/// Without giving a backend connection back, what the client sent for the request grows by
/// exactly what is taken from it.
proof fn lemma_run_received(v: ConnView, es: Seq<SpecEvent>)
    requires
        single_request(es),
    ensures
        run_events(v, es).received == v.received + client_input(v, es),
    decreases es.len(),
{
    if es.len() == 0 {
        assert(v.received + Seq::<u8>::empty() =~= v.received);
    } else {
        let e = es[0];
        assert(!(es[0] is Released));
        let v1 = step_spec(v, e).0;
        assert(v1.received =~= v.received + client_bytes_taken(v, e));
        assert forall|k: int| 0 <= k < es.drop_first().len() implies !(
        #[trigger] es.drop_first()[k] is Released) by {
            assert(es.drop_first()[k] == es[k + 1]);
        }
        lemma_run_received(v1, es.drop_first());
        assert(v.received + client_bytes_taken(v, e) + client_input(v1, es.drop_first())
            =~= v.received + (client_bytes_taken(v, e) + client_input(v1, es.drop_first())));
    }
}

/// A backend is asked for only in a state that waits for one, and a request goes to a backend
/// only once the backend was marked healthy, as `send_request` says.
proof fn lemma_acquire_and_send(v: ConnView, e: SpecEvent)
    ensures
        step_spec(v, e).1 is PickBackend ==> step_spec(v, e).0.phase == Phase::WaitingBackend,
        step_spec(v, e).1 is SendBackend ==> v.phase == Phase::MarkingHealthy && step_spec(v, e)
            == send_request(v),
{
}

/// Forwarding a request: over any events that serve one request on a new connection, let the
/// input be all the client sent. Whenever the connection asks for a backend, the input holds a
/// head through its first `\r\n\r\n` and then the whole body that the head announces. When it
/// writes to a backend, it writes exactly that head (every header line as the client sent it)
/// and exactly the announced body, and keeps the rest of the input for the next request.
pub proof fn lemma_request_forwarded(es: Seq<SpecEvent>)
    requires
        es.len() > 0,
        single_request(es),
    ensures
        ({
            let before = run_events(initial_conn(), es.drop_last());
            let (v, a) = step_spec(before, es.last());
            let input = client_input(initial_conn(), es);
            let head_end = find_first(input, double_crlf());
            &&& (a is PickBackend || a is SendBackend) ==> head_end is Some && body_complete(
                request_body_kind(v),
                input.skip(head_end.unwrap() + 4 as int),
            )
            &&& match a {
                SpecAction::SendBackend(bytes) => {
                    &&& bytes == input.take(
                        head_end.unwrap() + 4 as int + request_body_len(
                            request_body_kind(v),
                            input.skip(head_end.unwrap() + 4 as int),
                        ),
                    )
                    &&& bytes + v.pipelined == input
                },
                _ => true,
            }
        }),
{
    let es0 = es.drop_last();
    let e = es.last();
    assert(es =~= es0.push(e));
    lemma_run_push(initial_conn(), es0, e);
    assert forall|k: int| 0 <= k < es0.len() implies !(#[trigger] es0[k] is Released) by {
        assert(es0[k] == es[k]);
    }
    lemma_run_received(initial_conn(), es0);
    lemma_initial_conn_inv();
    lemma_run_keeps_invariant(initial_conn(), es0);
    let before = run_events(initial_conn(), es0);
    lemma_step_keeps_invariant(before, e);
    lemma_acquire_and_send(before, e);
    let (v, a) = step_spec(before, e);
    let input = client_input(initial_conn(), es);
    assert(Seq::<u8>::empty() + client_input(initial_conn(), es0) =~= client_input(initial_conn(), es0));
    if a is PickBackend || a is SendBackend {
        let w = if a is PickBackend {
            v
        } else {
            before
        };
        assert(!(e is Released)) by {
            assert(es[es.len() - 1] == e);
        }
        assert(v.received == before.received + client_bytes_taken(before, e));
        assert(w.received == input);
        assert(w.raw_headers + w.body == input);
        lemma_find_from_extend(w.raw_headers, w.body, double_crlf(), 0);
        let h = w.raw_headers.len();
        assert(find_first(input, double_crlf()) == Some((h - 4) as nat));
        assert(input.skip(h as int) =~= w.body);
        assert(request_body_kind(v) == request_body_kind(w));
        if let SpecAction::SendBackend(bytes) = a {
            let b = request_body_len(request_body_kind(w), w.body);
            assert(input.take(h + b as int) =~= w.raw_headers + w.body.take(b as int));
        }
    }
}

/// What happens to the record of the response at each step after the request went out: the
/// client is sent a prefix of what the backend sent, and once the backend has sent the head of
/// a response announcing `n` bytes and at least `n` bytes after it, exactly the head and those
/// `n` bytes; when the head announces no length, everything the backend sent.
pub open spec fn relay_ok(v: ConnView) -> bool {
    &&& responding(v.phase) || v.phase == Phase::Closed
    &&& is_prefix_of(v.to_client, v.from_backend)
    &&& match response_head_end(v.from_backend) {
        Some(h) => match response_meta_of(v.from_backend.take(h as int)).content_length {
            Some(n) => v.from_backend.len() >= h + n ==> v.to_client == v.from_backend.take(
                h + n,
            ),
            None => v.to_client == v.from_backend,
        },
        None => true,
    }
}

/// One step after the request went out keeps `relay_ok`, and adds to the records exactly what
/// was taken from the backend and sent to the client.
proof fn lemma_relay_step(v: ConnView, e: SpecEvent)
    requires
        conn_inv(v),
        relay_ok(v),
        !(e is Released),
    ensures
        relay_ok(step_spec(v, e).0),
        step_spec(v, e).0.from_backend == v.from_backend + backend_bytes_taken(v, e),
        step_spec(v, e).0.to_client == v.to_client + client_bytes_sent(step_spec(v, e).1),
{
    lemma_step_keeps_invariant(v, e);
    let (v2, a) = step_spec(v, e);
    assert(v.from_backend + Seq::<u8>::empty() =~= v.from_backend);
    assert(v.to_client + Seq::<u8>::empty() =~= v.to_client);
    match (v.phase, e) {
        (Phase::ReadingResponseHeaders, SpecEvent::BackendRead(d)) => {
            if d.len() > 0 {
                let rb = v.resp_buf + d;
                lemma_find_from(rb, double_crlf(), 0);
                assert(rb.take(rb.len() as int) =~= rb);
                if let Some(end) = find_first(rb, double_crlf()) {
                    let h = end + 4;
                    if let Some(n) = response_meta_of(rb.take(h as int)).content_length {
                        if rb.len() >= h + n {
                            let out = rb.take(h + n);
                            assert(rb.take(out.len() as int) =~= out);
                        }
                    }
                } else {
                    assert(rb.take(0) =~= v2.to_client);
                }
            } else {
                assert(v.from_backend.take(0) =~= v.to_client);
            }
        },
        (Phase::ReadingResponseBody, SpecEvent::BackendRead(d)) => {
            assert(v.from_backend.take(v.from_backend.len() as int) =~= v.from_backend);
            if d.len() > 0 {
                lemma_response_head_extend(v.from_backend, d);
                let fb = v2.from_backend;
                assert(fb.take(fb.len() as int) =~= fb);
                if v2.phase == Phase::KeepAliveDecision {
                    assert(fb.take(v2.to_client.len() as int) == v2.to_client);
                }
            }
        },
        _ => {},
    }
}

/// Relaying a response: from the state right after a request went to the backend, over any
/// events that serve that one request, let the input be all the backend sent and the output all
/// the connection wrote to the client. The output is a prefix of the input; and once the input
/// holds a response head (through its first `\r\n\r\n`) announcing `n` bytes and at least `n`
/// bytes after it, the output is exactly that head and the first `n` of those bytes: nothing
/// beyond them is relayed for this response. When the head announces no length, the output is
/// the whole input: the head and all of the body that arrived with it.
pub proof fn lemma_response_relayed(v0: ConnView, es: Seq<SpecEvent>)
    requires
        conn_inv(v0),
        v0.phase == Phase::ReadingResponseHeaders,
        v0.from_backend.len() == 0,
        v0.to_client.len() == 0,
        single_request(es),
    ensures
        ({
            let input = backend_input(v0, es);
            let output = client_output(v0, es);
            &&& is_prefix_of(output, input)
            &&& match response_head_end(input) {
                Some(h) => match response_meta_of(input.take(h as int)).content_length {
                    Some(n) => input.len() >= h + n ==> output == input.take(h + n),
                    None => output == input,
                },
                None => true,
            }
        }),
{
    lemma_relay_run(v0, es);
    assert(v0.from_backend =~= Seq::<u8>::empty());
    assert(v0.to_client =~= Seq::<u8>::empty());
    assert(Seq::<u8>::empty() + backend_input(v0, es) =~= backend_input(v0, es));
    assert(Seq::<u8>::empty() + client_output(v0, es) =~= client_output(v0, es));
}

/// `relay_ok` holds along a run, and the records grow by what the run takes and sends.
proof fn lemma_relay_run(v: ConnView, es: Seq<SpecEvent>)
    requires
        conn_inv(v),
        relay_ok(v) || (v.phase == Phase::ReadingResponseHeaders && v.from_backend.len() == 0
            && v.to_client.len() == 0),
        single_request(es),
    ensures
        relay_ok(run_events(v, es)),
        run_events(v, es).from_backend == v.from_backend + backend_input(v, es),
        run_events(v, es).to_client == v.to_client + client_output(v, es),
    decreases es.len(),
{
    if v.phase == Phase::ReadingResponseHeaders && v.from_backend.len() == 0 {
        assert(v.to_client.take(0) =~= v.to_client);
        assert(v.from_backend.take(0) =~= v.to_client);
        assert(find_first(v.from_backend, double_crlf()) is None);
    }
    assert(relay_ok(v));
    if es.len() == 0 {
        assert(v.from_backend + Seq::<u8>::empty() =~= v.from_backend);
        assert(v.to_client + Seq::<u8>::empty() =~= v.to_client);
    } else {
        let e = es[0];
        assert(!(es[0] is Released));
        lemma_relay_step(v, e);
        lemma_step_keeps_invariant(v, e);
        let (v1, a) = step_spec(v, e);
        assert forall|k: int| 0 <= k < es.drop_first().len() implies !(
        #[trigger] es.drop_first()[k] is Released) by {
            assert(es.drop_first()[k] == es[k + 1]);
        }
        lemma_relay_run(v1, es.drop_first());
        assert(v.from_backend + backend_bytes_taken(v, e) + backend_input(v1, es.drop_first())
            =~= v.from_backend + (backend_bytes_taken(v, e) + backend_input(v1, es.drop_first())));
        assert(v.to_client + client_bytes_sent(a) + client_output(v1, es.drop_first())
            =~= v.to_client + (client_bytes_sent(a) + client_output(v1, es.drop_first())));
    }
}

/// Right after a request goes to a backend, the connection is in the state that
/// `lemma_response_relayed` starts from.
pub proof fn lemma_sent_request_starts_relay(v: ConnView, e: SpecEvent)
    requires
        conn_inv(v),
        step_spec(v, e).1 is SendBackend,
    ensures
        ({
            let v2 = step_spec(v, e).0;
            &&& conn_inv(v2)
            &&& v2.phase == Phase::ReadingResponseHeaders
            &&& v2.from_backend.len() == 0
            &&& v2.to_client.len() == 0
        }),
{
    lemma_step_keeps_invariant(v, e);
    lemma_acquire_and_send(v, e);
}

/// The body forwarded with a complete request is exactly the body its head announces: none
/// when it announces none; the first `n` bytes for `Content-Length: n`; for a chunked body,
/// the whole chunked encoding, which read alone is a complete chunked body ending at its last
/// byte (the last chunk and the empty line after the trailers included), and which is the
/// well-formed chunked body that the bytes after the head start with.
pub proof fn lemma_forwarded_body(kind: BodyKind, body: Seq<u8>)
    requires
        body_complete(kind, body),
    ensures
        ({
            let l = request_body_len(kind, body);
            let sent = body.take(l as int);
            &&& l <= body.len()
            &&& match kind {
                BodyKind::NoBody => l == 0,
                BodyKind::ContentLength(n) => l == n,
                BodyKind::Chunked => {
                    &&& chunked_end(sent) == Some(l)
                    &&& forall|f: ChunkedForm|
                        form_ok(f) && is_prefix_of(form_bytes(f), body) ==> sent == form_bytes(f)
                },
            }
        }),
{
    if kind is Chunked {
        lemma_chunked_end_alone(body);
        lemma_chunked_grammar(body);
    }
}

} // verus!
