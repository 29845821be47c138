use proxy::connection::{Action, Connection, Event, Phase};
use proxy::head::BodyKind;

fn sent_backend(a: Action) -> Vec<u8> {
    match a {
        Action::SendBackend(b) => b,
        _ => panic!("expected SendBackend"),
    }
}

fn sent_client(a: Action) -> Vec<u8> {
    match a {
        Action::SendClient(b) => b,
        _ => panic!("expected SendClient"),
    }
}

fn name(a: &Action) -> String {
    match a {
        Action::ReadClient => "ReadClient".to_string(),
        Action::PickBackend => "PickBackend".to_string(),
        Action::BorrowIdle(i) => format!("BorrowIdle({})", i),
        Action::Connect(i) => format!("Connect({})", i),
        Action::MarkHealthy(i) => format!("MarkHealthy({})", i),
        Action::MarkUnhealthy(i) => format!("MarkUnhealthy({})", i),
        Action::SendBackend(_) => "SendBackend".to_string(),
        Action::ReadBackend => "ReadBackend".to_string(),
        Action::SendClient(_) => "SendClient".to_string(),
        Action::ReleaseBackend(i) => format!("ReleaseBackend({})", i),
        Action::Finish => "Finish".to_string(),
        Action::Fail => "Fail".to_string(),
    }
}

fn is(a: &Action, n: &str) -> bool {
    name(a) == n
}

/// Drives a connection whose request is complete through picking backend `i`, finding no idle
/// connection, connecting and marking it healthy; returns what goes to the backend.
fn acquire_by_connecting(c: &mut Connection, i: usize) -> Vec<u8> {
    assert!(is(&c.step(Event::BackendPicked(i)), &format!("BorrowIdle({})", i)));
    assert!(is(&c.step(Event::IdleMissing), &format!("Connect({})", i)));
    assert!(is(&c.step(Event::Connected), &format!("MarkHealthy({})", i)));
    sent_backend(c.step(Event::Marked))
}

#[test]
fn get_request_is_forwarded_and_response_relayed() {
    let mut c = Connection::new();
    assert!(is(&c.start(), "ReadClient"));
    let a = c.step(Event::ClientRead(b"GET / HTTP/1.1\r\nHo".to_vec()));
    assert!(is(&a, "ReadClient"));
    let a = c.step(Event::ClientRead(b"st: x\r\n\r\n".to_vec()));
    assert!(is(&a, "PickBackend"));
    assert_eq!(c.phase(), Phase::WaitingBackend);
    assert_eq!(c.request_meta().unwrap().host, Some(b"x".to_vec()));
    let req = acquire_by_connecting(&mut c, 2);
    assert_eq!(req, b"GET / HTTP/1.1\r\nHost: x\r\n\r\n".to_vec());
    assert!(is(&c.step(Event::Sent), "ReadBackend"));
    let a = c.step(Event::BackendRead(b"HTTP/1.1 200 OK\r\nContent-Length: 5\r\n\r\nhe".to_vec()));
    assert_eq!(sent_client(a), b"HTTP/1.1 200 OK\r\nContent-Length: 5\r\n\r\nhe".to_vec());
    assert_eq!(c.phase(), Phase::ReadingResponseBody);
    assert!(is(&c.step(Event::Sent), "ReadBackend"));
    let out = sent_client(c.step(Event::BackendRead(b"lloEXTRA".to_vec())));
    assert_eq!(out, b"llo".to_vec());
    assert_eq!(c.phase(), Phase::KeepAliveDecision);
    assert!(is(&c.step(Event::Sent), "ReleaseBackend(2)"));
    assert!(is(&c.step(Event::Released), "ReadClient"));
    assert_eq!(c.phase(), Phase::ReadingHeaders);
}

#[test]
fn response_beyond_its_length_is_not_relayed() {
    let mut c = Connection::new();
    c.step(Event::ClientRead(b"GET / HTTP/1.1\r\n\r\n".to_vec()));
    acquire_by_connecting(&mut c, 0);
    c.step(Event::Sent);
    let out = sent_client(c.step(Event::BackendRead(
        b"HTTP/1.1 200 OK\r\nContent-Length: 2\r\n\r\nokHTTP/1.1 200 OK\r\n".to_vec(),
    )));
    assert_eq!(out, b"HTTP/1.1 200 OK\r\nContent-Length: 2\r\n\r\nok".to_vec());
    assert_eq!(c.phase(), Phase::KeepAliveDecision);
}

#[test]
fn an_idle_connection_is_reused_before_connecting() {
    let mut c = Connection::new();
    c.step(Event::ClientRead(b"GET /a HTTP/1.1\r\n\r\n".to_vec()));
    assert!(is(&c.step(Event::BackendPicked(1)), "BorrowIdle(1)"));
    assert!(is(&c.step(Event::IdleFound), "MarkHealthy(1)"));
    assert_eq!(sent_backend(c.step(Event::Marked)), b"GET /a HTTP/1.1\r\n\r\n".to_vec());
}

#[test]
fn failed_connect_marks_the_backend_unhealthy_and_closes() {
    let mut c = Connection::new();
    c.step(Event::ClientRead(b"GET / HTTP/1.1\r\n\r\n".to_vec()));
    assert!(is(&c.step(Event::BackendPicked(3)), "BorrowIdle(3)"));
    assert!(is(&c.step(Event::IdleMissing), "Connect(3)"));
    assert!(is(&c.step(Event::ConnectFailed), "MarkUnhealthy(3)"));
    assert!(is(&c.step(Event::Marked), "Finish"));
    assert_eq!(c.phase(), Phase::Closed);
}

#[test]
fn no_backend_closes() {
    let mut c = Connection::new();
    c.step(Event::ClientRead(b"GET / HTTP/1.1\r\n\r\n".to_vec()));
    assert!(is(&c.step(Event::NoBackend), "Finish"));
    assert_eq!(c.phase(), Phase::Closed);
}

#[test]
fn content_length_body_is_read_before_forwarding() {
    let mut c = Connection::new();
    let a = c.step(Event::ClientRead(b"POST /u HTTP/1.1\r\nContent-Length: 6\r\n\r\nabc".to_vec()));
    assert!(is(&a, "ReadClient"));
    assert_eq!(c.phase(), Phase::ReadingBody);
    assert_eq!(c.request_meta().unwrap().body_kind, BodyKind::ContentLength(6));
    let a = c.step(Event::ClientRead(b"def".to_vec()));
    assert!(is(&a, "PickBackend"));
    let req = acquire_by_connecting(&mut c, 0);
    assert_eq!(req, b"POST /u HTTP/1.1\r\nContent-Length: 6\r\n\r\nabcdef".to_vec());
}

#[test]
fn chunked_body_is_read_until_complete() {
    let mut c = Connection::new();
    let a = c.step(Event::ClientRead(b"POST / HTTP/1.1\r\nTransfer-Encoding: chunked\r\n\r\n3\r\nab".to_vec()));
    assert!(is(&a, "ReadClient"));
    let a = c.step(Event::ClientRead(b"c\r\n0\r\nX-T: v\r\n\r\n".to_vec()));
    assert!(is(&a, "PickBackend"));
    let req = acquire_by_connecting(&mut c, 0);
    assert!(req.ends_with(b"3\r\nabc\r\n0\r\nX-T: v\r\n\r\n"));
}

#[test]
fn pipelined_request_is_kept_for_the_next_round() {
    let mut c = Connection::new();
    let a = c.step(Event::ClientRead(
        b"POST /1 HTTP/1.1\r\nContent-Length: 2\r\n\r\nhiGET /2 HTTP/1.1\r\n\r\n".to_vec(),
    ));
    assert!(is(&a, "PickBackend"));
    let req = acquire_by_connecting(&mut c, 0);
    assert_eq!(req, b"POST /1 HTTP/1.1\r\nContent-Length: 2\r\n\r\nhi".to_vec());
    c.step(Event::Sent);
    sent_client(c.step(Event::BackendRead(b"HTTP/1.1 204 No Content\r\nContent-Length: 0\r\n\r\n".to_vec())));
    assert!(is(&c.step(Event::Sent), "ReleaseBackend(0)"));
    assert!(is(&c.step(Event::Released), "PickBackend"));
    assert_eq!(c.request_meta().unwrap().uri, b"/2".to_vec());
    let req = acquire_by_connecting(&mut c, 1);
    assert_eq!(req, b"GET /2 HTTP/1.1\r\n\r\n".to_vec());
}

#[test]
fn connection_close_ends_after_the_response() {
    let mut c = Connection::new();
    c.step(Event::ClientRead(b"GET / HTTP/1.1\r\nConnection: close\r\n\r\n".to_vec()));
    acquire_by_connecting(&mut c, 0);
    c.step(Event::Sent);
    let out = sent_client(c.step(Event::BackendRead(b"HTTP/1.1 200 OK\r\n\r\n".to_vec())));
    assert_eq!(out, b"HTTP/1.1 200 OK\r\n\r\n".to_vec());
    assert!(is(&c.step(Event::Sent), "Finish"));
    assert_eq!(c.phase(), Phase::Closed);
    assert!(is(&c.step(Event::ClientRead(b"x".to_vec())), "Finish"));
}

#[test]
fn backend_close_header_also_closes() {
    let mut c = Connection::new();
    c.step(Event::ClientRead(b"GET / HTTP/1.1\r\n\r\n".to_vec()));
    acquire_by_connecting(&mut c, 0);
    c.step(Event::Sent);
    assert!(is(&c.step(Event::BackendRead(b"HTTP/1.1 200 OK\r\nConn".to_vec())), "ReadBackend"));
    sent_client(c.step(Event::BackendRead(b"ection: close\r\nContent-Length: 0\r\n\r\n".to_vec())));
    assert!(is(&c.step(Event::Sent), "Finish"));
}

#[test]
fn client_eof_and_bad_heads_close() {
    let mut c = Connection::new();
    assert!(is(&c.step(Event::ClientRead(Vec::new())), "Finish"));
    assert_eq!(c.phase(), Phase::Closed);
    let mut c = Connection::new();
    assert!(is(&c.step(Event::ClientRead(b"BROKEN\r\n\r\n".to_vec())), "Finish"));
    let mut c = Connection::new();
    c.step(Event::ClientRead(b"POST / HTTP/1.1\r\nContent-Length: 9\r\n\r\n".to_vec()));
    assert!(is(&c.step(Event::ClientRead(Vec::new())), "Finish"));
}

#[test]
fn backend_eof_closes() {
    let mut c = Connection::new();
    c.step(Event::ClientRead(b"GET / HTTP/1.1\r\n\r\n".to_vec()));
    acquire_by_connecting(&mut c, 0);
    c.step(Event::Sent);
    assert!(is(&c.step(Event::BackendRead(Vec::new())), "Finish"));
}

#[test]
fn unexpected_events_change_nothing() {
    let mut c = Connection::new();
    assert!(is(&c.step(Event::BackendRead(b"x".to_vec())), "ReadClient"));
    assert!(is(&c.step(Event::Released), "ReadClient"));
    assert_eq!(c.phase(), Phase::ReadingHeaders);
}
