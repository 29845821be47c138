use proxy::head::{BodyKind, HeadParser, ParseError, ParseEvent, RequestMeta};

fn line_of(ev: ParseEvent) -> Option<Vec<u8>> {
    match ev {
        ParseEvent::Line(l) => Some(l.to_vec()),
        _ => None,
    }
}

fn is_end(ev: &ParseEvent) -> bool {
    matches!(ev, ParseEvent::End)
}

fn is_need_more(ev: &ParseEvent) -> bool {
    matches!(ev, ParseEvent::NeedMore)
}

fn parse_all(head: &[u8]) -> Result<RequestMeta, ParseError> {
    let mut parser = HeadParser::new();
    loop {
        let ev = parser.advance(head);
        if is_end(&ev) {
            break;
        }
        assert!(!is_need_more(&ev), "head should be complete");
    }
    parser.parse_request_meta()
}

#[test]
fn advance_reports_lines_then_end() {
    let buf = b"GET / HTTP/1.1\r\nHost: example.com\r\n\r\n";
    let mut parser = HeadParser::new();
    assert_eq!(line_of(parser.advance(buf)), Some(b"GET / HTTP/1.1".to_vec()));
    assert_eq!(parser.cursor(), 16);
    assert_eq!(line_of(parser.advance(buf)), Some(b"Host: example.com".to_vec()));
    assert!(is_end(&parser.advance(buf)));
    assert_eq!(parser.cursor(), buf.len());
    assert_eq!(*parser.lines(), vec![b"GET / HTTP/1.1".to_vec(), b"Host: example.com".to_vec()]);
    assert!(is_need_more(&parser.advance(buf)));
}

#[test]
fn advance_needs_more_without_crlf() {
    let mut parser = HeadParser::new();
    assert!(is_need_more(&parser.advance(b"")));
    assert!(is_need_more(&parser.advance(b"GET / HT")));
    assert!(is_need_more(&parser.advance(b"GET / HTTP/1.1\r")));
    assert_eq!(parser.cursor(), 0);
    assert!(parser.lines().is_empty());
}

#[test]
fn advance_incrementally_matches_at_once() {
    let whole = b"GET /a HTTP/1.1\r\nHost: h\r\nContent-Length: 3\r\n\r\nabc";
    let mut at_once = HeadParser::new();
    while !is_end(&at_once.advance(whole)) {}
    let mut pieces = HeadParser::new();
    let mut buf: Vec<u8> = Vec::new();
    let mut ended = false;
    for chunk in whole.chunks(3) {
        buf.extend_from_slice(chunk);
        loop {
            let ev = pieces.advance(&buf);
            if is_end(&ev) {
                ended = true;
                break;
            }
            if is_need_more(&ev) {
                break;
            }
        }
        if ended {
            break;
        }
    }
    assert!(ended);
    assert_eq!(pieces.lines(), at_once.lines());
    assert_eq!(pieces.cursor(), at_once.cursor());
    assert_eq!(at_once.cursor(), whole.len() - 3);
}

#[test]
fn advance_keeps_a_trailing_carriage_return_in_the_line() {
    let buf = b"a\r\r\n\r\n";
    let mut parser = HeadParser::new();
    assert_eq!(line_of(parser.advance(buf)), Some(b"a\r".to_vec()));
    assert!(is_end(&parser.advance(buf)));
}

#[test]
fn request_meta_of_simple_get() {
    let meta = parse_all(b"GET /index.html HTTP/1.1\r\nHost: example.com\r\n\r\n").unwrap();
    assert_eq!(meta.method, b"GET".to_vec());
    assert_eq!(meta.uri, b"/index.html".to_vec());
    assert_eq!(meta.http_version, b"HTTP/1.1".to_vec());
    assert_eq!(meta.host, Some(b"example.com".to_vec()));
    assert_eq!(meta.body_kind, BodyKind::NoBody);
    assert!(!meta.connection_close);
}

#[test]
fn request_meta_content_length() {
    let meta = parse_all(b"POST /x HTTP/1.1\r\ncontent-length:   42\r\n\r\n").unwrap();
    assert_eq!(meta.body_kind, BodyKind::ContentLength(42));
    let meta = parse_all(b"POST /x HTTP/1.1\r\nContent-Length: +7\r\n\r\n").unwrap();
    assert_eq!(meta.body_kind, BodyKind::ContentLength(7));
}

#[test]
fn request_meta_last_content_length_wins() {
    let meta = parse_all(b"POST / HTTP/1.1\r\nContent-Length: 1\r\nContent-Length: 2\r\n\r\n").unwrap();
    assert_eq!(meta.body_kind, BodyKind::ContentLength(2));
}

#[test]
fn request_meta_chunked_wins_over_content_length() {
    let meta = parse_all(
        b"POST / HTTP/1.1\r\nTransfer-Encoding: CHUNKED\r\nContent-Length: 10\r\n\r\n",
    )
    .unwrap();
    assert_eq!(meta.body_kind, BodyKind::Chunked);
    let meta = parse_all(b"POST / HTTP/1.1\r\nTransfer-Encoding: gzip, chunked\r\n\r\n").unwrap();
    assert_eq!(meta.body_kind, BodyKind::NoBody);
}

#[test]
fn request_meta_connection_close() {
    let meta = parse_all(b"GET / HTTP/1.1\r\nConnection: Close\r\n\r\n").unwrap();
    assert!(meta.connection_close);
    let meta = parse_all(b"GET / HTTP/1.1\r\nConnection: keep-alive\r\n\r\n").unwrap();
    assert!(!meta.connection_close);
}

#[test]
fn request_meta_request_line_keeps_spaces_in_version() {
    let meta = parse_all(b"GET  HTTP/1.1 extra\r\n\r\n").unwrap();
    assert_eq!(meta.method, b"GET".to_vec());
    assert_eq!(meta.uri, b"".to_vec());
    assert_eq!(meta.http_version, b"HTTP/1.1 extra".to_vec());
}

#[test]
fn request_meta_ignores_lines_without_colon_and_unknown_headers() {
    let meta = parse_all(b"GET / HTTP/1.1\r\nnonsense\r\nX-Other: 1\r\nHost:h2\r\n\r\n").unwrap();
    assert_eq!(meta.host, Some(b"h2".to_vec()));
    assert_eq!(meta.body_kind, BodyKind::NoBody);
}

#[test]
fn request_meta_errors() {
    let parser = HeadParser::new();
    assert_eq!(parser.parse_request_meta().err(), Some(ParseError::InvalidHeader));
    assert_eq!(parse_all(b"GET /\r\n\r\n").err(), Some(ParseError::InvalidHeader));
    assert_eq!(
        parse_all(b"POST / HTTP/1.1\r\nContent-Length: abc\r\n\r\n").err(),
        Some(ParseError::InvalidHeader)
    );
    assert_eq!(
        parse_all(b"POST / HTTP/1.1\r\nContent-Length: 5 \r\n\r\n").err(),
        Some(ParseError::InvalidHeader)
    );
    assert_eq!(
        parse_all(b"POST / HTTP/1.1\r\nContent-Length: -5\r\n\r\n").err(),
        Some(ParseError::InvalidHeader)
    );
    assert_eq!(
        parse_all(b"POST / HTTP/1.1\r\nContent-Length: 99999999999999999999999\r\n\r\n").err(),
        Some(ParseError::InvalidHeader)
    );
    assert_eq!(
        parse_all(b"POST / HTTP/1.1\r\nContent-Length:\r\n\r\n").err(),
        Some(ParseError::InvalidHeader)
    );
}

#[test]
fn consume_then_parse_reads_a_head() {
    let mut parser = HeadParser::new();
    parser.consume(b"GET / HT");
    assert!(is_need_more(&parser.parse()));
    parser.consume(b"TP/1.1\r\nHost: example.com\r\n\r\n");
    let mut ended = false;
    for _ in 0..3 {
        if is_end(&parser.parse()) {
            ended = true;
            break;
        }
    }
    assert!(ended);
    let meta = parser.parse_request_meta().unwrap();
    assert_eq!(meta.method, b"GET".to_vec());
    assert_eq!(meta.uri, b"/".to_vec());
    assert_eq!(meta.host, Some(b"example.com".to_vec()));
}

#[test]
fn request_meta_last_host_wins_and_keeps_trailing_space() {
    let meta = parse_all(b"GET / HTTP/1.1\r\nHost: a\r\nhost:\t b \r\n\r\n").unwrap();
    assert_eq!(meta.host, Some(b"b ".to_vec()));
    let meta = parse_all(b"GET / HTTP/1.1\r\nX: y\r\n\r\n").unwrap();
    assert_eq!(meta.host, None);
}

#[test]
fn request_meta_colonless_line_changes_nothing() {
    let with = parse_all(b"PUT /p HTTP/1.0\r\nHost: h\r\njunk line\r\nContent-Length: 3\r\n\r\n").unwrap();
    let without = parse_all(b"PUT /p HTTP/1.0\r\nHost: h\r\nContent-Length: 3\r\n\r\n").unwrap();
    assert_eq!(with.host, without.host);
    assert_eq!(with.body_kind, without.body_kind);
    assert_eq!(with.method, without.method);
    assert_eq!(with.connection_close, without.connection_close);
}

#[test]
fn request_meta_refused_on_bad_length_anywhere() {
    assert_eq!(
        parse_all(b"GET / HTTP/1.1\r\nTransfer-Encoding: chunked\r\nContent-Length: x\r\n\r\n").err(),
        Some(ParseError::InvalidHeader)
    );
    assert_eq!(parse_all(b"GET/HTTP/1.1\r\n\r\n").err(), Some(ParseError::InvalidHeader));
}

#[test]
fn cursor_is_past_the_stored_lines() {
    let buf = b"GET / HTTP/1.1\r\nA: 1\r\nBee: 22\r\n\r\nbody";
    let mut parser = HeadParser::new();
    parser.advance(buf);
    parser.advance(buf);
    parser.advance(buf);
    let stored: usize = parser.lines().iter().map(|l| l.len() + 2).sum();
    assert_eq!(parser.cursor(), stored);
    assert!(is_end(&parser.advance(buf)));
    assert_eq!(parser.cursor(), stored + 2);
    assert_eq!(&buf[parser.cursor()..], b"body");
}
