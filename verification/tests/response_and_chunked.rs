use proxy::chunked::{chunked_body_end, is_chunked_body_complete};
use proxy::response::{parse_response_headers, status_is_ok, ResponseMeta};

#[test]
fn response_head_with_length_and_close() {
    let meta = parse_response_headers(
        b"HTTP/1.1 200 OK\r\nContent-Length: 5\r\nConnection: close\r\n\r\n",
    );
    assert_eq!(meta, ResponseMeta { content_length: Some(5), connection_close: true });
}

#[test]
fn response_head_without_length() {
    let meta = parse_response_headers(b"HTTP/1.1 204 No Content\r\nServer: x\r\n\r\n");
    assert_eq!(meta, ResponseMeta { content_length: None, connection_close: false });
}

#[test]
fn response_head_trims_the_length_value() {
    let meta = parse_response_headers(b"HTTP/1.1 200 OK\r\ncontent-length:  12 \r\n\r\n");
    assert_eq!(meta.content_length, Some(12));
    let meta = parse_response_headers(b"HTTP/1.1 200 OK\nContent-Length:\xc2\xa07\xc2\xa0\n\n");
    assert_eq!(meta.content_length, Some(7));
}

#[test]
fn response_head_ignores_bad_lengths() {
    let meta = parse_response_headers(
        b"HTTP/1.1 200 OK\r\nContent-Length: 3\r\nContent-Length: nope\r\n\r\n",
    );
    assert_eq!(meta.content_length, Some(3));
    let meta = parse_response_headers(b"Content-Length: 4\r\nContent-Length: 9");
    assert_eq!(meta.content_length, Some(9));
}

#[test]
fn response_head_skips_status_like_lines() {
    let meta = parse_response_headers(b"HTTP/1.1 200 OK\r\nHTTP/x: 5\r\nConnection: keep-alive\r\n\r\n");
    assert_eq!(meta, ResponseMeta { content_length: None, connection_close: false });
}

#[test]
fn chunked_body_complete_cases() {
    assert!(is_chunked_body_complete(b"5\r\nhello\r\n0\r\n\r\n"));
    assert!(is_chunked_body_complete(b"0\r\n\r\n"));
    assert!(is_chunked_body_complete(b"0\r\n\r\nextra"));
    assert!(is_chunked_body_complete(b"a\r\n0123456789\r\n0\r\n\r\n"));
    assert!(is_chunked_body_complete(b" 3 \r\nabc\r\n0\r\n\r\n"));
    assert!(is_chunked_body_complete(b"5\r\nhello\r\n0\r\nX-Trailer: v\r\n\r\n"));
    assert!(is_chunked_body_complete(b"1\r\na\r\n0\r\nA: 1\r\nB: 2\r\n\r\n"));
}

#[test]
fn chunked_body_incomplete_cases() {
    assert!(!is_chunked_body_complete(b""));
    assert!(!is_chunked_body_complete(b"3\r\nabcXY0\r\n\r\n"));
    assert!(!is_chunked_body_complete(b"0\r\nX-Trailer: v\r\n"));
    assert!(!is_chunked_body_complete(b"5\r\nhel"));
    assert!(!is_chunked_body_complete(b"5\r\nhello\r\n"));
    assert!(!is_chunked_body_complete(b"0\r\n"));
    assert!(!is_chunked_body_complete(b"0\r\n\r"));
    assert!(!is_chunked_body_complete(b"x\r\n\r\n"));
    assert!(!is_chunked_body_complete(b"3;ext=1\r\nabc\r\n0\r\n\r\n"));
    assert!(!is_chunked_body_complete(b"ffffffffffffffffff\r\n"));
    assert!(!is_chunked_body_complete(b"ffffffffffffffff\r\nab"));
}

#[test]
fn chunked_body_stays_complete_when_extended() {
    let mut body = b"4\r\nwiki\r\n0\r\n\r\n".to_vec();
    assert!(is_chunked_body_complete(&body));
    body.extend_from_slice(b"GET / HTTP/1.1\r\n");
    assert!(is_chunked_body_complete(&body));
}

#[test]
fn encoded_chunks_are_complete() {
    let chunks: Vec<Vec<u8>> = vec![vec![b'x'; 17], b"hello".to_vec(), vec![0u8; 300]];
    let mut body = Vec::new();
    for c in &chunks {
        body.extend_from_slice(format!("{:x}\r\n", c.len()).as_bytes());
        body.extend_from_slice(c);
        body.extend_from_slice(b"\r\n");
    }
    assert!(!is_chunked_body_complete(&body));
    body.extend_from_slice(b"0\r\n\r\n");
    assert!(is_chunked_body_complete(&body));
}

#[test]
fn chunked_body_end_is_where_the_encoding_stops() {
    assert_eq!(chunked_body_end(b"0\r\n\r\n"), Some(5));
    assert_eq!(chunked_body_end(b"2\r\nab\r\n0\r\n\r\nGET"), Some(12));
    assert_eq!(chunked_body_end(b"0\r\nT: v\r\n\r\nrest"), Some(11));
    assert_eq!(chunked_body_end(b"2\r\nab\r\n"), None);
}

#[test]
fn health_check_status_is_ok_only_for_200() {
    assert!(status_is_ok(b"HTTP/1.1 200 OK\r\n\r\n"));
    assert!(status_is_ok(b"HTTP/1.0 200\r\n"));
    assert!(status_is_ok(b"HTTP/1.1 200"));
    assert!(!status_is_ok(b"HTTP/1.1 503 Service Unavailable\r\n"));
    assert!(!status_is_ok(b"HTTP/1.1 2000 Odd\r\n"));
    assert!(!status_is_ok(b"HTTP/1.1 20"));
    assert!(!status_is_ok(b"SMTP 200 OK"));
    assert!(!status_is_ok(b""));
}

#[test]
fn response_close_needs_the_close_value() {
    let meta = parse_response_headers(b"HTTP/1.1 200 OK\r\nconnection: CLOSE\r\n\r\n");
    assert!(meta.connection_close);
    let meta = parse_response_headers(b"HTTP/1.1 200 OK\r\nConnection: close, x\r\n\r\n");
    assert!(!meta.connection_close);
}

#[test]
fn chunked_size_lines_may_be_spelled_freely() {
    assert!(is_chunked_body_complete(b"+3 \r\nabc\r\n 00\r\n\r\n"));
    assert_eq!(chunked_body_end(b"A\r\n0123456789\r\n0\r\nX: 1\r\n\r\nnext"), Some(26));
    assert!(!is_chunked_body_complete(b"3\r\nabc\r\n-0\r\n\r\n"));
}
