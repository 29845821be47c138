use proxy::check_valid::check::is_valid_read_len as checked_read_len;
use proxy::check_valid::{buffer_window_end, is_valid_read_len};
use proxy::config::{default_health_interval, default_health_path};
use proxy::scan::{crlf_finder, find_bytes};
use proxy::text::{
    ascii_whitespace_prefix_len, bytes_eq_ignore_ascii_case, parse_unsigned_bytes,
    whitespace_trim_bounds,
};

#[test]
fn crlf_finder_finds_the_first_crlf() {
    assert_eq!(crlf_finder(b"abc\r\ndef\r\n"), Some(3));
    assert_eq!(crlf_finder(b"\r\n"), Some(0));
    assert_eq!(crlf_finder(b"a\r\r\n"), Some(2));
    assert_eq!(crlf_finder(b"abc"), None);
    assert_eq!(crlf_finder(b"\r"), None);
    assert_eq!(crlf_finder(b"\n\r"), None);
    assert_eq!(crlf_finder(b""), None);
}

#[test]
fn find_bytes_from_an_offset() {
    assert_eq!(find_bytes(b"ab\r\nab\r\n", b"\r\n", 3), Some(6));
    assert_eq!(find_bytes(b"ab\r\n", b"\r\n", 4), None);
    assert_eq!(find_bytes(b"ab\r\n", b"\r\n", 9), None);
}

#[test]
fn read_len_zero_means_closed() {
    assert!(!is_valid_read_len(0));
    assert!(is_valid_read_len(1));
    assert!(is_valid_read_len(1024));
    assert!(checked_read_len(7));
}

#[test]
fn buffer_window_end_detects_end_of_head() {
    assert!(buffer_window_end(&b"GET / HTTP/1.1\r\n\r\n".to_vec()));
    assert!(buffer_window_end(&b"\r\n\r\nbody".to_vec()));
    assert!(!buffer_window_end(&b"GET / HTTP/1.1\r\n\r".to_vec()));
    assert!(!buffer_window_end(&b"\r\n\n\r\n".to_vec()));
    assert!(!buffer_window_end(&Vec::new()));
}

#[test]
fn config_defaults() {
    assert_eq!(default_health_interval(), 10);
    assert_eq!(default_health_path(), "/health".to_string());
}

#[test]
fn ascii_case_insensitive_equality() {
    assert!(bytes_eq_ignore_ascii_case(b"Content-Length", b"cONTENT-lENGTH"));
    assert!(!bytes_eq_ignore_ascii_case(b"Host", b"Hosts"));
    assert!(!bytes_eq_ignore_ascii_case(b"Host", b"Hist"));
    assert!(bytes_eq_ignore_ascii_case(b"", b""));
    assert!(!bytes_eq_ignore_ascii_case(b"[", b"{"));
}

#[test]
fn ascii_whitespace_prefix() {
    assert_eq!(ascii_whitespace_prefix_len(b" \t\r\n\x0cx "), 5);
    assert_eq!(ascii_whitespace_prefix_len(b"\x0bx"), 0);
    assert_eq!(ascii_whitespace_prefix_len(b"   "), 3);
}

#[test]
fn unicode_whitespace_trim() {
    assert_eq!(whitespace_trim_bounds(b"  12\t "), (2, 4));
    let nbsp_digits = b"\xc2\xa012\xe3\x80\x80";
    assert_eq!(whitespace_trim_bounds(nbsp_digits), (2, 4));
    assert_eq!(whitespace_trim_bounds(b"\x0b5\x0b"), (1, 2));
    assert_eq!(whitespace_trim_bounds(b"\xe2\x80\x8a7\xe2\x80\xaf"), (3, 4));
    assert_eq!(whitespace_trim_bounds(b"\xe2\x80\x8b7"), (0, 4));
    let (s, e) = whitespace_trim_bounds(b" \t ");
    assert_eq!(e - s, 0);
}

#[test]
fn unsigned_parsing() {
    assert_eq!(parse_unsigned_bytes(b"0", 10), Some(0));
    assert_eq!(parse_unsigned_bytes(b"1234", 10), Some(1234));
    assert_eq!(parse_unsigned_bytes(b"+12", 10), Some(12));
    assert_eq!(parse_unsigned_bytes(b"+", 10), None);
    assert_eq!(parse_unsigned_bytes(b"", 10), None);
    assert_eq!(parse_unsigned_bytes(b"-1", 10), None);
    assert_eq!(parse_unsigned_bytes(b"1a", 10), None);
    assert_eq!(parse_unsigned_bytes(b"1a", 16), Some(26));
    assert_eq!(parse_unsigned_bytes(b"FF", 16), Some(255));
    assert_eq!(parse_unsigned_bytes(b"g", 16), None);
    let max = usize::MAX.to_string();
    assert_eq!(parse_unsigned_bytes(max.as_bytes(), 10), Some(usize::MAX));
    let over = format!("{}0", usize::MAX);
    assert_eq!(parse_unsigned_bytes(over.as_bytes(), 10), None);
    let hex_max = format!("{:x}", usize::MAX);
    assert_eq!(parse_unsigned_bytes(hex_max.as_bytes(), 16), Some(usize::MAX));
    for s in ["7", "+7", "007", "18446744073709551616", "x", " 1"] {
        assert_eq!(parse_unsigned_bytes(s.as_bytes(), 10), s.parse::<usize>().ok());
        assert_eq!(
            parse_unsigned_bytes(s.as_bytes(), 16),
            usize::from_str_radix(s, 16).ok()
        );
    }
}
