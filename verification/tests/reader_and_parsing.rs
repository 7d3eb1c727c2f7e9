use minihttp::buf_reader::{buffered_byte_reads, BufReader};
use minihttp::headers::Headers;
use minihttp::parse::{parse_header, parse_status_line, parse_uint, str_eq, trimmed, usize_to_string};
use minihttp::source::MemSource;

#[test]
fn physical_reads_stay_under_one_per_buffer() {
    let data: Vec<u8> = (0..100u8).collect();
    let (bytes, reads) = buffered_byte_reads(data.clone(), 8, 100);
    assert_eq!(bytes, data);
    assert!(reads <= 13);
}

#[test]
fn physical_reads_with_tiny_buffer() {
    let data = vec![9u8; 5];
    let (bytes, reads) = buffered_byte_reads(data.clone(), 1, 5);
    assert_eq!(bytes, data);
    assert!(reads <= 5);
}

#[test]
fn physical_reads_partial_drain() {
    let data = vec![7u8; 64];
    let (bytes, reads) = buffered_byte_reads(data, 32, 10);
    assert_eq!(bytes, vec![7u8; 10]);
    assert!(reads <= 1);
}

#[test]
fn buffer_serves_without_new_reads() {
    let source = MemSource::new(b"abcdefgh".to_vec());
    let mut reader = BufReader::with_capacity(4, source);
    assert_eq!(reader.buffer(), b"");
    let first = reader.read(2).unwrap();
    assert_eq!(first, b"ab".to_vec());
    assert_eq!(reader.buffer(), b"cd");
    let second = reader.read(2).unwrap();
    assert_eq!(second, b"cd".to_vec());
}

#[test]
fn large_read_bypasses_buffer() {
    let source = MemSource::new(b"0123456789".to_vec());
    let mut reader = BufReader::with_capacity(4, source);
    let all = reader.read(10).unwrap();
    assert_eq!(all, b"0123456789".to_vec());
    assert_eq!(reader.buffer(), b"");
}

#[test]
fn fill_and_consume() {
    let source = MemSource::new(b"xyz".to_vec());
    let mut reader = BufReader::with_capacity(8, source);
    reader.fill_buf().unwrap();
    assert_eq!(reader.buffer(), b"xyz");
    reader.consume(2);
    assert_eq!(reader.buffer(), b"z");
    reader.discard_buffer();
    assert_eq!(reader.buffer(), b"");
}

#[test]
fn status_line_parses_code_and_reason() {
    let (code, reason) = parse_status_line("HTTP/1.1 404 Not Found");
    assert_eq!(code, 404);
    assert_eq!(reason, "Not Found");
}

#[test]
fn status_line_without_reason() {
    let (code, reason) = parse_status_line("HTTP/1.1 200");
    assert_eq!(code, 200);
    assert_eq!(reason, "");
}

#[test]
fn status_line_garbage_falls_back() {
    let (code, reason) = parse_status_line("not a status line at all");
    assert_eq!(code, 503);
    assert_eq!(reason, "Server did not provide a status line");
}

#[test]
fn header_line_splits_and_lowercases() {
    let (key, value) = parse_header("Content-Type: text/html".to_string()).unwrap();
    assert_eq!(key, "content-type");
    assert_eq!(value, "text/html");
}

#[test]
fn header_line_strips_only_one_space() {
    let (key, value) = parse_header("X-K:  two spaces".to_string()).unwrap();
    assert_eq!(key, "x-k");
    assert_eq!(value, " two spaces");
}

#[test]
fn header_line_without_space() {
    let (key, value) = parse_header("X-K:v".to_string()).unwrap();
    assert_eq!(key, "x-k");
    assert_eq!(value, "v");
}

#[test]
fn header_line_without_colon_is_no_header() {
    assert!(parse_header("no colon here".to_string()).is_none());
}

#[test]
fn headers_insert_get_remove() {
    let mut headers = Headers::new();
    headers.insert("a".to_string(), "1".to_string());
    headers.insert("b".to_string(), "2".to_string());
    headers.insert("a".to_string(), "3".to_string());
    assert_eq!(headers.len(), 2);
    assert_eq!(headers.get("a").unwrap(), "3");
    assert_eq!(headers.get("b").unwrap(), "2");
    headers.remove("a");
    assert!(headers.get("a").is_none());
    assert_eq!(headers.len(), 1);
}

#[test]
fn unsigned_parsing_matches_usize_rules() {
    assert_eq!(parse_uint("123", false), Some(123));
    assert_eq!(parse_uint("+7", false), Some(7));
    assert_eq!(parse_uint("", false), None);
    assert_eq!(parse_uint("12a", false), None);
    assert_eq!(parse_uint("ff", true), Some(255));
    assert_eq!(parse_uint("1E", true), Some(30));
    assert_eq!(parse_uint("zz", true), None);
    assert_eq!(parse_uint("99999999999999999999999999", false), None);
}

#[test]
fn trimming_and_text_equality() {
    assert_eq!(trimmed("  padded\t"), "padded");
    assert_eq!(trimmed(""), "");
    assert!(str_eq("same", "same"));
    assert!(!str_eq("same", "different"));
}

#[test]
fn decimal_rendering() {
    assert_eq!(usize_to_string(0), "0");
    assert_eq!(usize_to_string(16384), "16384");
}
