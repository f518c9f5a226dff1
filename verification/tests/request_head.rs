use multipart_stream::diagnostics::{closing_delimiter, count_matches, partial_boundary_at_end};
use multipart_stream::pattern::{find_from, occurs_at};
use multipart_stream::request::{
    body_complete, extract_boundary, extract_content_length, find_line, is_head_complete,
    next_read_len, parse_count, progress_mark,
};

const HEAD: &[u8] = b"POST /upload HTTP/1.1\r\nHost: 127.0.0.1:8082\r\nContent-Length: 1234\r\nContent-Type: multipart/form-data; boundary=----WebKit7MA4YWxk \r\n\r\n";

#[test]
fn boundary_is_read_from_the_content_type() {
    assert_eq!(extract_boundary(HEAD), b"------WebKit7MA4YWxk".to_vec());
}

#[test]
fn boundary_is_empty_without_a_declaration() {
    assert_eq!(extract_boundary(b"POST / HTTP/1.1\r\nHost: x\r\n\r\n"), Vec::<u8>::new());
    assert_eq!(
        extract_boundary(b"POST / HTTP/1.1\r\nContent-Type: text/plain\r\n\r\n"),
        Vec::<u8>::new()
    );
    assert_eq!(extract_boundary(b""), Vec::<u8>::new());
}

#[test]
fn only_the_first_content_type_line_counts() {
    let head = b"Content-Type: text/plain\r\nContent-Type: multipart/form-data; boundary=x\r\n\r\n";
    assert_eq!(extract_boundary(head), Vec::<u8>::new());
    let head = b"content-type: multipart/form-data; boundary=abc\r\nContent-Type: multipart/form-data; boundary=x\r\n\r\n";
    assert_eq!(extract_boundary(head), b"--abc".to_vec());
}

#[test]
fn boundary_key_is_matched_exactly() {
    let head = b"Content-Type: multipart/form-data; Boundary=abc\r\n\r\n";
    assert_eq!(extract_boundary(head), Vec::<u8>::new());
    let head = b"Content-Type: multipart/form-data; boundary=\r\n\r\n";
    assert_eq!(extract_boundary(head), b"--".to_vec());
}

#[test]
fn length_is_read_from_the_content_length() {
    assert_eq!(extract_content_length(HEAD), 1234);
    assert_eq!(extract_content_length(b"content-LENGTH:42\r\n\r\n"), 42);
    assert_eq!(extract_content_length(b"Content-Length: \t 7 \r\n\r\n"), 7);
    assert_eq!(extract_content_length(b"Content-Length: +7\r\n\r\n"), 7);
    assert_eq!(extract_content_length(b"Content-Length: 12:34\r\n\r\n"), 12);
}

#[test]
fn length_is_zero_where_none_is_written() {
    assert_eq!(extract_content_length(b"Host: x\r\n\r\n"), 0);
    assert_eq!(extract_content_length(b"Content-Length:\r\n\r\n"), 0);
    assert_eq!(extract_content_length(b"Content-Length: abc\r\n\r\n"), 0);
    assert_eq!(extract_content_length(b"Content-Length: -5\r\n\r\n"), 0);
    assert_eq!(extract_content_length(b"Content-Length: 1 2\r\n\r\n"), 0);
    assert_eq!(extract_content_length(b"Content-Length: 12a\r\n\r\n"), 0);
    assert_eq!(extract_content_length(b"Content-Length: :5\r\n\r\n"), 0);
}

#[test]
fn counts_are_decimal_and_fit() {
    assert_eq!(parse_count(b"0"), 0);
    assert_eq!(parse_count(b"007"), 7);
    assert_eq!(parse_count(b"+0"), 0);
    assert_eq!(parse_count(b"+"), 0);
    assert_eq!(parse_count(b""), 0);
    assert_eq!(parse_count(b"++1"), 0);
    assert_eq!(parse_count(b"1+"), 0);
    assert_eq!(parse_count(b" 1"), 0);
    let max = format!("{}", usize::MAX);
    assert_eq!(parse_count(max.as_bytes()), usize::MAX);
    let below = format!("{}", usize::MAX - 1);
    assert_eq!(parse_count(below.as_bytes()), usize::MAX - 1);
    let over = format!("{}0", usize::MAX);
    assert_eq!(parse_count(over.as_bytes()), 0);
    let mut next = max.into_bytes();
    let last = next.len() - 1;
    next[last] += 1;
    assert_eq!(parse_count(&next), 0);
    assert_eq!(parse_count(b"99999999999999999999999999999999"), 0);
}

#[test]
fn lines_are_found_by_their_prefix() {
    assert_eq!(find_line(b"a: 1\r\nb: 2\r\nB: 3", b"b:"), Some((6, 10)));
    assert_eq!(find_line(b"a: 1\r\nb: 2", b"c:"), None);
    assert_eq!(find_line(b"", b"c:"), None);
    assert_eq!(find_line(b"x\nabc", b""), Some((0, 1)));
}

#[test]
fn head_is_complete_at_the_blank_line() {
    assert!(is_head_complete(HEAD));
    assert!(is_head_complete(b"\r\n\r\n"));
    assert!(!is_head_complete(b"\r\n\r"));
    assert!(!is_head_complete(b""));
    assert!(!is_head_complete(b"GET / HTTP/1.1\r\n"));
    assert!(!is_head_complete(b"GET / HTTP/1.1\r\n\r\nx"));
    assert!(!is_head_complete(b"GET / HTTP/1.1\n\n\n\n"));
}

#[test]
fn read_size_follows_the_declared_length() {
    assert_eq!(next_read_len(0, 0, 8192), 8192);
    assert_eq!(next_read_len(0, 1_000_000, 8192), 8192);
    assert_eq!(next_read_len(100, 0, 8192), 100);
    assert_eq!(next_read_len(10_000, 0, 8192), 8192);
    assert_eq!(next_read_len(10_000, 8192, 8192), 1808);
    assert_eq!(next_read_len(10_000, 10_000, 8192), 0);
    assert_eq!(next_read_len(10_000, 10_001, 8192), 0);
    assert_eq!(next_read_len(8192, 0, 8192), 8192);
    assert_eq!(next_read_len(5, 0, 0), 0);
}

#[test]
fn body_is_complete_when_a_declared_length_is_reached() {
    assert!(!body_complete(0, 0));
    assert!(!body_complete(0, 500));
    assert!(!body_complete(10, 9));
    assert!(body_complete(10, 10));
    assert!(body_complete(10, 11));
}

#[test]
fn search_gives_the_first_occurrence_from_a_start() {
    assert_eq!(find_from(b"abcabc", 0, b"bc"), Some(1));
    assert_eq!(find_from(b"abcabc", 1, b"bc"), Some(1));
    assert_eq!(find_from(b"abcabc", 2, b"bc"), Some(4));
    assert_eq!(find_from(b"abcabc", 5, b"bc"), None);
    assert_eq!(find_from(b"abcabc", 7, b"bc"), None);
    assert_eq!(find_from(b"abc", 0, b"abcd"), None);
    assert_eq!(find_from(b"abc", 3, b""), Some(3));
    assert_eq!(find_from(b"abc", 4, b""), None);
    assert_eq!(find_from(b"aaa", 0, b"aa"), Some(0));
    assert!(occurs_at(b"abc", 1, b"bc"));
    assert!(!occurs_at(b"abc", 2, b"bc"));
    assert!(!occurs_at(b"abc", 9, b""));
    assert!(occurs_at(b"abc", 3, b""));
}

#[test]
fn partial_boundary_is_the_shortest_beginning_at_the_end() {
    assert_eq!(partial_boundary_at_end(b"data--", b"----X"), Some(1));
    assert_eq!(partial_boundary_at_end(b"data\r\n--bo", b"--boundary"), Some(4));
    assert_eq!(partial_boundary_at_end(b"data", b"--boundary"), None);
    assert_eq!(partial_boundary_at_end(b"--boundary", b"--boundary"), None);
    assert_eq!(partial_boundary_at_end(b"-", b"--boundary"), Some(1));
    assert_eq!(partial_boundary_at_end(b"", b"--boundary"), None);
    assert_eq!(partial_boundary_at_end(b"abc", b""), None);
    assert_eq!(partial_boundary_at_end(b"xab", b"abab"), Some(2));
}

#[test]
fn matches_are_counted_without_overlap() {
    assert_eq!(count_matches(b"--B a --B b --B--", b"--B"), 3);
    assert_eq!(count_matches(b"aaaa", b"aa"), 2);
    assert_eq!(count_matches(b"aaaaa", b"aa"), 2);
    assert_eq!(count_matches(b"abc", b"x"), 0);
    assert_eq!(count_matches(b"", b"x"), 0);
    assert_eq!(count_matches(b"abc", b""), 4);
    assert_eq!(count_matches(b"", b""), 1);
}

#[test]
fn closing_delimiter_ends_in_two_hyphens() {
    assert_eq!(closing_delimiter(b"----X"), b"----X--".to_vec());
    assert_eq!(closing_delimiter(b""), b"--".to_vec());
}

#[test]
fn progress_lines_come_at_full_tens() {
    assert_eq!(progress_mark(10, 0, 0), Some(10));
    assert_eq!(progress_mark(10, 0, 10), None);
    assert_eq!(progress_mark(20, 3, 10), Some(20));
    assert_eq!(progress_mark(15, 20, 10), None);
    assert_eq!(progress_mark(100, 50, 90), Some(100));
    assert_eq!(progress_mark(0, 10, 0), Some(10));
    assert_eq!(progress_mark(0, 10, 10), None);
    assert_eq!(progress_mark(0, 20, 10), Some(20));
    assert_eq!(progress_mark(0, 15, 10), None);
    assert_eq!(progress_mark(0, 0, 0), None);
    assert_eq!(progress_mark(0, 0, 7), None);
    assert_eq!(progress_mark(7, 10, 0), None);
    assert_eq!(progress_mark(30, 30, 30), None);
}
