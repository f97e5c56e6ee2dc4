use http_framing::parse::{parse_frame, parse_request_line};
use http_framing::request::{parse_content_length, HeaderMap, HttpError};

#[test]
fn request_line_tokens() {
    let line = parse_request_line(&b"GET /x HTTP/1.1".to_vec()).unwrap();
    assert_eq!(line.method, b"GET".to_vec());
    assert_eq!(line.target, b"/x".to_vec());
    assert_eq!(line.version, b"HTTP/1.1".to_vec());
}

#[test]
fn request_line_extra_tokens_are_ignored() {
    let line = parse_request_line(&b"GET /x HTTP/1.1 extra".to_vec()).unwrap();
    assert_eq!(line.version, b"HTTP/1.1".to_vec());
}

#[test]
fn request_line_adjacent_spaces_make_an_empty_token() {
    let line = parse_request_line(&b"GET  /x HTTP/1.1".to_vec()).unwrap();
    assert_eq!(line.method, b"GET".to_vec());
    assert_eq!(line.target, b"".to_vec());
    assert_eq!(line.version, b"/x".to_vec());
}

#[test]
fn request_line_with_two_tokens_is_malformed() {
    assert_eq!(
        parse_request_line(&b"GET /x".to_vec()).unwrap_err(),
        HttpError::MalformedRequestLine
    );
    assert_eq!(
        parse_request_line(&b"".to_vec()).unwrap_err(),
        HttpError::MalformedRequestLine
    );
}

#[test]
fn header_value_starts_after_colon_and_space() {
    let frame = parse_frame(&b"GET / HTTP/1.1\r\nName: value\r\n\r\n".to_vec()).unwrap();
    assert_eq!(
        frame.headers.get(&b"Name".to_vec()),
        Some(b"value".to_vec())
    );
}

#[test]
fn header_value_without_space_loses_its_first_byte() {
    let frame = parse_frame(&b"GET / HTTP/1.1\r\nName:value\r\n\r\n".to_vec()).unwrap();
    assert_eq!(frame.headers.get(&b"Name".to_vec()), Some(b"alue".to_vec()));
}

#[test]
fn header_line_ending_at_the_colon_has_an_empty_value() {
    let frame = parse_frame(&b"GET / HTTP/1.1\r\nName:\r\n\r\n".to_vec()).unwrap();
    assert_eq!(frame.headers.get(&b"Name".to_vec()), Some(b"".to_vec()));
}

#[test]
fn later_duplicate_header_overwrites_earlier() {
    let frame = parse_frame(&b"GET / HTTP/1.1\r\nA: 1\r\nA: 2\r\n\r\n".to_vec()).unwrap();
    assert_eq!(frame.headers.get(&b"A".to_vec()), Some(b"2".to_vec()));
}

#[test]
fn body_offset_follows_the_blank_line() {
    let frame = parse_frame(&b"POST / HTTP/1.1\r\nContent-Length: 5\r\n\r\nhello".to_vec())
        .unwrap();
    assert_eq!(frame.declared_body_length, 5);
    assert_eq!(frame.body_start, 38);
}

#[test]
fn missing_content_length_means_zero() {
    let frame = parse_frame(&b"GET / HTTP/1.1\r\nHost: a\r\n\r\n".to_vec()).unwrap();
    assert_eq!(frame.declared_body_length, 0);
}

#[test]
fn content_length_plain_number() {
    assert_eq!(parse_content_length(&b"5".to_vec()), Some(5));
    assert_eq!(parse_content_length(&b"0".to_vec()), Some(0));
    assert_eq!(parse_content_length(&b"1024".to_vec()), Some(1024));
}

#[test]
fn content_length_accepts_one_leading_plus() {
    assert_eq!(parse_content_length(&b"+12".to_vec()), Some(12));
    assert_eq!(parse_content_length(&b"++12".to_vec()), None);
}

#[test]
fn content_length_rejects_junk() {
    assert_eq!(parse_content_length(&b"".to_vec()), None);
    assert_eq!(parse_content_length(&b"+".to_vec()), None);
    assert_eq!(parse_content_length(&b"12a".to_vec()), None);
    assert_eq!(parse_content_length(&b" 12".to_vec()), None);
    assert_eq!(parse_content_length(&b"-1".to_vec()), None);
}

#[test]
fn content_length_rejects_overflow() {
    assert_eq!(
        parse_content_length(&b"99999999999999999999999999999999999999".to_vec()),
        None
    );
}

#[test]
fn header_map_overwrites_and_misses() {
    let mut map = HeaderMap::new();
    map.insert(b"A".to_vec(), b"1".to_vec());
    map.insert(b"B".to_vec(), b"2".to_vec());
    map.insert(b"A".to_vec(), b"3".to_vec());
    assert_eq!(map.get(&b"A".to_vec()), Some(b"3".to_vec()));
    assert_eq!(map.get(&b"B".to_vec()), Some(b"2".to_vec()));
    assert_eq!(map.get(&b"C".to_vec()), None);
}
