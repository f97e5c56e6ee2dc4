use http_framing::connection::{Connection, FrameOutcome};
use http_framing::request::HttpError;

fn ready(outcome: Result<FrameOutcome, HttpError>) -> http_framing::request::PendingRequest {
    match outcome {
        Ok(FrameOutcome::Ready { request }) => request,
        Ok(FrameOutcome::AwaitBody { .. }) => panic!("expected a complete request, body pending"),
        Ok(FrameOutcome::Closed) => panic!("expected a complete request, connection closed"),
        Err(e) => panic!("expected a complete request, got error {:?}", e),
    }
}

#[test]
fn simple_get_request_line_and_headers() {
    let mut conn = Connection::new(1024);
    let data = b"GET /x HTTP/1.1\r\nHost: a\r\n\r\n".to_vec();
    let request = ready(conn.on_frame_read(&data));
    assert_eq!(request.line.method, b"GET".to_vec());
    assert_eq!(request.line.target, b"/x".to_vec());
    assert_eq!(request.line.version, b"HTTP/1.1".to_vec());
    assert_eq!(request.headers.get(&b"Host".to_vec()), Some(b"a".to_vec()));
    assert_eq!(request.headers.get(&b"Absent".to_vec()), None);
    assert_eq!(request.declared_body_length, 0);
    assert!(request.body_so_far.is_empty());
}

#[test]
fn zero_content_length_delivers_empty_body() {
    let mut conn = Connection::new(1024);
    let data = b"GET /x HTTP/1.1\r\nHost: a\r\nContent-Length: 0\r\n\r\n".to_vec();
    let request = ready(conn.on_frame_read(&data));
    assert_eq!(request.declared_body_length, 0);
    assert!(request.body_so_far.is_empty());
    assert_eq!(request.headers.get(&b"Host".to_vec()), Some(b"a".to_vec()));
    assert_eq!(
        request.headers.get(&b"Content-Length".to_vec()),
        Some(b"0".to_vec())
    );
}

#[test]
fn post_with_body_in_single_read() {
    let mut conn = Connection::new(1024);
    let data = b"POST /x HTTP/1.1\r\nContent-Length: 5\r\n\r\nhello".to_vec();
    let request = ready(conn.on_frame_read(&data));
    assert_eq!(request.declared_body_length, 5);
    assert_eq!(request.body_so_far, b"hello".to_vec());
}

#[test]
fn malformed_request_line_is_fatal() {
    let mut conn = Connection::new(1024);
    let data = b"BADLINE\r\n\r\n".to_vec();
    let outcome = conn.on_frame_read(&data);
    assert_eq!(outcome.unwrap_err(), HttpError::MalformedRequestLine);
    assert!(conn.should_close());
}

#[test]
fn body_in_second_read_is_reassembled() {
    let mut conn = Connection::new(1024);
    let data = b"POST /x HTTP/1.1\r\nContent-Length: 5\r\n\r\n".to_vec();
    let (mut request, missing) = match conn.on_frame_read(&data) {
        Ok(FrameOutcome::AwaitBody { request, missing }) => (request, missing),
        _ => panic!("expected the body to be pending"),
    };
    assert_eq!(missing, 5);
    assert!(request.body_so_far.is_empty());
    let extra = b"hello".to_vec();
    request.complete_body(&extra).unwrap();
    assert_eq!(request.body_so_far, b"hello".to_vec());
    assert_eq!(request.body_so_far.len(), request.declared_body_length);
}

#[test]
fn short_supplementary_read_is_incomplete_body() {
    let mut conn = Connection::new(1024);
    let data = b"POST /x HTTP/1.1\r\nContent-Length: 5\r\n\r\n".to_vec();
    let mut request = match conn.on_frame_read(&data) {
        Ok(FrameOutcome::AwaitBody { request, .. }) => request,
        _ => panic!("expected the body to be pending"),
    };
    let extra = b"hel".to_vec();
    assert_eq!(request.complete_body(&extra), Err(HttpError::IncompleteBody));
    assert!(request.body_so_far.is_empty());
}

#[test]
fn non_text_supplementary_read_is_rejected() {
    let mut conn = Connection::new(1024);
    let data = b"POST /x HTTP/1.1\r\nContent-Length: 2\r\n\r\n".to_vec();
    let mut request = match conn.on_frame_read(&data) {
        Ok(FrameOutcome::AwaitBody { request, .. }) => request,
        _ => panic!("expected the body to be pending"),
    };
    let extra = vec![0xffu8, 0xfeu8];
    assert_eq!(
        request.complete_body(&extra),
        Err(HttpError::InvalidHeaderEncoding)
    );
}

#[test]
fn pipelined_second_request_survives_compaction() {
    let mut conn = Connection::new(1024);
    let data = b"GET /a HTTP/1.1\r\nHost: x\r\n\r\nGET /b HTTP/1.1\r\nHost: y\r\n\r\n".to_vec();
    let first = ready(conn.on_frame_read(&data));
    assert_eq!(first.line.target, b"/a".to_vec());
    assert!(!conn.should_close());
    let second_bytes = b"GET /b HTTP/1.1\r\nHost: y\r\n\r\n";
    assert_eq!(&conn.buf.storage[..second_bytes.len()], &second_bytes[..]);
    assert_eq!(conn.buf.unconsumed, second_bytes.len());
    // every byte past the leftover is zeroed
    assert!(conn.buf.storage[second_bytes.len()..].iter().all(|&b| b == 0));
    let empty = Vec::new();
    let second = ready(conn.on_frame_read(&empty));
    assert_eq!(second.line.target, b"/b".to_vec());
    assert_eq!(second.headers.get(&b"Host".to_vec()), Some(b"y".to_vec()));
    assert!(conn.should_close());
}

#[test]
fn zero_read_on_empty_buffer_closes() {
    let mut conn = Connection::new(1024);
    let empty = Vec::new();
    match conn.on_frame_read(&empty) {
        Ok(FrameOutcome::Closed) => {}
        _ => panic!("expected the connection to close"),
    }
    assert!(conn.should_close());
}

#[test]
fn saturating_read_still_yields_the_request() {
    let wire = b"GET /x HTTP/1.1\r\nHost: a\r\n\r\n";
    let mut conn = Connection::new(wire.len());
    let request = ready(conn.on_frame_read(&wire.to_vec()));
    assert_eq!(request.line.target, b"/x".to_vec());
    assert!(conn.should_close());
    assert_eq!(conn.buf.unconsumed, 0);
}

#[test]
fn connection_without_leftover_closes_after_request() {
    let mut conn = Connection::new(1024);
    let data = b"GET /x HTTP/1.1\r\nHost: a\r\n\r\n".to_vec();
    let _ = ready(conn.on_frame_read(&data));
    assert!(conn.should_close());
}

#[test]
fn non_utf8_window_is_invalid_header_encoding() {
    let mut conn = Connection::new(1024);
    let mut data = b"GET /x HTTP/1.1\r\nHost: ".to_vec();
    data.push(0xff);
    data.extend_from_slice(b"\r\n\r\n");
    assert_eq!(
        conn.on_frame_read(&data).unwrap_err(),
        HttpError::InvalidHeaderEncoding
    );
}

#[test]
fn bad_content_length_value_is_fatal() {
    let mut conn = Connection::new(1024);
    let data = b"GET /x HTTP/1.1\r\nContent-Length: 5x\r\n\r\n".to_vec();
    assert_eq!(
        conn.on_frame_read(&data).unwrap_err(),
        HttpError::InvalidContentLength
    );
}

#[test]
fn request_without_terminator_has_no_body_region() {
    let mut conn = Connection::new(1024);
    let data = b"GET / HTTP/1.1".to_vec();
    let request = ready(conn.on_frame_read(&data));
    assert_eq!(request.line.method, b"GET".to_vec());
    assert_eq!(request.line.target, b"/".to_vec());
    assert_eq!(request.line.version, b"HTTP/1.1".to_vec());
    assert_eq!(request.declared_body_length, 0);
    assert!(request.body_so_far.is_empty());
    assert!(conn.should_close());
}

#[test]
fn partial_body_in_window_is_left_as_unconsumed_bytes() {
    let mut conn = Connection::new(1024);
    let data = b"POST /x HTTP/1.1\r\nContent-Length: 5\r\n\r\nhe".to_vec();
    let (request, missing) = match conn.on_frame_read(&data) {
        Ok(FrameOutcome::AwaitBody { request, missing }) => (request, missing),
        _ => panic!("expected the body to be pending"),
    };
    // the partial span is not lifted out of the window: the whole declared
    // body is expected from the supplementary read
    assert!(request.body_so_far.is_empty());
    assert_eq!(missing, 5);
    assert_eq!(conn.buf.unconsumed, 2);
    assert_eq!(&conn.buf.storage[..2], b"he");
    assert_eq!(conn.read_limit(), 1022);
}

#[test]
fn headerless_line_starts_the_body() {
    let mut conn = Connection::new(1024);
    let data = b"POST / HTTP/1.1\r\nContent-Length: 3\r\nxyz".to_vec();
    let request = ready(conn.on_frame_read(&data));
    assert_eq!(request.body_so_far, b"xyz".to_vec());
    assert_eq!(
        request.headers.get(&b"Content-Length".to_vec()),
        Some(b"3".to_vec())
    );
}
