use http_framing::buffer::FrameBuffer;
use http_framing::connection::{build_response, format_http_heads};
use http_framing::request::HeaderMap;
use http_framing::scan::is_valid_utf8;

#[test]
fn fresh_buffer_is_zeroed() {
    let buf = FrameBuffer::new(16);
    assert_eq!(buf.unconsumed, 0);
    assert_eq!(buf.storage, vec![0u8; 16]);
}

#[test]
fn fill_appends_after_the_unconsumed_prefix() {
    let mut buf = FrameBuffer::new(8);
    buf.fill(&b"abc".to_vec());
    buf.unconsumed = 3;
    buf.fill(&b"de".to_vec());
    assert_eq!(&buf.storage[..5], b"abcde");
    assert_eq!(buf.free_len(), 5);
}

#[test]
fn compact_moves_the_tail_to_the_front_and_zeroes() {
    let mut buf = FrameBuffer::new(8);
    buf.fill(&b"abcdef".to_vec());
    buf.compact(2, 6);
    assert_eq!(buf.unconsumed, 4);
    assert_eq!(buf.storage, b"cdef\0\0\0\0".to_vec());
}

#[test]
fn compact_of_everything_empties_the_buffer() {
    let mut buf = FrameBuffer::new(4);
    buf.fill(&b"abcd".to_vec());
    buf.compact(4, 4);
    assert_eq!(buf.unconsumed, 0);
    assert_eq!(buf.storage, vec![0u8; 4]);
}

#[test]
fn response_wraps_the_handler_payload() {
    let heads = HeaderMap::new();
    let r = build_response(&b"Hello World...".to_vec(), &heads);
    assert_eq!(r, b"HTTP/1.1 200 OK\r\n\r\nHello World...".to_vec());
}

#[test]
fn response_header_block_is_empty() {
    let mut heads = HeaderMap::new();
    heads.insert(b"X".to_vec(), b"y".to_vec());
    assert_eq!(format_http_heads(&heads), Vec::<u8>::new());
}

#[test]
fn utf8_validation_accepts_ascii_and_multibyte() {
    assert!(is_valid_utf8(&b"plain ascii".to_vec()));
    assert!(is_valid_utf8(&"héllo wörld".as_bytes().to_vec()));
    assert!(is_valid_utf8(&"\u{1F600}\u{6F22}".as_bytes().to_vec()));
    assert!(is_valid_utf8(&Vec::new()));
}

#[test]
fn utf8_validation_rejects_bad_sequences() {
    assert!(!is_valid_utf8(&vec![0xff]));
    assert!(!is_valid_utf8(&vec![0x80]));
    assert!(!is_valid_utf8(&vec![0xc0, 0xaf]));
    assert!(!is_valid_utf8(&vec![0xe0, 0x80, 0x80]));
    assert!(!is_valid_utf8(&vec![0xed, 0xa0, 0x80]));
    assert!(!is_valid_utf8(&vec![0xf4, 0x90, 0x80, 0x80]));
    let mut truncated = "é".as_bytes().to_vec();
    truncated.pop();
    assert!(!is_valid_utf8(&truncated));
}
