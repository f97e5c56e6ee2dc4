use vstd::prelude::*;

use crate::scan::{
    find_crlf,
    find_byte,
    find_crlf_at,
    find_byte_at,
    lemma_find_crlf_at,
    lemma_find_byte_at,
    copy_range,
    is_valid_utf8,
    utf8_ok,
    SP,
    COLON,
};
use crate::request::{
    HttpError,
    RequestLine,
    RequestLineModel,
    HeaderMap,
    spec_parse_content_length,
    parse_content_length,
};

verus! {

/// Head of a fully framed request: the request line, the headers, the
/// declared body length, and the byte offset at which the body region
/// begins inside the parsed window.
pub struct Frame {
    pub line: RequestLine,
    pub headers: HeaderMap,
    pub declared_body_length: usize,
    pub body_start: usize,
}

pub struct FrameModel {
    pub line: RequestLineModel,
    pub headers: Map<Seq<u8>, Seq<u8>>,
    pub declared_body_length: int,
    pub body_start: int,
}

impl View for Frame {
    type V = FrameModel;

    open spec fn view(&self) -> FrameModel {
        FrameModel {
            line: self.line@,
            headers: self.headers@,
            declared_body_length: self.declared_body_length as int,
            body_start: self.body_start as int,
        }
    }
}

/// The first line as three space-separated tokens: method, target, version.
/// Fewer than three tokens is a malformed request line; tokens after the
/// third are ignored.
pub open spec fn spec_request_line(line: Seq<u8>) -> Option<RequestLineModel> {
    let p0 = find_byte_at(line, SP, 0);
    if p0 == line.len() {
        None
    } else {
        let p1 = find_byte_at(line, SP, p0 + 1);
        if p1 == line.len() {
            None
        } else {
            let p2 = find_byte_at(line, SP, p1 + 1);
            Some(
                RequestLineModel {
                    method: line.subrange(0, p0),
                    target: line.subrange(p0 + 1, p1),
                    version: line.subrange(p1 + 1, p2),
                },
            )
        }
    }
}

/// Split the first line into its tokens.
pub fn parse_request_line(line: &Vec<u8>) -> (r: Result<RequestLine, HttpError>)
    ensures
        r is Ok <==> spec_request_line(line@) is Some,
        match r {
            Ok(rl) => spec_request_line(line@) == Some(rl@),
            Err(e) => e == HttpError::MalformedRequestLine,
        },
{
    let n: usize = line.len();
    let p0: usize = find_byte(line, SP, 0);
    if p0 == n {
        return Err(HttpError::MalformedRequestLine);
    }
    proof {
        lemma_find_byte_at(line@, SP, 0);
    }
    let p1: usize = find_byte(line, SP, p0 + 1);
    if p1 == n {
        return Err(HttpError::MalformedRequestLine);
    }
    proof {
        lemma_find_byte_at(line@, SP, p0 + 1 as int);
    }
    let p2: usize = find_byte(line, SP, p1 + 1);
    proof {
        lemma_find_byte_at(line@, SP, p1 + 1 as int);
    }
    let method: Vec<u8> = copy_range(line, 0, p0);
    let target: Vec<u8> = copy_range(line, p0 + 1, p1);
    let version: Vec<u8> = copy_range(line, p1 + 1, p2);
    Ok(RequestLine::new_full(method, target, version))
}

/// Result of the header scan: the header map and the byte offset where the
/// body region begins.
pub struct HeadScan {
    pub headers: Map<Seq<u8>, Seq<u8>>,
    pub body_start: int,
}

/// Scan header lines from offset `cur` until a blank line (the body begins
/// right after its CRLF) or a line without a colon (the body begins at that
/// very line), folding each `Name: Value` pair into the accumulator; a later
/// duplicate name overwrites an earlier one.  The value starts two bytes
/// after the colon — one space is expected there — or is empty when the
/// line ends before that.
pub open spec fn scan_headers_from(s: Seq<u8>, cur: int, acc: Map<Seq<u8>, Seq<u8>>) -> HeadScan
    decreases s.len() - cur when 0 <= cur <= s.len()
    via scan_headers_from_decreases
{
    if cur >= s.len() {
        HeadScan { headers: acc, body_start: s.len() as int }
    } else {
        let e = find_crlf_at(s, cur);
        if e == cur {
            HeadScan { headers: acc, body_start: cur + 2 }
        } else {
            let line = s.subrange(cur, e);
            let p = find_byte_at(line, COLON, 0);
            if p == line.len() {
                HeadScan { headers: acc, body_start: cur }
            } else {
                let name = line.subrange(0, p);
                let value = if p + 2 <= line.len() {
                    line.subrange(p + 2, line.len() as int)
                } else {
                    Seq::empty()
                };
                let acc2 = acc.insert(name, value);
                if e == s.len() {
                    HeadScan { headers: acc2, body_start: s.len() as int }
                } else {
                    scan_headers_from(s, e + 2, acc2)
                }
            }
        }
    }
}

#[via_fn]
proof fn scan_headers_from_decreases(s: Seq<u8>, cur: int, acc: Map<Seq<u8>, Seq<u8>>) {
    if 0 <= cur <= s.len() {
        lemma_find_crlf_at(s, cur);
    }
}

/// The body offset the scan reports lies inside the window (or at its very
/// end).
pub proof fn lemma_scan_headers_bounds(s: Seq<u8>, cur: int, acc: Map<Seq<u8>, Seq<u8>>)
    requires
        0 <= cur <= s.len(),
    ensures
        0 <= scan_headers_from(s, cur, acc).body_start <= s.len(),
    decreases s.len() - cur,
{
    if cur >= s.len() {
    } else {
        lemma_find_crlf_at(s, cur);
        let e = find_crlf_at(s, cur);
        if e == cur {
        } else {
            let line = s.subrange(cur, e);
            let p = find_byte_at(line, COLON, 0);
            if p == line.len() {
            } else if e == s.len() {
            } else {
                let name = line.subrange(0, p);
                let value = if p + 2 <= line.len() {
                    line.subrange(p + 2, line.len() as int)
                } else {
                    Seq::empty()
                };
                lemma_scan_headers_bounds(s, e + 2, acc.insert(name, value));
            }
        }
    }
}

/// Scan the header region, filling `headers`.
pub fn scan_headers(content: &Vec<u8>, cur: usize, headers: &mut HeaderMap) -> (bs: usize)
    requires
        cur <= content@.len(),
    ensures
        final(headers)@ == scan_headers_from(content@, cur as int, old(headers)@).headers,
        bs == scan_headers_from(content@, cur as int, old(headers)@).body_start,
        bs <= content@.len(),
    decreases content@.len() - cur,
{
    proof {
        lemma_scan_headers_bounds(content@, cur as int, old(headers)@);
    }
    let n: usize = content.len();
    if cur >= n {
        return n;
    }
    let e: usize = find_crlf(content, cur);
    proof {
        lemma_find_crlf_at(content@, cur as int);
    }
    if e == cur {
        return cur + 2;
    }
    let line: Vec<u8> = copy_range(content, cur, e);
    let p: usize = find_byte(&line, COLON, 0);
    proof {
        lemma_find_byte_at(line@, COLON, 0);
    }
    if p == line.len() {
        return cur;
    }
    let name: Vec<u8> = copy_range(&line, 0, p);
    let value: Vec<u8> = if line.len() - p >= 2 {
        copy_range(&line, p + 2, line.len())
    } else {
        Vec::new()
    };
    proof {
        assert(value@ =~= (if p + 2 <= line@.len() {
            line@.subrange(p + 2 as int, line@.len() as int)
        } else {
            Seq::<u8>::empty()
        }));
    }
    headers.insert(name, value);
    if e == n {
        return n;
    }
    scan_headers(content, e + 2, headers)
}

/// The `Content-Length` header name.
pub open spec fn spec_content_length_key() -> Seq<u8> {
    seq![67u8, 111u8, 110u8, 116u8, 101u8, 110u8, 116u8, 45u8, 76u8, 101u8, 110u8, 103u8, 116u8, 104u8]
}

pub fn content_length_key() -> (r: Vec<u8>)
    ensures
        r@ == spec_content_length_key(),
{
    let r: Vec<u8> = vec![
        67u8, 111u8, 110u8, 116u8, 101u8, 110u8, 116u8, 45u8, 76u8, 101u8, 110u8, 103u8, 116u8,
        104u8,
    ];
    proof {
        assert(r@ =~= spec_content_length_key());
    }
    r
}

/// What parsing the whole valid window means.
///
/// The window must decode as text; the first line must split into at least
/// three tokens; the headers run until a blank line or a line without a
/// colon; the declared body length is the `Content-Length` value, absent
/// meaning zero, and anything unreadable as a byte count refuses the frame.
pub open spec fn spec_parse_frame(content: Seq<u8>) -> Result<FrameModel, HttpError> {
    if !utf8_ok(content) {
        Err(HttpError::InvalidHeaderEncoding)
    } else {
        let e0 = find_crlf_at(content, 0);
        match spec_request_line(content.subrange(0, e0)) {
            None => Err(HttpError::MalformedRequestLine),
            Some(rl) => {
                let hstart = if e0 == content.len() {
                    e0
                } else {
                    e0 + 2
                };
                let hs = scan_headers_from(content, hstart, Map::empty());
                let cl = if hs.headers.contains_key(spec_content_length_key()) {
                    spec_parse_content_length(hs.headers[spec_content_length_key()])
                } else {
                    Some(0)
                };
                match cl {
                    None => Err(HttpError::InvalidContentLength),
                    Some(d) => Ok(
                        FrameModel {
                            line: rl,
                            headers: hs.headers,
                            declared_body_length: d,
                            body_start: hs.body_start,
                        },
                    ),
                }
            },
        }
    }
}

/// A frame model that a successful parse produced has its body offset
/// inside the parsed window and a non-negative declared length.
pub proof fn lemma_frame_model_bounds(content: Seq<u8>, m: FrameModel)
    requires
        spec_parse_frame(content) == Ok::<FrameModel, HttpError>(m),
    ensures
        0 <= m.body_start <= content.len(),
        m.declared_body_length >= 0,
{
    lemma_find_crlf_at(content, 0);
    let e0 = find_crlf_at(content, 0);
    let hstart = if e0 == content.len() as int {
        e0
    } else {
        e0 + 2
    };
    lemma_scan_headers_bounds(content, hstart, Map::empty());
    let hs = scan_headers_from(content, hstart, Map::empty());
    if hs.headers.contains_key(spec_content_length_key()) {
        let v = hs.headers[spec_content_length_key()];
        if spec_parse_content_length(v) is Some {
            crate::request::lemma_digits_val_nonneg(crate::request::cl_digits(v));
        }
    }
}

/// Parse the valid window into a request head.
pub fn parse_frame(content: &Vec<u8>) -> (r: Result<Frame, HttpError>)
    ensures
        match r {
            Ok(f) => spec_parse_frame(content@) == Ok::<FrameModel, HttpError>(f@) && f.body_start
                <= content@.len(),
            Err(e) => spec_parse_frame(content@) == Err::<FrameModel, HttpError>(e),
        },
{
    if !is_valid_utf8(content) {
        return Err(HttpError::InvalidHeaderEncoding);
    }
    let n: usize = content.len();
    let e0: usize = find_crlf(content, 0);
    proof {
        lemma_find_crlf_at(content@, 0);
    }
    let line0: Vec<u8> = copy_range(content, 0, e0);
    let rline: RequestLine = match parse_request_line(&line0) {
        Ok(rl) => rl,
        Err(e) => { return Err(e); },
    };
    let hstart: usize = if e0 == n {
        e0
    } else {
        e0 + 2
    };
    let mut headers: HeaderMap = HeaderMap::new();
    let bs: usize = scan_headers(content, hstart, &mut headers);
    let key: Vec<u8> = content_length_key();
    let declared: usize = match headers.get(&key) {
        Some(val) => match parse_content_length(&val) {
            Some(d) => d,
            None => { return Err(HttpError::InvalidContentLength); },
        },
        None => 0,
    };
    Ok(Frame { line: rline, headers, declared_body_length: declared, body_start: bs })
}

} // verus!
