use vstd::prelude::*;

use crate::buffer::FrameBuffer;
use crate::parse::{parse_frame, spec_parse_frame, lemma_frame_model_bounds, Frame, FrameModel};
use crate::request::{HttpError, HeaderMap, PendingRequest};
use crate::scan::copy_range;

verus! {

/// What one buffer read leads to.
#[derive(Debug)]
pub enum FrameOutcome {
    /// The peer closed while nothing was pending: end the connection
    /// without invoking the handler and without a response.
    Closed,
    /// A fully framed request, body included: hand it to the handler,
    /// respond, then continue or end as `should_close` says.
    Ready { request: PendingRequest },
    /// The head is framed but the declared body is not yet complete: read
    /// exactly `missing` more bytes from the transport and complete the
    /// request, then respond as for `Ready`.
    AwaitBody { request: PendingRequest, missing: usize },
}

/// Per-connection framing state: the frame buffer and the termination
/// decision for the time after the in-flight response.
pub struct Connection {
    pub buf: FrameBuffer,
    pub closing: bool,
}

/// The window a read presents to the parser: the unconsumed leftover bytes,
/// then the newly read bytes.
pub open spec fn frame_input(pre: Connection, data: Seq<u8>) -> Seq<u8> {
    pre.buf.storage@.take(pre.buf.unconsumed as int) + data
}

/// Body bytes already present in the parsed window: the full declared span
/// when it lies within the window, otherwise nothing — a partial body is
/// never taken from the window, it is completed by a supplementary read.
pub open spec fn present_body(content: Seq<u8>, body_start: int, declared: int) -> Seq<u8> {
    if declared > 0 && body_start + declared <= content.len() {
        content.subrange(body_start, body_start + declared)
    } else {
        Seq::empty()
    }
}

/// First byte offset past everything the parsed request consumed.
pub open spec fn spec_consumed_end(content: Seq<u8>, m: FrameModel) -> int {
    m.body_start + present_body(content, m.body_start, m.declared_body_length).len()
}

/// Full account of one `on_frame_read` step.
///
/// A read of zero bytes while nothing is unconsumed closes the connection.
/// Otherwise the window (leftover bytes, then the new bytes) is parsed; a
/// parse fault is returned as the step's condition and ends the connection.
/// On success the window is compacted past the consumed span — past the
/// whole window when the read saturated the buffer — and the step reports
/// the request as complete (`Ready`) or short of its declared body
/// (`AwaitBody`).  The connection is marked closing when the buffer
/// saturated or when no pipelined leftover remains; the response is still
/// owed first.
pub open spec fn step_post(
    pre: Connection,
    post: Connection,
    data: Seq<u8>,
    r: Result<FrameOutcome, HttpError>,
) -> bool {
    let unc0 = pre.buf.unconsumed as int;
    let content = frame_input(pre, data);
    let valid = content.len() as int;
    let cap = pre.buf.capacity();
    if data.len() == 0 && unc0 == 0 {
        &&& r matches Ok(FrameOutcome::Closed)
        &&& post.closing
        &&& post.buf == pre.buf
    } else {
        match spec_parse_frame(content) {
            Err(e) => {
                &&& r == Err::<FrameOutcome, HttpError>(e)
                &&& post.closing
                &&& post.buf.unconsumed == pre.buf.unconsumed
                &&& post.buf.storage@ == pre.buf.storage@.take(unc0) + data + pre.buf.storage@.skip(
                    unc0 + data.len(),
                )
            },
            Ok(m) => {
                let body = present_body(content, m.body_start, m.declared_body_length);
                let consumed_end = if valid == cap {
                    valid
                } else {
                    spec_consumed_end(content, m)
                };
                let leftover = valid - consumed_end;
                &&& post.buf.unconsumed == leftover
                &&& post.buf.storage@ == content.subrange(consumed_end, valid) + Seq::<u8>::new(
                    (cap - leftover) as nat,
                    |i: int| 0u8,
                )
                &&& post.closing == (valid == cap || leftover == 0)
                &&& if body.len() == m.declared_body_length {
                    r matches Ok(FrameOutcome::Ready { request }) && request@.line == m.line
                        && request@.headers == m.headers && request@.declared_body_length
                        == m.declared_body_length && request@.body_so_far == body
                } else {
                    r matches Ok(FrameOutcome::AwaitBody { request, missing }) && request@.line
                        == m.line && request@.headers == m.headers
                        && request@.declared_body_length == m.declared_body_length
                        && request@.body_so_far == body && missing == m.declared_body_length
                        - body.len()
                }
            },
        }
    }
}

impl Connection {
    pub open spec fn wf(self) -> bool {
        self.buf.wf()
    }

    /// A fresh connection around a zeroed buffer of the given capacity.
    pub fn new(capacity: usize) -> (r: Connection)
        ensures
            r.wf(),
            r.buf.capacity() == capacity,
            r.buf.unconsumed == 0,
            !r.closing,
    {
        Connection { buf: FrameBuffer::new(capacity), closing: false }
    }

    /// How many bytes the next transport read may deliver at most.
    pub fn read_limit(&self) -> (r: usize)
        requires
            self.wf(),
        ensures
            r == self.buf.capacity() - self.buf.unconsumed,
    {
        self.buf.free_len()
    }

    /// Whether the connection must end once the in-flight response is
    /// written.
    pub fn should_close(&self) -> (r: bool)
        ensures
            r == self.closing,
    {
        self.closing
    }

    /// Take the bytes of one transport read and drive the framing step:
    /// parse the window, lift out the body span already present, compact
    /// the buffer, and decide termination.  `step_post` states the whole
    /// account.
    pub fn on_frame_read(&mut self, data: &Vec<u8>) -> (r: Result<FrameOutcome, HttpError>)
        requires
            old(self).wf(),
            data@.len() <= old(self).buf.capacity() - old(self).buf.unconsumed,
        ensures
            final(self).wf(),
            final(self).buf.capacity() == old(self).buf.capacity(),
            step_post(*old(self), *final(self), data@, r),
    {
        if data.len() == 0 && self.buf.unconsumed == 0 {
            self.closing = true;
            return Ok(FrameOutcome::Closed);
        }
        let unc0: usize = self.buf.unconsumed;
        let cap: usize = self.buf.storage.len();
        self.buf.fill(data);
        let valid: usize = unc0 + data.len();
        let content: Vec<u8> = copy_range(&self.buf.storage, 0, valid);
        proof {
            assert(content@ =~= frame_input(*old(self), data@));
        }
        let f: Frame = match parse_frame(&content) {
            Ok(f) => f,
            Err(e) => {
                self.closing = true;
                return Err(e);
            },
        };
        let declared: usize = f.declared_body_length;
        let has_full: bool = declared > 0 && declared <= valid && f.body_start <= valid - declared;
        let body: Vec<u8> = if has_full {
            copy_range(&content, f.body_start, f.body_start + declared)
        } else {
            Vec::new()
        };
        proof {
            assert(body@ =~= present_body(content@, f@.body_start, f@.declared_body_length));
        }
        let present: usize = body.len();
        let saturated: bool = valid == cap;
        let consumed_end: usize = if saturated {
            valid
        } else {
            f.body_start + present
        };
        self.buf.compact(consumed_end, valid);
        let leftover: usize = self.buf.unconsumed;
        self.closing = saturated || leftover == 0;
        proof {
            assert(self.buf.storage@ =~= content@.subrange(consumed_end as int, valid as int)
                + Seq::<u8>::new(
                (old(self).buf.capacity() - (valid - consumed_end)) as nat,
                |i: int| 0u8,
            ));
        }
        let request = PendingRequest {
            line: f.line,
            headers: f.headers,
            declared_body_length: declared,
            body_so_far: body,
        };
        if present == declared {
            Ok(FrameOutcome::Ready { request })
        } else {
            let missing: usize = declared - present;
            Ok(FrameOutcome::AwaitBody { request, missing })
        }
    }
}

/// The response header block; at present always empty.
pub fn format_http_heads(heads: &HeaderMap) -> (r: Vec<u8>)
    ensures
        r@ == Seq::<u8>::empty(),
{
    let r: Vec<u8> = Vec::new();
    proof {
        assert(r@ =~= Seq::<u8>::empty());
    }
    r
}

/// The fixed response head: status line, empty header block, blank line.
pub open spec fn spec_response_head() -> Seq<u8> {
    seq![
        72u8, 84u8, 84u8, 80u8, 47u8, 49u8, 46u8, 49u8, 32u8, 50u8, 48u8, 48u8, 32u8, 79u8, 75u8,
        13u8, 10u8, 13u8, 10u8,
    ]
}

/// The wire response: `HTTP/1.1 200 OK`, the (empty) header block, a blank
/// line, then the handler's payload.
pub fn build_response(resp_body: &Vec<u8>, heads: &HeaderMap) -> (r: Vec<u8>)
    ensures
        r@ == spec_response_head() + resp_body@,
{
    let mut r: Vec<u8> = vec![
        72u8, 84u8, 84u8, 80u8, 47u8, 49u8, 46u8, 49u8, 32u8, 50u8, 48u8, 48u8, 32u8, 79u8, 75u8,
        13u8, 10u8,
    ];
    let block: Vec<u8> = format_http_heads(heads);
    let mut i: usize = 0;
    while i < block.len()
        invariant
            i <= block@.len(),
            block@ == Seq::<u8>::empty(),
            r@ == seq![
                72u8, 84u8, 84u8, 80u8, 47u8, 49u8, 46u8, 49u8, 32u8, 50u8, 48u8, 48u8, 32u8, 79u8,
                75u8, 13u8, 10u8,
            ] + block@.take(i as int),
        decreases block@.len() - i,
    {
        r.push(block[i]);
        i = i + 1;
    }
    r.push(13u8);
    r.push(10u8);
    proof {
        assert(r@ =~= spec_response_head());
    }
    let n: usize = resp_body.len();
    let mut j: usize = 0;
    while j < n
        invariant
            j <= n,
            n == resp_body@.len(),
            r@ == spec_response_head() + resp_body@.take(j as int),
        decreases n - j,
    {
        r.push(resp_body[j]);
        proof {
            assert(r@ =~= spec_response_head() + resp_body@.take(j + 1 as int));
        }
        j = j + 1;
    }
    proof {
        assert(resp_body@.take(n as int) =~= resp_body@);
    }
    r
}

/// A request that declares no body is delivered at once, with an empty body
/// and exactly the headers that stood before the blank line.
pub proof fn lemma_empty_body_delivery(
    pre: Connection,
    post: Connection,
    data: Seq<u8>,
    r: Result<FrameOutcome, HttpError>,
    m: FrameModel,
)
    requires
        step_post(pre, post, data, r),
        !(data.len() == 0 && pre.buf.unconsumed == 0),
        spec_parse_frame(frame_input(pre, data)) == Ok::<FrameModel, HttpError>(m),
        m.declared_body_length == 0,
    ensures
        r matches Ok(FrameOutcome::Ready { request }) && request@.body_so_far == Seq::<u8>::empty()
            && request@.headers == m.headers && request@.line == m.line,
{
    lemma_frame_model_bounds(frame_input(pre, data), m);
}

/// A declared body whose full span already lies in the window is delivered
/// in that same step: the body is exactly the declared number of bytes
/// following the blank line, and no supplementary read is asked for.
pub proof fn lemma_full_body_in_first_read(
    pre: Connection,
    post: Connection,
    data: Seq<u8>,
    r: Result<FrameOutcome, HttpError>,
    m: FrameModel,
)
    requires
        step_post(pre, post, data, r),
        !(data.len() == 0 && pre.buf.unconsumed == 0),
        spec_parse_frame(frame_input(pre, data)) == Ok::<FrameModel, HttpError>(m),
        m.declared_body_length > 0,
        m.body_start + m.declared_body_length <= frame_input(pre, data).len(),
    ensures
        r matches Ok(FrameOutcome::Ready { request }) && request@.body_so_far == frame_input(
            pre,
            data,
        ).subrange(m.body_start, m.body_start + m.declared_body_length)
            && request@.body_so_far.len() == m.declared_body_length,
{
    lemma_frame_model_bounds(frame_input(pre, data), m);
}

/// A body completed by a supplementary read equals the window-resident
/// prefix followed by the supplementary bytes, and its length is exactly
/// the declared length.
pub proof fn lemma_split_body_reassembled(
    pre: Connection,
    post: Connection,
    data: Seq<u8>,
    request: PendingRequest,
    missing: usize,
    extra: Seq<u8>,
    completed: Seq<u8>,
    m: FrameModel,
)
    requires
        step_post(pre, post, data, Ok(FrameOutcome::AwaitBody { request, missing })),
        !(data.len() == 0 && pre.buf.unconsumed == 0),
        spec_parse_frame(frame_input(pre, data)) == Ok::<FrameModel, HttpError>(m),
        extra.len() == missing,
        completed == request@.body_so_far + extra,
    ensures
        completed == present_body(frame_input(pre, data), m.body_start, m.declared_body_length)
            + extra,
        completed.len() == m.declared_body_length,
{
    lemma_frame_model_bounds(frame_input(pre, data), m);
}

/// Pipelined bytes survive compaction: when the read did not saturate the
/// buffer, the bytes of the window past the consumed span stand unmodified
/// at the front of the buffer, and exactly they are the unconsumed prefix.
pub proof fn lemma_pipelined_bytes_preserved(
    pre: Connection,
    post: Connection,
    data: Seq<u8>,
    r: Result<FrameOutcome, HttpError>,
    m: FrameModel,
)
    requires
        step_post(pre, post, data, r),
        !(data.len() == 0 && pre.buf.unconsumed == 0),
        spec_parse_frame(frame_input(pre, data)) == Ok::<FrameModel, HttpError>(m),
        frame_input(pre, data).len() < pre.buf.capacity(),
    ensures
        post.buf.unconsumed == frame_input(pre, data).len() - spec_consumed_end(
            frame_input(pre, data),
            m,
        ),
        post.buf.storage@.take(post.buf.unconsumed as int) == frame_input(pre, data).subrange(
            spec_consumed_end(frame_input(pre, data), m),
            frame_input(pre, data).len() as int,
        ),
{
    let content = frame_input(pre, data);
    lemma_frame_model_bounds(content, m);
    let consumed_end = spec_consumed_end(content, m);
    let valid = content.len() as int;
    let leftover = valid - consumed_end;
    assert(post.buf.storage@.take(leftover) =~= content.subrange(consumed_end, valid));
}

/// A read of zero bytes while no bytes are pending closes the connection:
/// no request is delivered and no handler runs.
pub proof fn lemma_quiet_close(
    pre: Connection,
    post: Connection,
    data: Seq<u8>,
    r: Result<FrameOutcome, HttpError>,
)
    requires
        step_post(pre, post, data, r),
        data.len() == 0,
        pre.buf.unconsumed == 0,
    ensures
        r matches Ok(FrameOutcome::Closed),
        post.closing,
{
}

/// A read that saturates the buffer still yields the in-flight request —
/// the response is owed before the connection ends — and marks the
/// connection closing.
pub proof fn lemma_saturation_closes_after_response(
    pre: Connection,
    post: Connection,
    data: Seq<u8>,
    r: Result<FrameOutcome, HttpError>,
    m: FrameModel,
)
    requires
        step_post(pre, post, data, r),
        !(data.len() == 0 && pre.buf.unconsumed == 0),
        spec_parse_frame(frame_input(pre, data)) == Ok::<FrameModel, HttpError>(m),
        frame_input(pre, data).len() == pre.buf.capacity(),
    ensures
        post.closing,
        (r matches Ok(FrameOutcome::Ready { .. })) || (r matches Ok(
            FrameOutcome::AwaitBody { .. },
        )),
{
    lemma_frame_model_bounds(frame_input(pre, data), m);
}

} // verus!
