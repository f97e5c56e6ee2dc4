//! Incremental HTTP/1.1 request framing over a bounded receive buffer.
//!
//! The library assembles bytes arriving in discrete, arbitrarily-sized
//! transport reads into structured requests: a request line, a header map,
//! and a `Content-Length`-delimited body.  A fixed-capacity frame buffer is
//! reused and compacted between requests so that pipelined bytes of a next
//! request are preserved.  All transport I/O stays outside the library: a
//! driver reads bytes and hands them in as plain values.

pub mod buffer;

pub mod scan;

pub mod request;

pub mod parse;

pub mod connection;
