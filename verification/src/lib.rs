//! An HTTP/1.1 client core for memory-constrained environments.
//!
//! The crate wraps an abstract byte-stream transport in a buffered reader,
//! parses a response's status line and headers, and decodes the body under
//! one of three framing rules: close-terminated, fixed content-length, or
//! chunked transfer-encoding, optionally following redirects.

use vstd::prelude::*;

pub mod source;
pub mod buf_reader;
pub mod headers;
pub mod parse;
pub mod response;
pub mod connection;

verus! {

use crate::source::TransportError;

/// Everything that can go wrong while reading or following a response.
#[derive(Clone, Copy, PartialEq, Eq, Debug, Structural)]
pub enum Error {
    /// The transport failed; the payload is the transport's own error.
    IoError(TransportError),
    /// A chunk-size line was too long or did not hold a hexadecimal number.
    MalformedChunkLength,
    /// The line closing a chunk was longer than the two expected bytes.
    MalformedChunkEnd,
    /// A `Content-Length` header value was not a decimal number in range.
    MalformedContentLength,
    /// The header block (or trailer block) exceeded its configured ceiling.
    HeadersOverflow,
    /// The status line exceeded its configured ceiling.
    StatusLineOverflow,
    /// A materialized body was requested as text but is not valid UTF-8.
    InvalidUtf8InBody,
    /// A line of the response (status line, header, trailer) is not valid UTF-8.
    InvalidUtf8InResponse,
    /// A redirect status arrived without a `Location` header.
    RedirectLocationMissing,
    /// A non-ASCII host label could not be converted to its ASCII form.
    PunycodeConversionFailed,
    /// A redirect chain ran past the configured hop limit.
    TooManyRedirects,
}

} // verus!
