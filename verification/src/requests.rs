//! The errors of the request-reading layer as the proxy reports them,
//! including the case where no upstream server is left to take a request.
use vstd::prelude::*;
use crate::headers::{LengthField, content_length_field, content_length_of};
use crate::request::Request;

verus! {

/// The most bytes a request head may take.
pub const MAX_HEADERS_SIZE: usize = 8000;

/// The largest body a request may announce.
pub const MAX_BODY_SIZE: usize = 10000000;

/// The most headers a request head may hold.
pub const MAX_NUM_HEADERS: usize = 32;

/// Why a request could not be handled.
#[derive(Debug)]
pub enum Error {
    /// The client closed the connection before a whole request arrived, after
    /// sending this many bytes.
    IncompleteRequest(usize),
    /// The bytes are not an HTTP request.
    MalformedRequest(httparse::Error),
    /// The `content-length` header is not a number.
    InvalidContentLength,
    /// The body does not have the announced length.
    ContentLengthMismatch,
    /// The announced body is larger than `MAX_BODY_SIZE`.
    RequestBodyTooLarge,
    /// Reading or writing a connection failed.
    ConnectionError(std::io::Error),
    /// No upstream server is available to handle the request.
    UpstreamServerUnavailable,
}

/// The body length announced by the request's first `content-length` header:
/// `Ok(None)` without one, `InvalidContentLength` when it is not a number.
pub fn get_content_length(request: &Request) -> (r: Result<Option<usize>, Error>)
    ensures
        match content_length_field(request@.headers) {
            LengthField::Absent => r matches Ok(None),
            LengthField::Length(n) => r matches Ok(Some(m)) && m == n,
            LengthField::Invalid => r matches Err(Error::InvalidContentLength),
        },
{
    match content_length_of(&request.headers) {
        LengthField::Absent => Ok(None),
        LengthField::Length(n) => Ok(Some(n)),
        LengthField::Invalid => Err(Error::InvalidContentLength),
    }
}

} // verus!
