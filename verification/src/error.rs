//! The error kinds the library distinguishes: body-decoding failures, and
//! the operation-level kinds a caller maps outside failures into.
use vstd::prelude::*;

verus! {

/// Why decoding a request body failed.
#[derive(Clone, Copy, Debug, PartialEq, Eq, Structural)]
pub enum DecodeError {
    /// The Content-Type header carries no non-empty `boundary=` token.
    MissingBoundary,
    /// After all parts were read, the filename or the content is still empty.
    InvalidUpload,
}

/// The error taxonomy of the request pipeline: stream failures, credential
/// store failures, body-decoding failures, and unmatched routes or files.
#[derive(Debug)]
pub enum HttpError {
    Io(String),
    Store(String),
    Decode(DecodeError),
    NotFound,
}

impl HttpError {
    /// A short description of the error kind.
    pub fn describe(&self) -> (r: &'static str)
        ensures
            r@ == match self {
                HttpError::Io(_) => "IO error"@,
                HttpError::Store(_) => "store error"@,
                HttpError::Decode(DecodeError::MissingBoundary) => "Missing boundary"@,
                HttpError::Decode(DecodeError::InvalidUpload) => "Invalid file upload"@,
                HttpError::NotFound => "not found"@,
            },
    {
        match self {
            HttpError::Io(_) => "IO error",
            HttpError::Store(_) => "store error",
            HttpError::Decode(DecodeError::MissingBoundary) => "Missing boundary",
            HttpError::Decode(DecodeError::InvalidUpload) => "Invalid file upload",
            HttpError::NotFound => "not found",
        }
    }
}

} // verus!
