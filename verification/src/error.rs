use vstd::prelude::*;

verus! {

/// Internal error of the storage layer: an opaque message, produced where an
/// operation cannot be attributed to bad client input.
#[derive(Debug)]
pub struct Error {
    pub message: String,
}

impl Error {
    /// Builds an error from a message string.
    pub fn from_string(s: String) -> (r: Error)
        ensures
            r.message@ == s@,
    {
        Error { message: s }
    }

    /// The error message, for logging at the boundary.
    pub fn message(&self) -> (r: &String)
        ensures
            r@ == self.message@,
    {
        &self.message
    }
}

/// The S3 wire-level error codes that the protocol adapter can produce.
#[derive(Clone, Copy, PartialEq, Eq, Structural, Debug)]
pub enum S3ErrorCode {
    NoSuchBucket,
    NoSuchKey,
    NoSuchUpload,
    InvalidRequest,
    InvalidPart,
    UnexpectedContent,
    BadDigest,
    AccessDenied,
    IncompleteBody,
    RangeNotSatisfiable,
    InternalError,
}

} // verus!
