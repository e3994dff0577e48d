//! The error taxonomy of a download session. Every failure aborts the
//! session that raised it; none of these is retried automatically.

use vstd::prelude::*;

verus! {

/// Why a session step failed.
#[derive(Clone, Copy, Debug, PartialEq, Eq, Structural)]
pub enum DownloadError {
    /// A transport operation (connect, write, read) failed.
    ConnectionError,
    /// The response has no header/body separator, or its header block is
    /// not valid UTF-8.
    MalformedResponse,
    /// The status line does not consist of exactly four whitespace-separated
    /// tokens, or its second token is not a status code.
    InvalidStatusLine,
    /// A required `Content-Length` header is absent.
    MissingHeader,
    /// A header value that must be a non-negative integer is not one.
    ParseError,
    /// A chunk response carried a status code outside {200, 206}.
    UnexpectedStatus,
}

impl DownloadError {
    /// A fixed human-readable description of the error.
    pub fn describe(&self) -> (r: &'static str)
        ensures
            r@.len() > 0,
            self is ConnectionError ==> r@ == "transport failure"@,
            self is MalformedResponse ==> r@ == "malformed response"@,
            self is InvalidStatusLine ==> r@ == "invalid status line"@,
            self is MissingHeader ==> r@ == "required header not found"@,
            self is ParseError ==> r@ == "header value is not a valid integer"@,
            self is UnexpectedStatus ==> r@ == "unexpected status code"@,
    {
        proof {
            reveal_strlit("transport failure");
            reveal_strlit("malformed response");
            reveal_strlit("invalid status line");
            reveal_strlit("required header not found");
            reveal_strlit("header value is not a valid integer");
            reveal_strlit("unexpected status code");
        }
        match self {
            DownloadError::ConnectionError => "transport failure",
            DownloadError::MalformedResponse => "malformed response",
            DownloadError::InvalidStatusLine => "invalid status line",
            DownloadError::MissingHeader => "required header not found",
            DownloadError::ParseError => "header value is not a valid integer",
            DownloadError::UnexpectedStatus => "unexpected status code",
        }
    }
}

} // verus!
