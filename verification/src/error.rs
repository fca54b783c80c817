//! Error taxonomy of the deployment and serving pipeline.

use vstd::prelude::*;
use crate::text::concat;

verus! {

/// Why an archive-internal path was refused.
#[derive(Clone, Copy, Debug, PartialEq, Eq, Structural)]
pub enum UnsafePath {
    /// The path starts at the filesystem root.
    AbsolutePath,
    /// The path holds a parent-directory segment.
    PathTraversal,
    /// The path holds a segment that starts with a dot.
    HiddenEntry,
}

/// What can go wrong while a site is deployed or served.
#[derive(Clone, Copy, Debug, PartialEq, Eq, Structural)]
pub enum SiteError {
    /// The upload is larger than the configured maximum, given in bytes.
    UploadTooLarge { limit: u64 },
    /// The file name does not end in a supported archive suffix.
    UnsupportedFormat,
    /// The archive decoder failed.
    CorruptArchive,
    /// An entry's path was refused by the sanitizer.
    UnsafePath(UnsafePath),
    /// The extracted tree is larger than the quota.
    QuotaExceeded { size: u64, limit: u64 },
    /// Nothing is published under the requested name.
    NotFound,
    /// The request resolved to a place outside the user's tree.
    Forbidden,
    /// A storage operation failed.
    IOFailure,
}

/// An error as the HTTP layer reports it: a class and a message.
#[derive(Clone, Debug, PartialEq, Eq)]
pub enum AppError {
    BadRequest(String),
    Unauthorized(String),
    Forbidden(String),
    NotFound(String),
    Conflict(String),
    PayloadTooLarge(String),
    Internal(String),
}

impl AppError {
    /// The message that the error was made with.
    pub open spec fn detail(&self) -> Seq<char> {
        match *self {
            AppError::BadRequest(m) => m@,
            AppError::Unauthorized(m) => m@,
            AppError::Forbidden(m) => m@,
            AppError::NotFound(m) => m@,
            AppError::Conflict(m) => m@,
            AppError::PayloadTooLarge(m) => m@,
            AppError::Internal(m) => m@,
        }
    }

    /// The HTTP status of each class.
    pub open spec fn spec_status_code(&self) -> u16 {
        match self {
            AppError::BadRequest(_) => 400,
            AppError::Unauthorized(_) => 401,
            AppError::Forbidden(_) => 403,
            AppError::NotFound(_) => 404,
            AppError::Conflict(_) => 409,
            AppError::PayloadTooLarge(_) => 413,
            AppError::Internal(_) => 500,
        }
    }

    /// The words that introduce each class in a description.
    pub open spec fn label(&self) -> Seq<char> {
        match self {
            AppError::BadRequest(_) => "Bad request: "@,
            AppError::Unauthorized(_) => "Unauthorized: "@,
            AppError::Forbidden(_) => "Forbidden: "@,
            AppError::NotFound(_) => "Not found: "@,
            AppError::Conflict(_) => "Conflict: "@,
            AppError::PayloadTooLarge(_) => "Payload too large: "@,
            AppError::Internal(_) => "Internal error: "@,
        }
    }

    /// The HTTP status that the error is answered with.
    #[verifier::when_used_as_spec(spec_status_code)]
    pub fn status_code(&self) -> (r: u16)
        ensures
            r == self.spec_status_code(),
    {
        match self {
            AppError::BadRequest(_) => 400,
            AppError::Unauthorized(_) => 401,
            AppError::Forbidden(_) => 403,
            AppError::NotFound(_) => 404,
            AppError::Conflict(_) => 409,
            AppError::PayloadTooLarge(_) => 413,
            AppError::Internal(_) => 500,
        }
    }

    /// The error in one line: its class, then its message.
    pub fn describe(&self) -> (r: String)
        ensures
            r@ == self.label() + self.detail(),
    {
        match self {
            AppError::BadRequest(m) => concat("Bad request: ", m.as_str()),
            AppError::Unauthorized(m) => concat("Unauthorized: ", m.as_str()),
            AppError::Forbidden(m) => concat("Forbidden: ", m.as_str()),
            AppError::NotFound(m) => concat("Not found: ", m.as_str()),
            AppError::Conflict(m) => concat("Conflict: ", m.as_str()),
            AppError::PayloadTooLarge(m) => concat("Payload too large: ", m.as_str()),
            AppError::Internal(m) => concat("Internal error: ", m.as_str()),
        }
    }

    /// The message that the client is shown: the error's own, except for an
    /// internal error, whose message stays on the server.
    pub fn client_message(&self) -> (r: String)
        ensures
            r@ == if self is Internal {
                "Internal server error"@
            } else {
                self.detail()
            },
    {
        match self {
            AppError::BadRequest(m) => m.clone(),
            AppError::Unauthorized(m) => m.clone(),
            AppError::Forbidden(m) => m.clone(),
            AppError::NotFound(m) => m.clone(),
            AppError::Conflict(m) => m.clone(),
            AppError::PayloadTooLarge(m) => m.clone(),
            AppError::Internal(_) => "Internal server error".to_owned(),
        }
    }
}

impl SiteError {
    /// Whether the client can mend the condition by changing the request.
    pub open spec fn spec_is_client_fixable(&self) -> bool {
        !(self is IOFailure)
    }

    /// Whether the client can mend the condition by changing the request.
    #[verifier::when_used_as_spec(spec_is_client_fixable)]
    pub fn is_client_fixable(&self) -> (r: bool)
        ensures
            r == self.spec_is_client_fixable(),
    {
        match self {
            SiteError::IOFailure => false,
            _ => true,
        }
    }
}

} // verus!
