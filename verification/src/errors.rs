//! The ways in which a request can fail, and the HTTP status that each is
//! answered with.

use vstd::prelude::*;

verus! {

/// The kinds of failure that a client can tell apart.
#[derive(Clone, Copy, Debug, PartialEq, Eq, Structural)]
pub enum ErrorKind {
    BadRequest,
    Forbidden,
    NotFound,
    Conflict,
    InternalError,
}

impl ErrorKind {
    /// The HTTP status code of this kind.
    pub open spec fn code(self) -> u16 {
        match self {
            ErrorKind::BadRequest => 400,
            ErrorKind::Forbidden => 403,
            ErrorKind::NotFound => 404,
            ErrorKind::Conflict => 409,
            ErrorKind::InternalError => 500,
        }
    }

    /// The HTTP status code of this kind.
    pub fn http_code(&self) -> (code: u16)
        ensures
            code == self.code(),
    {
        match self {
            ErrorKind::BadRequest => 400,
            ErrorKind::Forbidden => 403,
            ErrorKind::NotFound => 404,
            ErrorKind::Conflict => 409,
            ErrorKind::InternalError => 500,
        }
    }
}

/// Why a request was refused.
#[derive(Debug)]
pub enum SyncError {
    /// The secret that came with a request for an access token is wrong.
    InvalidSecret,
    /// The request's access token is not one that was handed out.
    InvalidAccessToken,
    /// No slot has the name that the request gives.
    SlotNotFound,
    /// The slot already has a session, so none can be opened.
    SyncAlreadyOpen,
    /// The slot has no session that could be resumed.
    NothingToResume,
    /// The slot has no session, and the request needs one.
    NoOpenSync,
    /// The request's session token is not the session's current one.
    TokenMismatch,
    /// A path of the diff is empty, rooted, or has a `.` or `..` component.
    UnsafePath(String),
    /// The sizes of the files to send add up to more than 64 bits hold.
    TransferTooLarge,
    /// The session expects no file at this path.
    UnknownFile(String),
    /// The body that came for a file is not as long as the file should be.
    SizeMismatch { expected: u64, written: u64 },
    /// The file at this path has not arrived, so the session cannot end.
    NotTransferred(String),
    /// The identifiers of a session are not well formed, not all different,
    /// or not as many as the session has files.
    UnusableIdentifiers,
}

/// A `SyncError` as a plain value.
pub enum SyncErrorView {
    InvalidSecret,
    InvalidAccessToken,
    SlotNotFound,
    SyncAlreadyOpen,
    NothingToResume,
    NoOpenSync,
    TokenMismatch,
    UnsafePath(Seq<char>),
    TransferTooLarge,
    UnknownFile(Seq<char>),
    SizeMismatch { expected: u64, written: u64 },
    NotTransferred(Seq<char>),
    UnusableIdentifiers,
}

impl View for SyncError {
    type V = SyncErrorView;

    open spec fn view(&self) -> SyncErrorView {
        match self {
            SyncError::InvalidSecret => SyncErrorView::InvalidSecret,
            SyncError::InvalidAccessToken => SyncErrorView::InvalidAccessToken,
            SyncError::SlotNotFound => SyncErrorView::SlotNotFound,
            SyncError::SyncAlreadyOpen => SyncErrorView::SyncAlreadyOpen,
            SyncError::NothingToResume => SyncErrorView::NothingToResume,
            SyncError::NoOpenSync => SyncErrorView::NoOpenSync,
            SyncError::TokenMismatch => SyncErrorView::TokenMismatch,
            SyncError::UnsafePath(p) => SyncErrorView::UnsafePath(p@),
            SyncError::TransferTooLarge => SyncErrorView::TransferTooLarge,
            SyncError::UnknownFile(p) => SyncErrorView::UnknownFile(p@),
            SyncError::SizeMismatch { expected, written } => SyncErrorView::SizeMismatch {
                expected: *expected,
                written: *written,
            },
            SyncError::NotTransferred(p) => SyncErrorView::NotTransferred(p@),
            SyncError::UnusableIdentifiers => SyncErrorView::UnusableIdentifiers,
        }
    }
}

impl SyncErrorView {
    /// The kind that the error is reported as.
    pub open spec fn kind(self) -> ErrorKind {
        match self {
            SyncErrorView::InvalidSecret => ErrorKind::BadRequest,
            SyncErrorView::InvalidAccessToken => ErrorKind::Forbidden,
            SyncErrorView::SlotNotFound => ErrorKind::NotFound,
            SyncErrorView::SyncAlreadyOpen => ErrorKind::Conflict,
            SyncErrorView::NothingToResume => ErrorKind::Conflict,
            SyncErrorView::NoOpenSync => ErrorKind::NotFound,
            SyncErrorView::TokenMismatch => ErrorKind::Forbidden,
            SyncErrorView::UnsafePath(_) => ErrorKind::BadRequest,
            SyncErrorView::TransferTooLarge => ErrorKind::BadRequest,
            SyncErrorView::UnknownFile(_) => ErrorKind::BadRequest,
            SyncErrorView::SizeMismatch { .. } => ErrorKind::BadRequest,
            SyncErrorView::NotTransferred(_) => ErrorKind::BadRequest,
            SyncErrorView::UnusableIdentifiers => ErrorKind::InternalError,
        }
    }
}

impl SyncError {
    /// The kind that the error is reported as.
    pub fn kind(&self) -> (kind: ErrorKind)
        ensures
            kind == self@.kind(),
    {
        match self {
            SyncError::InvalidSecret => ErrorKind::BadRequest,
            SyncError::InvalidAccessToken => ErrorKind::Forbidden,
            SyncError::SlotNotFound => ErrorKind::NotFound,
            SyncError::SyncAlreadyOpen => ErrorKind::Conflict,
            SyncError::NothingToResume => ErrorKind::Conflict,
            SyncError::NoOpenSync => ErrorKind::NotFound,
            SyncError::TokenMismatch => ErrorKind::Forbidden,
            SyncError::UnsafePath(_) => ErrorKind::BadRequest,
            SyncError::TransferTooLarge => ErrorKind::BadRequest,
            SyncError::UnknownFile(_) => ErrorKind::BadRequest,
            SyncError::SizeMismatch { .. } => ErrorKind::BadRequest,
            SyncError::NotTransferred(_) => ErrorKind::BadRequest,
            SyncError::UnusableIdentifiers => ErrorKind::InternalError,
        }
    }

    /// The HTTP status code that the error is answered with.
    pub fn http_code(&self) -> (code: u16)
        ensures
            code == self@.kind().code(),
    {
        self.kind().http_code()
    }
}

} // verus!
