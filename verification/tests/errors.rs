use harmony::errors::{ErrorKind, SyncError};

#[test]
fn each_kind_has_its_status_code() {
    assert_eq!(ErrorKind::BadRequest.http_code(), 400);
    assert_eq!(ErrorKind::Forbidden.http_code(), 403);
    assert_eq!(ErrorKind::NotFound.http_code(), 404);
    assert_eq!(ErrorKind::Conflict.http_code(), 409);
    assert_eq!(ErrorKind::InternalError.http_code(), 500);
}

#[test]
fn each_error_has_its_kind() {
    let cases = vec![
        (SyncError::InvalidSecret, ErrorKind::BadRequest),
        (SyncError::InvalidAccessToken, ErrorKind::Forbidden),
        (SyncError::SlotNotFound, ErrorKind::NotFound),
        (SyncError::SyncAlreadyOpen, ErrorKind::Conflict),
        (SyncError::NothingToResume, ErrorKind::Conflict),
        (SyncError::NoOpenSync, ErrorKind::NotFound),
        (SyncError::TokenMismatch, ErrorKind::Forbidden),
        (SyncError::UnsafePath("../x".to_string()), ErrorKind::BadRequest),
        (SyncError::TransferTooLarge, ErrorKind::BadRequest),
        (SyncError::UnknownFile("x".to_string()), ErrorKind::BadRequest),
        (SyncError::SizeMismatch { expected: 5, written: 4 }, ErrorKind::BadRequest),
        (SyncError::NotTransferred("x".to_string()), ErrorKind::BadRequest),
        (SyncError::UnusableIdentifiers, ErrorKind::InternalError),
    ];
    for (error, kind) in cases {
        assert_eq!(error.kind(), kind, "{:?}", error);
        assert_eq!(error.http_code(), kind.http_code(), "{:?}", error);
    }
}
