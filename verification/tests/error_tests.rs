use gfs_master::error::FsError;

#[test]
fn every_kind_has_its_status() {
    assert_eq!(FsError::InvalidInput.status_code(), 400);
    assert_eq!(FsError::Unauthorised.status_code(), 401);
    assert_eq!(FsError::NotFound.status_code(), 404);
    assert_eq!(FsError::AlreadyExists.status_code(), 409);
    assert_eq!(FsError::InvalidData.status_code(), 422);
    assert_eq!(FsError::Conflict.status_code(), 500);
    assert_eq!(FsError::IoFailure.status_code(), 500);
    assert_eq!(FsError::Unavailable.status_code(), 503);
}
