use gfs_master::error::FsError;
use gfs_master::master_client_utils::User;
use gfs_master::user_store::UserDatabase;

fn user(name: &str, password: &str) -> User {
    User { username: name.to_string(), password: password.to_string() }
}

#[test]
fn register_then_login() {
    let mut db = UserDatabase::new(&vec![]);
    assert_eq!(db.register(&user("alice", "s3cret")), Ok(()));
    assert_eq!(db.login(&user("alice", "s3cret")), Ok(()));
}

#[test]
fn register_login_scenario() {
    let mut db = UserDatabase::new(&vec![]);
    assert_eq!(db.register(&user("alice", "s3cret")), Ok(()));
    let again = db.register(&user("alice", "other"));
    assert_eq!(again, Err(FsError::AlreadyExists));
    assert_eq!(again.err().unwrap().status_code(), 409);
    let wrong = db.login(&user("alice", "wrong"));
    assert_eq!(wrong, Err(FsError::InvalidData));
    assert_eq!(wrong.err().unwrap().status_code(), 422);
    assert_eq!(db.login(&user("alice", "s3cret")), Ok(()));
    // The second registration did not change the password.
    assert_eq!(db.login(&user("alice", "other")), Err(FsError::InvalidData));
}

#[test]
fn unknown_user_is_not_found() {
    let db = UserDatabase::new(&vec![]);
    let answer = db.login(&user("bob", ""));
    assert_eq!(answer, Err(FsError::NotFound));
    assert_eq!(answer.err().unwrap().status_code(), 404);
}

#[test]
fn saved_users_are_loaded() {
    let saved = vec![user("a", "1"), user("b", "2"), user("a", "3")];
    let mut db = UserDatabase::new(&saved);
    assert_eq!(db.login(&user("b", "2")), Ok(()));
    assert_eq!(db.login(&user("a", "3")), Ok(()));
    assert_eq!(db.login(&user("a", "1")), Err(FsError::InvalidData));
    assert_eq!(db.register(&user("b", "x")), Err(FsError::AlreadyExists));
    assert_eq!(db.register(&user("", "")), Ok(()));
    assert_eq!(db.login(&user("", "")), Ok(()));
}
