use gfs_master::client::{chunk_url, master_url, parse_action, parse_target, update_url, Action, Target};

#[test]
fn targets() {
    for word in ["directory", "dir", "d"] {
        assert_eq!(parse_target(word), Some(Target::Directory));
    }
    for word in ["file", "f"] {
        assert_eq!(parse_target(word), Some(Target::File));
    }
    for word in ["", "files", "D", "c"] {
        assert_eq!(parse_target(word), None);
    }
}

#[test]
fn actions() {
    assert_eq!(parse_action("create"), Some(Action::Create));
    assert_eq!(parse_action("c"), Some(Action::Create));
    assert_eq!(parse_action("read"), Some(Action::Read));
    assert_eq!(parse_action("r"), Some(Action::Read));
    assert_eq!(parse_action("update"), Some(Action::Update));
    assert_eq!(parse_action("u"), Some(Action::Update));
    assert_eq!(parse_action("delete"), Some(Action::Delete));
    assert_eq!(parse_action("d"), Some(Action::Delete));
    assert_eq!(parse_action("remove"), None);
    assert_eq!(parse_action(""), None);
}

#[test]
fn request_addresses() {
    assert_eq!(
        master_url("http://localhost:8000", "/file/create", "a/x"),
        "http://localhost:8000/file/create?path=/a/x"
    );
    assert_eq!(master_url("", "", ""), "?path=/");
    assert_eq!(
        update_url("http://localhost:8000", "a/x", 1024),
        "http://localhost:8000/file/update?path=/a/x&size=1024"
    );
    assert_eq!(
        chunk_url("10.0.0.1:8001", "/add_chunk", "00000000-0000-0000-0000-000000000001"),
        "https://10.0.0.1:8001/add_chunk?id=00000000-0000-0000-0000-000000000001"
    );
}
