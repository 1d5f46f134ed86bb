use gfs_master::text::{find_last, root_string, split_fields, split_path};

fn pair(a: &str, b: &str) -> (String, String) {
    (a.to_string(), b.to_string())
}

#[test]
fn split_path_nested() {
    assert_eq!(split_path("/a/b"), pair("/a", "b"));
    assert_eq!(split_path("/foo/bar.txt"), pair("/foo", "bar.txt"));
    assert_eq!(split_path("/a/b/c"), pair("/a/b", "c"));
}

#[test]
fn split_path_in_root() {
    assert_eq!(split_path("/a"), pair("/", "a"));
    assert_eq!(split_path("/"), pair("/", ""));
}

#[test]
fn split_path_without_slash() {
    assert_eq!(split_path("foo"), pair("/", "foo"));
    assert_eq!(split_path(""), pair("/", ""));
}

#[test]
fn split_path_trailing_slash_and_unicode() {
    assert_eq!(split_path("/a/"), pair("/a", ""));
    assert_eq!(split_path("/é/ü"), pair("/é", "ü"));
    assert_eq!(split_path("a/b"), pair("a", "b"));
}

#[test]
fn find_last_counts_characters() {
    assert_eq!(find_last("/é/ü", '/'), Some(2));
    assert_eq!(find_last("abc", '/'), None);
    assert_eq!(find_last("", '/'), None);
    assert_eq!(find_last("//", '/'), Some(1));
}

#[test]
fn root_is_a_slash() {
    assert_eq!(root_string(), "/");
}

#[test]
fn split_fields_cuts_at_every_separator() {
    let f = |v: &[&str]| v.iter().map(|x| x.to_string()).collect::<Vec<String>>();
    assert_eq!(split_fields("a,b,c", ','), f(&["a", "b", "c"]));
    assert_eq!(split_fields("abc", ','), f(&["abc"]));
    assert_eq!(split_fields("", ','), f(&[""]));
    assert_eq!(split_fields("a,", ','), f(&["a", ""]));
    assert_eq!(split_fields(",a", ','), f(&["", "a"]));
    assert_eq!(split_fields(",,", ','), f(&["", "", ""]));
    assert_eq!(split_fields("é,ü", ','), f(&["é", "ü"]));
}
