use gfs_master::safe_map::{SafeMap, Table};

fn s(text: &str) -> String {
    text.to_string()
}

#[test]
fn uninitialised_map_ignores_every_operation() {
    let mut m: SafeMap<String, String> = SafeMap::new();
    assert!(m.insert(s("a"), s("1")).is_none());
    assert!(m.get(&s("a")).is_none());
    assert!(m.remove(&s("a")).is_none());
    assert!(m.keys().is_empty());
    assert!(m.to_map().is_empty());
    m.init();
    assert!(m.get(&s("a")).is_none());
}

#[test]
fn insert_replaces_and_returns_previous() {
    let mut m: SafeMap<String, String> = SafeMap::new();
    m.init();
    assert_eq!(m.insert(s("a"), s("1")), None);
    assert_eq!(m.insert(s("a"), s("2")), Some(s("1")));
    assert_eq!(m.get(&s("a")), Some(&s("2")));
    assert_eq!(m.keys(), vec![s("a")]);
}

#[test]
fn init_is_idempotent() {
    let mut m: SafeMap<u128, String> = SafeMap::new();
    m.init();
    m.insert(7, s("seven"));
    m.init();
    assert_eq!(m.get(&7), Some(&s("seven")));
}

#[test]
fn remove_returns_the_value_once() {
    let mut m: SafeMap<String, u128> = SafeMap::new();
    m.init();
    m.insert(s("a"), 1);
    m.insert(s("b"), 2);
    m.insert(s("c"), 3);
    assert_eq!(m.remove(&s("a")), Some(1));
    assert_eq!(m.remove(&s("a")), None);
    assert_eq!(m.get(&s("b")), Some(&2));
    assert_eq!(m.get(&s("c")), Some(&3));
    let mut keys = m.keys();
    keys.sort();
    assert_eq!(keys, vec![s("b"), s("c")]);
}

#[test]
fn snapshot_holds_every_pair_once() {
    let mut m: SafeMap<String, Vec<u128>> = SafeMap::new();
    m.init();
    m.insert(s("x"), vec![1, 2]);
    m.insert(s("y"), vec![]);
    m.insert(s("x"), vec![3]);
    let mut snapshot = m.to_map();
    snapshot.sort();
    assert_eq!(snapshot, vec![(s("x"), vec![3]), (s("y"), vec![])]);
    // The snapshot is a copy: changing the map leaves it as it was.
    m.remove(&s("x"));
    assert_eq!(snapshot.len(), 2);
}

#[test]
fn table_counts_and_finds() {
    let mut t: Table<u128, String> = Table::new();
    assert_eq!(t.len(), 0);
    assert!(!t.contains_key(&1));
    t.insert(1, s("one"));
    t.insert(2, s("two"));
    t.insert(1, s("uno"));
    assert_eq!(t.len(), 2);
    assert!(t.contains_key(&1));
    assert_eq!(t.get(&1), Some(&s("uno")));
    let mut entries = t.entries();
    entries.sort();
    assert_eq!(entries, vec![(1, s("uno")), (2, s("two"))]);
}

#[test]
fn len_counts_the_keys() {
    let mut m: SafeMap<String, String> = SafeMap::new();
    assert_eq!(m.len(), 0);
    m.insert(s("a"), s("1"));
    assert_eq!(m.len(), 0);
    m.init();
    m.insert(s("a"), s("1"));
    m.insert(s("b"), s("2"));
    m.insert(s("a"), s("3"));
    assert_eq!(m.len(), 2);
    m.remove(&s("a"));
    assert_eq!(m.len(), 1);
}
