use dm::store::Store;

#[test]
fn insert_and_lookup() {
    let mut st = Store::new();
    st.insert("foo".to_string(), "/home/u/projects/foo".to_string());
    st.insert("bar".to_string(), "/srv/bar".to_string());
    assert_eq!(st.lookup("foo"), Some("/home/u/projects/foo".to_string()));
    assert_eq!(st.lookup("bar"), Some("/srv/bar".to_string()));
    assert_eq!(st.lookup("baz"), None);
    assert_eq!(st.len(), 2);
}

#[test]
fn insert_overwrite_keeps_size() {
    let mut st = Store::new();
    st.insert("foo".to_string(), "/old".to_string());
    st.insert("bar".to_string(), "/other".to_string());
    assert_eq!(st.len(), 2);
    st.insert("foo".to_string(), "/new".to_string());
    assert_eq!(st.len(), 2);
    assert_eq!(st.lookup("foo"), Some("/new".to_string()));
    assert_eq!(st.lookup("bar"), Some("/other".to_string()));
}

#[test]
fn remove_hit_and_miss() {
    let mut st = Store::new();
    st.insert("foo".to_string(), "/a".to_string());
    assert!(!st.remove("bar"));
    assert_eq!(st.len(), 1);
    assert_eq!(st.lookup("foo"), Some("/a".to_string()));
    assert!(st.remove("foo"));
    assert_eq!(st.len(), 0);
    assert_eq!(st.lookup("foo"), None);
    assert!(!st.remove("foo"));
}

#[test]
fn list_is_sorted_by_name() {
    let mut st = Store::new();
    st.insert("zebra".to_string(), "/z".to_string());
    st.insert("apple".to_string(), "/a".to_string());
    st.insert("mango".to_string(), "/m".to_string());
    let pairs = st.list();
    let names: Vec<&str> = pairs.iter().map(|p| p.0.as_str()).collect();
    assert_eq!(names, vec!["apple", "mango", "zebra"]);
    assert_eq!(pairs[0].1, "/a");
    assert_eq!(pairs[1].1, "/m");
    assert_eq!(pairs[2].1, "/z");
}

#[test]
fn list_twice_is_identical() {
    let mut st = Store::new();
    st.insert("b".to_string(), "/2".to_string());
    st.insert("a".to_string(), "/1".to_string());
    let first = st.list();
    let second = st.list();
    assert_eq!(first, second);
}

#[test]
fn from_pairs_last_write_wins() {
    let pairs = vec![
        ("foo".to_string(), "/old".to_string()),
        ("bar".to_string(), "/b".to_string()),
        ("foo".to_string(), "/new".to_string()),
    ];
    let st = Store::from_pairs(pairs);
    assert_eq!(st.len(), 2);
    assert_eq!(st.lookup("foo"), Some("/new".to_string()));
    assert_eq!(st.lookup("bar"), Some("/b".to_string()));
}
