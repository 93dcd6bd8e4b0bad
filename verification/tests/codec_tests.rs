use dm::codec::{load_from_text, parse_text, save_text};
use dm::store::Store;

#[test]
fn save_renders_exact_text() {
    let mut st = Store::new();
    st.insert("foo".to_string(), "/home/u/projects/foo".to_string());
    let text = save_text(&st);
    assert_eq!(
        text,
        "{\n  \"entries\": {\n    \"foo\": \"/home/u/projects/foo\"\n  }\n}"
    );
}

#[test]
fn save_renders_empty_store() {
    let st = Store::new();
    assert_eq!(save_text(&st), "{\n  \"entries\": {}\n}");
}

#[test]
fn save_renders_two_entries_sorted() {
    let mut st = Store::new();
    st.insert("zoo".to_string(), "/z".to_string());
    st.insert("ant".to_string(), "/a".to_string());
    let text = save_text(&st);
    assert_eq!(
        text,
        "{\n  \"entries\": {\n    \"ant\": \"/a\",\n    \"zoo\": \"/z\"\n  }\n}"
    );
}

#[test]
fn round_trip_reproduces_mapping() {
    let mut st = Store::new();
    st.insert("foo".to_string(), "/home/u/projects/foo".to_string());
    st.insert("bar".to_string(), "/srv/data".to_string());
    st.insert("baz".to_string(), "/tmp/x y z".to_string());
    let text = save_text(&st);
    let loaded = load_from_text(text.as_str());
    assert_eq!(loaded.list(), st.list());
}

#[test]
fn round_trip_escaped_characters() {
    let mut st = Store::new();
    st.insert("qu\"ote".to_string(), "/with\\back\\slash".to_string());
    st.insert("pla\nin".to_string(), "/new\nline".to_string());
    let text = save_text(&st);
    let loaded = load_from_text(text.as_str());
    assert_eq!(loaded.list(), st.list());
    assert_eq!(loaded.lookup("qu\"ote"), Some("/with\\back\\slash".to_string()));
}

#[test]
fn round_trip_empty_store() {
    let st = Store::new();
    let text = save_text(&st);
    let loaded = load_from_text(text.as_str());
    assert_eq!(loaded.len(), 0);
}

#[test]
fn load_empty_text_gives_empty_store() {
    let loaded = load_from_text("");
    assert_eq!(loaded.len(), 0);
}

#[test]
fn load_corrupt_text_gives_empty_store() {
    assert_eq!(load_from_text("this is not the persisted form").len(), 0);
    assert_eq!(load_from_text("{\"entries\": ").len(), 0);
    assert_eq!(load_from_text("{\"wrong\": {}}").len(), 0);
    assert_eq!(load_from_text("{\"entries\": {\"a\"}}").len(), 0);
    assert_eq!(load_from_text("[1, 2, 3]").len(), 0);
}

#[test]
fn load_accepts_other_whitespace() {
    let text = "  {\"entries\"\n:\t{\"foo\":\"/a\",\r\n\"bar\": \"/b\"}  }  ";
    let loaded = load_from_text(text);
    assert_eq!(loaded.len(), 2);
    assert_eq!(loaded.lookup("foo"), Some("/a".to_string()));
    assert_eq!(loaded.lookup("bar"), Some("/b".to_string()));
}

#[test]
fn parse_rejects_trailing_garbage() {
    assert!(parse_text("{\"entries\": {}} extra").is_none());
    assert!(parse_text("{\"entries\": {}}").is_some());
}

#[test]
fn parse_yields_pairs_in_written_order() {
    let text = "{\"entries\": {\"z\": \"/1\", \"a\": \"/2\"}}";
    let pairs = parse_text(text).unwrap();
    assert_eq!(pairs.len(), 2);
    assert_eq!(pairs[0], ("z".to_string(), "/1".to_string()));
    assert_eq!(pairs[1], ("a".to_string(), "/2".to_string()));
}
