use dm::dispatch::{base_name_of, dispatch, Command};
use dm::store::Store;

#[test]
fn base_name_of_paths() {
    assert_eq!(base_name_of("/home/u/projects/foo"), "foo");
    assert_eq!(base_name_of("plain"), "plain");
    assert_eq!(base_name_of("/ends/with/slash/"), "");
    assert_eq!(base_name_of("/"), "");
    assert_eq!(base_name_of(""), "");
}

#[test]
fn add_bookmarks_working_directory() {
    let st = Store::new();
    let out = dispatch(st, Command::Add { cwd: "/home/u/projects/foo".to_string() });
    assert!(out.save);
    assert_eq!(out.output, vec!["\"foo\" -> \"/home/u/projects/foo\"".to_string()]);
    assert_eq!(out.store.lookup("foo"), Some("/home/u/projects/foo".to_string()));
}

#[test]
fn remove_miss_is_silent_and_keeps_store() {
    let mut st = Store::new();
    st.insert("foo".to_string(), "/a".to_string());
    let out = dispatch(st, Command::Remove { name: "bar".to_string() });
    assert!(!out.save);
    assert!(out.output.is_empty());
    assert_eq!(out.store.len(), 1);
    assert_eq!(out.store.lookup("foo"), Some("/a".to_string()));
}

#[test]
fn jump_reports_pair_or_not_found() {
    let mut st = Store::new();
    st.insert("foo".to_string(), "/a".to_string());
    let out = dispatch(st, Command::Jump { name: "foo".to_string() });
    assert!(!out.save);
    assert_eq!(out.output, vec!["foo -> /a".to_string()]);
    let out2 = dispatch(out.store, Command::Jump { name: "nope".to_string() });
    assert_eq!(out2.output, vec!["Value not found!".to_string()]);
}

#[test]
fn end_to_end_scenario() {
    // Start with no persisted file: loading empty text gives an empty store.
    let st = dm::codec::load_from_text("");
    assert_eq!(st.len(), 0);

    // `add` while the working directory is /home/u/projects/foo.
    let out = dispatch(st, Command::Add { cwd: "/home/u/projects/foo".to_string() });
    assert!(out.save);
    assert_eq!(out.store.lookup("foo"), Some("/home/u/projects/foo".to_string()));
    let persisted = dm::codec::save_text(&out.store);

    // `ls` prints the one pair.
    let st = dm::codec::load_from_text(persisted.as_str());
    let out = dispatch(st, Command::List);
    assert!(!out.save);
    assert_eq!(out.output, vec!["foo -> /home/u/projects/foo".to_string()]);

    // `rm foo` empties the store and reports the removal.
    let out = dispatch(out.store, Command::Remove { name: "foo".to_string() });
    assert!(out.save);
    assert_eq!(out.output, vec!["Remove foo".to_string()]);
    assert_eq!(out.store.len(), 0);
    let persisted = dm::codec::save_text(&out.store);

    // A further `ls` prints nothing.
    let st = dm::codec::load_from_text(persisted.as_str());
    let out = dispatch(st, Command::List);
    assert!(out.output.is_empty());
}

#[test]
fn add_overwrites_existing_name() {
    let mut st = Store::new();
    st.insert("foo".to_string(), "/old/place/foo".to_string());
    let out = dispatch(st, Command::Add { cwd: "/new/place/foo".to_string() });
    assert_eq!(out.store.len(), 1);
    assert_eq!(out.store.lookup("foo"), Some("/new/place/foo".to_string()));
}

#[test]
fn list_outputs_all_pairs_sorted() {
    let mut st = Store::new();
    st.insert("b".to_string(), "/2".to_string());
    st.insert("a".to_string(), "/1".to_string());
    st.insert("c".to_string(), "/3".to_string());
    let out = dispatch(st, Command::List);
    assert_eq!(
        out.output,
        vec!["a -> /1".to_string(), "b -> /2".to_string(), "c -> /3".to_string()]
    );
}
