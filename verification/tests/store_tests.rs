use clipstore::errors::StoreError;
use clipstore::session::Clipboard;
use clipstore::store::{FlatEntry, Store};

fn rec(h: &str, k: &str, v: &str) -> FlatEntry {
    FlatEntry { history: h.to_string(), key: k.to_string(), value: v.to_string() }
}

#[test]
fn save_then_get_returns_value() {
    let mut s = Store::empty();
    s.save_entry("work", "snippet", "echo hi");
    assert_eq!(s.get_entry("work", "snippet").unwrap(), "echo hi");
}

#[test]
fn get_missing_history_is_not_found() {
    let s = Store::empty();
    assert_eq!(s.get_entry("nope", "k"), Err(StoreError::NotFound));
}

#[test]
fn get_missing_key_is_not_found() {
    let mut s = Store::empty();
    s.save_entry("h", "k", "v");
    assert_eq!(s.get_entry("h", "other"), Err(StoreError::NotFound));
}

#[test]
fn save_overwrites_existing_key() {
    let mut s = Store::empty();
    s.save_entry("h", "k", "old");
    s.save_entry("h", "k", "new");
    assert_eq!(s.get_entry("h", "k").unwrap(), "new");
    assert_eq!(s.list_entries("h").unwrap().len(), 1);
}

#[test]
fn save_entry_twice_is_idempotent() {
    let mut once = Store::empty();
    once.save_entry("h", "k", "v");
    let mut twice = Store::empty();
    twice.save_entry("h", "k", "v");
    twice.save_entry("h", "k", "v");
    assert_eq!(
        clipstore::json_codec::store_to_json(&once),
        clipstore::json_codec::store_to_json(&twice)
    );
}

#[test]
fn delete_then_get_is_not_found() {
    let mut s = Store::empty();
    s.save_entry("h", "k", "v");
    assert_eq!(s.delete_entry("h", "k"), Ok(()));
    assert_eq!(s.get_entry("h", "k"), Err(StoreError::NotFound));
}

#[test]
fn delete_missing_is_not_found() {
    let mut s = Store::empty();
    s.save_entry("h", "k", "v");
    assert_eq!(s.delete_entry("h", "other"), Err(StoreError::NotFound));
    assert_eq!(s.delete_entry("other", "k"), Err(StoreError::NotFound));
}

#[test]
fn delete_keeps_history_with_remaining_keys() {
    let mut s = Store::empty();
    s.save_entry("h", "a", "1");
    s.save_entry("h", "b", "2");
    s.delete_entry("h", "a").unwrap();
    assert_eq!(s.get_entry("h", "b").unwrap(), "2");
    assert_eq!(s.list_histories(), vec!["h".to_string()]);
}

#[test]
fn list_histories_lists_each_name_once() {
    let mut s = Store::empty();
    s.save_entry("a", "k1", "1");
    s.save_entry("b", "k2", "2");
    s.save_entry("a", "k3", "3");
    assert_eq!(s.list_histories(), vec!["a".to_string(), "b".to_string()]);
}

#[test]
fn list_entries_of_missing_history_is_not_found() {
    let s = Store::empty();
    assert!(s.list_entries("nope").is_err());
}

#[test]
fn merge_override_imported_data_wins() {
    let mut s = Store::empty();
    s.save_entry("a", "x", "old");
    s.merge(&vec![rec("a", "x", "new")]);
    assert_eq!(s.get_entry("a", "x").unwrap(), "new");
}

#[test]
fn merge_later_duplicate_record_wins() {
    let mut s = Store::empty();
    s.merge(&vec![rec("a", "x", "first"), rec("a", "x", "second")]);
    assert_eq!(s.get_entry("a", "x").unwrap(), "second");
}

#[test]
fn merge_result_is_independent_of_store_arrangement() {
    let mut s1 = Store::empty();
    s1.save_entry("a", "x", "1");
    s1.save_entry("b", "y", "2");
    let mut s2 = Store::empty();
    s2.save_entry("b", "y", "2");
    s2.save_entry("a", "x", "1");
    let recs = vec![rec("a", "x", "new"), rec("c", "z", "3")];
    s1.merge(&recs);
    s2.merge(&recs);
    for (h, k) in [("a", "x"), ("b", "y"), ("c", "z")] {
        assert_eq!(s1.get_entry(h, k), s2.get_entry(h, k));
    }
}

#[test]
fn merge_creates_missing_histories() {
    let mut s = Store::empty();
    s.merge(&vec![rec("new_hist", "k", "v")]);
    assert_eq!(s.get_entry("new_hist", "k").unwrap(), "v");
}

#[test]
fn clipboard_new_starts_empty_on_default() {
    let c = Clipboard::new("clipboard.json");
    assert_eq!(c.filepath, "clipboard.json");
    assert_eq!(c.current, "default");
    assert_eq!(c.data.list_histories().len(), 0);
}

#[test]
fn clipboard_merge_data_applies_records() {
    let mut c = Clipboard::new("clipboard.json");
    c.merge_data(&vec![rec("h", "k", "v")]);
    assert_eq!(c.data.get_entry("h", "k").unwrap(), "v");
}

#[test]
fn clipboard_select_changes_current() {
    let mut c = Clipboard::new("clipboard.json");
    c.select("work");
    assert_eq!(c.current, "work");
}

#[test]
fn search_empty_term_is_invalid_input() {
    let mut s = Store::empty();
    s.save_entry("h", "k", "v");
    assert!(matches!(s.search(""), Err(StoreError::InvalidInput)));
}

#[test]
fn search_no_match_returns_empty_result() {
    let mut s = Store::empty();
    s.save_entry("h", "k", "v");
    let groups = s.search("zz").unwrap();
    assert!(groups.is_empty());
}

#[test]
fn search_on_empty_store_returns_empty_result() {
    let s = Store::empty();
    let groups = s.search("zz").unwrap();
    assert!(groups.is_empty());
}

#[test]
fn search_matches_name_key_and_value() {
    let mut s = Store::empty();
    s.save_entry("work", "snippet", "echo hi");
    s.save_entry("home", "note", "buy milk");
    let by_name = s.search("wor").unwrap();
    assert_eq!(by_name.len(), 1);
    assert_eq!(by_name[0].name, "work");
    let by_key = s.search("note").unwrap();
    assert_eq!(by_key.len(), 1);
    assert_eq!(by_key[0].name, "home");
    let by_value = s.search("milk").unwrap();
    assert_eq!(by_value.len(), 1);
    assert_eq!(by_value[0].entries.len(), 1);
    assert_eq!(by_value[0].entries[0].key, "note");
}

#[test]
fn search_returns_only_matching_entries() {
    let mut s = Store::empty();
    s.save_entry("h", "alpha", "one");
    s.save_entry("h", "beta", "two");
    let groups = s.search("alpha").unwrap();
    assert_eq!(groups.len(), 1);
    assert_eq!(groups[0].entries.len(), 1);
    assert_eq!(groups[0].entries[0].key, "alpha");
}
