use clipstore::csv_codec::{records_from_csv, records_to_csv};
use clipstore::errors::{Format, StoreError};
use clipstore::json_codec::{store_from_json, store_to_json};
use clipstore::session::{export_store, import_records};
use clipstore::store::{FlatEntry, Store};

fn rec(h: &str, k: &str, v: &str) -> FlatEntry {
    FlatEntry { history: h.to_string(), key: k.to_string(), value: v.to_string() }
}

#[test]
fn json_round_trip_restores_store() {
    let mut s = Store::empty();
    s.save_entry("work", "snippet", "echo hi");
    s.save_entry("work", "multi", "line one\nline two\ttabbed");
    s.save_entry("notes", "quote", "she said \"hi\" \\ done");
    s.save_entry("notes", "control", "bell\u{0001}char");
    s.save_entry("unicode", "greeting", "héllo wörld");
    let doc = store_to_json(&s);
    let back = store_from_json(&doc).unwrap();
    assert_eq!(store_to_json(&back), doc);
    assert_eq!(back.get_entry("work", "multi").unwrap(), "line one\nline two\ttabbed");
    assert_eq!(back.get_entry("notes", "control").unwrap(), "bell\u{0001}char");
}

#[test]
fn json_round_trip_keeps_empty_history_and_empty_value() {
    let mut s = Store::empty();
    s.save_entry("h", "empty", "");
    s.save_entry("bare", "k", "v");
    s.delete_entry("bare", "k").unwrap();
    let doc = store_to_json(&s);
    let back = store_from_json(&doc).unwrap();
    assert_eq!(back.get_entry("h", "empty").unwrap(), "");
    assert_eq!(back.list_histories(), vec!["h".to_string(), "bare".to_string()]);
    assert_eq!(back.list_entries("bare").unwrap().len(), 0);
}

#[test]
fn empty_store_serializes_to_empty_object() {
    let s = Store::empty();
    assert_eq!(store_to_json(&s), "{}");
    let back = store_from_json("{}").unwrap();
    assert_eq!(back.list_histories().len(), 0);
}

#[test]
fn example_scenario_json_export_import() {
    let mut s = Store::empty();
    s.save_entry("work", "snippet", "echo hi");
    let doc = export_store(&s, Format::Json);
    assert_eq!(doc, "{\n  \"work\": {\n    \"snippet\": \"echo hi\"\n  }\n}");
    let recs = import_records(&doc, Format::Json).unwrap();
    let mut fresh = Store::empty();
    fresh.merge(&recs);
    assert_eq!(fresh.get_entry("work", "snippet").unwrap(), "echo hi");
    assert_eq!(fresh.list_histories(), s.list_histories());
}

#[test]
fn json_parser_accepts_whitespace_and_escapes() {
    let back = store_from_json(" { \"a\" : { \"k\" : \"\\u0041\\/\\b\\f\" } } ").unwrap();
    assert_eq!(back.get_entry("a", "k").unwrap(), "A/\u{0008}\u{000C}");
}

#[test]
fn json_invalid_text_is_corrupt_data() {
    assert!(matches!(store_from_json("not json"), Err(StoreError::CorruptData)));
    assert!(matches!(store_from_json(""), Err(StoreError::CorruptData)));
    assert!(matches!(store_from_json("{\"a\": 5}"), Err(StoreError::CorruptData)));
    assert!(matches!(store_from_json("{\"a\": [\"x\"]}"), Err(StoreError::CorruptData)));
    assert!(matches!(store_from_json("{\"a\": {\"x\": \"1\"}"), Err(StoreError::CorruptData)));
}

#[test]
fn json_duplicate_names_or_keys_are_corrupt_data() {
    let dup_key = "{\"a\": {\"x\": \"1\", \"x\": \"2\"}}";
    assert!(matches!(store_from_json(dup_key), Err(StoreError::CorruptData)));
    let dup_name = "{\"a\": {\"x\": \"1\"}, \"a\": {\"y\": \"2\"}}";
    assert!(matches!(store_from_json(dup_name), Err(StoreError::CorruptData)));
}

#[test]
fn json_trailing_garbage_is_corrupt_data() {
    assert!(matches!(store_from_json("{} extra"), Err(StoreError::CorruptData)));
}

#[test]
fn csv_round_trip_restores_flattened_records() {
    let mut s = Store::empty();
    s.save_entry("work", "snippet", "echo hi");
    s.save_entry("notes", "tricky", "a,b \"quoted\"\nnew line");
    s.save_entry("notes", "empty", "");
    let recs = s.flatten();
    let doc = records_to_csv(&recs);
    let back = records_from_csv(&doc).unwrap();
    assert_eq!(back.len(), recs.len());
    for (a, b) in recs.iter().zip(back.iter()) {
        assert_eq!(a.history, b.history);
        assert_eq!(a.key, b.key);
        assert_eq!(a.value, b.value);
    }
    let mut fresh = Store::empty();
    fresh.merge(&back);
    assert_eq!(fresh.get_entry("work", "snippet").unwrap(), "echo hi");
    assert_eq!(fresh.get_entry("notes", "tricky").unwrap(), "a,b \"quoted\"\nnew line");
    assert_eq!(fresh.get_entry("notes", "empty").unwrap(), "");
}

#[test]
fn csv_export_is_quoted_rows() {
    let doc = records_to_csv(&vec![rec("a", "x", "1")]);
    assert_eq!(doc, "\"a\",\"x\",\"1\"\n");
}

#[test]
fn csv_parser_accepts_bare_fields_and_crlf() {
    let back = records_from_csv("a,x,1\r\nb,y,2\n").unwrap();
    assert_eq!(back.len(), 2);
    assert_eq!(back[0].history, "a");
    assert_eq!(back[1].value, "2");
}

#[test]
fn csv_parser_accepts_missing_final_newline() {
    let back = records_from_csv("a,x,1").unwrap();
    assert_eq!(back.len(), 1);
    assert_eq!(back[0].key, "x");
}

#[test]
fn csv_wrong_field_count_is_corrupt_data() {
    assert!(matches!(records_from_csv("a,x\n"), Err(StoreError::CorruptData)));
    assert!(matches!(records_from_csv("a,x,1,extra\n"), Err(StoreError::CorruptData)));
}

#[test]
fn csv_empty_document_has_no_records() {
    assert_eq!(records_from_csv("").unwrap().len(), 0);
}

#[test]
fn export_csv_format_through_dispatch() {
    let mut s = Store::empty();
    s.save_entry("a", "x", "1");
    let doc = export_store(&s, Format::Csv);
    let recs = import_records(&doc, Format::Csv).unwrap();
    assert_eq!(recs.len(), 1);
    assert_eq!(recs[0].history, "a");
    assert_eq!(recs[0].key, "x");
    assert_eq!(recs[0].value, "1");
}
