use std::collections::HashMap;

use tztui::storage::Storage;

fn snapshot_of(st: &Storage) -> Vec<(String, i64)> {
    st.get_all()
}

#[test]
fn round_trip_of_the_empty_store() {
    let st = Storage::new();
    let text = st.dump_data();
    assert_eq!(text, "{}");
    let back = Storage::load(&text).unwrap();
    assert_eq!(snapshot_of(&back), snapshot_of(&st));
}

#[test]
fn round_trip_of_a_filled_store() {
    let mut st = Storage::new();
    st.add("Alice", 5);
    st.add("Bob", -12);
    st.add("comma, free? not required here", 99);
    st.add("quote\"and\\slash", i64::MIN);
    st.add("control\u{1}\u{1f}chars", i64::MAX);
    let text = st.dump_data();
    let back = Storage::load(&text).unwrap();
    assert_eq!(snapshot_of(&back), snapshot_of(&st));
}

#[test]
fn upsert_twice_with_identical_arguments_is_idempotent() {
    let mut once = Storage::new();
    once.add("n", 7);
    let mut twice = Storage::new();
    twice.add("n", 7);
    twice.add("n", 7);
    assert_eq!(snapshot_of(&once), snapshot_of(&twice));
}

#[test]
fn upsert_overwrites_without_duplicating() {
    let mut st = Storage::new();
    st.add("Alice", 5);
    st.add("Alice", -3);
    let snap = snapshot_of(&st);
    let named: Vec<&(String, i64)> = snap.iter().filter(|p| p.0 == "Alice").collect();
    assert_eq!(named.len(), 1);
    assert_eq!(named[0].1, -3);
}

#[test]
fn contains_and_remove_follow_the_mapping() {
    let mut st = Storage::new();
    assert!(!st.contains("x"));
    st.add("x", 1);
    st.add("y", 2);
    assert!(st.contains("x"));
    st.remove("x");
    assert!(!st.contains("x"));
    assert!(st.contains("y"));
    st.remove("x");
    assert_eq!(snapshot_of(&st), vec![("y".to_string(), 2)]);
}

#[test]
fn the_snapshot_is_detached_from_the_store() {
    let mut st = Storage::new();
    st.add("a", 1);
    let mut snap = st.get_all();
    snap.clear();
    assert!(st.contains("a"));
}

#[test]
fn load_rejects_malformed_text() {
    assert!(Storage::load("").is_none());
    assert!(Storage::load("{").is_none());
    assert!(Storage::load("{}x").is_none());
    assert!(Storage::load("{\"a\":}").is_none());
    assert!(Storage::load("{\"a\":01}").is_none());
    assert!(Storage::load("{\"a\":9223372036854775808}").is_none());
    assert!(Storage::load("not a mapping").is_none());
}

#[test]
fn load_rejects_a_repeated_name() {
    assert!(Storage::load("{\"a\":1,\"a\":2}").is_none());
}

#[test]
fn load_accepts_the_full_value_range() {
    let st = Storage::load("{\"min\":-9223372036854775808,\"max\":9223372036854775807}").unwrap();
    let snap = st.get_all();
    assert_eq!(snap[0], ("min".to_string(), i64::MIN));
    assert_eq!(snap[1], ("max".to_string(), i64::MAX));
}

#[test]
fn the_dump_is_a_json_object_other_readers_accept() {
    let mut st = Storage::new();
    st.add("Alice", 5);
    st.add("tab\there \"quoted\"", -3);
    let text = st.dump_data();
    let parsed: HashMap<String, i64> = serde_json::from_str(&text).unwrap();
    let expected: HashMap<String, i64> = st.get_all().into_iter().collect();
    assert_eq!(parsed, expected);
}

#[test]
fn a_dump_made_by_another_writer_loads_back() {
    let mut map: HashMap<String, i64> = HashMap::new();
    map.insert("Alice\nnewline".to_string(), 4);
    let text = serde_json::to_string(&map).unwrap();
    let st = Storage::load(&text).unwrap();
    assert_eq!(st.get_all(), vec![("Alice\nnewline".to_string(), 4)]);
}
