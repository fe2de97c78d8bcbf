use tztui::app::{App, State, Validity};
use tztui::events::Key;
use tztui::storage::Storage;
use tztui::ui::{build_rows, table_headers};

fn type_line(app: &mut App, line: &str) {
    for c in line.chars() {
        assert!(!app.handle_key(Key::Char(c)));
    }
}

#[test]
fn quitting_is_asked_only_in_normal_mode() {
    let mut app = App::new(Storage::new());
    assert!(app.handle_key(Key::Char('q')));
    assert!(!app.handle_key(Key::Char('i')));
    assert!(matches!(app.state, State::Input));
    // In input mode, 'q' is just a character.
    assert!(!app.handle_key(Key::Char('q')));
    assert_eq!(app.input_buffer.as_string(), "q");
}

#[test]
fn committing_a_valid_line_upserts_and_clears() {
    let mut app = App::new(Storage::new());
    app.handle_key(Key::Char('i'));
    type_line(&mut app, "Alice,UTC+5");
    app.handle_key(Key::Enter);
    assert!(app.storage.contains("Alice"));
    assert!(app.input_buffer.is_empty());
    assert!(matches!(app.state, State::Input));
    assert_eq!(app.storage.get_all(), vec![("Alice".to_string(), 5)]);
}

#[test]
fn committing_an_invalid_line_changes_nothing_and_keeps_the_line() {
    for bad in ["SomeName,", ",UTC+8", "NoCommaHere"] {
        let mut app = App::new(Storage::new());
        app.handle_key(Key::Char('i'));
        type_line(&mut app, bad);
        app.handle_key(Key::Enter);
        assert!(app.storage.get_all().is_empty());
        assert_eq!(app.input_buffer.as_string(), *bad);
        assert!(matches!(app.state, State::Input));
    }
}

#[test]
fn committing_an_empty_line_is_a_no_op() {
    let mut app = App::new(Storage::new());
    app.handle_key(Key::Char('i'));
    app.handle_key(Key::Enter);
    assert!(app.storage.get_all().is_empty());
    assert!(app.input_buffer.is_empty());
}

#[test]
fn cancel_clears_the_line_and_leaves_input_mode() {
    let mut app = App::new(Storage::new());
    app.handle_key(Key::Char('i'));
    type_line(&mut app, "half a line");
    app.handle_key(Key::Esc);
    assert!(app.input_buffer.is_empty());
    assert!(matches!(app.state, State::Normal));
}

#[test]
fn editing_keys_drive_the_line_buffer() {
    let mut app = App::new(Storage::new());
    app.handle_key(Key::Char('i'));
    type_line(&mut app, "ab");
    app.handle_key(Key::Left);
    app.handle_key(Key::Char('x'));
    assert_eq!(app.input_buffer.as_string(), "axb");
    app.handle_key(Key::Backspace);
    assert_eq!(app.input_buffer.as_string(), "ab");
    app.handle_key(Key::Ctrl('a'));
    app.handle_key(Key::Ctrl('d'));
    assert_eq!(app.input_buffer.as_string(), "b");
    app.handle_key(Key::Ctrl('k'));
    assert_eq!(app.input_buffer.as_string(), "");
}

#[test]
fn the_validity_colour_follows_the_line() {
    let mut app = App::new(Storage::new());
    app.update_validity();
    assert!(matches!(app.buffer_validity, Validity::Neutral));
    app.handle_key(Key::Char('i'));
    type_line(&mut app, "Alice,UTC+5");
    app.update_validity();
    assert!(matches!(app.buffer_validity, Validity::Valid));
    app.handle_key(Key::Enter);
    type_line(&mut app, "Alice,-3");
    app.update_validity();
    assert!(matches!(app.buffer_validity, Validity::Exists));
    app.handle_key(Key::Ctrl('u'));
    type_line(&mut app, "broken,");
    app.update_validity();
    assert!(matches!(app.buffer_validity, Validity::Invalid));
}

#[test]
fn cleanup_hands_back_the_serialized_store() {
    let mut app = App::new(Storage::new());
    app.handle_key(Key::Char('i'));
    type_line(&mut app, "Alice,+5");
    app.handle_key(Key::Enter);
    assert_eq!(app.cleanup(), "{\"Alice\":5}");
}

#[test]
fn rows_carry_name_offset_and_the_derived_clock() {
    let mut st = Storage::new();
    st.add("Greenwich", 0);
    st.add("East", 2);
    st.add("West", -1);
    let rows = build_rows(&st.get_all(), 86_400, "%Y-%m-%d %H:%M:%S");
    assert_eq!(rows.len(), 3);
    assert_eq!(rows[0], vec![
        "Greenwich".to_string(),
        "0".to_string(),
        "1970-01-02 00:00:00".to_string(),
    ]);
    assert_eq!(rows[1], vec![
        "East".to_string(),
        "2".to_string(),
        "1970-01-02 02:00:00".to_string(),
    ]);
    assert_eq!(rows[2], vec![
        "West".to_string(),
        "-1".to_string(),
        "1970-01-01 23:00:00".to_string(),
    ]);
}

#[test]
fn an_unrepresentable_clock_becomes_a_dash() {
    let mut st = Storage::new();
    st.add("far", i64::MAX);
    let rows = build_rows(&st.get_all(), 0, "%H:%M");
    assert_eq!(rows[0][2], "-");
}

#[test]
fn the_headers_name_the_three_columns() {
    let h = table_headers();
    assert_eq!(h, vec!["User".to_string(), "Offset".to_string(), "Time".to_string()]);
}
