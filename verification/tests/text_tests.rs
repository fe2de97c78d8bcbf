use tztui::config::Alignment;
use tztui::editor::Editor;
use tztui::text::{align_columns, align_text, get_cursor_position, title_spans, FormatError};

#[test]
fn test_align_text_left() {
    assert_eq!(align_text("text", 6, Alignment::Left), "text");
    assert_eq!(align_text("text", u16::MAX, Alignment::Left), "text");
}

#[test]
fn test_align_text_center() {
    assert_eq!(align_text("text", 6, Alignment::Center), " text ");
}

#[test]
fn test_align_text_right() {
    assert_eq!(align_text("text", 6, Alignment::Right), "  text");
}

#[test]
fn test_align_text_right_smaller_max() {
    assert_eq!(align_text("text", 1, Alignment::Left), "text");
}

#[test]
fn align_text_right_wider_than_column_is_unchanged() {
    assert_eq!(align_text("longtext", 3, Alignment::Right), "longtext");
}

#[test]
fn align_text_center_keeps_the_rounded_down_pad_on_both_sides() {
    // width 7, length 4: both sides get 3 - 2 = 1 space.
    assert_eq!(align_text("text", 7, Alignment::Center), " text ");
    // width 6, length 3: both sides get 3 - 1 = 2 spaces.
    assert_eq!(align_text("abc", 6, Alignment::Center), "  abc  ");
}

#[test]
fn align_columns_sizes_each_column_from_rows_and_header() {
    let rows = vec![vec!["a".to_string()], vec!["bb".to_string()]];
    let headers = vec!["h".to_string()];
    let (aligned, widths) = align_columns(rows, headers, 1, Alignment::Right).unwrap();
    assert_eq!(widths, vec![2]);
    assert_eq!(aligned, vec![vec![" a".to_string()], vec!["bb".to_string()]]);
}

#[test]
fn align_columns_rejects_an_all_empty_column() {
    let rows = vec![vec!["".to_string()]];
    let headers = vec!["".to_string()];
    let r = align_columns(rows, headers, 1, Alignment::Left);
    assert!(matches!(r, Err(FormatError::EmptyColumn)));
}

#[test]
fn align_columns_rejects_a_cell_too_wide_for_a_column_width() {
    let rows = vec![vec!["a".repeat(70_000)]];
    let headers = vec!["h".to_string()];
    let r = align_columns(rows, headers, 1, Alignment::Left);
    assert!(matches!(r, Err(FormatError::CellTooWide)));
}

#[test]
fn align_columns_rejects_a_short_row() {
    let rows = vec![vec!["a".to_string()]];
    let headers = vec!["h".to_string(), "i".to_string()];
    let r = align_columns(rows, headers, 2, Alignment::Left);
    assert!(matches!(r, Err(FormatError::MissingCell)));
}

#[test]
fn test_get_cursor_position_with_single_byte_graphemes() {
    let text = "never gonna give you up";
    let mut line_buffer = Editor::with_capacity(25);
    line_buffer.insert_str(0, text);

    assert_eq!(get_cursor_position(&line_buffer), 0);
    line_buffer.move_forward(1);
    assert_eq!(get_cursor_position(&line_buffer), 1);
    line_buffer.move_forward(2);
    assert_eq!(get_cursor_position(&line_buffer), 3);
}

#[test]
fn test_get_cursor_position_with_three_byte_graphemes() {
    let text = "绝对不会放弃你";
    let mut line_buffer = Editor::with_capacity(25);
    line_buffer.insert_str(0, text);

    assert_eq!(get_cursor_position(&line_buffer), 0);
    line_buffer.move_forward(1);
    assert_eq!(get_cursor_position(&line_buffer), 2);
    line_buffer.move_forward(2);
    assert_eq!(get_cursor_position(&line_buffer), 6);
}

#[test]
fn title_spans_brackets_each_pair() {
    let parts = title_spans(vec![vec!["Local time".to_string(), "12:00".to_string()]]);
    assert_eq!(parts, vec!["[ ".to_string(), "Local time".to_string(), ": 12:00 ]".to_string()]);
}
