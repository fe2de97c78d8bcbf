use tztui::editor::Editor;
use tztui::text::get_cursor_position;

fn check_bounds(e: &Editor) {
    let len = e.cell_count();
    assert!(e.pos() <= len);
}

#[test]
fn display_column_counts_ascii_as_one_each() {
    let mut e = Editor::new();
    e.insert_str(0, "example");
    e.move_forward(3);
    assert_eq!(get_cursor_position(&e), 3);
}

#[test]
fn display_column_counts_wide_characters_as_two_each() {
    let mut e = Editor::new();
    e.insert_str(0, "绝对不会放弃你");
    assert_eq!(e.cell_count(), 7);
    e.move_forward(3);
    assert_eq!(get_cursor_position(&e), 6);
}

#[test]
fn a_combining_mark_stays_in_its_cluster() {
    let mut e = Editor::new();
    e.insert_str(0, "e\u{301}x");
    assert_eq!(e.cell_count(), 2);
    e.move_end();
    assert_eq!(e.pos(), 2);
}

#[test]
fn movement_clamps_at_both_ends() {
    let mut e = Editor::new();
    e.insert_str(0, "abc");
    e.move_backward(5);
    assert_eq!(e.pos(), 0);
    e.move_forward(99);
    assert_eq!(e.pos(), 3);
    e.move_home();
    assert_eq!(e.pos(), 0);
    e.move_end();
    assert_eq!(e.pos(), 3);
    check_bounds(&e);
}

#[test]
fn word_motion_skips_blanks_then_the_word() {
    let mut e = Editor::new();
    e.insert_str(0, "one  two three");
    e.move_to_next_word();
    assert_eq!(e.pos(), 3);
    e.move_to_next_word();
    assert_eq!(e.pos(), 8);
    e.move_end();
    e.move_to_prev_word();
    assert_eq!(e.pos(), 9);
    e.move_to_prev_word();
    assert_eq!(e.pos(), 5);
}

#[test]
fn backspace_and_delete_edit_around_the_cursor() {
    let mut e = Editor::new();
    e.insert_str(0, "abcd");
    e.move_forward(2);
    e.backspace(1);
    assert_eq!(e.as_string(), "acd");
    assert_eq!(e.pos(), 1);
    e.delete(1);
    assert_eq!(e.as_string(), "ad");
    assert_eq!(e.pos(), 1);
    e.backspace(9);
    assert_eq!(e.as_string(), "d");
    assert_eq!(e.pos(), 0);
}

#[test]
fn backspace_at_the_start_is_a_no_op() {
    let mut e = Editor::new();
    e.insert_str(0, "ab");
    e.backspace(1);
    assert_eq!(e.as_string(), "ab");
    assert_eq!(e.pos(), 0);
}

#[test]
fn kill_and_discard_split_the_line_at_the_cursor() {
    let mut e = Editor::new();
    e.insert_str(0, "abcdef");
    e.move_forward(2);
    e.kill_line();
    assert_eq!(e.as_string(), "ab");
    assert_eq!(e.pos(), 2);
    e.update("abcdef", 2);
    e.discard_line();
    assert_eq!(e.as_string(), "cdef");
    assert_eq!(e.pos(), 0);
}

#[test]
fn delete_prev_word_removes_back_to_the_word_start() {
    let mut e = Editor::new();
    e.insert_str(0, "one two");
    e.move_end();
    e.delete_prev_word();
    assert_eq!(e.as_string(), "one ");
    assert_eq!(e.pos(), 4);
}

#[test]
fn transpose_chars_swaps_around_the_cursor() {
    let mut e = Editor::new();
    e.insert_str(0, "abc");
    e.move_forward(1);
    e.transpose_chars();
    assert_eq!(e.as_string(), "bac");
    assert_eq!(e.pos(), 2);

    let mut at_end = Editor::new();
    at_end.insert_str(0, "abc");
    at_end.move_end();
    at_end.transpose_chars();
    assert_eq!(at_end.as_string(), "acb");
    assert_eq!(at_end.pos(), 3);

    let mut at_start = Editor::new();
    at_start.insert_str(0, "abc");
    at_start.transpose_chars();
    assert_eq!(at_start.as_string(), "abc");
}

#[test]
fn transpose_words_drags_the_previous_word_over_the_next() {
    let mut e = Editor::new();
    e.insert_str(0, "one two");
    e.move_forward(4);
    e.transpose_words();
    assert_eq!(e.as_string(), "two one");
    assert_eq!(e.pos(), 7);

    let mut single = Editor::new();
    single.insert_str(0, "one");
    single.move_end();
    single.transpose_words();
    assert_eq!(single.as_string(), "one");
}

#[test]
fn typing_inserts_at_the_cursor() {
    let mut e = Editor::new();
    e.insert('h');
    e.insert('i');
    assert_eq!(e.as_string(), "hi");
    assert_eq!(e.pos(), 2);
    e.move_backward(1);
    e.insert('!');
    assert_eq!(e.as_string(), "h!i");
}

#[test]
fn cursor_stays_in_bounds_over_an_arbitrary_run_of_operations() {
    let mut e = Editor::new();
    e.insert_str(0, "start 绝对 middle");
    for step in 0..200u32 {
        match step % 13 {
            0 => e.insert('x'),
            1 => e.move_forward(3),
            2 => e.move_backward(2),
            3 => e.move_to_next_word(),
            4 => e.transpose_chars(),
            5 => e.backspace(1),
            6 => e.move_to_prev_word(),
            7 => e.delete(1),
            8 => e.transpose_words(),
            9 => e.move_home(),
            10 => e.insert(' '),
            11 => e.delete_prev_word(),
            _ => e.move_end(),
        }
        check_bounds(&e);
        let _ = get_cursor_position(&e);
    }
}

#[test]
fn update_replaces_text_and_clamps_the_position() {
    let mut e = Editor::new();
    e.update("fresh", 99);
    assert_eq!(e.as_string(), "fresh");
    assert_eq!(e.pos(), 5);
    e.update("", 0);
    assert!(e.is_empty());
    assert_eq!(e.pos(), 0);
}
