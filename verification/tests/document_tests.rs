use editor_core::document::{Direction, DocumentContent, EditAction};

fn doc_lines(d: &DocumentContent) -> Vec<String> {
    let mut out: Vec<String> = Vec::new();
    let n = d.line_count();
    let mut i: usize = 0;
    while i < n {
        out.push(d.line(i));
        i += 1;
    }
    out
}

#[test]
fn new_document_is_empty() {
    let d = DocumentContent::new();
    assert_eq!(d.cursor_position(), (0, 0));
    assert_eq!(d.line_count(), 1);
    assert_eq!(d.line(0), "");
    assert_eq!(d.text(), "");
}

#[test]
fn insert_chars_and_newline_scenario() {
    let mut d = DocumentContent::new();
    d.apply_action(EditAction::InsertChar('a'));
    d.apply_action(EditAction::InsertChar('b'));
    d.apply_action(EditAction::InsertNewline);
    d.apply_action(EditAction::InsertChar('c'));
    assert_eq!(doc_lines(&d), vec!["ab".to_string(), "c".to_string()]);
    assert_eq!(d.cursor_position(), (1, 1));
    assert_eq!(d.text(), "ab\nc");
}

#[test]
fn insert_chars_column_increases_monotonically() {
    let mut d = DocumentContent::new();
    let mut last_col: usize = d.cursor_position().1;
    for c in ['h', 'e', 'l', 'l', 'o'] {
        d.apply_action(EditAction::InsertChar(c));
        let (line, col) = d.cursor_position();
        assert!(col > last_col);
        assert!(col <= d.line(line).chars().count());
        last_col = col;
    }
    assert_eq!(d.cursor_position(), (0, 5));
}

#[test]
fn insert_newline_char_acts_as_line_break() {
    let mut d = DocumentContent::new();
    d.apply_action(EditAction::InsertChar('a'));
    d.apply_action(EditAction::InsertChar('\n'));
    d.apply_action(EditAction::InsertChar('b'));
    assert_eq!(doc_lines(&d), vec!["a".to_string(), "b".to_string()]);
    assert_eq!(d.cursor_position(), (1, 1));
}

#[test]
fn with_text_splits_on_newlines() {
    let d = DocumentContent::with_text("line1\nline2");
    assert_eq!(doc_lines(&d), vec!["line1".to_string(), "line2".to_string()]);
    assert_eq!(d.cursor_position(), (0, 0));
}

#[test]
fn with_text_round_trip() {
    for s in ["", "a", "line1\nline2", "a\n\nb", "\n", "ends with newline\n"] {
        let d = DocumentContent::with_text(s);
        assert_eq!(d.text(), s);
    }
}

#[test]
fn with_text_trailing_newline_gives_final_empty_line() {
    let d = DocumentContent::with_text("a\n");
    assert_eq!(doc_lines(&d), vec!["a".to_string(), "".to_string()]);
}

#[test]
fn move_cursor_to_clamps_beyond_bounds() {
    let mut d = DocumentContent::with_text("ab\ncdef");
    d.apply_action(EditAction::MoveCursorTo(99, 99));
    assert_eq!(d.cursor_position(), (1, 4));
    d.apply_action(EditAction::MoveCursorTo(0, 99));
    assert_eq!(d.cursor_position(), (0, 2));
    d.apply_action(EditAction::MoveCursorTo(1, 3));
    assert_eq!(d.cursor_position(), (1, 3));
}

#[test]
fn backspace_at_document_start_is_noop() {
    let mut d = DocumentContent::with_text("ab");
    d.apply_action(EditAction::Backspace);
    assert_eq!(doc_lines(&d), vec!["ab".to_string()]);
    assert_eq!(d.cursor_position(), (0, 0));
}

#[test]
fn backspace_removes_previous_char() {
    let mut d = DocumentContent::with_text("abc");
    d.apply_action(EditAction::MoveCursorTo(0, 2));
    d.apply_action(EditAction::Backspace);
    assert_eq!(d.text(), "ac");
    assert_eq!(d.cursor_position(), (0, 1));
}

#[test]
fn backspace_at_line_start_joins_lines() {
    let mut d = DocumentContent::with_text("ab\ncd");
    d.apply_action(EditAction::MoveCursorTo(1, 0));
    d.apply_action(EditAction::Backspace);
    assert_eq!(doc_lines(&d), vec!["abcd".to_string()]);
    assert_eq!(d.cursor_position(), (0, 2));
}

#[test]
fn delete_removes_char_under_cursor() {
    let mut d = DocumentContent::with_text("abc");
    d.apply_action(EditAction::MoveCursorTo(0, 1));
    d.apply_action(EditAction::Delete);
    assert_eq!(d.text(), "ac");
    assert_eq!(d.cursor_position(), (0, 1));
}

#[test]
fn delete_at_line_end_joins_lines() {
    let mut d = DocumentContent::with_text("ab\ncd");
    d.apply_action(EditAction::MoveCursorTo(0, 2));
    d.apply_action(EditAction::Delete);
    assert_eq!(doc_lines(&d), vec!["abcd".to_string()]);
    assert_eq!(d.cursor_position(), (0, 2));
}

#[test]
fn delete_at_document_end_is_noop() {
    let mut d = DocumentContent::with_text("ab");
    d.apply_action(EditAction::MoveCursorTo(0, 2));
    d.apply_action(EditAction::Delete);
    assert_eq!(d.text(), "ab");
    assert_eq!(d.cursor_position(), (0, 2));
}

#[test]
fn move_left_and_right_step_over_line_boundaries() {
    let mut d = DocumentContent::with_text("ab\ncd");
    d.apply_action(EditAction::MoveCursorTo(1, 0));
    d.apply_action(EditAction::MoveCursor(Direction::Left));
    assert_eq!(d.cursor_position(), (0, 2));
    d.apply_action(EditAction::MoveCursor(Direction::Right));
    assert_eq!(d.cursor_position(), (1, 0));
}

#[test]
fn move_up_and_down_clamp_column() {
    let mut d = DocumentContent::with_text("abcd\nx\nefgh");
    d.apply_action(EditAction::MoveCursorTo(0, 4));
    d.apply_action(EditAction::MoveCursor(Direction::Down));
    assert_eq!(d.cursor_position(), (1, 1));
    d.apply_action(EditAction::MoveCursorTo(2, 3));
    d.apply_action(EditAction::MoveCursor(Direction::Up));
    assert_eq!(d.cursor_position(), (1, 1));
}

#[test]
fn move_at_edges_is_noop() {
    let mut d = DocumentContent::with_text("ab");
    d.apply_action(EditAction::MoveCursor(Direction::Left));
    assert_eq!(d.cursor_position(), (0, 0));
    d.apply_action(EditAction::MoveCursor(Direction::Up));
    assert_eq!(d.cursor_position(), (0, 0));
    d.apply_action(EditAction::MoveCursorTo(0, 2));
    d.apply_action(EditAction::MoveCursor(Direction::Right));
    assert_eq!(d.cursor_position(), (0, 2));
    d.apply_action(EditAction::MoveCursor(Direction::Down));
    assert_eq!(d.cursor_position(), (0, 2));
}

#[test]
fn select_to_moves_cursor_and_keeps_anchor() {
    let mut d = DocumentContent::with_text("ab\ncd");
    d.apply_action(EditAction::MoveCursorTo(0, 1));
    assert_eq!(d.selection_anchor(), (0, 1));
    d.apply_action(EditAction::SelectTo(1, 2));
    assert_eq!(d.cursor_position(), (1, 2));
    assert_eq!(d.selection_anchor(), (0, 1));
    d.apply_action(EditAction::SelectTo(9, 9));
    assert_eq!(d.cursor_position(), (1, 2));
    assert_eq!(d.selection_anchor(), (0, 1));
    d.apply_action(EditAction::MoveCursor(Direction::Left));
    assert_eq!(d.selection_anchor(), d.cursor_position());
}
