use editor_core::document::EditAction;
use editor_core::editor::{
    classify_load, classify_pick, Command, EditorError, EditorState, IoErrorKind, Message,
};

#[test]
fn new_editor_is_empty_and_loads_default_path() {
    let (state, cmd) = EditorState::new("notes.txt".to_string());
    assert_eq!(cmd, Command::Load("notes.txt".to_string()));
    assert_eq!(state.content().text(), "");
    assert_eq!(state.content().cursor_position(), (0, 0));
    assert_eq!(state.last_error(), None);
}

#[test]
fn edit_message_mutates_content_and_asks_nothing() {
    let (mut state, _) = EditorState::new(String::new());
    let cmd = state.update(Message::Edit(EditAction::InsertChar('x')));
    assert_eq!(cmd, Command::Idle);
    assert_eq!(state.content().text(), "x");
    assert_eq!(state.last_error(), None);
}

#[test]
fn open_message_asks_for_pick_and_load() {
    let (mut state, _) = EditorState::new(String::new());
    state.update(Message::Edit(EditAction::InsertChar('x')));
    let cmd = state.update(Message::Open);
    assert_eq!(cmd, Command::PickAndLoad);
    assert_eq!(state.content().text(), "x");
    assert_eq!(state.last_error(), None);
}

#[test]
fn file_opened_ok_replaces_content_and_resets_cursor() {
    let (mut state, _) = EditorState::new(String::new());
    state.update(Message::Edit(EditAction::InsertChar('z')));
    let cmd = state.update(Message::FileOpened(Ok("line1\nline2".to_string())));
    assert_eq!(cmd, Command::Idle);
    assert_eq!(state.content().text(), "line1\nline2");
    assert_eq!(state.content().line_count(), 2);
    assert_eq!(state.content().line(0), "line1");
    assert_eq!(state.content().line(1), "line2");
    assert_eq!(state.content().cursor_position(), (0, 0));
}

#[test]
fn not_found_load_sets_error_and_keeps_content() {
    let (mut state, _) = EditorState::new(String::new());
    state.update(Message::FileOpened(Ok("kept".to_string())));
    let outcome = classify_load(Err(IoErrorKind::NotFound));
    assert_eq!(outcome, Err(EditorError::IO(IoErrorKind::NotFound)));
    let cmd = state.update(Message::FileOpened(outcome));
    assert_eq!(cmd, Command::Idle);
    assert_eq!(state.content().text(), "kept");
    assert_eq!(state.last_error(), Some(EditorError::IO(IoErrorKind::NotFound)));
}

#[test]
fn cancelled_pick_sets_dialog_closed_and_keeps_content() {
    let (mut state, _) = EditorState::new(String::new());
    state.update(Message::FileOpened(Ok("kept".to_string())));
    let picked = classify_pick(None);
    assert_eq!(picked, Err(EditorError::DialogClosed));
    let cmd = state.update(Message::FileOpened(Err(picked.unwrap_err())));
    assert_eq!(cmd, Command::Idle);
    assert_eq!(state.content().text(), "kept");
    assert_eq!(state.last_error(), Some(EditorError::DialogClosed));
}

#[test]
fn chosen_pick_forwards_path() {
    assert_eq!(classify_pick(Some("/tmp/f".to_string())), Ok("/tmp/f".to_string()));
}

#[test]
fn classify_load_passes_text_through() {
    assert_eq!(classify_load(Ok("text".to_string())), Ok("text".to_string()));
}

#[test]
fn each_io_kind_is_wrapped() {
    assert_eq!(
        classify_load(Err(IoErrorKind::PermissionDenied)),
        Err(EditorError::IO(IoErrorKind::PermissionDenied))
    );
    assert_eq!(
        classify_load(Err(IoErrorKind::Other)),
        Err(EditorError::IO(IoErrorKind::Other))
    );
}

#[test]
fn new_failure_overwrites_previous_error() {
    let (mut state, _) = EditorState::new(String::new());
    state.update(Message::FileOpened(Err(EditorError::DialogClosed)));
    state.update(Message::FileOpened(Err(EditorError::IO(IoErrorKind::NotFound))));
    assert_eq!(state.last_error(), Some(EditorError::IO(IoErrorKind::NotFound)));
}

#[test]
fn successful_load_does_not_clear_error() {
    let (mut state, _) = EditorState::new(String::new());
    state.update(Message::FileOpened(Err(EditorError::DialogClosed)));
    state.update(Message::FileOpened(Ok("fine".to_string())));
    assert_eq!(state.content().text(), "fine");
    assert_eq!(state.last_error(), Some(EditorError::DialogClosed));
}

#[test]
fn overlapping_loads_last_completion_wins() {
    let (mut state, _) = EditorState::new(String::new());
    let first = state.update(Message::Open);
    let second = state.update(Message::Open);
    assert_eq!(first, Command::PickAndLoad);
    assert_eq!(second, Command::PickAndLoad);
    // The read started by the second request completes first; the first
    // request's result arrives, and is handled, last. Neither is cancelled,
    // so the content reflects the first file.
    state.update(Message::FileOpened(Ok("second file".to_string())));
    state.update(Message::FileOpened(Ok("first file".to_string())));
    assert_eq!(state.content().text(), "first file");
    assert_eq!(state.last_error(), None);
}
