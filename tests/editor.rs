use padcore::buffer::Buffer;
use padcore::edit::{is_char_selected, EditOperation, Editor};
use padcore::pos::{LineEnding, Pos};

fn editor_with(text: &str, cap: usize) -> Editor {
    Editor::with_buffer(Buffer::from_string(text), cap)
}

#[test]
fn typing_then_undo_redo() {
    let mut ed = editor_with("hello", 1000);
    ed.set_cursor(Pos { y: 0, x: 5 });
    ed.insert_text(" world");
    assert_eq!(ed.buf.text(), "hello world");
    assert_eq!(ed.cursor, Pos { y: 0, x: 11 });
    ed.undo();
    assert_eq!(ed.buf.text(), "hello");
    assert_eq!(ed.cursor, Pos { y: 0, x: 5 });
    ed.redo();
    assert_eq!(ed.buf.text(), "hello world");
    assert_eq!(ed.cursor, Pos { y: 0, x: 11 });
}

#[test]
fn undo_redo_many_edits_restore_state() {
    let mut ed = editor_with("ab\ncd", 1000);
    ed.set_cursor(Pos { y: 1, x: 0 });
    ed.backspace();
    ed.insert_text("X\nY");
    ed.set_cursor(Pos { y: 0, x: 1 });
    ed.anchor = Some(Pos { y: 1, x: 1 });
    ed.insert_text("zz");
    ed.delete_forward();
    let text_after = ed.buf.text();
    let cursor_after = ed.cursor;
    let anchor_after = ed.anchor;
    let n = ed.undo.len();
    assert_eq!(n, 5);
    for _ in 0..n {
        ed.undo();
    }
    assert_eq!(ed.buf.text(), "ab\ncd");
    for _ in 0..n {
        ed.redo();
    }
    assert_eq!(ed.buf.text(), text_after);
    assert_eq!(ed.cursor, cursor_after);
    assert_eq!(ed.anchor, anchor_after);
}

#[test]
fn undo_on_empty_history_is_noop() {
    let mut ed = editor_with("abc", 10);
    ed.undo();
    ed.redo();
    assert_eq!(ed.buf.text(), "abc");
    assert!(!ed.dirty);
}

#[test]
fn new_edit_clears_redo() {
    let mut ed = editor_with("", 10);
    ed.insert_text("a");
    ed.undo();
    assert_eq!(ed.redo.len(), 1);
    ed.insert_text("b");
    assert_eq!(ed.redo.len(), 0);
}

#[test]
fn undo_stack_is_capped() {
    let mut ed = editor_with("", 3);
    for _ in 0..10 {
        ed.insert_text("x");
        assert!(ed.undo.len() <= 3);
    }
    assert_eq!(ed.undo.len(), 3);
    for _ in 0..5 {
        ed.undo();
    }
    assert_eq!(ed.buf.text(), "xxxxxxx");
}

#[test]
fn record_edit_keeps_cursor_before() {
    let mut ed = editor_with("abc", 10);
    ed.set_cursor(Pos { y: 0, x: 2 });
    ed.record_edit(EditOperation::Insert { pos: Pos { y: 0, x: 2 }, text: "Q".to_string() });
    assert_eq!(ed.undo.len(), 1);
    assert_eq!(ed.undo[0].cursor_before, Pos { y: 0, x: 2 });
    assert_eq!(ed.undo[0].anchor_before, None);
}

#[test]
fn undo_of_deletion_reinserts_text() {
    let mut ed = editor_with("start\nmiddle\nend", 10);
    ed.set_cursor(Pos { y: 0, x: 3 });
    ed.anchor = Some(Pos { y: 2, x: 1 });
    ed.backspace();
    assert_eq!(ed.buf.text(), "stand");
    ed.undo();
    assert_eq!(ed.buf.text(), "start\nmiddle\nend");
    assert_eq!(ed.anchor, Some(Pos { y: 2, x: 1 }));
}

#[test]
fn selection_range_is_ordered() {
    let mut ed = editor_with("hello\nworld", 10);
    assert_eq!(ed.selection_range(), None);
    ed.set_cursor(Pos { y: 0, x: 2 });
    ed.anchor = Some(Pos { y: 1, x: 3 });
    assert_eq!(ed.selection_range(), Some((Pos { y: 0, x: 2 }, Pos { y: 1, x: 3 })));
    assert_eq!(ed.selected_text(), "llo\nwor");
    ed.anchor = Some(Pos { y: 0, x: 2 });
    assert_eq!(ed.selection_range(), None);
    assert_eq!(ed.selected_text(), "");
}

#[test]
fn select_all_and_replace() {
    let mut ed = editor_with("one\ntwo", 10);
    ed.select_all();
    assert_eq!(ed.anchor, Some(Pos { y: 0, x: 0 }));
    assert_eq!(ed.cursor, Pos { y: 1, x: 3 });
    ed.replace_selection_or_insert("new");
    assert_eq!(ed.buf.text(), "new");
    assert_eq!(ed.cursor, Pos { y: 0, x: 3 });
    assert_eq!(ed.anchor, None);
}

#[test]
fn delete_selection_moves_cursor_to_start() {
    let mut ed = editor_with("hello world", 10);
    ed.set_cursor(Pos { y: 0, x: 11 });
    ed.anchor = Some(Pos { y: 0, x: 5 });
    ed.delete_selection();
    assert_eq!(ed.buf.text(), "hello");
    assert_eq!(ed.cursor, Pos { y: 0, x: 5 });
    assert!(ed.dirty);
}

#[test]
fn backspace_and_delete_keys() {
    let mut ed = editor_with("ab\ncd", 10);
    ed.set_cursor(Pos { y: 1, x: 0 });
    ed.backspace();
    assert_eq!(ed.buf.text(), "abcd");
    assert_eq!(ed.cursor, Pos { y: 0, x: 2 });
    ed.delete_forward();
    assert_eq!(ed.buf.text(), "abd");
    ed.set_cursor(Pos { y: 0, x: 0 });
    ed.backspace();
    assert_eq!(ed.buf.text(), "abd");
    assert_eq!(ed.undo.len(), 2);
}

#[test]
fn find_next_wraps() {
    let mut ed = editor_with("needle\nhay\nhay", 10);
    ed.set_cursor(Pos { y: 2, x: 1 });
    assert!(ed.find_next("needle"));
    assert_eq!(ed.cursor, Pos { y: 0, x: 0 });
    assert!(!ed.find_next("absent"));
    assert!(!ed.find_next(""));
}

#[test]
fn toggles() {
    let mut ed = editor_with("a\r\nb", 10);
    assert_eq!(ed.buf.line_ending(), LineEnding::CRLF);
    ed.toggle_line_ending();
    assert_eq!(ed.buf.line_ending(), LineEnding::LF);
    assert!(ed.dirty);
    ed.scroll_x = 4;
    ed.toggle_word_wrap();
    assert!(ed.word_wrap);
    assert_eq!(ed.scroll_x, 0);
}

#[test]
fn line_ending_names() {
    assert_eq!(LineEnding::LF.as_str(), "\n");
    assert_eq!(LineEnding::CRLF.as_str(), "\r\n");
    assert_eq!(LineEnding::LF.name(), "Unix (LF)");
    assert_eq!(LineEnding::CRLF.name(), "Windows (CRLF)");
}

#[test]
fn selected_characters() {
    let sel = Some((Pos { y: 1, x: 2 }, Pos { y: 3, x: 1 }));
    assert!(!is_char_selected(sel, 1, 1));
    assert!(is_char_selected(sel, 1, 2));
    assert!(is_char_selected(sel, 2, 0));
    assert!(is_char_selected(sel, 3, 0));
    assert!(!is_char_selected(sel, 3, 1));
    assert!(!is_char_selected(None, 2, 0));
    let one = Some((Pos { y: 0, x: 1 }, Pos { y: 0, x: 3 }));
    assert!(is_char_selected(one, 0, 2));
    assert!(!is_char_selected(one, 0, 3));
}
