use padcore::buffer::Buffer;
use padcore::edit::Editor;
use padcore::keys::normalize_key_string;
use padcore::utils::longest_common_prefix;
use padcore::movement::Motion;
use padcore::pos::{LineEnding, Pos};
use padcore::types::{HighlightColor, Prompt, PromptKind};
use padcore::viewport::{fitting_end, wrap_segments};

fn ed(text: &str) -> Editor {
    Editor::with_buffer(Buffer::from_string(text), 100)
}

#[test]
fn motions_step_and_wrap_lines() {
    let mut e = ed("abc\nde\nfghij");
    e.set_cursor(Pos { y: 0, x: 3 });
    e.move_cursor(Motion::Right, false, 10);
    assert_eq!(e.cursor, Pos { y: 1, x: 0 });
    e.move_cursor(Motion::Left, false, 10);
    assert_eq!(e.cursor, Pos { y: 0, x: 3 });
    e.move_cursor(Motion::Down, false, 10);
    assert_eq!(e.cursor, Pos { y: 1, x: 2 });
    e.move_cursor(Motion::End, false, 10);
    assert_eq!(e.cursor, Pos { y: 2, x: 5 });
    e.move_cursor(Motion::Up, false, 10);
    assert_eq!(e.cursor, Pos { y: 1, x: 2 });
    e.move_cursor(Motion::Home, false, 10);
    assert_eq!(e.cursor, Pos { y: 0, x: 0 });
    e.move_cursor(Motion::Left, false, 10);
    assert_eq!(e.cursor, Pos { y: 0, x: 0 });
}

#[test]
fn motions_pages_and_selection() {
    let text: Vec<String> = (0..30).map(|i| format!("{}", i)).collect();
    let mut e = ed(&text.join("\n"));
    e.move_cursor(Motion::PageDown, true, 10);
    assert_eq!(e.cursor, Pos { y: 9, x: 0 });
    assert_eq!(e.anchor, Some(Pos { y: 0, x: 0 }));
    e.move_cursor(Motion::PageDown, true, 10);
    assert_eq!(e.cursor, Pos { y: 18, x: 0 });
    assert_eq!(e.anchor, Some(Pos { y: 0, x: 0 }));
    e.move_cursor(Motion::PageUp, false, 10);
    assert_eq!(e.cursor, Pos { y: 9, x: 0 });
    assert_eq!(e.anchor, None);
    e.move_cursor(Motion::PageDown, false, 100);
    assert_eq!(e.cursor, Pos { y: 29, x: 0 });
}

#[test]
fn motions_by_word_and_line_boundary() {
    let mut e = ed("  alpha beta\n    gamma");
    e.set_cursor(Pos { y: 0, x: 2 });
    e.move_cursor(Motion::WordRight, false, 10);
    assert_eq!(e.cursor, Pos { y: 0, x: 8 });
    e.move_cursor(Motion::WordLeft, false, 10);
    assert_eq!(e.cursor, Pos { y: 0, x: 2 });
    e.move_cursor(Motion::LineBoundaryDown, false, 10);
    assert_eq!(e.cursor, Pos { y: 1, x: 4 });
    e.move_cursor(Motion::LineBoundaryUp, false, 10);
    assert_eq!(e.cursor, Pos { y: 0, x: 2 });
    e.move_cursor(Motion::LineBoundaryUp, false, 10);
    assert_eq!(e.cursor, Pos { y: 0, x: 0 });
}

#[test]
fn stats_count_words_chars_bytes() {
    let e = ed("hello  wide world\r\n日本\r\n\r\n0123456789ab");
    let st = e.calculate_stats();
    assert_eq!(st.line_count, 4);
    assert_eq!(st.word_count, 5);
    assert_eq!(st.char_count, 17 + 2 + 0 + 12);
    assert_eq!(st.byte_count, 17 + 6 + 0 + 12 + 3 * 2);
    assert_eq!(st.line_ending, LineEnding::CRLF);
    assert_eq!(st.encoding, "UTF-8 (Unicode)");
    let mut expected = vec![0usize; 10];
    expected[1] = 2;
    expected[0] = 2;
    assert_eq!(st.line_length_histogram, expected);
}

#[test]
fn color_names() {
    assert_eq!(HighlightColor::from_str("Red"), Some(HighlightColor::Red));
    assert_eq!(HighlightColor::from_str("PURPLE"), Some(HighlightColor::Magenta));
    assert_eq!(HighlightColor::from_str("gray"), Some(HighlightColor::Grey));
    assert_eq!(HighlightColor::from_str("Bright_Cyan"), Some(HighlightColor::BrightCyan));
    assert_eq!(HighlightColor::from_str("brightblue"), Some(HighlightColor::BrightBlue));
    assert_eq!(HighlightColor::from_str("teal"), None);
    assert_eq!(HighlightColor::from_lowercase_name("RED"), None);
    assert_eq!(HighlightColor::from_lowercase_name("yellow"), Some(HighlightColor::Yellow));
}

#[test]
fn prompt_cursor_after_initial_text() {
    let p = Prompt::new(PromptKind::Find, "héllo");
    assert_eq!(p.kind, PromptKind::Find);
    assert_eq!(p.input, "héllo");
    assert_eq!(p.cursor, 5);
}

#[test]
fn segments_of_wrapped_lines() {
    let line: Vec<char> = "abcdefghij".chars().collect();
    assert_eq!(wrap_segments(&line, 4), vec![0, 4, 8]);
    assert_eq!(wrap_segments(&Vec::new(), 4), vec![0]);
    let wide: Vec<char> = "日本語".chars().collect();
    assert_eq!(wrap_segments(&wide, 3), vec![0, 1, 2]);
    assert_eq!(wrap_segments(&wide, 1), vec![0, 0, 1, 2]);
}

#[test]
fn fitting_run_of_columns() {
    let line: Vec<char> = "a日b".chars().collect();
    assert_eq!(fitting_end(&line, 0, 2), 1);
    assert_eq!(fitting_end(&line, 0, 3), 2);
    assert_eq!(fitting_end(&line, 1, 10), 3);
    assert_eq!(fitting_end(&line, 5, 10), 5);
}

#[test]
fn search_from_spans_lines() {
    let buf = Buffer::from_string("ab\ncd\nab");
    assert_eq!(buf.search_from("b\nc", 0), Some(1));
    assert_eq!(buf.search_from("ab", 1), Some(6));
    assert_eq!(buf.search_from("ab", 7), None);
    assert_eq!(buf.search_from("", 0), None);
}

#[test]
fn key_strings_normalized() {
    assert_eq!(normalize_key_string("ctrl+s"), "Ctrl+S");
    assert_eq!(normalize_key_string("CTRL+Shift+u"), "Ctrl+Shift+U");
    assert_eq!(normalize_key_string("Alt + t"), "Alt+T");
    assert_eq!(normalize_key_string("shift+control+alt+pageup"), "Ctrl+Alt+Shift+PageUp");
    assert_eq!(normalize_key_string("f5"), "F5");
    assert_eq!(normalize_key_string("ctrl+F12"), "Ctrl+F12");
    assert_eq!(normalize_key_string("ctrl+Fx"), "Ctrl+Fx");
    assert_eq!(normalize_key_string("esc"), "Esc");
    assert_eq!(normalize_key_string("  DEL "), "Delete");
    assert_eq!(normalize_key_string("ctrl++"), "Ctrl+?");
    assert_eq!(normalize_key_string(""), "?");
    assert_eq!(normalize_key_string("a+b"), "B");
}

#[test]
fn common_prefix_of_completions() {
    let v = |xs: &[&str]| xs.iter().map(|s| s.to_string()).collect::<Vec<String>>();
    assert_eq!(longest_common_prefix(&v(&[])), "");
    assert_eq!(longest_common_prefix(&v(&["src/main.rs"])), "src/main.rs");
    assert_eq!(longest_common_prefix(&v(&["src/a.rs", "src/ab.rs", "src/b.rs"])), "src/");
    assert_eq!(longest_common_prefix(&v(&["日本語", "日本", "日本x"])), "日本");
    assert_eq!(longest_common_prefix(&v(&["abc", "xyz"])), "");
}

#[test]
fn column_motions_stay_on_line() {
    let mut e = ed("ab\ncd");
    e.set_cursor(Pos { y: 1, x: 0 });
    e.move_cursor(Motion::ColumnLeft, false, 10);
    assert_eq!(e.cursor, Pos { y: 1, x: 0 });
    e.move_cursor(Motion::ColumnRight, false, 10);
    e.move_cursor(Motion::ColumnRight, false, 10);
    e.move_cursor(Motion::ColumnRight, false, 10);
    assert_eq!(e.cursor, Pos { y: 1, x: 2 });
}
