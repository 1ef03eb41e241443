use padcore::boundary::char_category;
use padcore::buffer::Buffer;
use padcore::edit::Editor;
use padcore::pos::Pos;
use padcore::viewport::{char_display_width, gutter_for, line_wrap_rows, wrap_position};

fn chars(s: &str) -> Vec<char> {
    s.chars().collect()
}

#[test]
fn display_widths() {
    assert_eq!(char_display_width('a'), 1);
    assert_eq!(char_display_width('日'), 2);
    assert_eq!(char_display_width('\t'), 1);
    assert_eq!(char_display_width('\u{301}'), 0);
}

#[test]
fn wrap_rows_and_positions() {
    let line = chars("abcdefghij");
    assert_eq!(line_wrap_rows(&line, 4), 3);
    assert_eq!(line_wrap_rows(&chars(""), 4), 1);
    assert_eq!(wrap_position(&line, 0, 4), (0, 0));
    assert_eq!(wrap_position(&line, 3, 4), (0, 3));
    assert_eq!(wrap_position(&line, 4, 4), (1, 0));
    assert_eq!(wrap_position(&line, 9, 4), (2, 1));
    assert_eq!(wrap_position(&line, 10, 4), (2, 2));
    let wide = chars("日本語");
    assert_eq!(line_wrap_rows(&wide, 3), 3);
    assert_eq!(wrap_position(&wide, 1, 3), (1, 0));
}

#[test]
fn screen_rows_are_monotonic() {
    let buf = Buffer::from_string("abcdefghij\n\n日本語日本語\nxy");
    let mut positions = Vec::new();
    for y in 0..5 {
        for x in 0..12 {
            positions.push(Pos { y, x });
        }
    }
    for w in positions.windows(2) {
        assert!(buf.screen_row(w[0], 4) <= buf.screen_row(w[1], 4));
    }
    assert_eq!(buf.screen_row(Pos { y: 0, x: 0 }, 4), 0);
    assert_eq!(buf.screen_row(Pos { y: 1, x: 0 }, 4), 3);
    assert_eq!(buf.screen_row(Pos { y: 2, x: 2 }, 4), 5);
    assert_eq!(buf.screen_row(Pos { y: 3, x: 0 }, 4), 7);
    assert_eq!(buf.screen_row(Pos { y: 9, x: 0 }, 4), 8);
}

#[test]
fn gutter_sizes() {
    assert_eq!(gutter_for(1), 4);
    assert_eq!(gutter_for(99), 4);
    assert_eq!(gutter_for(100), 5);
}

#[test]
fn ensure_visible_vertical_no_wrap() {
    let text: Vec<String> = (0..50).map(|i| format!("line {}", i)).collect();
    let mut ed = Editor::with_buffer(Buffer::from_string(&text.join("\n")), 10);
    ed.set_cursor(Pos { y: 30, x: 0 });
    assert!(ed.ensure_visible(80, 10));
    assert_eq!(ed.scroll_y, 21);
    assert!(!ed.ensure_visible(80, 10));
    ed.set_cursor(Pos { y: 5, x: 0 });
    assert!(ed.ensure_visible(80, 10));
    assert_eq!(ed.scroll_y, 5);
}

#[test]
fn ensure_visible_horizontal_no_wrap() {
    let long: String = std::iter::repeat('a').take(100).collect();
    let mut ed = Editor::with_buffer(Buffer::from_string(&long), 10);
    ed.set_cursor(Pos { y: 0, x: 50 });
    // width 20, gutter 4, one column kept free: 15 columns of text
    assert!(ed.ensure_visible(20, 5));
    assert_eq!(ed.scroll_x, 36);
    assert_eq!(ed.cursor_screen_coordinates(20), (0, 4 + 14));
    ed.set_cursor(Pos { y: 0, x: 10 });
    assert!(ed.ensure_visible(20, 5));
    assert_eq!(ed.scroll_x, 10);
}

#[test]
fn ensure_visible_wrapped() {
    let long: String = std::iter::repeat('b').take(40).collect();
    let mut ed = Editor::with_buffer(Buffer::from_string(&long), 10);
    ed.toggle_word_wrap();
    ed.set_cursor(Pos { y: 0, x: 35 });
    // width 14, gutter 4: 10 columns per row, cursor on row 3
    assert!(ed.ensure_visible(14, 2));
    assert_eq!(ed.scroll_y, 2);
    assert_eq!(ed.scroll_x, 0);
    assert_eq!(ed.cursor_screen_coordinates(14), (1, 4 + 5));
}

#[test]
fn categories() {
    assert_eq!(char_category(' '), 0);
    assert_eq!(char_category('a'), 1);
    assert_eq!(char_category('7'), 1);
    assert_eq!(char_category('_'), 2);
    assert_eq!(char_category('-'), 2);
    assert_eq!(char_category('.'), 2);
}

#[test]
fn word_boundaries() {
    let buf = Buffer::from_string("foo bar_baz  (x)\n  next");
    assert_eq!(buf.next_boundary(Pos { y: 0, x: 0 }), Pos { y: 0, x: 4 });
    assert_eq!(buf.next_boundary(Pos { y: 0, x: 4 }), Pos { y: 0, x: 7 });
    assert_eq!(buf.next_boundary(Pos { y: 0, x: 7 }), Pos { y: 0, x: 8 });
    assert_eq!(buf.next_boundary(Pos { y: 0, x: 16 }), Pos { y: 1, x: 0 });
    assert_eq!(buf.prev_boundary(Pos { y: 0, x: 4 }), Pos { y: 0, x: 0 });
    assert_eq!(buf.prev_boundary(Pos { y: 0, x: 13 }), Pos { y: 0, x: 8 });
    assert_eq!(buf.prev_boundary(Pos { y: 1, x: 0 }), Pos { y: 0, x: 16 });
    assert_eq!(buf.prev_boundary(Pos { y: 0, x: 0 }), Pos { y: 0, x: 0 });
    assert_eq!(buf.next_line_boundary(Pos { y: 0, x: 3 }), Pos { y: 1, x: 2 });
    assert_eq!(buf.prev_line_boundary(Pos { y: 1, x: 3 }), Pos { y: 0, x: 0 });
}

#[test]
fn prev_of_next_not_after_start() {
    let buf = Buffer::from_string("ab  cd.ef gh-ij   k");
    let len = buf.line_len_chars(0);
    for x in 0..len {
        let p = Pos { y: 0, x };
        let back = buf.prev_boundary(buf.next_boundary(p));
        assert!(back.y == 0 && back.x <= x);
    }
}
