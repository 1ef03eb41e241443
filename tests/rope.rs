use padcore::pos::{LineEnding, Pos};
use padcore::rope_buffer::RopeBuffer;

#[test]
fn rope_new_and_load() {
    let buf = RopeBuffer::new();
    assert_eq!(buf.line_count(), 1);
    assert_eq!(buf.to_string(), "");
    assert_eq!(buf.line_ending(), LineEnding::LF);

    let buf = RopeBuffer::from_string("line1\r\nline2\r\nline3");
    assert_eq!(buf.line_count(), 3);
    assert_eq!(buf.line(0), "line1");
    assert_eq!(buf.line(1), "line2");
    assert_eq!(buf.line(2), "line3");
    assert_eq!(buf.line(3), "");
    assert_eq!(buf.line_ending(), LineEnding::CRLF);
    assert_eq!(buf.to_string(), "line1\r\nline2\r\nline3");
}

#[test]
fn rope_lone_carriage_return_is_not_a_line_break() {
    let buf = RopeBuffer::from_string("a\rb\nc");
    assert_eq!(buf.line_count(), 2);
    assert_eq!(buf.line(0), "a\rb");
    assert_eq!(buf.line_len_chars(0), 3);
}

#[test]
fn rope_trailing_newline_gives_empty_last_line() {
    let buf = RopeBuffer::from_string("ab\n");
    assert_eq!(buf.line_count(), 2);
    assert_eq!(buf.line_len_chars(0), 2);
    assert_eq!(buf.line_len_chars(1), 0);
    assert_eq!(buf.line_len_chars(7), 0);
}

#[test]
fn rope_insert_and_delete() {
    let mut buf = RopeBuffer::from_string("start end");
    let pos = buf.insert_str(Pos { y: 0, x: 6 }, "x\ny\nz");
    assert_eq!(pos, Pos { y: 2, x: 1 });
    assert_eq!(buf.to_string(), "start x\ny\nzend");
    let pos = buf.delete_range(Pos { y: 0, x: 6 }, pos);
    assert_eq!(pos, Pos { y: 0, x: 6 });
    assert_eq!(buf.to_string(), "start end");

    let mut buf = RopeBuffer::from_string("hllo");
    assert_eq!(buf.insert_char(Pos { y: 0, x: 1 }, 'é'), Pos { y: 0, x: 2 });
    assert_eq!(buf.line(0), "héllo");
    assert_eq!(buf.insert_newline(Pos { y: 0, x: 2 }), Pos { y: 1, x: 0 });
    assert_eq!(buf.to_string(), "hé\nllo");
}

#[test]
fn rope_backspace_and_delete_keys() {
    let mut buf = RopeBuffer::from_string("ab\ncd");
    let pos = buf.delete_backspace(Pos { y: 1, x: 0 });
    assert_eq!(pos, Pos { y: 0, x: 2 });
    assert_eq!(buf.to_string(), "abcd");
    assert_eq!(buf.delete_backspace(Pos { y: 0, x: 0 }), Pos { y: 0, x: 0 });
    let pos = buf.delete_delete(Pos { y: 0, x: 1 });
    assert_eq!(pos, Pos { y: 0, x: 1 });
    assert_eq!(buf.to_string(), "acd");
    assert_eq!(buf.delete_delete(Pos { y: 0, x: 9 }), Pos { y: 0, x: 3 });
    assert_eq!(buf.to_string(), "acd");
}

#[test]
fn rope_ranges_offsets_and_search() {
    let buf = RopeBuffer::from_string("line1\nline2\nline3");
    assert_eq!(buf.get_range(Pos { y: 2, x: 3 }, Pos { y: 0, x: 3 }), "e1\nline2\nlin");
    assert_eq!(buf.pos_to_char_idx_public(Pos { y: 1, x: 2 }), 8);
    assert_eq!(buf.pos_to_char_idx_public(Pos { y: 1, x: 99 }), 11);
    assert_eq!(buf.pos_to_char_idx_public(Pos { y: 9, x: 0 }), 17);
    assert_eq!(buf.char_idx_to_pos_public(8), Pos { y: 1, x: 2 });
    assert_eq!(buf.char_idx_to_pos_public(99), Pos { y: 2, x: 5 });
    assert_eq!(buf.search_from("2\nli", 0), Some(10));
    assert_eq!(buf.search_from("line", 1), Some(6));
    assert_eq!(buf.search_from("line", 13), None);
    assert_eq!(buf.search_from("", 0), None);
    assert_eq!(buf.clamp_pos(Pos { y: 100, x: 100 }), Pos { y: 2, x: 5 });
    assert_eq!(buf.calc_end_pos(Pos { y: 1, x: 1 }, "a\nbc"), Pos { y: 2, x: 2 });
}

#[test]
fn rope_set_line_keeps_separator() {
    let mut buf = RopeBuffer::from_string("one\ntwo\nthree");
    buf.set_line(1, "TWO!");
    assert_eq!(buf.to_string(), "one\nTWO!\nthree");
    buf.set_line(7, "ignored");
    assert_eq!(buf.to_string(), "one\nTWO!\nthree");
}
