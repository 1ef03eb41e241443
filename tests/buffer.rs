use padcore::buffer::Buffer;
use padcore::pos::{LineEnding, Pos};

// ==================== Buffer creation ====================

#[test]
fn new_buffer_is_empty() {
    let buf = Buffer::new();
    assert_eq!(buf.char_count(), Some(0));
    assert_eq!(buf.line_ending(), LineEnding::LF);
}

#[test]
fn new_buffer_has_one_empty_line() {
    let buf = Buffer::new();
    assert_eq!(buf.line_count(), 1);
    assert_eq!(buf.line(0), "");
    assert_eq!(buf.line_ending(), LineEnding::LF);
}

#[test]
fn buffer_from_string_empty() {
    let buf = Buffer::from_string("");
    assert_eq!(buf.line_count(), 1);
    assert_eq!(buf.line(0), "");
    assert_eq!(buf.char_count(), Some(0));
}

#[test]
fn buffer_from_string_single_line() {
    let buf = Buffer::from_string("hello world");
    assert_eq!(buf.line_count(), 1);
    assert_eq!(buf.line(0), "hello world");
}

#[test]
fn buffer_from_string_lf_lines() {
    let buf = Buffer::from_string("line1\nline2\nline3");
    assert_eq!(buf.line_count(), 3);
    assert_eq!(buf.line(0), "line1");
    assert_eq!(buf.line(1), "line2");
    assert_eq!(buf.line(2), "line3");
    assert_eq!(buf.line_ending(), LineEnding::LF);
}

#[test]
fn buffer_from_string_crlf_lines() {
    let buf = Buffer::from_string("line1\r\nline2\r\nline3");
    assert_eq!(buf.line_count(), 3);
    assert_eq!(buf.line(0), "line1");
    assert_eq!(buf.line(1), "line2");
    assert_eq!(buf.line(2), "line3");
    assert_eq!(buf.line_ending(), LineEnding::CRLF);
}

#[test]
fn buffer_to_string_preserves_line_ending() {
    let buf_lf = Buffer::from_string("a\nb");
    assert_eq!(buf_lf.to_string(), "a\nb");

    let buf_crlf = Buffer::from_string("a\r\nb");
    assert_eq!(buf_crlf.to_string(), "a\r\nb");
}

// ==================== Insert ====================

#[test]
fn buffer_insert_char_ascii() {
    let mut buf = Buffer::new();
    let pos = buf.insert_char(Pos { y: 0, x: 0 }, 'a');
    assert_eq!(pos, Pos { y: 0, x: 1 });
    assert_eq!(buf.line(0), "a");
}

#[test]
fn buffer_insert_char_unicode() {
    let mut buf = Buffer::from_string("hllo");
    let pos = buf.insert_char(Pos { y: 0, x: 1 }, 'é');
    assert_eq!(pos, Pos { y: 0, x: 2 });
    assert_eq!(buf.line(0), "héllo");
}

#[test]
fn buffer_insert_char_emoji() {
    let mut buf = Buffer::from_string("ab");
    let pos = buf.insert_char(Pos { y: 0, x: 1 }, '😀');
    assert_eq!(pos, Pos { y: 0, x: 2 });
    assert_eq!(buf.line(0), "a😀b");
}

#[test]
fn buffer_insert_newline() {
    let mut buf = Buffer::from_string("hello world");
    let pos = buf.insert_newline(Pos { y: 0, x: 5 });
    assert_eq!(pos, Pos { y: 1, x: 0 });
    assert_eq!(buf.line_count(), 2);
    assert_eq!(buf.line(0), "hello");
    assert_eq!(buf.line(1), " world");
}

#[test]
fn buffer_insert_str_single_line() {
    let mut buf = Buffer::from_string("ac");
    let pos = buf.insert_str(Pos { y: 0, x: 1 }, "b");
    assert_eq!(pos, Pos { y: 0, x: 2 });
    assert_eq!(buf.line(0), "abc");
}

#[test]
fn buffer_insert_str_multiline() {
    let mut buf = Buffer::from_string("start end");
    let pos = buf.insert_str(Pos { y: 0, x: 6 }, "line1\nline2\nline3");
    assert_eq!(buf.line_count(), 3);
    assert_eq!(buf.line(0), "start line1");
    assert_eq!(buf.line(1), "line2");
    assert_eq!(buf.line(2), "line3end");
    assert_eq!(pos.y, 2);
}

// ==================== Delete ====================

#[test]
fn buffer_delete_backspace_middle() {
    let mut buf = Buffer::from_string("abc");
    let pos = buf.delete_backspace(Pos { y: 0, x: 2 });
    assert_eq!(pos, Pos { y: 0, x: 1 });
    assert_eq!(buf.line(0), "ac");
}

#[test]
fn buffer_delete_backspace_unicode() {
    let mut buf = Buffer::from_string("héllo");
    let pos = buf.delete_backspace(Pos { y: 0, x: 2 });
    assert_eq!(pos, Pos { y: 0, x: 1 });
    assert_eq!(buf.line(0), "hllo");
}

#[test]
fn buffer_delete_backspace_merge_lines() {
    let mut buf = Buffer::from_string("line1\nline2");
    let pos = buf.delete_backspace(Pos { y: 1, x: 0 });
    assert_eq!(pos, Pos { y: 0, x: 5 });
    assert_eq!(buf.line_count(), 1);
    assert_eq!(buf.line(0), "line1line2");
}

#[test]
fn buffer_delete_delete_middle() {
    let mut buf = Buffer::from_string("abc");
    let pos = buf.delete_delete(Pos { y: 0, x: 1 });
    assert_eq!(pos, Pos { y: 0, x: 1 });
    assert_eq!(buf.line(0), "ac");
}

#[test]
fn buffer_delete_delete_merge_lines() {
    let mut buf = Buffer::from_string("line1\nline2");
    let pos = buf.delete_delete(Pos { y: 0, x: 5 });
    assert_eq!(pos, Pos { y: 0, x: 5 });
    assert_eq!(buf.line_count(), 1);
    assert_eq!(buf.line(0), "line1line2");
}

// ==================== Ranges ====================

#[test]
fn buffer_get_range_same_line() {
    let buf = Buffer::from_string("hello world");
    let text = buf.get_range(Pos { y: 0, x: 0 }, Pos { y: 0, x: 5 });
    assert_eq!(text, "hello");
}

#[test]
fn buffer_get_range_multiline() {
    let buf = Buffer::from_string("line1\nline2\nline3");
    let text = buf.get_range(Pos { y: 0, x: 3 }, Pos { y: 2, x: 3 });
    assert_eq!(text, "e1\nline2\nlin");
}

#[test]
fn buffer_delete_range_same_line() {
    let mut buf = Buffer::from_string("hello world");
    let pos = buf.delete_range(Pos { y: 0, x: 5 }, Pos { y: 0, x: 11 });
    assert_eq!(pos, Pos { y: 0, x: 5 });
    assert_eq!(buf.line(0), "hello");
}

#[test]
fn buffer_delete_range_multiline() {
    let mut buf = Buffer::from_string("start\nmiddle\nend");
    let pos = buf.delete_range(Pos { y: 0, x: 3 }, Pos { y: 2, x: 1 });
    assert_eq!(pos, Pos { y: 0, x: 3 });
    assert_eq!(buf.line_count(), 1);
    assert_eq!(buf.line(0), "stand");
}

// ==================== Unicode edge cases ====================

#[test]
fn buffer_operations_with_cjk() {
    let mut buf = Buffer::from_string("日本語");
    assert_eq!(buf.line_len_chars(0), 3);

    let pos = buf.insert_char(Pos { y: 0, x: 1 }, '中');
    assert_eq!(pos, Pos { y: 0, x: 2 });
    assert_eq!(buf.line(0), "日中本語");

    buf.delete_backspace(Pos { y: 0, x: 2 });
    assert_eq!(buf.line(0), "日本語");
}

#[test]
fn buffer_clamp_pos_works() {
    let buf = Buffer::from_string("short\nlonger line");

    let p = buf.clamp_pos(Pos { y: 100, x: 0 });
    assert_eq!(p.y, 1);

    let p = buf.clamp_pos(Pos { y: 0, x: 100 });
    assert_eq!(p.x, 5);
}

// ==================== Further behaviour ====================

#[test]
fn backspace_at_line_start_joins_lines() {
    let mut buf = Buffer::from_string("ab\ncd");
    let pos = buf.delete_backspace(Pos { y: 1, x: 0 });
    assert_eq!(buf.line_count(), 1);
    assert_eq!(buf.line(0), "abcd");
    assert_eq!(pos, Pos { y: 0, x: 2 });
}

#[test]
fn insert_multiline_text_into_line() {
    let mut buf = Buffer::from_string("start end");
    let pos = buf.insert_str(Pos { y: 0, x: 6 }, "x\ny\nz");
    assert_eq!(buf.line_count(), 3);
    assert_eq!(buf.line(0), "start x");
    assert_eq!(buf.line(1), "y");
    assert_eq!(buf.line(2), "zend");
    assert_eq!(pos, Pos { y: 2, x: 1 });
}

#[test]
fn calc_end_pos_matches_insert() {
    let cases = ["", "abc", "a\nb", "x\r\ny\r\n", "\n\n\n", "日本\n語"];
    for t in cases.iter() {
        let mut buf = Buffer::from_string("hello\nworld");
        let p = Pos { y: 1, x: 2 };
        let predicted = buf.calc_end_pos(p, t);
        let actual = buf.insert_str(p, t);
        assert_eq!(predicted, actual);
    }
}

#[test]
fn calc_end_pos_exact_values() {
    let buf = Buffer::new();
    assert_eq!(buf.calc_end_pos(Pos { y: 3, x: 4 }, "ab"), Pos { y: 3, x: 6 });
    assert_eq!(buf.calc_end_pos(Pos { y: 3, x: 4 }, "ab\ncde"), Pos { y: 4, x: 3 });
    assert_eq!(buf.calc_end_pos(Pos { y: 0, x: 0 }, "a\r\nb"), Pos { y: 1, x: 1 });
}

#[test]
fn insert_then_delete_restores_text() {
    let initial = "first line\nsecond 日本\nthird";
    for t in ["", "q", "one\ntwo", "\n", "a\r\nb\r\n"].iter() {
        let mut buf = Buffer::from_string(initial);
        let p = Pos { y: 1, x: 3 };
        let end = buf.calc_end_pos(p, t);
        buf.insert_str(p, t);
        buf.delete_range(p, end);
        assert_eq!(buf.text(), initial);
    }
}

#[test]
fn empty_insert_is_noop() {
    let mut buf = Buffer::from_string("abc");
    let pos = buf.insert_str(Pos { y: 0, x: 1 }, "");
    assert_eq!(pos, Pos { y: 0, x: 1 });
    assert_eq!(buf.text(), "abc");
}

#[test]
fn insert_beyond_end_clamps() {
    let mut buf = Buffer::from_string("ab\ncd");
    let pos = buf.insert_str(Pos { y: 9, x: 9 }, "!");
    assert_eq!(pos, Pos { y: 1, x: 3 });
    assert_eq!(buf.text(), "ab\ncd!");
}

#[test]
fn insert_char_newline_splits() {
    let mut buf = Buffer::from_string("abcd");
    let pos = buf.insert_char(Pos { y: 0, x: 2 }, '\n');
    assert_eq!(pos, Pos { y: 1, x: 0 });
    assert_eq!(buf.line(0), "ab");
    assert_eq!(buf.line(1), "cd");
}

#[test]
fn delete_range_reversed_and_empty() {
    let mut buf = Buffer::from_string("hello world");
    let pos = buf.delete_range(Pos { y: 0, x: 11 }, Pos { y: 0, x: 5 });
    assert_eq!(pos, Pos { y: 0, x: 5 });
    assert_eq!(buf.text(), "hello");
    let pos = buf.delete_range(Pos { y: 0, x: 2 }, Pos { y: 0, x: 2 });
    assert_eq!(pos, Pos { y: 0, x: 2 });
    assert_eq!(buf.text(), "hello");
}

#[test]
fn backspace_and_delete_at_document_edges() {
    let mut buf = Buffer::from_string("ab\ncd");
    assert_eq!(buf.delete_backspace(Pos { y: 0, x: 0 }), Pos { y: 0, x: 0 });
    assert_eq!(buf.delete_delete(Pos { y: 1, x: 2 }), Pos { y: 1, x: 2 });
    assert_eq!(buf.text(), "ab\ncd");
}

#[test]
fn get_range_reversed_clamped() {
    let buf = Buffer::from_string("ab\ncd");
    assert_eq!(buf.get_range(Pos { y: 5, x: 5 }, Pos { y: 0, x: 1 }), "b\ncd");
}

#[test]
fn offsets_round_trip() {
    let buf = Buffer::from_string("ab\n日本語\n\nx");
    assert_eq!(buf.char_count(), Some(9));
    assert_eq!(buf.pos_to_char_idx(Pos { y: 1, x: 2 }), 5);
    assert_eq!(buf.pos_to_char_idx(Pos { y: 1, x: 99 }), 6);
    assert_eq!(buf.pos_to_char_idx(Pos { y: 9, x: 0 }), 9);
    assert_eq!(buf.char_idx_to_pos(5), Pos { y: 1, x: 2 });
    assert_eq!(buf.char_idx_to_pos(7), Pos { y: 2, x: 0 });
    assert_eq!(buf.char_idx_to_pos(100), Pos { y: 3, x: 1 });
    for i in 0..=9 {
        let p = buf.char_idx_to_pos(i);
        assert_eq!(buf.pos_to_char_idx(p), i);
    }
}

#[test]
fn to_string_crlf_joins_lines() {
    let mut buf = Buffer::from_string("a\nb\nc");
    buf.set_line_ending(LineEnding::CRLF);
    assert_eq!(buf.to_string(), "a\r\nb\r\nc");
    assert_eq!(buf.text(), "a\nb\nc");
}

#[test]
fn set_text_replaces_lines() {
    let mut buf = Buffer::from_string("old");
    buf.set_text("x\r\ny");
    assert_eq!(buf.line_count(), 2);
    assert_eq!(buf.line(1), "y");
}

#[test]
fn search_finds_match_after_start() {
    let buf = Buffer::from_string("abc needle\nneedle two");
    assert_eq!(buf.search_forward("needle", Pos { y: 0, x: 0 }, false), Some(Pos { y: 0, x: 4 }));
    assert_eq!(buf.search_forward("needle", Pos { y: 0, x: 5 }, false), Some(Pos { y: 1, x: 0 }));
    assert_eq!(buf.search_forward("needle", Pos { y: 1, x: 1 }, false), None);
    assert_eq!(buf.search_forward("needle", Pos { y: 1, x: 1 }, true), Some(Pos { y: 0, x: 4 }));
    assert_eq!(buf.search_forward("", Pos { y: 0, x: 0 }, true), None);
}

#[test]
fn search_single_occurrence_any_start() {
    let buf = Buffer::from_string("one two\nthe needle here\nlast line");
    for y in 0..4 {
        for x in 0..20 {
            assert_eq!(buf.search_forward("needle", Pos { y, x }, true), Some(Pos { y: 1, x: 4 }));
        }
    }
}

#[test]
fn search_counts_characters_not_bytes() {
    let buf = Buffer::from_string("日本語 needle");
    assert_eq!(buf.search_forward("needle", Pos { y: 0, x: 0 }, true), Some(Pos { y: 0, x: 4 }));
}
