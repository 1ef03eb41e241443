use padcore::utils::{
    byte_to_char_index, char_to_byte_index, clamp_usize, clamp_usize_i64, digits,
    levenshtein_distance,
};

#[test]
fn char_to_byte_ascii() {
    let s = "hello";
    assert_eq!(char_to_byte_index(s, 0), 0);
    assert_eq!(char_to_byte_index(s, 1), 1);
    assert_eq!(char_to_byte_index(s, 5), 5);
}

#[test]
fn char_to_byte_unicode() {
    let s = "héllo";
    assert_eq!(char_to_byte_index(s, 0), 0);
    assert_eq!(char_to_byte_index(s, 1), 1);
    assert_eq!(char_to_byte_index(s, 2), 3);
    assert_eq!(char_to_byte_index(s, 3), 4);
    assert_eq!(char_to_byte_index(s, 4), 5);
}

#[test]
fn char_to_byte_emoji() {
    let s = "a😀b";
    assert_eq!(char_to_byte_index(s, 0), 0);
    assert_eq!(char_to_byte_index(s, 1), 1);
    assert_eq!(char_to_byte_index(s, 2), 5);
}

#[test]
fn char_to_byte_cjk() {
    let s = "日本語";
    assert_eq!(char_to_byte_index(s, 0), 0);
    assert_eq!(char_to_byte_index(s, 1), 3);
    assert_eq!(char_to_byte_index(s, 2), 6);
    assert_eq!(char_to_byte_index(s, 3), 9);
}

#[test]
fn char_to_byte_beyond_end() {
    let s = "abc";
    assert_eq!(char_to_byte_index(s, 10), 3);
}

#[test]
fn char_to_byte_empty() {
    let s = "";
    assert_eq!(char_to_byte_index(s, 0), 0);
    assert_eq!(char_to_byte_index(s, 5), 0);
}

#[test]
fn byte_to_char_ascii() {
    let s = "hello";
    assert_eq!(byte_to_char_index(s, 0), 0);
    assert_eq!(byte_to_char_index(s, 3), 3);
    assert_eq!(byte_to_char_index(s, 5), 5);
}

#[test]
fn byte_to_char_unicode() {
    let s = "héllo";
    assert_eq!(byte_to_char_index(s, 0), 0);
    assert_eq!(byte_to_char_index(s, 1), 1);
    assert_eq!(byte_to_char_index(s, 3), 2);
}

#[test]
fn byte_to_char_beyond_end() {
    let s = "abc";
    assert_eq!(byte_to_char_index(s, 100), 3);
}

#[test]
fn roundtrip_char_byte_char() {
    let s = "héllo 日本語 😀";
    for i in 0..=s.chars().count() {
        let byte_idx = char_to_byte_index(s, i);
        let char_idx = byte_to_char_index(s, byte_idx);
        assert_eq!(char_idx, i, "roundtrip failed for char index {}", i);
    }
}

#[test]
fn test_digits() {
    assert_eq!(digits(0), 1);
    assert_eq!(digits(9), 1);
    assert_eq!(digits(10), 2);
    assert_eq!(digits(99), 2);
    assert_eq!(digits(100), 3);
    assert_eq!(digits(1000), 4);
}

#[test]
fn test_clamp_usize() {
    assert_eq!(clamp_usize(-5, 0, 10), 0);
    assert_eq!(clamp_usize(5, 0, 10), 5);
    assert_eq!(clamp_usize(15, 0, 10), 10);
}

#[test]
fn test_levenshtein() {
    assert_eq!(levenshtein_distance("", ""), 0);
    assert_eq!(levenshtein_distance("abc", "abc"), 0);
    assert_eq!(levenshtein_distance("abc", ""), 3);
    assert_eq!(levenshtein_distance("", "abc"), 3);
    assert_eq!(levenshtein_distance("kitten", "sitting"), 3);
    assert_eq!(levenshtein_distance("save", "dave"), 1);
}

#[test]
fn clamp_i64_and_digits_of_max() {
    assert_eq!(clamp_usize_i64(-1, 2, 10), 2);
    assert_eq!(clamp_usize_i64(7, 2, 10), 7);
    assert_eq!(clamp_usize_i64(i64::MAX, 2, 10), 10);
    assert_eq!(digits(usize::MAX), 20);
}

#[test]
fn byte_to_char_inside_a_character() {
    let s = "a😀b";
    assert_eq!(byte_to_char_index(s, 3), 1);
    assert_eq!(byte_to_char_index(s, 5), 2);
}

#[test]
fn levenshtein_counts_characters() {
    assert_eq!(levenshtein_distance("日本", "日本語"), 1);
    assert_eq!(levenshtein_distance("flaw", "lawn"), 2);
}
