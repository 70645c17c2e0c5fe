use harmony::text::{
    char_is_white_space, chars_of, contains_char, has_row, same_chars, same_str, split_chars,
    str_is_blank,
};

fn rows(v: &[&str]) -> Vec<Vec<char>> {
    v.iter().map(|s| s.chars().collect()).collect()
}

#[test]
fn characters_of_a_string() {
    assert_eq!(chars_of(""), Vec::<char>::new());
    assert_eq!(chars_of("aé\u{10000}z"), vec!['a', 'é', '\u{10000}', 'z']);
}

#[test]
fn strings_are_compared() {
    assert!(same_str("", ""));
    assert!(same_str("abc", "abc"));
    assert!(same_str("é/ü", "é/ü"));
    assert!(!same_str("abc", "abd"));
    assert!(!same_str("abc", "ab"));
    assert!(!same_str("ab", "abc"));
    assert!(!same_str("", "a"));
    assert!(same_chars(&chars_of("xy"), &chars_of("xy")));
    assert!(!same_chars(&chars_of("xy"), &chars_of("xz")));
    assert!(!same_chars(&chars_of("xy"), &chars_of("x")));
}

#[test]
fn splitting_keeps_empty_pieces() {
    assert_eq!(split_chars("", '/'), rows(&[""]));
    assert_eq!(split_chars("a", '/'), rows(&["a"]));
    assert_eq!(split_chars("a/b", '/'), rows(&["a", "b"]));
    assert_eq!(split_chars("/a//b/", '/'), rows(&["", "a", "", "b", ""]));
    assert_eq!(split_chars("a:b", '/'), rows(&["a:b"]));
    assert_eq!(split_chars("a:b", ':'), rows(&["a", "b"]));
    assert!(has_row(&split_chars("a/../b", '/'), &chars_of("..")));
    assert!(!has_row(&split_chars("a/..b", '/'), &chars_of("..")));
}

#[test]
fn characters_are_searched_for() {
    assert!(contains_char("a.b", '.'));
    assert!(contains_char(".", '.'));
    assert!(!contains_char("ab", '.'));
    assert!(!contains_char("", '.'));
    assert!(contains_char("aéb", 'é'));
}

#[test]
fn white_space_is_that_of_unicode() {
    for code in 0..=0x11_0000u32 {
        if let Some(c) = char::from_u32(code) {
            assert_eq!(char_is_white_space(c), c.is_whitespace(), "U+{:04X}", code);
        }
    }
}

#[test]
fn blank_strings() {
    let samples = ["", " ", "\t\n", "a", " a ", "\u{2003}\u{3000}", "\u{200b}", " . "];
    for s in samples {
        assert_eq!(str_is_blank(s), s.trim().is_empty(), "{:?}", s);
    }
}
