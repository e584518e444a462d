use pylexer::parser::text::{chars_of, is_whitespace, is_word_char, push_decimal};

#[test]
fn chars_of_splits_by_character() {
    assert_eq!(chars_of(""), Vec::<char>::new());
    assert_eq!(chars_of("a\tb"), vec!['a', '\t', 'b']);
    assert_eq!(chars_of("né€"), vec!['n', 'é', '€']);
}

#[test]
fn decimal_is_written_without_leading_zeros() {
    for (n, text) in [(0, "0"), (7, "7"), (10, "10"), (409, "409"), (65536, "65536")] {
        let mut out = String::from("n=");
        push_decimal(&mut out, n);
        assert_eq!(out, format!("n={}", text));
    }
    let mut out = String::new();
    push_decimal(&mut out, usize::MAX);
    assert_eq!(out, format!("{}", usize::MAX));
}

#[test]
fn white_space_is_what_unicode_lists() {
    for c in [
        '\t', '\n', '\u{b}', '\u{c}', '\r', ' ', '\u{85}', '\u{a0}', '\u{1680}', '\u{2000}',
        '\u{2005}', '\u{200a}', '\u{2028}', '\u{2029}', '\u{202f}', '\u{205f}', '\u{3000}',
    ] {
        assert!(is_whitespace(c));
    }
    for c in ['\u{8}', '\u{e}', 'a', '_', '\u{200b}', '\u{1f}', '\u{2027}', '\u{3001}', '\u{feff}'] {
        assert!(!is_whitespace(c));
    }
}

#[test]
fn white_space_agrees_with_the_standard_library() {
    for code in 0..0x3100u32 {
        if let Some(c) = char::from_u32(code) {
            assert_eq!(is_whitespace(c), c.is_whitespace());
        }
    }
}

#[test]
fn word_characters_are_ascii_letters_digits_and_underscore() {
    for c in ['a', 'm', 'z', 'A', 'Q', 'Z', '0', '5', '9', '_'] {
        assert!(is_word_char(c));
    }
    for c in ['-', ' ', 'é', '/', ':', '@', '[', '`', '{', '٣'] {
        assert!(!is_word_char(c));
    }
}
