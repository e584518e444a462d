use pylexer::parser::parse_stream::{skip_whitespace, FileStream, ParseStream, StringStream};
use pylexer::parser::{ErrorKind, FilePos, ParseError};

fn chars(text: &str) -> Vec<char> {
    text.chars().collect()
}

#[test]
fn str_stream() {
    let mut ss = StringStream::new("Hello World!");
    assert!(matches!(ss.next(), Ok('H')));
    assert!(matches!(ss.try_match("Hello".chars().collect()), Err(_)));
    assert!(matches!(ss.try_match("ello ".chars().collect()), Ok(_)));
    assert!(matches!(ss.next(), Ok('W')));
    assert!(matches!(ss.try_match("orld!".chars().collect()), Ok(_)));
    assert!(matches!(ss.try_match("orld!".chars().collect()), Err(_)));
    assert!(matches!(ss.next(), Err(_)));
}

#[test]
fn position_starts_at_line_one_column_one() {
    assert_eq!(FilePos::new(), FilePos { line: 1, col: 1 });
    assert_eq!(StringStream::new("abc").file_pos(), FilePos { line: 1, col: 1 });
}

#[test]
fn advance_moves_one_column_or_one_line() {
    let mut p = FilePos { line: 3, col: 7 };
    p.advance('x');
    assert_eq!(p, FilePos { line: 3, col: 8 });
    p.advance('\t');
    assert_eq!(p, FilePos { line: 3, col: 9 });
    p.advance('\n');
    assert_eq!(p, FilePos { line: 4, col: 1 });
    p.advance('\n');
    assert_eq!(p, FilePos { line: 5, col: 1 });
}

#[test]
fn position_renders_as_line_colon_column() {
    assert_eq!(FilePos { line: 1, col: 1 }.render(), "1:1");
    assert_eq!(FilePos { line: 12, col: 340 }.render(), "12:340");
    assert_eq!(FilePos { line: 1000, col: 9 }.render(), "1000:9");
}

#[test]
fn next_hands_out_the_characters_in_order() {
    let mut ss = StringStream::new("ab\nc");
    assert_eq!(ss.next(), Ok('a'));
    assert_eq!(ss.file_pos(), FilePos { line: 1, col: 2 });
    assert_eq!(ss.next(), Ok('b'));
    assert_eq!(ss.next(), Ok('\n'));
    assert_eq!(ss.file_pos(), FilePos { line: 2, col: 1 });
    assert_eq!(ss.next(), Ok('c'));
    assert_eq!(ss.file_pos(), FilePos { line: 2, col: 2 });
    assert_eq!(ss.next(), Err(ParseError::eof(FilePos { line: 2, col: 2 }, None)));
    assert_eq!(ss.next(), Err(ParseError::eof(FilePos { line: 2, col: 2 }, None)));
}

#[test]
fn next_on_empty_text_is_eof() {
    let mut ss = StringStream::new("");
    let e = ss.next().unwrap_err();
    assert_eq!(*e.kind(), ErrorKind::Eof);
    assert_eq!(e.message(), "End of file");
    assert_eq!(e.position(), FilePos { line: 1, col: 1 });
    assert_eq!(e.src_path(), None);
    assert!(ss.check_eof().is_err());
}

#[test]
fn check_eof_tells_whether_anything_is_left() {
    let mut ss = StringStream::new("x");
    assert_eq!(ss.check_eof(), Ok(()));
    assert_eq!(ss.next(), Ok('x'));
    assert_eq!(ss.check_eof(), Err(ParseError::eof(FilePos { line: 1, col: 2 }, None)));
}

#[test]
fn line_is_one_plus_newlines_read() {
    let text = "a\n\nbc\n\td\n";
    let mut ss = StringStream::new(text);
    let mut newlines = 0;
    while let Ok(c) = ss.next() {
        if c == '\n' {
            newlines += 1;
        }
        assert_eq!(ss.file_pos().line, 1 + newlines);
    }
    assert_eq!(newlines, 4);
    assert_eq!(ss.file_pos(), FilePos { line: 5, col: 1 });
}

#[test]
fn matched_newline_moves_to_the_next_line() {
    let mut ss = StringStream::new("ab\ncd");
    assert_eq!(ss.try_match(chars("ab\nc")), Ok(chars("ab\nc")));
    assert_eq!(ss.file_pos(), FilePos { line: 2, col: 2 });
    assert_eq!(ss.next(), Ok('d'));
}

#[test]
fn failed_match_consumes_nothing() {
    let mut ss = StringStream::new("hello world");
    assert_eq!(ss.next(), Ok('h'));
    let e = ss.try_match(chars("elp")).unwrap_err();
    assert_eq!(*e.kind(),
        ErrorKind::Mismatch { expected: String::from("p"), actual: String::from("l") }
    );
    assert_eq!(e.message(), "Expected p, got l");
    assert_eq!(e.position(), FilePos { line: 1, col: 4 });
    assert_eq!(ss.file_pos(), FilePos { line: 1, col: 2 });
    assert_eq!(ss.try_match(chars("ello")), Ok(chars("ello")));
    assert_eq!(ss.file_pos(), FilePos { line: 1, col: 6 });
    assert_eq!(ss.next(), Ok(' '));
}

#[test]
fn every_wrong_guess_fails_and_the_right_one_still_matches() {
    let text = "abc";
    for wrong in ["abd", "xbc", "acc", "bca", "cba"] {
        let mut ss = StringStream::new(text);
        assert!(ss.try_match(chars(wrong)).is_err());
        assert_eq!(ss.file_pos(), FilePos { line: 1, col: 1 });
        assert_eq!(ss.try_match(chars("abc")), Ok(chars("abc")));
        assert!(ss.next().is_err());
    }
}

#[test]
fn match_longer_than_the_text_is_eof() {
    let mut ss = StringStream::new("ab");
    let e = ss.try_match(chars("abc")).unwrap_err();
    assert_eq!(*e.kind(), ErrorKind::Eof);
    assert_eq!(e.position(), FilePos { line: 1, col: 3 });
    assert_eq!(ss.file_pos(), FilePos { line: 1, col: 1 });
    assert_eq!(ss.try_match(chars("ab")), Ok(chars("ab")));
}

#[test]
fn mismatch_comes_before_the_end_of_the_text() {
    let mut ss = StringStream::new("ab");
    let e = ss.try_match(chars("xbc")).unwrap_err();
    assert_eq!(*e.kind(),
        ErrorKind::Mismatch { expected: String::from("x"), actual: String::from("a") }
    );
    assert_eq!(e.position(), FilePos { line: 1, col: 1 });
}

#[test]
fn match_of_nothing_succeeds_everywhere() {
    let mut ss = StringStream::new("a");
    assert_eq!(ss.try_match(Vec::new()), Ok(Vec::new()));
    assert_eq!(ss.next(), Ok('a'));
    assert_eq!(ss.try_match(Vec::new()), Ok(Vec::new()));
    assert_eq!(ss.file_pos(), FilePos { line: 1, col: 2 });
}

#[test]
fn text_is_read_by_character_not_by_byte() {
    let mut ss = StringStream::new("é\u{3000}z");
    assert_eq!(ss.next(), Ok('é'));
    assert_eq!(ss.file_pos(), FilePos { line: 1, col: 2 });
    assert_eq!(ss.try_match(chars("\u{3000}z")), Ok(chars("\u{3000}z")));
    assert_eq!(ss.file_pos(), FilePos { line: 1, col: 4 });
}

#[test]
fn file_stream_reads_like_a_string_stream() {
    let mut fs = FileStream::new(String::from("src/main.py"), "x\ny");
    assert_eq!(fs.next(), Ok('x'));
    assert_eq!(fs.try_match(chars("\ny")), Ok(chars("\ny")));
    assert_eq!(fs.file_pos(), FilePos { line: 2, col: 2 });
}

#[test]
fn file_stream_failures_name_the_file() {
    let mut fs = FileStream::new(String::from("src/main.py"), "xy");
    let e = fs.try_match(chars("xz")).unwrap_err();
    assert_eq!(*e.kind(),
        ErrorKind::Mismatch { expected: String::from("z"), actual: String::from("y") }
    );
    assert_eq!(e.src_path(), Some("src/main.py"));
    assert_eq!(e.position(), FilePos { line: 1, col: 2 });
    assert_eq!(fs.try_match(chars("xy")), Ok(chars("xy")));
    let e = fs.next().unwrap_err();
    assert_eq!(
        e,
        ParseError::eof(FilePos { line: 1, col: 3 }, Some(String::from("src/main.py")))
    );
}

#[test]
fn skip_whitespace_passes_over_leading_spaces_only() {
    let mut ss = StringStream::new("   \tx");
    skip_whitespace(&mut ss);
    assert_eq!(ss.file_pos(), FilePos { line: 1, col: 4 });
    assert_eq!(ss.next(), Ok('\t'));
    skip_whitespace(&mut ss);
    assert_eq!(ss.next(), Ok('x'));
    skip_whitespace(&mut ss);
    assert!(ss.next().is_err());
}

#[test]
fn skip_whitespace_runs_to_the_end_of_blank_text() {
    let mut fs = FileStream::new(String::from("blank"), "    ");
    skip_whitespace(&mut fs);
    assert_eq!(fs.file_pos(), FilePos { line: 1, col: 5 });
    assert!(fs.next().is_err());
}
