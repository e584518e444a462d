use pylexer::parser::lexer::Keyword::{Def, Return};
use pylexer::parser::lexer::Token::{Ident, Kywrd, Symbl, WS};
use pylexer::parser::lexer::{as_symbol, into_token, Keyword, Token, TokenStream};
use pylexer::parser::parse_stream::{FileStream, ParseStream, StringStream};
use pylexer::parser::{ErrorKind, FilePos, ParseError};

fn ident(name: &str) -> Token {
    Token::Ident(String::from(name))
}

fn lexer(text: &str) -> TokenStream<StringStream> {
    TokenStream::new(StringStream::new(text))
}

#[test]
fn lexing() {
    let ss = StringStream::new("def defunc(a, b):\n\tx = a + \tb\n\treturn    x\n\n");
    let tokens = TokenStream::new(ss);
    let res = 
    vec![ WS(0), Kywrd(Def), Ident(String::from("defunc")), Symbl('('), Ident(String::from("a")), Symbl(','), Ident(String::from("b")), Symbl(')'), Symbl(':')
        , WS(4), Ident(String::from("x")), Symbl('='), Ident(String::from("a")), Symbl('+'), Ident(String::from("b"))
        , WS(4), Kywrd(Return), Ident(String::from("x"))
        , WS(0)
        , WS(0)
    ];
    assert_eq!(tokens.collect(), res);
}

#[test]
fn keywords_are_recognised() {
    let tokens = lexer("if else def return class None True False").collect();
    assert_eq!(tokens[0], Token::WS(0));
    assert_eq!(
        tokens[1..],
        [
            Token::Kywrd(Keyword::If),
            Token::Kywrd(Keyword::Else),
            Token::Kywrd(Keyword::Def),
            Token::Kywrd(Keyword::Return),
            Token::Kywrd(Keyword::Class),
            Token::Kywrd(Keyword::NoneKw),
            Token::Kywrd(Keyword::True),
            Token::Kywrd(Keyword::False),
        ]
    );
}

#[test]
fn keywords_are_case_sensitive_and_whole_words() {
    assert_eq!(into_token(String::from("if")), Token::Kywrd(Keyword::If));
    assert_eq!(into_token(String::from("If")), ident("If"));
    assert_eq!(into_token(String::from("none")), ident("none"));
    assert_eq!(into_token(String::from("None")), Token::Kywrd(Keyword::NoneKw));
    assert_eq!(into_token(String::from("true")), ident("true"));
    assert_eq!(into_token(String::from("defs")), ident("defs"));
    assert_eq!(into_token(String::from("de")), ident("de"));
    assert_eq!(into_token(String::from("class_")), ident("class_"));
    assert_eq!(into_token(String::from("return")), Token::Kywrd(Keyword::Return));
    assert_eq!(into_token(String::from("x1")), ident("x1"));
}

#[test]
fn symbols_are_the_thirteen_characters() {
    for c in ['.', ',', ':', '(', ')', '[', ']', '=', '+', '-', '#', '\'', '\\'] {
        assert_eq!(as_symbol(c), Some(Token::Symbl(c)));
    }
    for c in ['a', '_', '0', ' ', '\n', '$', '*', '{', '"', '/'] {
        assert_eq!(as_symbol(c), None);
    }
}

#[test]
fn tab_is_four_wide() {
    let mut ts = lexer("\tx = 1");
    assert_eq!(ts.next(), Ok(Token::WS(4)));
    assert_eq!(ts.next(), Ok(ident("x")));
    assert_eq!(ts.next(), Ok(Token::Symbl('=')));
    assert_eq!(ts.next(), Ok(ident("1")));
    assert!(ts.next().is_err());
}

#[test]
fn indentation_adds_spaces_and_tabs() {
    assert_eq!(lexer("  \t \tx").collect(), vec![Token::WS(11), ident("x")]);
    assert_eq!(lexer("").collect(), vec![Token::WS(0)]);
    assert_eq!(lexer("   ").collect(), vec![Token::WS(3)]);
    assert_eq!(lexer("\n").collect(), vec![Token::WS(0), Token::WS(0)]);
    assert_eq!(
        lexer("a\n  b\n").collect(),
        vec![Token::WS(0), ident("a"), Token::WS(2), ident("b"), Token::WS(0)]
    );
}

#[test]
fn bad_character_is_reported_at_its_place() {
    let mut ts = lexer("a$b");
    assert_eq!(ts.next(), Ok(Token::WS(0)));
    let e = ts.next().unwrap_err();
    assert_eq!(*e.kind(), ErrorKind::BadCharacter { found: '$' });
    assert_eq!(e.position(), FilePos { line: 1, col: 2 });
    assert_eq!(e.message(), "Bad char '$'");
    assert_eq!(e, ParseError::bad_char('$', FilePos { line: 1, col: 2 }));
}

#[test]
fn bad_character_between_tokens() {
    let mut ts = lexer("a\n  ?");
    assert_eq!(ts.next(), Ok(Token::WS(0)));
    assert_eq!(ts.next(), Ok(ident("a")));
    assert_eq!(ts.next(), Ok(Token::WS(2)));
    assert_eq!(ts.next(), Err(ParseError::bad_char('?', FilePos { line: 2, col: 3 })));
}

#[test]
fn scenario_of_a_small_function() {
    let mut ts = lexer("def f(a, b):\n\treturn a\n");
    let expected = vec![
        Token::WS(0),
        Token::Kywrd(Keyword::Def),
        ident("f"),
        Token::Symbl('('),
        ident("a"),
        Token::Symbl(','),
        ident("b"),
        Token::Symbl(')'),
        Token::Symbl(':'),
        Token::WS(4),
        Token::Kywrd(Keyword::Return),
        ident("a"),
        Token::WS(0),
    ];
    for t in expected {
        assert_eq!(ts.next(), Ok(t));
    }
    let e = ts.next().unwrap_err();
    assert_eq!(*e.kind(), ErrorKind::Eof);
    assert_eq!(e, ParseError::eof(FilePos { line: 3, col: 1 }, None));
}

#[test]
fn other_white_space_separates_words() {
    assert_eq!(
        lexer("a\rb\u{a0}c\u{2003}d").collect(),
        vec![Token::WS(0), ident("a"), ident("b"), ident("c"), ident("d")]
    );
}

#[test]
fn symbol_behind_a_word_is_the_next_token() {
    let mut ts = lexer("ab(c");
    assert_eq!(ts.next(), Ok(Token::WS(0)));
    assert_eq!(ts.next(), Ok(ident("ab")));
    assert_eq!(ts.file_pos(), FilePos { line: 1, col: 4 });
    assert_eq!(ts.next(), Ok(Token::Symbl('(')));
    assert_eq!(ts.file_pos(), FilePos { line: 1, col: 4 });
    assert_eq!(ts.next(), Ok(ident("c")));
    assert_eq!(ts.next(), Err(ParseError::eof(FilePos { line: 1, col: 5 }, None)));
}

#[test]
fn match_takes_the_tokens_it_names() {
    let mut ts = lexer("def f(x)");
    assert_eq!(
        ts.try_match(vec![Token::WS(0), Token::Kywrd(Keyword::Def), ident("f")]),
        Ok(vec![Token::WS(0), Token::Kywrd(Keyword::Def), ident("f")])
    );
    assert_eq!(ts.next(), Ok(Token::Symbl('(')));
    assert_eq!(ts.try_match(vec![ident("x"), Token::Symbl(')')]), Ok(vec![ident("x"), Token::Symbl(')')]));
    assert!(ts.next().is_err());
}

#[test]
fn failed_match_loses_no_token() {
    let mut ts = lexer("def f(a):\n\treturn a");
    let e = ts
        .try_match(vec![Token::WS(0), Token::Kywrd(Keyword::Class), ident("f")])
        .unwrap_err();
    assert_eq!(*e.kind(),
        ErrorKind::Mismatch {
            expected: String::from("Keyword Class"),
            actual: String::from("Keyword Def"),
        }
    );
    assert_eq!(e.message(), "Expected Keyword Class, got Keyword Def");
    assert_eq!(e.position(), FilePos { line: 1, col: 7 });
    let e = ts.try_match(vec![Token::WS(1)]).unwrap_err();
    assert_eq!(e.message(), "Expected Whitespace 1, got Whitespace 0");
    let e = ts.try_match(vec![Token::WS(0), ident("g"), Token::Symbl('(')]).unwrap_err();
    assert_eq!(e.message(), "Expected Identifier g, got Keyword Def");
    assert_eq!(
        ts.collect(),
        vec![
            Token::WS(0),
            Token::Kywrd(Keyword::Def),
            ident("f"),
            Token::Symbl('('),
            ident("a"),
            Token::Symbl(')'),
            Token::Symbl(':'),
            Token::WS(4),
            Token::Kywrd(Keyword::Return),
            ident("a"),
        ]
    );
}

#[test]
fn failed_match_then_next_keeps_the_order() {
    let mut ts = lexer("a.b");
    assert!(ts.try_match(vec![Token::WS(0), ident("a"), Token::Symbl(','), ident("b")]).is_err());
    assert_eq!(ts.next(), Ok(Token::WS(0)));
    assert!(ts.try_match(vec![Token::Symbl('.')]).is_err());
    assert_eq!(ts.next(), Ok(ident("a")));
    assert_eq!(ts.next(), Ok(Token::Symbl('.')));
    assert_eq!(ts.try_match(vec![ident("b")]), Ok(vec![ident("b")]));
    assert!(ts.next().is_err());
}

#[test]
fn match_beyond_the_input_is_eof_and_keeps_the_tokens() {
    let mut ts = lexer("x y");
    let e = ts
        .try_match(vec![Token::WS(0), ident("x"), ident("y"), ident("z")])
        .unwrap_err();
    assert_eq!(e, ParseError::eof(FilePos { line: 1, col: 4 }, None));
    assert_eq!(ts.collect(), vec![Token::WS(0), ident("x"), ident("y")]);
}

#[test]
fn match_that_meets_a_bad_character_reports_it() {
    let mut ts = lexer("x ! y");
    let e = ts.try_match(vec![Token::WS(0), ident("x"), ident("y")]).unwrap_err();
    assert_eq!(e, ParseError::bad_char('!', FilePos { line: 1, col: 3 }));
    assert_eq!(ts.next(), Ok(Token::WS(0)));
    assert_eq!(ts.next(), Ok(ident("x")));
    assert_eq!(ts.next(), Ok(ident("y")));
    assert!(ts.next().is_err());
}

#[test]
fn match_of_nothing_reads_nothing() {
    let mut ts = lexer("x");
    assert_eq!(ts.try_match(Vec::new()), Ok(Vec::new()));
    assert_eq!(ts.file_pos(), FilePos { line: 1, col: 1 });
    assert_eq!(ts.collect(), vec![Token::WS(0), ident("x")]);
}

#[test]
fn tokens_describe_themselves() {
    assert_eq!(Token::WS(12).describe(), "Whitespace 12");
    assert_eq!(ident("foo").describe(), "Identifier foo");
    assert_eq!(Token::Kywrd(Keyword::NoneKw).describe(), "Keyword None");
    assert_eq!(Token::Kywrd(Keyword::Return).describe(), "Keyword Return");
    assert_eq!(Token::Symbl('#').describe(), "Symbol #");
}

#[test]
fn tokens_compare_by_variant_and_payload() {
    assert!(ident("a").same(&ident("a")));
    assert!(!ident("a").same(&ident("b")));
    assert!(!ident("if").same(&Token::Kywrd(Keyword::If)));
    assert!(Token::WS(4).same(&Token::WS(4)));
    assert!(!Token::WS(4).same(&Token::WS(5)));
    assert!(!Token::Symbl('(').same(&Token::Symbl(')')));
    assert_eq!(ident("a"), ident("a"));
    assert_ne!(Token::Kywrd(Keyword::True), Token::Kywrd(Keyword::False));
}

#[test]
fn lexer_reads_from_a_file_stream() {
    let fs = FileStream::new(String::from("m.py"), "class A:\n    x = 1\n");
    let ts = TokenStream::new(fs);
    assert_eq!(
        ts.collect(),
        vec![
            Token::WS(0),
            Token::Kywrd(Keyword::Class),
            ident("A"),
            Token::Symbl(':'),
            Token::WS(4),
            ident("x"),
            Token::Symbl('='),
            ident("1"),
            Token::WS(0),
        ]
    );
}
