use json_parser::lexer::{LexError, Lexer, Meta, Token};

fn number_value(m: &Meta) -> f64 {
    match m {
        Meta::NumberLiteral(text) => text.parse::<f64>().unwrap(),
        other => panic!("not a number: {:?}", other),
    }
}

fn assert_token(token: Option<Token>, expect: (Meta, usize, usize, &str)) {
    let Some(Token {
        lexeme,
        line,
        column,
        literal,
    }) = token
    else {
        panic!("Expect Some")
    };
    assert_eq!((lexeme, line, column, literal.as_str()), expect)
}

fn assert_token_seq(lexer: &mut Lexer, expect: Vec<(Meta, usize, usize, &str)>) {
    for ele in expect {
        assert_token(lexer.next(), ele);
    }
}

fn assert_number(token: Option<Token>, value: f64, line: usize, column: usize, literal: &str) {
    let t = token.unwrap();
    assert_eq!(number_value(&t.lexeme), value);
    assert_eq!((t.line, t.column, t.literal.as_str()), (line, column, literal));
}

#[test]
fn numbers() {
    for str in ["42", "42.0", "42.00"] {
        assert_number(Lexer::new(str).next(), 42.0, 1, 1, str);
        let str = format!("-{str}");
        assert_number(Lexer::new(str.as_str()).next(), -42.0, 1, 1, str.as_str());
    }

    let mut lexer = Lexer::new(" 42  ");
    assert_number(lexer.next(), 42.0, 1, 2, "42");
    assert!(!lexer.is_done());
    assert_eq!(lexer.next().unwrap().lexeme, Meta::Eof);
    assert!(lexer.is_done());
    assert!(lexer.next().is_none());

    let mut lexer = Lexer::new("-");
    let Token {
        lexeme,
        line,
        column,
        literal,
    } = lexer.next().unwrap();
    let Meta::Error(_) = lexeme else { panic!() };

    assert_eq!((line, column, literal.as_str()), (1, 1, "-"));
}

#[test]
fn strings() {
    assert_token(
        Lexer::new(r#"  "泥嚎"  "#).next(),
        (Meta::StringLiteral("泥嚎".to_string()), 1, 3, r#""泥嚎""#),
    );
    let Token { lexeme, .. } = Lexer::new(r#"  "泥嚎  "#).next().unwrap();
    let Meta::Error(_) = lexeme else { panic!() };
}

#[test]
fn lexer_it_works() {
    let mut lexer = Lexer::new("[12450]\n[-2.00] null true false");
    assert_token(lexer.next(), (Meta::LeftSquare, 1, 1, "["));
    assert_number(lexer.next(), 12450.0, 1, 2, "12450");
    assert_token_seq(&mut lexer, vec![(Meta::RightSquare, 1, 7, "]"), (Meta::LeftSquare, 2, 1, "[")]);
    assert_number(lexer.next(), -2.0, 2, 2, "-2.00");
    assert_token_seq(
        &mut lexer,
        vec![
            (Meta::RightSquare, 2, 7, "]"),
            (Meta::NullLiteral, 2, 9, "null"),
            (Meta::BoolLiteral(true), 2, 14, "true"),
            (Meta::BoolLiteral(false), 2, 19, "false"),
            (Meta::Eof, 2, 24, ""),
        ],
    );
    let json = "{\n    \"name\": \"Haruka\",\n    \"age\": 16,\n    \"friends\": [\"Chihaya\", \"Miki\"]\n}\n";
    let mut lexer = Lexer::new(json);
    let s = |x: &str| Meta::StringLiteral(x.to_string());
    assert_token_seq(
        &mut lexer,
        vec![
            (Meta::LeftBrace, 1, 1, "{"),
            (s("name"), 2, 5, "\"name\""),
            (Meta::Colon, 2, 11, ":"),
            (s("Haruka"), 2, 13, "\"Haruka\""),
            (Meta::Comma, 2, 21, ","),
            (s("age"), 3, 5, "\"age\""),
            (Meta::Colon, 3, 10, ":"),
        ],
    );
    assert_number(lexer.next(), 16.0, 3, 12, "16");
    assert_token_seq(
        &mut lexer,
        vec![
            (Meta::Comma, 3, 14, ","),
            (s("friends"), 4, 5, "\"friends\""),
            (Meta::Colon, 4, 14, ":"),
            (Meta::LeftSquare, 4, 16, "["),
            (s("Chihaya"), 4, 17, "\"Chihaya\""),
            (Meta::Comma, 4, 26, ","),
            (s("Miki"), 4, 28, "\"Miki\""),
            (Meta::RightSquare, 4, 34, "]"),
            (Meta::RightBrace, 5, 1, "}"),
            (Meta::Eof, 6, 1, ""),
        ],
    );
}

#[test]
fn lone_minus_is_error_at_start() {
    let t = Lexer::new("-").next().unwrap();
    assert_eq!(t.lexeme, Meta::Error(LexError::EofAfterMinus));
    assert_eq!((t.line, t.column), (1, 1));
}

#[test]
fn number_errors() {
    let t = Lexer::new("-x").next().unwrap();
    assert_eq!((t.lexeme, t.literal.as_str()), (Meta::Error(LexError::DigitAfterMinus), "-"));
    let t = Lexer::new("1.").next().unwrap();
    assert_eq!((t.lexeme, t.literal.as_str()), (Meta::Error(LexError::EofAfterDot), "1."));
    let t = Lexer::new("1.a").next().unwrap();
    assert_eq!((t.lexeme, t.literal.as_str()), (Meta::Error(LexError::DigitAfterDot), "1."));
    let t = Lexer::new("12.5e").next().unwrap();
    assert_eq!((t.lexeme, t.literal.as_str()), (Meta::NumberLiteral("12.5".to_string()), "12.5"));
}

#[test]
fn string_errors_and_escapes() {
    let t = Lexer::new("\"ab\ncd\"").next().unwrap();
    assert_eq!((t.lexeme, t.literal.as_str()), (Meta::Error(LexError::UnexpectedNewline), "\"ab"));
    let t = Lexer::new("  \"泥嚎  ").next().unwrap();
    assert_eq!((t.lexeme, t.literal.as_str()), (Meta::Error(LexError::UnterminatedString), "\"泥嚎  "));
    let t = Lexer::new(r#""a\"b" 1"#).next().unwrap();
    assert_eq!(t.lexeme, Meta::StringLiteral(r#"a\"b"#.to_string()));
    assert_eq!(t.literal, r#""a\"b""#);
}

#[test]
fn identifiers_and_characters() {
    let t = Lexer::new("nil").next().unwrap();
    assert_eq!((t.lexeme, t.literal.as_str()), (Meta::Error(LexError::UnexpectedIdentifier), "nil"));
    let t = Lexer::new("falsey").next().unwrap();
    assert_eq!((t.lexeme, t.literal.as_str()), (Meta::BoolLiteral(false), "false"));
    let t = Lexer::new("truex").next().unwrap();
    assert_eq!((t.lexeme, t.literal.as_str()), (Meta::Error(LexError::UnexpectedIdentifier), "truex"));
    let mut lexer = Lexer::new(" @ 1");
    let t = lexer.next().unwrap();
    assert_eq!((t.lexeme, t.line, t.column, t.literal.as_str()), (Meta::Error(LexError::UnexpectedCharacter), 1, 2, "@"));
    assert!(lexer.is_done());
    assert!(lexer.next().is_none());
}

#[test]
fn empty_input_is_end() {
    let mut lexer = Lexer::new("");
    assert_token(lexer.next(), (Meta::Eof, 1, 1, ""));
    assert!(lexer.next().is_none());
    assert!(lexer.next().is_none());
}

#[test]
fn category_names() {
    assert_eq!(Meta::LeftBrace.meta_type(), "'{'");
    assert_eq!(Meta::Eof.meta_type(), "EOF");
    assert_eq!(Meta::Comma.meta_type(), ",");
    assert_eq!(LexError::UnterminatedString.message(), "Unterminated string literal");
}

#[test]
fn escaped_newline_is_consumed() {
    let mut lexer = Lexer::new("\"a\\\nb\" 1");
    assert_token(lexer.next(), (Meta::StringLiteral("a\\\nb".to_string()), 1, 1, "\"a\\\nb\""));
    assert_number(lexer.next(), 1.0, 2, 4, "1");
    let t = Lexer::new("\"a\nb\"").next().unwrap();
    assert_eq!(t.lexeme, Meta::Error(LexError::UnexpectedNewline));
}
