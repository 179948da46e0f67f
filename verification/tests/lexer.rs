use json::lexer::cursor::Cursor;
use json::lexer::span::{FilePosition, Span};
use json::lexer::token::{Token, TokenType};
use json::lexer::tokenize;
use json::JsonConfig;

fn strict() -> JsonConfig {
    JsonConfig::default()
}

fn with_comments_allowed() -> JsonConfig {
    JsonConfig {
        allow_comments: true,
        ..Default::default()
    }
}

fn kinds(text: &str, conf: JsonConfig) -> Vec<TokenType> {
    tokenize(text, conf)
        .unwrap()
        .iter()
        .map(|t| t.get_type())
        .collect()
}

fn lexemes(text: &str, conf: JsonConfig) -> Vec<String> {
    tokenize(text, conf)
        .unwrap()
        .iter()
        .map(|t| t.get_lexem(text).to_string())
        .collect()
}

fn message(text: &str, conf: JsonConfig) -> String {
    match tokenize(text, conf) {
        Ok(_) => panic!("expected an error"),
        Err(e) => e.get_message().to_string(),
    }
}

#[test]
fn test() {
    let text = "Hello world!";
    let mut cursor = Cursor::new(text);
    for c in text.chars() {
        assert!(!cursor.is_finished());
        let next = cursor.advance();
        assert_eq!(next, c);
    }
    assert!(cursor.is_finished());
}

#[test]
fn unknown_keyword() {
    match tokenize("keywrd", JsonConfig::default()) {
        Ok(_) => panic!("Expected error"),
        Err(msg) => assert_eq!(msg.get_message(), "Unknown keyword 'keywrd'"),
    }
}

#[test]
fn with_comments() {
    let tokens = tokenize(
        "12 // kjdakldjs",
        JsonConfig {
            allow_comments: true,
            ..Default::default()
        },
    )
    .unwrap();
    assert_eq!(tokens[0].get_type(), TokenType::Number);
}

#[test]
fn comments_non_supported() {
    match tokenize(
        "12 // kjdakldjs",
        JsonConfig {
            allow_comments: false,
            ..Default::default()
        },
    ) {
        Ok(_) => panic!("Expected Ok"),
        Err(err) => assert_eq!(err.get_message(), "[0:3] Comments are not supported"),
    }
}

#[test]
fn comment_to_end_of_line_leaves_one_token() {
    let tokens = tokenize("12 // trailing comment", with_comments_allowed()).unwrap();
    assert_eq!(tokens.len(), 1);
    assert_eq!(tokens[0].get_type(), TokenType::Number);
    assert_eq!(tokens[0].get_lexem("12 // trailing comment"), "12");
}

#[test]
fn comment_ends_at_line_feed() {
    let text = "1 // one\n2 // two\n3";
    assert_eq!(lexemes(text, with_comments_allowed()), vec!["1", "2", "3"]);
}

#[test]
fn comment_at_end_of_text() {
    assert_eq!(kinds("//", with_comments_allowed()), vec![]);
    assert_eq!(kinds("true//", with_comments_allowed()), vec![TokenType::True]);
}

#[test]
fn block_comment_is_passed_over() {
    let text = "[1, /* two\n lines * / */ 2]";
    assert_eq!(lexemes(text, with_comments_allowed()), vec!["[", "1", ",", "2", "]"]);
    assert_eq!(kinds("/**/", with_comments_allowed()), vec![]);
    assert_eq!(kinds("/***/1", with_comments_allowed()), vec![TokenType::Number]);
}

#[test]
fn block_comment_without_end() {
    assert_eq!(
        message("1 /* no end", with_comments_allowed()),
        "[0:2] Non terminated comment block."
    );
    assert_eq!(
        message("/*/", with_comments_allowed()),
        "[0:0] Non terminated comment block."
    );
    assert_eq!(
        message("/* *", with_comments_allowed()),
        "[0:0] Non terminated comment block."
    );
}

#[test]
fn slash_alone_is_unexpected_where_comments_are_allowed() {
    assert_eq!(
        message("1 / 2", with_comments_allowed()),
        "[0:2] Unexpected character '/'"
    );
    assert_eq!(message("/", with_comments_allowed()), "[0:0] Unexpected character '/'");
}

#[test]
fn slash_is_refused_where_comments_are_not_allowed() {
    assert_eq!(message("/* a */", strict()), "[0:0] Comments are not supported");
    assert_eq!(message("/", strict()), "[0:0] Comments are not supported");
}

#[test]
fn punctuation_maps_one_to_one() {
    assert_eq!(
        kinds("{}[],.-+:", strict()),
        vec![
            TokenType::LeftBrace,
            TokenType::RightBrace,
            TokenType::LSquareBracket,
            TokenType::RSquareBracket,
            TokenType::Comma,
            TokenType::Dot,
            TokenType::Minus,
            TokenType::Plus,
            TokenType::Colon,
        ]
    );
}

#[test]
fn keywords() {
    assert_eq!(
        kinds("true false null", strict()),
        vec![TokenType::True, TokenType::False, TokenType::Null]
    );
    assert_eq!(message("True", strict()), "Unknown keyword 'True'");
    assert_eq!(message("nul", strict()), "Unknown keyword 'nul'");
    assert_eq!(message("true1", strict()), "Unknown keyword 'true1'");
    assert_eq!(message("[truefalse]", strict()), "Unknown keyword 'truefalse'");
}

#[test]
fn white_space_is_dropped() {
    assert_eq!(kinds(" \t\r\n", strict()), vec![]);
    assert_eq!(kinds("", strict()), vec![]);
    assert_eq!(lexemes(" [\n\t1 ,\r\n 2 ] ", strict()), vec!["[", "1", ",", "2", "]"]);
}

#[test]
fn numbers() {
    assert_eq!(lexemes("12", strict()), vec!["12"]);
    assert_eq!(lexemes("12.5", strict()), vec!["12.5"]);
    assert_eq!(lexemes("0.125,7", strict()), vec!["0.125", ",", "7"]);
    assert_eq!(
        kinds("1.", strict()),
        vec![TokenType::Number, TokenType::Dot]
    );
    assert_eq!(
        kinds("1.2.3", strict()),
        vec![TokenType::Number, TokenType::Dot, TokenType::Number]
    );
    assert_eq!(
        kinds(".5", strict()),
        vec![TokenType::Dot, TokenType::Number]
    );
    assert_eq!(
        kinds("-1", strict()),
        vec![TokenType::Minus, TokenType::Number]
    );
    assert_eq!(
        kinds("+1", strict()),
        vec![TokenType::Plus, TokenType::Number]
    );
    assert_eq!(message("1e5", strict()), "Unknown keyword 'e5'");
}

#[test]
fn strings() {
    assert_eq!(lexemes(r#""""#, strict()), vec![r#""""#]);
    assert_eq!(lexemes(r#""abc""#, strict()), vec![r#""abc""#]);
    assert_eq!(lexemes(r#""a b", "c""#, strict()), vec![r#""a b""#, ",", r#""c""#]);
    assert_eq!(kinds(r#""[1, true] // x""#, strict()), vec![TokenType::String]);
    assert_eq!(lexemes("\"two\nlines\"", strict()), vec!["\"two\nlines\""]);
}

#[test]
fn escaped_quote_does_not_end_a_string() {
    assert_eq!(lexemes(r#""a\"b""#, strict()), vec![r#""a\"b""#]);
    assert_eq!(lexemes(r#""\"""#, strict()), vec![r#""\"""#]);
    assert_eq!(lexemes(r#""a\nb""#, strict()), vec![r#""a\nb""#]);
}

#[test]
fn escaped_backslash_escapes_nothing() {
    let text = r#""a\\""#;
    assert_eq!(text.len(), 5);
    let tokens = tokenize(text, strict()).unwrap();
    assert_eq!(tokens.len(), 1);
    assert_eq!(tokens[0].get_type(), TokenType::String);
    assert_eq!((tokens[0].span().offset, tokens[0].span().len), (0, 5));
    assert_eq!(lexemes(r#""\\",1"#, strict()), vec![r#""\\""#, ",", "1"]);
    assert_eq!(lexemes(r#""\\\"""#, strict()), vec![r#""\\\"""#]);
    assert_eq!(lexemes(r#""\\\\""#, strict()), vec![r#""\\\\""#]);
    assert_eq!(message(r#""\\\""#, strict()), "[0:0] Unterminated string");
    assert_eq!(message(r#""\\\\\""#, strict()), "[0:0] Unterminated string");
}

#[test]
fn unterminated_string() {
    assert_eq!(message("\"abc", strict()), "[0:0] Unterminated string");
    assert_eq!(message("\"", strict()), "[0:0] Unterminated string");
    assert_eq!(message("[1, \"abc]", strict()), "[0:4] Unterminated string");
    assert_eq!(message(r#""abc\""#, strict()), "[0:0] Unterminated string");
}

#[test]
fn unexpected_character() {
    assert_eq!(message("$", strict()), "[0:0] Unexpected character '$'");
    assert_eq!(message("[1, ?]", strict()), "[0:4] Unexpected character '?'");
    assert_eq!(message("'a'", strict()), "[0:0] Unexpected character '''");
    assert_eq!(message("\0", strict()), "[0:0] Unexpected character '\0'");
}

#[test]
fn error_position_counts_lines_and_columns() {
    assert_eq!(message("\n$", strict()), "[1:1] Unexpected character '$'");
    assert_eq!(message("[\n  1,\n  $]", strict()), "[2:3] Unexpected character '$'");
    assert_eq!(message("[1,\n\n\"abc", strict()), "[2:1] Unterminated string");
    assert_eq!(message("abc\n    $", strict()), "Unknown keyword 'abc'");
}

#[test]
fn letters_and_digits_beyond_ascii() {
    assert_eq!(message("été", strict()), "Unknown keyword 'été'");
    assert_eq!(message("trué", strict()), "Unknown keyword 'trué'");
    assert_eq!(message("x²", strict()), "Unknown keyword 'x²'");
    assert_eq!(kinds("٣", strict()), vec![TokenType::Number]);
    assert_eq!(lexemes("1٣.٣", strict()), vec!["1٣.٣"]);
    assert_eq!(message("€", strict()), "[0:0] Unexpected character '€'");
    assert_eq!(message("1 €", strict()), "[0:2] Unexpected character '€'");
}

#[test]
fn spans_count_bytes() {
    let text = "[\"é€\", 1]";
    let tokens = tokenize(text, strict()).unwrap();
    let spans: Vec<(usize, usize)> = tokens.iter().map(|t| (t.span().offset, t.span().len)).collect();
    assert_eq!(spans, vec![(0, 1), (1, 7), (8, 1), (10, 1), (11, 1)]);
    assert_eq!(tokens[1].get_lexem(text), "\"é€\"");
    assert_eq!(tokens[1].take_lexem(text), "\"é€\"".to_string());
    assert_eq!(tokens[1].span().to_string(), "[1:8]");
}

#[test]
fn columns_count_characters() {
    assert_eq!(message("\"é€\" $", strict()), "[0:5] Unexpected character '$'");
}

#[test]
fn span_slice_and_position() {
    let text = "ab\ncd\nef";
    let span = Span { offset: 4, len: 3 };
    assert_eq!(span.slice(text), "d\ne");
    let p = span.file_position(text);
    assert_eq!(
        (p.start_line, p.start_col, p.end_line, p.end_col),
        (1, 2, 2, 2)
    );
    assert_eq!(p.to_string(), "[1:2,2:2]");
    let first = Span { offset: 0, len: 2 }.file_position(text);
    assert_eq!(
        (first.start_line, first.start_col, first.end_line, first.end_col),
        (0, 0, 0, 2)
    );
    let all = Span { offset: 0, len: 8 }.file_position(text);
    assert_eq!(
        (all.start_line, all.start_col, all.end_line, all.end_col),
        (0, 0, 2, 3)
    );
    let none = Span { offset: 3, len: 0 }.file_position(text);
    assert_eq!(
        (none.start_line, none.start_col, none.end_line, none.end_col),
        (1, 1, 1, 1)
    );
}

#[test]
fn default_position_is_zero() {
    let p = FilePosition::default();
    assert_eq!((p.start_line, p.start_col, p.end_line, p.end_col), (0, 0, 0, 0));
    assert_eq!(p.to_string(), "[0:0,0:0]");
}

#[test]
fn token_holds_kind_and_span() {
    let t = Token::new(TokenType::Comma, Span { offset: 3, len: 1 });
    assert_eq!(t.get_type(), TokenType::Comma);
    assert_eq!((t.span().offset, t.span().len), (3, 1));
    assert_eq!(t.get_lexem("[1,,2]"), ",");
    assert_eq!(TokenType::LSquareBracket.name(), "LSquareBracket");
    assert_eq!(TokenType::Null.to_string(), "Null");
}

#[test]
fn cursor_peeks_without_reading() {
    let mut c = Cursor::new("ab");
    assert_eq!(c.peek(), 'a');
    assert_eq!(c.peek_next(), 'b');
    assert_eq!(c.peek(), 'a');
    assert_eq!(c.advance(), 'a');
    assert_eq!(c.peek(), 'b');
    assert_eq!(c.peek_next(), '\0');
    assert_eq!(c.advance(), 'b');
    assert_eq!(c.peek(), '\0');
    assert_eq!(c.peek_next(), '\0');
    assert!(c.is_finished());
    assert_eq!(c.advance(), '\0');
    assert!(c.is_finished());
    assert_eq!(c.current_lexem(), "ab");
}

#[test]
fn cursor_matches_next() {
    let mut c = Cursor::new("ab");
    assert!(!c.match_next('b'));
    assert_eq!(c.current_lexem(), "");
    assert!(c.match_next('a'));
    assert_eq!(c.current_lexem(), "a");
    assert!(c.match_next('b'));
    assert!(!c.match_next('b'));
    assert!(c.match_next('\0'));
    assert_eq!(c.current_lexem(), "ab");
}

#[test]
fn cursor_steps_to_a_new_lexeme() {
    let mut c = Cursor::new("é€ x");
    c.advance();
    c.advance();
    assert_eq!(c.current_lexem(), "é€");
    let span = c.get_span();
    assert_eq!((span.offset, span.len), (0, 5));
    c.step();
    assert_eq!(c.current_lexem(), "");
    c.advance();
    c.advance();
    assert_eq!(c.current_lexem(), " x");
    let span = c.get_span();
    assert_eq!((span.offset, span.len), (5, 2));
    assert!(c.is_finished());
}

#[test]
fn cursor_advances_while() {
    let mut c = Cursor::new("123abc");
    assert!(c.advance_while(|c| c.is_numeric()));
    assert_eq!(c.current_lexem(), "123");
    assert!(c.advance_while(|c| c.is_numeric()));
    assert_eq!(c.current_lexem(), "123");
    assert!(!c.advance_while(|c| c.is_alphabetic()));
    assert_eq!(c.current_lexem(), "123abc");
    assert!(c.is_finished());
    assert!(c.advance_while(|c| c.is_alphabetic()));
    assert!(!c.advance_while(|c| *c == '\0'));
}

#[test]
fn cursor_tracks_lines_and_columns() {
    let mut c = Cursor::new("a\nbc");
    let p = c.file_pos();
    assert_eq!((p.start_line, p.start_col, p.end_line, p.end_col), (0, 0, 0, 0));
    c.advance();
    let p = c.file_pos();
    assert_eq!((p.start_line, p.start_col, p.end_line, p.end_col), (0, 0, 0, 1));
    c.advance();
    let p = c.file_pos();
    assert_eq!((p.start_line, p.start_col, p.end_line, p.end_col), (0, 0, 1, 1));
    c.step();
    c.advance();
    c.advance();
    let p = c.file_pos();
    assert_eq!((p.start_line, p.start_col, p.end_line, p.end_col), (1, 1, 1, 3));
    c.advance();
    let p = c.file_pos();
    assert_eq!((p.start_line, p.start_col, p.end_line, p.end_col), (1, 1, 1, 3));
}
