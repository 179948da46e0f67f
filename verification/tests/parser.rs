use json::lexer::span::Span;
use json::lexer::token::{Token, TokenType};
use json::lexer::tokenize;
use json::parser::{is_float_literal, parse, strip_quotes};
use json::{Json, JsonConfig};

fn chars(s: &str) -> Vec<char> {
    s.chars().collect()
}

#[test]
fn parse_reads_the_tokens_it_is_given() {
    let text = "[true, null]";
    let tokens = tokenize(text, JsonConfig::default()).unwrap();
    let j = parse(text, &tokens, JsonConfig::default()).unwrap();
    assert_eq!(j, Json::from(vec![Json::True, Json::Null]));
}

#[test]
fn parse_goes_by_the_kind_of_a_token() {
    let text = "abc";
    let token = |kind| vec![Token::new(kind, Span { offset: 0, len: 3 })];
    let conf = JsonConfig::default();
    assert_eq!(parse(text, &token(TokenType::True), conf).unwrap(), Json::True);
    assert_eq!(parse(text, &token(TokenType::False), conf).unwrap(), Json::False);
    assert_eq!(parse(text, &token(TokenType::Null), conf).unwrap(), Json::Null);
    assert_eq!(parse(text, &token(TokenType::String), conf).unwrap(), Json::from("abc"));
    assert_eq!(
        parse(text, &token(TokenType::Number), conf).unwrap_err().to_string(),
        "[0:0]: invalid float literal"
    );
    let e = parse(text, &token(TokenType::Comma), conf).unwrap_err();
    assert_eq!(e.get_message(), "Unknown token");
    assert!(e.file_pos().is_none());
    let e = parse(text, &[], conf).unwrap_err();
    assert_eq!(e.to_string(), "Unknown token");
}

#[test]
fn quotes_are_stripped_where_they_are() {
    assert_eq!(strip_quotes(&chars("\"abc\"")), "abc");
    assert_eq!(strip_quotes(&chars("abc")), "abc");
    assert_eq!(strip_quotes(&chars("\"abc")), "abc");
    assert_eq!(strip_quotes(&chars("abc\"")), "abc");
    assert_eq!(strip_quotes(&chars("\"")), "");
    assert_eq!(strip_quotes(&chars("\"\"")), "");
    assert_eq!(strip_quotes(&chars("\"\"\"")), "\"");
    assert_eq!(strip_quotes(&chars("")), "");
    assert_eq!(strip_quotes(&chars("\"a\"b\"")), "a\"b");
}

#[test]
fn number_token_holds_a_float_literal() {
    let conf = JsonConfig::default();
    for text in ["1e5", "-1", ".5", "1.", "+1.5E-3", "inf", "-Infinity", "NaN"] {
        let tokens = vec![Token::new(TokenType::Number, Span { offset: 0, len: text.len() })];
        let j = parse(text, &tokens, conf).unwrap();
        assert_eq!(j.expect_number(), text);
        assert!(text.parse::<f64>().is_ok());
    }
    for text in ["1e", "e5", "-", "1 ", "0x10", "1_0", "infinit"] {
        let tokens = vec![Token::new(TokenType::Number, Span { offset: 0, len: text.len() })];
        let e = parse(text, &tokens, conf).unwrap_err();
        assert_eq!(e.to_string(), "[0:0]: invalid float literal");
        assert!(text.parse::<f64>().is_err());
    }
}

#[test]
fn float_literals() {
    for s in [
        "0", "12", "007", "1.5", "0.125", "10.0", "1.", ".5", "-1", "+1", "-.5", "+5.", "1e5",
        "1E5", "1e+5", "1e-5", "1.5e10", "1.e5", ".5e5", "-1.25E-7", "inf", "INF", "Inf", "+inf",
        "-inf", "infinity", "Infinity", "-INFINITY", "nan", "NaN", "NAN", "+nan", "-nan",
    ] {
        assert!(is_float_literal(&chars(s)), "{s}");
        assert!(s.parse::<f64>().is_ok(), "{s}");
    }
    for s in [
        "", ".", "+", "-", "+-1", "--1", "1.2.3", "a", "1a", "٣", "1.٣", "1 ", " 1", "e5", ".e5",
        "1e", "1e+", "1e-", "1e5.", "1e5e5", "1e1.5", "in", "infi", "infinit", "infinityy", "na",
        "nane", "1inf", "0x10", "1_000", "1,5",
    ] {
        assert!(!is_float_literal(&chars(s)), "{s}");
        assert!(s.parse::<f64>().is_err(), "{s}");
    }
}
