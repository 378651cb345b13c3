use jsonparser::parser::{ParseError, Parser, Value};
use jsonparser::scan::{Scanner, ScannerErrorHandler};
use jsonparser::types::{Token, TokenType};

fn create_tokens(s: &str) -> Vec<Token> {
    let scanner = Scanner::new(ScannerErrorHandler::new());
    match scanner.scan(s.to_string()) {
        Ok(tokens) => tokens,
        Err(_) => panic!("Should be a valid string"),
    }
}

fn parse(s: &str) -> Value {
    Parser::parse(&create_tokens(s)).unwrap()
}

fn parse_err(s: &str) -> ParseError {
    match Parser::parse(&create_tokens(s)) {
        Ok(v) => panic!("expected an error, got {:?}", v),
        Err(e) => e,
    }
}

#[test]
fn only_one_null() {
    assert_eq!(parse("null"), Value::Null);
}

#[test]
fn only_one_bool() {
    assert_eq!(parse("true"), Value::Bool(true));
    assert_eq!(parse("false"), Value::Bool(false));
}

#[test]
fn only_one_number() {
    assert_eq!(parse("123456789"), Value::Number(123456789));
}

#[test]
fn empty_array() {
    assert_eq!(parse("[]"), Value::Array(Vec::new()));
}

#[test]
fn array_with_one_null_value() {
    assert_eq!(parse("[null]"), Value::Array(vec![Value::Null]));
}

#[test]
fn flat_array_keeps_order() {
    assert_eq!(
        parse("[1, \"x\", true, null, false]"),
        Value::Array(vec![
            Value::Number(1),
            Value::String("x".to_string()),
            Value::Bool(true),
            Value::Null,
            Value::Bool(false),
        ])
    );
}

#[test]
fn string_value() {
    assert_eq!(parse("\"hi there\""), Value::String("hi there".to_string()));
}

#[test]
fn object_with_two_keys() {
    assert_eq!(
        parse("{\"a\":1,\"b\":2}"),
        Value::Object(vec![
            ("a".to_string(), Value::Number(1)),
            ("b".to_string(), Value::Number(2)),
        ])
    );
}

#[test]
fn empty_object() {
    assert_eq!(parse("{ }"), Value::Object(Vec::new()));
}

#[test]
fn duplicate_key_takes_last_value_in_first_place() {
    assert_eq!(
        parse("{\"a\":1,\"b\":2,\"a\":3}"),
        Value::Object(vec![
            ("a".to_string(), Value::Number(3)),
            ("b".to_string(), Value::Number(2)),
        ])
    );
}

#[test]
fn nested_arrays() {
    assert_eq!(
        parse("[[1,2],[3,4]]"),
        Value::Array(vec![
            Value::Array(vec![Value::Number(1), Value::Number(2)]),
            Value::Array(vec![Value::Number(3), Value::Number(4)]),
        ])
    );
}

#[test]
fn object_inside_array() {
    assert_eq!(
        parse("[{\"k\":[null]}]"),
        Value::Array(vec![Value::Object(vec![(
            "k".to_string(),
            Value::Array(vec![Value::Null])
        )])])
    );
}

#[test]
fn trailing_comma_is_rejected() {
    match parse_err("[1,]") {
        ParseError::BadToken(t) => {
            assert_eq!(t.lexeme, "]");
            assert_eq!(t.column, 4);
        }
        e => panic!("unexpected error {:?}", e),
    }
}

#[test]
fn leading_comma_is_rejected() {
    match parse_err("[,1]") {
        ParseError::BadToken(t) => {
            assert_eq!(t.lexeme, ",");
            assert_eq!(t.column, 2);
        }
        e => panic!("unexpected error {:?}", e),
    }
}

#[test]
fn missing_separator_is_rejected() {
    assert!(matches!(parse_err("[1 2]"), ParseError::BadToken(t) if t.lexeme == "2"));
}

#[test]
fn object_key_must_be_string() {
    assert!(matches!(parse_err("{1:2}"), ParseError::BadToken(t) if t.lexeme == "1"));
}

#[test]
fn object_needs_colon() {
    assert!(matches!(parse_err("{\"a\" 1}"), ParseError::BadToken(t) if t.lexeme == "1"));
}

#[test]
fn trailing_token_is_rejected() {
    assert!(matches!(parse_err("1 2"), ParseError::BadToken(t) if t.lexeme == "2"));
}

#[test]
fn end_of_input() {
    assert!(matches!(parse_err(""), ParseError::EndOfFile));
    assert!(matches!(parse_err("[1"), ParseError::EndOfFile));
    assert!(matches!(parse_err("[1,"), ParseError::EndOfFile));
    assert!(matches!(parse_err("{\"a\":"), ParseError::EndOfFile));
}

#[test]
fn closing_bracket_alone_is_rejected() {
    assert!(matches!(parse_err("]"), ParseError::BadToken(t) if t.lexeme == "]"));
}

#[test]
fn nesting_limit() {
    let ok = format!("{}{}", "[".repeat(128), "]".repeat(128));
    assert!(Parser::parse(&create_tokens(&ok)).is_ok());
    let deep = format!("{}{}", "[".repeat(129), "]".repeat(129));
    match parse_err(&deep) {
        ParseError::TooDeep(t) => assert_eq!(t.column, 129),
        e => panic!("unexpected error {:?}", e),
    }
}

#[test]
fn largest_number() {
    assert_eq!(parse("4294967295"), Value::Number(4294967295));
    assert_eq!(parse("007"), Value::Number(7));
}

#[test]
fn invalid_literal_token_is_an_internal_error() {
    let tokens = vec![Token {
        lexeme: "-10".to_string(),
        token_type: TokenType::Number,
        line: 1,
        column: 1,
    }];
    assert!(matches!(Parser::parse(&tokens), Err(ParseError::InvalidLiteral(t)) if t.lexeme == "-10"));
    let tokens = vec![Token {
        lexeme: "yes".to_string(),
        token_type: TokenType::Bool,
        line: 1,
        column: 1,
    }];
    assert!(matches!(Parser::parse(&tokens), Err(ParseError::InvalidLiteral(_))));
}
