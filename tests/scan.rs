use jsonparser::scan::{ScanErrorKind, Scanner, ScannerError, ScannerErrorHandler};
use jsonparser::tokenizer::tokenize;
use jsonparser::types::{Token, TokenType};

fn setup() -> Scanner {
    Scanner::new(ScannerErrorHandler::new())
}

fn base_check_no_errors(json: String) {
    let scanner = setup();
    match scanner.scan(json) {
        Ok(_) => (),
        Err(error_handler) => {
            for e in error_handler.errors() {
                println!("{:?} at {}:{}", e.kind, e.line, e.column);
            }
            panic!("Invalid input");
        }
    }
}

fn scan_ok(s: &str) -> Vec<Token> {
    match setup().scan(s.to_string()) {
        Ok(tokens) => tokens,
        Err(_) => panic!("expected no lexical fault in {:?}", s),
    }
}

fn scan_errors(s: &str) -> Vec<ScannerError> {
    match setup().scan(s.to_string()) {
        Ok(_) => panic!("expected lexical faults in {:?}", s),
        Err(h) => h.errors().clone(),
    }
}

fn kinds(tokens: &[Token]) -> Vec<TokenType> {
    tokens.iter().map(|t| t.token_type).collect()
}

#[test]
#[should_panic]
fn unterminated_str() {
    base_check_no_errors("\"This is an unterminated string\n".to_string());
}

#[test]
fn json_string_does_not_consume_too_much_chars() {
    let mut scanner = setup();
    let test_string: Vec<char> = "one\",two\",three".chars().collect();

    let (result, next) = Scanner::json_string(&mut scanner, &test_string, 0);
    let s = result.expect("Invalid input! must contain a string");
    assert_eq!(s, "one");

    assert_eq!(test_string[next], ',');
}

#[test]
fn json_alphanumeric_does_not_consume_too_much_chars() {
    let mut scanner = setup();
    let test_string: Vec<char> = "12345,true,false,-10".chars().collect();

    let (result, next) = Scanner::json_alphanumeric(&mut scanner, &test_string, 0);
    let token = result.unwrap();

    assert_eq!(token.lexeme, "12345");
    assert_eq!(test_string[next], ',');
}

#[test]
fn null_token() {
    let tokens = scan_ok("null");
    assert_eq!(tokens.len(), 1);
    assert_eq!(tokens[0].token_type, TokenType::Null);
    assert_eq!(tokens[0].lexeme, "null");
    assert_eq!((tokens[0].line, tokens[0].column), (1, 1));
}

#[test]
fn bool_tokens() {
    assert_eq!(kinds(&scan_ok("true")), vec![TokenType::Bool]);
    assert_eq!(kinds(&scan_ok("false")), vec![TokenType::Bool]);
    assert_eq!(scan_ok("false")[0].lexeme, "false");
}

#[test]
fn number_token() {
    let tokens = scan_ok("123456789");
    assert_eq!(kinds(&tokens), vec![TokenType::Number]);
    assert_eq!(tokens[0].lexeme, "123456789");
}

#[test]
fn bracket_tokens() {
    assert_eq!(
        kinds(&scan_ok("[]")),
        vec![TokenType::OpeningBrace, TokenType::ClosingBrace]
    );
    assert_eq!(
        kinds(&scan_ok("{\"a\":1}")),
        vec![
            TokenType::OpeningSquirly,
            TokenType::String,
            TokenType::Colon,
            TokenType::Number,
            TokenType::ClosingSquirly,
        ]
    );
}

#[test]
fn positions_count_every_character() {
    let tokens = scan_ok("[ \"ab\" ,\n  true]");
    let pos: Vec<(u32, u32)> = tokens.iter().map(|t| (t.line, t.column)).collect();
    assert_eq!(pos, vec![(1, 1), (1, 3), (1, 8), (2, 3), (2, 7)]);
    assert_eq!(tokens[1].lexeme, "ab");
}

#[test]
fn unterminated_string_at_end_gives_one_error() {
    let errors = scan_errors("\"abc");
    assert_eq!(errors.len(), 1);
    assert_eq!(errors[0].kind, ScanErrorKind::UnterminatedString);
    assert_eq!((errors[0].line, errors[0].column), (1, 1));
}

#[test]
fn unterminated_string_at_newline_gives_one_error() {
    let errors = scan_errors("  \"abc\n");
    assert_eq!(errors.len(), 1);
    assert_eq!(errors[0].kind, ScanErrorKind::UnterminatedString);
    assert_eq!((errors[0].line, errors[0].column), (1, 3));
}

#[test]
fn two_bad_words_give_two_errors() {
    let errors = scan_errors("tru1\nfal2\n");
    assert_eq!(errors.len(), 2);
    assert_eq!(errors[0].kind, ScanErrorKind::UnknownKeyword);
    assert_eq!(errors[0].line, 1);
    assert_eq!(errors[1].kind, ScanErrorKind::UnknownKeyword);
    assert_eq!(errors[1].line, 2);
}

#[test]
fn error_skips_rest_of_line() {
    let errors = scan_errors("[1, x1 \"open\n2]");
    assert_eq!(errors.len(), 1);
    assert_eq!((errors[0].line, errors[0].column), (1, 5));
}

#[test]
fn too_many_decimal_points() {
    let errors = scan_errors("1.2.3");
    assert_eq!(errors.len(), 1);
    assert_eq!(errors[0].kind, ScanErrorKind::TooManyDecimalPoints);
}

#[test]
fn non_ascii_letter_starts_a_word() {
    let errors = scan_errors("[é]");
    assert_eq!(errors.len(), 1);
    assert_eq!(errors[0].kind, ScanErrorKind::UnknownKeyword);
    assert_eq!(errors[0].column, 2);
}

#[test]
fn other_characters_are_skipped() {
    assert_eq!(kinds(&scan_ok(" \t\r;null")), vec![TokenType::Null]);
    assert_eq!(scan_ok(" \t\r;null")[0].column, 5);
}

#[test]
fn scanning_twice_gives_same_errors() {
    let input = "tru1\n\"open\n1.2.3\n";
    let a = scan_errors(input);
    let b = scan_errors(input);
    assert_eq!(a, b);
    assert_eq!(a.len(), 3);
}

#[test]
fn earlier_errors_make_the_scan_fail() {
    let scanner = Scanner::new(ScannerErrorHandler::new());
    let result = scanner.scan("x1".to_string());
    let handler = match result {
        Ok(_) => panic!("expected a fault"),
        Err(h) => h,
    };
    assert!(handler.has_errored());
    let again = Scanner::new(handler).scan("null".to_string());
    match again {
        Ok(_) => panic!("the handed-in faults must be kept"),
        Err(h) => assert_eq!(h.errors().len(), 1),
    }
}

#[test]
fn fresh_handler_has_no_errors() {
    assert!(!ScannerErrorHandler::new().has_errored());
    assert_eq!(setup().position(), (1, 1));
}

#[test]
fn tokenize_gives_scanner_tokens() {
    let tokens = tokenize("[true, 2]".to_string());
    assert_eq!(
        kinds(&tokens),
        vec![
            TokenType::OpeningBrace,
            TokenType::Bool,
            TokenType::Comma,
            TokenType::Number,
            TokenType::ClosingBrace,
        ]
    );
    let copy = tokens[1].clone();
    assert_eq!(copy.lexeme, "true");
    assert_eq!(copy.column, 2);
}

#[test]
fn numbers_that_do_not_convert_are_lexical_faults() {
    for input in ["-10", "1.5", "4294967296", "-"] {
        let errors = scan_errors(input);
        assert_eq!(errors.len(), 1);
        assert_eq!(errors[0].kind, ScanErrorKind::UnsupportedNumber);
    }
    assert_eq!(scan_ok("4294967295")[0].token_type, TokenType::Number);
}

#[test]
fn tokenize_gives_nothing_for_faulty_text() {
    assert!(tokenize("[tru1]".to_string()).is_empty());
}

#[test]
fn all_valid_tokens() {
    base_check_no_errors(
        "{\n  \"name\": \"text with spaces\",\n  \"count\": 42,\n  \"flags\": [true, false],\n  \"nothing\": null,\n  \"inner\": {\"list\": [1, 2, 3]}\n}\n"
            .to_string(),
    );
}

#[test]
fn correct_lineno_for_unterminted_str() {
    let text = format!(
        "{{\n  \"a\": 1,\n  \"b\": [true, false, null],\n{:<37}\"this string never ends\n}}\n",
        "  \"c\": [1, 2, 3],"
    );
    let result = setup().scan(text);
    let error_handler = match result {
        Ok(_) => panic!("expected a fault"),
        Err(h) => h,
    };
    let first_error = &error_handler.errors()[0];
    assert_eq!(first_error.line, 4);
    assert_eq!(first_error.column, 38);
}

#[test]
fn json_string_consumes_the_newline_that_cuts_it_short() {
    let mut scanner = setup();
    let test_string: Vec<char> = "abc\n\"x\"".chars().collect();
    let (result, next) = Scanner::json_string(&mut scanner, &test_string, 0);
    assert_eq!(result, Err(ScanErrorKind::UnterminatedString));
    assert_eq!(next, 4);
    assert_eq!(test_string[next], '"');
    assert_eq!(scanner.position(), (2, 1));
}

#[test]
fn json_string_at_end_of_input() {
    let mut scanner = setup();
    let test_string: Vec<char> = "abc".chars().collect();
    let (result, next) = Scanner::json_string(&mut scanner, &test_string, 0);
    assert_eq!(result, Err(ScanErrorKind::UnterminatedString));
    assert_eq!(next, 3);
    assert_eq!(scanner.position(), (1, 4));
}
