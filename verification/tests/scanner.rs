use json_parser_rs::scanner::Scanner;
use json_parser_rs::token::Token;
use json_parser_rs::errors::LexerError;

#[test]
fn test_scan_string() {
    let mut scanner = Scanner::new(r#"{"key":"value"}"#.to_string());
    let tokens = scanner.scan().unwrap();
    assert_eq!(
        tokens,
        vec![
            Token::ObjectStart,
            Token::String("key".to_string()),
            Token::Colon,
            Token::String("value".to_string()),
            Token::ObjectEnd,
            Token::Eof,
        ]
    );
}

#[test]
fn test_scan_number() {
    let mut scanner = Scanner::new(r#"{"weight":100}"#.to_string());
    let tokens = scanner.scan().unwrap();
    assert_eq!(
        tokens,
        vec![
            Token::ObjectStart,
            Token::String("weight".to_string()),
            Token::Colon,
            Token::Number("100".to_string()),
            Token::ObjectEnd,
            Token::Eof,
        ]
    );
}

#[test]
fn test_scan_number1() {
    let mut scanner = Scanner::new(r#"[10.28]"#.to_string());
    let tokens = scanner.scan().unwrap();
    assert_eq!(
        tokens,
        vec![
            Token::ArrayStart,
            Token::Number("10.28".to_string()),
            Token::ArrayEnd,
            Token::Eof,
        ]
    );
}

#[test]
fn test_scan_boolean() {
    let mut scanner = Scanner::new(r#"{"has_more":true, "contain":false}"#.to_string());
    let tokens = scanner.scan().unwrap();
    assert_eq!(
        tokens,
        vec![
            Token::ObjectStart,
            Token::String("has_more".to_string()),
            Token::Colon,
            Token::Boolean(true),
            Token::Comma,
            Token::String("contain".to_string()),
            Token::Colon,
            Token::Boolean(false),
            Token::ObjectEnd,
            Token::Eof,
        ]
    );
}

#[test]
fn test_scan_array() {
    let mut scanner =
        Scanner::new(r#"["abc", true, false, 10, 10.24, {"key":"value"}]"#.to_string());
    let tokens = scanner.scan().unwrap();
    assert_eq!(
        tokens,
        vec![
            Token::ArrayStart,
            Token::String("abc".to_string()),
            Token::Comma,
            Token::Boolean(true),
            Token::Comma,
            Token::Boolean(false),
            Token::Comma,
            Token::Number("10".to_string()),
            Token::Comma,
            Token::Number("10.24".to_string()),
            Token::Comma,
            Token::ObjectStart,
            Token::String("key".to_string()),
            Token::Colon,
            Token::String("value".to_string()),
            Token::ObjectEnd,
            Token::ArrayEnd,
            Token::Eof,
        ]
    );
}

#[test]
fn test_scan_empty_input() {
    let mut scanner = Scanner::new(String::new());
    let tokens = scanner.scan().unwrap();
    assert_eq!(tokens, vec![Token::Eof]);
}

#[test]
fn test_scan_whitespace_only() {
    let mut scanner = Scanner::new(" \t\r\n".to_string());
    let tokens = scanner.scan().unwrap();
    assert_eq!(tokens, vec![Token::Eof]);
}

#[test]
fn test_scan_null_keyword() {
    let mut scanner = Scanner::new("[null]".to_string());
    let tokens = scanner.scan().unwrap();
    assert_eq!(
        tokens,
        vec![Token::ArrayStart, Token::Null, Token::ArrayEnd, Token::Eof]
    );
}

#[test]
fn test_scan_unterminated_string() {
    let mut scanner = Scanner::new(r#""abc"#.to_string());
    let err = scanner.scan().unwrap_err();
    assert_eq!(err, LexerError::InvalidString("unterminated string".to_string()));
}

#[test]
fn test_scan_invalid_identifier() {
    let mut scanner = Scanner::new("nul".to_string());
    let err = scanner.scan().unwrap_err();
    assert_eq!(err, LexerError::InvalidIdent("nul".to_string()));
}

#[test]
fn test_scan_invalid_char() {
    let mut scanner = Scanner::new("#".to_string());
    let err = scanner.scan().unwrap_err();
    assert_eq!(err, LexerError::InvalidChar);
}

#[test]
fn test_scan_dot_without_following_digit() {
    // The fractional rule demands a digit right after the dot; a bare
    // trailing dot is not part of the number and is no valid character
    // of its own.
    let mut scanner = Scanner::new("[10.]".to_string());
    let err = scanner.scan().unwrap_err();
    assert_eq!(err, LexerError::InvalidChar);
}
