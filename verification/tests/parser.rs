use json_parser_rs::parser::{Json, Parser};
use json_parser_rs::token::Token;
use json_parser_rs::errors::ParserError;

#[test]
fn test_parse_array() {
    let tokens = vec![
        Token::ArrayStart,
        Token::Number("1.0".to_string()),
        Token::ArrayEnd,
    ];
    let mut parser = Parser::new(tokens);
    let obj = parser.parse().unwrap();
    assert_eq!(obj, Json::Array(vec![Json::Number("1.0".to_string())]));
}

#[test]
fn test_parse_object() {
    let tokens = vec![
        Token::ObjectStart,
        Token::String("key".to_string()),
        Token::Colon,
        Token::Number("1.0".to_string()),
        Token::ObjectEnd,
    ];
    let mut parser = Parser::new(tokens);
    let obj = parser.parse().unwrap();
    assert_eq!(
        obj,
        Json::Object(vec![("key".to_string(), Json::Number("1.0".to_string()))])
    );
}

#[test]
fn test_parse_object1() {
    let tokens = vec![
        Token::ObjectStart,
        Token::String("key".to_string()),
        Token::Colon,
        Token::ArrayStart,
        Token::Number("1.0".to_string()),
        Token::Comma,
        Token::String("data".to_string()),
        Token::Comma,
        Token::Boolean(true),
        Token::ArrayEnd,
        Token::ObjectEnd,
    ];
    let mut parser = Parser::new(tokens);
    let obj = parser.parse().unwrap();
    assert_eq!(
        obj,
        Json::Object(vec![(
            "key".to_string(),
            Json::Array(vec![
                Json::Number("1.0".to_string()),
                Json::String("data".to_string()),
                Json::Boolean(true),
            ])
        )])
    );
}

#[test]
fn test_parse_object2() {
    let tokens = vec![
        Token::ObjectStart,
        Token::String("key".to_string()),
        Token::Colon,
        Token::ObjectStart,
        Token::String("k1".to_string()),
        Token::Colon,
        Token::String("v1".to_string()),
        Token::Comma,
        Token::String("k2".to_string()),
        Token::Colon,
        Token::Boolean(true),
        Token::ObjectEnd,
        Token::ObjectEnd,
    ];
    let mut parser = Parser::new(tokens);
    let obj = parser.parse().unwrap();
    assert_eq!(
        obj,
        Json::Object(vec![(
            "key".to_string(),
            Json::Object(vec![
                ("k1".to_string(), Json::String("v1".to_string())),
                ("k2".to_string(), Json::Boolean(true)),
            ])
        )])
    );
}

#[test]
fn test_parse_empty_tokens_yields_null() {
    let mut parser = Parser::new(vec![Token::Eof]);
    assert_eq!(parser.parse().unwrap(), Json::Null);
}

#[test]
fn test_parse_missing_colon() {
    let tokens = vec![
        Token::ObjectStart,
        Token::String("key".to_string()),
        Token::Number("1".to_string()),
        Token::ObjectEnd,
    ];
    let mut parser = Parser::new(tokens);
    let err = parser.parse().unwrap_err();
    assert_eq!(err, ParserError::InvalidToken("expected colon".to_string()));
}

#[test]
fn test_parse_missing_comma() {
    let tokens = vec![
        Token::ArrayStart,
        Token::Number("1".to_string()),
        Token::Number("2".to_string()),
        Token::ArrayEnd,
    ];
    let mut parser = Parser::new(tokens);
    let err = parser.parse().unwrap_err();
    assert_eq!(err, ParserError::InvalidToken("expected comma".to_string()));
}

#[test]
fn test_parse_unclosed_object() {
    let tokens = vec![
        Token::ObjectStart,
        Token::String("key".to_string()),
        Token::Colon,
        Token::Number("1".to_string()),
        Token::Eof,
    ];
    let mut parser = Parser::new(tokens);
    let err = parser.parse().unwrap_err();
    assert_eq!(err, ParserError::InvalidToken("expected comma".to_string()));
}

#[test]
fn test_parse_non_string_key() {
    let tokens = vec![
        Token::ObjectStart,
        Token::Number("1".to_string()),
        Token::Colon,
        Token::Number("2".to_string()),
        Token::ObjectEnd,
    ];
    let mut parser = Parser::new(tokens);
    let err = parser.parse().unwrap_err();
    assert_eq!(err, ParserError::InvalidToken("expected string".to_string()));
}
