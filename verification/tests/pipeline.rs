use json_parser_rs::parse_json;
use json_parser_rs::parser::Json;
use json_parser_rs::errors::{LexerError, ParserError};

#[test]
fn parses_singleton_array() {
    let v = parse_json("[1]").unwrap();
    assert_eq!(v, Json::Array(vec![Json::Number("1".to_string())]));
}

#[test]
fn parses_singleton_object() {
    let v = parse_json(r#"{"key":1}"#).unwrap();
    assert_eq!(
        v,
        Json::Object(vec![("key".to_string(), Json::Number("1".to_string()))])
    );
}

#[test]
fn whitespace_is_insignificant() {
    let spaced = parse_json("{ \"a\" : 1 }").unwrap();
    let tight = parse_json("{\"a\":1}").unwrap();
    assert_eq!(spaced, tight);
}

#[test]
fn duplicate_key_last_write_wins() {
    let v = parse_json(r#"{"k":1,"k":2}"#).unwrap();
    assert_eq!(
        v,
        Json::Object(vec![("k".to_string(), Json::Number("2".to_string()))])
    );
}

#[test]
fn trailing_comma_in_array_is_rejected() {
    let err = parse_json("[1,]").unwrap_err();
    assert!(matches!(err, ParserError::InvalidToken(_)));
}

#[test]
fn trailing_comma_in_object_is_rejected() {
    let err = parse_json(r#"{"a":1,}"#).unwrap_err();
    assert!(matches!(err, ParserError::InvalidToken(_)));
}

#[test]
fn bare_top_level_number_is_rejected() {
    let err = parse_json("42").unwrap_err();
    assert_eq!(err, ParserError::InvalidToken("invalid token".to_string()));
}

#[test]
fn bare_top_level_string_is_rejected() {
    let err = parse_json("\"abc\"").unwrap_err();
    assert_eq!(err, ParserError::InvalidToken("invalid token".to_string()));
}

#[test]
fn nested_scalar_is_accepted() {
    let v = parse_json("[42]").unwrap();
    assert_eq!(v, Json::Array(vec![Json::Number("42".to_string())]));
}

#[test]
fn unterminated_string_is_a_lexical_error() {
    let err = parse_json(r#"{"a":"b"#).unwrap_err();
    assert_eq!(
        err,
        ParserError::InvalidJson(LexerError::InvalidString(
            "unterminated string".to_string()
        ))
    );
}

#[test]
fn unknown_identifier_is_a_lexical_error() {
    let err = parse_json("[nul]").unwrap_err();
    assert_eq!(
        err,
        ParserError::InvalidJson(LexerError::InvalidIdent("nul".to_string()))
    );
}

#[test]
fn invalid_character_is_a_lexical_error() {
    let err = parse_json("{#}").unwrap_err();
    assert_eq!(err, ParserError::InvalidJson(LexerError::InvalidChar));
}

#[test]
fn parsing_twice_yields_equal_trees() {
    let text = r#"{"name":"Alex", "age": 30, "tags":[true, null, 10.5]}"#;
    let first = parse_json(text).unwrap();
    let second = parse_json(text).unwrap();
    assert_eq!(first, second);
}

#[test]
fn parses_nested_structure() {
    let v = parse_json(r#"{"a":{"b":[1,2]},"c":null}"#).unwrap();
    assert_eq!(
        v,
        Json::Object(vec![
            (
                "a".to_string(),
                Json::Object(vec![(
                    "b".to_string(),
                    Json::Array(vec![
                        Json::Number("1".to_string()),
                        Json::Number("2".to_string()),
                    ])
                )])
            ),
            ("c".to_string(), Json::Null),
        ])
    );
}

#[test]
fn parses_empty_object_and_array() {
    assert_eq!(parse_json("{}").unwrap(), Json::Object(vec![]));
    assert_eq!(parse_json("[]").unwrap(), Json::Array(vec![]));
}

#[test]
fn parses_all_scalars_inside_array() {
    let v = parse_json(r#"["s", 1.25, true, false, null]"#).unwrap();
    assert_eq!(
        v,
        Json::Array(vec![
            Json::String("s".to_string()),
            Json::Number("1.25".to_string()),
            Json::Boolean(true),
            Json::Boolean(false),
            Json::Null,
        ])
    );
}

#[test]
fn backslash_is_an_ordinary_string_character() {
    let v = parse_json(r#"["a\b"]"#).unwrap();
    assert_eq!(v, Json::Array(vec![Json::String("a\\b".to_string())]));
}

#[test]
fn missing_value_after_colon_is_rejected() {
    let err = parse_json(r#"{"a":}"#).unwrap_err();
    assert_eq!(err, ParserError::InvalidToken("invalid token".to_string()));
}

#[test]
fn unopened_document_is_rejected() {
    let err = parse_json(":").unwrap_err();
    assert_eq!(err, ParserError::InvalidToken("invalid token".to_string()));
}
