use db6::errors::JsonError;
use db6::json::{Json, JsonNumber, JsonObject};

fn parse(text: &str) -> Result<Json, JsonError> {
    Json::parse(text.as_bytes())
}

#[test]
fn integer_parses() {
    match parse("42") {
        Ok(Json::Number(JsonNumber::Int(n))) => assert_eq!(n, 42),
        _ => panic!("expected integer"),
    }
}

#[test]
fn float_parses_as_literal_text() {
    match parse("1.5") {
        Ok(Json::Number(JsonNumber::Float(t))) => assert_eq!(t, "1.5"),
        _ => panic!("expected float"),
    }
}

#[test]
fn scalars_parse() {
    assert!(matches!(parse("true"), Ok(Json::Bool(true))));
    assert!(matches!(parse("false"), Ok(Json::Bool(false))));
    assert!(matches!(parse("null"), Ok(Json::Null)));
    match parse("\"hi\"") {
        Ok(Json::Text(s)) => assert_eq!(s, "hi"),
        _ => panic!("expected text"),
    }
}

#[test]
fn unicode_escape_parses_to_the_scalar() {
    match parse("\"\\u0041\"") {
        Ok(Json::Text(s)) => assert_eq!(s, "A"),
        _ => panic!("expected text"),
    }
}

#[test]
fn escapes_decode() {
    match parse("\"a\\n\\t\\\\\\\"\\/b\"") {
        Ok(Json::Text(s)) => assert_eq!(s, "a\n\t\\\"/b"),
        _ => panic!("expected text"),
    }
}

#[test]
fn trailing_comma_in_array_rejected() {
    assert!(matches!(parse("[1,2,]"), Err(JsonError::TrailingComma)));
}

#[test]
fn trailing_comma_in_object_rejected() {
    assert!(matches!(parse("{\"a\":1,}"), Err(JsonError::TrailingComma)));
}

#[test]
fn trailing_comma_in_nested_array_rejected() {
    assert!(matches!(parse("[[1,],2]"), Err(JsonError::TrailingComma)));
}

#[test]
fn empty_array_parses() {
    match parse("[]") {
        Ok(Json::List(v)) => assert_eq!(v.len(), 0),
        _ => panic!("expected list"),
    }
}

#[test]
fn empty_object_rejected() {
    assert!(matches!(parse("{}"), Err(JsonError::EmptyObjectNotPermitted)));
}

#[test]
fn object_members_parse() {
    match parse("{\"a\":1,\"b\":2}") {
        Ok(Json::Object(obj)) => {
            match obj.lookup(&"a".to_string()) {
                Some(Json::Number(JsonNumber::Int(n))) => assert_eq!(*n, 1),
                _ => panic!("expected a -> 1"),
            }
            match obj.lookup(&"b".to_string()) {
                Some(Json::Number(JsonNumber::Int(n))) => assert_eq!(*n, 2),
                _ => panic!("expected b -> 2"),
            }
        },
        _ => panic!("expected object"),
    }
}

#[test]
fn duplicate_key_last_write_wins() {
    match parse("{\"a\":1,\"a\":2}") {
        Ok(Json::Object(obj)) => match obj.lookup(&"a".to_string()) {
            Some(Json::Number(JsonNumber::Int(n))) => assert_eq!(*n, 2),
            _ => panic!("expected a -> 2"),
        },
        _ => panic!("expected object"),
    }
}

#[test]
fn nested_values_parse() {
    match parse("[1, [2, 3], {\"k\" : null}, \"s\"]") {
        Ok(Json::List(v)) => assert_eq!(v.len(), 4),
        _ => panic!("expected list"),
    }
}

#[test]
fn integer_overflow_rejected() {
    assert!(matches!(parse("9223372036854775808"), Err(JsonError::InvalidNumberLiteral(_))));
    assert!(matches!(parse("9223372036854775807"), Ok(Json::Number(JsonNumber::Int(i64::MAX)))));
}

#[test]
fn invalid_character_rejected() {
    assert!(matches!(parse("@"), Err(JsonError::InvalidCharacter(64))));
}

#[test]
fn unterminated_string_rejected() {
    assert!(matches!(parse("\"abc"), Err(JsonError::UnterminatedString)));
    assert!(matches!(parse("\"abc\\"), Err(JsonError::UnterminatedString)));
}

#[test]
fn invalid_escape_rejected() {
    assert!(matches!(parse("\"\\x\""), Err(JsonError::InvalidEscape(120))));
}

#[test]
fn invalid_hex_digit_rejected() {
    assert!(matches!(parse("\"\\u00g1\""), Err(JsonError::InvalidHexDigit(103))));
}

#[test]
fn truncated_unicode_escape_rejected() {
    assert!(matches!(parse("\"\\u00"), Err(JsonError::TruncatedEscape)));
}

#[test]
fn surrogate_codepoint_rejected() {
    assert!(matches!(parse("\"\\uD800\""), Err(JsonError::InvalidCodepoint(0xD800))));
}

#[test]
fn empty_input_rejected() {
    assert!(matches!(parse(""), Err(JsonError::UnexpectedToken)));
    assert!(matches!(parse("   "), Err(JsonError::UnexpectedToken)));
}

#[test]
fn trailing_data_rejected() {
    assert!(matches!(parse("1 2"), Err(JsonError::TrailingData)));
}

#[test]
fn field_error_carries_the_key() {
    match parse("{\"a\": }") {
        Err(JsonError::InField(k, inner)) => {
            assert_eq!(k, "a");
            assert!(matches!(*inner, JsonError::UnexpectedToken));
        },
        _ => panic!("expected a field error"),
    }
    match parse("{\"a\": [1,]}") {
        Err(JsonError::InField(k, inner)) => {
            assert_eq!(k, "a");
            assert!(matches!(*inner, JsonError::TrailingComma));
        },
        _ => panic!("expected a field error"),
    }
}

#[test]
fn unmatched_identifier_run_is_discarded() {
    // A lowercase run other than true/false/null emits no token at all.
    assert!(matches!(parse("[bogus]"), Ok(Json::List(v)) if v.is_empty()));
}

#[test]
fn render_scalars() {
    assert_eq!(Json::Number(JsonNumber::Int(42)).to_text(), "42");
    assert_eq!(Json::Number(JsonNumber::Int(-7)).to_text(), "-7");
    assert_eq!(Json::Number(JsonNumber::Int(i64::MIN)).to_text(), "-9223372036854775808");
    assert_eq!(Json::Number(JsonNumber::Float("1.5".to_string())).to_text(), "1.5");
    assert_eq!(Json::Bool(true).to_text(), "true");
    assert_eq!(Json::Bool(false).to_text(), "false");
    assert_eq!(Json::Null.to_text(), "null");
    assert_eq!(Json::Absent.to_text(), "");
    assert_eq!(Json::Text("hi".to_string()).to_text(), "\"hi\"");
}

#[test]
fn render_list_and_object() {
    let list = Json::List(vec![
        Json::Number(JsonNumber::Int(1)),
        Json::Number(JsonNumber::Int(2)),
    ]);
    assert_eq!(list.to_text(), "[1, 2]");
    let mut obj = JsonObject::new();
    obj.upsert("a".to_string(), Json::Number(JsonNumber::Int(1)));
    obj.upsert("gone".to_string(), Json::Absent);
    obj.upsert("b".to_string(), Json::Bool(true));
    assert_eq!(Json::Object(obj).to_text(), "{ \"a\" : 1, \"b\" : true }");
}

#[test]
fn scalar_round_trips() {
    for text in ["42", "0", "1.5", "7.", "true", "false", "null", "\"plain\""] {
        let v = parse(text).expect("scalar should parse");
        let rendered = v.to_text();
        let again = parse(&rendered).expect("rendered scalar should parse");
        assert_eq!(rendered, again.to_text());
    }
}

#[test]
fn object_index_hands_out_absent_for_missing_keys() {
    let mut obj = JsonObject::new();
    obj.upsert("a".to_string(), Json::Number(JsonNumber::Int(1)));
    assert!(matches!(obj.index(&"a".to_string()), Json::Number(JsonNumber::Int(1))));
    assert!(matches!(obj.index(&"missing".to_string()), Json::Absent));
    // Read access never creates the key.
    assert!(obj.lookup(&"missing".to_string()).is_none());
}

#[test]
fn from_map_applies_last_write_wins() {
    let obj = JsonObject::from_map(vec![
        ("k".to_string(), Json::Number(JsonNumber::Int(1))),
        ("k".to_string(), Json::Number(JsonNumber::Int(9))),
    ]);
    match obj.lookup(&"k".to_string()) {
        Some(Json::Number(JsonNumber::Int(n))) => assert_eq!(*n, 9),
        _ => panic!("expected k -> 9"),
    }
}
