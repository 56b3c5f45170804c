// The lexer and parser against hand-written expectations, and against
// serde_json as the reference on valid input.

use minijson::parse;
use minijson::serialize;
use minijson::tokenize;
use minijson::ParseError;
use minijson::Token;
use minijson::Value;

fn num(digits: &str) -> Token {
    Token::Number(digits.to_string())
}

fn strtok(s: &str) -> Token {
    Token::String(s.to_string())
}

#[test]
fn lexer_00() {
    assert_eq!(tokenize(r#""""#), vec![strtok("")]);
}

#[test]
fn lexer_01() {
    assert_eq!(tokenize("null"), vec![Token::Null]);
}

#[test]
fn lexer_02() {
    assert_eq!(tokenize("1"), vec![num("1")]);
}

#[test]
fn lexer_03() {
    assert_eq!(tokenize("2"), vec![num("2")]);
}

#[test]
fn lexer_04() {
    assert_eq!(tokenize("true"), vec![Token::Boolean(true)]);
}

#[test]
fn lexer_05() {
    assert_eq!(tokenize("false"), vec![Token::Boolean(false)]);
}

#[test]
fn lexer_06() {
    assert_eq!(tokenize("[]"), vec![Token::LeftBracket, Token::RightBracket]);
}

#[test]
fn lexer_07() {
    assert_eq!(
        tokenize("[true, false]"),
        vec![
            Token::LeftBracket,
            Token::Boolean(true),
            Token::Comma,
            Token::Boolean(false),
            Token::RightBracket
        ]
    );
}

#[test]
fn lexer_08() {
    assert_eq!(tokenize("{}"), vec![Token::LeftBrace, Token::RightBrace]);
}

#[test]
fn lexer_09() {
    assert_eq!(
        tokenize(r#"{"key": "value"}"#),
        vec![
            Token::LeftBrace,
            strtok("key"),
            Token::Colon,
            strtok("value"),
            Token::RightBrace
        ]
    );
}

#[test]
fn lexer_10() {
    assert_eq!(
        tokenize(r#"{"key": [true, [false]]}"#),
        vec![
            Token::LeftBrace,
            strtok("key"),
            Token::Colon,
            Token::LeftBracket,
            Token::Boolean(true),
            Token::Comma,
            Token::LeftBracket,
            Token::Boolean(false),
            Token::RightBracket,
            Token::RightBracket,
            Token::RightBrace
        ]
    );
}

#[test]
fn lexer_empty_input() {
    assert_eq!(tokenize(""), vec![]);
}

#[test]
fn lexer_whitespace_only() {
    assert_eq!(tokenize(" \t\r\n "), vec![]);
}

#[test]
fn lexer_digit_run_kept_verbatim() {
    // The token holds the digit run as written, leading zeros included.
    assert_eq!(tokenize("007"), vec![num("007")]);
}

#[test]
fn lexer_skips_unrecognized() {
    assert_eq!(tokenize("a1b2"), vec![num("1"), num("2")]);
    assert_eq!(tokenize("nul!"), vec![]);
    assert_eq!(tokenize("xnull"), vec![Token::Null]);
}

#[test]
fn lexer_unterminated_string_takes_rest() {
    assert_eq!(tokenize("\"abc"), vec![strtok("abc")]);
}

fn to_serde(v: &Value) -> serde_json::Value {
    match v {
        Value::Null => serde_json::Value::Null,
        Value::Number(n) => serde_json::Value::Number(serde_json::Number::from(*n)),
        Value::String(s) => serde_json::Value::String(s.clone()),
        Value::Boolean(b) => serde_json::Value::Bool(*b),
        Value::Array(elems) => serde_json::Value::Array(elems.iter().map(to_serde).collect()),
        Value::Object(members) => {
            let mut map = serde_json::Map::new();
            for (k, w) in members.iter() {
                map.insert(k.clone(), to_serde(w));
            }
            serde_json::Value::Object(map)
        }
    }
}

fn check_against_reference(input: &str) {
    let expected: serde_json::Value = serde_json::from_str(input).unwrap();
    let actual = parse(input).unwrap();
    assert_eq!(to_serde(&actual), expected);
}

#[test]
fn parser_00() {
    check_against_reference("null");
}

#[test]
fn parser_01() {
    check_against_reference("1");
}

#[test]
fn parser_02() {
    check_against_reference("false");
}

#[test]
fn parser_03() {
    check_against_reference("true");
}

#[test]
fn parser_04() {
    check_against_reference(r#""""#);
}

#[test]
fn parser_05() {
    check_against_reference(r#""rust""#);
}

#[test]
fn parser_06() {
    check_against_reference("[]");
}

#[test]
fn parser_07() {
    check_against_reference("[1]");
}

#[test]
fn parser_08() {
    check_against_reference("[1, 2]");
}

#[test]
fn parser_09() {
    check_against_reference("[1, []]");
}

#[test]
fn parser_10() {
    check_against_reference("[1, [2, 3]]");
}

#[test]
fn parser_11() {
    check_against_reference("[1, [2, 3], 4]");
}

#[test]
fn parser_12() {
    check_against_reference("[1, [2, [3, 4]], 5]");
}

#[test]
fn parser_13() {
    check_against_reference("{}");
}

#[test]
fn parser_14() {
    check_against_reference(r#"{"key": "value"}"#);
}

#[test]
fn parser_15() {
    check_against_reference(r#"{"key": "value", "key2": "value2"}"#);
}

#[test]
fn parser_16() {
    check_against_reference(r#"{"key": {}}"#);
}

#[test]
fn parser_17() {
    check_against_reference(r#"{"key": {"key": "value"}}"#);
}

#[test]
fn parser_18() {
    check_against_reference(r#"{"key": {"key": {}}}"#);
}

#[test]
fn parser_19() {
    check_against_reference(r#"{"key": {"key": {"key": "value"}}}"#);
}

#[test]
fn parser_nested_array_structure() {
    let v = parse("[1, [2, 3], 4]").unwrap();
    assert_eq!(
        v,
        Value::Array(vec![
            Value::Number(1),
            Value::Array(vec![Value::Number(2), Value::Number(3)]),
            Value::Number(4),
        ])
    );
}

#[test]
fn parser_nested_object_structure() {
    let v = parse(r#"{"key": {"key": "value"}}"#).unwrap();
    assert_eq!(
        v,
        Value::Object(vec![(
            "key".to_string(),
            Value::Object(vec![("key".to_string(), Value::String("value".to_string()))]),
        )])
    );
}

#[test]
fn parser_unterminated_array() {
    assert_eq!(parse("[1, 2"), Err(ParseError::UnterminatedContainer));
}

#[test]
fn parser_unterminated_object() {
    assert_eq!(parse(r#"{"key": 1"#), Err(ParseError::UnterminatedContainer));
}

#[test]
fn parser_non_string_key() {
    assert_eq!(parse("{1: 2}"), Err(ParseError::UnexpectedToken));
}

#[test]
fn parser_missing_colon() {
    assert_eq!(parse(r#"{"key" 1}"#), Err(ParseError::UnexpectedToken));
}

#[test]
fn parser_empty_input() {
    assert_eq!(parse(""), Err(ParseError::UnexpectedToken));
}

#[test]
fn parser_trailing_content() {
    assert_eq!(parse("1 2"), Err(ParseError::TrailingContent));
    assert_eq!(parse("[] []"), Err(ParseError::TrailingContent));
}

#[test]
fn parser_numeric_overflow() {
    assert_eq!(
        parse("9223372036854775808"),
        Err(ParseError::NumericOverflow)
    );
    assert_eq!(
        parse("9223372036854775807"),
        Ok(Value::Number(9223372036854775807))
    );
}

#[test]
fn parser_leading_zeros() {
    assert_eq!(parse("007"), Ok(Value::Number(7)));
}

#[test]
fn serializer_renders_compactly() {
    let v = parse("[1, [2, 3], 4]").unwrap();
    assert_eq!(serialize(&v), "[1,[2,3],4]");
    let w = parse(r#"{"key": "value", "key2": {}}"#).unwrap();
    assert_eq!(serialize(&w), r#"{"key":"value","key2":{}}"#);
}

#[test]
fn serializer_terminals() {
    assert_eq!(serialize(&Value::Null), "null");
    assert_eq!(serialize(&Value::Boolean(true)), "true");
    assert_eq!(serialize(&Value::Boolean(false)), "false");
    assert_eq!(serialize(&Value::Number(0)), "0");
    assert_eq!(serialize(&Value::Number(42)), "42");
    assert_eq!(serialize(&Value::Number(-5)), "-5");
    assert_eq!(serialize(&Value::Number(i64::MIN)), "-9223372036854775808");
    assert_eq!(serialize(&Value::String("".to_string())), r#""""#);
    assert_eq!(serialize(&Value::Array(vec![])), "[]");
    assert_eq!(serialize(&Value::Object(vec![])), "{}");
}

fn check_round_trip(input: &str) {
    let first = parse(input).unwrap();
    let rendered = serialize(&first);
    let second = parse(&rendered).unwrap();
    assert_eq!(first, second);
}

#[test]
fn round_trip_parsed_values() {
    check_round_trip("null");
    check_round_trip("0");
    check_round_trip("9223372036854775807");
    check_round_trip(r#""a b  c""#);
    check_round_trip("[1, [2, []], \"x\", true, null]");
    check_round_trip(r#"{"key": {"key": "value"}, "other": [1, 2, {}]}"#);
}
