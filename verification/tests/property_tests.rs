use rson::error::JsonError;
use rson::lexer::{lex, JsonTokenType, Numbers};
use rson::parse;
use rson::types::{JsonNum, JsonValue};
use rson::utils::{from_str_to_bool, is_string_token, strip_quotes, typify_token};

#[test]
fn fifty_levels_of_nesting_parse_correctly() {
    let mut text = String::new();
    for _ in 0..50 {
        text.push_str("{\"k\": ");
    }
    text.push_str("1");
    for _ in 0..50 {
        text.push_str("}");
    }
    let obj = parse(text).unwrap();
    let mut cur = &obj;
    for _ in 0..49 {
        cur = match cur.get_value("k").unwrap() {
            JsonValue::Object(o) => o,
            other => panic!("expected an object, got {:?}", other),
        };
    }
    assert_eq!(cur.get_value("k").unwrap(), &JsonValue::Num(JsonNum::Int(1)));
}

#[test]
fn integer_numeral_keeps_its_value() {
    let obj = parse("{\"number\": 1337}".to_owned()).unwrap();
    assert_eq!(
        obj.get_value("number").unwrap(),
        &JsonValue::Num(JsonNum::Int(1337))
    );
}

#[test]
fn float_numeral_keeps_its_text_and_value() {
    let obj = parse("{\"f\": 13.37}".to_owned()).unwrap();
    match obj.get_value("f").unwrap() {
        JsonValue::Num(JsonNum::Float(t)) => {
            assert_eq!(t, "13.37");
            let val: f64 = t.parse().unwrap();
            assert!((val - 13.37).abs() < 1e-9);
        },
        other => panic!("expected a float, got {:?}", other),
    }
}

#[test]
fn comma_terminates_a_numeral() {
    assert!(parse("{\"num\": 13,37}".to_owned()).is_err());
}

#[test]
fn string_values_scenario() {
    let obj = parse(
        "{\"string\": \"I am a string\", \"str_with_num\": \"I am a string w1th numb3rs\"}"
            .to_owned(),
    )
    .unwrap();
    assert_eq!(obj.get_keys().len(), 2);
    assert_eq!(obj.get_string_value("string").unwrap(), "I am a string");
    assert_eq!(
        obj.get_string_value("str_with_num").unwrap(),
        "I am a string w1th numb3rs"
    );
}

#[test]
fn array_scenario() {
    let obj = parse("{\"array\": [1, 2, 3]}".to_owned()).unwrap();
    assert_eq!(obj.get_keys().len(), 1);
    let expected = JsonValue::Vec(vec![
        JsonValue::Num(JsonNum::Int(1)),
        JsonValue::Num(JsonNum::Int(2)),
        JsonValue::Num(JsonNum::Int(3)),
    ]);
    assert_eq!(obj.get_value("array").unwrap(), &expected);
}

#[test]
fn nested_array_scenario() {
    let obj = parse("{\"array\": [[1, 2], [3, 4]]}".to_owned()).unwrap();
    let expected = JsonValue::Vec(vec![
        JsonValue::Vec(vec![
            JsonValue::Num(JsonNum::Int(1)),
            JsonValue::Num(JsonNum::Int(2)),
        ]),
        JsonValue::Vec(vec![
            JsonValue::Num(JsonNum::Int(3)),
            JsonValue::Num(JsonNum::Int(4)),
        ]),
    ]);
    assert_eq!(obj.get_value("array").unwrap(), &expected);
}

#[test]
fn trailing_comma_fails_structurally() {
    let err = parse("{\"key\": \"ending in comma\",}".to_owned()).unwrap_err();
    assert_eq!(err, JsonError::UnexpectedEndOfObject);
    assert!(err.is_structural());
    assert!(!err.is_lexical());
}

#[test]
fn triply_nested_object_scenario() {
    let obj = parse("{\"object\": {\"key\": {\"nested_key\": \"string value\"}}}".to_owned())
        .unwrap();
    let level1 = match obj.get_value("object").unwrap() {
        JsonValue::Object(o) => o,
        other => panic!("expected an object, got {:?}", other),
    };
    let level2 = match level1.get_value("key").unwrap() {
        JsonValue::Object(o) => o,
        other => panic!("expected an object, got {:?}", other),
    };
    assert_eq!(level2.get_keys().len(), 1);
    assert_eq!(
        level2.get_string_value("nested_key").unwrap(),
        "string value"
    );
}

#[test]
fn render_then_reparse_gives_an_equal_tree() {
    let text = "{\"s\": \"abc\", \"n\": -7, \"f\": 2.5, \"b\": true, \"z\": null, \
                \"a\": [1, [2, 3], {\"k\": false}], \"o\": {\"x\": 1}}";
    let first = parse(text.to_owned()).unwrap();
    let rendered = first.render();
    let second = parse(rendered).unwrap();
    assert_eq!(first, second);
}

#[test]
fn empty_document_parses_to_empty_object() {
    let obj = parse("{}".to_owned()).unwrap();
    assert_eq!(obj.get_keys().len(), 0);
}

#[test]
fn empty_input_is_rejected_structurally() {
    let err = parse("".to_owned()).unwrap_err();
    assert_eq!(err, JsonError::UnexpectedEndOfObject);
    assert!(err.is_structural());
}

#[test]
fn whitespace_only_input_is_rejected() {
    let err = parse("  \n ".to_owned()).unwrap_err();
    assert_eq!(err, JsonError::UnexpectedEndOfObject);
    assert!(err.is_structural());
}

#[test]
fn lone_left_brace_is_rejected() {
    let err = parse("{".to_owned()).unwrap_err();
    assert_eq!(err, JsonError::UnexpectedEndOfObject);
    assert!(err.is_structural());
}

#[test]
fn lex_classifies_tokens() {
    let tokens = lex("{\"a\": [1337, -5, 1.5e3, true, false, null]}".to_owned()).unwrap();
    let kinds: Vec<JsonTokenType> = tokens.iter().map(|t| t.get_token()).collect();
    assert_eq!(kinds[2], JsonTokenType::Delimiter(rson::lexer::Delimiters::Colon));
    assert_eq!(kinds[4], JsonTokenType::Number(Numbers::Integer(1337)));
    assert_eq!(kinds[6], JsonTokenType::Number(Numbers::Integer(-5)));
    assert_eq!(kinds[8], JsonTokenType::Number(Numbers::Float("1.5e3".to_owned())));
    assert_eq!(kinds[10], JsonTokenType::Boolean(true));
    assert_eq!(kinds[12], JsonTokenType::Boolean(false));
    assert_eq!(kinds[14], JsonTokenType::Null);
}

#[test]
fn lex_bare_integer_at_end_of_input() {
    let tokens = lex("1337".to_owned()).unwrap();
    assert_eq!(tokens.len(), 1);
    assert_eq!(tokens[0].get_token(), JsonTokenType::Number(Numbers::Integer(1337)));
}

#[test]
fn lex_normalizes_integer_raw_text() {
    let tokens = lex("007".to_owned()).unwrap();
    assert_eq!(tokens[0].get_raw(), "7");
    assert_eq!(tokens[0].get_token(), JsonTokenType::Number(Numbers::Integer(7)));
}

#[test]
fn unterminated_string_is_a_lexical_error() {
    let err = parse("{\"a".to_owned()).unwrap_err();
    assert_eq!(err, JsonError::UnterminatedString);
    assert!(err.is_lexical());
}

#[test]
fn unrecognized_identifier_is_reported_with_its_word() {
    let err = parse("{\"a\": tru}".to_owned()).unwrap_err();
    assert_eq!(err, JsonError::UnrecognizedIdentifier("tru".to_owned()));
}

#[test]
fn malformed_numeral_is_reported() {
    let err = parse("{\"a\": [1..2]}".to_owned()).unwrap_err();
    assert_eq!(err, JsonError::MalformedNumeral("1..2".to_owned()));
}

#[test]
fn integer_overflow_is_a_malformed_numeral() {
    let err = parse("{\"a\": [99999999999999999999]}".to_owned()).unwrap_err();
    assert_eq!(
        err,
        JsonError::MalformedNumeral("99999999999999999999".to_owned())
    );
}

#[test]
fn missing_colon_is_reported_with_the_token() {
    let err = parse("{\"a\" 1}".to_owned()).unwrap_err();
    assert_eq!(err, JsonError::MissingColon("1".to_owned()));
}

#[test]
fn non_string_key_is_reported() {
    let err = parse("{1: 2}".to_owned()).unwrap_err();
    assert_eq!(err, JsonError::NonStringKey("1".to_owned()));
}

#[test]
fn missing_braces_are_reported() {
    let err = parse("\"a\"".to_owned()).unwrap_err();
    assert_eq!(err, JsonError::MissingLeftBrace("\"a\"".to_owned()));
    let err2 = parse("{\"a\": 1".to_owned()).unwrap_err();
    assert_eq!(err2, JsonError::MissingRightBrace("1".to_owned()));
}

#[test]
fn stray_closers_are_reported() {
    let err = parse("{\"a\": },\"b\": 1}".to_owned()).unwrap_err();
    assert_eq!(err, JsonError::StrayRightBrace);
    let err2 = parse("{\"a\": ]}".to_owned()).unwrap_err();
    assert_eq!(err2, JsonError::StrayRightBracket);
}

#[test]
fn pair_not_closed_is_reported() {
    let err = parse("{\"a\": 1 \"b\": 2}".to_owned()).unwrap_err();
    assert_eq!(err, JsonError::PairNotClosed("\"b\"".to_owned()));
}

#[test]
fn comma_as_value_is_reported() {
    let err = parse("{\"a\": ,1}".to_owned()).unwrap_err();
    assert_eq!(err, JsonError::UnexpectedValueToken(",".to_owned()));
}

#[test]
fn colon_inside_array_is_reported() {
    let err = parse("{\"a\": [1:2]}".to_owned()).unwrap_err();
    assert_eq!(err, JsonError::UnexpectedTokenInArray(":".to_owned()));
}

#[test]
fn open_array_at_end_is_reported() {
    let err = parse("{\"a\": [1,}".to_owned()).unwrap_err();
    assert_eq!(err, JsonError::UnexpectedEndOfArray);
}

#[test]
fn strip_quotes_removes_exactly_the_quotes() {
    assert_eq!(strip_quotes("\"abc\"".to_owned()), "abc");
    assert_eq!(strip_quotes("\"\"".to_owned()), "");
}

#[test]
fn is_string_token_checks_both_ends() {
    assert!(is_string_token(&"\"abc\"".to_owned()));
    assert!(!is_string_token(&"abc\"".to_owned()));
    assert!(!is_string_token(&"\"abc".to_owned()));
    assert!(!is_string_token(&"".to_owned()));
}

#[test]
fn from_str_to_bool_reads_the_word() {
    assert_eq!(from_str_to_bool("true".to_owned()), true);
    assert_eq!(from_str_to_bool("false".to_owned()), false);
}

#[test]
fn typify_token_classifies_text() {
    assert_eq!(
        typify_token("\"hi\"".to_owned()).unwrap(),
        JsonValue::String("hi".to_owned())
    );
    assert_eq!(
        typify_token("42".to_owned()).unwrap(),
        JsonValue::Num(JsonNum::Int(42))
    );
    assert_eq!(
        typify_token("4.5".to_owned()).unwrap(),
        JsonValue::Num(JsonNum::Float("4.5".to_owned()))
    );
    assert_eq!(typify_token("true".to_owned()).unwrap(), JsonValue::Bool(true));
    assert_eq!(typify_token("false".to_owned()).unwrap(), JsonValue::Bool(false));
    assert_eq!(typify_token("null".to_owned()).unwrap(), JsonValue::Null);
    assert!(typify_token("wat".to_owned()).is_err());
}
