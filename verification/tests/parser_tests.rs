use rson::error::JsonError;
use rson::lexer::{Delimiters, JsonTokenType, Token};
use rson::parser::{get_key, parse_tokens, remove_first_and_last_brace};

#[test]
fn get_key_with_none() {
    let next_val = None;
    assert!(get_key(&next_val).is_err());
}

#[test]
fn get_key_with_string() {
    let key = String::from("String");
    let token = Token::new(JsonTokenType::String(key.clone()), key.clone());
    let next_val = Some(&token);

    let ret = get_key(&next_val);
    assert_eq!(ret.is_ok(), true);
    assert_eq!(ret.unwrap(), key);
}

#[test]
fn get_key_with_not_string() {
    let token = Token::new(JsonTokenType::Delimiter(Delimiters::Comma), ",".to_string());
    let next_val = Some(&token);

    assert!(get_key(&next_val).is_err());
}

#[test]
fn remove_first_and_last_brace_with_empty_vec() {
    let token_vec = vec![];
    let res = remove_first_and_last_brace(token_vec).unwrap();
    assert!(res.len() == 0)
}

#[test]
fn remove_first_and_last_brace_with_no_braces() {
    let json_token = JsonTokenType::Boolean(true);
    let token_vec = vec![Token::new(json_token, "true".to_string())];
    let err = remove_first_and_last_brace(token_vec).unwrap_err();
    assert_eq!(err, JsonError::MissingLeftBrace("true".to_string()));
}

#[test]
fn remove_first_and_last_brace_with_no_last_brace() {
    let start_token = Token::new(
        JsonTokenType::Delimiter(Delimiters::LeftBrace),
        "{".to_string(),
    );
    let end_token = Token::new(JsonTokenType::Boolean(true), "true".to_string());
    let token_vec = vec![start_token, end_token];
    let err = remove_first_and_last_brace(token_vec).unwrap_err();
    assert_eq!(err, JsonError::MissingRightBrace("true".to_string()));
}

#[test]
fn parse_tokens_reads_nested_object() {
    // the body of `"a": {"b": 7}}` as tokens, read from position 0
    let tokens = vec![
        Token::new(JsonTokenType::String("\"a\"".to_string()), "\"a\"".to_string()),
        Token::new(JsonTokenType::Delimiter(Delimiters::Colon), ":".to_string()),
        Token::new(JsonTokenType::Delimiter(Delimiters::LeftBrace), "{".to_string()),
        Token::new(JsonTokenType::String("\"b\"".to_string()), "\"b\"".to_string()),
        Token::new(JsonTokenType::Delimiter(Delimiters::Colon), ":".to_string()),
        Token::new(
            JsonTokenType::Number(rson::lexer::Numbers::Integer(7)),
            "7".to_string(),
        ),
        Token::new(JsonTokenType::Delimiter(Delimiters::RightBrace), "}".to_string()),
        Token::new(JsonTokenType::Delimiter(Delimiters::RightBrace), "}".to_string()),
    ];
    let (obj, next) = parse_tokens(&tokens, 0, false).unwrap();
    assert_eq!(next, 8);
    let inner = match obj.get_value("a").unwrap() {
        rson::types::JsonValue::Object(o) => o,
        other => panic!("expected an object, got {:?}", other),
    };
    assert_eq!(
        inner.get_value("b").unwrap(),
        &rson::types::JsonValue::Num(rson::types::JsonNum::Int(7))
    );
}
