use rson::types::{JsonNum, JsonObject, JsonValue};

#[test]
fn test_get_value() {
    let mut obj = JsonObject::new();
    obj.insert("str".to_owned(), JsonValue::String("String".to_owned()));

    let val = obj.get_value("str").unwrap();
    assert_eq!(val, &JsonValue::String("String".to_owned()));
}

#[test]
fn test_get_string_value() {
    let mut obj = JsonObject::new();
    obj.insert("str".to_owned(), JsonValue::String("String".to_owned()));

    let string = obj.get_string_value("str").unwrap();
    assert_eq!(string, "String");
}

#[test]
fn test_get_keys() {
    let mut obj = JsonObject::new();
    obj.insert("true".to_owned(), JsonValue::Bool(true));
    obj.insert("false".to_owned(), JsonValue::Bool(false));

    let keys = obj.get_keys();
    assert_eq!(keys, vec![&"true".to_owned(), &"false".to_owned()]);
}

#[test]
#[should_panic]
fn test_get_string_value_faulty() {
    let mut obj = JsonObject::new();
    obj.insert("str".to_owned(), JsonValue::Bool(false));

    // the value under "str" is no string, so the library hands back no
    // string and the unwrap is what panics
    obj.get_string_value("str").unwrap();
}

#[test]
fn get_value_missing_key_is_none() {
    let obj = JsonObject::new();
    assert!(obj.get_value("anything").is_none());
}

#[test]
fn insert_same_key_twice_keeps_last_value_and_position() {
    let mut obj = JsonObject::new();
    obj.insert("a".to_owned(), JsonValue::Num(JsonNum::Int(1)));
    obj.insert("b".to_owned(), JsonValue::Num(JsonNum::Int(2)));
    obj.insert("a".to_owned(), JsonValue::Num(JsonNum::Int(3)));

    assert_eq!(obj.get_value("a").unwrap(), &JsonValue::Num(JsonNum::Int(3)));
    let keys = obj.get_keys();
    assert_eq!(keys, vec![&"a".to_owned(), &"b".to_owned()]);
}

#[test]
fn delete_key_removes_only_that_entry() {
    let mut obj = JsonObject::new();
    obj.insert("a".to_owned(), JsonValue::Bool(true));
    obj.insert("b".to_owned(), JsonValue::Bool(false));
    obj.delete_key("a");

    assert!(obj.get_value("a").is_none());
    assert_eq!(obj.get_value("b").unwrap(), &JsonValue::Bool(false));
}

#[test]
fn empty_clears_all_entries() {
    let mut obj = JsonObject::new();
    obj.insert("a".to_owned(), JsonValue::Null);
    obj.empty();
    assert_eq!(obj.get_keys().len(), 0);
}

#[test]
fn to_iter_walks_entries_in_order() {
    let mut obj = JsonObject::new();
    obj.insert("x".to_owned(), JsonValue::Num(JsonNum::Int(1)));
    obj.insert("y".to_owned(), JsonValue::Num(JsonNum::Int(2)));
    let entries = obj.to_iter();
    assert_eq!(entries.len(), 2);
    assert_eq!(entries[0].0, "x");
    assert_eq!(entries[1].1, JsonValue::Num(JsonNum::Int(2)));
}

#[test]
fn render_object_canonical_text() {
    let mut obj = JsonObject::new();
    obj.insert("a".to_owned(), JsonValue::Num(JsonNum::Int(1)));
    obj.insert("b".to_owned(), JsonValue::String("x".to_owned()));
    assert_eq!(obj.render(), "{\"a\": 1,\"b\": \"x\"}");
}

#[test]
fn render_scalar_values() {
    assert_eq!(JsonValue::Num(JsonNum::Int(-42)).render(), "-42");
    assert_eq!(JsonValue::Num(JsonNum::Float("13.37".to_owned())).render(), "13.37");
    assert_eq!(JsonValue::Bool(true).render(), "true");
    assert_eq!(JsonValue::Bool(false).render(), "false");
    assert_eq!(JsonValue::Null.render(), "null");
    assert_eq!(JsonValue::String("hi".to_owned()).render(), "\"hi\"");
}

#[test]
fn render_array_with_separators() {
    let arr = JsonValue::Vec(vec![
        JsonValue::Num(JsonNum::Int(1)),
        JsonValue::Num(JsonNum::Int(2)),
        JsonValue::Num(JsonNum::Int(3)),
    ]);
    assert_eq!(arr.render(), "[1, 2, 3]");
}
