use rson::error::JsonError;
use rson::parse;

#[test]
fn parse_string_values() {
    let text = "{
            \"string\": \"I am a string\",
            \"str_with_num\": \"I am a string w1th numb3rs\"
        }";
    parse(text.to_owned()).unwrap();
}

#[test]
fn parse_number_values() {
    let text = "{
            \"number\": 1337,
            \"float\": \"13.37\"
        }";
    parse(text.to_owned()).unwrap();
}

#[test]
fn parse_vec() {
    let text = "{
            \"array\": [1, 2, 3]
        }";
    parse(text.to_owned()).unwrap();
}

#[test]
fn parse_nested_vec() {
    let text = "{
            \"array\": [[1, 2], [3, 4]]
        }";
    parse(text.to_owned()).unwrap();
}

#[test]
fn parse_object_in_vec() {
    let text = "{
            \"array\": [{\"key\": 1}, [3, 4]]
        }";
    parse(text.to_owned()).unwrap();
}

#[test]
fn parse_object() {
    let text = "{
            \"object\": {\"key\": \"string value\"}
        }";
    parse(text.to_owned()).unwrap();
}

#[test]
fn parse_nested_object() {
    let text = "{
            \"object\": {\"key\": {\"nested_key\": \"string value\"}}
        }";
    parse(text.to_owned()).unwrap();
}

#[test]
fn panic_on_obj_ending_with_comma() {
    let text = "{
           \"key\": \"ending in comma\",
        }";
    let err = parse(text.to_owned()).unwrap_err();
    assert_eq!(err, JsonError::UnexpectedEndOfObject);
}

#[test]
fn panic_on_wrong_key_value_delimiter() {
    let text = "{
           \"key\"= \"value\",
        }";
    let err = parse(text.to_owned()).unwrap_err();
    assert_eq!(err, JsonError::UnrecognizedCharacter('='));
}

#[test]
fn panic_on_comma_decimal_sign() {
    let text = "{
            \"num_with_comma\": 13,37
        }";
    assert!(parse(text.to_owned()).is_err());
}
