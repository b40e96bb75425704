//! Small text utilities over raw token text: recognizing quoted strings,
//! stripping their quotes, and classifying a lone token's text as a value.

use vstd::prelude::*;

use crate::error::{JsonError, JsonErrorView};
use crate::lexer;
use crate::numbers;
use crate::text;
use crate::types::{JsonNum, JsonValue, JsonValueView};

verus! {

broadcast use crate::types::group_value_views;

/// Text that begins and ends with a double quote.
pub open spec fn is_string_token_spec(s: Seq<char>) -> bool {
    s.len() > 0 && s[0] == '"' && s[s.len() - 1] == '"'
}

/// Whether the text begins and ends with a double quote.
pub fn is_string_token(string: &String) -> (r: bool)
    ensures
        r == is_string_token_spec(string@),
{
    let w = text::chars_vec(string.as_str());
    w.len() > 0 && w[0] == '"' && w[w.len() - 1] == '"'
}

/// The text without its first and last characters, which must both be
/// double quotes.
pub fn strip_quotes(string: String) -> (r: String)
    requires
        is_string_token_spec(string@),
        string@.len() >= 2,
    ensures
        r@ == string@.subrange(1, string@.len() - 1),
{
    let w = text::chars_vec(string.as_str());
    text::string_of_range(&w, 1, w.len() - 1)
}

/// Whether the text is exactly `true` or exactly `false`, which it must be.
pub fn from_str_to_bool(token: String) -> (r: bool)
    requires
        token@ == "true"@ || token@ == "false"@,
    ensures
        r == (token@ == "true"@),
{
    proof {
        reveal_strlit("true");
        reveal_strlit("false");
    }
    let w = text::chars_vec(token.as_str());
    assert(w@.len() > 0);
    w[0] == 't'
}

/// What a lone token's text stands for: a quoted string (stripped), an
/// integer or float numeral, a boolean word, or the null word; anything
/// else is no value.
pub open spec fn typify_spec(t: Seq<char>) -> Result<JsonValueView, JsonErrorView> {
    if t.len() > 0 && t[0] == '"' {
        if is_string_token_spec(t) && t.len() >= 2 {
            Ok(JsonValueView::Str(t.subrange(1, t.len() - 1)))
        } else {
            Err(JsonErrorView::UnterminatedString)
        }
    } else if numbers::is_int_text(t) && i64::MIN <= numbers::int_text_val(t) <= i64::MAX {
        Ok(JsonValueView::Int(numbers::int_text_val(t) as i64))
    } else if numbers::is_float_text(t) {
        Ok(JsonValueView::Float(t))
    } else if t == seq!['t', 'r', 'u', 'e'] {
        Ok(JsonValueView::Bool(true))
    } else if t == seq!['f', 'a', 'l', 's', 'e'] {
        Ok(JsonValueView::Bool(false))
    } else if t == seq!['n', 'u', 'l', 'l'] {
        Ok(JsonValueView::Null)
    } else {
        Err(JsonErrorView::UnrecognizedIdentifier(t))
    }
}

/// Classify a lone token's text as the value it stands for.
pub fn typify_token(token: String) -> (r: Result<JsonValue, JsonError>)
    ensures
        match typify_spec(token@) {
            Ok(v) => r matches Ok(val) && val@ == v,
            Err(e) => r matches Err(er) && er@ == e,
        },
{
    let w = text::chars_vec(token.as_str());
    if w.len() > 0 && w[0] == '"' {
        if w[w.len() - 1] == '"' && w.len() >= 2 {
            let stripped = text::string_of_range(&w, 1, w.len() - 1);
            Ok(JsonValue::String(stripped))
        } else {
            Err(JsonError::UnterminatedString)
        }
    } else {
        match numbers::parse_i64(&w) {
            Some(v) => Ok(JsonValue::Num(JsonNum::Int(v))),
            None => {
                if numbers::float_check(&w) {
                    Ok(JsonValue::Num(JsonNum::Float(token)))
                } else if lexer::word_is4(&w, 't', 'r', 'u', 'e') {
                    Ok(JsonValue::Bool(true))
                } else if lexer::word_is5(&w, 'f', 'a', 'l', 's', 'e') {
                    Ok(JsonValue::Bool(false))
                } else if lexer::word_is4(&w, 'n', 'u', 'l', 'l') {
                    Ok(JsonValue::Null)
                } else {
                    Err(JsonError::UnrecognizedIdentifier(token))
                }
            },
        }
    }
}

} // verus!
