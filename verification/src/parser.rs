//! The recursive-descent parser: from a token list to a `JsonObject` tree.
//!
//! Parsing is specified by three mutually recursive functions over token
//! models: `parse_body_spec` reads one `key: value` pair of an object body,
//! `finish_pair_spec` reads what follows a pair (a comma or the closing
//! brace), and `parse_arr_spec` reads array elements. The executable
//! functions are proved to return exactly what the specification says.
//!
//! The cursor is an index into the token list; every recursive call
//! returns the position it stopped at, and its caller resumes there.

use vstd::prelude::*;

use crate::error::{JsonError, JsonErrorView};
use crate::lexer::{lex_spec, toks_vw, Delimiters, JsonTokenType, Numbers, Token, TokenKindView, TokenView};
use crate::text;
use crate::types::{group_value_views, insert_pair, JsonNum, JsonObject, JsonValue, JsonValueView};

verus! {

broadcast use crate::types::group_value_views;

// ---------------------------------------------------------------------------
// Parsing, specified
// ---------------------------------------------------------------------------
/// A string literal's text without its surrounding quote characters; text
/// not wrapped in quotes stays as it is.
pub open spec fn strip_spec(t: Seq<char>) -> Seq<char> {
    if t.len() >= 2 && t[0] == '"' && t[t.len() - 1] == '"' {
        t.subrange(1, t.len() - 1)
    } else {
        t
    }
}

/// One `key: value` pair of an object body, starting at position `i`:
/// a string key, a colon, and a value, which may itself be a nested
/// object or array. The pair is written into `acc` (last write wins),
/// and `finish_pair_spec` decides how the body goes on.
pub open spec fn parse_body_spec(
    ts: Seq<TokenView>,
    i: nat,
    acc: Seq<(Seq<char>, JsonValueView)>,
    top: bool,
) -> Result<(Seq<(Seq<char>, JsonValueView)>, nat), JsonErrorView>
    decreases ts.len() - i,
        when i <= ts.len()
{
    if i >= ts.len() {
        Err(JsonErrorView::UnexpectedEndOfObject)
    } else if !(ts[i as int].kind is StrLit) {
        Err(JsonErrorView::NonStringKey(ts[i as int].raw))
    } else {
        let key = strip_spec(ts[i as int].kind->StrLit_0);
        if i + 1 >= ts.len() {
            Err(JsonErrorView::UnexpectedEndOfObject)
        } else if ts[i + 1 as int].kind != TokenKindView::Delim(Delimiters::Colon) {
            Err(JsonErrorView::MissingColon(ts[i + 1 as int].raw))
        } else if i + 2 >= ts.len() {
            Err(JsonErrorView::UnexpectedEndOfObject)
        } else {
            match ts[i + 2 as int].kind {
                TokenKindView::StrLit(t) => finish_pair_spec(
                    ts,
                    (i + 3) as nat,
                    insert_pair(acc, key, JsonValueView::Str(strip_spec(t))),
                    top,
                ),
                TokenKindView::IntLit(v) => finish_pair_spec(
                    ts,
                    (i + 3) as nat,
                    insert_pair(acc, key, JsonValueView::Int(v)),
                    top,
                ),
                TokenKindView::FloatLit(t) => finish_pair_spec(
                    ts,
                    (i + 3) as nat,
                    insert_pair(acc, key, JsonValueView::Float(t)),
                    top,
                ),
                TokenKindView::BoolLit(b) => finish_pair_spec(
                    ts,
                    (i + 3) as nat,
                    insert_pair(acc, key, JsonValueView::Bool(b)),
                    top,
                ),
                TokenKindView::NullLit => finish_pair_spec(
                    ts,
                    (i + 3) as nat,
                    insert_pair(acc, key, JsonValueView::Null),
                    top,
                ),
                TokenKindView::Delim(d) => match d {
                    Delimiters::LeftBrace => match parse_body_spec(
                        ts,
                        (i + 3) as nat,
                        Seq::empty(),
                        false,
                    ) {
                        Err(e) => Err(e),
                        Ok((pairs, j)) => if i + 3 < j && j <= ts.len() {
                            finish_pair_spec(
                                ts,
                                j,
                                insert_pair(acc, key, JsonValueView::Obj(pairs)),
                                top,
                            )
                        } else {
                            // a successful nested parse always moves the cursor
                            // forward and stays inside the list
                            Err(JsonErrorView::UnexpectedEndOfObject)
                        },
                    },
                    Delimiters::LeftBracket => match parse_arr_spec(
                        ts,
                        (i + 3) as nat,
                        Seq::empty(),
                    ) {
                        Err(e) => Err(e),
                        Ok((elems, j)) => if i + 3 < j && j <= ts.len() {
                            finish_pair_spec(
                                ts,
                                j,
                                insert_pair(acc, key, JsonValueView::Arr(elems)),
                                top,
                            )
                        } else {
                            Err(JsonErrorView::UnexpectedEndOfObject)
                        },
                    },
                    Delimiters::RightBrace => Err(JsonErrorView::StrayRightBrace),
                    Delimiters::RightBracket => Err(JsonErrorView::StrayRightBracket),
                    Delimiters::Comma => Err(JsonErrorView::UnexpectedValueToken(ts[i + 2 as int].raw)),
                    Delimiters::Colon => Err(JsonErrorView::UnexpectedValueToken(ts[i + 2 as int].raw)),
                },
            }
        }
    }
}

/// What follows a completed pair at position `j`: a right brace closes the
/// object, a comma continues it with another pair, and anything else is an
/// error. At the document's top level the object body may also end with
/// the tokens themselves, since its braces were stripped before parsing.
pub open spec fn finish_pair_spec(
    ts: Seq<TokenView>,
    j: nat,
    acc: Seq<(Seq<char>, JsonValueView)>,
    top: bool,
) -> Result<(Seq<(Seq<char>, JsonValueView)>, nat), JsonErrorView>
    decreases ts.len() - j,
        when j <= ts.len()
{
    if j >= ts.len() {
        if top {
            Ok((acc, j))
        } else {
            Err(JsonErrorView::UnexpectedEndOfObject)
        }
    } else if ts[j as int].kind == TokenKindView::Delim(Delimiters::RightBrace) {
        Ok((acc, (j + 1) as nat))
    } else if ts[j as int].kind == TokenKindView::Delim(Delimiters::Comma) {
        parse_body_spec(ts, (j + 1) as nat, acc, top)
    } else {
        Err(JsonErrorView::PairNotClosed(ts[j as int].raw))
    }
}

/// The body of an array, starting at position `i` (just past the opening
/// bracket): scalar tokens append values, commas are skipped, nested
/// brackets and braces recurse, and a right bracket closes the array.
pub open spec fn parse_arr_spec(ts: Seq<TokenView>, i: nat, acc: Seq<JsonValueView>) -> Result<
    (Seq<JsonValueView>, nat),
    JsonErrorView,
>
    decreases ts.len() - i,
        when i <= ts.len()
{
    if i >= ts.len() {
        Err(JsonErrorView::UnexpectedEndOfArray)
    } else {
        match ts[i as int].kind {
            TokenKindView::StrLit(t) => parse_arr_spec(
                ts,
                (i + 1) as nat,
                acc.push(JsonValueView::Str(strip_spec(t))),
            ),
            TokenKindView::IntLit(v) => parse_arr_spec(
                ts,
                (i + 1) as nat,
                acc.push(JsonValueView::Int(v)),
            ),
            TokenKindView::FloatLit(t) => parse_arr_spec(
                ts,
                (i + 1) as nat,
                acc.push(JsonValueView::Float(t)),
            ),
            TokenKindView::BoolLit(b) => parse_arr_spec(
                ts,
                (i + 1) as nat,
                acc.push(JsonValueView::Bool(b)),
            ),
            TokenKindView::NullLit => parse_arr_spec(
                ts,
                (i + 1) as nat,
                acc.push(JsonValueView::Null),
            ),
            TokenKindView::Delim(d) => match d {
                Delimiters::Comma => parse_arr_spec(ts, (i + 1) as nat, acc),
                Delimiters::RightBracket => Ok((acc, (i + 1) as nat)),
                Delimiters::LeftBracket => match parse_arr_spec(ts, (i + 1) as nat, Seq::empty()) {
                    Err(e) => Err(e),
                    Ok((elems, j)) => if i + 1 < j && j <= ts.len() {
                        parse_arr_spec(ts, j, acc.push(JsonValueView::Arr(elems)))
                    } else {
                        // a successful nested parse always moves the cursor
                        // forward and stays inside the list
                        Err(JsonErrorView::UnexpectedEndOfArray)
                    },
                },
                Delimiters::LeftBrace => match parse_body_spec(
                    ts,
                    (i + 1) as nat,
                    Seq::empty(),
                    false,
                ) {
                    Err(e) => Err(e),
                    Ok((pairs, j)) => if i + 1 < j && j <= ts.len() {
                        parse_arr_spec(ts, j, acc.push(JsonValueView::Obj(pairs)))
                    } else {
                        Err(JsonErrorView::UnexpectedEndOfArray)
                    },
                },
                Delimiters::RightBrace => Err(JsonErrorView::StrayRightBrace),
                Delimiters::Colon => Err(JsonErrorView::UnexpectedTokenInArray(ts[i as int].raw)),
            },
        }
    }
}

/// The top level of a document: the first token must be a left brace and
/// the last a right brace; both are stripped. An empty token list is let
/// through unchanged and a lone left brace leaves an empty interior;
/// whether such an interior makes a document is `parse_spec`'s decision.
pub open spec fn remove_braces_spec(ts: Seq<TokenView>) -> Result<Seq<TokenView>, JsonErrorView> {
    if ts.len() == 0 {
        Ok(ts)
    } else if ts[0].kind != TokenKindView::Delim(Delimiters::LeftBrace) {
        Err(JsonErrorView::MissingLeftBrace(ts[0].raw))
    } else if ts.len() == 1 {
        Ok(Seq::empty())
    } else if ts.last().kind != TokenKindView::Delim(Delimiters::RightBrace) {
        Err(JsonErrorView::MissingRightBrace(ts.last().raw))
    } else {
        Ok(ts.subrange(1, ts.len() - 1))
    }
}

/// A whole token list parsed as a document: braces stripped, an empty
/// interior giving an empty object, and otherwise the object body read
/// from the interior's start.
///
/// A document must hold at least its two braces: an empty token list and
/// a lone left brace (which `remove_braces_spec` lets through with an
/// empty interior) are turned away here, so only the two-token document
/// of an opening and a closing brace yields the empty object. The empty
/// interior is decided here, before the body is read: inside a body, a
/// key position with no token left stays an error, so a trailing comma
/// cannot slip through.
pub open spec fn parse_spec(ts: Seq<TokenView>) -> Result<
    Seq<(Seq<char>, JsonValueView)>,
    JsonErrorView,
> {
    match remove_braces_spec(ts) {
        Err(e) => Err(e),
        Ok(interior) => if interior.len() == 0 {
            if ts.len() >= 2 {
                Ok(Seq::empty())
            } else {
                Err(JsonErrorView::UnexpectedEndOfObject)
            }
        } else {
            match parse_body_spec(interior, 0, Seq::empty(), true) {
                Ok((ps, _)) => Ok(ps),
                Err(e) => Err(e),
            }
        },
    }
}

/// A whole text parsed as a document: tokenized, then parsed.
pub open spec fn parse_document_spec(s: Seq<char>) -> Result<
    Seq<(Seq<char>, JsonValueView)>,
    JsonErrorView,
> {
    match lex_spec(s) {
        Err(e) => Err(e),
        Ok(ts) => parse_spec(ts),
    }
}

// ---------------------------------------------------------------------------
// Parsing, executed
// ---------------------------------------------------------------------------
/// A string literal's text without its surrounding quotes.
fn strip_key(s: String) -> (r: String)
    ensures
        r@ == strip_spec(s@),
{
    let w = text::chars_vec(s.as_str());
    if w.len() >= 2 && w[0] == '"' && w[w.len() - 1] == '"' {
        text::string_of_range(&w, 1, w.len() - 1)
    } else {
        s
    }
}

/// The key a token provides: the quote-stripped text of a string literal.
/// Any other token, or a missing one, is an error.
pub fn get_key(next_val: &Option<&Token>) -> (r: Result<String, JsonError>)
    ensures
        match next_val {
            Some(t) => match t@.kind {
                TokenKindView::StrLit(txt) => r matches Ok(k) && k@ == strip_spec(txt),
                _ => r matches Err(e) && e@ == JsonErrorView::NonStringKey(t@.raw),
            },
            None => r matches Err(e) && e@ == JsonErrorView::UnexpectedEndOfObject,
        },
{
    match next_val {
        Some(t) => match t.get_token() {
            JsonTokenType::String(s) => Ok(strip_key(s)),
            _ => Err(JsonError::NonStringKey(t.get_raw())),
        },
        None => Err(JsonError::UnexpectedEndOfObject),
    }
}

/// The token after a key must be a colon.
fn check_colon_delimiter(token: Option<&Token>) -> (r: Result<(), JsonError>)
    ensures
        match token {
            Some(t) => if t@.kind == TokenKindView::Delim(Delimiters::Colon) {
                r is Ok
            } else {
                r matches Err(e) && e@ == JsonErrorView::MissingColon(t@.raw)
            },
            None => r matches Err(e) && e@ == JsonErrorView::UnexpectedEndOfObject,
        },
{
    match token {
        Some(t) => match t.get_token() {
            JsonTokenType::Delimiter(Delimiters::Colon) => Ok(()),
            _ => Err(JsonError::MissingColon(t.get_raw())),
        },
        None => Err(JsonError::UnexpectedEndOfObject),
    }
}

/// Read an object body from `pos`: exactly what `parse_body_spec` says,
/// starting from an empty accumulator. A body is never empty: a key
/// position with no token left is an error even at the top level, so a
/// trailing comma before the closing brace fails. The empty document is
/// decided in `parse`, before any body is read.
pub fn parse_tokens(tokens: &Vec<Token>, pos: usize, top_level: bool) -> (r: Result<
    (JsonObject, usize),
    JsonError,
>)
    requires
        pos <= tokens@.len(),
    ensures
        match parse_body_spec(toks_vw(tokens@), pos as nat, Seq::empty(), top_level) {
            Ok((ps, j)) => {
                &&& r matches Ok(p)
                &&& p.0@ == ps
                &&& p.1 == j
                &&& pos < p.1 <= tokens@.len()
            },
            Err(e) => r matches Err(er) && er@ == e,
        },
    decreases tokens@.len() - pos,
{
    broadcast use group_value_views;

    let ghost ts = toks_vw(tokens@);
    let mut obj = JsonObject::new();
    let mut i: usize = pos;
    loop
        invariant
            pos <= i <= tokens@.len(),
            ts == toks_vw(tokens@),
            ts.len() == tokens@.len(),
            parse_body_spec(ts, pos as nat, Seq::empty(), top_level) == parse_body_spec(
                ts,
                i as nat,
                obj@,
                top_level,
            ),
        decreases tokens@.len() - i,
    {
        proof {
            if i < ts.len() {
                assert(ts[i as int] == tokens@[i as int]@);
            }
        }
        if i == tokens.len() {
            return Err(JsonError::UnexpectedEndOfObject);
        }
        let t0 = &tokens[i];
        let key = match get_key(&Some(t0)) {
            Ok(k) => k,
            Err(e) => {
                return Err(e);
            },
        };
        if i + 1 == tokens.len() {
            return Err(JsonError::UnexpectedEndOfObject);
        }
        proof {
            assert(ts[i + 1] == tokens@[i + 1]@);
        }
        let t1 = &tokens[i + 1];
        match check_colon_delimiter(Some(t1)) {
            Ok(_) => {},
            Err(e) => {
                return Err(e);
            },
        }
        if i + 2 == tokens.len() {
            return Err(JsonError::UnexpectedEndOfObject);
        }
        proof {
            assert(ts[i + 2] == tokens@[i + 2]@);
        }
        let ghost acc_pre = obj@;
        let ghost key_vw = key@;
        let t2 = &tokens[i + 2];
        let j: usize;
        match t2.get_token() {
            JsonTokenType::String(s) => {
                obj.insert(key, JsonValue::String(strip_key(s)));
                j = i + 3;
            },
            JsonTokenType::Number(Numbers::Integer(v)) => {
                obj.insert(key, JsonValue::Num(JsonNum::Int(v)));
                j = i + 3;
            },
            JsonTokenType::Number(Numbers::Float(t)) => {
                obj.insert(key, JsonValue::Num(JsonNum::Float(t)));
                j = i + 3;
            },
            JsonTokenType::Boolean(b) => {
                obj.insert(key, JsonValue::Bool(b));
                j = i + 3;
            },
            JsonTokenType::Null => {
                obj.insert(key, JsonValue::Null);
                j = i + 3;
            },
            JsonTokenType::Delimiter(d) => match d {
                Delimiters::LeftBrace => {
                    match parse_tokens(tokens, i + 3, false) {
                        Ok(p) => {
                            obj.insert(key, JsonValue::Object(p.0));
                            j = p.1;
                        },
                        Err(e) => {
                            return Err(e);
                        },
                    }
                },
                Delimiters::LeftBracket => {
                    match parse_array(tokens, i + 3) {
                        Ok(p) => {
                            obj.insert(key, p.0);
                            j = p.1;
                        },
                        Err(e) => {
                            return Err(e);
                        },
                    }
                },
                Delimiters::RightBrace => {
                    return Err(JsonError::StrayRightBrace);
                },
                Delimiters::RightBracket => {
                    return Err(JsonError::StrayRightBracket);
                },
                Delimiters::Comma => {
                    return Err(JsonError::UnexpectedValueToken(t2.get_raw()));
                },
                Delimiters::Colon => {
                    return Err(JsonError::UnexpectedValueToken(t2.get_raw()));
                },
            },
        }
        proof {
            assert(parse_body_spec(ts, i as nat, acc_pre, top_level) == finish_pair_spec(
                ts,
                j as nat,
                obj@,
                top_level,
            ));
            if j < ts.len() {
                assert(ts[j as int] == tokens@[j as int]@);
            }
        }
        if j == tokens.len() {
            if top_level {
                return Ok((obj, j));
            } else {
                return Err(JsonError::UnexpectedEndOfObject);
            }
        }
        let tf = &tokens[j];
        match tf.get_token() {
            JsonTokenType::Delimiter(Delimiters::RightBrace) => {
                return Ok((obj, j + 1));
            },
            JsonTokenType::Delimiter(Delimiters::Comma) => {
                i = j + 1;
            },
            _ => {
                return Err(JsonError::PairNotClosed(tf.get_raw()));
            },
        }
    }
}

/// Read an array body from `pos` (just past the opening bracket): exactly
/// what `parse_arr_spec` says, starting from no elements.
fn parse_array(tokens: &Vec<Token>, pos: usize) -> (r: Result<(JsonValue, usize), JsonError>)
    requires
        pos <= tokens@.len(),
    ensures
        match parse_arr_spec(toks_vw(tokens@), pos as nat, Seq::empty()) {
            Ok((es, j)) => {
                &&& r matches Ok(p)
                &&& p.0@ == JsonValueView::Arr(es)
                &&& p.1 == j
                &&& pos < p.1 <= tokens@.len()
            },
            Err(e) => r matches Err(er) && er@ == e,
        },
    decreases tokens@.len() - pos,
{
    broadcast use group_value_views;

    let ghost ts = toks_vw(tokens@);
    let mut elems: Vec<JsonValue> = Vec::new();
    let mut i: usize = pos;
    proof {
        crate::types::lemma_seq_vw_empty();
    }
    loop
        invariant
            pos <= i <= tokens@.len(),
            ts == toks_vw(tokens@),
            ts.len() == tokens@.len(),
            parse_arr_spec(ts, pos as nat, Seq::empty()) == parse_arr_spec(
                ts,
                i as nat,
                JsonValue::seq_vw(elems@),
            ),
        decreases tokens@.len() - i,
    {
        proof {
            if i < ts.len() {
                assert(ts[i as int] == tokens@[i as int]@);
            }
        }
        if i == tokens.len() {
            return Err(JsonError::UnexpectedEndOfArray);
        }
        let t0 = &tokens[i];
        match t0.get_token() {
            JsonTokenType::String(s) => {
                let val = JsonValue::String(strip_key(s));
                let ghost pre = elems@;
                let ghost valg = val;
                elems.push(val);
                proof {
                    crate::types::lemma_seq_vw_push(pre, valg);
                }
                i = i + 1;
            },
            JsonTokenType::Number(Numbers::Integer(v)) => {
                let val = JsonValue::Num(JsonNum::Int(v));
                let ghost pre = elems@;
                let ghost valg = val;
                elems.push(val);
                proof {
                    crate::types::lemma_seq_vw_push(pre, valg);
                }
                i = i + 1;
            },
            JsonTokenType::Number(Numbers::Float(t)) => {
                let val = JsonValue::Num(JsonNum::Float(t));
                let ghost pre = elems@;
                let ghost valg = val;
                elems.push(val);
                proof {
                    crate::types::lemma_seq_vw_push(pre, valg);
                }
                i = i + 1;
            },
            JsonTokenType::Boolean(b) => {
                let val = JsonValue::Bool(b);
                let ghost pre = elems@;
                let ghost valg = val;
                elems.push(val);
                proof {
                    crate::types::lemma_seq_vw_push(pre, valg);
                }
                i = i + 1;
            },
            JsonTokenType::Null => {
                let val = JsonValue::Null;
                let ghost pre = elems@;
                let ghost valg = val;
                elems.push(val);
                proof {
                    crate::types::lemma_seq_vw_push(pre, valg);
                }
                i = i + 1;
            },
            JsonTokenType::Delimiter(d) => match d {
                Delimiters::Comma => {
                    i = i + 1;
                },
                Delimiters::RightBracket => {
                    return Ok((JsonValue::Vec(elems), i + 1));
                },
                Delimiters::LeftBracket => {
                    match parse_array(tokens, i + 1) {
                        Ok(p) => {
                            let ghost pre = elems@;
                            let ghost valg = p.0;
                            elems.push(p.0);
                            proof {
                                crate::types::lemma_seq_vw_push(pre, valg);
                            }
                            i = p.1;
                        },
                        Err(e) => {
                            return Err(e);
                        },
                    }
                },
                Delimiters::LeftBrace => {
                    match parse_tokens(tokens, i + 1, false) {
                        Ok(p) => {
                            let ghost pre = elems@;
                            let val = JsonValue::Object(p.0);
                            let ghost valg = val;
                            elems.push(val);
                            proof {
                                crate::types::lemma_seq_vw_push(pre, valg);
                            }
                            i = p.1;
                        },
                        Err(e) => {
                            return Err(e);
                        },
                    }
                },
                Delimiters::RightBrace => {
                    return Err(JsonError::StrayRightBrace);
                },
                Delimiters::Colon => {
                    return Err(JsonError::UnexpectedTokenInArray(t0.get_raw()));
                },
            },
        }
    }
}

/// Strip the document's outer braces: the first token must be a left
/// brace and the last a right brace.
pub fn remove_first_and_last_brace(token_vec: Vec<Token>) -> (r: Result<Vec<Token>, JsonError>)
    ensures
        match remove_braces_spec(toks_vw(token_vec@)) {
            Ok(interior) => r matches Ok(v) && toks_vw(v@) == interior,
            Err(e) => r matches Err(er) && er@ == e,
        },
{
    let ghost ts = toks_vw(token_vec@);
    let mut token_vec = token_vec;
    if token_vec.len() == 0 {
        return Ok(token_vec);
    }
    proof {
        assert(ts[0] == token_vec@[0]@);
    }
    let first_token = token_vec.remove(0);
    match first_token.get_token() {
        JsonTokenType::Delimiter(Delimiters::LeftBrace) => {},
        _ => {
            return Err(JsonError::MissingLeftBrace(first_token.get_raw()));
        },
    }
    proof {
        if token_vec@.len() > 0 {
            assert(ts.last() == token_vec@.last()@);
            assert(toks_vw(token_vec@).last() == token_vec@.last()@);
        }
    }
    let last_token = token_vec.pop();
    match last_token {
        None => {
            proof {
                assert(toks_vw(token_vec@) =~= Seq::<TokenView>::empty());
            }
            Ok(token_vec)
        },
        Some(last) => {
            match last.get_token() {
                JsonTokenType::Delimiter(Delimiters::RightBrace) => {
                    proof {
                        assert(toks_vw(token_vec@) =~= ts.subrange(1, ts.len() - 1)) by {
                            assert forall|n: int|
                                0 <= n < token_vec@.len() implies toks_vw(token_vec@)[n]
                                == ts.subrange(1, ts.len() - 1)[n] by {
                                assert(toks_vw(token_vec@)[n] == token_vec@[n]@);
                            }
                        }
                    }
                    Ok(token_vec)
                },
                _ => Err(JsonError::MissingRightBrace(last.get_raw())),
            }
        },
    }
}

/// Parse a token list as a document: exactly what `parse_spec` says. The
/// empty document (a brace pair and nothing else) is decided here; an
/// empty or single-token list is no document at all.
pub fn parse(insert_vec: Vec<Token>) -> (r: Result<JsonObject, JsonError>)
    ensures
        match parse_spec(toks_vw(insert_vec@)) {
            Ok(ps) => r matches Ok(o) && o@ == ps,
            Err(e) => r matches Err(er) && er@ == e,
        },
{
    let ghost ts0 = toks_vw(insert_vec@);
    let had_both_braces = insert_vec.len() >= 2;
    let token_vec = match remove_first_and_last_brace(insert_vec) {
        Ok(v) => v,
        Err(e) => {
            return Err(e);
        },
    };
    if token_vec.len() == 0 {
        proof {
            assert(toks_vw(token_vec@).len() == 0);
        }
        if had_both_braces {
            return Ok(JsonObject::new());
        } else {
            return Err(JsonError::UnexpectedEndOfObject);
        }
    }
    proof {
        assert(toks_vw(token_vec@).len() == token_vec@.len());
    }
    match parse_tokens(&token_vec, 0, true) {
        Ok(p) => Ok(p.0),
        Err(e) => Err(e),
    }
}

} // verus!
