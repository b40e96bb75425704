//! The tokenizer: a single left-to-right scan that turns the input text
//! into a list of typed tokens.
//!
//! The scan is specified by `lex_spec`, a recursive function over the
//! character sequence that consumes exactly one token (or one whitespace
//! character) per step. The executable `lex` is proved to return precisely
//! what `lex_spec` says, token for token and error for error.
//!
//! Two boundary rules are deliberate decisions, chosen so that every
//! well-formed document tokenizes. First, a numeral ends at the first
//! character that cannot continue one, not merely at a comma, newline or
//! closing bracket, so a numeral directly before a closing brace reads
//! correctly. Second, the end of the input ends a word or numeral the
//! same way any other boundary does, instead of being an error; only a
//! string literal still open when the input ends is one.

use vstd::prelude::*;

use crate::error::{JsonError, JsonErrorView};
use crate::numbers;
use crate::text;

verus! {

use vstd::string::StringExecFns;

// ---------------------------------------------------------------------------
// Tokens
// ---------------------------------------------------------------------------
/// The six structural characters of JSON.
#[derive(Debug, PartialEq, Eq, Clone, Copy, Structural)]
pub enum Delimiters {
    LeftBrace,
    RightBrace,
    LeftBracket,
    RightBracket,
    Comma,
    Colon,
}

/// A numeric literal: an integer, or a float kept as its raw text.
///
/// A numeral is classified as a float exactly when it holds a decimal
/// point. Floats keep their lexical form; nothing in this crate computes
/// with them.
#[derive(Debug, PartialEq, Eq, Clone)]
pub enum Numbers {
    Float(String),
    Integer(i64),
}

/// The kind of a token.
#[derive(Debug, PartialEq, Eq, Clone)]
pub enum JsonTokenType {
    Delimiter(Delimiters),
    String(String),
    Number(Numbers),
    Boolean(bool),
    Null,
}

/// A token: its kind, and the raw text it was read from.
#[derive(Debug, PartialEq, Eq, Clone)]
pub struct Token {
    token: JsonTokenType,
    raw: String,
}

/// The mathematical model of a token kind.
#[verifier::ext_equal]
pub enum TokenKindView {
    Delim(Delimiters),
    StrLit(Seq<char>),
    IntLit(i64),
    FloatLit(Seq<char>),
    BoolLit(bool),
    NullLit,
}

/// The mathematical model of a token: its kind and its raw text.
#[verifier::ext_equal]
pub struct TokenView {
    pub kind: TokenKindView,
    pub raw: Seq<char>,
}

impl View for JsonTokenType {
    type V = TokenKindView;

    open spec fn view(&self) -> TokenKindView {
        match self {
            JsonTokenType::Delimiter(d) => TokenKindView::Delim(*d),
            JsonTokenType::String(s) => TokenKindView::StrLit(s@),
            JsonTokenType::Number(Numbers::Integer(v)) => TokenKindView::IntLit(*v),
            JsonTokenType::Number(Numbers::Float(t)) => TokenKindView::FloatLit(t@),
            JsonTokenType::Boolean(b) => TokenKindView::BoolLit(*b),
            JsonTokenType::Null => TokenKindView::NullLit,
        }
    }
}

impl View for Token {
    type V = TokenView;

    closed spec fn view(&self) -> TokenView {
        TokenView { kind: self.token@, raw: self.raw@ }
    }
}

/// The models of a list of tokens, in order.
pub open spec fn toks_vw(ts: Seq<Token>) -> Seq<TokenView> {
    ts.map_values(|t: Token| t@)
}

impl JsonTokenType {
    fn new_left_bracket() -> (r: JsonTokenType)
        ensures
            r@ == TokenKindView::Delim(Delimiters::LeftBracket),
    {
        JsonTokenType::Delimiter(Delimiters::LeftBracket)
    }

    fn new_right_bracket() -> (r: JsonTokenType)
        ensures
            r@ == TokenKindView::Delim(Delimiters::RightBracket),
    {
        JsonTokenType::Delimiter(Delimiters::RightBracket)
    }

    fn new_left_brace() -> (r: JsonTokenType)
        ensures
            r@ == TokenKindView::Delim(Delimiters::LeftBrace),
    {
        JsonTokenType::Delimiter(Delimiters::LeftBrace)
    }

    fn new_right_brace() -> (r: JsonTokenType)
        ensures
            r@ == TokenKindView::Delim(Delimiters::RightBrace),
    {
        JsonTokenType::Delimiter(Delimiters::RightBrace)
    }

    fn new_comma() -> (r: JsonTokenType)
        ensures
            r@ == TokenKindView::Delim(Delimiters::Comma),
    {
        JsonTokenType::Delimiter(Delimiters::Comma)
    }

    fn new_colon() -> (r: JsonTokenType)
        ensures
            r@ == TokenKindView::Delim(Delimiters::Colon),
    {
        JsonTokenType::Delimiter(Delimiters::Colon)
    }
}

impl Token {
    /// Pair a token kind with its raw text.
    pub fn new(token: JsonTokenType, raw: String) -> (r: Token)
        ensures
            r@.kind == token@,
            r@.raw == raw@,
    {
        Token { token, raw }
    }

    /// The token's kind.
    pub fn get_token(&self) -> (r: JsonTokenType)
        ensures
            r@ == self@.kind,
    {
        match &self.token {
            JsonTokenType::Delimiter(d) => JsonTokenType::Delimiter(*d),
            JsonTokenType::String(s) => JsonTokenType::String(s.clone()),
            JsonTokenType::Number(Numbers::Integer(v)) => JsonTokenType::Number(
                Numbers::Integer(*v),
            ),
            JsonTokenType::Number(Numbers::Float(t)) => JsonTokenType::Number(
                Numbers::Float(t.clone()),
            ),
            JsonTokenType::Boolean(b) => JsonTokenType::Boolean(*b),
            JsonTokenType::Null => JsonTokenType::Null,
        }
    }

    /// The raw text the token was read from.
    pub fn get_raw(&self) -> (r: String)
        ensures
            r@ == self@.raw,
    {
        self.raw.clone()
    }
}

// ---------------------------------------------------------------------------
// The scan, specified
// ---------------------------------------------------------------------------
/// An ASCII letter.
pub open spec fn is_alpha(c: char) -> bool {
    (('a' as u32) <= (c as u32) && (c as u32) <= ('z' as u32)) || (('A' as u32) <= (c as u32) && (c
        as u32) <= ('Z' as u32))
}

/// A character that may continue a numeric literal.
pub open spec fn is_num_char(c: char) -> bool {
    numbers::is_digit(c) || c == '.' || c == '-' || c == '+' || c == 'e' || c == 'E'
}

/// A structural character.
pub open spec fn is_delim_char(c: char) -> bool {
    c == '{' || c == '}' || c == '[' || c == ']' || c == ',' || c == ':'
}

/// The delimiter a structural character stands for.
pub open spec fn delim_of(c: char) -> Delimiters {
    if c == '{' {
        Delimiters::LeftBrace
    } else if c == '}' {
        Delimiters::RightBrace
    } else if c == '[' {
        Delimiters::LeftBracket
    } else if c == ']' {
        Delimiters::RightBracket
    } else if c == ',' {
        Delimiters::Comma
    } else {
        Delimiters::Colon
    }
}

/// Offset, from `k`, of the first position that closes a string literal:
/// a double quote whose preceding character is not a backslash. Position
/// `k - 1` holds the opening quote or an earlier literal character.
pub open spec fn string_close_off(s: Seq<char>, k: nat) -> Option<nat>
    recommends
        1 <= k,
    decreases s.len() - k,
        when k <= s.len()
{
    if k >= s.len() {
        None
    } else if s[k as int] == '"' && s[k - 1] != '\\' {
        Some(0nat)
    } else {
        match string_close_off(s, (k + 1) as nat) {
            Some(d) => Some((d + 1) as nat),
            None => None,
        }
    }
}

/// The length of the run of ASCII letters starting at `k`.
pub open spec fn alpha_run_len(s: Seq<char>, k: nat) -> nat
    decreases s.len() - k,
        when k <= s.len()
{
    if k >= s.len() || !is_alpha(s[k as int]) {
        0nat
    } else {
        (1 + alpha_run_len(s, (k + 1) as nat)) as nat
    }
}

/// The length of the run of numeral characters starting at `k`.
pub open spec fn num_run_len(s: Seq<char>, k: nat) -> nat
    decreases s.len() - k,
        when k <= s.len()
{
    if k >= s.len() || !is_num_char(s[k as int]) {
        0nat
    } else {
        (1 + num_run_len(s, (k + 1) as nat)) as nat
    }
}

/// What `string_close_off` found: the first unescaped quote, with nothing
/// closing the string before it.
pub proof fn lemma_string_close(s: Seq<char>, k: nat)
    requires
        1 <= k <= s.len(),
    ensures
        match string_close_off(s, k) {
            Some(d) => {
                &&& k + d < s.len()
                &&& s[(k + d) as int] == '"'
                &&& s[(k + d) as int - 1] != '\\'
                &&& forall|p: int| k <= p < k + d ==> !(#[trigger] s[p] == '"' && s[p - 1] != '\\')
            },
            None => forall|p: int| k <= p < s.len() ==> !(#[trigger] s[p] == '"' && s[p - 1] != '\\'),
        },
    decreases s.len() - k,
{
    if k < s.len() && !(s[k as int] == '"' && s[k - 1] != '\\') {
        lemma_string_close(s, (k + 1) as nat);
    }
}

/// The run of letters ends at the first non-letter.
pub proof fn lemma_alpha_run(s: Seq<char>, k: nat)
    requires
        k <= s.len(),
    ensures
        k + alpha_run_len(s, k) <= s.len(),
        forall|p: int| k <= p < k + alpha_run_len(s, k) ==> is_alpha(#[trigger] s[p]),
        k + alpha_run_len(s, k) < s.len() ==> !is_alpha(s[(k + alpha_run_len(s, k)) as int]),
    decreases s.len() - k,
{
    if k < s.len() && is_alpha(s[k as int]) {
        lemma_alpha_run(s, (k + 1) as nat);
    }
}

/// The run of numeral characters ends at the first other character.
pub proof fn lemma_num_run(s: Seq<char>, k: nat)
    requires
        k <= s.len(),
    ensures
        k + num_run_len(s, k) <= s.len(),
        forall|p: int| k <= p < k + num_run_len(s, k) ==> is_num_char(#[trigger] s[p]),
        k + num_run_len(s, k) < s.len() ==> !is_num_char(s[(k + num_run_len(s, k)) as int]),
    decreases s.len() - k,
{
    if k < s.len() && is_num_char(s[k as int]) {
        lemma_num_run(s, (k + 1) as nat);
    }
}

/// Prepend a token to a scan result.
pub open spec fn lex_cons(t: TokenView, rest: Result<Seq<TokenView>, JsonErrorView>) -> Result<
    Seq<TokenView>,
    JsonErrorView,
> {
    match rest {
        Ok(ts) => Ok(seq![t] + ts),
        Err(e) => Err(e),
    }
}

/// The scan, from position `i`: one token (or one skipped whitespace
/// character) per step.
///
/// In priority order: a structural character is a one-character token;
/// space and newline are skipped; a double quote opens a string literal
/// that runs to the first unescaped quote; `t`, `f` or `n` opens a run of
/// letters that must read exactly `true`, `false` or `null`; a digit or
/// minus sign opens a numeral that runs while the characters can continue
/// a numeral, and is an integer or a float according to whether it holds a
/// decimal point. Anything else is a lexical error. Words and numerals
/// are ended by any character that cannot extend them, and by the end of
/// the input (see the module's note on these two decisions); only an
/// unterminated string literal makes the end of the input an error.
pub open spec fn lex_from(s: Seq<char>, i: nat) -> Result<Seq<TokenView>, JsonErrorView>
    decreases s.len() - i,
        when i <= s.len()
{
    if i >= s.len() {
        Ok(Seq::empty())
    } else {
        let c = s[i as int];
        if is_delim_char(c) {
            lex_cons(
                TokenView { kind: TokenKindView::Delim(delim_of(c)), raw: seq![c] },
                lex_from(s, (i + 1) as nat),
            )
        } else if c == ' ' || c == '\n' {
            lex_from(s, (i + 1) as nat)
        } else if c == '"' {
            match string_close_off(s, (i + 1) as nat) {
                None => Err(JsonErrorView::UnterminatedString),
                Some(d) => {
                    let j: int = if i + 2 + d <= s.len() {
                        (i + 2 + d) as int
                    } else {
                        s.len() as int
                    };
                    let lit = s.subrange(i as int, j);
                    lex_cons(
                        TokenView { kind: TokenKindView::StrLit(lit), raw: lit },
                        lex_from(s, j as nat),
                    )
                },
            }
        } else if c == 't' || c == 'f' || c == 'n' {
            let j: int = if i + 1 + alpha_run_len(s, (i + 1) as nat) <= s.len() {
                (i + 1 + alpha_run_len(s, (i + 1) as nat)) as int
            } else {
                s.len() as int
            };
            let w = s.subrange(i as int, j);
            if w == seq!['t', 'r', 'u', 'e'] {
                lex_cons(
                    TokenView { kind: TokenKindView::BoolLit(true), raw: w },
                    lex_from(s, j as nat),
                )
            } else if w == seq!['f', 'a', 'l', 's', 'e'] {
                lex_cons(
                    TokenView { kind: TokenKindView::BoolLit(false), raw: w },
                    lex_from(s, j as nat),
                )
            } else if w == seq!['n', 'u', 'l', 'l'] {
                lex_cons(TokenView { kind: TokenKindView::NullLit, raw: w }, lex_from(s, j as nat))
            } else {
                Err(JsonErrorView::UnrecognizedIdentifier(w))
            }
        } else if numbers::is_digit(c) || c == '-' {
            let j: int = if i + 1 + num_run_len(s, (i + 1) as nat) <= s.len() {
                (i + 1 + num_run_len(s, (i + 1) as nat)) as int
            } else {
                s.len() as int
            };
            let w = s.subrange(i as int, j);
            if numbers::has_dot(w) {
                if numbers::is_float_text(w) {
                    lex_cons(
                        TokenView { kind: TokenKindView::FloatLit(w), raw: w },
                        lex_from(s, j as nat),
                    )
                } else {
                    Err(JsonErrorView::MalformedNumeral(w))
                }
            } else {
                if numbers::is_int_text(w) && i64::MIN <= numbers::int_text_val(w) <= i64::MAX {
                    lex_cons(
                        TokenView {
                            kind: TokenKindView::IntLit(numbers::int_text_val(w) as i64),
                            raw: numbers::int_text(numbers::int_text_val(w)),
                        },
                        lex_from(s, j as nat),
                    )
                } else {
                    Err(JsonErrorView::MalformedNumeral(w))
                }
            }
        } else {
            Err(JsonErrorView::UnrecognizedCharacter(c))
        }
    }
}

/// The whole scan: tokens from the start of the text.
pub open spec fn lex_spec(s: Seq<char>) -> Result<Seq<TokenView>, JsonErrorView> {
    lex_from(s, 0)
}

// ---------------------------------------------------------------------------
// The scan, executed
// ---------------------------------------------------------------------------
/// The one-character token of a structural character.
fn delim_token(c: char) -> (t: Token)
    requires
        is_delim_char(c),
    ensures
        t@.kind == TokenKindView::Delim(delim_of(c)),
        t@.raw == seq![c],
{
    let kind = if c == '{' {
        JsonTokenType::new_left_brace()
    } else if c == '}' {
        JsonTokenType::new_right_brace()
    } else if c == '[' {
        JsonTokenType::new_left_bracket()
    } else if c == ']' {
        JsonTokenType::new_right_bracket()
    } else if c == ',' {
        JsonTokenType::new_comma()
    } else {
        JsonTokenType::new_colon()
    };
    let mut raw = String::new();
    raw.push(c);
    proof {
        assert(raw@ =~= seq![c]);
    }
    Token::new(kind, raw)
}

/// The absolute position of the quote that closes a string literal opened
/// just before position `k`.
fn scan_string_close(text: &Vec<char>, k: usize) -> (r: Option<usize>)
    requires
        1 <= k <= text@.len(),
    ensures
        match string_close_off(text@, k as nat) {
            Some(d) => r matches Some(j) && j == k + d,
            None => r is None,
        },
    decreases text@.len() - k,
{
    if k == text.len() {
        None
    } else if text[k] == '"' && text[k - 1] != '\\' {
        Some(k)
    } else {
        scan_string_close(text, k + 1)
    }
}

/// Whether `c` is an ASCII letter.
fn alpha_check(c: char) -> (r: bool)
    ensures
        r == is_alpha(c),
{
    let u = c as u32;
    (97 <= u && u <= 122) || (65 <= u && u <= 90)
}

/// The end of the run of ASCII letters starting at `k`.
fn scan_alpha_end(text: &Vec<char>, k: usize) -> (r: usize)
    requires
        k <= text@.len(),
    ensures
        r == k + alpha_run_len(text@, k as nat),
        r <= text@.len(),
    decreases text@.len() - k,
{
    if k == text.len() {
        k
    } else if alpha_check(text[k]) {
        scan_alpha_end(text, k + 1)
    } else {
        k
    }
}

/// Whether `c` can continue a numeral.
fn num_char_check(c: char) -> (r: bool)
    ensures
        r == is_num_char(c),
{
    numbers::digit_check(c) || c == '.' || c == '-' || c == '+' || c == 'e' || c == 'E'
}

/// The end of the run of numeral characters starting at `k`.
fn scan_num_end(text: &Vec<char>, k: usize) -> (r: usize)
    requires
        k <= text@.len(),
    ensures
        r == k + num_run_len(text@, k as nat),
        r <= text@.len(),
    decreases text@.len() - k,
{
    if k == text.len() {
        k
    } else if num_char_check(text[k]) {
        scan_num_end(text, k + 1)
    } else {
        k
    }
}

/// Whether `w` is exactly the four given characters.
pub(crate) fn word_is4(w: &Vec<char>, c0: char, c1: char, c2: char, c3: char) -> (r: bool)
    ensures
        r == (w@ == seq![c0, c1, c2, c3]),
{
    if w.len() == 4 && w[0] == c0 && w[1] == c1 && w[2] == c2 && w[3] == c3 {
        proof {
            assert(w@ =~= seq![c0, c1, c2, c3]);
        }
        true
    } else {
        proof {
            if w@ == seq![c0, c1, c2, c3] {
                assert(w@.len() == 4);
                assert(w@[0] == c0 && w@[1] == c1 && w@[2] == c2 && w@[3] == c3);
            }
        }
        false
    }
}

/// Whether `w` is exactly the five given characters.
pub(crate) fn word_is5(w: &Vec<char>, c0: char, c1: char, c2: char, c3: char, c4: char) -> (r: bool)
    ensures
        r == (w@ == seq![c0, c1, c2, c3, c4]),
{
    if w.len() == 5 && w[0] == c0 && w[1] == c1 && w[2] == c2 && w[3] == c3 && w[4] == c4 {
        proof {
            assert(w@ =~= seq![c0, c1, c2, c3, c4]);
        }
        true
    } else {
        proof {
            if w@ == seq![c0, c1, c2, c3, c4] {
                assert(w@.len() == 5);
                assert(w@[0] == c0 && w@[1] == c1 && w@[2] == c2 && w@[3] == c3 && w@[4] == c4);
            }
        }
        false
    }
}

/// One token is scanned and pushed, then the scan continues: exactly what
/// `lex_from` says from position `i`, appended to what `out` already holds.
#[verifier::rlimit(100)]
fn lex_at(text: &Vec<char>, i: usize, out: &mut Vec<Token>) -> (r: Result<(), JsonError>)
    requires
        i <= text@.len(),
    ensures
        match lex_from(text@, i as nat) {
            Ok(ts) => r is Ok && toks_vw(final(out)@) == toks_vw(old(out)@) + ts,
            Err(e) => r matches Err(er) && er@ == e,
        },
    decreases text@.len() - i,
{
    let ghost s = text@;
    if i == text.len() {
        proof {
            assert(toks_vw(out@) =~= toks_vw(out@) + Seq::<TokenView>::empty());
        }
        return Ok(());
    }
    let c = text[i];
    if c == '{' || c == '}' || c == '[' || c == ']' || c == ',' || c == ':' {
        let tok = delim_token(c);
        let ghost tv = tok@;
        out.push(tok);
        let ghost mid = out@;
        proof {
            assert(toks_vw(mid) =~= toks_vw(old(out)@) + seq![tv]);
        }
        let r = lex_at(text, i + 1, out);
        proof {
            if lex_from(s, (i + 1) as nat) is Ok {
                let rest = lex_from(s, (i + 1) as nat)->Ok_0;
                assert((toks_vw(old(out)@) + seq![tv]) + rest =~= toks_vw(old(out)@) + (seq![tv]
                + rest));
            }
        }
        r
    } else if c == ' ' || c == '\n' {
        lex_at(text, i + 1, out)
    } else if c == '"' {
        match scan_string_close(text, i + 1) {
            None => Err(JsonError::UnterminatedString),
            Some(jq) => {
                proof {
                    lemma_string_close(s, (i + 1) as nat);
                }
                let lit = text::string_of_range(text, i, jq + 1);
                let raw = lit.clone();
                let tok = Token::new(JsonTokenType::String(lit), raw);
                let ghost tv = tok@;
                out.push(tok);
                let ghost mid = out@;
                proof {
                    assert(toks_vw(mid) =~= toks_vw(old(out)@) + seq![tv]);
                }
                let r = lex_at(text, jq + 1, out);
                proof {
                    if lex_from(s, (jq + 1) as nat) is Ok {
                        let rest = lex_from(s, (jq + 1) as nat)->Ok_0;
                        assert((toks_vw(old(out)@) + seq![tv]) + rest =~= toks_vw(old(out)@) + (
                        seq![tv] + rest));
                    }
                }
                r
            },
        }
    } else if c == 't' || c == 'f' || c == 'n' {
        let j = scan_alpha_end(text, i + 1);
        let w = text::chars_range(text, i, j);
        let is_true = word_is4(&w, 't', 'r', 'u', 'e');
        let is_false = word_is5(&w, 'f', 'a', 'l', 's', 'e');
        let is_null = word_is4(&w, 'n', 'u', 'l', 'l');
        if is_true || is_false || is_null {
            let raw = text::string_of_chars(&w);
            let kind = if is_true {
                JsonTokenType::Boolean(true)
            } else if is_false {
                JsonTokenType::Boolean(false)
            } else {
                JsonTokenType::Null
            };
            let tok = Token::new(kind, raw);
            let ghost tv = tok@;
            out.push(tok);
            let ghost mid = out@;
            proof {
                assert(toks_vw(mid) =~= toks_vw(old(out)@) + seq![tv]);
            }
            let r = lex_at(text, j, out);
            proof {
                if lex_from(s, j as nat) is Ok {
                    let rest = lex_from(s, j as nat)->Ok_0;
                    assert((toks_vw(old(out)@) + seq![tv]) + rest =~= toks_vw(old(out)@) + (
                    seq![tv] + rest));
                }
            }
            r
        } else {
            Err(JsonError::UnrecognizedIdentifier(text::string_of_chars(&w)))
        }
    } else if numbers::digit_check(c) || c == '-' {
        let j = scan_num_end(text, i + 1);
        let w = text::chars_range(text, i, j);
        if numbers::dot_check(&w) {
            if numbers::float_check(&w) {
                let lit = text::string_of_chars(&w);
                let raw = lit.clone();
                let tok = Token::new(JsonTokenType::Number(Numbers::Float(lit)), raw);
                let ghost tv = tok@;
                out.push(tok);
                let ghost mid = out@;
                proof {
                    assert(toks_vw(mid) =~= toks_vw(old(out)@) + seq![tv]);
                }
                let r = lex_at(text, j, out);
                proof {
                    if lex_from(s, j as nat) is Ok {
                        let rest = lex_from(s, j as nat)->Ok_0;
                        assert((toks_vw(old(out)@) + seq![tv]) + rest =~= toks_vw(old(out)@) + (
                        seq![tv] + rest));
                    }
                }
                r
            } else {
                Err(JsonError::MalformedNumeral(text::string_of_chars(&w)))
            }
        } else {
            match numbers::parse_i64(&w) {
                Some(v) => {
                    let raw = numbers::render_i64(v);
                    let tok = Token::new(JsonTokenType::Number(Numbers::Integer(v)), raw);
                    let ghost tv = tok@;
                    out.push(tok);
                    let ghost mid = out@;
                    proof {
                        assert(toks_vw(mid) =~= toks_vw(old(out)@) + seq![tv]);
                    }
                    let r = lex_at(text, j, out);
                    proof {
                        if lex_from(s, j as nat) is Ok {
                            let rest = lex_from(s, j as nat)->Ok_0;
                            assert((toks_vw(old(out)@) + seq![tv]) + rest =~= toks_vw(old(out)@)
                                + (seq![tv] + rest));
                        }
                    }
                    r
                },
                None => Err(JsonError::MalformedNumeral(text::string_of_chars(&w))),
            }
        }
    } else {
        Err(JsonError::UnrecognizedCharacter(c))
    }
}

/// Tokenize the whole text: exactly the tokens `lex_spec` describes, or
/// the first lexical error.
pub fn lex(json: String) -> (r: Result<Vec<Token>, JsonError>)
    ensures
        match lex_spec(json@) {
            Ok(ts) => r matches Ok(v) && toks_vw(v@) == ts,
            Err(e) => r matches Err(er) && er@ == e,
        },
{
    let text = text::chars_vec(json.as_str());
    let mut out: Vec<Token> = Vec::new();
    match lex_at(&text, 0, &mut out) {
        Ok(_) => {
            proof {
                if lex_from(text@, 0) is Ok {
                    assert(toks_vw(out@) =~= Seq::<TokenView>::empty() + lex_from(
                        text@,
                        0,
                    )->Ok_0);
                }
            }
            Ok(out)
        },
        Err(e) => Err(e),
    }
}

} // verus!
