//! Errors reported by the tokenizer and the parser.
//!
//! Lexical errors come from the character scan; structural errors come from
//! the token-level parse. Each variant that concerns a particular token or
//! word carries the offending raw text, so a caller can report what was
//! actually seen.

use vstd::prelude::*;

verus! {

/// An error from parsing a JSON document.
///
/// The first four variants are lexical (the character scan failed); the
/// rest are structural (the token list is not a well-formed object).
#[derive(Debug, Clone, PartialEq, Eq)]
pub enum JsonError {
    /// The input ended before a string literal's closing quote.
    UnterminatedString,
    /// A character that no token can start with.
    UnrecognizedCharacter(char),
    /// A numeral that parses neither as an integer nor as a float.
    MalformedNumeral(String),
    /// An alphabetic word other than `true`, `false` or `null`.
    UnrecognizedIdentifier(String),
    /// A key position held something other than a string literal.
    NonStringKey(String),
    /// The token after a key was not a colon.
    MissingColon(String),
    /// A comma or colon stood where a value was expected.
    UnexpectedValueToken(String),
    /// A right brace stood where a value or an array element was expected.
    StrayRightBrace,
    /// A right bracket stood where a value was expected.
    StrayRightBracket,
    /// A colon stood inside an array.
    UnexpectedTokenInArray(String),
    /// A key/value pair was followed neither by a comma nor by a right brace.
    PairNotClosed(String),
    /// The tokens ran out inside an open object.
    UnexpectedEndOfObject,
    /// The tokens ran out inside an open array.
    UnexpectedEndOfArray,
    /// The document's first token was not a left brace.
    MissingLeftBrace(String),
    /// The document's last token was not a right brace.
    MissingRightBrace(String),
}

/// The mathematical model of a `JsonError`: the same variants over
/// character sequences.
#[verifier::ext_equal]
pub enum JsonErrorView {
    UnterminatedString,
    UnrecognizedCharacter(char),
    MalformedNumeral(Seq<char>),
    UnrecognizedIdentifier(Seq<char>),
    NonStringKey(Seq<char>),
    MissingColon(Seq<char>),
    UnexpectedValueToken(Seq<char>),
    StrayRightBrace,
    StrayRightBracket,
    UnexpectedTokenInArray(Seq<char>),
    PairNotClosed(Seq<char>),
    UnexpectedEndOfObject,
    UnexpectedEndOfArray,
    MissingLeftBrace(Seq<char>),
    MissingRightBrace(Seq<char>),
}

impl View for JsonError {
    type V = JsonErrorView;

    open spec fn view(&self) -> JsonErrorView {
        match self {
            JsonError::UnterminatedString => JsonErrorView::UnterminatedString,
            JsonError::UnrecognizedCharacter(c) => JsonErrorView::UnrecognizedCharacter(*c),
            JsonError::MalformedNumeral(s) => JsonErrorView::MalformedNumeral(s@),
            JsonError::UnrecognizedIdentifier(s) => JsonErrorView::UnrecognizedIdentifier(s@),
            JsonError::NonStringKey(s) => JsonErrorView::NonStringKey(s@),
            JsonError::MissingColon(s) => JsonErrorView::MissingColon(s@),
            JsonError::UnexpectedValueToken(s) => JsonErrorView::UnexpectedValueToken(s@),
            JsonError::StrayRightBrace => JsonErrorView::StrayRightBrace,
            JsonError::StrayRightBracket => JsonErrorView::StrayRightBracket,
            JsonError::UnexpectedTokenInArray(s) => JsonErrorView::UnexpectedTokenInArray(s@),
            JsonError::PairNotClosed(s) => JsonErrorView::PairNotClosed(s@),
            JsonError::UnexpectedEndOfObject => JsonErrorView::UnexpectedEndOfObject,
            JsonError::UnexpectedEndOfArray => JsonErrorView::UnexpectedEndOfArray,
            JsonError::MissingLeftBrace(s) => JsonErrorView::MissingLeftBrace(s@),
            JsonError::MissingRightBrace(s) => JsonErrorView::MissingRightBrace(s@),
        }
    }
}

/// An error the tokenizer reports: the character scan itself failed.
pub open spec fn is_lexical(e: JsonErrorView) -> bool {
    match e {
        JsonErrorView::UnterminatedString => true,
        JsonErrorView::UnrecognizedCharacter(_) => true,
        JsonErrorView::MalformedNumeral(_) => true,
        JsonErrorView::UnrecognizedIdentifier(_) => true,
        _ => false,
    }
}

/// An error the parser reports: the token list violated the object grammar.
pub open spec fn is_structural(e: JsonErrorView) -> bool {
    !is_lexical(e)
}

impl JsonError {
    /// Whether this error came from the character scan.
    pub fn is_lexical(&self) -> (r: bool)
        ensures
            r == is_lexical(self@),
    {
        match self {
            JsonError::UnterminatedString => true,
            JsonError::UnrecognizedCharacter(_) => true,
            JsonError::MalformedNumeral(_) => true,
            JsonError::UnrecognizedIdentifier(_) => true,
            _ => false,
        }
    }

    /// Whether this error came from the token-level parse.
    pub fn is_structural(&self) -> (r: bool)
        ensures
            r == is_structural(self@),
    {
        !self.is_lexical()
    }
}

} // verus!
