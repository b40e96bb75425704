//! A self-contained JSON text parser and renderer.
//!
//! The pipeline is: text -> `lexer::lex` -> token list -> `parser::parse`
//! -> `types::JsonObject` tree -> (optionally) `JsonObject::render` ->
//! text. Every stage is specified by a recursive function over character
//! or token sequences, and the executable code is proved to return exactly
//! what that specification says, result for result and error for error.
//! The laws in `laws` tie the stages together: rendering a well-formed
//! tree and parsing it back yields the same tree, and token lists not
//! wrapped in braces are turned away with a structural error.

use vstd::prelude::*;

pub mod error;
pub mod laws;
pub mod lexer;
pub mod numbers;
pub mod parser;
pub mod text;
pub mod types;
pub mod utils;

verus! {

/// Parse a JSON document: tokenize the text, then build the value tree.
/// Fails with a lexical error when the text cannot be tokenized, and with
/// a structural error when the token list is not a well-formed object.
pub fn parse(json_content: String) -> (r: Result<types::JsonObject, error::JsonError>)
    ensures
        match parser::parse_document_spec(json_content@) {
            Ok(ps) => r matches Ok(obj) && obj@ == ps,
            Err(e) => r matches Err(err) && err@ == e,
        },
{
    match lexer::lex(json_content) {
        Ok(tokens) => parser::parse(tokens),
        Err(e) => Err(e),
    }
}

} // verus!
