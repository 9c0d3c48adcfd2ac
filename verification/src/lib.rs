//! An incremental tokenizer and recursive-descent parser for a JSON-like
//! grammar: objects, arrays, strings, numbers, booleans and null, read from
//! in-memory text, one value per top-level document, with exact
//! character-offset diagnostics.

use vstd::prelude::*;

pub mod types;
pub mod lexer;
pub mod parser;
pub mod render;
pub mod laws;

pub use types::{JsonValue, ParseError, ParseResult, Token, TokenType};
pub use lexer::Lexer;
pub use render::escape_string;
pub use parser::{parse_json_string, parse_json_stream, StreamingJsonParser};

use parser::spec_parse_document;

verus! {

/// Whether the text holds exactly one well-formed value.
pub fn validate_json_string(input: &str) -> (r: bool)
    ensures
        r == (spec_parse_document(input@) is Ok),
{
    match parse_json_string(input) {
        Ok(_) => true,
        Err(_) => false,
    }
}

/// A stream of whitespace-separated documents over the given text; each
/// call of `next` yields one document's outcome.
pub fn stream_json_objects(input: &str) -> (p: StreamingJsonParser)
    ensures
        p.src() == input@,
        p.at() == 0,
        p.wf(),
        !p.done(),
{
    parse_json_stream(input)
}

} // verus!
