//! A small JSON library: a lexer, a recursive-descent parser, a value tree
//! with sorted objects, and a renderer for compact or indented text.
use vstd::prelude::*;

mod laws;
mod lexer;
mod parser;
mod render;
mod text;
mod value;

pub use laws::{
    colour_free, law_insert_then_get, law_parse_render_round_trip, law_parsed_values_well_formed,
    law_render_parse_fixed_point, law_scalar_literals, plain_json, tokens_of, well_formed,
};
pub use lexer::{lex, Lexer, LexerError, SpecToken, Token};
pub use parser::{parse_tokens, ErrorKind, Parser, ParserError};
pub use render::{green, red, render, render_text, yellow, RenderOptions};
pub use value::{Json, Number, Object, Value};

verus! {

/// The value tree written by a JSON text: the text is read into tokens,
/// and the tokens into a value.
pub fn parse(input: &str) -> (r: Result<Value, ParserError>)
    ensures
        match lex(input@) {
            None => r matches Err(e) && e.kind == ErrorKind::Lex,
            Some(ts) => match parse_tokens(ts) {
                Some(v) => r matches Ok(x) && x@ == v,
                None => r matches Err(e) && e.kind == ErrorKind::Parse,
            },
        },
{
    let mut lexer = Lexer::new(input);
    match lexer.tokenize() {
        Ok(tokens) => {
            let mut parser = Parser::new(tokens);
            parser.parse()
        },
        Err(e) => Err(ParserError::from_lexer(e)),
    }
}

} // verus!
