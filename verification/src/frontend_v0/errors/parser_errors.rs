//! An error of the parser as the compiler reports it.
use crate::frontend_v0::lexer::common::lexer::Position;
use crate::text::{join, join_strings, strs};
use vstd::prelude::*;
use vstd::string::*;

verus! {

pub enum ParserError {
    /// A token of kind `given_token_kind` at `position`, where only tokens of
    /// the kinds `expected_token_kinds` could come.
    UnexpectedToken { given_token_kind: String, position: Position, expected_token_kinds: Vec<String> },
}

/// The message of an error of the parser.
pub open spec fn parser_error_message(e: ParserError) -> Seq<char> {
    match e {
        ParserError::UnexpectedToken { given_token_kind, position, expected_token_kinds } => "Unexpected token "@
            + given_token_kind@ + ". Expected "@ + join(strs(expected_token_kinds@), ", "@) + " at "@
            + position.spec_text(),
    }
}

impl ParserError {
    pub fn get_message(&self) -> (r: String)
        ensures
            r@ == parser_error_message(*self),
    {
        match self {
            ParserError::UnexpectedToken { given_token_kind, position, expected_token_kinds } => {
                let mut r = String::from_str("Unexpected token ");
                r.append(given_token_kind.as_str());
                r.append(". Expected ");
                let list = join_strings(expected_token_kinds, ", ");
                r.append(list.as_str());
                r.append(" at ");
                let place = position.to_text();
                r.append(place.as_str());
                proof {
                    reveal_strlit("Unexpected token ");
                    reveal_strlit(". Expected ");
                    reveal_strlit(", ");
                    reveal_strlit(" at ");
                }
                r
            },
        }
    }
}

} // verus!
