//! The errors of the lexer.
use crate::frontend_v0::errors::common::MessageFactory;
use vstd::prelude::*;
use vstd::string::*;

verus! {

pub enum LexerError {
    /// A piece of the input that no rule of the lexer matches.
    UnknownCharSequence { sequence: String },
}

/// The message of an error of the lexer.
pub open spec fn lexer_error_message(e: LexerError) -> Seq<char> {
    match e {
        LexerError::UnknownCharSequence { sequence } => "Unknown char sequence \""@ + sequence@ + "\""@,
    }
}

impl MessageFactory for LexerError {
    fn get_message(&self) -> (r: String)
        ensures
            r@ == lexer_error_message(*self),
    {
        match self {
            LexerError::UnknownCharSequence { sequence } => {
                let mut r = String::from_str("Unknown char sequence \"");
                r.append(sequence.as_str());
                r.append("\"");
                proof {
                    reveal_strlit("Unknown char sequence \"");
                    reveal_strlit("\"");
                }
                r
            },
        }
    }
}

} // verus!
