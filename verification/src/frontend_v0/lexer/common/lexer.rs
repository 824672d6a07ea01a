//! Tokens and their positions in a source file.
use crate::text::{decimal, push_decimal};
use vstd::prelude::*;
use vstd::string::*;

verus! {

/// A place in a source file: the file's name, and the line and column.
pub struct Position {
    pub filename: String,
    pub line: usize,
    pub column: usize,
}

impl Position {
    pub fn clone(&self) -> (r: Position)
        ensures
            r == *self,
    {
        Position { filename: self.filename.clone(), line: self.line, column: self.column }
    }

    /// `file:line:column`.
    pub open spec fn spec_text(&self) -> Seq<char> {
        self.filename@ + seq![':'] + decimal(self.line as nat) + seq![':'] + decimal(self.column as nat)
    }

    /// The position written as `file:line:column`.
    pub fn to_text(&self) -> (r: String)
        ensures
            r@ == self.spec_text(),
    {
        let mut r = self.filename.clone();
        r.append(":");
        push_decimal(&mut r, self.line);
        r.append(":");
        push_decimal(&mut r, self.column);
        proof {
            reveal_strlit(":");
            assert(r@ =~= self.spec_text());
        }
        r
    }
}

/// A token: its text, its kind, where it starts, and whether no rule of the
/// lexer matched it.
pub struct Token {
    pub text: String,
    pub kind: String,
    pub position: Position,
    pub is_fallback: bool,
}

/// The position just after the text of `t`: its column moved by the number
/// of characters of the text.
pub open spec fn end_position(t: Token) -> Position {
    Position {
        filename: t.position.filename,
        line: t.position.line,
        column: (t.position.column + t.text@.len()) as usize,
    }
}

/// The column after the token's text fits in a `usize`.
pub open spec fn end_fits(t: Token) -> bool {
    t.position.column + t.text@.len() <= usize::MAX
}

impl Token {
    pub fn clone(&self) -> (r: Token)
        ensures
            r == *self,
    {
        Token {
            text: self.text.clone(),
            kind: self.kind.clone(),
            position: self.position.clone(),
            is_fallback: self.is_fallback,
        }
    }

    pub fn get_end_position(&self) -> (r: Position)
        requires
            end_fits(*self),
        ensures
            r == end_position(*self),
    {
        let len = self.text.unicode_len();
        Position { filename: self.position.filename.clone(), line: self.position.line, column: self.position.column + len }
    }
}

/// The kind of the token that ends the input.
pub const EOF: &'static str = "EOF";

} // verus!
