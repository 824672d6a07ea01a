//! The errors of the builder of the abstract syntax tree.
use crate::frontend_v0::errors::common::MessageFactory;
use crate::frontend_v0::lexer::common::lexer::{Position, Token};
use crate::text::{decimal, push_decimal};
use vstd::prelude::*;
use vstd::string::*;

verus! {

pub enum AstBuilderError {
    /// A token was expected, a node of kind `given_token_kind` came.
    TerminalExpected { expected_node: String, given_token_kind: String, position: Position },
    /// A node was expected, the token `given_token` came.
    NonTerminalExpected { expected_node: String, given_token: Token },
    /// A node with `given_token_amount` children matches no rule.
    UnknownRule { expected_node: String, given_token_amount: usize, position: Position },
    /// A node or token of kind `given_token_kind` came where another was expected.
    UnexpectedTokenKind { expected_node: String, given_token_kind: String, position: Position },
    /// A syntax node named `given_node` came where another was expected.
    UnexpectedSyntaxNode { expected_node: String, given_node: String, position: Position },
}

/// The message of an error of the builder.
pub open spec fn ast_error_message(e: AstBuilderError) -> Seq<char> {
    match e {
        AstBuilderError::TerminalExpected { expected_node, given_token_kind, position } => "Expected terminal "@
            + expected_node@ + ", but got "@ + given_token_kind@ + " at "@ + position.spec_text(),
        AstBuilderError::NonTerminalExpected { expected_node, given_token } => "Expected non-terminal "@
            + expected_node@ + ", but got "@ + given_token.kind@ + " at "@ + given_token.position.spec_text(),
        AstBuilderError::UnknownRule { expected_node, given_token_amount, position } =>
            "Found unknown rule at production size "@ + decimal(given_token_amount as nat) + ", but got "@
            + expected_node@ + " at "@ + position.spec_text(),
        AstBuilderError::UnexpectedTokenKind { expected_node, given_token_kind, position } => "Expected "@
            + expected_node@ + ", but got "@ + given_token_kind@ + " at "@ + position.spec_text(),
        AstBuilderError::UnexpectedSyntaxNode { expected_node, given_node, position } => "Expected "@
            + expected_node@ + ", but got "@ + given_node@ + " at "@ + position.spec_text(),
    }
}

/// `prefix`, `expected`, ", but got ", `given`, " at " and `position`.
fn expected_but_got(prefix: &str, expected: &String, given: &String, position: &Position) -> (r: String)
    ensures
        r@ == prefix@ + expected@ + ", but got "@ + given@ + " at "@ + position.spec_text(),
{
    let mut r = String::from_str(prefix);
    r.append(expected.as_str());
    r.append(", but got ");
    r.append(given.as_str());
    r.append(" at ");
    let place = position.to_text();
    r.append(place.as_str());
    r
}

impl MessageFactory for AstBuilderError {
    fn get_message(&self) -> (r: String)
        ensures
            r@ == ast_error_message(*self),
    {
        match self {
            AstBuilderError::TerminalExpected { expected_node, given_token_kind, position } => {
                proof {
                    reveal_strlit("Expected terminal ");
                }
                expected_but_got("Expected terminal ", expected_node, given_token_kind, position)
            },
            AstBuilderError::NonTerminalExpected { expected_node, given_token } => {
                proof {
                    reveal_strlit("Expected non-terminal ");
                }
                expected_but_got("Expected non-terminal ", expected_node, &given_token.kind, &given_token.position)
            },
            AstBuilderError::UnknownRule { expected_node, given_token_amount, position } => {
                let mut r = String::from_str("Found unknown rule at production size ");
                push_decimal(&mut r, *given_token_amount);
                r.append(", but got ");
                r.append(expected_node.as_str());
                r.append(" at ");
                let place = position.to_text();
                r.append(place.as_str());
                proof {
                    reveal_strlit("Found unknown rule at production size ");
                }
                r
            },
            AstBuilderError::UnexpectedTokenKind { expected_node, given_token_kind, position } => {
                proof {
                    reveal_strlit("Expected ");
                }
                expected_but_got("Expected ", expected_node, given_token_kind, position)
            },
            AstBuilderError::UnexpectedSyntaxNode { expected_node, given_node, position } => {
                proof {
                    reveal_strlit("Expected ");
                }
                expected_but_got("Expected ", expected_node, given_node, position)
            },
        }
    }
}

/// Builders of the errors, each as the error of a `Result`.
pub struct ErrorBuilder {}

impl ErrorBuilder {
    pub fn terminal_expected<T>(expected_node: &str, given_token_kind: String, position: Position) -> (r: Result<
        T,
        AstBuilderError,
    >)
        ensures
            r matches Err(AstBuilderError::TerminalExpected { expected_node: e, given_token_kind: k, position: p })
                && e@ == expected_node@ && k == given_token_kind && p == position,
    {
        Err(AstBuilderError::TerminalExpected { expected_node: String::from_str(expected_node), given_token_kind, position })
    }

    pub fn non_terminal_expected<T>(expected_node: &str, given_token: Token) -> (r: Result<T, AstBuilderError>)
        ensures
            r matches Err(AstBuilderError::NonTerminalExpected { expected_node: e, given_token: t }) && e@
                == expected_node@ && t == given_token,
    {
        Err(AstBuilderError::NonTerminalExpected { expected_node: String::from_str(expected_node), given_token })
    }

    pub fn unknown_rule_for<T>(expected_node: &str, given_token_amount: usize, position: Position) -> (r: Result<
        T,
        AstBuilderError,
    >)
        ensures
            r matches Err(AstBuilderError::UnknownRule { expected_node: e, given_token_amount: n, position: p }) && e@
                == expected_node@ && n == given_token_amount && p == position,
    {
        Err(AstBuilderError::UnknownRule { expected_node: String::from_str(expected_node), given_token_amount, position })
    }

    pub fn unexpected_token_kind<T>(expected_node: &str, given_token_kind: &str, position: Position) -> (r: Result<
        T,
        AstBuilderError,
    >)
        ensures
            r matches Err(AstBuilderError::UnexpectedTokenKind { expected_node: e, given_token_kind: k, position: p })
                && e@ == expected_node@ && k@ == given_token_kind@ && p == position,
    {
        Err(
            AstBuilderError::UnexpectedTokenKind {
                expected_node: String::from_str(expected_node),
                given_token_kind: String::from_str(given_token_kind),
                position,
            },
        )
    }

    pub fn unexpected_syntax_node<T>(expected_node: &str, given_node: &str, position: Position) -> (r: Result<
        T,
        AstBuilderError,
    >)
        ensures
            r matches Err(AstBuilderError::UnexpectedSyntaxNode { expected_node: e, given_node: g, position: p }) && e@
                == expected_node@ && g@ == given_node@ && p == position,
    {
        Err(
            AstBuilderError::UnexpectedSyntaxNode {
                expected_node: String::from_str(expected_node),
                given_node: String::from_str(given_node),
                position,
            },
        )
    }
}

} // verus!
