//! What the builder of the abstract syntax tree gives for a syntax tree: the
//! view of its result, an error, or `None` where it cannot go on (a node of
//! an unexpected kind where it checks the kind, or too few children).
use crate::frontend_v0::ast_builder::nodes::{expr_view, BinaryOp, ExprView, ExpressionNode, UnaryOp};
use crate::frontend_v0::errors::ast_errors::AstBuilderError;
use crate::frontend_v0::lexer::common::lexer::{end_fits, end_position, Position, Token};
use crate::frontend_v0::parser::common::parser::{view_kind, view_start, NodeView, Span};
use vstd::prelude::*;

verus! {

/// The view of an error of the builder.
pub enum AstErr {
    TerminalExpected { expected: Seq<char>, given: Seq<char>, position: Position },
    NonTerminalExpected { expected: Seq<char>, token: Token },
    UnknownRule { expected: Seq<char>, amount: usize, position: Position },
    UnexpectedTokenKind { expected: Seq<char>, given: Seq<char>, position: Position },
    UnexpectedSyntaxNode { expected: Seq<char>, given: Seq<char>, position: Position },
}

/// The view of an error of the builder.
pub open spec fn err_view(e: AstBuilderError) -> AstErr {
    match e {
        AstBuilderError::TerminalExpected { expected_node, given_token_kind, position } => AstErr::TerminalExpected {
            expected: expected_node@,
            given: given_token_kind@,
            position,
        },
        AstBuilderError::NonTerminalExpected { expected_node, given_token } => AstErr::NonTerminalExpected {
            expected: expected_node@,
            token: given_token,
        },
        AstBuilderError::UnknownRule { expected_node, given_token_amount, position } => AstErr::UnknownRule {
            expected: expected_node@,
            amount: given_token_amount,
            position,
        },
        AstBuilderError::UnexpectedTokenKind { expected_node, given_token_kind, position } => AstErr::UnexpectedTokenKind {
            expected: expected_node@,
            given: given_token_kind@,
            position,
        },
        AstBuilderError::UnexpectedSyntaxNode { expected_node, given_node, position } => AstErr::UnexpectedSyntaxNode {
            expected: expected_node@,
            given: given_node@,
            position,
        },
    }
}

/// The view of the result of building an expression.
pub open spec fn expr_result(r: Result<ExpressionNode, AstBuilderError>) -> Result<ExprView, AstErr> {
    match r {
        Ok(e) => Ok(expr_view(e)),
        Err(e) => Err(err_view(e)),
    }
}

/// The builder's answer: `None` where it cannot go on, else its result.
pub type Built<T> = Option<Result<T, AstErr>>;

/// The first error of `rs`, or all their values.
pub open spec fn first_error<T, E>(rs: Seq<Result<T, E>>) -> Result<Seq<T>, E>
    decreases rs.len(),
{
    if rs.len() == 0 {
        Ok(Seq::empty())
    } else {
        match first_error(rs.drop_last()) {
            Err(e) => Err(e),
            Ok(vs) => match rs.last() {
                Err(e) => Err(e),
                Ok(v) => Ok(vs.push(v)),
            },
        }
    }
}

/// The children of a non-terminal node.
pub open spec fn kids(n: NodeView) -> Seq<NodeView> {
    match n {
        NodeView::NonTerminal { children, .. } => children,
        NodeView::Terminal(_) => Seq::empty(),
    }
}

/// The span of a non-terminal node.
pub open spec fn node_span_of(n: NodeView) -> Span {
    match n {
        NodeView::NonTerminal { span, .. } => span,
        NodeView::Terminal(t) => (t.position, t.position),
    }
}

/// The error for the token `t` where a node of kind `expected` should be.
pub open spec fn token_not_node(expected: Seq<char>, t: Token) -> AstErr {
    AstErr::NonTerminalExpected { expected, token: t }
}

/// The error for a node where a token of kind `expected` should be.
pub open spec fn node_not_token(expected: Seq<char>, n: NodeView) -> AstErr {
    AstErr::TerminalExpected { expected, given: view_kind(n), position: node_span_of(n).0 }
}

/// The names of the levels of binary expressions, from the loosest.
pub open spec fn level_kind(level: nat) -> Seq<char> {
    if level == 0 {
        "and_expr"@
    } else if level == 1 {
        "or_expr"@
    } else if level == 2 {
        "comparison_expr"@
    } else if level == 3 {
        "addition_expr"@
    } else {
        "multiplication_expr"@
    }
}

/// The operator of a level for the kind of its middle child.
pub open spec fn level_op(level: nat, kind: Seq<char>) -> Option<BinaryOp> {
    if level == 0 {
        if kind == "WIDE_AND"@ {
            Some(BinaryOp::WideAnd)
        } else if kind == "AND"@ {
            Some(BinaryOp::And)
        } else {
            None
        }
    } else if level == 1 {
        if kind == "WIDE_OR"@ {
            Some(BinaryOp::WideOr)
        } else if kind == "OR"@ {
            Some(BinaryOp::Or)
        } else if kind == "XOR"@ {
            Some(BinaryOp::Xor)
        } else {
            None
        }
    } else if level == 2 {
        if kind == "EQUAL_COMP"@ {
            Some(BinaryOp::IsEqual)
        } else if kind == "NOT_EQUAL_COMP"@ {
            Some(BinaryOp::NotEqual)
        } else if kind == "GT_COMP"@ {
            Some(BinaryOp::Greater)
        } else if kind == "GT_EQUAL_COMP"@ {
            Some(BinaryOp::GreaterOrEqual)
        } else if kind == "LT_COMP"@ {
            Some(BinaryOp::Less)
        } else if kind == "LT_EQUAL_COMP"@ {
            Some(BinaryOp::LessOrEqual)
        } else {
            None
        }
    } else if level == 3 {
        if kind == "PLUS"@ {
            Some(BinaryOp::Add)
        } else if kind == "MINUS"@ {
            Some(BinaryOp::Subtract)
        } else {
            None
        }
    } else {
        if kind == "ASTERISK"@ {
            Some(BinaryOp::Multiply)
        } else if kind == "SLASH"@ {
            Some(BinaryOp::Divide)
        } else {
            None
        }
    }
}

/// The operators a level expects, as its error says.
pub open spec fn level_expected(level: nat) -> Seq<char> {
    if level == 0 {
        "WIDE_AND or AND"@
    } else if level == 1 {
        "WIDE_OR or OR or XOR"@
    } else if level == 2 {
        "comparison operators"@
    } else if level == 3 {
        "PLUS or MINUS"@
    } else {
        "ASTERISK or SLASH"@
    }
}

/// The name of the kind of an expression.
pub open spec fn view_name(e: ExprView) -> Seq<char> {
    match e {
        ExprView::Binary { op, .. } => match op {
            BinaryOp::And => "AndExpression"@,
            BinaryOp::WideAnd => "WideAndExpression"@,
            BinaryOp::Or => "OrExpression"@,
            BinaryOp::WideOr => "WideOrExpression"@,
            BinaryOp::Xor => "XorExpression"@,
            BinaryOp::IsEqual => "IsEqualComparison"@,
            BinaryOp::NotEqual => "NotEqualComparison"@,
            BinaryOp::Greater => "GreaterComparison"@,
            BinaryOp::GreaterOrEqual => "GreaterOrEqualComparison"@,
            BinaryOp::Less => "LessComparison"@,
            BinaryOp::LessOrEqual => "LessOrEqualComparison"@,
            BinaryOp::Add => "AddExpression"@,
            BinaryOp::Subtract => "SubtractExpression"@,
            BinaryOp::Multiply => "MultiplyExpression"@,
            BinaryOp::Divide => "DivideExpression"@,
        },
        ExprView::Unary { op, .. } => match op {
            UnaryOp::Not => "NotExpression"@,
            UnaryOp::Inverse => "InverseExpression"@,
            UnaryOp::Negate => "NegateExpression"@,
            UnaryOp::Increment => "IncrementExpression"@,
            UnaryOp::Decrement => "DecrementExpression"@,
        },
        ExprView::New { .. } => "NewExpression"@,
        ExprView::SymbolAccess { .. } => "SymbolAccessExpression"@,
        ExprView::FunctionCall { .. } => "FunctionCallExpression"@,
        ExprView::IndexAccess { .. } => "IndexAccessExpression"@,
        ExprView::Variable { .. } => "Variable"@,
        ExprView::Number { .. } => "NumberLiteral"@,
        ExprView::Boolean { .. } => "BooleanLiteral"@,
        ExprView::Str { .. } => "StringLiteral"@,
        ExprView::Array { .. } => "ArrayDefinition"@,
    }
}

/// The span of an expression.
pub open spec fn view_expr_span(e: ExprView) -> Span {
    match e {
        ExprView::Binary { span, .. } => span,
        ExprView::Unary { span, .. } => span,
        ExprView::New { span, .. } => span,
        ExprView::SymbolAccess { span, .. } => span,
        ExprView::FunctionCall { span, .. } => span,
        ExprView::IndexAccess { span, .. } => span,
        ExprView::Variable { span, .. } => span,
        ExprView::Number { span, .. } => span,
        ExprView::Boolean { span, .. } => span,
        ExprView::Str { span, .. } => span,
        ExprView::Array { span, .. } => span,
    }
}

/// The value of a decimal numeral, as `i32::from_str` reads it: an optional
/// sign, then one or more ASCII digits, within the range of `i32`.
pub open spec fn digits_value(s: Seq<char>) -> int
    decreases s.len(),
{
    if s.len() == 0 {
        0
    } else {
        digits_value(s.drop_last()) * 10 + (s.last() as int - '0' as int)
    }
}

pub open spec fn all_digits(s: Seq<char>) -> bool {
    forall|i: int| 0 <= i < s.len() ==> '0' <= #[trigger] s[i] <= '9'
}

pub open spec fn parse_i32(s: Seq<char>) -> Option<i32> {
    let negative = s.len() > 0 && s[0] == '-';
    let digits = if s.len() > 0 && (s[0] == '-' || s[0] == '+') {
        s.drop_first()
    } else {
        s
    };
    let v = if negative {
        -digits_value(digits)
    } else {
        digits_value(digits)
    };
    if digits.len() > 0 && all_digits(digits) && i32::MIN <= v <= i32::MAX {
        Some(v as i32)
    } else {
        None
    }
}

/// The value of `true` or `false`, as `bool::from_str` reads it.
pub open spec fn parse_bool(s: Seq<char>) -> Option<bool> {
    if s == "true"@ {
        Some(true)
    } else if s == "false"@ {
        Some(false)
    } else {
        None
    }
}

/// The span of a token.
pub open spec fn token_span(t: Token) -> Span {
    (t.position, end_position(t))
}

/// A literal token of kind `kind` made into an expression.
pub open spec fn ast_token_literal(kind: Seq<char>, n: NodeView) -> Built<ExprView> {
    if view_kind(n) != kind {
        None
    } else {
        match n {
            NodeView::NonTerminal { .. } => Some(Err(node_not_token(kind, n))),
            NodeView::Terminal(t) => if !end_fits(t) {
                None
            } else if kind == "STRING"@ {
                Some(Ok(ExprView::Str { value: t.text@, span: token_span(t) }))
            } else if kind == "BOOLEAN"@ {
                match parse_bool(t.text@) {
                    Some(b) => Some(Ok(ExprView::Boolean { value: b, span: token_span(t) })),
                    None => None,
                }
            } else {
                match parse_i32(t.text@) {
                    Some(v) => Some(Ok(ExprView::Number { value: v, span: token_span(t) })),
                    None => None,
                }
            },
        }
    }
}

/// A token made into a variable.
pub open spec fn ast_variable(n: NodeView) -> Built<ExprView> {
    match n {
        NodeView::NonTerminal { .. } => Some(Err(node_not_token("IDENTIFIER"@, n))),
        NodeView::Terminal(t) => if end_fits(t) {
            Some(Ok(ExprView::Variable { name: t.text@, span: token_span(t) }))
        } else {
            None
        },
    }
}

/// The text of an identifier token.
pub open spec fn ast_variable_name(n: NodeView) -> Result<Seq<char>, AstErr> {
    match n {
        NodeView::NonTerminal { .. } => Err(node_not_token("IDENTIFIER"@, n)),
        NodeView::Terminal(t) => Ok(t.text@),
    }
}

/// The items of a left-recursive list node of kind `kind`: the last child
/// of each level, from the innermost, and the only child of the innermost.
pub open spec fn unwrap_tree(n: NodeView, kind: Seq<char>) -> Built<Seq<NodeView>>
    decreases n,
{
    if view_kind(n) != kind {
        Some(Ok(Seq::empty()))
    } else {
        match n {
            NodeView::Terminal(t) => Some(Err(AstErr::NonTerminalExpected { expected: kind, token: t })),
            NodeView::NonTerminal { children, .. } => if children.len() == 1 {
                Some(Ok(seq![children[0]]))
            } else if children.len() == 0 {
                None
            } else {
                match unwrap_tree(children[0], kind) {
                    None => None,
                    Some(Err(e)) => Some(Err(e)),
                    Some(Ok(items)) => Some(Ok(items.push(children.last()))),
                }
            },
        }
    }
}

/// A new-expression from the call expression after `NEW`.
pub open spec fn constructor_call(e: ExprView, new_span: Span) -> Result<ExprView, AstErr> {
    match e {
        ExprView::FunctionCall { source, arguments, span } => Ok(
            ExprView::New { class: source, arguments, span: (new_span.0, span.1) },
        ),
        _ => Err(
            AstErr::UnexpectedSyntaxNode {
                expected: "FunctionCallExpression"@,
                given: view_name(e),
                position: view_expr_span(e).0,
            },
        ),
    }
}

/// `expr`: its only child, an `and_expr`.
pub open spec fn ast_expr(n: NodeView) -> Built<ExprView>
    decreases n, 0nat,
{
    if view_kind(n) != "expr"@ {
        None
    } else {
        match n {
            NodeView::Terminal(t) => Some(Err(token_not_node("expr"@, t))),
            NodeView::NonTerminal { children, .. } => if children.len() == 0 {
                None
            } else {
                ast_level(0, children[0])
            },
        }
    }
}

/// A level of binary expressions: its only child one level tighter, or the
/// level (one level tighter for comparisons, which do not chain), an
/// operator and the tighter level.
pub open spec fn ast_level(level: nat, n: NodeView) -> Built<ExprView>
    decreases n, 0nat,
{
    if view_kind(n) != level_kind(level) {
        None
    } else {
        match n {
            NodeView::Terminal(t) => Some(Err(token_not_node(level_kind(level), t))),
            NodeView::NonTerminal { children, span, .. } => if children.len() == 1 {
                if level < 4 {
                    ast_level(level + 1, children[0])
                } else {
                    ast_unary(children[0])
                }
            } else if children.len() == 0 {
                None
            } else {
                let left = if level == 2 {
                    ast_level(3, children[0])
                } else {
                    ast_level(level, children[0])
                };
                match left {
                    None => None,
                    Some(Err(e)) => Some(Err(e)),
                    Some(Ok(left)) => if children.len() < 3 {
                        None
                    } else {
                        let right = if level < 4 {
                            ast_level(level + 1, children[2])
                        } else {
                            ast_unary(children[2])
                        };
                        match right {
                            None => None,
                            Some(Err(e)) => Some(Err(e)),
                            Some(Ok(right)) => match level_op(level, view_kind(children[1])) {
                                Some(op) => Some(
                                    Ok(ExprView::Binary { op, left: Box::new(left), right: Box::new(right), span }),
                                ),
                                None => Some(
                                    Err(
                                        AstErr::UnexpectedTokenKind {
                                            expected: level_expected(level),
                                            given: view_kind(children[1]),
                                            position: view_start(children[1]),
                                        },
                                    ),
                                ),
                            },
                        }
                    },
                }
            },
        }
    }
}

/// The token that writes the operator `op` in the source.
pub open spec fn operator_token(op: BinaryOp) -> Seq<char> {
    match op {
        BinaryOp::And => "AND"@,
        BinaryOp::WideAnd => "WIDE_AND"@,
        BinaryOp::Or => "OR"@,
        BinaryOp::WideOr => "WIDE_OR"@,
        BinaryOp::Xor => "XOR"@,
        BinaryOp::IsEqual => "EQUAL_COMP"@,
        BinaryOp::NotEqual => "NOT_EQUAL_COMP"@,
        BinaryOp::Greater => "GT_COMP"@,
        BinaryOp::GreaterOrEqual => "GT_EQUAL_COMP"@,
        BinaryOp::Less => "LT_COMP"@,
        BinaryOp::LessOrEqual => "LT_EQUAL_COMP"@,
        BinaryOp::Add => "PLUS"@,
        BinaryOp::Subtract => "MINUS"@,
        BinaryOp::Multiply => "ASTERISK"@,
        BinaryOp::Divide => "SLASH"@,
    }
}

/// Law of unary expressions: a unary expression built from a node with more
/// than one child has the operator that its first token writes, applied to
/// what its second child builds.
pub proof fn law_unary_operator_of_token(n: NodeView)
    requires
        kids(n).len() > 1,
    ensures
        ast_unary(n) matches Some(Ok(v)) ==> (v is Unary ==> {
            &&& unary_operator_token(v->Unary_op) == view_kind(kids(n)[0])
            &&& ast_unary(kids(n)[1]) == Some(Ok::<ExprView, AstErr>(*v->Unary_source))
        }),
{
}

/// Law of postfix increments and decrements: a postfix expression of two
/// children that builds a unary expression has the operator that its second
/// token writes, applied to what its first child builds.
pub proof fn law_postfix_operator_of_token(n: NodeView)
    requires
        kids(n).len() == 2,
    ensures
        ast_postfix(n) matches Some(Ok(v)) ==> (v is Unary ==> {
            &&& unary_operator_token(v->Unary_op) == view_kind(kids(n)[1])
            &&& ast_postfix(kids(n)[0]) == Some(Ok::<ExprView, AstErr>(*v->Unary_source))
        }),
{
}

/// Law of binary expressions: a node of a level of binary expressions with
/// more than one child builds the binary expression whose operator is the one
/// its middle token writes, with its left operand built from its first child
/// (a comparison compares two additions, the other levels are
/// left-associative) and its right operand from its third child, one level
/// down.
pub proof fn law_binary_operator_of_token(level: nat, n: NodeView)
    requires
        kids(n).len() > 1,
    ensures
        ast_level(level, n) matches Some(Ok(v)) ==> {
            &&& v is Binary
            &&& operator_token(v->Binary_op) == view_kind(kids(n)[1])
            &&& ast_level(if level == 2 { 3 } else { level }, kids(n)[0]) == Some(Ok::<ExprView, AstErr>(*v->Binary_left))
            &&& (if level < 4 { ast_level(level + 1, kids(n)[2]) } else { ast_unary(kids(n)[2]) }) == Some(
                Ok::<ExprView, AstErr>(*v->Binary_right),
            )
        },
{
}

/// The operator of a unary expression for the kind of its first child.
pub open spec fn unary_op(kind: Seq<char>) -> Option<UnaryOp> {
    if kind == "NOT"@ {
        Some(UnaryOp::Not)
    } else if kind == "MINUS"@ {
        Some(UnaryOp::Negate)
    } else if kind == "INVERSE"@ {
        Some(UnaryOp::Inverse)
    } else {
        None
    }
}

/// The token that writes the unary operator `op` in the source.
pub open spec fn unary_operator_token(op: UnaryOp) -> Seq<char> {
    match op {
        UnaryOp::Not => "NOT"@,
        UnaryOp::Negate => "MINUS"@,
        UnaryOp::Inverse => "INVERSE"@,
        UnaryOp::Increment => "INCREMENT"@,
        UnaryOp::Decrement => "DECREMENT"@,
    }
}

/// `unary_expr`: a postfix expression, or an operator and a unary expression.
pub open spec fn ast_unary(n: NodeView) -> Built<ExprView>
    decreases n, 0nat,
{
    if view_kind(n) != "unary_expr"@ {
        None
    } else {
        match n {
            NodeView::Terminal(t) => Some(Err(token_not_node("unary_expr"@, t))),
            NodeView::NonTerminal { children, span, .. } => if children.len() == 1 {
                ast_postfix(children[0])
            } else if children.len() < 2 {
                None
            } else {
                match ast_unary(children[1]) {
                    None => None,
                    Some(Err(e)) => Some(Err(e)),
                    Some(Ok(arg)) => {
                        let k = view_kind(children[0]);
                        match unary_op(k) {
                            Some(op) => Some(Ok(ExprView::Unary { op, source: Box::new(arg), span })),
                            None => if k == "NEW"@ {
                                if crate::frontend_v0::parser::common::parser::view_fits(children[0]) {
                                    Some(
                                        constructor_call(
                                            arg,
                                            crate::frontend_v0::parser::common::parser::view_span(children[0]),
                                        ),
                                    )
                                } else {
                                    None
                                }
                            } else {
                                Some(
                                    Err(
                                        AstErr::UnexpectedTokenKind {
                                            expected: "NOT or MINUS or INVERSE or NEW"@,
                                            given: k,
                                            position: view_start(children[0]),
                                        },
                                    ),
                                )
                            },
                        }
                    },
                }
            },
        }
    }
}

/// `postfix_expr`: a primary expression, or a postfix expression with an
/// increment, a decrement, a member access, a call or an index.
pub open spec fn ast_postfix(n: NodeView) -> Built<ExprView>
    decreases n, 0nat,
{
    if view_kind(n) != "postfix_expr"@ {
        None
    } else {
        match n {
            NodeView::Terminal(t) => Some(Err(token_not_node("postfix_expr"@, t))),
            NodeView::NonTerminal { children, span, .. } => if children.len() == 1 {
                ast_primary(children[0])
            } else if children.len() == 2 {
                let k = view_kind(children[1]);
                if k == "INCREMENT"@ || k == "DECREMENT"@ {
                    match ast_postfix(children[0]) {
                        None => None,
                        Some(Err(e)) => Some(Err(e)),
                        Some(Ok(source)) => Some(
                            Ok(
                                ExprView::Unary {
                                    op: if k == "INCREMENT"@ {
                                        UnaryOp::Increment
                                    } else {
                                        UnaryOp::Decrement
                                    },
                                    source: Box::new(source),
                                    span,
                                },
                            ),
                        ),
                    }
                } else {
                    None
                }
            } else if children.len() == 3 {
                let k = view_kind(children[1]);
                if k == "DOT"@ {
                    match ast_postfix(children[0]) {
                        None => None,
                        Some(Err(e)) => Some(Err(e)),
                        Some(Ok(source)) => match ast_variable_name(children[2]) {
                            Err(e) => Some(Err(e)),
                            Ok(symbol) => Some(Ok(ExprView::SymbolAccess { source: Box::new(source), symbol, span })),
                        },
                    }
                } else if k == "OPEN_PAREN"@ {
                    match ast_postfix(children[0]) {
                        None => None,
                        Some(Err(e)) => Some(Err(e)),
                        Some(Ok(source)) => Some(
                            Ok(ExprView::FunctionCall { source: Box::new(source), arguments: Seq::empty(), span }),
                        ),
                    }
                } else {
                    Some(Err(AstErr::UnexpectedTokenKind { expected: "primary_expr"@, given: k, position: span.0 }))
                }
            } else if children.len() == 4 {
                match ast_postfix(children[0]) {
                    None => None,
                    Some(Err(e)) => Some(Err(e)),
                    Some(Ok(source)) => match ast_expr_list(children[2]) {
                        None => None,
                        Some(Err(e)) => Some(Err(e)),
                        Some(Ok(args)) => {
                            let k = view_kind(children[1]);
                            if k == "OPEN_PAREN"@ {
                                Some(Ok(ExprView::FunctionCall { source: Box::new(source), arguments: args, span }))
                            } else if k == "OPEN_BRACKET"@ {
                                Some(Ok(ExprView::IndexAccess { source: Box::new(source), index: args, span }))
                            } else {
                                Some(
                                    Err(AstErr::UnexpectedTokenKind { expected: "primary_expr"@, given: k, position: span.0 }),
                                )
                            }
                        },
                    },
                }
            } else {
                Some(
                    Err(
                        AstErr::UnknownRule {
                            expected: "primary_expr"@,
                            amount: children.len() as usize,
                            position: span.0,
                        },
                    ),
                )
            },
        }
    }
}

/// `primary_expr`: a literal, an array, a variable, or an expression in
/// parentheses.
pub open spec fn ast_primary(n: NodeView) -> Built<ExprView>
    decreases n, 0nat,
{
    if view_kind(n) != "primary_expr"@ {
        None
    } else {
        match n {
            NodeView::Terminal(t) => Some(Err(token_not_node("primary_expr"@, t))),
            NodeView::NonTerminal { children, span, .. } => if children.len() == 1 {
                let item = children[0];
                let k = view_kind(item);
                if k == "literal"@ {
                    ast_literal(item)
                } else if k == "array_def"@ {
                    ast_array_def(item)
                } else if k == "IDENTIFIER"@ {
                    ast_variable(item)
                } else {
                    Some(
                        Err(
                            AstErr::UnexpectedTokenKind {
                                expected: "literal or array_def or IDENTIFIER"@,
                                given: k,
                                position: span.0,
                            },
                        ),
                    )
                }
            } else if children.len() == 3 {
                ast_expr(children[1])
            } else {
                Some(
                    Err(
                        AstErr::UnknownRule {
                            expected: "primary_expr"@,
                            amount: children.len() as usize,
                            position: span.0,
                        },
                    ),
                )
            },
        }
    }
}

/// `literal`: a number, a boolean or a string.
pub open spec fn ast_literal(n: NodeView) -> Built<ExprView>
    decreases n, 0nat,
{
    if view_kind(n) != "literal"@ {
        None
    } else {
        match n {
            NodeView::Terminal(t) => Some(Err(token_not_node("literal"@, t))),
            NodeView::NonTerminal { children, span, .. } => if children.len() == 0 {
                None
            } else {
                let item = children[0];
                let k = view_kind(item);
                if k == "NUMBER"@ || k == "BOOLEAN"@ || k == "STRING"@ {
                    ast_token_literal(k, item)
                } else {
                    Some(
                        Err(
                            AstErr::UnexpectedTokenKind {
                                expected: "NUMBER or BOOLEAN or STRING"@,
                                given: k,
                                position: span.0,
                            },
                        ),
                    )
                }
            },
        }
    }
}

/// `array_def`: brackets around an optional list of expressions.
pub open spec fn ast_array_def(n: NodeView) -> Built<ExprView>
    decreases n, 0nat,
{
    if view_kind(n) != "array_def"@ {
        None
    } else {
        match n {
            NodeView::Terminal(t) => Some(Err(token_not_node("array_def"@, t))),
            NodeView::NonTerminal { children, span, .. } => if children.len() == 2 {
                Some(Ok(ExprView::Array { elements: Seq::empty(), span }))
            } else if children.len() == 3 {
                match ast_expr_list(children[1]) {
                    None => None,
                    Some(Err(e)) => Some(Err(e)),
                    Some(Ok(elements)) => Some(Ok(ExprView::Array { elements, span })),
                }
            } else {
                Some(
                    Err(
                        AstErr::UnknownRule { expected: "array_def"@, amount: children.len() as usize, position: span.0 },
                    ),
                )
            },
        }
    }
}

/// `expression_list`: the expressions of the list, or its first error.
pub open spec fn ast_expr_list(n: NodeView) -> Built<Seq<ExprView>>
    decreases n, 1nat,
{
    if view_kind(n) != "expression_list"@ {
        None
    } else {
        match unwrap_tree(n, "expression_list"@) {
            None => None,
            Some(Err(e)) => Some(Err(e)),
            Some(Ok(_)) => match list_exprs(n) {
                None => None,
                Some(rs) => Some(first_error(rs)),
            },
        }
    }
}

/// The results of the expressions of the items of a list node whose
/// unwrapping succeeds.
pub open spec fn list_exprs(n: NodeView) -> Option<Seq<Result<ExprView, AstErr>>>
    decreases n, 0nat,
{
    if view_kind(n) != "expression_list"@ {
        Some(Seq::empty())
    } else {
        match n {
            NodeView::Terminal(_) => Some(Seq::empty()),
            NodeView::NonTerminal { children, .. } => if children.len() == 0 {
                Some(Seq::empty())
            } else if children.len() == 1 {
                match ast_expr(children[0]) {
                    None => None,
                    Some(r) => Some(seq![r]),
                }
            } else {
                match list_exprs(children[0]) {
                    None => None,
                    Some(rs) => match ast_expr(children.last()) {
                        None => None,
                        Some(r) => Some(rs.push(r)),
                    },
                }
            },
        }
    }
}

} // verus!
