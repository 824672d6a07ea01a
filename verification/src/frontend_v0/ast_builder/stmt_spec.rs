//! What the builder of the abstract syntax tree gives for the statements and
//! the classes of a syntax tree, in the terms of `ast_spec`.
use crate::frontend_v0::ast_builder::ast_spec::{
    ast_expr, ast_expr_list, ast_postfix, ast_token_literal, ast_variable_name, first_error, kids, token_not_node,
    token_span, unwrap_tree, AstErr, Built,
};
use crate::frontend_v0::ast_builder::nodes::{AccessModifier, CodeView, ExprView, MemberView, StmtView};
use crate::frontend_v0::lexer::common::lexer::{end_fits, Position};
use crate::frontend_v0::parser::common::parser::{view_fits, view_kind, view_span, view_start, NodeView, Span};
use vstd::prelude::*;
use vstd::string::*;

verus! {

/// The node that stands for an absent optional child: no children, and an
/// empty span at `p`.
pub open spec fn empty_node(p: Position) -> NodeView {
    NodeView::NonTerminal { kind: "empty_expr"@, span: (p, p), children: Seq::empty() }
}

/// Whether a node stands for an absent optional child.
pub open spec fn is_empty_node(n: NodeView) -> bool {
    view_kind(n) == "empty_expr"@
}

/// The children with an empty node at `i` where the child there is not of
/// kind `expected` (at the last child where `i` is past the end); `None`
/// where there is no child, or the span of the child there overflows.
pub open spec fn opt_fill(cs: Seq<NodeView>, i: int, expected: Seq<char>) -> Option<Seq<NodeView>> {
    if 0 <= i < cs.len() && view_kind(cs[i]) == expected {
        Some(cs)
    } else if cs.len() == 0 {
        None
    } else {
        let j = if i < cs.len() - 1 {
            i
        } else {
            cs.len() - 1
        };
        if view_fits(cs[j]) {
            Some(cs.insert(j, empty_node(view_span(cs[j]).0)))
        } else {
            None
        }
    }
}

/// Every node of `cs` but the empty ones lies below `n`.
pub open spec fn below_or_empty(n: NodeView, cs: Seq<NodeView>) -> bool {
    forall|k: int| 0 <= k < cs.len() && !is_empty_node(#[trigger] cs[k]) ==> decreases_to!(n => cs[k])
}

pub proof fn lemma_kids_below(n: NodeView)
    requires
        n is NonTerminal,
    ensures
        below_or_empty(n, kids(n)),
{
    match n {
        NodeView::NonTerminal { children, .. } => {
            assert forall|k: int| 0 <= k < children.len() implies decreases_to!(n => #[trigger] children[k]) by {
                assert(decreases_to!(n => children));
                assert(decreases_to!(children => children[k]));
            }
        },
        NodeView::Terminal(_) => {},
    }
}

pub proof fn lemma_fill_below(n: NodeView, cs: Seq<NodeView>, i: int, expected: Seq<char>)
    requires
        0 <= i,
        below_or_empty(n, cs),
    ensures
        opt_fill(cs, i, expected) matches Some(out) ==> below_or_empty(n, out),
{
    if !(0 <= i < cs.len() && view_kind(cs[i]) == expected) && cs.len() > 0 {
        let j = if i < cs.len() - 1 {
            i
        } else {
            cs.len() - 1
        };
        let e = empty_node(view_span(cs[j]).0);
        cs.insert_ensures(j, e);
        let out = cs.insert(j, e);
        assert forall|k: int| 0 <= k < out.len() && !is_empty_node(#[trigger] out[k]) implies decreases_to!(n => out[k]) by {
            if k < j {
                assert(out[k] == cs[k]);
            } else if k > j {
                assert(out[k] == cs[k - 1]);
            }
        }
    }
}

pub proof fn lemma_subrange_below(n: NodeView, cs: Seq<NodeView>, a: int, b: int)
    requires
        below_or_empty(n, cs),
        0 <= a <= b <= cs.len(),
    ensures
        below_or_empty(n, cs.subrange(a, b)),
{
    assert forall|k: int| 0 <= k < b - a && !is_empty_node(#[trigger] cs.subrange(a, b)[k]) implies decreases_to!(
        n => cs.subrange(a, b)[k]
    ) by {
        assert(cs.subrange(a, b)[k] == cs[a + k]);
    }
}

/// The kinds that the builder looks for are not that of an empty node.
pub proof fn lemma_kinds_not_empty()
    ensures
        "class_scope"@ != "empty_expr"@,
        "scope_def"@ != "empty_expr"@,
        "stmt_list"@ != "empty_expr"@,
        "class_members_list"@ != "empty_expr"@,
{
    reveal_strlit("class_scope");
    reveal_strlit("scope_def");
    reveal_strlit("stmt_list");
    reveal_strlit("class_members_list");
    reveal_strlit("empty_expr");
    assert("class_scope"@[0] != "empty_expr"@[0]);
    assert("scope_def"@[0] != "empty_expr"@[0]);
    assert("stmt_list"@[0] != "empty_expr"@[0]);
    assert("class_members_list"@[0] != "empty_expr"@[0]);
}

/// `access_modifier`: a `PUBLIC`, `PROTECTED` or `PRIVATE` token.
pub open spec fn ast_access_modifier(n: NodeView) -> Built<AccessModifier> {
    if view_kind(n) != "access_modifier"@ {
        None
    } else {
        match n {
            NodeView::Terminal(t) => Some(Err(token_not_node("access_modifier"@, t))),
            NodeView::NonTerminal { children, span, .. } => if children.len() == 0 {
                None
            } else {
                match children[0] {
                    NodeView::NonTerminal { kind, .. } => Some(
                        Err(
                            AstErr::TerminalExpected {
                                expected: "PUBLIC or PROTECTED or PRIVATE"@,
                                given: kind,
                                position: span.0,
                            },
                        ),
                    ),
                    NodeView::Terminal(t) => if t.kind@ == "PUBLIC"@ {
                        Some(Ok(AccessModifier::Public))
                    } else if t.kind@ == "PROTECTED"@ {
                        Some(Ok(AccessModifier::Protected))
                    } else if t.kind@ == "PRIVATE"@ {
                        Some(Ok(AccessModifier::Private))
                    } else {
                        Some(
                            Err(
                                AstErr::UnexpectedTokenKind {
                                    expected: "PUBLIC or PROTECTED or PRIVATE"@,
                                    given: t.kind@,
                                    position: span.0,
                                },
                            ),
                        )
                    },
                }
            },
        }
    }
}

/// `STATIC`: the token, which makes a member static.
pub open spec fn ast_static(n: NodeView) -> Built<bool> {
    if view_kind(n) != "STATIC"@ {
        None
    } else {
        match n {
            NodeView::NonTerminal { kind, span, .. } => Some(
                Err(AstErr::TerminalExpected { expected: "STATIC"@, given: kind, position: span.0 }),
            ),
            NodeView::Terminal(_) => Some(Ok(true)),
        }
    }
}

/// An optional access modifier: private where it is absent.
pub open spec fn opt_access(n: NodeView) -> Built<AccessModifier> {
    if is_empty_node(n) {
        Some(Ok(AccessModifier::Private))
    } else {
        ast_access_modifier(n)
    }
}

/// An optional `STATIC`: not static where it is absent.
pub open spec fn opt_static(n: NodeView) -> Built<bool> {
    if is_empty_node(n) {
        Some(Ok(false))
    } else {
        ast_static(n)
    }
}

/// An item of a list of arguments: the text of its token.
pub open spec fn arg_of(n: NodeView) -> Result<Seq<char>, AstErr> {
    match n {
        NodeView::NonTerminal { kind, span, .. } => Err(
            AstErr::TerminalExpected { expected: "IDENTIFIER"@, given: kind, position: span.0 },
        ),
        NodeView::Terminal(t) => Ok(t.text@),
    }
}

/// The arguments of the items of a list.
pub open spec fn args_of(items: Seq<NodeView>) -> Seq<Result<Seq<char>, AstErr>>
    decreases items.len(),
{
    if items.len() == 0 {
        Seq::empty()
    } else {
        args_of(items.drop_last()).push(arg_of(items.last()))
    }
}

/// `args_list`: the names of the arguments, or the first error.
pub open spec fn ast_args_list(n: NodeView) -> Built<Seq<Seq<char>>> {
    if view_kind(n) != "args_list"@ {
        None
    } else {
        match unwrap_tree(n, "args_list"@) {
            None => None,
            Some(Err(e)) => Some(Err(e)),
            Some(Ok(items)) => Some(first_error(args_of(items))),
        }
    }
}

/// An optional list of arguments: none where it is absent.
pub open spec fn opt_args(n: NodeView) -> Built<Seq<Seq<char>>> {
    if is_empty_node(n) {
        Some(Ok(Seq::empty()))
    } else {
        ast_args_list(n)
    }
}

/// `let_def`: `LET IDENTIFIER SET expr`.
pub open spec fn ast_let_def(n: NodeView) -> Built<StmtView> {
    if view_kind(n) != "let_def"@ {
        None
    } else {
        match n {
            NodeView::Terminal(t) => Some(Err(token_not_node("let_def"@, t))),
            NodeView::NonTerminal { children, span, .. } => if children.len() < 4 {
                None
            } else {
                match ast_variable_name(children[1]) {
                    Err(e) => Some(Err(e)),
                    Ok(var_name) => match ast_expr(children[3]) {
                        None => None,
                        Some(Err(e)) => Some(Err(e)),
                        Some(Ok(value)) => Some(Ok(StmtView::Let { var_name, value, span })),
                    },
                }
            },
        }
    }
}

/// `import_stmt`: `IMPORT STRING`.
pub open spec fn ast_import(n: NodeView) -> Built<StmtView> {
    if view_kind(n) != "import_stmt"@ {
        None
    } else {
        match n {
            NodeView::Terminal(t) => Some(Err(token_not_node("import_stmt"@, t))),
            NodeView::NonTerminal { children, span, .. } => if children.len() < 2 {
                None
            } else {
                match ast_token_literal("STRING"@, children[1]) {
                    None => None,
                    Some(Err(e)) => Some(Err(e)),
                    Some(Ok(file)) => Some(Ok(StmtView::Import { file, span })),
                }
            },
        }
    }
}

/// `return_stmt`: `RETURN expr`.
pub open spec fn ast_return(n: NodeView) -> Built<StmtView> {
    if view_kind(n) != "return_stmt"@ {
        None
    } else {
        match n {
            NodeView::Terminal(t) => Some(Err(token_not_node("return_stmt"@, t))),
            NodeView::NonTerminal { children, span, .. } => if children.len() < 2 {
                None
            } else {
                match ast_expr(children[1]) {
                    None => None,
                    Some(Err(e)) => Some(Err(e)),
                    Some(Ok(value)) => Some(Ok(StmtView::Return { value, span })),
                }
            },
        }
    }
}

/// `assign_stmt`: `postfix_expr SET expr`.
pub open spec fn ast_assign(n: NodeView) -> Built<StmtView> {
    if view_kind(n) != "assign_stmt"@ {
        None
    } else {
        match n {
            NodeView::Terminal(t) => Some(Err(token_not_node("assign_stmt"@, t))),
            NodeView::NonTerminal { children, span, .. } => if children.len() < 1 {
                None
            } else {
                match ast_postfix(children[0]) {
                    None => None,
                    Some(Err(e)) => Some(Err(e)),
                    Some(Ok(left)) => if children.len() < 3 {
                        None
                    } else {
                        match ast_expr(children[2]) {
                            None => None,
                            Some(Err(e)) => Some(Err(e)),
                            Some(Ok(right)) => Some(Ok(StmtView::Assignment { left, right, span })),
                        }
                    },
                }
            },
        }
    }
}

/// `EXTERN`: the token.
pub open spec fn ast_extern(n: NodeView) -> Built<StmtView> {
    if view_kind(n) != "EXTERN"@ {
        None
    } else {
        match n {
            NodeView::NonTerminal { kind, span, .. } => Some(
                Err(AstErr::TerminalExpected { expected: "EXTERN"@, given: kind, position: span.0 }),
            ),
            NodeView::Terminal(t) => if end_fits(t) {
                Some(Ok(StmtView::Extern { span: token_span(t) }))
            } else {
                None
            },
        }
    }
}

/// A postfix expression that stands as a statement: an increment, a
/// decrement, a member access, a call or an index.
pub open spec fn ast_postfix_stmt(n: NodeView) -> Built<StmtView> {
    if view_kind(n) != "postfix_expr"@ {
        None
    } else {
        match n {
            NodeView::Terminal(t) => Some(Err(token_not_node("postfix_expr stmt"@, t))),
            NodeView::NonTerminal { children, span, .. } => if children.len() == 2 {
                let k = view_kind(children[1]);
                if k == "INCREMENT"@ || k == "DECREMENT"@ {
                    match ast_postfix(children[0]) {
                        None => None,
                        Some(Err(e)) => Some(Err(e)),
                        Some(Ok(source)) => if k == "INCREMENT"@ {
                            Some(Ok(StmtView::Increment { source, span }))
                        } else {
                            Some(Ok(StmtView::Decrement { source, span }))
                        },
                    }
                } else {
                    None
                }
            } else if children.len() == 3 {
                let k = view_kind(children[1]);
                if k == "DOT"@ {
                    match ast_postfix(children[0]) {
                        None => None,
                        Some(Err(e)) => Some(Err(e)),
                        Some(Ok(source)) => match ast_variable_name(children[2]) {
                            Err(e) => Some(Err(e)),
                            Ok(symbol) => Some(Ok(StmtView::SymbolAccess { source, symbol, span })),
                        },
                    }
                } else if k == "OPEN_PAREN"@ {
                    match ast_postfix(children[0]) {
                        None => None,
                        Some(Err(e)) => Some(Err(e)),
                        Some(Ok(source)) => Some(Ok(StmtView::FunctionCall { source, arguments: Seq::empty(), span })),
                    }
                } else {
                    Some(
                        Err(
                            AstErr::UnexpectedTokenKind {
                                expected: "DOT or OPEN_PAREN"@,
                                given: k,
                                position: view_start(children[1]),
                            },
                        ),
                    )
                }
            } else if children.len() == 4 {
                match ast_postfix(children[0]) {
                    None => None,
                    Some(Err(e)) => Some(Err(e)),
                    Some(Ok(source)) => match ast_expr_list(children[2]) {
                        None => None,
                        Some(Err(e)) => Some(Err(e)),
                        Some(Ok(args)) => {
                            let k = view_kind(children[1]);
                            if k == "OPEN_PAREN"@ {
                                Some(Ok(StmtView::FunctionCall { source, arguments: args, span }))
                            } else if k == "OPEN_BRACKET"@ {
                                Some(Ok(StmtView::ArrayAccess { source, index: args, span }))
                            } else {
                                Some(
                                    Err(
                                        AstErr::UnexpectedTokenKind {
                                            expected: "OPEN_PAREN or OPEN_BRACKET"@,
                                            given: k,
                                            position: view_start(children[1]),
                                        },
                                    ),
                                )
                            }
                        },
                    },
                }
            } else {
                Some(
                    Err(
                        AstErr::UnknownRule {
                            expected: "postfix_expr stmt"@,
                            amount: children.len() as usize,
                            position: span.0,
                        },
                    ),
                )
            },
        }
    }
}

/// An optional `let_def`: none where it is absent.
pub open spec fn opt_let(n: NodeView) -> Built<Option<StmtView>> {
    if is_empty_node(n) {
        Some(Ok(None))
    } else {
        match ast_let_def(n) {
            None => None,
            Some(Err(e)) => Some(Err(e)),
            Some(Ok(s)) => Some(Ok(Some(s))),
        }
    }
}

/// An optional `expr`: none where it is absent.
pub open spec fn opt_expr(n: NodeView) -> Built<Option<crate::frontend_v0::ast_builder::nodes::ExprView>> {
    if is_empty_node(n) {
        Some(Ok(None))
    } else {
        match ast_expr(n) {
            None => None,
            Some(Err(e)) => Some(Err(e)),
            Some(Ok(e)) => Some(Ok(Some(e))),
        }
    }
}

/// `stmt_list`: the statements of the list, or its first error.
pub open spec fn ast_stmt_list(n: NodeView) -> Built<Seq<StmtView>>
    decreases n, 1nat,
{
    if view_kind(n) != "stmt_list"@ {
        None
    } else {
        match unwrap_tree(n, "stmt_list"@) {
            None => None,
            Some(Err(e)) => Some(Err(e)),
            Some(Ok(_)) => match list_stmts(n) {
                None => None,
                Some(rs) => Some(first_error(rs)),
            },
        }
    }
}

/// The results of the statements of the items of a list node.
pub open spec fn list_stmts(n: NodeView) -> Option<Seq<Result<StmtView, AstErr>>>
    decreases n, 0nat,
{
    if view_kind(n) != "stmt_list"@ {
        Some(Seq::empty())
    } else {
        match n {
            NodeView::Terminal(_) => Some(Seq::empty()),
            NodeView::NonTerminal { children, .. } => if children.len() == 0 {
                Some(Seq::empty())
            } else if children.len() == 1 {
                match ast_stmt(children[0]) {
                    None => None,
                    Some(r) => Some(seq![r]),
                }
            } else {
                match list_stmts(children[0]) {
                    None => None,
                    Some(rs) => match ast_stmt(children.last()) {
                        None => None,
                        Some(r) => Some(rs.push(r)),
                    },
                }
            },
        }
    }
}

/// `stmt`: the statement of its only child, by the child's kind.
pub open spec fn ast_stmt(n: NodeView) -> Built<StmtView>
    decreases n, 0nat,
{
    if view_kind(n) != "stmt"@ {
        None
    } else {
        match n {
            NodeView::Terminal(t) => Some(Err(token_not_node("stmt"@, t))),
            NodeView::NonTerminal { children, .. } => if children.len() == 0 {
                None
            } else {
                let x = children[0];
                let k = view_kind(x);
                if k == "import_stmt"@ {
                    ast_import(x)
                } else if k == "class_def"@ {
                    ast_class_def(x)
                } else if k == "let_def"@ {
                    ast_let_def(x)
                } else if k == "func_def"@ {
                    ast_func_def(x)
                } else if k == "if_def"@ {
                    ast_if(x)
                } else if k == "while_stmt"@ {
                    ast_while(x)
                } else if k == "for_stmt"@ {
                    ast_for(x)
                } else if k == "scope_def"@ {
                    ast_scope_def(x)
                } else if k == "return_stmt"@ {
                    ast_return(x)
                } else if k == "postfix_expr"@ {
                    ast_postfix_stmt(x)
                } else if k == "assign_stmt"@ {
                    ast_assign(x)
                } else if k == "EXTERN"@ {
                    ast_extern(x)
                } else {
                    Some(
                        Err(
                            AstErr::UnexpectedTokenKind {
                                expected: "something_def or return_stmt or postfix_expr"@,
                                given: k,
                                position: view_start(x),
                            },
                        ),
                    )
                }
            },
        }
    }
}

/// `class_def`: `access_modifier? STATIC? CLASS IDENTIFIER class_scope`.
pub open spec fn ast_class_def(n: NodeView) -> Built<StmtView>
    decreases n, 0nat,
{
    if view_kind(n) != "class_def"@ {
        None
    } else {
        match n {
            NodeView::Terminal(t) => Some(Err(token_not_node("class_def"@, t))),
            NodeView::NonTerminal { children, span, .. } => match opt_fill(children, 0, "access_modifier"@) {
                None => None,
                Some(c1) => match opt_fill(c1, 1, "STATIC"@) {
                    None => None,
                    Some(cs) => if cs.len() < 5 {
                        None
                    } else {
                        match opt_access(cs[0]) {
                            None => None,
                            Some(Err(e)) => Some(Err(e)),
                            Some(Ok(access)) => match opt_static(cs[1]) {
                                None => None,
                                Some(Err(e)) => Some(Err(e)),
                                Some(Ok(is_static)) => match ast_variable_name(cs[3]) {
                                    Err(e) => Some(Err(e)),
                                    Ok(name) => if view_kind(cs[4]) != "class_scope"@ {
                                        None
                                    } else {
                                        proof {
                                            lemma_kids_below(n);
                                            lemma_fill_below(n, children, 0, "access_modifier"@);
                                            lemma_fill_below(n, c1, 1, "STATIC"@);
                                            lemma_kinds_not_empty();
                                            assert(!is_empty_node(cs[4]));
                                        }
                                        match ast_class_scope(cs[4]) {
                                            None => None,
                                            Some(Err(e)) => Some(Err(e)),
                                            Some(Ok(body)) => Some(
                                                Ok(StmtView::ClassDef { name, access, is_static, body, span }),
                                            ),
                                        }
                                    },
                                },
                            },
                        }
                    },
                },
            },
        }
    }
}

/// `class_scope`: `OPEN_BRACE class_members_list? CLOSED_BRACE`.
pub open spec fn ast_class_scope(n: NodeView) -> Built<Seq<MemberView>>
    decreases n, 0nat,
{
    if view_kind(n) != "class_scope"@ {
        None
    } else {
        match n {
            NodeView::Terminal(t) => Some(Err(token_not_node("class_scope"@, t))),
            NodeView::NonTerminal { children, .. } => match opt_fill(children, 1, "class_members_list"@) {
                None => None,
                Some(cs) => if cs.len() < 2 {
                    None
                } else if is_empty_node(cs[1]) {
                    Some(Ok(Seq::empty()))
                } else if view_kind(cs[1]) != "class_members_list"@ {
                    None
                } else {
                    proof {
                        lemma_kids_below(n);
                        lemma_fill_below(n, children, 1, "class_members_list"@);
                    }
                    ast_members_list(cs[1])
                },
            },
        }
    }
}

/// `class_members_list`: the members of the list, or its first error.
pub open spec fn ast_members_list(n: NodeView) -> Built<Seq<MemberView>>
    decreases n, 1nat,
{
    if view_kind(n) != "class_members_list"@ {
        None
    } else {
        match unwrap_tree(n, "class_members_list"@) {
            None => None,
            Some(Err(e)) => Some(Err(e)),
            Some(Ok(_)) => match list_members(n) {
                None => None,
                Some(rs) => Some(first_error(rs)),
            },
        }
    }
}

/// The results of the members of the items of a list node.
pub open spec fn list_members(n: NodeView) -> Option<Seq<Result<MemberView, AstErr>>>
    decreases n, 0nat,
{
    if view_kind(n) != "class_members_list"@ {
        Some(Seq::empty())
    } else {
        match n {
            NodeView::Terminal(_) => Some(Seq::empty()),
            NodeView::NonTerminal { children, .. } => if children.len() == 0 {
                Some(Seq::empty())
            } else if children.len() == 1 {
                match ast_class_member(children[0]) {
                    None => None,
                    Some(r) => Some(seq![r]),
                }
            } else {
                match list_members(children[0]) {
                    None => None,
                    Some(rs) => match ast_class_member(children.last()) {
                        None => None,
                        Some(r) => Some(rs.push(r)),
                    },
                }
            },
        }
    }
}

/// `class_member`: modifiers, then a nested class, a constructor, a field
/// or a method.
pub open spec fn ast_class_member(n: NodeView) -> Built<MemberView>
    decreases n, 1nat,
{
    if view_kind(n) != "class_member"@ {
        None
    } else {
        match n {
            NodeView::Terminal(t) => Some(Err(token_not_node("class_member"@, t))),
            NodeView::NonTerminal { children, span, .. } => match opt_fill(children, 0, "access_modifier"@) {
                None => None,
                Some(c1) => match opt_fill(c1, 1, "STATIC"@) {
                    None => None,
                    Some(cs) => if cs.len() < 3 {
                        None
                    } else {
                        match opt_access(cs[0]) {
                            None => None,
                            Some(Err(e)) => Some(Err(e)),
                            Some(Ok(access)) => match opt_static(cs[1]) {
                                None => None,
                                Some(Err(e)) => Some(Err(e)),
                                Some(Ok(is_static)) => {
                                    proof {
                                        lemma_kids_below(n);
                                        lemma_fill_below(n, children, 0, "access_modifier"@);
                                        lemma_fill_below(n, c1, 1, "STATIC"@);
                                        lemma_subrange_below(n, cs, 3, cs.len() as int);
                                        lemma_kinds_not_empty();
                                    }
                                    ast_member_rest(n, access, is_static, cs[2], cs.subrange(3, cs.len() as int), span)
                                },
                            },
                        }
                    },
                },
            },
        }
    }
}

/// What follows the modifiers of a member: `ident` and the children `rest`
/// after it.
pub open spec fn ast_member_rest(
    n: NodeView,
    access: AccessModifier,
    is_static: bool,
    ident: NodeView,
    rest: Seq<NodeView>,
    span: Span,
) -> Built<MemberView>
    decreases n, 0nat,
{
    if !below_or_empty(n, rest) {
        None
    } else if view_kind(ident) == "CLASS"@ {
        if rest.len() < 1 {
            None
        } else {
            match ast_variable_name(rest[0]) {
                Err(e) => Some(Err(e)),
                Ok(name) => if rest.len() < 2 || view_kind(rest[1]) != "class_scope"@ {
                    None
                } else {
                    proof {
                        lemma_kinds_not_empty();
                    }
                    match ast_class_scope(rest[1]) {
                        None => None,
                        Some(Err(e)) => Some(Err(e)),
                        Some(Ok(body)) => Some(Ok(MemberView::Class { access, is_static, name, body, span })),
                    }
                },
            }
        }
    } else if view_kind(ident) == "CONSTRUCTOR"@ {
        match opt_fill(rest, 1, "args_list"@) {
            None => None,
            Some(r2) => if r2.len() < 2 {
                None
            } else {
                match opt_args(r2[1]) {
                    None => None,
                    Some(Err(e)) => Some(Err(e)),
                    Some(Ok(arguments)) => if r2.len() < 4 || view_kind(r2[3]) != "scope_def"@ {
                        None
                    } else {
                        proof {
                            lemma_fill_below(n, rest, 1, "args_list"@);
                            lemma_kinds_not_empty();
                        }
                        match scope_body(r2[3]) {
                            None => None,
                            Some(Err(e)) => Some(Err(e)),
                            Some(Ok(body)) => Some(
                                Ok(MemberView::Constructor { access, is_static, arguments, body, span }),
                            ),
                        }
                    },
                }
            },
        }
    } else {
        match ast_variable_name(ident) {
            Err(e) => Some(Err(e)),
            Ok(name) => if rest.len() < 1 {
                None
            } else {
                let k = view_kind(rest[0]);
                if k == "SET"@ {
                    if rest.len() < 2 {
                        None
                    } else {
                        match ast_expr(rest[1]) {
                            None => None,
                            Some(Err(e)) => Some(Err(e)),
                            Some(Ok(v)) => Some(
                                Ok(MemberView::Field { access, is_static, name, value: Some(v), span }),
                            ),
                        }
                    }
                } else if k == "SEMICOLON"@ {
                    Some(Ok(MemberView::Field { access, is_static, name, value: None, span }))
                } else if k == "OPEN_PAREN"@ {
                    match opt_fill(rest, 1, "args_list"@) {
                        None => None,
                        Some(r2) => if r2.len() < 4 {
                            None
                        } else {
                            match opt_args(r2[1]) {
                                None => None,
                                Some(Err(e)) => Some(Err(e)),
                                Some(Ok(arguments)) => if view_kind(r2[3]) != "scope_def"@ {
                                    None
                                } else {
                                    proof {
                                        lemma_fill_below(n, rest, 1, "args_list"@);
                                        lemma_kinds_not_empty();
                                    }
                                    match scope_body(r2[3]) {
                                        None => None,
                                        Some(Err(e)) => Some(Err(e)),
                                        Some(Ok(body)) => Some(
                                            Ok(MemberView::Method { access, is_static, name, arguments, body, span }),
                                        ),
                                    }
                                },
                            }
                        },
                    }
                } else {
                    Some(
                        Err(AstErr::UnexpectedTokenKind { expected: "STATIC"@, given: k, position: view_start(rest[0]) }),
                    )
                }
            },
        }
    }
}

/// The statements of a `scope_def`.
pub open spec fn scope_body(n: NodeView) -> Built<Seq<StmtView>>
    decreases n, 1nat,
{
    match ast_scope_def(n) {
        None => None,
        Some(Err(e)) => Some(Err(e)),
        Some(Ok(StmtView::Scope { body, .. })) => Some(Ok(body)),
        Some(Ok(_)) => Some(
            Err(AstErr::UnexpectedTokenKind { expected: "scope_def"@, given: view_kind(n), position: view_start(n) }),
        ),
    }
}

/// `scope_def`: `OPEN_BRACE stmt_list? CLOSED_BRACE`.
pub open spec fn ast_scope_def(n: NodeView) -> Built<StmtView>
    decreases n, 0nat,
{
    if view_kind(n) != "scope_def"@ {
        None
    } else {
        match n {
            NodeView::Terminal(t) => Some(Err(token_not_node("scope_def"@, t))),
            NodeView::NonTerminal { children, span, .. } => match opt_fill(children, 1, "stmt_list"@) {
                None => None,
                Some(cs) => if cs.len() < 2 {
                    None
                } else if is_empty_node(cs[1]) {
                    Some(Ok(StmtView::Scope { body: Seq::empty(), span }))
                } else if view_kind(cs[1]) != "stmt_list"@ {
                    None
                } else {
                    proof {
                        lemma_kids_below(n);
                        lemma_fill_below(n, children, 1, "stmt_list"@);
                    }
                    match ast_stmt_list(cs[1]) {
                        None => None,
                        Some(Err(e)) => Some(Err(e)),
                        Some(Ok(body)) => Some(Ok(StmtView::Scope { body, span })),
                    }
                },
            },
        }
    }
}

/// `func_def`: `FUNC IDENTIFIER OPEN_PAREN args_list? CLOSED_PAREN scope_def`.
pub open spec fn ast_func_def(n: NodeView) -> Built<StmtView>
    decreases n, 0nat,
{
    if view_kind(n) != "func_def"@ {
        None
    } else {
        match n {
            NodeView::Terminal(t) => Some(Err(token_not_node("func_def"@, t))),
            NodeView::NonTerminal { children, span, .. } => if children.len() < 4 {
                None
            } else {
                let has_args = view_kind(children[3]) == "args_list"@;
                if (has_args && children.len() < 6) || children.len() < 5 {
                    None
                } else {
                    let body_node = if has_args {
                        children[5]
                    } else {
                        children[4]
                    };
                    match ast_variable_name(children[1]) {
                        Err(e) => Some(Err(e)),
                        Ok(name) => if view_kind(body_node) != "scope_def"@ {
                            None
                        } else {
                            proof {
                                lemma_kids_below(n);
                            }
                            match scope_body(body_node) {
                                None => None,
                                Some(Err(e)) => Some(Err(e)),
                                Some(Ok(body)) => {
                                    let arguments = if has_args {
                                        ast_args_list(children[3])
                                    } else {
                                        Some(Ok(Seq::empty()))
                                    };
                                    match arguments {
                                        None => None,
                                        Some(Err(e)) => Some(Err(e)),
                                        Some(Ok(arguments)) => Some(
                                            Ok(StmtView::FunctionDef { name, arguments, body, span }),
                                        ),
                                    }
                                },
                            }
                        },
                    }
                }
            },
        }
    }
}

/// `if_def`: `IF OPEN_PAREN expr CLOSED_PAREN scope_def (ELSE scope_def)?`.
pub open spec fn ast_if(n: NodeView) -> Built<StmtView>
    decreases n, 0nat,
{
    if view_kind(n) != "if_def"@ {
        None
    } else {
        match n {
            NodeView::Terminal(t) => Some(Err(token_not_node("if_def"@, t))),
            NodeView::NonTerminal { children, span, .. } => if children.len() < 5 || children.len() == 6 {
                None
            } else {
                match ast_expr(children[2]) {
                    None => None,
                    Some(Err(e)) => Some(Err(e)),
                    Some(Ok(condition)) => if view_kind(children[4]) != "scope_def"@ {
                        None
                    } else {
                        proof {
                            lemma_kids_below(n);
                        }
                        match scope_body(children[4]) {
                            None => None,
                            Some(Err(e)) => Some(Err(e)),
                            Some(Ok(then_branch)) => if children.len() < 7 {
                                Some(Ok(StmtView::If { condition, then_branch, else_branch: None, span }))
                            } else if view_kind(children[6]) != "scope_def"@ {
                                None
                            } else {
                                match scope_body(children[6]) {
                                    None => None,
                                    Some(Err(e)) => Some(Err(e)),
                                    Some(Ok(b)) => Some(
                                        Ok(StmtView::If { condition, then_branch, else_branch: Some(b), span }),
                                    ),
                                }
                            },
                        }
                    },
                }
            },
        }
    }
}

/// `while_stmt`: `WHILE OPEN_PAREN expr CLOSED_PAREN scope_def`.
pub open spec fn ast_while(n: NodeView) -> Built<StmtView>
    decreases n, 0nat,
{
    if view_kind(n) != "while_stmt"@ {
        None
    } else {
        match n {
            NodeView::Terminal(t) => Some(Err(token_not_node("while_stmt"@, t))),
            NodeView::NonTerminal { children, span, .. } => if children.len() < 5 {
                None
            } else {
                match ast_expr(children[2]) {
                    None => None,
                    Some(Err(e)) => Some(Err(e)),
                    Some(Ok(condition)) => if view_kind(children[4]) != "scope_def"@ {
                        None
                    } else {
                        proof {
                            lemma_kids_below(n);
                        }
                        match scope_body(children[4]) {
                            None => None,
                            Some(Err(e)) => Some(Err(e)),
                            Some(Ok(body)) => Some(Ok(StmtView::While { condition, body, span })),
                        }
                    },
                }
            },
        }
    }
}

/// `for_stmt`: `FOR OPEN_PAREN let_def? SEMICOLON expr? SEMICOLON expr?
/// CLOSED_PAREN scope_def`.
pub open spec fn ast_for(n: NodeView) -> Built<StmtView>
    decreases n, 0nat,
{
    if view_kind(n) != "for_stmt"@ {
        None
    } else {
        match n {
            NodeView::Terminal(t) => Some(Err(token_not_node("while_stmt"@, t))),
            NodeView::NonTerminal { children, span, .. } => match opt_fill(children, 2, "let_def"@) {
                None => None,
                Some(c1) => match opt_fill(c1, 4, "expr"@) {
                    None => None,
                    Some(c2) => match opt_fill(c2, 6, "expr"@) {
                        None => None,
                        Some(cs) => if cs.len() < 9 {
                            None
                        } else {
                            match opt_let(cs[2]) {
                                None => None,
                                Some(Err(e)) => Some(Err(e)),
                                Some(Ok(indexer)) => match opt_expr(cs[4]) {
                                    None => None,
                                    Some(Err(e)) => Some(Err(e)),
                                    Some(Ok(condition)) => match opt_expr(cs[6]) {
                                        None => None,
                                        Some(Err(e)) => Some(Err(e)),
                                        Some(Ok(update)) => if view_kind(cs[8]) != "scope_def"@ {
                                            None
                                        } else {
                                            proof {
                                                lemma_kids_below(n);
                                                lemma_fill_below(n, children, 2, "let_def"@);
                                                lemma_fill_below(n, c1, 4, "expr"@);
                                                lemma_fill_below(n, c2, 6, "expr"@);
                                                lemma_kinds_not_empty();
                                                assert(!is_empty_node(cs[8]));
                                            }
                                            match scope_body(cs[8]) {
                                                None => None,
                                                Some(Err(e)) => Some(Err(e)),
                                                Some(Ok(body)) => Some(
                                                    Ok(
                                                        StmtView::For {
                                                            indexer: match indexer {
                                                                Some(s) => Some(Box::new(s)),
                                                                None => None,
                                                            },
                                                            condition,
                                                            update,
                                                            body,
                                                            span,
                                                        },
                                                    ),
                                                ),
                                            }
                                        },
                                    },
                                },
                            }
                        },
                    },
                },
            },
        }
    }
}

/// Child `k` of `n` is a scope whose statements build to `body`.
pub open spec fn scope_child_gives(n: NodeView, k: int, body: Seq<StmtView>) -> bool {
    &&& 0 <= k < kids(n).len()
    &&& ast_scope_def(kids(n)[k]) matches Some(Ok(sc))
    &&& sc is Scope
    &&& sc->Scope_body == body
}

/// The statements of a scope: what `scope_body` gives for a scope is the body
/// that `ast_scope_def` builds.
proof fn lemma_scope_body(c: NodeView)
    ensures
        scope_body(c) matches Some(Ok(body)) ==> (ast_scope_def(c) matches Some(Ok(sc)) && sc is Scope && sc->Scope_body == body),
{
}

/// Law of `while` statements: the condition is what the expression between
/// the parentheses builds, and the body is the list of statements that the
/// scope after them builds, in their order.
pub proof fn law_while_parts(n: NodeView)
    ensures
        ast_while(n) matches Some(Ok(v)) ==> {
            &&& v is While
            &&& kids(n).len() >= 5
            &&& ast_expr(kids(n)[2]) == Some(Ok::<ExprView, AstErr>(v->While_condition))
            &&& scope_child_gives(n, 4, v->While_body)
        },
{
    if kids(n).len() >= 5 {
        lemma_scope_body(kids(n)[4]);
    }
}

/// Law of `if` statements: the condition is what the expression between the
/// parentheses builds, the then branch is what the first scope builds, and
/// there is an else branch exactly when there is a second scope, which builds
/// it.
pub proof fn law_if_parts(n: NodeView)
    ensures
        ast_if(n) matches Some(Ok(v)) ==> {
            &&& v is If
            &&& kids(n).len() >= 5
            &&& ast_expr(kids(n)[2]) == Some(Ok::<ExprView, AstErr>(v->If_condition))
            &&& scope_child_gives(n, 4, v->then_branch)
            &&& (v->else_branch is Some <==> kids(n).len() >= 7)
            &&& v->else_branch matches Some(b) ==> scope_child_gives(n, 6, b)
        },
{
    if kids(n).len() >= 5 {
        lemma_scope_body(kids(n)[4]);
    }
    if kids(n).len() >= 7 {
        lemma_scope_body(kids(n)[6]);
    }
}

/// Law of function definitions: the body is the list of statements that the
/// scope after the name and the arguments builds, in their order.
pub proof fn law_func_body(n: NodeView)
    ensures
        ast_func_def(n) matches Some(Ok(v)) ==> {
            &&& v is FunctionDef
            &&& kids(n).len() >= 5
            &&& scope_child_gives(n, if view_kind(kids(n)[3]) == "args_list"@ { 5 } else { 4 }, v->FunctionDef_body)
        },
{
    if kids(n).len() >= 6 {
        lemma_scope_body(kids(n)[5]);
    }
    if kids(n).len() >= 5 {
        lemma_scope_body(kids(n)[4]);
    }
}

/// Every node that `opt_fill` gives is a child it was given, or an empty
/// node.
proof fn lemma_fill_from(cs: Seq<NodeView>, i: int, expected: Seq<char>)
    requires
        0 <= i,
    ensures
        opt_fill(cs, i, expected) matches Some(out) ==> forall|k: int|
            0 <= k < out.len() && !is_empty_node(#[trigger] out[k]) ==> exists|m: int| 0 <= m < cs.len() && cs[m] == out[k],
{
    if !(0 <= i < cs.len() && view_kind(cs[i]) == expected) && cs.len() > 0 {
        let j = if i < cs.len() - 1 {
            i
        } else {
            cs.len() - 1
        };
        let e = empty_node(view_span(cs[j]).0);
        cs.insert_ensures(j, e);
        let out = cs.insert(j, e);
        assert forall|k: int| 0 <= k < out.len() && !is_empty_node(#[trigger] out[k]) implies exists|m: int|
            0 <= m < cs.len() && cs[m] == out[k] by {
            if k < j {
                assert(cs[k] == out[k]);
            } else if k > j {
                assert(cs[k - 1] == out[k]);
            } else {
                assert(out[k] == e);
            }
        }
    } else if 0 <= i < cs.len() && view_kind(cs[i]) == expected {
        assert forall|k: int| 0 <= k < cs.len() && !is_empty_node(#[trigger] cs[k]) implies exists|m: int|
            0 <= m < cs.len() && cs[m] == cs[k] by {
        }
    }
}

/// Law of `for` statements: the body is the list of statements that a scope
/// among its children builds, in their order.
pub proof fn law_for_body(n: NodeView)
    ensures
        ast_for(n) matches Some(Ok(v)) ==> {
            &&& v is For
            &&& exists|k: int| #[trigger] scope_child_gives(n, k, v->For_body)
        },
{
    if let Some(Ok(v)) = ast_for(n) {
        let children = kids(n);
        let c1 = opt_fill(children, 2, "let_def"@)->0;
        let c2 = opt_fill(c1, 4, "expr"@)->0;
        let cs = opt_fill(c2, 6, "expr"@)->0;
        lemma_kinds_not_empty();
        assert(view_kind(cs[8]) == "scope_def"@);
        assert(!is_empty_node(cs[8]));
        lemma_fill_from(c2, 6, "expr"@);
        let m2 = choose|m: int| 0 <= m < c2.len() && c2[m] == cs[8];
        assert(!is_empty_node(c2[m2]));
        lemma_fill_from(c1, 4, "expr"@);
        let m1 = choose|m: int| 0 <= m < c1.len() && c1[m] == c2[m2];
        assert(!is_empty_node(c1[m1]));
        lemma_fill_from(children, 2, "let_def"@);
        let m0 = choose|m: int| 0 <= m < children.len() && children[m] == c1[m1];
        lemma_scope_body(cs[8]);
        assert(scope_child_gives(n, m0, v->For_body));
    }
}

/// Law of `let` definitions: the variable is the name that the second child
/// gives, and the value what the expression after the `=` builds.
pub proof fn law_let_parts(n: NodeView)
    ensures
        ast_let_def(n) matches Some(Ok(v)) ==> {
            &&& v is Let
            &&& kids(n).len() >= 4
            &&& ast_variable_name(kids(n)[1]) == Ok::<Seq<char>, AstErr>(v->var_name)
            &&& ast_expr(kids(n)[3]) == Some(Ok::<ExprView, AstErr>(v->Let_value))
        },
{
}

/// Law of `return` statements: the value is what the expression after the
/// keyword builds.
pub proof fn law_return_value(n: NodeView)
    ensures
        ast_return(n) matches Some(Ok(v)) ==> {
            &&& v is Return
            &&& kids(n).len() >= 2
            &&& ast_expr(kids(n)[1]) == Some(Ok::<ExprView, AstErr>(v->Return_value))
        },
{
}

/// Law of assignments: the target is what the expression before the `=`
/// builds, and the value what the expression after it builds.
pub proof fn law_assign_parts(n: NodeView)
    ensures
        ast_assign(n) matches Some(Ok(v)) ==> {
            &&& v is Assignment
            &&& kids(n).len() >= 3
            &&& ast_postfix(kids(n)[0]) == Some(Ok::<ExprView, AstErr>(v->Assignment_left))
            &&& ast_expr(kids(n)[2]) == Some(Ok::<ExprView, AstErr>(v->Assignment_right))
        },
{
}

/// The import statements of a list, in their order.
pub open spec fn imports_of(s: Seq<StmtView>) -> Seq<StmtView>
    decreases s.len(),
{
    if s.len() == 0 {
        Seq::empty()
    } else if s.last() is Import {
        imports_of(s.drop_last()).push(s.last())
    } else {
        imports_of(s.drop_last())
    }
}

/// The other statements of a list, in their order.
pub open spec fn others_of(s: Seq<StmtView>) -> Seq<StmtView>
    decreases s.len(),
{
    if s.len() == 0 {
        Seq::empty()
    } else if s.last() is Import {
        others_of(s.drop_last())
    } else {
        others_of(s.drop_last()).push(s.last())
    }
}

/// Law of the builder of a file: the imports and the other statements of a
/// list are the list's statements of each sort, in their order, and together
/// they are all of them.
pub proof fn law_imports_split(s: Seq<StmtView>)
    ensures
        imports_of(s) == s.filter(|x: StmtView| x is Import),
        others_of(s) == s.filter(|x: StmtView| !(x is Import)),
        imports_of(s).len() + others_of(s).len() == s.len(),
    decreases s.len(),
{
    reveal(Seq::filter);
    if s.len() > 0 {
        law_imports_split(s.drop_last());
    }
}

/// `code`: the statement list of a file, its imports set apart.
pub open spec fn ast_code(n: NodeView) -> Built<CodeView> {
    match n {
        NodeView::Terminal(t) => Some(Err(token_not_node("code"@, t))),
        NodeView::NonTerminal { kind, children, span } => if kind != "code"@ {
            Some(Err(AstErr::UnexpectedTokenKind { expected: "code"@, given: kind, position: span.0 }))
        } else if children.len() == 0 {
            None
        } else {
            match ast_stmt_list(children[0]) {
                None => None,
                Some(Err(e)) => Some(Err(e)),
                Some(Ok(stmts)) => Some(
                    Ok(CodeView { imports: imports_of(stmts), statements: others_of(stmts), span }),
                ),
            }
        },
    }
}

} // verus!
