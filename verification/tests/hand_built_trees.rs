use fuss_frontend::frontend_v0::ast_builder::nodes::{AccessModifier, ClassMemberNode, ExpressionNode, StatementNode};
use fuss_frontend::frontend_v0::ast_builder::visitors::AstBuilder;
use fuss_frontend::frontend_v0::errors::ast_errors::AstBuilderError;
use fuss_frontend::frontend_v0::lexer::common::lexer::{Position, Token};
use fuss_frontend::frontend_v0::parser::common::parser::ParserNode;

fn pos(line: usize, column: usize) -> Position {
    Position { filename: "h.fuss".to_string(), line, column }
}

fn tok(kind: &str, text: &str) -> ParserNode {
    ParserNode::Terminal(Token { text: text.to_string(), kind: kind.to_string(), position: pos(1, 0), is_fallback: false })
}

fn node(kind: &str, children: Vec<ParserNode>) -> ParserNode {
    ParserNode::NonTerminal { kind: kind.to_string(), span: (pos(1, 0), pos(1, 1)), children }
}

/// The expression that is only the primary expression `primary`.
fn expr_of(primary: ParserNode) -> ParserNode {
    let mut n = node("primary_expr", vec![primary]);
    for kind in ["postfix_expr", "unary_expr", "multiplication_expr", "addition_expr", "comparison_expr", "or_expr", "and_expr", "expr"] {
        n = node(kind, vec![n]);
    }
    n
}

fn ident_expr(name: &str) -> ParserNode {
    expr_of(tok("IDENTIFIER", name))
}

fn number_expr(text: &str) -> ParserNode {
    expr_of(node("literal", vec![tok("NUMBER", text)]))
}

fn empty_scope() -> ParserNode {
    node("scope_def", vec![tok("OPEN_BRACE", "{"), tok("CLOSED_BRACE", "}")])
}

fn return_scope(name: &str) -> ParserNode {
    let ret = node("return_stmt", vec![tok("RETURN", "return"), ident_expr(name)]);
    let stmt = node("stmt", vec![ret, tok("SEMICOLON", ";")]);
    node("scope_def", vec![tok("OPEN_BRACE", "{"), node("stmt_list", vec![stmt]), tok("CLOSED_BRACE", "}")])
}

fn args(names: &[&str]) -> ParserNode {
    let mut n = node("args_list", vec![tok("IDENTIFIER", names[0])]);
    for name in &names[1..] {
        n = node("args_list", vec![n, tok("COMMA", ","), tok("IDENTIFIER", name)]);
    }
    n
}

fn access(kind: &str) -> ParserNode {
    node("access_modifier", vec![tok(kind, &kind.to_lowercase())])
}

fn ok<T>(r: Result<T, AstBuilderError>) -> T {
    match r {
        Ok(v) => v,
        Err(_) => panic!("the builder refused the tree"),
    }
}

#[test]
fn class_with_fields_method_constructor_and_nested_class() {
    let b = AstBuilder {};
    let members = vec![
        node("class_member", vec![tok("STATIC", "static"), tok("IDENTIFIER", "x"), tok("SEMICOLON", ";")]),
        node(
            "class_member",
            vec![access("PROTECTED"), tok("IDENTIFIER", "y"), tok("SET", "="), number_expr("2"), tok("SEMICOLON", ";")],
        ),
        node(
            "class_member",
            vec![tok("IDENTIFIER", "m"), tok("OPEN_PAREN", "("), args(&["p", "q"]), tok("CLOSED_PAREN", ")"), return_scope("p")],
        ),
        node(
            "class_member",
            vec![tok("CONSTRUCTOR", "constructor"), tok("OPEN_PAREN", "("), tok("CLOSED_PAREN", ")"), empty_scope()],
        ),
        node(
            "class_member",
            vec![
                access("PUBLIC"),
                tok("CLASS", "class"),
                tok("IDENTIFIER", "B"),
                node("class_scope", vec![tok("OPEN_BRACE", "{"), tok("CLOSED_BRACE", "}")]),
            ],
        ),
    ];
    let mut list = node("class_members_list", vec![members[0].clone()]);
    for m in &members[1..] {
        list = node("class_members_list", vec![list, m.clone()]);
    }
    let class_def = node(
        "class_def",
        vec![
            access("PUBLIC"),
            tok("STATIC", "static"),
            tok("CLASS", "class"),
            tok("IDENTIFIER", "A"),
            node("class_scope", vec![tok("OPEN_BRACE", "{"), list, tok("CLOSED_BRACE", "}")]),
        ],
    );
    match ok(b.visit_class_def(class_def)) {
        StatementNode::ClassDefStatement { class_name, access_modifier, is_static, body, .. } => {
            assert_eq!(class_name, "A");
            assert_eq!(access_modifier, AccessModifier::Public);
            assert!(is_static);
            assert_eq!(body.len(), 5);
            match &body[0] {
                ClassMemberNode::Field { name, value, access_modifier, is_static, .. } => {
                    assert_eq!(name, "x");
                    assert!(value.is_none());
                    assert_eq!(*access_modifier, AccessModifier::Private);
                    assert!(*is_static);
                },
                _ => panic!("a field"),
            }
            match &body[1] {
                ClassMemberNode::Field { name, value: Some(ExpressionNode::NumberLiteral { value, .. }), access_modifier, is_static, .. } => {
                    assert_eq!(name, "y");
                    assert_eq!(*value, 2);
                    assert_eq!(*access_modifier, AccessModifier::Protected);
                    assert!(!*is_static);
                },
                _ => panic!("a field with a value"),
            }
            match &body[2] {
                ClassMemberNode::Method { name, arguments, body, .. } => {
                    assert_eq!(name, "m");
                    assert_eq!(arguments, &vec!["p".to_string(), "q".to_string()]);
                    assert_eq!(body.len(), 1);
                    assert_eq!(body[0].name(), "ReturnStatement");
                },
                _ => panic!("a method"),
            }
            match &body[3] {
                ClassMemberNode::Constructor { arguments, body, .. } => {
                    assert!(arguments.is_empty());
                    assert!(body.is_empty());
                },
                _ => panic!("a constructor"),
            }
            match &body[4] {
                ClassMemberNode::Class { name, body, access_modifier, .. } => {
                    assert_eq!(name, "B");
                    assert!(body.is_empty());
                    assert_eq!(*access_modifier, AccessModifier::Public);
                },
                _ => panic!("a class"),
            }
        },
        other => panic!("{}", other.name()),
    }
}

#[test]
fn member_with_unknown_follower_is_refused() {
    let b = AstBuilder {};
    let member = node("class_member", vec![tok("IDENTIFIER", "z"), tok("COMMA", ",")]);
    match b.visit_class_member(member) {
        Err(AstBuilderError::UnexpectedTokenKind { expected_node, given_token_kind, .. }) => {
            assert_eq!(expected_node, "STATIC");
            assert_eq!(given_token_kind, "COMMA");
        },
        _ => panic!("a comma follows no member name"),
    }
}

#[test]
fn functions_ifs_loops_and_scopes() {
    let b = AstBuilder {};
    let func = node(
        "func_def",
        vec![
            tok("FUNC", "func"),
            tok("IDENTIFIER", "f"),
            tok("OPEN_PAREN", "("),
            args(&["a"]),
            tok("CLOSED_PAREN", ")"),
            return_scope("a"),
        ],
    );
    match ok(b.visit_func_def(func)) {
        StatementNode::FunctionDefStatement { func_name, arguments, body, .. } => {
            assert_eq!(func_name, "f");
            assert_eq!(arguments, vec!["a".to_string()]);
            assert_eq!(body.len(), 1);
        },
        other => panic!("{}", other.name()),
    }
    let if_else = node(
        "if_def",
        vec![
            tok("IF", "if"),
            tok("OPEN_PAREN", "("),
            ident_expr("c"),
            tok("CLOSED_PAREN", ")"),
            return_scope("x"),
            tok("ELSE", "else"),
            empty_scope(),
        ],
    );
    match ok(b.visit_if_def(if_else)) {
        StatementNode::IfStatement { condition: ExpressionNode::Variable { name, .. }, then_branch, else_branch, .. } => {
            assert_eq!(name, "c");
            assert_eq!(then_branch.len(), 1);
            assert_eq!(else_branch.map(|e| e.len()), Some(0));
        },
        other => panic!("{}", other.name()),
    }
    let plain_if = node("if_def", vec![tok("IF", "if"), tok("OPEN_PAREN", "("), ident_expr("c"), tok("CLOSED_PAREN", ")"), empty_scope()]);
    match ok(b.visit_if_def(plain_if)) {
        StatementNode::IfStatement { else_branch, .. } => assert!(else_branch.is_none()),
        other => panic!("{}", other.name()),
    }
    let while_stmt =
        node("while_stmt", vec![tok("WHILE", "while"), tok("OPEN_PAREN", "("), ident_expr("w"), tok("CLOSED_PAREN", ")"), empty_scope()]);
    assert_eq!(ok(b.visit_while_stmt(while_stmt)).name(), "WhileStatement");
    let let_def = node("let_def", vec![tok("LET", "let"), tok("IDENTIFIER", "i"), tok("SET", "="), number_expr("0")]);
    let full_for = node(
        "for_stmt",
        vec![
            tok("FOR", "for"),
            tok("OPEN_PAREN", "("),
            let_def,
            tok("SEMICOLON", ";"),
            ident_expr("k"),
            tok("SEMICOLON", ";"),
            number_expr("1"),
            tok("CLOSED_PAREN", ")"),
            empty_scope(),
        ],
    );
    match ok(b.visit_for_stmt(full_for)) {
        StatementNode::ForStatement { indexer_def, condition, update_expr, body, .. } => {
            match indexer_def.map(|s| *s) {
                Some(StatementNode::LetStatement { var_name, .. }) => assert_eq!(var_name, "i"),
                _ => panic!("a let statement"),
            }
            assert!(matches!(condition.map(|c| *c), Some(ExpressionNode::Variable { .. })));
            assert!(matches!(update_expr.map(|c| *c), Some(ExpressionNode::NumberLiteral { value: 1, .. })));
            assert!(body.is_empty());
        },
        other => panic!("{}", other.name()),
    }
    let empty_for = node(
        "for_stmt",
        vec![
            tok("FOR", "for"),
            tok("OPEN_PAREN", "("),
            tok("SEMICOLON", ";"),
            tok("SEMICOLON", ";"),
            tok("CLOSED_PAREN", ")"),
            empty_scope(),
        ],
    );
    match ok(b.visit_for_stmt(empty_for)) {
        StatementNode::ForStatement { indexer_def, condition, update_expr, .. } => {
            assert!(indexer_def.is_none() && condition.is_none() && update_expr.is_none());
        },
        other => panic!("{}", other.name()),
    }
    let scope = node("stmt", vec![return_scope("r")]);
    match ok(b.visit_stmt(scope)) {
        StatementNode::ScopeStatement { body, .. } => assert_eq!(body.len(), 1),
        other => panic!("{}", other.name()),
    }
}

#[test]
fn statement_of_unknown_kind_is_refused() {
    let b = AstBuilder {};
    let stmt = node("stmt", vec![tok("BREAK", "break")]);
    match b.visit_stmt(stmt) {
        Err(AstBuilderError::UnexpectedTokenKind { expected_node, given_token_kind, .. }) => {
            assert_eq!(expected_node, "something_def or return_stmt or postfix_expr");
            assert_eq!(given_token_kind, "BREAK");
        },
        _ => panic!("BREAK starts no statement"),
    }
}
