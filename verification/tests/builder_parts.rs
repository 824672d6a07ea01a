use fuss_frontend::collections::stable_ordered_set::StableOrderedSet;
use fuss_frontend::frontend_v0::ast_builder::visitors::{
    first_err, parse_boolean, parse_number, reorder_option_and_result, AstBuilder,
};
use fuss_frontend::frontend_v0::errors::ast_errors::{AstBuilderError, ErrorBuilder};
use fuss_frontend::frontend_v0::errors::goto_table_errors::{format_state, GotoTableError};
use fuss_frontend::frontend_v0::errors::lexer_errors::LexerError;
use fuss_frontend::frontend_v0::lexer::common::lexer::{Position, Token};
use fuss_frontend::frontend_v0::message_controller::{CompilationMessage, CompilationStage, MessageController};
use fuss_frontend::frontend_v0::parser::common::parser::ParserNode;
use fuss_frontend::frontend_v0::parser::lr1_automata_builder::LR1ParserItem;
use fuss_frontend::frontend_v0::parser::parser_grammar::ParserGrammarRule;
use fuss_frontend::text::join_strings;

fn pos(column: usize) -> Position {
    Position { filename: "t.fuss".to_string(), line: 1, column }
}

fn token(kind: &str, text: &str, column: usize) -> ParserNode {
    ParserNode::Terminal(Token { text: text.to_string(), kind: kind.to_string(), position: pos(column), is_fallback: false })
}

fn node(kind: &str, children: Vec<ParserNode>) -> ParserNode {
    ParserNode::NonTerminal { kind: kind.to_string(), span: (pos(0), pos(9)), children }
}

fn error(name: &str) -> AstBuilderError {
    AstBuilderError::UnexpectedTokenKind { expected_node: name.to_string(), given_token_kind: "X".to_string(), position: pos(0) }
}

fn expected_of(e: &AstBuilderError) -> String {
    match e {
        AstBuilderError::UnexpectedTokenKind { expected_node, .. } => expected_node.clone(),
        _ => "other".to_string(),
    }
}

#[test]
fn first_err_gives_all_values_or_the_first_error() {
    let all: Vec<Result<i32, AstBuilderError>> = vec![Ok(1), Ok(2), Ok(3)];
    assert_eq!(first_err(all).ok(), Some(vec![1, 2, 3]));
    let some: Vec<Result<i32, AstBuilderError>> = vec![Ok(1), Err(error("first")), Ok(2), Err(error("second"))];
    match first_err(some) {
        Err(e) => assert_eq!(expected_of(&e), "first"),
        Ok(_) => panic!("an error was in the list"),
    }
    let none: Vec<Result<i32, AstBuilderError>> = vec![];
    assert_eq!(first_err(none).ok(), Some(vec![]));
}

#[test]
fn reorder_option_and_result_moves_the_error_out() {
    assert_eq!(reorder_option_and_result::<i32>(None).ok(), Some(None));
    assert_eq!(reorder_option_and_result(Some(Ok(5))).ok(), Some(Some(5)));
    match reorder_option_and_result::<i32>(Some(Err(error("e")))) {
        Err(e) => assert_eq!(expected_of(&e), "e"),
        Ok(_) => panic!("the error should come out"),
    }
}

#[test]
fn numbers_and_booleans_read_as_rust_reads_them() {
    let n = |s: &str| parse_number(&s.to_string());
    assert_eq!(n("0"), Some(0));
    assert_eq!(n("42"), Some(42));
    assert_eq!(n("+5"), Some(5));
    assert_eq!(n("-17"), Some(-17));
    assert_eq!(n("2147483647"), Some(i32::MAX));
    assert_eq!(n("2147483648"), None);
    assert_eq!(n("-2147483648"), Some(i32::MIN));
    assert_eq!(n("-2147483649"), None);
    assert_eq!(n("007"), Some(7));
    assert_eq!(n(""), None);
    assert_eq!(n("-"), None);
    assert_eq!(n("12a"), None);
    assert_eq!(n("99999999999999999999"), None);
    for s in ["0", "42", "+5", "-17", "2147483647", "2147483648", "", "-", "1_0", " 1"] {
        assert_eq!(n(s), s.parse::<i32>().ok(), "{}", s);
    }
    let b = |s: &str| parse_boolean(&s.to_string());
    assert_eq!(b("true"), Some(true));
    assert_eq!(b("false"), Some(false));
    assert_eq!(b("True"), None);
    assert_eq!(b(""), None);
}

#[test]
fn unwrap_left_recursive_tree_lists_items_in_order() {
    let builder = AstBuilder {};
    let inner = node("args_list", vec![token("IDENTIFIER", "a", 0)]);
    let middle = node("args_list", vec![inner, token("COMMA", ",", 1), token("IDENTIFIER", "b", 2)]);
    let outer = node("args_list", vec![middle, token("COMMA", ",", 3), token("IDENTIFIER", "c", 4)]);
    let items = builder.unwrap_left_recursive_tree(outer, "args_list".to_string()).ok().unwrap();
    let texts: Vec<String> = items
        .iter()
        .map(|n| match n {
            ParserNode::Terminal(t) => t.text.clone(),
            _ => "node".to_string(),
        })
        .collect();
    assert_eq!(texts, vec!["a", "b", "c"]);
    let other = token("IDENTIFIER", "z", 0);
    assert_eq!(builder.unwrap_left_recursive_tree(other, "args_list".to_string()).ok().map(|v| v.len()), Some(0));
    let wrong = token("args_list", "z", 0);
    assert!(builder.unwrap_left_recursive_tree(wrong, "args_list".to_string()).is_err());
}

#[test]
fn handle_optional_node_fills_in_an_empty_node() {
    let builder = AstBuilder {};
    let mut children = vec![token("OPEN_BRACE", "{", 0), token("CLOSED_BRACE", "}", 2)];
    builder.handle_optional_node(&mut children, 1, "stmt_list".to_string());
    let kinds: Vec<String> = children.iter().map(|c| c.get_node_kind()).collect();
    assert_eq!(kinds, vec!["OPEN_BRACE", "empty_expr", "CLOSED_BRACE"]);
    let span = children[1].get_node_span();
    assert_eq!((span.0.column, span.1.column), (2, 2));
    let mut present = vec![token("OPEN_BRACE", "{", 0), node("stmt_list", vec![]), token("CLOSED_BRACE", "}", 2)];
    builder.handle_optional_node(&mut present, 1, "stmt_list".to_string());
    assert_eq!(present.len(), 3);
    let mut short = vec![token("A", "a", 0)];
    builder.handle_optional_node(&mut short, 5, "B".to_string());
    let kinds: Vec<String> = short.iter().map(|c| c.get_node_kind()).collect();
    assert_eq!(kinds, vec!["empty_expr", "A"]);
    assert!(builder.handle_empty_expr(node("empty_expr", vec![])).ok().unwrap().is_none());
    assert!(builder.handle_empty_expr(token("A", "a", 0)).ok().unwrap().is_some());
}

#[test]
fn visitors_on_hand_made_nodes() {
    let builder = AstBuilder {};
    let access = node("access_modifier", vec![token("PROTECTED", "protected", 0)]);
    assert_eq!(
        builder.visit_access_modifier(access).ok(),
        Some(fuss_frontend::frontend_v0::ast_builder::nodes::AccessModifier::Protected)
    );
    let bad = node("access_modifier", vec![token("STATIC", "static", 0)]);
    match builder.visit_access_modifier(bad) {
        Err(AstBuilderError::UnexpectedTokenKind { expected_node, given_token_kind, .. }) => {
            assert_eq!(expected_node, "PUBLIC or PROTECTED or PRIVATE");
            assert_eq!(given_token_kind, "STATIC");
        },
        _ => panic!("STATIC is no access modifier"),
    }
    assert_eq!(builder.visit_static_modifier(token("STATIC", "static", 0)).ok(), Some(true));
    match builder.visit_variable_name(node("IDENTIFIER", vec![])) {
        Err(AstBuilderError::TerminalExpected { expected_node, given_token_kind, .. }) => {
            assert_eq!(expected_node, "IDENTIFIER");
            assert_eq!(given_token_kind, "IDENTIFIER");
        },
        _ => panic!("a node is no identifier"),
    }
    match builder.visit_expr(token("expr", "x", 3)) {
        Err(AstBuilderError::NonTerminalExpected { expected_node, given_token }) => {
            assert_eq!(expected_node, "expr");
            assert_eq!(given_token.position.column, 3);
        },
        _ => panic!("a token is no expression"),
    }
    let args = node(
        "args_list",
        vec![node("args_list", vec![token("IDENTIFIER", "a", 0)]), token("COMMA", ",", 1), token("IDENTIFIER", "b", 2)],
    );
    assert_eq!(builder.visit_args_list(args).ok(), Some(vec!["a".to_string(), "b".to_string()]));
    let array = node("array_def", vec![token("OPEN_BRACKET", "[", 0), token("X", "x", 1), token("Y", "y", 2), token("Z", "z", 3)]);
    match builder.visit_array_def(array) {
        Err(AstBuilderError::UnknownRule { expected_node, given_token_amount, .. }) => {
            assert_eq!(expected_node, "array_def");
            assert_eq!(given_token_amount, 4);
        },
        _ => panic!("an array has two or three children"),
    }
}

#[test]
fn error_builder_gives_each_error() {
    let e: Result<(), AstBuilderError> = ErrorBuilder::unknown_rule_for("x", 2, pos(1));
    assert!(matches!(e, Err(AstBuilderError::UnknownRule { given_token_amount: 2, .. })));
    let e: Result<(), AstBuilderError> = ErrorBuilder::terminal_expected("x", "y".to_string(), pos(1));
    assert!(matches!(e, Err(AstBuilderError::TerminalExpected { .. })));
    let e: Result<(), AstBuilderError> = ErrorBuilder::unexpected_syntax_node("x", "y", pos(1));
    assert!(matches!(e, Err(AstBuilderError::UnexpectedSyntaxNode { .. })));
}

fn item(source: &str, marker: usize, production: &[&str], lookahead: &[&str]) -> LR1ParserItem {
    let mut la = StableOrderedSet::new();
    for x in lookahead {
        la.insert(x.to_string());
    }
    LR1ParserItem {
        source: source.to_string(),
        marker_pos: marker,
        production: production.iter().map(|x| x.to_string()).collect(),
        lookahead: la,
        rule_id: 0,
    }
}

#[test]
fn items_states_and_conflicts_as_text() {
    let i = item("e", 1, &["e", "PLUS", "n"], &["EOF", "PLUS"]);
    assert_eq!(i.to_text(), "e -> e • PLUS n, EOF,PLUS");
    let state = vec![item("a", 1, &["B"], &["X"]), item("c", 0, &["D", "E"], &[])];
    assert_eq!(format_state(&state), "a -> B •, X\nc -> • D E, ");
    let rule = |name: &str, p: &[&str]| ParserGrammarRule {
        name: name.to_string(),
        production: p.iter().map(|x| x.to_string()).collect(),
    };
    let conflict = GotoTableError::ReduceReduceConflict {
        source_state_id: 3,
        token: "X".to_string(),
        primary_reduction_rule_id: 1,
        final_reduction_rule_id: 2,
        source_state: vec![item("a", 1, &["B"], &["X"])],
        primary_reduction_rule: rule("a", &["B"]),
        final_reduction_rule: rule("c", &["D", "E"]),
    };
    assert_eq!(conflict.get_base_message(), "Got reduce-reduce conflict 3 -(X)> reduce(1) to 3 -(X)> reduce(2)");
    assert_eq!(
        conflict.get_message(),
        "Got reduce-reduce conflict 3 -(X)> reduce(1) to 3 -(X)> reduce(2)\nSource state (3):\na -> B •, X\nPrimary reduction state(1:\na = B)\nFinal reduction rule(2:\nc = D E)\n"
    );
}

#[test]
fn message_controller_keeps_messages_in_order() {
    let mut mc = MessageController::new();
    assert!(mc.messages().is_empty());
    mc.accept_lexer_error(LexerError::UnknownCharSequence { sequence: "$".to_string() }, pos(4));
    mc.accept_ast_error(error("e"), pos(5));
    mc.set_stage(CompilationStage::PrimaryFileReading);
    let messages = mc.messages();
    assert_eq!(messages.len(), 2);
    assert_eq!(messages[0].0, CompilationStage::PrimaryFileReading);
    assert!(matches!(&messages[0].1, CompilationMessage::LexingError(_, p) if p.column == 4));
    assert!(matches!(&messages[1].1, CompilationMessage::AstBuildingError(_, p) if p.column == 5));
}

#[test]
fn strings_join_with_a_separator() {
    let parts = vec!["a".to_string(), "bc".to_string(), "".to_string()];
    assert_eq!(join_strings(&parts, ", "), "a, bc, ");
    assert_eq!(join_strings(&vec![], "-"), "");
}

#[test]
fn shift_conflicts_as_text() {
    let rule = ParserGrammarRule { name: "s".to_string(), production: vec!["T".to_string()] };
    let shift_shift = GotoTableError::ShiftShiftConflict {
        source_state_id: 1,
        token: "T".to_string(),
        primary_target_state_id: 2,
        final_target_state_id: 3,
        source_state: vec![item("s", 0, &["T"], &["EOF"])],
        primary_target_state: vec![item("s", 1, &["T"], &["EOF"])],
        final_target_state: vec![],
    };
    assert_eq!(
        shift_shift.get_message(),
        "Got shift-shift conflict 1 -(T)> shift(2) to 1 -(T)> shift(3)\nSource state (1):\ns -> • T, EOF\nPrimary target state(2:\ns -> T •, EOF)\nFinal target state(3:\n)\n"
    );
    let shift_reduce = GotoTableError::ShiftReduceConflict {
        source_state_id: 1,
        token: "T".to_string(),
        shift_target_state_id: 2,
        reduction_rule_id: 4,
        source_state: vec![],
        shift_target_state: vec![],
        reduction_rule: rule,
    };
    assert_eq!(
        shift_reduce.get_message(),
        "Got shift-reduce conflict 1 -(T)> shift(2) to 1 -(T)> reduce(4)\nSource state (1):\n\nShift target state(2:\n)\nReduction rule(4:\ns = T)\n"
    );
}
