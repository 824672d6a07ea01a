use fuss_frontend::frontend_v0::ast_builder::nodes::{CodeNode, ExpressionNode, StatementNode};
use fuss_frontend::frontend_v0::errors::ast_errors::AstBuilderError;
use fuss_frontend::frontend_v0::errors::common::MessageFactory;
use fuss_frontend::frontend_v0::errors::lexer_errors::LexerError;
use fuss_frontend::frontend_v0::file_analyzer::{FileAnalyzer, FileAnalyzerError};
use fuss_frontend::frontend_v0::lexer::common::lexer::Position;
use fuss_frontend::frontend_v0::project_reader::{get_imported_file_path, imported_files, queue_after};

/// The value of an analysis that must succeed.
fn ok<T>(r: Result<T, FileAnalyzerError>) -> T {
    match r {
        Ok(v) => v,
        Err(e) => panic!("{}", e.get_message()),
    }
}

const LEXER: &[&str] = &[
    "COMMENT = //.*",
    "IMPORT = import",
    "LET = let",
    "NUMBER = [0-9]+",
    "STRING = \"[^\"]*\"",
    "IDENTIFIER = [a-z]+",
    "SET = =",
    "SEMICOLON = ;",
];

const GRAMMAR: &[&str] = &[
    "code = stmt_list EOF",
    "stmt_list = stmt",
    "stmt_list = stmt_list stmt",
    "stmt = let_def SEMICOLON",
    "stmt = import_stmt SEMICOLON",
    "import_stmt = IMPORT STRING",
    "let_def = LET IDENTIFIER SET expr",
    "expr = and_expr",
    "and_expr = or_expr",
    "or_expr = comparison_expr",
    "comparison_expr = addition_expr",
    "addition_expr = multiplication_expr",
    "multiplication_expr = unary_expr",
    "unary_expr = postfix_expr",
    "postfix_expr = primary_expr",
    "primary_expr = literal",
    "primary_expr = IDENTIFIER",
    "literal = NUMBER",
    "literal = STRING",
];

/// The text of a grammar file with these lines.
fn grammar_text(lines: &[&str]) -> String {
    let mut text = lines.join("\r\n");
    text.push_str("\r\n");
    text
}

fn analyzer() -> FileAnalyzer {
    FileAnalyzer::new(&grammar_text(LEXER), &grammar_text(GRAMMAR)).expect("the grammars build")
}

fn position() -> Position {
    Position { filename: "p.fuss".to_string(), line: 2, column: 5 }
}

#[test]
fn lex_file_leaves_out_comments() {
    let a = analyzer();
    let name = "c.fuss".to_string();
    let tokens = ok(a.lex_file(&name, "let x = 1; // one\n// nothing\nlet y = x;"));
    let kinds: Vec<&str> = tokens.iter().map(|t| t.kind.as_str()).collect();
    assert_eq!(
        kinds,
        vec!["LET", "IDENTIFIER", "SET", "NUMBER", "SEMICOLON", "LET", "IDENTIFIER", "SET", "IDENTIFIER", "SEMICOLON", "EOF"]
    );
    assert!(tokens.iter().all(|t| t.kind != "COMMENT" && t.position.filename == "c.fuss"));
}

#[test]
fn lex_file_gives_the_lexer_errors() {
    let a = analyzer();
    let name = "c.fuss".to_string();
    match a.lex_file(&name, "let $ = 1 % ;") {
        Err(FileAnalyzerError::LexerErrors(errors)) => {
            let sequences: Vec<String> = errors
                .iter()
                .map(|e| match e {
                    LexerError::UnknownCharSequence { sequence } => sequence.clone(),
                })
                .collect();
            assert_eq!(sequences, vec!["$", "%"]);
            let message = FileAnalyzerError::LexerErrors(errors).get_message();
            assert_eq!(message, "Unknown char sequence \"$\"\nUnknown char sequence \"%\"");
        },
        _ => panic!("the lexer should refuse $ and %"),
    }
}

#[test]
fn build_ast_from_tokens_gives_the_tree_and_resets_the_parser() {
    let mut a = analyzer();
    let name = "m.fuss".to_string();
    let tokens = ok(a.lex_file(&name, "import \"lib.fuss\";\nlet x = 42;"));
    let code = ok(a.build_ast_from_tokens(&tokens));
    assert_eq!(code.imports_list.len(), 1);
    assert_eq!(code.statement_list.len(), 1);
    match &code.statement_list[0] {
        StatementNode::LetStatement { var_name, value: ExpressionNode::NumberLiteral { value, .. }, .. } => {
            assert_eq!(var_name, "x");
            assert_eq!(*value, 42);
        },
        other => panic!("{}", other.name()),
    }
    let again = ok(a.build_ast_from_tokens(&tokens));
    assert_eq!(again.statement_list.len(), 1);
}

#[test]
fn build_ast_from_tokens_gives_the_parser_errors() {
    let mut a = analyzer();
    let name = "m.fuss".to_string();
    let tokens = ok(a.lex_file(&name, "let x = = 1;"));
    match a.build_ast_from_tokens(&tokens) {
        Err(FileAnalyzerError::ParserErrors(errors)) => {
            assert_eq!(errors.len(), 1);
            assert_eq!(errors[0].get_message(), "Unexpected token SET. Expected  at m.fuss:1:8");
            assert_eq!(
                FileAnalyzerError::ParserErrors(errors).get_message(),
                "Unexpected token SET. Expected  at m.fuss:1:8"
            );
        },
        _ => panic!("the parser should refuse the second ="),
    }
    let tokens = ok(a.lex_file(&name, "let y = 2;"));
    assert!(a.build_ast_from_tokens(&tokens).is_ok());
}

#[test]
fn root_that_is_not_code_is_a_builder_error() {
    let grammar = grammar_text(GRAMMAR).replacen("code = stmt_list EOF", "program = stmt_list EOF", 1);
    let mut a = FileAnalyzer::new(&grammar_text(LEXER), &grammar).unwrap();
    let name = "r.fuss".to_string();
    let tokens = ok(a.lex_file(&name, "let x = 1;"));
    match a.build_ast_from_tokens(&tokens) {
        Err(FileAnalyzerError::AstBuilderErrors(errors)) => {
            assert_eq!(errors.len(), 1);
            assert_eq!(errors[0].get_message(), "Expected code, but got program at r.fuss:1:0");
        },
        _ => panic!("the builder should refuse the root"),
    }
}

#[test]
fn io_error_message_is_the_system_text() {
    let e = FileAnalyzerError::IoError(std::io::Error::new(std::io::ErrorKind::Other, "disk is gone"));
    assert_eq!(e.get_message(), "disk is gone");
}

#[test]
fn builder_error_messages() {
    let p = position();
    let cases = vec![
        (
            AstBuilderError::TerminalExpected {
                expected_node: "NUMBER".to_string(),
                given_token_kind: "literal".to_string(),
                position: p.clone(),
            },
            "Expected terminal NUMBER, but got literal at p.fuss:2:5",
        ),
        (
            AstBuilderError::UnknownRule { expected_node: "array_def".to_string(), given_token_amount: 4, position: p.clone() },
            "Found unknown rule at production size 4, but got array_def at p.fuss:2:5",
        ),
        (
            AstBuilderError::UnexpectedTokenKind {
                expected_node: "PLUS or MINUS".to_string(),
                given_token_kind: "DOT".to_string(),
                position: p.clone(),
            },
            "Expected PLUS or MINUS, but got DOT at p.fuss:2:5",
        ),
        (
            AstBuilderError::UnexpectedSyntaxNode {
                expected_node: "StringLiteral".to_string(),
                given_node: "NumberLiteral".to_string(),
                position: p.clone(),
            },
            "Expected StringLiteral, but got NumberLiteral at p.fuss:2:5",
        ),
    ];
    for (e, text) in cases {
        assert_eq!(e.get_message(), text);
    }
    let t = fuss_frontend::frontend_v0::lexer::common::lexer::Token {
        text: "+".to_string(),
        kind: "PLUS".to_string(),
        position: p.clone(),
        is_fallback: false,
    };
    let e = AstBuilderError::NonTerminalExpected { expected_node: "expr".to_string(), given_token: t };
    assert_eq!(e.get_message(), "Expected non-terminal expr, but got PLUS at p.fuss:2:5");
    let joined = FileAnalyzerError::AstBuilderErrors(vec![e]).get_message();
    assert_eq!(joined, "Expected non-terminal expr, but got PLUS at p.fuss:2:5");
}

fn string_import(text: &str) -> StatementNode {
    let p = position();
    StatementNode::ImportStatement {
        imported_file_name: ExpressionNode::StringLiteral { value: text.to_string(), span: (p.clone(), p.clone()) },
        span: (p.clone(), p),
    }
}

#[test]
fn imported_file_paths() {
    assert_eq!(get_imported_file_path(string_import("lib.fuss")).ok(), Some("lib.fuss".to_string()));
    let p = position();
    let number = StatementNode::ImportStatement {
        imported_file_name: ExpressionNode::NumberLiteral { value: 3, span: (p.clone(), p.clone()) },
        span: (p.clone(), p.clone()),
    };
    match get_imported_file_path(number) {
        Err(AstBuilderError::UnexpectedSyntaxNode { expected_node, given_node, .. }) => {
            assert_eq!(expected_node, "StringLiteral");
            assert_eq!(given_node, "NumberLiteral");
        },
        _ => panic!("a number names no file"),
    }
    let extern_stmt = StatementNode::ExternStatement { span: (p.clone(), p.clone()) };
    match get_imported_file_path(extern_stmt) {
        Err(e) => assert_eq!(e.get_message(), "Expected StringLiteral, but got ExternStatement at p.fuss:2:5"),
        Ok(_) => panic!("extern names no file"),
    }
    let code = CodeNode {
        imports_list: vec![string_import("a"), StatementNode::ExternStatement { span: (p.clone(), p.clone()) }, string_import("b")],
        statement_list: vec![],
        span: (p.clone(), p),
    };
    let (paths, errors) = imported_files(&code);
    assert_eq!(paths, vec!["a", "b"]);
    assert_eq!(errors.len(), 1);
}

#[test]
fn queue_after_appends_the_imported_files_of_a_tree() {
    let p = position();
    let code = CodeNode {
        imports_list: vec![string_import("b.fuss"), StatementNode::ExternStatement { span: (p.clone(), p.clone()) }, string_import("c.fuss")],
        statement_list: vec![],
        span: (p.clone(), p),
    };
    let rest = vec!["a.fuss".to_string()];
    assert_eq!(queue_after(rest.clone(), &Ok(code)), vec!["a.fuss", "b.fuss", "c.fuss"]);
    let failed: Result<CodeNode, FileAnalyzerError> = Err(FileAnalyzerError::ParserErrors(vec![]));
    assert_eq!(queue_after(rest, &failed), vec!["a.fuss".to_string()]);
}

#[test]
fn statement_and_expression_names_tell_the_variant() {
    let p = position();
    let import = string_import("a.fuss");
    let ext = StatementNode::ExternStatement { span: (p.clone(), p.clone()) };
    assert_ne!(import.name(), ext.name());
    assert_eq!(ext.name(), "ExternStatement");
    let s = ExpressionNode::StringLiteral { value: "x".to_string(), span: (p.clone(), p.clone()) };
    let n = ExpressionNode::NumberLiteral { value: 1, span: (p.clone(), p) };
    assert_ne!(s.name(), n.name());
    assert_eq!(n.name(), "NumberLiteral");
}
