use fuss_frontend::frontend_v0::ast_builder::nodes::{
    CodeNode, ExpressionNode, StatementNode,
};
use fuss_frontend::frontend_v0::errors::ast_errors::AstBuilderError;
use fuss_frontend::frontend_v0::errors::common::MessageFactory;
use fuss_frontend::frontend_v0::file_analyzer::{FileAnalyzer, FileAnalyzerError};

/// The value of an analysis that must succeed.
fn ok<T>(r: Result<T, FileAnalyzerError>) -> T {
    match r {
        Ok(v) => v,
        Err(e) => panic!("{}", e.get_message()),
    }
}

const LEXER: &[&str] = &[
    "COMMENT = //.*",
    "IMPORT = import",
    "LET = let",
    "FUNC = func",
    "RETURN = return",
    "IF = if",
    "ELSE = else",
    "WHILE = while",
    "FOR = for",
    "CLASS = class",
    "CONSTRUCTOR = constructor",
    "PUBLIC = public",
    "PROTECTED = protected",
    "PRIVATE = private",
    "STATIC = static",
    "EXTERN = extern",
    "NEW = new",
    "BOOLEAN = true|false",
    "NUMBER = [0-9]+",
    "STRING = \"[^\"]*\"",
    "IDENTIFIER = [a-zA-Z_][a-zA-Z0-9_]*",
    "EQUAL_COMP = ==",
    "SET = =",
    "LT_COMP = <",
    "INCREMENT = \\+\\+",
    "PLUS = \\+",
    "MINUS = -",
    "ASTERISK = \\*",
    "AND = &&",
    "OR = \\|\\|",
    "NOT = !",
    "DOT = \\.",
    "COMMA = ,",
    "SEMICOLON = ;",
    "OPEN_PAREN = \\(",
    "CLOSED_PAREN = \\)",
    "OPEN_BRACE = \\{",
    "CLOSED_BRACE = \\}",
    "OPEN_BRACKET = \\[",
    "CLOSED_BRACKET = \\]",
];

const EXPRESSIONS: &[&str] = &[
    "expr = and_expr",
    "and_expr = or_expr",
    "and_expr = and_expr AND or_expr",
    "or_expr = comparison_expr",
    "or_expr = or_expr OR comparison_expr",
    "comparison_expr = addition_expr",
    "comparison_expr = addition_expr EQUAL_COMP addition_expr",
    "comparison_expr = addition_expr LT_COMP addition_expr",
    "addition_expr = multiplication_expr",
    "addition_expr = addition_expr PLUS multiplication_expr",
    "addition_expr = addition_expr MINUS multiplication_expr",
    "multiplication_expr = unary_expr",
    "multiplication_expr = multiplication_expr ASTERISK unary_expr",
    "unary_expr = postfix_expr",
    "unary_expr = NOT unary_expr",
    "unary_expr = MINUS unary_expr",
    "unary_expr = NEW unary_expr",
    "postfix_expr = primary_expr",
    "postfix_expr = postfix_expr INCREMENT",
    "postfix_expr = postfix_expr DOT IDENTIFIER",
    "postfix_expr = postfix_expr OPEN_PAREN CLOSED_PAREN",
    "postfix_expr = postfix_expr OPEN_PAREN expression_list CLOSED_PAREN",
    "postfix_expr = postfix_expr OPEN_BRACKET expression_list CLOSED_BRACKET",
    "primary_expr = literal",
    "primary_expr = IDENTIFIER",
    "primary_expr = array_def",
    "primary_expr = OPEN_PAREN expr CLOSED_PAREN",
    "literal = NUMBER",
    "literal = BOOLEAN",
    "literal = STRING",
    "array_def = OPEN_BRACKET CLOSED_BRACKET",
    "array_def = OPEN_BRACKET expression_list CLOSED_BRACKET",
    "expression_list = expr",
    "expression_list = expression_list COMMA expr",
];

const SIMPLE_STATEMENTS: &[&str] = &[
    "code = stmt_list EOF",
    "stmt_list = stmt",
    "stmt_list = stmt_list stmt",
    "stmt = let_def SEMICOLON",
    "stmt = import_stmt SEMICOLON",
    "stmt = postfix_expr SEMICOLON",
    "stmt = assign_stmt SEMICOLON",
    "stmt = EXTERN SEMICOLON",
    "import_stmt = IMPORT STRING",
    "let_def = LET IDENTIFIER SET expr",
    "assign_stmt = postfix_expr SET expr",
];


/// The text of a grammar file with these lines.
fn grammar_text(lines: &[&str]) -> String {
    let mut text = lines.join("\r\n");
    text.push_str("\r\n");
    text
}

fn analyzer(statements: &[&str]) -> FileAnalyzer {
    let grammar = format!("{}{}", grammar_text(statements), grammar_text(EXPRESSIONS));
    FileAnalyzer::new(&grammar_text(LEXER), &grammar).expect("the grammars build")
}

fn analyze(a: &mut FileAnalyzer, text: &str) -> Result<CodeNode, FileAnalyzerError> {
    let name = "test.fuss".to_string();
    let tokens = a.lex_file(&name, text)?;
    a.build_ast_from_tokens(&tokens)
}

fn expr_text(e: &ExpressionNode) -> String {
    match e {
        ExpressionNode::AddExpression { left, right, .. } => format!("({} + {})", expr_text(left), expr_text(right)),
        ExpressionNode::SubtractExpression { left, right, .. } => format!("({} - {})", expr_text(left), expr_text(right)),
        ExpressionNode::MultiplyExpression { left, right, .. } => format!("({} * {})", expr_text(left), expr_text(right)),
        ExpressionNode::AndExpression { left, right, .. } => format!("({} && {})", expr_text(left), expr_text(right)),
        ExpressionNode::OrExpression { left, right, .. } => format!("({} || {})", expr_text(left), expr_text(right)),
        ExpressionNode::IsEqualComparison { left, right, .. } => format!("({} == {})", expr_text(left), expr_text(right)),
        ExpressionNode::LessComparison { left, right, .. } => format!("({} < {})", expr_text(left), expr_text(right)),
        ExpressionNode::NotExpression { source, .. } => format!("!{}", expr_text(source)),
        ExpressionNode::NegateExpression { source, .. } => format!("-{}", expr_text(source)),
        ExpressionNode::IncrementExpression { source, .. } => format!("{}++", expr_text(source)),
        ExpressionNode::NewExpression { class, arguments, .. } => {
            format!("new {}({})", expr_text(class), arguments.iter().map(expr_text).collect::<Vec<_>>().join(", "))
        },
        ExpressionNode::SymbolAccessExpression { source, symbol, .. } => format!("{}.{}", expr_text(source), symbol),
        ExpressionNode::FunctionCallExpression { source, arguments, .. } => {
            format!("{}({})", expr_text(source), arguments.iter().map(expr_text).collect::<Vec<_>>().join(", "))
        },
        ExpressionNode::IndexAccessExpression { source, index, .. } => {
            format!("{}[{}]", expr_text(source), index.iter().map(expr_text).collect::<Vec<_>>().join(", "))
        },
        ExpressionNode::Variable { name, .. } => name.clone(),
        ExpressionNode::NumberLiteral { value, .. } => value.to_string(),
        ExpressionNode::BooleanLiteral { value, .. } => value.to_string(),
        ExpressionNode::StringLiteral { value, .. } => value.clone(),
        ExpressionNode::ArrayDefinition { elements, .. } => {
            format!("[{}]", elements.iter().map(expr_text).collect::<Vec<_>>().join(", "))
        },
        other => format!("<{}>", other.name()),
    }
}

fn let_value(s: &StatementNode) -> (String, String) {
    match s {
        StatementNode::LetStatement { var_name, value, .. } => (var_name.clone(), expr_text(value)),
        other => panic!("not a let statement: {}", other.name()),
    }
}

#[test]
fn visit_code_builds_let_statements_with_precedence() {
    let mut a = analyzer(SIMPLE_STATEMENTS);
    let code = ok(analyze(&mut a, "let x = 1 + 2 * y;\nlet z = -(3) < 4 && !true || false;"));
    assert!(code.imports_list.is_empty());
    assert_eq!(code.statement_list.len(), 2);
    assert_eq!(let_value(&code.statement_list[0]), ("x".to_string(), "(1 + (2 * y))".to_string()));
    assert_eq!(let_value(&code.statement_list[1]), ("z".to_string(), "((-3 < 4) && (!true || false))".to_string()));
    match &code.statement_list[0] {
        StatementNode::LetStatement { value, span, .. } => {
            assert_eq!((span.0.line, span.0.column), (1, 0));
            let vspan = value.span();
            assert_eq!((vspan.0.line, vspan.0.column), (1, 8));
            assert_eq!((vspan.1.line, vspan.1.column), (1, 17));
        },
        _ => unreachable!(),
    }
}

#[test]
fn postfix_expressions_calls_arrays_and_new() {
    let mut a = analyzer(SIMPLE_STATEMENTS);
    let code = ok(analyze(&mut a, "let a = f(1, b)[0].c++;\nlet n = new P(2);\nlet e = [];\nlet s = \"hi\" - g();"));
    let got: Vec<(String, String)> = code.statement_list.iter().map(let_value).collect();
    assert_eq!(got[0].1, "f(1, b)[0].c++");
    assert_eq!(got[1].1, "new P(2)");
    assert_eq!(got[2].1, "[]");
    assert_eq!(got[3].1, "(\"hi\" - g())");
}

#[test]
fn visit_code_separates_imports_in_order() {
    let mut a = analyzer(SIMPLE_STATEMENTS);
    let code = ok(analyze(&mut a, "import \"a.fuss\";\nlet x = 1;\nimport \"b.fuss\";\nextern;"));
    assert_eq!(code.imports_list.len(), 2);
    assert_eq!(code.statement_list.len(), 2);
    let files: Vec<String> = code
        .imports_list
        .iter()
        .map(|s| match s {
            StatementNode::ImportStatement { imported_file_name, .. } => expr_text(imported_file_name),
            other => panic!("{}", other.name()),
        })
        .collect();
    assert_eq!(files, vec!["\"a.fuss\"", "\"b.fuss\""]);
    assert_eq!(code.statement_list[0].name(), "LetStatement");
    assert_eq!(code.statement_list[1].name(), "ExternStatement");
}

#[test]
fn postfix_statements_and_assignments() {
    let mut a = analyzer(SIMPLE_STATEMENTS);
    let code = ok(analyze(&mut a, "f();\ng(1);\nx++;\no.p;\nv[2];\nx = 5;"));
    let names: Vec<&str> = code.statement_list.iter().map(|s| s.name()).collect();
    assert_eq!(
        names,
        vec![
            "FunctionCallStatement",
            "FunctionCallStatement",
            "IncrementStatement",
            "SymbolAccessStatement",
            "ArrayAccessStatement",
            "AssignmentStatement",
        ]
    );
    match &code.statement_list[5] {
        StatementNode::AssignmentStatement { left_side, right_side, .. } => {
            assert_eq!(expr_text(left_side), "x");
            assert_eq!(expr_text(right_side), "5");
        },
        _ => unreachable!(),
    }
    match &code.statement_list[3] {
        StatementNode::SymbolAccessStatement { source, symbol, .. } => {
            assert_eq!(expr_text(source), "o");
            assert_eq!(symbol, "p");
        },
        _ => unreachable!(),
    }
}

#[test]
fn bare_primary_statement_is_an_unknown_rule() {
    let mut a = analyzer(SIMPLE_STATEMENTS);
    let result = analyze(&mut a, "x;");
    match result {
        Err(FileAnalyzerError::AstBuilderErrors(errors)) => {
            assert_eq!(errors.len(), 1);
            match &errors[0] {
                AstBuilderError::UnknownRule { expected_node, given_token_amount, position } => {
                    assert_eq!(expected_node, "postfix_expr stmt");
                    assert_eq!(*given_token_amount, 1);
                    assert_eq!((position.line, position.column), (1, 0));
                },
                _ => panic!("another error"),
            }
            assert_eq!(
                errors[0].get_message(),
                "Found unknown rule at production size 1, but got postfix_expr stmt at test.fuss:1:0"
            );
        },
        _ => panic!("the builder should refuse a bare expression"),
    }
}
