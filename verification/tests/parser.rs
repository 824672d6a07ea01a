use fuss_frontend::frontend_v0::lexer::common::lexer::Token;
use fuss_frontend::frontend_v0::lexer::regex_lexer::{create_regex_lexer_from_grammar, Lexer, RegexLexer};
use fuss_frontend::frontend_v0::parser::automaton::{build_automata_from_grammar, build_lr1_parser};
use fuss_frontend::frontend_v0::parser::common::parser::ParserNode;
use fuss_frontend::frontend_v0::parser::lr1_automata_builder::LR1ParserAction;
use fuss_frontend::frontend_v0::parser::lr1_parser::{LR1Parser, ParserError};
use fuss_frontend::frontend_v0::parser::parser_grammar::{parser_grammar_text_is_valid, read_parser_grammar};

const LEXER: &str = "NUMBER = [0-9]+\r\nPLUS = \\+\r\n";
const GRAMMAR: &str = "sum = expr EOF\r\nexpr = expr PLUS NUMBER\r\nexpr = NUMBER\r\n";

fn lexer() -> RegexLexer {
    create_regex_lexer_from_grammar(LEXER).unwrap()
}

fn parser(l: &RegexLexer) -> LR1Parser {
    assert!(parser_grammar_text_is_valid(GRAMMAR));
    build_lr1_parser(l.alphabet(), GRAMMAR).expect("the grammar has an automaton")
}

fn tokens(l: &RegexLexer, text: &str) -> Vec<Token> {
    let name = "test.fuss".to_string();
    let (tokens, errors) = l.tokenize(&name, text);
    assert!(errors.is_empty());
    tokens
}

/// The tree as text: a token as its kind, a node as its kind and children.
fn shape(n: &ParserNode) -> String {
    match n {
        ParserNode::Terminal(t) => t.kind.clone(),
        ParserNode::NonTerminal { kind, children, .. } => {
            let inner: Vec<String> = children.iter().map(shape).collect();
            format!("{}({})", kind, inner.join(" "))
        },
    }
}

#[test]
fn parse_builds_tree_for_sum() {
    let l = lexer();
    let mut p = parser(&l);
    let (tree, errors) = p.parse(&tokens(&l, "1 + 2"));
    assert!(errors.is_empty());
    assert_eq!(shape(&tree), "sum(expr(expr(NUMBER) PLUS NUMBER) EOF)");
    let span = tree.get_node_span();
    assert_eq!((span.0.line, span.0.column), (1, 0));
    assert_eq!((span.1.line, span.1.column), (2, 0));
    assert_eq!(tree.get_node_kind(), "sum");
}

#[test]
fn parse_reports_unexpected_token_and_skips_it() {
    let l = lexer();
    let mut p = parser(&l);
    let (tree, errors) = p.parse(&tokens(&l, "1 + + 2"));
    assert_eq!(shape(&tree), "sum(expr(expr(NUMBER) PLUS NUMBER) EOF)");
    assert_eq!(errors.len(), 1);
    let ParserError::UnexpectedToken(token, position, expected) = &errors[0];
    assert_eq!(token.get_node_kind(), "PLUS");
    assert_eq!((position.line, position.column), (1, 4));
    assert_eq!(expected.iter().clone(), vec!["NUMBER".to_string()]);
    assert_eq!(errors[0].get_message(), "Unexpected token PLUS. Expected  at test.fuss:1:4");
}

#[test]
fn reset_parser_gives_the_same_tree_again() {
    let l = lexer();
    let mut p = parser(&l);
    let ts = tokens(&l, "3 + 4 + 5");
    let (first, _) = p.parse(&ts);
    p.reset();
    let (second, errors) = p.parse(&ts);
    assert!(errors.is_empty());
    assert_eq!(shape(&first), shape(&second));
    assert_eq!(shape(&second), "sum(expr(expr(expr(NUMBER) PLUS NUMBER) PLUS NUMBER) EOF)");
}

#[test]
fn table_actions_lead_to_rows_and_rules() {
    let l = lexer();
    let automata = build_automata_from_grammar(l.alphabet(), GRAMMAR).unwrap();
    let rows = automata.goto_table.len();
    let rules = automata.grammar.rules.len();
    assert_eq!(rules, 3);
    assert!(rows > 0);
    let mut shifts = 0;
    let mut reduces = 0;
    for row in automata.goto_table.iter() {
        for i in 0..row.len() {
            let (_, action) = row.entry(i);
            match action {
                LR1ParserAction::Shift(n) => {
                    shifts += 1;
                    assert!(n < rows);
                },
                LR1ParserAction::Reduce(r) => {
                    reduces += 1;
                    assert!(r < rules);
                },
            }
        }
    }
    assert!(shifts > 0 && reduces > 0);
    let start = &automata.goto_table[0];
    assert!(matches!(start.get(&"NUMBER".to_string()), Some(LR1ParserAction::Shift(_))));
    assert!(start.get(&"PLUS".to_string()).is_none());
}

#[test]
fn optional_symbols_give_every_variant() {
    let text = "a = B? C D?\r\n";
    assert!(parser_grammar_text_is_valid(text));
    let g = read_parser_grammar(text);
    let got: Vec<(String, Vec<String>)> = g.rules.iter().map(|r| (r.name.clone(), r.production.clone())).collect();
    let v = |xs: &[&str]| xs.iter().map(|x| x.to_string()).collect::<Vec<String>>();
    assert_eq!(
        got,
        vec![
            ("a".to_string(), v(&["C"])),
            ("a".to_string(), v(&["B", "C"])),
            ("a".to_string(), v(&["C", "D"])),
            ("a".to_string(), v(&["B", "C", "D"])),
        ]
    );
}

#[test]
fn invalid_parser_grammar_is_found() {
    assert!(!parser_grammar_text_is_valid("rule without sides\r\n"));
}

fn leaves(n: &ParserNode, out: &mut Vec<(String, String, usize)>) {
    match n {
        ParserNode::Terminal(t) => out.push((t.kind.clone(), t.text.clone(), t.position.column)),
        ParserNode::NonTerminal { children, .. } => {
            for c in children {
                leaves(c, out);
            }
        },
    }
}

#[test]
fn tree_leaves_are_the_tokens_in_order() {
    let l = lexer();
    let mut p = parser(&l);
    let ts = tokens(&l, "10 + 20 + 3");
    let (tree, errors) = p.parse(&ts);
    assert!(errors.is_empty());
    let mut got = Vec::new();
    leaves(&tree, &mut got);
    let want: Vec<(String, String, usize)> = ts.iter().map(|t| (t.kind.clone(), t.text.clone(), t.position.column)).collect();
    assert_eq!(got, want);
}

#[test]
fn reachable_empty_production_gives_no_parser() {
    let l = lexer();
    let grammar = "sum = expr EOF\r\nexpr = NUMBER? PLUS?\r\n";
    assert!(parser_grammar_text_is_valid(grammar));
    assert!(build_lr1_parser(l.alphabet(), grammar).is_none());
}

#[test]
fn unreachable_empty_production_still_builds() {
    let l = lexer();
    let grammar = "sum = NUMBER EOF\r\nother = PLUS?\r\n";
    assert!(parser_grammar_text_is_valid(grammar));
    let mut p = build_lr1_parser(l.alphabet(), grammar).expect("the empty rule is never reached");
    let (tree, errors) = p.parse(&tokens(&l, "7"));
    assert!(errors.is_empty());
    assert_eq!(shape(&tree), "sum(NUMBER EOF)");
}

#[test]
fn ambiguous_grammar_reports_the_shift_that_a_reduction_overrides() {
    let l = lexer();
    let grammar = "sum = expr EOF\r\nexpr = expr PLUS expr\r\nexpr = NUMBER\r\n";
    let p = build_lr1_parser(l.alphabet(), grammar).expect("the grammar has an automaton");
    let overrides = p.overrides();
    assert!(!overrides.is_empty());
    for o in overrides {
        assert_eq!(o.token, "PLUS");
        assert_eq!(o.rule, 1);
        assert!(matches!(o.previous, LR1ParserAction::Shift(_)));
    }
}

#[test]
fn unambiguous_grammar_reports_no_override() {
    let l = lexer();
    let p = parser(&l);
    assert!(p.overrides().is_empty());
}

fn row_text(row: &fuss_frontend::frontend_v0::parser::lr0_goto_table::ActionMap) -> Vec<String> {
    let mut v: Vec<String> = (0..row.len())
        .map(|i| {
            let (t, a) = row.entry(i);
            match a {
                LR1ParserAction::Shift(n) => format!("{t}:s{n}"),
                LR1ParserAction::Reduce(r) => format!("{t}:r{r}"),
            }
        })
        .collect();
    v.sort();
    v
}

#[test]
fn small_grammar_gives_the_exact_table() {
    let mut alphabet = fuss_frontend::collections::stable_ordered_set::StableOrderedSet::new();
    alphabet.insert("a".to_string());
    alphabet.insert("EOF".to_string());
    let grammar = read_parser_grammar("S = A EOF\r\nA = a\r\n");
    let automata = fuss_frontend::frontend_v0::parser::automaton::build_automata(&alphabet, grammar, "S".to_string())
        .expect("the grammar has an automaton");
    let rows: Vec<Vec<String>> = automata.goto_table.iter().map(row_text).collect();
    assert_eq!(
        rows,
        vec![vec!["A:s1".to_string(), "a:s2".to_string()], vec!["EOF:s3".to_string()], vec!["EOF:r1".to_string()], vec![]]
    );
    assert_eq!(automata.grammar.rules.len(), 2);
    assert!(automata.overrides.is_empty());
}
