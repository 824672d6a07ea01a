use fuss_frontend::frontend_v0::errors::common::MessageFactory;
use fuss_frontend::frontend_v0::errors::lexer_errors::LexerError;
use fuss_frontend::frontend_v0::lexer::common::lexer::{Position, Token};
use fuss_frontend::frontend_v0::lexer::common::lexer_raw_grammar::lexer_grammar_text_is_valid;
use fuss_frontend::frontend_v0::lexer::regex_lexer::{create_regex_lexer_from_grammar, Lexer, RegexLexer};

fn lexer(text: &str) -> RegexLexer {
    assert!(lexer_grammar_text_is_valid(text));
    create_regex_lexer_from_grammar(text).expect("the grammar compiles")
}

fn simple_lexer() -> RegexLexer {
    lexer("NUMBER = [0-9]+\r\nPLUS = \\+\r\n#FALLBACK IDENT = [a-z]+\r\n")
}

fn shape(t: &Token) -> (String, String, usize, usize, bool) {
    (t.text.clone(), t.kind.clone(), t.position.line, t.position.column, t.is_fallback)
}

#[test]
fn lexer_splits_tokens_with_positions() {
    let l = simple_lexer();
    let name = "test.fuss".to_string();
    let (tokens, errors) = l.tokenize(&name, "12 + ab\n3");
    assert!(errors.is_empty());
    let got: Vec<_> = tokens.iter().map(shape).collect();
    assert_eq!(
        got,
        vec![
            ("12".to_string(), "NUMBER".to_string(), 1, 0, false),
            ("+".to_string(), "PLUS".to_string(), 1, 3, false),
            ("ab".to_string(), "IDENT".to_string(), 1, 5, true),
            ("3".to_string(), "NUMBER".to_string(), 2, 0, false),
            ("".to_string(), "EOF".to_string(), 3, 0, false),
        ]
    );
    assert!(tokens.iter().all(|t| t.position.filename == "test.fuss"));
}

#[test]
fn lexer_reports_unknown_sequences() {
    let l = simple_lexer();
    let name = "f".to_string();
    let (tokens, errors) = l.tokenize(&name, "1 $$ 2");
    let got: Vec<_> = tokens.iter().map(shape).collect();
    assert_eq!(
        got,
        vec![
            ("1".to_string(), "NUMBER".to_string(), 1, 0, false),
            ("2".to_string(), "NUMBER".to_string(), 1, 3, false),
            ("".to_string(), "EOF".to_string(), 2, 0, false),
        ]
    );
    assert_eq!(errors.len(), 1);
    let (error, position) = &errors[0];
    match error {
        LexerError::UnknownCharSequence { sequence } => assert_eq!(sequence, "$$"),
    }
    assert_eq!((position.line, position.column), (1, 2));
    assert_eq!(error.get_message(), "Unknown char sequence \"$$\"");
}

#[test]
fn unknown_sequence_at_end_of_line_is_reported() {
    let l = simple_lexer();
    let name = "f".to_string();
    let (tokens, errors) = l.tokenize(&name, "7 %");
    assert_eq!(tokens.len(), 2);
    assert_eq!(errors.len(), 1);
    match &errors[0].0 {
        LexerError::UnknownCharSequence { sequence } => assert_eq!(sequence, "%"),
    }
    assert_eq!(errors[0].1.column, 2);
}

#[test]
fn longest_match_wins_and_first_rule_on_ties() {
    let l = lexer("LET = let\r\nIDENTIFIER = [a-z]+\r\n");
    let name = "f".to_string();
    let (tokens, _) = l.tokenize(&name, "let letter");
    assert_eq!(tokens[0].kind, "LET");
    assert_eq!(tokens[1].kind, "IDENTIFIER");
    assert_eq!(tokens[1].text, "letter");
    assert_eq!(tokens[1].position.column, 4);
}

#[test]
fn empty_file_has_only_the_end_token() {
    let l = simple_lexer();
    let name = "empty".to_string();
    let (tokens, errors) = l.tokenize(&name, "");
    assert!(errors.is_empty());
    assert_eq!(tokens.len(), 1);
    assert_eq!(shape(&tokens[0]), ("".to_string(), "EOF".to_string(), 1, 0, false));
}

#[test]
fn tokens_end_with_eof_after_the_last_line() {
    let l = simple_lexer();
    let name = "f".to_string();
    let (tokens, _) = l.tokenize(&name, "1\n2\n3\n");
    let last = tokens.last().unwrap();
    assert_eq!(last.kind, "EOF");
    assert_eq!(last.text, "");
    assert_eq!(last.position.line, 4);
}

#[test]
fn grammar_alphabet_has_rule_names_and_eof() {
    let l = simple_lexer();
    let names: Vec<String> = l.alphabet().iter().clone();
    assert_eq!(names, vec!["NUMBER", "PLUS", "IDENT", "EOF"]);
}

#[test]
fn bad_expression_gives_no_lexer() {
    assert!(create_regex_lexer_from_grammar("BAD = (\r\n").is_none());
    assert!(!lexer_grammar_text_is_valid("NO RULE HERE\r\n"));
}

#[test]
fn positions_and_token_ends() {
    let p = Position { filename: "a.fuss".to_string(), line: 3, column: 7 };
    assert_eq!(p.to_text(), "a.fuss:3:7");
    let t = Token { text: "abc".to_string(), kind: "IDENT".to_string(), position: p.clone(), is_fallback: false };
    let end = t.get_end_position();
    assert_eq!((end.line, end.column), (3, 10));
    assert_eq!(end.filename, "a.fuss");
}

#[test]
fn rule_names_are_escaped_as_token_kinds() {
    let l = lexer("Q\"X = q\r\nTAB\\ = t\r\n");
    let name = "f".to_string();
    let (tokens, _) = l.tokenize(&name, "q t");
    assert_eq!(tokens[0].kind, "Q\\\"X");
    assert_eq!(tokens[1].kind, "TAB\\\\");
}
