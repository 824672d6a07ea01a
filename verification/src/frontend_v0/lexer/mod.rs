pub mod common;
pub mod lexer_regex_grammar;
pub mod regex_lexer;
