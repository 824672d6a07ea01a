pub mod lexer;
pub mod lexer_raw_grammar;
