pub mod ast_errors;
pub mod common;
pub mod goto_table_errors;
pub mod lexer_errors;
pub mod parser_errors;
