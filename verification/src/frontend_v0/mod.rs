pub mod ast_builder;
pub mod errors;
pub mod file_analyzer;
pub mod lexer;
pub mod message_controller;
pub mod parser;
pub mod project_reader;
