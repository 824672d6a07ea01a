pub mod nodes;
pub mod ast_spec;
pub mod stmt_spec;
pub mod visitors;
