//! Front end of the FUSS language: grammar readers, an LR(1) automaton
//! builder, a shift-reduce parser, a regex driven lexer and the builder of
//! the abstract syntax tree.

pub mod collections;
pub mod text;
pub mod frontend_v0;
