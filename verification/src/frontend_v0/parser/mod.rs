pub mod parser_grammar;
pub mod parser_raw_grammar;
pub mod symbol_sets;
pub mod lr1_automata_builder;
pub mod hydration;
pub mod lr0_goto_table;
pub mod state_space;
pub mod automaton;
pub mod common;
pub mod lr1_parser;
