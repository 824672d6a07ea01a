# fuss_frontend

The front end of the FUSS language, written in Verus: every function of the
library in `src/` carries a contract that Verus proves.

- `collections`: `StableOrderedSet`, a set that keeps its items in the order
  of their insertion.
- `text`: the handling of characters and lines that the grammar readers and
  the lexer need.
- `frontend_v0::lexer`: grammar files of tokens, and a lexer that matches
  their regular expressions (through the `regex` crate) and reports the
  characters that no rule matches.
- `frontend_v0::parser`: grammar files of the language (with optional
  symbols), the LR automaton of a grammar, its goto table, and the
  shift-reduce parser that runs it over the tokens of a file.
- `frontend_v0::ast_builder`: the builder of the abstract syntax tree from
  the parser's tree; `ast_spec` and `stmt_spec` say what it gives for every
  tree.
- `frontend_v0::errors`, `message_controller`: the errors of each stage and
  their messages.
- `frontend_v0::file_analyzer`, `project_reader`: the stages put together for
  one file, and the files that its imports name.

`app/main.rs` reads the grammar files and a source file from disk, prints the
entries of the goto table that reductions overrode, and runs the front end
over the files of the project. `tests/` holds the tests of the library.
