# spl_compiler

A compiler for SPL, a small imperative teaching language, written in Verus: the
library in `src/` is verified, the command-line front end in `app/` is plain Rust.

## Layout

- `lexer`, `grammar`, `parser`: tokens, the grammar as spec functions over the
  characters of the source text, and the recursive-descent parser that follows it.
- `absyn`, `types`, `table`, `builtins`: the syntax tree, types, symbol tables and the
  predefined procedures.
- `semant_spec`, `semant_lemmas`, `semant`, `check`: building the symbol tables and the
  semantic checks, against their specifications.
- `codegen_spec`, `translation`, `codegen`, `gen_check`, `translatable`: three-address
  code generation, its translation scheme, the test of its preconditions, and why checked
  programs meet them.
- `quadrupel`, `text`: quadruples, their algebraic simplification, decimal text.
- `blocks`, `tarjan`: block graphs built from three-address code, and their loops.
- `bits`, `lattice`, `worklist`, `reaching`, `live`, `cp`: the data-flow framework (its
  lattices, its solver and the traits an analysis implements) and the
  reaching-definitions, live-variables and constant-propagation analyses.
- `dce`, `cse`, `licm`, `pass_check`: dead-code elimination, common subexpression
  elimination, loop-invariant code motion, and the tests of their preconditions.
- `value`, `env`, `clock`, `ast_interp`, `tac_interp`: the two interpreters.
- `listing`, `dot`: the columns of the three-address code listing, and block graphs as
  text in the DOT language.

`app/main.rs` parses the options, reads the source file, prints the results of the
phases with their terminal colours, writes and shows the DOT files, and reports
run-time errors.

The tests under `tests/` exercise the library on concrete programs.
