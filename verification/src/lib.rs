//! A compiler for SPL, a small imperative teaching language: parser, semantic analysis,
//! three-address code, basic-block graphs, data-flow analyses, optimizations and interpreters.
use vstd::prelude::*;

pub mod absyn;
pub mod types;
pub mod table;
pub mod text;
pub mod quadrupel;
pub mod builtins;
pub mod semant_spec;
pub mod semant_lemmas;
pub mod semant;
pub mod check;
pub mod codegen_spec;
pub mod translation;
pub mod codegen;
pub mod bits;
pub mod blocks;
pub mod worklist;
pub mod reaching;
pub mod live;
pub mod dce;
pub mod cp;
pub mod lattice;
pub mod value;
pub mod env;
pub mod clock;
pub mod tac_interp;
pub mod ast_interp;
pub mod cse;
pub mod tarjan;
pub mod licm;
pub mod dot;
pub mod listing;
pub mod lexer;
pub mod grammar;
pub mod parser;
pub mod gen_check;
pub mod pass_check;
pub mod translatable;

verus! {

} // verus!
