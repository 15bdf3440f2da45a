//! A small interpreter for a minimal scripting language: a tokenizer, a
//! recursive-descent parser and a tree-walking evaluator over a flat store
//! of variable bindings.
use vstd::prelude::*;

pub mod token;
pub mod text;
pub mod lexer;
pub mod ast;
pub mod values;
pub mod interpreter;

verus! {

} // verus!
