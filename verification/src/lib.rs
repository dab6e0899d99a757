use vstd::prelude::*;

pub mod ast;
pub mod config;
pub mod diagnostic;
pub mod lexer;
pub mod linter;
pub mod parser;
pub mod rules;
pub mod text;
pub mod token;

verus! {

} // verus!
