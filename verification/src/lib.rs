use vstd::prelude::*;

pub mod assembled;
pub mod assembly;
pub mod ast;
pub mod chunk;
pub mod chars;
pub mod codec;
pub mod collect_fun_decls;
pub mod compile;
pub mod context;
pub mod punctuated;
pub mod reports;
pub mod resolvability;
pub mod resolver;
pub mod rle;
pub mod span;
pub mod token;
pub mod decoration;
pub mod diagnostic;
pub mod executable;
pub mod flat_resolution;
pub mod name_resolution;
pub mod name_pass;
pub mod lexer;
pub mod op;
pub mod parser;
pub mod printer;
pub mod scanner;

verus! {
} // verus!
