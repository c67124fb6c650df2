//! A small symbolic-expression language front end: a string interner, a
//! tokenizer, a parser that accumulates structural errors, and a recursive
//! evaluator for a handful of arithmetic and control-flow primitives.

mod interner;

pub mod eval;
pub mod expr;
pub mod number;
pub mod parser;
pub mod render;
pub mod repl;
pub mod roundtrip;
pub mod table;
pub mod tokenizer;
