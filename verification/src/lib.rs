//! A minimal simply-typed lambda calculus: terms, types, a naming context,
//! a type checker, and a concrete-syntax parser.

pub mod ast;
pub mod context;
pub mod parser;
