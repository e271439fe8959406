//! A parser for a small JavaScript-like expression language.
//!
//! The crate root holds the syntax tree (see `ast`) and re-exports the
//! parser of module `parser`; module `combinator` holds the second grammar
//! revision, which differs in how it reads parenthesised arrow functions,
//! string literals and map literals.
pub mod ast;
pub mod syntax;
mod outside;
pub mod scan;
pub mod engine;
pub mod iter;
pub mod parser;
pub mod combinator;
pub mod laws;

pub use parser::parse;

pub use ast::{
    AssignTarget, BinOp, BorrowedRepr, Expression, ExprV, Literal, LiteralV, Number, OwnedRepr,
    StrRepr, TargetV, UnaryOp,
};
