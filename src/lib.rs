//! A small declarative language for constructive solid geometry: a parser, an
//! evaluator, and a deferred combinator model of solids whose collapse yields
//! the operations a geometric kernel performs.
pub mod ast;
pub mod builtins;
pub mod geometry;
pub mod grammar;
pub mod lexer;
pub mod number;
pub mod parser;
pub mod runtime;
