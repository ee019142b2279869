//! A small Lisp-family language front end: a backtracking parser built from
//! composable matchers, and a tree-walking evaluator.
//!
//! - [`expr`]: the expressions that the parser builds and the evaluator walks.
//! - [`parser_combinators`]: matchers over characters and their combinators.
//! - [`parser`]: the grammar of the language, and `parse`.
//! - [`env`]: the environment and the memoization cache.
//! - [`eval`]: the evaluator, and `eval`.
//! - [`render`]: the text form of an expression.
//! - [`parser_laws`], [`eval_laws`], [`round_trip`]: what is proved of them.
//! - [`text`]: strings and sequences of characters.
pub mod env;
pub mod eval;
pub mod eval_laws;
pub mod expr;
pub mod parser;
pub mod parser_combinators;
pub mod parser_laws;
pub mod render;
pub mod round_trip;
pub mod text;
