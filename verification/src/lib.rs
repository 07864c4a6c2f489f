//! A dual-mode (eager numeric / lazy symbolic) expression reduction engine.
//!
//! Source text is lexed and parsed into an [`ast::Expr`], then reduced
//! against an [`Environment`] of bindings: numbers fold exactly, unbound
//! names keep the expression symbolic, and `simplify`, `expand` and
//! `derive` work on the expression itself.

pub mod numeric;
pub mod ast;
pub mod error;
mod text;
pub mod lexer;
pub mod parser;
pub mod env;
pub mod lambda;
pub mod simplify;
pub mod expand;
pub mod derive;
pub mod logic;
pub mod matrix;
pub mod engine;
pub mod config;
pub mod graph;
pub mod mode;
pub mod session;
pub mod prompt;

pub use engine::{eval, reduce, try_eval};
pub use env::{Environment, EvalResult};
pub use error::EvalError;
pub use parser::{parse, try_parse};
