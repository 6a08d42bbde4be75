//! Command-interpretation core of a minimal interactive shell: a tokenizer,
//! a parser from one input line to chains of statements, and the decisions
//! that drive their execution.
pub mod builtin;
pub mod cmd;
pub mod error;
pub mod exec;
pub mod text;
