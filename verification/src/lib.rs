//! A small interactive language runtime: a minimal Lisp dialect with an
//! alternate shell-command surface syntax.
//!
//! The crate is organised as a pipeline: source text is tokenized by the
//! [`lexer`], turned into a [`types::Program`] by the [`parser`], and handed
//! to the [`evaluator`], which resolves symbols through a chain of lexically
//! nested scopes held in an [`env::EnvArena`].  The [`printer`] renders
//! values back to text, and [`natives`] holds the native builtin
//! registry.  Shell programs are alias-resolved by the
//! [`shell_evaluator`]; running the resulting process is left to the
//! caller.

pub mod engine;
pub mod env;
pub mod error;
pub mod evaluator;
pub mod lexer;
pub mod natives;
pub mod parser;
pub mod printer;
pub mod shell_evaluator;
pub mod text;
pub mod token;
pub mod types;
