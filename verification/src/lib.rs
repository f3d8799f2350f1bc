//! A verified interpreter for a minimal stack-based, Forth-like language.
//!
//! Source text is split into whitespace-delimited tokens, each token is
//! classified into an instruction node, definition brackets are folded into
//! named procedures stored in a dictionary, and the remaining top-level
//! instructions are evaluated against a value stack under an explicit step
//! budget.

pub mod nodes;
pub mod lexer;
pub mod classify;
pub mod context;
pub mod eval;
pub mod loader;
pub mod render;
pub mod laws;
