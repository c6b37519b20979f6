//! A lexer for Starlark source text.

pub mod diagnostic;
pub mod grammar;
pub mod indent;
pub mod laws;
pub mod layout;
pub mod lexer;
pub mod literals;
pub mod number;
pub mod order;
pub mod pieces;
pub mod quoting;
pub mod relex;
pub mod spelling;
pub mod state;
pub mod string_literal;
pub mod text;
pub mod token;
