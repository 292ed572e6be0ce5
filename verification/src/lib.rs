//! Lexical analysis for a small dynamically-typed scripting language.
//!
//! The scanner turns raw source text into an ordered sequence of tokens,
//! each annotated with the 1-based line where it started. Invalid input is
//! reported as a diagnostic and skipped; scanning always reaches the end of
//! the input and always appends an end-of-input sentinel token.

pub mod error;
pub mod model;
pub mod scanner;
pub mod token;
pub mod token_type;
