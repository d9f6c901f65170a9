//! Lexical analysis for a small scripting language: turns source text into
//! classified tokens, or the first error met.
pub mod lexeme;
pub mod scanner;
pub mod token;
