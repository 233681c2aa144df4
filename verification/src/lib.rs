//! Lexical analysis for a small SQL-like query language.
//!
//! The lexer turns raw source text into a flat sequence of classified,
//! position-tagged tokens, or reports the first position at which no
//! lexical category matches. Identifier-shaped lexemes are accepted only
//! when they spell a keyword (case-insensitively); free identifiers are
//! rejected, so that unrecognized words surface as lexing errors.

use vstd::prelude::*;

pub mod classes;
pub mod render;
pub mod scan;
pub mod token;

verus! {

pub use token::{Location, Keyword, Symbol, TokenValue, Token, ParseError};
pub use scan::lex;

} // verus!
