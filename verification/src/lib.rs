//! Front end for a small embedded scripting language: a position-tracking
//! lexer that turns source text into a token sequence, a lexically scoped
//! type and variable registry, and a backtracking statement parser driven by
//! an ordered list of grammar candidates.
//!
//! Every component carries a full functional specification: the lexer is
//! proved equal to a recursive specification of the token stream, and the
//! parser is proved equal to a recursive specification of the grammar.

pub mod lexer;
pub mod parser;
pub mod types;
