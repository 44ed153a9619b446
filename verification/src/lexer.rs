//! Tokens of the pattern language and the scanner that produces them.
pub mod scanner;
pub mod token_type;
