//! A small regular-expression engine.
//!
//! A pattern is compiled in three stages: the [`lexer`] turns the pattern into
//! an infix token list with explicit concatenation tokens, the
//! [`postfix_converter`] reorders the tokens into postfix form, and the
//! [`parser`] builds a nondeterministic finite automaton from the postfix
//! stream.  The automaton is then run against a text by the set-based
//! simulation in [`rare`]; [`regex`] hands out the matched pieces of the text
//! themselves.
//!
//! Every stage has a mathematical model (a `spec` function over sequences),
//! and every executable function is proved to compute exactly what its model
//! says.  What it means for an automaton to accept a piece of text is defined
//! in [`semantics`], and what a pattern means in [`meaning`].  General facts
//! are proved in [`laws`]: what the automaton of each operator admits, with
//! the help of [`construction`]; that a compiled automaton accepts exactly
//! what its pattern means; and what compiling and matching do on particular
//! kinds of pattern, with the help of [`literal`], which follows patterns
//! without operators through the pipeline.
//!
//! Positions in patterns and texts count code points.
pub mod construction;
pub mod error;
pub mod laws;
pub mod lexer;
pub mod literal;
pub mod meaning;
pub mod parser;
pub mod postfix_converter;
pub mod rare;
pub mod regex;
pub mod semantics;
pub mod text;
