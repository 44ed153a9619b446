//! The one error that compiling a pattern can raise.
use vstd::prelude::*;
use vstd::string::*;

verus! {

/// What is wrong with a pattern.
#[derive(PartialEq, Eq, Clone, Copy, Debug, Structural)]
pub enum SyntaxErrorKind {
    /// `*`, `+` or `?` with nothing in front of it to repeat.
    QuantifierWithoutOperand,
    /// `^` somewhere other than at the start of an alternative.
    MisplacedHat,
    /// `$` somewhere other than at the end of an alternative.
    MisplacedDollar,
    /// `)` with no `(` open.
    UnmatchedRParen,
    /// `(` that is never closed.
    UnmatchedLParen,
    /// `\` as the last character of the pattern.
    TrailingEscape,
    /// An operator reached the automaton builder without its operands.
    MissingOperand,
    /// A token that cannot occur in a postfix stream reached the builder.
    UnexpectedToken,
}

/// A compilation failure: what went wrong, and at which 0-based column of the
/// pattern.
#[derive(PartialEq, Eq, Clone, Copy, Debug, Structural)]
pub struct SyntaxError {
    pub pos: usize,
    pub kind: SyntaxErrorKind,
}

impl SyntaxErrorKind {
    /// The text that describes this kind of error.
    pub open spec fn text(self) -> Seq<char> {
        match self {
            SyntaxErrorKind::QuantifierWithoutOperand => "quantifier at beginning of statement"@,
            SyntaxErrorKind::MisplacedHat => "^ not at beginning of statement"@,
            SyntaxErrorKind::MisplacedDollar => "$ not at end"@,
            SyntaxErrorKind::UnmatchedRParen => "missing a ("@,
            SyntaxErrorKind::UnmatchedLParen => "extra ("@,
            SyntaxErrorKind::TrailingEscape => "escape at end of pattern"@,
            SyntaxErrorKind::MissingOperand => "insufficient value for operator"@,
            SyntaxErrorKind::UnexpectedToken => "unexpected token in postfix stream"@,
        }
    }

    /// A human-readable description of this kind of error.
    pub fn describe(&self) -> (s: &'static str)
        ensures
            s@ == self.text(),
    {
        match self {
            SyntaxErrorKind::QuantifierWithoutOperand => "quantifier at beginning of statement",
            SyntaxErrorKind::MisplacedHat => "^ not at beginning of statement",
            SyntaxErrorKind::MisplacedDollar => "$ not at end",
            SyntaxErrorKind::UnmatchedRParen => "missing a (",
            SyntaxErrorKind::UnmatchedLParen => "extra (",
            SyntaxErrorKind::TrailingEscape => "escape at end of pattern",
            SyntaxErrorKind::MissingOperand => "insufficient value for operator",
            SyntaxErrorKind::UnexpectedToken => "unexpected token in postfix stream",
        }
    }
}

impl SyntaxError {
    /// Builds an error of the given kind at column `pos`.
    pub fn new(pos: usize, kind: SyntaxErrorKind) -> (e: SyntaxError)
        ensures
            e == (SyntaxError { pos, kind }),
    {
        SyntaxError { pos, kind }
    }

    /// The message of this error, without its position.
    pub fn message(&self) -> (s: String)
        ensures
            s@ == self.kind.text(),
    {
        String::from_str(self.kind.describe())
    }
}

} // verus!
