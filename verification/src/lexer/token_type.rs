//! Token kinds and their precedence.
use vstd::prelude::*;

verus! {

/// The kinds of token.
///
/// `Concat` never appears in a pattern: the scanner inserts it between two
/// adjacent operands.  `Escape` is what the scanner sees in a backslash; it is
/// never stored in a token list.  `Empty` labels the auxiliary states of an
/// automaton, which are entered without reading input.
#[derive(PartialEq, Eq, Clone, Copy, Debug, Structural)]
pub enum TokenType {
    Empty,
    LParen,
    RParen,
    Beam,
    Concat,
    QuestionMark,
    Plus,
    Star,
    Character(char),
    Dot,
    Escape,
    Hat,
    Dollar,
}

/// A token and the 0-based column of the pattern it was read at.
#[derive(PartialEq, Eq, Clone, Copy, Debug, Structural)]
pub struct Token {
    pub pos: usize,
    pub token_type: TokenType,
}

impl Token {
    pub fn new(pos: usize, token: TokenType) -> (t: Token)
        ensures
            t == (Token { pos, token_type: token }),
    {
        Token { pos, token_type: token }
    }
}

impl TokenType {
    /// Precedence, from low to high: parentheses, alternation, concatenation,
    /// quantifiers.  Everything that is not an operator ranks above them all.
    pub open spec fn spec_precedence(&self) -> u8 {
        match self {
            TokenType::LParen | TokenType::RParen => 0,
            TokenType::Beam => 1,
            TokenType::Concat => 2,
            TokenType::QuestionMark | TokenType::Plus | TokenType::Star => 3,
            _ => 4,
        }
    }

    /// Whether this token is an operator (a parenthesis counts as one).
    pub open spec fn spec_is_symbol(&self) -> bool {
        self.spec_precedence() <= 3
    }

    /// Whether a concatenation is pending after this token: true unless the
    /// token opens a new alternative.
    pub open spec fn spec_need_concat_next(&self) -> bool {
        !(*self is LParen || *self is Beam || *self is Hat)
    }

    /// Whether a pending concatenation is spliced in before this token.
    pub open spec fn starts_operand(&self) -> bool {
        *self is Character || *self is Dot || *self is LParen || *self is Dollar || *self is Hat
    }

    /// Whether this token repeats the operand in front of it.
    pub open spec fn is_quantifier(&self) -> bool {
        *self is QuestionMark || *self is Plus || *self is Star
    }

    #[verifier::when_used_as_spec(spec_precedence)]
    pub fn precedence(&self) -> (p: u8)
        ensures
            p == self.spec_precedence(),
    {
        match self {
            TokenType::LParen | TokenType::RParen => 0,
            TokenType::Beam => 1,
            TokenType::Concat => 2,
            TokenType::QuestionMark | TokenType::Plus | TokenType::Star => 3,
            _ => 4,
        }
    }

    #[verifier::when_used_as_spec(spec_is_symbol)]
    pub fn is_symbol(&self) -> (b: bool)
        ensures
            b == self.spec_is_symbol(),
    {
        self.precedence() <= 3
    }

    #[verifier::when_used_as_spec(spec_need_concat_next)]
    pub fn need_concat_next(&self) -> (b: bool)
        ensures
            b == self.spec_need_concat_next(),
    {
        match self {
            TokenType::LParen | TokenType::Beam | TokenType::Hat => false,
            _ => true,
        }
    }
}

} // verus!
