//! The scanner: from a pattern to an infix token list.
//!
//! The scanner reads the pattern one code point at a time.  It is in one of
//! two modes: normally each code point is classified by [`classify`]; right
//! after a backslash the next code point is taken literally.  Between two
//! adjacent operands it splices in a `Concat` token, so that concatenation is
//! an operator like any other for the later stages.
use vstd::prelude::*;
use crate::error::{SyntaxError, SyntaxErrorKind};
use crate::lexer::token_type::{Token, TokenType};
use crate::text::to_chars;

verus! {

/// What the scanner knows after reading a prefix of the pattern.
pub struct ScanState {
    /// The tokens emitted so far.
    pub tokens: Seq<Token>,
    /// Whether the last code point read was an unescaped backslash.
    pub escaped: bool,
    /// Whether a `Concat` goes in front of the next operand.
    pub concat_next: bool,
}

/// The token kind that an unescaped code point stands for.
pub open spec fn classify(c: char) -> TokenType {
    if c == '.' {
        TokenType::Dot
    } else if c == '*' {
        TokenType::Star
    } else if c == '|' {
        TokenType::Beam
    } else if c == '+' {
        TokenType::Plus
    } else if c == '^' {
        TokenType::Hat
    } else if c == '$' {
        TokenType::Dollar
    } else if c == '?' {
        TokenType::QuestionMark
    } else if c == '(' {
        TokenType::LParen
    } else if c == ')' {
        TokenType::RParen
    } else if c == '\\' {
        TokenType::Escape
    } else {
        TokenType::Character(c)
    }
}

/// Whether the next token would open an alternative: nothing has been emitted
/// yet, or the last token is `(` or `|`.
pub open spec fn opens_alternative(tokens: Seq<Token>) -> bool {
    tokens.len() == 0 || tokens.last().token_type is LParen || tokens.last().token_type is Beam
}

/// `tokens` with `token` appended at column `idx`, behind a `Concat` at the
/// same column if one is pending.
pub open spec fn push_operand(tokens: Seq<Token>, concat_next: bool, idx: usize, token: TokenType) -> Seq<
    Token,
> {
    if concat_next {
        tokens.push(Token { pos: idx, token_type: TokenType::Concat }).push(
            Token { pos: idx, token_type: token },
        )
    } else {
        tokens.push(Token { pos: idx, token_type: token })
    }
}

/// The scanner's state before the first code point.
pub open spec fn initial_scan_state() -> ScanState {
    ScanState { tokens: Seq::empty(), escaped: false, concat_next: false }
}

/// Reading the code point `c` at column `idx` in state `st`.
pub open spec fn scan_step(st: ScanState, idx: usize, c: char) -> Result<ScanState, SyntaxError> {
    if st.escaped {
        Ok(
            ScanState {
                tokens: push_operand(st.tokens, st.concat_next, idx, TokenType::Character(c)),
                escaped: false,
                concat_next: true,
            },
        )
    } else {
        let t = classify(c);
        if t is Escape {
            Ok(ScanState { tokens: st.tokens, escaped: true, concat_next: st.concat_next })
        } else if t is Hat {
            if opens_alternative(st.tokens) {
                Ok(
                    ScanState {
                        tokens: push_operand(st.tokens, st.concat_next, idx, t),
                        escaped: false,
                        concat_next: false,
                    },
                )
            } else {
                Err(SyntaxError { pos: idx, kind: SyntaxErrorKind::MisplacedHat })
            }
        } else if t.is_quantifier() {
            if opens_alternative(st.tokens) {
                Err(SyntaxError { pos: idx, kind: SyntaxErrorKind::QuantifierWithoutOperand })
            } else {
                Ok(
                    ScanState {
                        tokens: st.tokens.push(Token { pos: idx, token_type: t }),
                        escaped: false,
                        concat_next: true,
                    },
                )
            }
        } else if t.starts_operand() {
            Ok(
                ScanState {
                    tokens: push_operand(st.tokens, st.concat_next, idx, t),
                    escaped: false,
                    concat_next: t.spec_need_concat_next(),
                },
            )
        } else {
            Ok(
                ScanState {
                    tokens: st.tokens.push(Token { pos: idx, token_type: t }),
                    escaped: false,
                    concat_next: t.spec_need_concat_next(),
                },
            )
        }
    }
}

/// Reading the first `n` code points of `chars`, starting in state `st`.
pub open spec fn scan_run(st: ScanState, chars: Seq<char>, n: nat) -> Result<ScanState, SyntaxError>
    decreases n,
{
    if n == 0 {
        Ok(st)
    } else {
        match scan_run(st, chars, (n - 1) as nat) {
            Ok(prev) => scan_step(prev, (n - 1) as usize, chars[n - 1]),
            Err(e) => Err(e),
        }
    }
}

/// What is left to check when the pattern ends: a backslash must not be its
/// last code point.
pub open spec fn scan_finish(st: ScanState, len: nat) -> Result<ScanState, SyntaxError> {
    if st.escaped {
        Err(
            SyntaxError {
                pos: if len > 0 {
                    (len - 1) as usize
                } else {
                    0
                },
                kind: SyntaxErrorKind::TrailingEscape,
            },
        )
    } else {
        Ok(st)
    }
}

/// The whole of `chars` read from state `st`.
pub open spec fn scan_from(st: ScanState, chars: Seq<char>) -> Result<ScanState, SyntaxError> {
    match scan_run(st, chars, chars.len()) {
        Ok(end) => scan_finish(end, chars.len()),
        Err(e) => Err(e),
    }
}

/// The infix token list of a pattern, or the first error in it.
pub open spec fn spec_scan(pattern: Seq<char>) -> Result<Seq<Token>, SyntaxError> {
    match scan_from(initial_scan_state(), pattern) {
        Ok(st) => Ok(st.tokens),
        Err(e) => Err(e),
    }
}

/// Converts a pattern into an infix list of tokens.
pub struct Scanner<'a> {
    token_list: Vec<Token>,
    input: &'a str,
    escaped: bool,
    concat_next: bool,
}

impl<'a> Scanner<'a> {
    /// The scanner's state as a mathematical value.
    pub closed spec fn state(&self) -> ScanState {
        ScanState { tokens: self.token_list@, escaped: self.escaped, concat_next: self.concat_next }
    }

    /// The pattern this scanner reads.
    pub closed spec fn input(&self) -> Seq<char> {
        self.input@
    }

    /// Creates a scanner for `input_str` that has read nothing yet.
    pub fn new(input_str: &'a str) -> (s: Scanner<'a>)
        ensures
            s.state() == initial_scan_state(),
            s.input() == input_str@,
    {
        Scanner { token_list: Vec::new(), input: input_str, escaped: false, concat_next: false }
    }

    /// Scans the whole pattern.
    ///
    /// On success the scanner holds the tokens of the pattern behind those it
    /// held before.  The scan fails at the first misplaced `^` or quantifier,
    /// or at the end if the pattern ends in an unescaped backslash.
    pub fn scan(&mut self) -> (r: Result<(), SyntaxError>)
        ensures
            final(self).input() == old(self).input(),
            match scan_from(old(self).state(), old(self).input()) {
                Ok(st) => r is Ok && final(self).state() == st,
                Err(e) => r == Err::<(), SyntaxError>(e),
            },
    {
        let chars = to_chars(self.input);
        let n: usize = chars.len();
        let mut idx: usize = 0;
        while idx < n
            invariant
                idx <= n,
                n == chars@.len(),
                chars@ == old(self).input(),
                self.input() == old(self).input(),
                scan_run(old(self).state(), chars@, idx as nat) == Ok::<ScanState, SyntaxError>(
                    self.state(),
                ),
            decreases n - idx,
        {
            let input_char = chars[idx];
            let ret_token = if self.escaped {
                self.scan_escape(input_char)
            } else {
                self.scan_char(input_char)
            };
            let mut need_concat = ret_token.need_concat_next();
            let step: Result<(), SyntaxError> = match ret_token {
                TokenType::Escape => {
                    need_concat = self.concat_next;
                    Ok(())
                },
                TokenType::Character(_) | TokenType::Dot | TokenType::LParen | TokenType::Dollar => {
                    self.push_need_concat(idx, ret_token);
                    Ok(())
                },
                TokenType::Hat => self.handle_push_hat(idx),
                TokenType::QuestionMark | TokenType::Star | TokenType::Plus => {
                    self.handle_push_single_quantifier(idx, ret_token)
                },
                _ => {
                    self.token_list.push(Token::new(idx, ret_token));
                    Ok(())
                },
            };
            match step {
                Err(e) => {
                    proof {
                        lemma_scan_run_error_stays(old(self).state(), chars@, (idx + 1) as nat, n as nat);
                    }
                    return Err(e);
                },
                Ok(()) => {},
            }
            self.concat_next = need_concat;
            idx += 1;
        }
        if self.escaped {
            let pos: usize = if n > 0 {
                n - 1
            } else {
                0
            };
            return Err(SyntaxError::new(pos, SyntaxErrorKind::TrailingEscape));
        }
        Ok(())
    }

    /// Classifies a code point read in normal mode.  A backslash switches the
    /// scanner to taking the next code point literally.
    fn scan_char(&mut self, input_char: char) -> (t: TokenType)
        ensures
            t == classify(input_char),
            final(self).input() == old(self).input(),
            final(self).state() == (ScanState {
                tokens: old(self).state().tokens,
                escaped: old(self).state().escaped || t is Escape,
                concat_next: old(self).state().concat_next,
            }),
    {
        match input_char {
            '.' => TokenType::Dot,
            '*' => TokenType::Star,
            '|' => TokenType::Beam,
            '+' => TokenType::Plus,
            '^' => TokenType::Hat,
            '$' => TokenType::Dollar,
            '?' => TokenType::QuestionMark,
            '(' => TokenType::LParen,
            ')' => TokenType::RParen,
            '\\' => {
                self.escaped = true;
                TokenType::Escape
            },
            _ => TokenType::Character(input_char),
        }
    }

    /// Takes the code point behind a backslash literally and switches the
    /// scanner back to normal mode.
    fn scan_escape(&mut self, input_char: char) -> (t: TokenType)
        ensures
            t == TokenType::Character(input_char),
            final(self).input() == old(self).input(),
            final(self).state() == (ScanState {
                tokens: old(self).state().tokens,
                escaped: false,
                concat_next: old(self).state().concat_next,
            }),
    {
        self.escaped = false;
        TokenType::Character(input_char)
    }

    /// Reverses the token list, so that popping from it yields the tokens in
    /// the order they were read.
    pub fn reverse_token_list(&mut self)
        ensures
            final(self).input() == old(self).input(),
            final(self).state() == (ScanState {
                tokens: old(self).state().tokens.reverse(),
                escaped: old(self).state().escaped,
                concat_next: old(self).state().concat_next,
            }),
    {
        let n: usize = self.token_list.len();
        let mut reversed: Vec<Token> = Vec::new();
        let mut i: usize = n;
        while i > 0
            invariant
                i <= n,
                n == self.token_list@.len(),
                reversed@.len() == n - i,
                forall|j: int| 0 <= j < reversed@.len() ==> reversed@[j] == self.token_list@[n - 1 - j],
            decreases i,
        {
            i -= 1;
            reversed.push(self.token_list[i]);
        }
        assert(reversed@ =~= self.token_list@.reverse());
        self.token_list = reversed;
    }

    /// Gives up the scanner for its token list.
    pub fn move_vec(self) -> (v: Vec<Token>)
        ensures
            v@ == self.state().tokens,
    {
        self.token_list
    }

    /// Emits an operand at column `idx`, behind a `Concat` if one is pending.
    fn push_need_concat(&mut self, idx: usize, token: TokenType)
        ensures
            final(self).input() == old(self).input(),
            final(self).state() == (ScanState {
                tokens: push_operand(
                    old(self).state().tokens,
                    old(self).state().concat_next,
                    idx,
                    token,
                ),
                escaped: old(self).state().escaped,
                concat_next: old(self).state().concat_next,
            }),
    {
        if self.concat_next {
            self.token_list.push(Token::new(idx, TokenType::Concat));
        }
        self.token_list.push(Token::new(idx, token));
    }

    /// Emits `^`, which may only open an alternative.
    fn handle_push_hat(&mut self, idx: usize) -> (r: Result<(), SyntaxError>)
        ensures
            final(self).input() == old(self).input(),
            opens_alternative(old(self).state().tokens) ==> r is Ok && final(self).state() == (ScanState {
                tokens: push_operand(
                    old(self).state().tokens,
                    old(self).state().concat_next,
                    idx,
                    TokenType::Hat,
                ),
                escaped: old(self).state().escaped,
                concat_next: old(self).state().concat_next,
            }),
            !opens_alternative(old(self).state().tokens) ==> r == Err::<(), SyntaxError>(
                SyntaxError { pos: idx, kind: SyntaxErrorKind::MisplacedHat },
            ) && final(self).state() == old(self).state(),
    {
        let n: usize = self.token_list.len();
        if n > 0 {
            let last = self.token_list[n - 1].token_type;
            match last {
                TokenType::LParen | TokenType::Beam => {},
                _ => {
                    return Err(SyntaxError::new(idx, SyntaxErrorKind::MisplacedHat));
                },
            }
        }
        self.push_need_concat(idx, TokenType::Hat);
        Ok(())
    }

    /// Emits `*`, `+` or `?`, which needs an operand in front of it.
    fn handle_push_single_quantifier(&mut self, idx: usize, token: TokenType) -> (r: Result<
        (),
        SyntaxError,
    >)
        ensures
            final(self).input() == old(self).input(),
            !opens_alternative(old(self).state().tokens) ==> r is Ok && final(self).state() == (ScanState {
                tokens: old(self).state().tokens.push(Token { pos: idx, token_type: token }),
                escaped: old(self).state().escaped,
                concat_next: old(self).state().concat_next,
            }),
            opens_alternative(old(self).state().tokens) ==> r == Err::<(), SyntaxError>(
                SyntaxError { pos: idx, kind: SyntaxErrorKind::QuantifierWithoutOperand },
            ) && final(self).state() == old(self).state(),
    {
        let n: usize = self.token_list.len();
        if n == 0 {
            return Err(SyntaxError::new(idx, SyntaxErrorKind::QuantifierWithoutOperand));
        }
        let last = self.token_list[n - 1].token_type;
        match last {
            TokenType::LParen | TokenType::Beam => {
                Err(SyntaxError::new(idx, SyntaxErrorKind::QuantifierWithoutOperand))
            },
            _ => {
                self.token_list.push(Token::new(idx, token));
                Ok(())
            },
        }
    }
}

/// The scanner rejects a pattern only for a misplaced `^`, a quantifier
/// without operand, or a backslash at the end.
pub proof fn lemma_scan_error_kinds(st: ScanState, chars: Seq<char>, n: nat)
    ensures
        scan_run(st, chars, n) matches Err(e) ==> e.kind == SyntaxErrorKind::MisplacedHat || e.kind
            == SyntaxErrorKind::QuantifierWithoutOperand,
    decreases n,
{
    if n > 0 {
        lemma_scan_error_kinds(st, chars, (n - 1) as nat);
    }
}

/// Reading a code point emits at most two tokens.
pub proof fn lemma_scan_run_length(st: ScanState, chars: Seq<char>, n: nat)
    ensures
        scan_run(st, chars, n) matches Ok(end) ==> end.tokens.len() <= st.tokens.len() + 2 * n,
    decreases n,
{
    if n > 0 {
        lemma_scan_run_length(st, chars, (n - 1) as nat);
    }
}

/// Once a run has failed, reading further code points does not change the
/// error.
pub proof fn lemma_scan_run_error_stays(st: ScanState, chars: Seq<char>, m: nat, n: nat)
    requires
        m <= n,
        scan_run(st, chars, m) is Err,
    ensures
        scan_run(st, chars, n) == scan_run(st, chars, m),
    decreases n - m,
{
    if m < n {
        lemma_scan_run_error_stays(st, chars, m, (n - 1) as nat);
    }
}

} // verus!
