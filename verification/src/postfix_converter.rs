//! From infix to postfix: the shunting-yard algorithm.
//!
//! Operands go straight to the output.  Operators wait on a stack until an
//! operator that binds no tighter arrives, or the group they stand in is
//! closed.
use vstd::prelude::*;
use crate::error::{SyntaxError, SyntaxErrorKind};
use crate::lexer::scanner::Scanner;
use crate::lexer::token_type::{Token, TokenType};

verus! {

/// The converter's two lists: the postfix output so far, and the operators
/// that wait (the top of the stack is the last element).
pub struct ConvState {
    pub output: Seq<Token>,
    pub symbols: Seq<Token>,
}

/// The converter's state before the first token.
pub open spec fn initial_conv_state() -> ConvState {
    ConvState { output: Seq::empty(), symbols: Seq::empty() }
}

/// Whether an alternative ends in front of position `k` of `tokens`: the
/// tokens end there, or the token there is `)` or `|`.
pub open spec fn at_end(tokens: Seq<Token>, k: int) -> bool {
    k >= tokens.len() || tokens[k].token_type is RParen || tokens[k].token_type is Beam
}

/// Moves operators from the stack to the output for as long as the top of the
/// stack is not `(` and binds at least as tightly as `prec`.
pub open spec fn pop_while(st: ConvState, prec: u8) -> ConvState
    decreases st.symbols.len(),
{
    if st.symbols.len() > 0 && !(st.symbols.last().token_type is LParen)
        && st.symbols.last().token_type.spec_precedence() >= prec {
        pop_while(
            ConvState {
                output: st.output.push(st.symbols.last()),
                symbols: st.symbols.drop_last(),
            },
            prec,
        )
    } else {
        st
    }
}

/// Moves operators from the stack to the output down to the nearest `(`,
/// which is dropped.  `None` if there is no `(` on the stack.
pub open spec fn pop_group(st: ConvState) -> Option<ConvState>
    decreases st.symbols.len(),
{
    if st.symbols.len() == 0 {
        None
    } else if st.symbols.last().token_type is LParen {
        Some(ConvState { output: st.output, symbols: st.symbols.drop_last() })
    } else {
        pop_group(
            ConvState {
                output: st.output.push(st.symbols.last()),
                symbols: st.symbols.drop_last(),
            },
        )
    }
}

/// Taking in an operand.  `$` is let through only where an alternative ends
/// behind it.
pub open spec fn operand_step(st: ConvState, tok: Token, end_follows: bool) -> Result<
    ConvState,
    SyntaxError,
> {
    if tok.token_type is Dollar && !end_follows {
        Err(SyntaxError { pos: tok.pos, kind: SyntaxErrorKind::MisplacedDollar })
    } else {
        Ok(ConvState { output: st.output.push(tok), symbols: st.symbols })
    }
}

/// Taking in an operator or a parenthesis.
pub open spec fn symbol_step(st: ConvState, tok: Token) -> Result<ConvState, SyntaxError> {
    if tok.token_type is LParen {
        Ok(ConvState { output: st.output, symbols: st.symbols.push(tok) })
    } else if tok.token_type is RParen {
        match pop_group(st) {
            Some(next) => Ok(next),
            None => Err(SyntaxError { pos: tok.pos, kind: SyntaxErrorKind::UnmatchedRParen }),
        }
    } else {
        let popped = pop_while(st, tok.token_type.spec_precedence());
        Ok(ConvState { output: popped.output, symbols: popped.symbols.push(tok) })
    }
}

/// Taking in one token; `end_follows` says whether an alternative ends right
/// behind it.
pub open spec fn conv_step(st: ConvState, tok: Token, end_follows: bool) -> Result<
    ConvState,
    SyntaxError,
> {
    if tok.token_type.spec_is_symbol() {
        symbol_step(st, tok)
    } else {
        operand_step(st, tok, end_follows)
    }
}

/// Taking in the first `n` tokens of `tokens`, starting in state `st`.
pub open spec fn conv_run(st: ConvState, tokens: Seq<Token>, n: nat) -> Result<ConvState, SyntaxError>
    decreases n,
{
    if n == 0 {
        Ok(st)
    } else {
        match conv_run(st, tokens, (n - 1) as nat) {
            Ok(prev) => conv_step(prev, tokens[n - 1], at_end(tokens, n as int)),
            Err(e) => Err(e),
        }
    }
}

/// Empties the operator stack onto the output when the input has ended.  A
/// `(` still on the stack was never closed.
pub open spec fn drain(st: ConvState) -> Result<Seq<Token>, SyntaxError>
    decreases st.symbols.len(),
{
    if st.symbols.len() == 0 {
        Ok(st.output)
    } else if st.symbols.last().token_type is LParen {
        Err(SyntaxError { pos: st.symbols.last().pos, kind: SyntaxErrorKind::UnmatchedLParen })
    } else {
        drain(
            ConvState {
                output: st.output.push(st.symbols.last()),
                symbols: st.symbols.drop_last(),
            },
        )
    }
}

/// The postfix form of all of `tokens`, taken in from state `st`.
pub open spec fn convert_from(st: ConvState, tokens: Seq<Token>) -> Result<Seq<Token>, SyntaxError> {
    match conv_run(st, tokens, tokens.len()) {
        Ok(end) => drain(end),
        Err(e) => Err(e),
    }
}

/// The postfix form of an infix token list, or the first error in it.
pub open spec fn spec_convert(tokens: Seq<Token>) -> Result<Seq<Token>, SyntaxError> {
    convert_from(initial_conv_state(), tokens)
}

/// Converts an infix token list into a postfix one.
pub struct PostfixConverter {
    /// The infix tokens still to take in, last one first.
    infix_token_stack: Vec<Token>,
    postfix_token_list: Vec<Token>,
    symbol_stack: Vec<Token>,
    done: bool,
}

impl PostfixConverter {
    /// The infix tokens still to take in, in reading order.
    pub closed spec fn remaining(&self) -> Seq<Token> {
        self.infix_token_stack@.reverse()
    }

    /// The output and the operator stack.
    pub closed spec fn state(&self) -> ConvState {
        ConvState { output: self.postfix_token_list@, symbols: self.symbol_stack@ }
    }

    /// Whether a conversion has run to its end.
    pub closed spec fn is_done(&self) -> bool {
        self.done
    }

    /// A converter that is about to take in the tokens of `scanner`.
    pub fn from_scanner(scanner: Scanner) -> (c: PostfixConverter)
        ensures
            c.remaining() == scanner.state().tokens,
            c.state() == initial_conv_state(),
            !c.is_done(),
    {
        let mut scanner = scanner;
        scanner.reverse_token_list();
        PostfixConverter {
            infix_token_stack: scanner.move_vec(),
            postfix_token_list: Vec::new(),
            symbol_stack: Vec::new(),
            done: false,
        }
    }

    /// Takes in all remaining tokens and empties the operator stack.
    ///
    /// On success the output holds the postfix form.  The conversion fails on
    /// a `$` that does not end an alternative and on unbalanced parentheses.
    pub fn convert(&mut self) -> (r: Result<(), SyntaxError>)
        ensures
            match convert_from(old(self).state(), old(self).remaining()) {
                Ok(out) => {
                    &&& r is Ok
                    &&& final(self).state() == (ConvState { output: out, symbols: Seq::empty() })
                    &&& final(self).remaining() == Seq::<Token>::empty()
                    &&& final(self).is_done()
                },
                Err(e) => r == Err::<(), SyntaxError>(e),
            },
    {
        let ghost tokens = self.remaining();
        let ghost start = self.state();
        let ghost mut k: nat = 0;
        while self.infix_token_stack.len() > 0
            invariant
                k <= tokens.len(),
                tokens == old(self).remaining(),
                start == old(self).state(),
                self.remaining() == tokens.subrange(k as int, tokens.len() as int),
                conv_run(start, tokens, k) == Ok::<ConvState, SyntaxError>(self.state()),
            decreases self.infix_token_stack.len(),
        {
            let ghost stack = self.infix_token_stack@;
            let tok = self.infix_token_stack.pop().unwrap();
            proof {
                assert(stack.reverse().len() == stack.len());
                assert(tok == stack.reverse()[0]);
                assert forall|j: int| 0 <= j < stack.len() - 1 implies #[trigger] self.infix_token_stack@.reverse()[j]
                    == tokens[k + 1 + j] by {
                    assert(stack.reverse()[j + 1] == stack[stack.len() - 2 - j]);
                }
                assert(self.infix_token_stack@.reverse() =~= tokens.subrange(
                    k as int + 1,
                    tokens.len() as int,
                ));
            }
            let step = if !tok.token_type.is_symbol() {
                self.push_non_symbol(tok)
            } else {
                self.push_symbol(tok)
            };
            match step {
                Err(e) => {
                    proof {
                        lemma_conv_run_error_stays(start, tokens, k + 1, tokens.len());
                    }
                    return Err(e);
                },
                Ok(()) => {},
            }
            proof {
                k = k + 1;
            }
        }
        let ghost end = self.state();
        while self.symbol_stack.len() > 0
            invariant
                self.infix_token_stack@.len() == 0,
                tokens == old(self).remaining(),
                start == old(self).state(),
                conv_run(start, tokens, tokens.len()) == Ok::<ConvState, SyntaxError>(end),
                drain(self.state()) == drain(end),
            decreases self.symbol_stack.len(),
        {
            let tok = self.symbol_stack.pop().unwrap();
            match tok.token_type {
                TokenType::LParen => {
                    return Err(SyntaxError::new(tok.pos, SyntaxErrorKind::UnmatchedLParen));
                },
                _ => {},
            }
            self.postfix_token_list.push(tok);
        }
        self.done = true;
        assert(self.symbol_stack@ =~= Seq::<Token>::empty());
        Ok(())
    }

    /// Gives up the converter for its output.
    pub fn move_postfix_vec(self) -> (v: Vec<Token>)
        ensures
            v@ == self.state().output,
    {
        self.postfix_token_list
    }

    /// Takes in an operand.
    fn push_non_symbol(&mut self, tok: Token) -> (r: Result<(), SyntaxError>)
        ensures
            final(self).remaining() == old(self).remaining(),
            final(self).is_done() == old(self).is_done(),
            match operand_step(old(self).state(), tok, at_end(old(self).remaining(), 0)) {
                Ok(st) => r is Ok && final(self).state() == st,
                Err(e) => r == Err::<(), SyntaxError>(e),
            },
    {
        match tok.token_type {
            TokenType::Dollar => {
                if !self.is_end() {
                    return Err(SyntaxError::new(tok.pos, SyntaxErrorKind::MisplacedDollar));
                }
                self.postfix_token_list.push(tok);
            },
            _ => {
                self.postfix_token_list.push(tok);
            },
        }
        Ok(())
    }

    /// Takes in an operator or a parenthesis.
    fn push_symbol(&mut self, tok: Token) -> (r: Result<(), SyntaxError>)
        ensures
            final(self).remaining() == old(self).remaining(),
            final(self).is_done() == old(self).is_done(),
            match symbol_step(old(self).state(), tok) {
                Ok(st) => r is Ok && final(self).state() == st,
                Err(e) => r == Err::<(), SyntaxError>(e),
            },
    {
        match tok.token_type {
            TokenType::LParen => {
                self.symbol_stack.push(tok);
            },
            TokenType::RParen => {
                while self.symbol_stack.len() > 0
                    invariant
                        tok.token_type is RParen,
                        self.remaining() == old(self).remaining(),
                        self.is_done() == old(self).is_done(),
                        pop_group(self.state()) == pop_group(old(self).state()),
                    decreases self.symbol_stack.len(),
                {
                    let pop_tok = self.symbol_stack.pop().unwrap();
                    match pop_tok.token_type {
                        TokenType::LParen => {
                            return Ok(());
                        },
                        _ => {},
                    }
                    self.postfix_token_list.push(pop_tok);
                }
                return Err(SyntaxError::new(tok.pos, SyntaxErrorKind::UnmatchedRParen));
            },
            _ => {
                let prec: u8 = tok.token_type.precedence();
                loop
                    invariant
                        self.remaining() == old(self).remaining(),
                        self.is_done() == old(self).is_done(),
                        pop_while(self.state(), prec) == pop_while(old(self).state(), prec),
                    ensures
                        self.state() == pop_while(old(self).state(), prec),
                    decreases self.symbol_stack.len(),
                {
                    let n: usize = self.symbol_stack.len();
                    if n == 0 {
                        break;
                    }
                    let top = self.symbol_stack[n - 1];
                    let stop = match top.token_type {
                        TokenType::LParen => true,
                        _ => top.token_type.precedence() < prec,
                    };
                    if stop {
                        break;
                    }
                    self.symbol_stack.pop();
                    self.postfix_token_list.push(top);
                }
                self.symbol_stack.push(tok);
            },
        }
        Ok(())
    }

    /// Whether an alternative ends in front of the next token to take in.
    fn is_end(&self) -> (b: bool)
        ensures
            b == at_end(self.remaining(), 0),
    {
        let n: usize = self.infix_token_stack.len();
        if n == 0 {
            true
        } else {
            match self.infix_token_stack[n - 1].token_type {
                TokenType::RParen | TokenType::Beam => true,
                _ => false,
            }
        }
    }
}

/// Whether `tokens` holds no parenthesis.
pub open spec fn no_parens(tokens: Seq<Token>) -> bool {
    forall|k: int|
        0 <= k < tokens.len() ==> !((#[trigger] tokens[k]).token_type is LParen)
            && !(tokens[k].token_type is RParen)
}

/// Whether the output of `st` holds no parenthesis and its stack no `)`.
pub open spec fn clean(st: ConvState) -> bool {
    &&& no_parens(st.output)
    &&& forall|k: int| 0 <= k < st.symbols.len() ==> !((#[trigger] st.symbols[k]).token_type is RParen)
}

/// Moving operators to the output brings no parenthesis there.
pub proof fn lemma_pop_while_clean(st: ConvState, prec: u8)
    requires
        clean(st),
    ensures
        clean(pop_while(st, prec)),
    decreases st.symbols.len(),
{
    if st.symbols.len() > 0 && !(st.symbols.last().token_type is LParen)
        && st.symbols.last().token_type.spec_precedence() >= prec {
        let next = ConvState {
            output: st.output.push(st.symbols.last()),
            symbols: st.symbols.drop_last(),
        };
        lemma_pop_while_clean(next, prec);
    }
}

/// Closing a group brings no parenthesis to the output.
pub proof fn lemma_pop_group_clean(st: ConvState)
    requires
        clean(st),
        pop_group(st) is Some,
    ensures
        clean(pop_group(st)->0),
    decreases st.symbols.len(),
{
    if st.symbols.len() > 0 {
        if !(st.symbols.last().token_type is LParen) {
            let next = ConvState {
                output: st.output.push(st.symbols.last()),
                symbols: st.symbols.drop_last(),
            };
            lemma_pop_group_clean(next);
        }
    }
}

/// Taking in tokens brings no parenthesis to the output.
pub proof fn lemma_conv_run_clean(st: ConvState, tokens: Seq<Token>, n: nat)
    requires
        clean(st),
        n <= tokens.len(),
        conv_run(st, tokens, n) is Ok,
    ensures
        clean(conv_run(st, tokens, n)->Ok_0),
    decreases n,
{
    if n > 0 {
        lemma_conv_run_clean(st, tokens, (n - 1) as nat);
        let prev = conv_run(st, tokens, (n - 1) as nat)->Ok_0;
        let tok = tokens[n - 1];
        if tok.token_type.spec_is_symbol() {
            if tok.token_type is RParen {
                lemma_pop_group_clean(prev);
            } else if !(tok.token_type is LParen) {
                lemma_pop_while_clean(prev, tok.token_type.spec_precedence());
            }
        }
    }
}

/// Emptying the stack brings no parenthesis to the output.
pub proof fn lemma_drain_clean(st: ConvState)
    requires
        clean(st),
        drain(st) is Ok,
    ensures
        no_parens(drain(st)->Ok_0),
    decreases st.symbols.len(),
{
    if st.symbols.len() > 0 {
        let next = ConvState {
            output: st.output.push(st.symbols.last()),
            symbols: st.symbols.drop_last(),
        };
        lemma_drain_clean(next);
    }
}

/// A postfix form holds no parenthesis.
pub proof fn lemma_convert_no_parens(tokens: Seq<Token>)
    requires
        spec_convert(tokens) is Ok,
    ensures
        no_parens(spec_convert(tokens)->Ok_0),
{
    lemma_conv_run_clean(initial_conv_state(), tokens, tokens.len());
    lemma_drain_clean(conv_run(initial_conv_state(), tokens, tokens.len())->Ok_0);
}

/// The converter rejects a token list only for a misplaced `$` or an
/// unbalanced parenthesis.
pub proof fn lemma_convert_error_kinds(tokens: Seq<Token>)
    ensures
        spec_convert(tokens) matches Err(e) ==> e.kind == SyntaxErrorKind::MisplacedDollar || e.kind
            == SyntaxErrorKind::UnmatchedRParen || e.kind == SyntaxErrorKind::UnmatchedLParen,
{
    lemma_conv_run_error_kinds(initial_conv_state(), tokens, tokens.len());
    if conv_run(initial_conv_state(), tokens, tokens.len()) is Ok {
        lemma_drain_error_kinds(conv_run(initial_conv_state(), tokens, tokens.len())->Ok_0);
    }
}

/// Taking in tokens fails only for a misplaced `$` or a `)` without `(`.
pub proof fn lemma_conv_run_error_kinds(st: ConvState, tokens: Seq<Token>, n: nat)
    ensures
        conv_run(st, tokens, n) matches Err(e) ==> e.kind == SyntaxErrorKind::MisplacedDollar || e.kind
            == SyntaxErrorKind::UnmatchedRParen,
    decreases n,
{
    if n > 0 {
        lemma_conv_run_error_kinds(st, tokens, (n - 1) as nat);
    }
}

/// Emptying the stack fails only for a `(` without `)`.
pub proof fn lemma_drain_error_kinds(st: ConvState)
    ensures
        drain(st) matches Err(e) ==> e.kind == SyntaxErrorKind::UnmatchedLParen,
    decreases st.symbols.len(),
{
    if st.symbols.len() > 0 && !(st.symbols.last().token_type is LParen) {
        lemma_drain_error_kinds(
            ConvState {
                output: st.output.push(st.symbols.last()),
                symbols: st.symbols.drop_last(),
            },
        );
    }
}

/// The number of tokens that the converter holds, in its output and on its
/// stack.
pub open spec fn held(st: ConvState) -> nat {
    st.output.len() + st.symbols.len()
}

/// Moving operators to the output keeps the number of tokens held.
pub proof fn lemma_pop_while_held(st: ConvState, prec: u8)
    ensures
        held(pop_while(st, prec)) == held(st),
    decreases st.symbols.len(),
{
    if st.symbols.len() > 0 && !(st.symbols.last().token_type is LParen)
        && st.symbols.last().token_type.spec_precedence() >= prec {
        lemma_pop_while_held(
            ConvState {
                output: st.output.push(st.symbols.last()),
                symbols: st.symbols.drop_last(),
            },
            prec,
        );
    }
}

/// Closing a group does not raise the number of tokens held.
pub proof fn lemma_pop_group_held(st: ConvState)
    ensures
        pop_group(st) matches Some(end) ==> held(end) <= held(st),
    decreases st.symbols.len(),
{
    if st.symbols.len() > 0 && !(st.symbols.last().token_type is LParen) {
        lemma_pop_group_held(
            ConvState {
                output: st.output.push(st.symbols.last()),
                symbols: st.symbols.drop_last(),
            },
        );
    }
}

/// Taking in a token raises the number of tokens held by at most one.
pub proof fn lemma_conv_run_held(st: ConvState, tokens: Seq<Token>, n: nat)
    ensures
        conv_run(st, tokens, n) matches Ok(end) ==> held(end) <= held(st) + n,
    decreases n,
{
    if n > 0 {
        lemma_conv_run_held(st, tokens, (n - 1) as nat);
        if conv_run(st, tokens, (n - 1) as nat) is Ok {
            let prev = conv_run(st, tokens, (n - 1) as nat)->Ok_0;
            lemma_pop_group_held(prev);
            lemma_pop_while_held(prev, tokens[n - 1].token_type.spec_precedence());
        }
    }
}

/// Emptying the stack gives as many tokens as were held.
pub proof fn lemma_drain_length(st: ConvState)
    ensures
        drain(st) matches Ok(out) ==> out.len() == held(st),
    decreases st.symbols.len(),
{
    if st.symbols.len() > 0 && !(st.symbols.last().token_type is LParen) {
        lemma_drain_length(
            ConvState {
                output: st.output.push(st.symbols.last()),
                symbols: st.symbols.drop_last(),
            },
        );
    }
}

/// A postfix form is no longer than the infix form it comes from.
pub proof fn lemma_convert_length(tokens: Seq<Token>)
    ensures
        spec_convert(tokens) matches Ok(postfix) ==> postfix.len() <= tokens.len(),
{
    lemma_conv_run_held(initial_conv_state(), tokens, tokens.len());
    if conv_run(initial_conv_state(), tokens, tokens.len()) is Ok {
        lemma_drain_length(conv_run(initial_conv_state(), tokens, tokens.len())->Ok_0);
    }
}

/// Once a run has failed, taking in further tokens does not change the error.
pub proof fn lemma_conv_run_error_stays(st: ConvState, tokens: Seq<Token>, m: nat, n: nat)
    requires
        m <= n,
        conv_run(st, tokens, m) is Err,
    ensures
        conv_run(st, tokens, n) == conv_run(st, tokens, m),
    decreases n - m,
{
    if m < n {
        lemma_conv_run_error_stays(st, tokens, m, (n - 1) as nat);
    }
}

} // verus!
