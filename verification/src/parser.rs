//! The automaton builder.
//!
//! The builder walks a postfix token stream with a stack of partial automata.
//! An operand pushes an automaton of one state; an operator pops its operands
//! and pushes the automaton that joins them.  Every automaton on the stack has
//! its entry at index 0 and its accepting state at the end, and no edge leaves
//! the accepting state.
//!
//! Concatenation merges its operands, fusing two `Empty` states where they
//! meet; since no edge leaves the accepting state of the first, nothing is
//! lost by that.  The quantifiers and the alternation link their operands
//! behind a fresh entry without fusing, and end in a fresh accepting state.
use vstd::prelude::*;
use crate::error::{SyntaxError, SyntaxErrorKind};
use crate::construction::{lemma_beam_forked, lemma_quantifiers_framed};
use crate::laws::{lemma_beam_means, lemma_merge_means, lemma_quantifiers_mean};
use crate::lexer::scanner::{initial_scan_state, lemma_scan_run_length, spec_scan, Scanner};
use crate::lexer::token_type::{Token, TokenType};
use crate::postfix_converter::{lemma_convert_length, no_parens, spec_convert, PostfixConverter};
use crate::rare::RARE;
use crate::semantics::{means_concat, means_either, means_repeated};
use crate::text::reverse_tokens;

pub mod nfa;
pub mod state;

use nfa::{single, spec_link, spec_merge, Nfa, NfaView};
use state::{State, StateView};

verus! {

/// The token of every auxiliary state.
pub open spec fn empty_token() -> Token {
    Token { pos: 0, token_type: TokenType::Empty }
}

/// The automaton of the empty pattern: one `Empty` state.
pub open spec fn seed() -> NfaView {
    single(empty_token())
}

/// `n` with one more edge, from state `s` to state `t`.
pub open spec fn add_edge_at(n: NfaView, s: int, t: int) -> NfaView {
    NfaView {
        states: n.states.update(
            s,
            StateView { token: n.states[s].token, edges: n.states[s].edges.push(t) },
        ),
        end: n.end,
    }
}

/// `x` linked behind a fresh `Empty` entry: what every quantifier and every
/// alternation starts from.  The fresh entry is never fused with the entry of
/// `x`: the edges that the operator gives the fresh entry must not come
/// within reach of a run that returns to the entry of `x` from inside `x`.
pub open spec fn wrap(x: NfaView) -> NfaView {
    spec_link(seed(), x)
}

/// `x*`: `x` behind a fresh entry, an edge from the end of `x` back to the
/// entry, a fresh `Empty` accepting state behind that, and an edge from the
/// entry past `x` to the accepting state.
pub open spec fn star_of(x: NfaView) -> NfaView {
    let w = wrap(x);
    let m = spec_link(add_edge_at(w, w.end, 0), seed());
    add_edge_at(m, 0, m.end)
}

/// `x+`: as `x*`, without the edge past `x`.
pub open spec fn plus_of(x: NfaView) -> NfaView {
    let w = wrap(x);
    spec_link(add_edge_at(w, w.end, 0), seed())
}

/// `x?`: as `x*`, without the edge back to the entry.
pub open spec fn question_of(x: NfaView) -> NfaView {
    let m = spec_link(wrap(x), seed());
    add_edge_at(m, 0, m.end)
}

/// `x|y`: a fresh `Empty` entry with `x` linked behind it, then `y` linked
/// behind the entry as well, and a fresh `Empty` accepting state that the end
/// of `x` and the end of `y` both lead to.
pub open spec fn beam_of(x: NfaView, y: NfaView) -> NfaView {
    let first = wrap(x);
    let both = spec_link(NfaView { states: first.states, end: 0 }, y);
    let sink = both.states.len() as int;
    let linked = add_edge_at(add_edge_at(both, first.end, sink), sink - 1, sink);
    NfaView {
        states: linked.states.push(StateView { token: empty_token(), edges: Seq::empty() }),
        end: sink,
    }
}

/// The left side of an alternation: the automaton below the top of the
/// stack, or the empty pattern if there is none.
pub open spec fn left_side(stack: Seq<NfaView>) -> NfaView {
    if stack.len() >= 2 {
        stack[stack.len() - 2]
    } else {
        seed()
    }
}

/// `stack` without its top two automata.
pub open spec fn drop_two(stack: Seq<NfaView>) -> Seq<NfaView> {
    stack.drop_last().drop_last()
}

/// What one postfix token does to the stack of partial automata.
pub open spec fn build_step(stack: Seq<NfaView>, tok: Token) -> Result<Seq<NfaView>, SyntaxError> {
    let n = stack.len() as int;
    let missing = Err::<Seq<NfaView>, SyntaxError>(
        SyntaxError { pos: tok.pos, kind: SyntaxErrorKind::MissingOperand },
    );
    match tok.token_type {
        TokenType::Concat => if n >= 2 {
            Ok(drop_two(stack).push(spec_merge(stack[n - 2], stack[n - 1])))
        } else {
            missing
        },
        TokenType::Beam => if n >= 2 {
            Ok(drop_two(stack).push(beam_of(stack[n - 2], stack[n - 1])))
        } else if n == 1 {
            Ok(stack.drop_last().push(beam_of(seed(), stack[0])))
        } else {
            missing
        },
        TokenType::Star => if n >= 1 {
            Ok(stack.drop_last().push(star_of(stack[n - 1])))
        } else {
            missing
        },
        TokenType::Plus => if n >= 1 {
            Ok(stack.drop_last().push(plus_of(stack[n - 1])))
        } else {
            missing
        },
        TokenType::QuestionMark => if n >= 1 {
            Ok(stack.drop_last().push(question_of(stack[n - 1])))
        } else {
            missing
        },
        TokenType::LParen | TokenType::RParen => Err(
            SyntaxError { pos: tok.pos, kind: SyntaxErrorKind::UnexpectedToken },
        ),
        _ => Ok(stack.push(single(tok))),
    }
}

/// The stack after the first `n` tokens of `tokens`, starting from `stack`.
pub open spec fn build_run(stack: Seq<NfaView>, tokens: Seq<Token>, n: nat) -> Result<
    Seq<NfaView>,
    SyntaxError,
>
    decreases n,
{
    if n == 0 {
        Ok(stack)
    } else {
        match build_run(stack, tokens, (n - 1) as nat) {
            Ok(prev) => build_step(prev, tokens[n - 1]),
            Err(e) => Err(e),
        }
    }
}

/// The automata of `stack` joined in front of `acc`, the top one nearest.
pub open spec fn merge_down(stack: Seq<NfaView>, acc: NfaView) -> NfaView
    decreases stack.len(),
{
    if stack.len() == 0 {
        acc
    } else {
        merge_down(stack.drop_last(), spec_merge(stack.last(), acc))
    }
}

/// All automata of `stack` joined into one, bottom first.  An empty stack
/// gives the automaton of the empty pattern.
pub open spec fn merge_all(stack: Seq<NfaView>) -> NfaView {
    if stack.len() == 0 {
        seed()
    } else {
        merge_down(stack.drop_last(), stack.last())
    }
}

/// The automaton built from `tokens` with `stack` as the initial stack.
pub open spec fn build_from(stack: Seq<NfaView>, tokens: Seq<Token>) -> Result<NfaView, SyntaxError> {
    match build_run(stack, tokens, tokens.len()) {
        Ok(end) => Ok(merge_all(end)),
        Err(e) => Err(e),
    }
}

/// The automaton of a postfix token stream.  The stack starts out holding the
/// automaton of the empty pattern, so that the result always begins with an
/// `Empty` entry.
pub open spec fn spec_build(postfix: Seq<Token>) -> Result<NfaView, SyntaxError> {
    build_from(seq![seed()], postfix)
}

/// The postfix token stream of a pattern.
pub open spec fn spec_postfix(pattern: Seq<char>) -> Result<Seq<Token>, SyntaxError> {
    match spec_scan(pattern) {
        Ok(tokens) => spec_convert(tokens),
        Err(e) => Err(e),
    }
}

/// The automaton of a pattern, or the first error found in it.
pub open spec fn spec_compile(pattern: Seq<char>) -> Result<NfaView, SyntaxError> {
    match spec_postfix(pattern) {
        Ok(postfix) => spec_build(postfix),
        Err(e) => Err(e),
    }
}

/// Whether every automaton of `stack` is well-formed and has its accepting
/// state last, with no edge leaving it.
pub open spec fn all_wf(stack: Seq<NfaView>) -> bool {
    forall|i: int| 0 <= i < stack.len() ==> (#[trigger] stack[i]).neat()
}

/// Joining two well-formed automata gives a well-formed automaton.
pub proof fn lemma_link_wf(a: NfaView, b: NfaView)
    requires
        a.wf(),
        b.wf(),
    ensures
        spec_link(a, b).wf(),
        spec_link(a, b).end == spec_link(a, b).states.len() - 1,
        spec_link(a, b).states.len() >= a.states.len(),
        spec_link(a, b).states[0].token == a.states[0].token,
{
}

/// Merging two well-formed automata gives a well-formed automaton, whose
/// accepting state is the last one; no edge leaves it if none left that of
/// the second and, where two states are fused, that of the first.
pub proof fn lemma_merge_wf(a: NfaView, b: NfaView)
    requires
        a.wf(),
        b.wf(),
    ensures
        spec_merge(a, b).wf(),
        spec_merge(a, b).end == spec_merge(a, b).states.len() - 1,
        spec_merge(a, b).states.len() >= a.states.len(),
        spec_merge(a, b).states.len() <= a.states.len() + b.states.len(),
        spec_merge(a, b).states[0].token.token_type == a.states[0].token.token_type,
        b.neat() && (a.fuses_with(b) ==> a.neat()) ==> spec_merge(a, b).neat(),
{
    lemma_link_wf(a, b);
    if a.fuses_with(b) {
        let m = spec_merge(a, b);
        assert forall|s: int, k: int| 0 <= s < m.states.len() && 0 <= k < m.states[s].edges.len() implies 0
            <= (#[trigger] m.states[s].edges[k]) < m.states.len() by {}
    }
}

/// Adding an edge between two states keeps an automaton well-formed.
pub proof fn lemma_add_edge_wf(n: NfaView, s: int, t: int)
    requires
        n.wf(),
        0 <= s < n.states.len(),
        0 <= t < n.states.len(),
    ensures
        add_edge_at(n, s, t).wf(),
        add_edge_at(n, s, t).states.len() == n.states.len(),
        add_edge_at(n, s, t).states[0].token == n.states[0].token,
{
}

/// The automata of the quantifiers are well-formed and begin with an `Empty`
/// entry.
pub proof fn lemma_quantifier_wf(x: NfaView)
    requires
        x.wf(),
    ensures
        wrap(x).wf(),
        star_of(x).wf(),
        plus_of(x).wf(),
        question_of(x).wf(),
        star_of(x).states[0].token == empty_token(),
        plus_of(x).states[0].token == empty_token(),
        question_of(x).states[0].token == empty_token(),
{
    let w = wrap(x);
    lemma_link_wf(seed(), x);
    lemma_add_edge_wf(w, w.end, 0);
    let looped = add_edge_at(w, w.end, 0);
    lemma_link_wf(looped, seed());
    let m = spec_link(looped, seed());
    lemma_add_edge_wf(m, 0, m.end);
    lemma_link_wf(w, seed());
    let q = spec_link(w, seed());
    lemma_add_edge_wf(q, 0, q.end);
}

/// The automaton of an alternation is well-formed and begins with an `Empty`
/// entry.
pub proof fn lemma_beam_wf(x: NfaView, y: NfaView)
    requires
        x.wf(),
        y.wf(),
    ensures
        beam_of(x, y).wf(),
        beam_of(x, y).states[0].token == empty_token(),
{
    let first = wrap(x);
    lemma_link_wf(seed(), x);
    let reset = NfaView { states: first.states, end: 0 };
    lemma_link_wf(reset, y);
}

/// One step of the builder keeps every automaton on the stack well-formed.
pub proof fn lemma_build_step_wf(stack: Seq<NfaView>, tok: Token)
    requires
        all_wf(stack),
        build_step(stack, tok) is Ok,
    ensures
        all_wf(build_step(stack, tok)->Ok_0),
{
    let n = stack.len() as int;
    match tok.token_type {
        TokenType::Concat => {
            lemma_merge_wf(stack[n - 2], stack[n - 1]);
        },
        TokenType::Beam => {
            if n >= 2 {
                lemma_beam_wf(stack[n - 2], stack[n - 1]);
            } else {
                lemma_beam_wf(seed(), stack[0]);
            }
        },
        TokenType::Star | TokenType::Plus | TokenType::QuestionMark => {
            lemma_quantifier_wf(stack[n - 1]);
        },
        _ => {},
    }
}

/// Whether the automaton at the bottom of `stack` begins with an `Empty`
/// entry.
pub open spec fn bottom_is_empty(stack: Seq<NfaView>) -> bool {
    stack.len() > 0 && stack[0].states[0].token.token_type is Empty
}

/// One step of the builder keeps an `Empty` entry at the bottom of the stack.
pub proof fn lemma_build_step_bottom(stack: Seq<NfaView>, tok: Token)
    requires
        all_wf(stack),
        bottom_is_empty(stack),
        build_step(stack, tok) is Ok,
    ensures
        bottom_is_empty(build_step(stack, tok)->Ok_0),
{
    let n = stack.len() as int;
    match tok.token_type {
        TokenType::Concat => {
            lemma_merge_wf(stack[n - 2], stack[n - 1]);
        },
        TokenType::Beam => {
            if n >= 2 {
                lemma_beam_wf(stack[n - 2], stack[n - 1]);
            } else {
                lemma_beam_wf(seed(), stack[0]);
            }
        },
        TokenType::Star | TokenType::Plus | TokenType::QuestionMark => {
            lemma_quantifier_wf(stack[n - 1]);
        },
        _ => {},
    }
}

/// A run of the builder keeps every automaton on the stack well-formed and an
/// `Empty` entry at the bottom of the stack; a stream without parentheses
/// can only fail for want of an operand.
pub proof fn lemma_build_run_shape(stack: Seq<NfaView>, tokens: Seq<Token>, n: nat)
    requires
        all_wf(stack),
        bottom_is_empty(stack),
        n <= tokens.len(),
        no_parens(tokens),
    ensures
        match build_run(stack, tokens, n) {
            Ok(s) => all_wf(s) && bottom_is_empty(s),
            Err(e) => e.kind == SyntaxErrorKind::MissingOperand,
        },
    decreases n,
{
    if n > 0 {
        lemma_build_run_shape(stack, tokens, (n - 1) as nat);
        match build_run(stack, tokens, (n - 1) as nat) {
            Ok(prev) => {
                let tok = tokens[n - 1];
                if build_step(prev, tok) is Ok {
                    lemma_build_step_wf(prev, tok);
                    lemma_build_step_bottom(prev, tok);
                }
            },
            Err(e) => {},
        }
    }
}

/// Joining the stack keeps the entry of the bottom automaton.
pub proof fn lemma_merge_down_shape(stack: Seq<NfaView>, acc: NfaView)
    requires
        all_wf(stack),
        acc.wf(),
    ensures
        merge_down(stack, acc).wf(),
        merge_down(stack, acc).states[0].token == if stack.len() > 0 {
            stack[0].states[0].token
        } else {
            acc.states[0].token
        },
    decreases stack.len(),
{
    if stack.len() > 0 {
        lemma_merge_wf(stack.last(), acc);
        lemma_merge_down_shape(stack.drop_last(), spec_merge(stack.last(), acc));
    }
}

/// An automaton built from a stream without parentheses is well-formed and
/// begins with an `Empty` entry; building can only fail for want of an
/// operand.
pub proof fn lemma_build_outcome(postfix: Seq<Token>)
    requires
        no_parens(postfix),
    ensures
        match spec_build(postfix) {
            Ok(n) => n.wf() && n.states[0].token.token_type is Empty,
            Err(e) => e.kind == SyntaxErrorKind::MissingOperand,
        },
{
    let st = seq![seed()];
    lemma_build_run_shape(st, postfix, postfix.len());
    match build_run(st, postfix, postfix.len()) {
        Ok(end) => {
            lemma_merge_down_shape(end.drop_last(), end.last());
        },
        Err(e) => {},
    }
}

/// The number of states of all automata of `stack` together.
pub open spec fn total_states(stack: Seq<NfaView>) -> int
    decreases stack.len(),
{
    if stack.len() == 0 {
        0
    } else {
        total_states(stack.drop_last()) + stack.last().states.len()
    }
}

/// One step of the builder adds at most three states.
pub proof fn lemma_build_step_total(stack: Seq<NfaView>, tok: Token)
    requires
        all_wf(stack),
    ensures
        build_step(stack, tok) matches Ok(s) ==> total_states(s) <= total_states(stack) + 3,
{
    let n = stack.len() as int;
    reveal_with_fuel(total_states, 3);
    if build_step(stack, tok) is Ok {
        let s = build_step(stack, tok)->Ok_0;
        assert(s.drop_last() =~= if tok.token_type is Concat || (tok.token_type is Beam && n >= 2) {
            drop_two(stack)
        } else if tok.token_type.spec_is_symbol() {
            stack.drop_last()
        } else {
            stack
        });
        if n >= 1 {
            lemma_quantifiers_framed(stack[n - 1]);
        }
        if tok.token_type is Concat {
            lemma_merge_wf(stack[n - 2], stack[n - 1]);
        }
        if tok.token_type is Beam {
            if n >= 2 {
                lemma_beam_forked(stack[n - 2], stack[n - 1]);
            } else {
                lemma_beam_forked(seed(), stack[0]);
            }
        }
    }
}

/// A run of the builder adds at most three states for every token.
pub proof fn lemma_build_run_total(stack: Seq<NfaView>, tokens: Seq<Token>, n: nat)
    requires
        all_wf(stack),
        n <= tokens.len(),
    ensures
        build_run(stack, tokens, n) matches Ok(s) ==> all_wf(s) && total_states(s) <= total_states(
            stack,
        ) + 3 * n,
    decreases n,
{
    if n > 0 {
        lemma_build_run_total(stack, tokens, (n - 1) as nat);
        if build_run(stack, tokens, (n - 1) as nat) is Ok {
            let prev = build_run(stack, tokens, (n - 1) as nat)->Ok_0;
            lemma_build_step_total(prev, tokens[n - 1]);
            if build_step(prev, tokens[n - 1]) is Ok {
                lemma_build_step_wf(prev, tokens[n - 1]);
            }
        }
    }
}

/// Merging a stack adds no state.
pub proof fn lemma_merge_down_total(stack: Seq<NfaView>, acc: NfaView)
    requires
        all_wf(stack),
        acc.wf(),
    ensures
        merge_down(stack, acc).states.len() <= total_states(stack) + acc.states.len(),
    decreases stack.len(),
{
    if stack.len() > 0 {
        lemma_merge_wf(stack.last(), acc);
        lemma_merge_down_total(stack.drop_last(), spec_merge(stack.last(), acc));
    }
}

/// An automaton built from `tokens` with `stack` as the initial stack has at
/// most as many states as the stack had, and three more for every token (and
/// at least room for the one state of the empty pattern).
pub proof fn lemma_build_from_size(stack: Seq<NfaView>, tokens: Seq<Token>)
    requires
        all_wf(stack),
    ensures
        build_from(stack, tokens) matches Ok(n) ==> n.states.len() <= total_states(stack) + 3
            * tokens.len() + 1,
{
    lemma_build_run_total(stack, tokens, tokens.len());
    if build_run(stack, tokens, tokens.len()) is Ok {
        let end = build_run(stack, tokens, tokens.len())->Ok_0;
        if end.len() > 0 {
            lemma_merge_down_total(end.drop_last(), end.last());
        }
    }
}

/// An automaton has at most three states for every token of the postfix
/// stream it is built from, and one more.
pub proof fn lemma_build_size(postfix: Seq<Token>)
    ensures
        spec_build(postfix) matches Ok(n) ==> n.states.len() <= 3 * postfix.len() + 1,
{
    let st = seq![seed()];
    reveal_with_fuel(total_states, 3);
    lemma_build_run_total(st, postfix, postfix.len());
    if build_run(st, postfix, postfix.len()) is Ok {
        let end = build_run(st, postfix, postfix.len())->Ok_0;
        if end.len() > 0 {
            lemma_merge_down_total(end.drop_last(), end.last());
        }
    }
}

/// Once a run has failed, further tokens do not change the error.
pub proof fn lemma_build_run_error_stays(stack: Seq<NfaView>, tokens: Seq<Token>, m: nat, n: nat)
    requires
        m <= n,
        build_run(stack, tokens, m) is Err,
    ensures
        build_run(stack, tokens, n) == build_run(stack, tokens, m),
    decreases n - m,
{
    if m < n {
        lemma_build_run_error_stays(stack, tokens, m, (n - 1) as nat);
    }
}

/// Builds the automaton of a pattern from its postfix token stream.
pub struct Parser {
    /// The postfix tokens still to take in, last one first.
    postfix_stack: Vec<Token>,
    nfa_stack: Vec<Nfa>,
}

impl Parser {
    /// Every automaton on the stack is well-formed and has its accepting
    /// state last, with no edge leaving it.
    pub open spec fn wf(&self) -> bool {
        all_wf(self.stack())
    }

    /// The postfix tokens still to take in, in reading order.
    pub closed spec fn remaining(&self) -> Seq<Token> {
        self.postfix_stack@.reverse()
    }

    /// The stack of partial automata, the top one last.
    pub closed spec fn stack(&self) -> Seq<NfaView> {
        self.nfa_stack@.map_values(|n: Nfa| n@)
    }

    /// Scans `regex` and converts it to postfix.  The parser that comes back
    /// has all of the postfix stream still to take in, and the automaton of
    /// the empty pattern as the only one on its stack.
    pub fn new(regex: &str) -> (r: Result<Parser, SyntaxError>)
        ensures
            match spec_postfix(regex@) {
                Ok(postfix) => {
                    &&& r is Ok
                    &&& r->Ok_0.remaining() == postfix
                    &&& r->Ok_0.stack() == seq![seed()]
                    &&& r->Ok_0.wf()
                    &&& postfix.len() <= 2 * regex@.len()
                },
                Err(e) => r == Err::<Parser, SyntaxError>(e),
            },
    {
        proof {
            lemma_scan_run_length(initial_scan_state(), regex@, regex@.len());
            if spec_scan(regex@) is Ok {
                lemma_convert_length(spec_scan(regex@)->Ok_0);
            }
        }
        let mut scanner = Scanner::new(regex);
        match scanner.scan() {
            Err(e) => {
                return Err(e);
            },
            Ok(()) => {},
        }
        let mut conv = PostfixConverter::from_scanner(scanner);
        match conv.convert() {
            Err(e) => {
                return Err(e);
            },
            Ok(()) => {},
        }
        let pfix = conv.move_postfix_vec();
        let pfix_stack = reverse_tokens(pfix);
        let mut nfa_stack: Vec<Nfa> = Vec::new();
        nfa_stack.push(Nfa::new(Token::new(0, TokenType::Empty)));
        let p = Parser { postfix_stack: pfix_stack, nfa_stack };
        Ok(p)
    }

    /// Takes in all remaining tokens and joins what is left on the stack into
    /// one automaton.
    pub fn parse(&mut self) -> (r: Result<RARE, SyntaxError>)
        requires
            old(self).wf(),
        ensures
            final(self).wf(),
            match build_from(old(self).stack(), old(self).remaining()) {
                Ok(n) => {
                    &&& r is Ok
                    &&& r->Ok_0@ == n
                    &&& final(self).remaining() == Seq::<Token>::empty()
                    &&& final(self).stack() == Seq::<NfaView>::empty()
                    &&& n.states.len() <= total_states(old(self).stack()) + 3 * old(
                        self,
                    ).remaining().len() + 1
                },
                Err(e) => r == Err::<RARE, SyntaxError>(e),
            },
    {
        let ghost tokens = self.remaining();
        let ghost start = self.stack();
        let ghost mut k: nat = 0;
        proof {
            lemma_build_from_size(start, tokens);
        }
        while self.postfix_stack.len() > 0
            invariant
                build_from(old(self).stack(), old(self).remaining()) matches Ok(n) ==> n.states.len()
                    <= total_states(old(self).stack()) + 3 * old(self).remaining().len() + 1,
                k <= tokens.len(),
                tokens == old(self).remaining(),
                start == old(self).stack(),
                self.remaining() == tokens.subrange(k as int, tokens.len() as int),
                build_run(start, tokens, k) == Ok::<Seq<NfaView>, SyntaxError>(self.stack()),
                self.wf(),
            decreases self.postfix_stack.len(),
        {
            let ghost pending = self.postfix_stack@;
            let tok = self.postfix_stack.pop().unwrap();
            proof {
                assert(pending.reverse().len() == pending.len());
                assert(tok == pending.reverse()[0]);
                assert forall|j: int| 0 <= j < pending.len() - 1 implies #[trigger] self.postfix_stack@.reverse()[j]
                    == tokens[k + 1 + j] by {
                    assert(pending.reverse()[j + 1] == pending[pending.len() - 2 - j]);
                }
                assert(self.postfix_stack@.reverse() =~= tokens.subrange(
                    k as int + 1,
                    tokens.len() as int,
                ));
            }
            let step = if tok.token_type.is_symbol() {
                self.handle_symbol(tok)
            } else {
                let ghost before = self.stack();
                self.nfa_stack.push(Nfa::new(tok));
                assert(self.stack() =~= before.push(single(tok)));
                Ok(())
            };
            match step {
                Err(e) => {
                    proof {
                        lemma_build_run_error_stays(start, tokens, k + 1, tokens.len());
                    }
                    return Err(e);
                },
                Ok(()) => {},
            }
            proof {
                k = k + 1;
            }
        }
        let ghost end = self.stack();
        let mut last = match self.nfa_stack.pop() {
            None => {
                return Ok(RARE::from_nfa(Nfa::new(Token::new(0, TokenType::Empty))));
            },
            Some(top) => top,
        };
        assert(self.stack() =~= end.drop_last());
        while self.nfa_stack.len() > 0
            invariant
                build_from(old(self).stack(), old(self).remaining()) matches Ok(n) ==> n.states.len()
                    <= total_states(old(self).stack()) + 3 * old(self).remaining().len() + 1,
                self.postfix_stack@.len() == 0,
                all_wf(self.stack()),
                last@.wf(),
                merge_down(self.stack(), last@) == merge_all(end),
            decreases self.nfa_stack.len(),
        {
            let ghost before = self.stack();
            let mut below = self.nfa_stack.pop().unwrap();
            assert(self.stack() =~= before.drop_last());
            proof {
                lemma_merge_wf(below@, last@);
            }
            below.merge(last);
            last = below;
        }
        Ok(RARE::from_nfa(last))
    }

    /// Applies the operator `input` to the top of the stack.
    fn handle_symbol(&mut self, input: Token) -> (r: Result<(), SyntaxError>)
        requires
            old(self).wf(),
            input.token_type.spec_is_symbol(),
        ensures
            final(self).wf(),
            final(self).remaining() == old(self).remaining(),
            match build_step(old(self).stack(), input) {
                Ok(s) => r is Ok && final(self).stack() == s,
                Err(e) => r == Err::<(), SyntaxError>(e),
            },
    {
        match input.token_type {
            TokenType::Concat => self.handle_concat(input.pos),
            TokenType::Beam => self.handle_beam(input.pos),
            TokenType::Star => self.handle_star(input.pos),
            TokenType::Plus => self.handle_plus(input.pos),
            TokenType::QuestionMark => self.handle_question_mark(input.pos),
            _ => Err(SyntaxError::new(input.pos, SyntaxErrorKind::UnexpectedToken)),
        }
    }

    /// Joins the top automaton behind the one below it.
    fn handle_concat(&mut self, pos: usize) -> (r: Result<(), SyntaxError>)
        requires
            old(self).wf(),
        ensures
            final(self).wf(),
            final(self).remaining() == old(self).remaining(),
            match build_step(old(self).stack(), Token { pos, token_type: TokenType::Concat }) {
                Ok(s) => r is Ok && final(self).stack() == s,
                Err(e) => r == Err::<(), SyntaxError>(e),
            },
            old(self).stack().len() >= 2 ==> means_concat(
                final(self).stack().last(),
                old(self).stack()[old(self).stack().len() - 2],
                old(self).stack().last(),
            ),
    {
        let ghost before = self.stack();
        if self.nfa_stack.len() < 2 {
            return Err(SyntaxError::new(pos, SyntaxErrorKind::MissingOperand));
        }
        let second_nfa = self.nfa_stack.pop().unwrap();
        let mut first_nfa = self.nfa_stack.pop().unwrap();
        proof {
            lemma_merge_wf(first_nfa@, second_nfa@);
        }
        first_nfa.merge(second_nfa);
        self.nfa_stack.push(first_nfa);
        assert(self.stack() =~= drop_two(before).push(
            spec_merge(before[before.len() - 2], before[before.len() - 1]),
        ));
        proof {
            lemma_merge_means(before[before.len() - 2], before[before.len() - 1]);
        }
        Ok(())
    }

    /// Replaces the top two automata by their alternation.  With only one
    /// automaton on the stack, the other side is the empty pattern.
    fn handle_beam(&mut self, pos: usize) -> (r: Result<(), SyntaxError>)
        requires
            old(self).wf(),
        ensures
            final(self).wf(),
            final(self).remaining() == old(self).remaining(),
            match build_step(old(self).stack(), Token { pos, token_type: TokenType::Beam }) {
                Ok(s) => r is Ok && final(self).stack() == s,
                Err(e) => r == Err::<(), SyntaxError>(e),
            },
            old(self).stack().len() >= 1 ==> means_either(
                final(self).stack().last(),
                left_side(old(self).stack()),
                old(self).stack().last(),
            ),
    {
        let ghost before = self.stack();
        let second_nfa = match self.nfa_stack.pop() {
            None => {
                return Err(SyntaxError::new(pos, SyntaxErrorKind::MissingOperand));
            },
            Some(ret) => ret,
        };
        let first_nfa = match self.nfa_stack.pop() {
            None => Nfa::new(Token::new(0, TokenType::Empty)),
            Some(ret) => ret,
        };
        let ghost x = first_nfa@;
        let ghost y = second_nfa@;
        let ghost rest = self.stack();
        proof {
            if before.len() >= 2 {
                assert(rest =~= drop_two(before));
            }
            lemma_link_wf(seed(), x);
        }
        let mut push_nfa = Nfa::new(Token::new(0, TokenType::Empty));
        push_nfa.link(first_nfa);
        // where the end of the first automaton is once it is joined
        let first_end: usize = push_nfa.end;
        push_nfa.end = 0;
        let ghost reset = NfaView { states: wrap(x).states, end: 0 };
        proof {
            lemma_link_wf(reset, y);
        }
        push_nfa.link(second_nfa);
        let ghost both = push_nfa@;
        let new_last_len: usize = push_nfa.states.len();
        push_nfa.states[first_end].add_edge(new_last_len);
        assert(push_nfa@.states =~= add_edge_at(both, first_end as int, new_last_len as int).states);
        let ghost l1 = push_nfa@;
        push_nfa.states[new_last_len - 1].add_edge(new_last_len);
        assert(push_nfa@.states =~= add_edge_at(l1, new_last_len - 1, new_last_len as int).states);
        push_nfa.add_state(State::new(Token::new(0, TokenType::Empty)));
        proof {
            lemma_beam_wf(x, y);
        }
        self.nfa_stack.push(push_nfa);
        assert(self.stack() =~= rest.push(beam_of(x, y)));
        proof {
            lemma_beam_means(x, y);
        }
        Ok(())
    }

    /// Replaces the top automaton `x` by `x*`.
    fn handle_star(&mut self, pos: usize) -> (r: Result<(), SyntaxError>)
        requires
            old(self).wf(),
        ensures
            final(self).wf(),
            final(self).remaining() == old(self).remaining(),
            match build_step(old(self).stack(), Token { pos, token_type: TokenType::Star }) {
                Ok(s) => r is Ok && final(self).stack() == s,
                Err(e) => r == Err::<(), SyntaxError>(e),
            },
            old(self).stack().len() >= 1 ==> means_repeated(
                final(self).stack().last(),
                old(self).stack().last(),
                0,
                false,
            ),
    {
        let ghost before = self.stack();
        let mut new_nfa = match self.new_single_quantifier_nfa(pos) {
            Err(e) => {
                return Err(e);
            },
            Ok(n) => n,
        };
        let ghost x = before.last();
        let ghost w = wrap(x);
        let ghost rest = self.stack();
        let end: usize = new_nfa.end;
        new_nfa.states[end].add_edge(0);
        assert(new_nfa@.states =~= add_edge_at(w, w.end, 0).states);
        proof {
            lemma_add_edge_wf(w, w.end, 0);
            lemma_link_wf(add_edge_at(w, w.end, 0), seed());
        }
        new_nfa.link(Nfa::new(Token::new(0, TokenType::Empty)));
        let ghost m = new_nfa@;
        let end: usize = new_nfa.end;
        new_nfa.states[0].add_edge(end);
        assert(new_nfa@.states =~= add_edge_at(m, 0, m.end).states);
        proof {
            lemma_quantifier_wf(x);
        }
        self.nfa_stack.push(new_nfa);
        assert(self.stack() =~= rest.push(star_of(x)));
        proof {
            lemma_quantifiers_mean(x);
        }
        Ok(())
    }

    /// Replaces the top automaton `x` by `x+`.
    fn handle_plus(&mut self, pos: usize) -> (r: Result<(), SyntaxError>)
        requires
            old(self).wf(),
        ensures
            final(self).wf(),
            final(self).remaining() == old(self).remaining(),
            match build_step(old(self).stack(), Token { pos, token_type: TokenType::Plus }) {
                Ok(s) => r is Ok && final(self).stack() == s,
                Err(e) => r == Err::<(), SyntaxError>(e),
            },
            old(self).stack().len() >= 1 ==> means_repeated(
                final(self).stack().last(),
                old(self).stack().last(),
                1,
                false,
            ),
    {
        let ghost before = self.stack();
        let mut new_nfa = match self.new_single_quantifier_nfa(pos) {
            Err(e) => {
                return Err(e);
            },
            Ok(n) => n,
        };
        let ghost x = before.last();
        let ghost w = wrap(x);
        let ghost rest = self.stack();
        let end: usize = new_nfa.end;
        new_nfa.states[end].add_edge(0);
        assert(new_nfa@.states =~= add_edge_at(w, w.end, 0).states);
        proof {
            lemma_add_edge_wf(w, w.end, 0);
            lemma_link_wf(add_edge_at(w, w.end, 0), seed());
        }
        new_nfa.link(Nfa::new(Token::new(0, TokenType::Empty)));
        proof {
            lemma_quantifier_wf(x);
        }
        self.nfa_stack.push(new_nfa);
        assert(self.stack() =~= rest.push(plus_of(x)));
        proof {
            lemma_quantifiers_mean(x);
        }
        Ok(())
    }

    /// Replaces the top automaton `x` by `x?`.
    fn handle_question_mark(&mut self, pos: usize) -> (r: Result<(), SyntaxError>)
        requires
            old(self).wf(),
        ensures
            final(self).wf(),
            final(self).remaining() == old(self).remaining(),
            match build_step(old(self).stack(), Token { pos, token_type: TokenType::QuestionMark }) {
                Ok(s) => r is Ok && final(self).stack() == s,
                Err(e) => r == Err::<(), SyntaxError>(e),
            },
            old(self).stack().len() >= 1 ==> means_repeated(
                final(self).stack().last(),
                old(self).stack().last(),
                0,
                true,
            ),
    {
        let ghost before = self.stack();
        let mut new_nfa = match self.new_single_quantifier_nfa(pos) {
            Err(e) => {
                return Err(e);
            },
            Ok(n) => n,
        };
        let ghost x = before.last();
        let ghost rest = self.stack();
        proof {
            lemma_link_wf(wrap(x), seed());
        }
        new_nfa.link(Nfa::new(Token::new(0, TokenType::Empty)));
        let ghost m = new_nfa@;
        let end: usize = new_nfa.end;
        new_nfa.states[0].add_edge(end);
        assert(new_nfa@.states =~= add_edge_at(m, 0, m.end).states);
        proof {
            lemma_quantifier_wf(x);
        }
        self.nfa_stack.push(new_nfa);
        assert(self.stack() =~= rest.push(question_of(x)));
        proof {
            lemma_quantifiers_mean(x);
        }
        Ok(())
    }

    /// Pops the top automaton and puts it behind a fresh `Empty` entry.
    fn new_single_quantifier_nfa(&mut self, pos: usize) -> (r: Result<Nfa, SyntaxError>)
        requires
            old(self).wf(),
        ensures
            final(self).wf(),
            final(self).remaining() == old(self).remaining(),
            old(self).stack().len() > 0 ==> {
                &&& r is Ok
                &&& r->Ok_0@ == wrap(old(self).stack().last())
                &&& r->Ok_0@.wf()
                &&& old(self).stack().last().wf()
                &&& final(self).stack() == old(self).stack().drop_last()
            },
            old(self).stack().len() == 0 ==> r == Err::<Nfa, SyntaxError>(
                SyntaxError { pos, kind: SyntaxErrorKind::MissingOperand },
            ),
    {
        let ghost before = self.stack();
        let last_nfa = match self.nfa_stack.pop() {
            Some(r) => r,
            None => {
                return Err(SyntaxError::new(pos, SyntaxErrorKind::MissingOperand));
            },
        };
        assert(last_nfa@ == before.last());
        assert(self.stack() =~= before.drop_last());
        proof {
            lemma_link_wf(seed(), last_nfa@);
        }
        let mut new_nfa = Nfa::new(Token::new(0, TokenType::Empty));
        new_nfa.link(last_nfa);
        Ok(new_nfa)
    }
}

} // verus!
